//! Names of the files that a run reads and writes: directory listings, the
//! CSV export's name, and the time stamps of archived CSV files.
use polars::prelude::SerReader;
use vstd::prelude::*;

use crate::dates::{chrono_datetime, parse_datetime, parts_text};
use crate::table::KeyedTable;
use crate::text::{
    file_extension, file_stem, join_path, joined_path, output_lines, path_extension, path_stem,
    split_at_char, split_chars, string_of_str, text_lines, to_lowercase, unicode_lowercase,
    utf8_text,
};

verus! {

/// The format of the time stamp in an archived CSV file's name.
pub const TIMESTAMP_FORMAT: &'static str = "%Y%m%d%H%M";

/// The paths `dir` joined with each line of the UTF-8 listing `output`, or the
/// decoding error's message.
pub fn listed_paths(dir: &str, output: Vec<u8>) -> (r: Result<Vec<String>, String>)
    ensures
        match utf8_text(output@) {
            Some(t) => r matches Ok(ps) && ps@.len() == text_lines(t).len() && forall|k: int|
                0 <= k < ps@.len() ==> #[trigger] ps@[k]@ == joined_path(dir@, text_lines(t)[k]),
            None => r is Err,
        },
{
    let names = output_lines(output)?;
    let mut paths: Vec<String> = Vec::new();
    let mut i: usize = 0;
    while i < names.len()
        invariant
            i <= names@.len(),
            paths@.len() == i,
            forall|k: int| 0 <= k < i ==> #[trigger] paths@[k]@ == joined_path(dir@, names@[k]@),
        decreases names@.len() - i,
    {
        paths.push(join_path(dir, names[i].as_str()));
        i = i + 1;
    }
    Ok(paths)
}

/// The name of the CSV export: `output` where it is not empty, else the file
/// stem of `input` with ".csv" after it (`None` where `input` has no stem).
pub open spec fn export_name(input: Seq<char>, output: Seq<char>) -> Option<Seq<char>> {
    if output.len() > 0 {
        Some(output)
    } else {
        match path_stem(input) {
            Some(s) => Some(s + ".csv"@),
            None => None,
        }
    }
}

/// The name of the CSV export for the DP file `input` and the requested name `output`.
pub fn output_name(input: &str, output: &str) -> (r: Option<String>)
    ensures
        match export_name(input@, output@) {
            Some(n) => r matches Some(s) && s@ == n,
            None => r is None,
        },
{
    if !output.is_empty() {
        return Some(string_of_str(output));
    }
    match file_stem(input) {
        Some(stem) => {
            let mut name = stem;
            name.append(".csv");
            Some(name)
        },
        None => None,
    }
}

/// What an archive entry's name says about it.
pub enum EntryKey {
    /// Not a CSV file: its extension is not "csv" in any case.
    NotCsv,
    /// A CSV file without a file stem.
    NoStem,
    /// A CSV file with no time stamp among the '_'-separated parts of its stem.
    NoTimestamp,
    /// A CSV file; the first time stamp in its stem, as chrono displays it.
    Timestamp(String),
}

/// Whether the path `name` has the extension "csv", in any case.
pub open spec fn is_csv_name(name: Seq<char>) -> bool {
    match path_extension(name) {
        Some(e) => unicode_lowercase(e) == "csv"@,
        None => false,
    }
}

/// The first of `tokens` that chrono reads as a time stamp, read.
pub open spec fn first_timestamp(tokens: Seq<Seq<char>>) -> Option<
    (int, int, int, int, int, int, int),
>
    decreases tokens.len(),
{
    if tokens.len() == 0 {
        None
    } else {
        match chrono_datetime(tokens[0], TIMESTAMP_FORMAT@) {
            Some(t) => Some(t),
            None => first_timestamp(tokens.drop_first()),
        }
    }
}

/// The text form of a time stamp read by chrono.
pub open spec fn stamp_text(t: (int, int, int, int, int, int, int)) -> Seq<char> {
    parts_text(t.0, t.1 as nat, t.2 as nat, t.3 as nat, t.4 as nat, t.5 as nat, t.6 as nat)
}

/// What the archive entry named `name` is: skipped unless its extension is
/// "csv" in any case; otherwise keyed by the first '_'-separated part of its
/// file stem that reads as a time stamp in `TIMESTAMP_FORMAT`.
pub fn entry_key(name: &str) -> (r: EntryKey)
    ensures
        !is_csv_name(name@) ==> r is NotCsv,
        is_csv_name(name@) ==> match path_stem(name@) {
            None => r is NoStem,
            Some(stem) => match first_timestamp(split_at_char(stem, '_')) {
                None => r is NoTimestamp,
                Some(t) => r matches EntryKey::Timestamp(k) && k@ == stamp_text(t),
            },
        },
{
    let is_csv = match file_extension(name) {
        Some(ext) => {
            let lower = to_lowercase(ext.as_str());
            lower == string_of_str("csv")
        },
        None => false,
    };
    if !is_csv {
        return EntryKey::NotCsv;
    }
    let stem = match file_stem(name) {
        Some(s) => s,
        None => return EntryKey::NoStem,
    };
    let tokens = split_chars(stem.as_str(), '_');
    let ghost toks = split_at_char(stem@, '_');
    let mut i: usize = 0;
    assert(tokens@.len() == toks.len());
    assert(toks.skip(0) =~= toks);
    while i < tokens.len()
        invariant
            is_csv_name(name@),
            path_stem(name@) == Some(stem@),
            toks == split_at_char(stem@, '_'),
            i <= tokens@.len(),
            tokens@.len() == toks.len(),
            forall|k: int| 0 <= k < tokens@.len() ==> #[trigger] tokens@[k]@ == toks[k],
            first_timestamp(toks) == first_timestamp(toks.skip(i as int)),
        decreases tokens@.len() - i,
    {
        assert(toks.skip(i as int)[0] == toks[i as int]);
        assert(toks.skip(i as int).drop_first() =~= toks.skip(i + 1));
        match parse_datetime(tokens[i].as_str(), TIMESTAMP_FORMAT) {
            Some(p) => {
                return EntryKey::Timestamp(p.to_text());
            },
            None => {},
        }
        i = i + 1;
    }
    assert(toks.skip(i as int) =~= Seq::<Seq<char>>::empty());
    EntryKey::NoTimestamp
}

/// A polars data frame. A declaration of `polars::prelude::DataFrame` itself
/// is refused (its `Index` impls name types that cannot be declared), so the
/// frame is kept in a field that the proofs do not see.
#[verifier::external_body]
pub struct PolarsFrame {
    frame: polars::prelude::DataFrame,
}

/// A data frame read from CSV text: the frame, the names of its columns in
/// order, and (for the proofs) the text it was read from.
pub struct CsvFrame {
    frame: PolarsFrame,
    columns: Vec<String>,
    source: Ghost<Seq<u8>>,
}

/// A frame as a mathematical value: the CSV text it was read from and the
/// names of its columns.
pub struct FrameModel {
    pub source: Seq<u8>,
    pub columns: Seq<Seq<char>>,
}

/// The texts of a sequence of strings.
pub open spec fn texts_of(v: Seq<String>) -> Seq<Seq<char>> {
    Seq::new(v.len(), |i: int| v[i]@)
}

impl View for CsvFrame {
    type V = FrameModel;

    closed spec fn view(&self) -> FrameModel {
        FrameModel { source: self.source@, columns: texts_of(self.columns@) }
    }
}

/// The names of the columns that polars' `CsvReader`, with its default
/// options, takes from the header line of the CSV text `bytes`.
pub uninterp spec fn polars_csv_columns(bytes: Seq<u8>) -> Seq<Seq<char>>;

/// polars' `CsvReader::new(..).finish()` on `bytes`, with the column names of
/// the frame (`DataFrame::get_column_names`) copied out and the error turned
/// into its message. Claimed: where it reads the text, the columns are named
/// as `polars_csv_columns(bytes)`, in order. Whether it reads the text, and its
/// message where it does not, are left open: they depend on how the text is
/// cut into chunks for the threads. It returns rather than panics only while
/// the environment variable `POLARS_PANIC_ON_ERR` is unset.
#[verifier::external_body]
fn polars_read_csv(bytes: Vec<u8>) -> (r: Result<(PolarsFrame, Vec<String>), String>)
    ensures
        r matches Ok((_, cols)) ==> texts_of(cols@) == polars_csv_columns(bytes@),
{
    polars::prelude::CsvReader::new(std::io::Cursor::new(bytes)).finish().map(
        |frame| {
            let columns = frame.get_column_names().iter().map(|c| c.to_string()).collect();
            (PolarsFrame { frame }, columns)
        },
    ).map_err(|e| e.to_string())
}

impl CsvFrame {
    /// The number of columns of the frame (what `DataFrame::width` gives).
    pub fn width(&self) -> (r: usize)
        ensures
            r == self@.columns.len(),
    {
        self.columns.len()
    }
}

/// The frame read from the CSV text `csv`, as a mathematical value.
pub open spec fn frame_of(csv: Seq<u8>) -> FrameModel {
    FrameModel { source: csv, columns: polars_csv_columns(csv) }
}

/// Reads the CSV text `csv` to a data frame and puts it under `key`; where
/// polars refuses the text, the table is left as it was and polars' message
/// comes back.
pub fn add_frame(frames: &mut KeyedTable<CsvFrame>, key: String, csv: Vec<u8>) -> (r: Result<
    (),
    String,
>)
    ensures
        r is Ok ==> {
            &&& final(frames)@.dom() == old(frames)@.dom().insert(key@)
            &&& final(frames)@[key@]@ == frame_of(csv@)
            &&& forall|k: Seq<char>|
                k != key@ && old(frames)@.dom().contains(k) ==> #[trigger] final(frames)@[k]
                    == old(frames)@[k]
        },
        r is Err ==> final(frames)@ == old(frames)@,
{
    let ghost source = csv@;
    let (frame, columns) = polars_read_csv(csv)?;
    let f = CsvFrame { frame, columns, source: Ghost(source) };
    frames.insert(key, f);
    Ok(())
}

// ---------------------------------------------------------------------------
// Zip archives of CSV files
/// The number of entries of the zip archive `archive` (`zip::ZipArchive::new`,
/// then `len`), or the message of the zip reader's error.
pub uninterp spec fn zip_entry_count(archive: Seq<u8>) -> Result<nat, Seq<char>>;

/// The name of entry `i` of the zip archive `archive` (`ZipArchive::by_index`,
/// then `ZipFile::name`), or the message of the zip reader's error.
pub uninterp spec fn zip_entry_name(archive: Seq<u8>, i: int) -> Result<Seq<char>, Seq<char>>;

/// The content of entry `i` of the zip archive `archive` (`ZipArchive::by_index`,
/// then reading the entry to its end), or the message of the error.
pub uninterp spec fn zip_entry_data(archive: Seq<u8>, i: int) -> Result<Seq<u8>, Seq<char>>;

/// `zip::ZipArchive::new` on the bytes `archive`, then `ZipArchive::len`, the
/// error turned into its message. Claimed: the outcome is `zip_entry_count(archive)`.
#[verifier::external_body]
fn zip_count(archive: &[u8]) -> (r: Result<usize, String>)
    ensures
        match zip_entry_count(archive@) {
            Ok(n) => r matches Ok(k) && k == n,
            Err(m) => r matches Err(x) && x@ == m,
        },
{
    zip::ZipArchive::new(std::io::Cursor::new(archive)).map(|a| a.len()).map_err(|e| e.to_string())
}

/// `zip::ZipArchive::new` on the bytes `archive`, `by_index(i)` and
/// `ZipFile::name`, the name copied out and an error turned into its message.
/// Claimed: the outcome is `zip_entry_name(archive, i)`.
#[verifier::external_body]
fn zip_name(archive: &[u8], i: usize) -> (r: Result<String, String>)
    ensures
        match zip_entry_name(archive@, i as int) {
            Ok(n) => r matches Ok(x) && x@ == n,
            Err(m) => r matches Err(x) && x@ == m,
        },
{
    let mut a = zip::ZipArchive::new(std::io::Cursor::new(archive)).map_err(|e| e.to_string())?;
    let file = a.by_index(i).map_err(|e| e.to_string())?;
    file.name().map(|n| n.into_owned()).map_err(|e| e.to_string())
}

/// `zip::ZipArchive::new` on the bytes `archive`, `by_index(i)` and
/// `Read::read_to_end` on the entry, an error turned into its message.
/// Claimed: the outcome is `zip_entry_data(archive, i)`.
#[verifier::external_body]
fn zip_data(archive: &[u8], i: usize) -> (r: Result<Vec<u8>, String>)
    ensures
        match zip_entry_data(archive@, i as int) {
            Ok(d) => r matches Ok(x) && x@ == d,
            Err(m) => r matches Err(x) && x@ == m,
        },
{
    let mut a = zip::ZipArchive::new(std::io::Cursor::new(archive)).map_err(|e| e.to_string())?;
    let mut file = a.by_index(i).map_err(|e| e.to_string())?;
    let mut data = Vec::new();
    std::io::Read::read_to_end(&mut file, &mut data).map_err(|e| e.to_string())?;
    Ok(data)
}

/// Why the entries of an archive could not all be taken in.
pub enum ArchiveError {
    /// The zip reader refuses the archive or one of its entries; its message.
    Unreadable(String),
    /// A CSV entry without a file stem; the entry's name.
    NoStem(String),
    /// A CSV entry with no time stamp in its file stem; the entry's name.
    NoTimestamp(String),
}

/// An `ArchiveError` as a mathematical value.
pub enum ArchiveStop {
    Unreadable(Seq<char>),
    NoStem(Seq<char>),
    NoTimestamp(Seq<char>),
}

impl View for ArchiveError {
    type V = ArchiveStop;

    open spec fn view(&self) -> ArchiveStop {
        match self {
            ArchiveError::Unreadable(m) => ArchiveStop::Unreadable(m@),
            ArchiveError::NoStem(n) => ArchiveStop::NoStem(n@),
            ArchiveError::NoTimestamp(n) => ArchiveStop::NoTimestamp(n@),
        }
    }
}

/// The message of an archive error.
pub open spec fn archive_message(e: ArchiveStop) -> Seq<char> {
    match e {
        ArchiveStop::Unreadable(m) => m,
        ArchiveStop::NoStem(_) => "Failed to get the file stem."@,
        ArchiveStop::NoTimestamp(n) => "Failed to extract to datetime from file name: "@ + n,
    }
}

impl ArchiveError {
    /// The message of this error.
    pub fn message(&self) -> (r: String)
        ensures
            r@ == archive_message(self@),
    {
        match self {
            ArchiveError::Unreadable(m) => m.clone(),
            ArchiveError::NoStem(_) => string_of_str("Failed to get the file stem."),
            ArchiveError::NoTimestamp(n) => {
                let mut m = string_of_str("Failed to extract to datetime from file name: ");
                m.append(n.as_str());
                m
            },
        }
    }
}

/// What happened to a CSV entry of an archive.
pub enum FrameEvent {
    /// Its frame went under `key`; it has `width` columns.
    Added { key: String, width: usize },
    /// polars refused the entry named `name`, with `message`.
    Refused { name: String, message: String },
}

/// A `FrameEvent` as a mathematical value (the message left out).
pub enum FrameEventModel {
    Added(Seq<char>, nat),
    Refused(Seq<char>),
}

impl View for FrameEvent {
    type V = FrameEventModel;

    open spec fn view(&self) -> FrameEventModel {
        match self {
            FrameEvent::Added { key, width } => FrameEventModel::Added(key@, *width as nat),
            FrameEvent::Refused { name, .. } => FrameEventModel::Refused(name@),
        }
    }
}

/// The events `s` as mathematical values.
pub open spec fn event_models(s: Seq<FrameEvent>) -> Seq<FrameEventModel> {
    Seq::new(s.len(), |i: int| s[i]@)
}

/// The frames of a table as mathematical values, key by key.
pub open spec fn frame_models(m: Map<Seq<char>, CsvFrame>) -> Map<Seq<char>, FrameModel> {
    Map::new(|k: Seq<char>| m.dom().contains(k), |k: Seq<char>| m[k]@)
}

/// The frames (by key) and the events so far.
pub type ArchiveState = (Map<Seq<char>, FrameModel>, Seq<FrameEventModel>);

/// What entry `i` of `archive` does to the frames `m`, where `accepted` says
/// whether polars reads the entry's content should it come to that. An entry
/// that is not CSV is skipped before its content is read; a CSV entry stops
/// the reading where it has no stem or no time stamp; otherwise the frame read
/// from its content goes under its time stamp, replacing one there, or, where
/// polars refuses the content, the entry is skipped and its refusal noted.
pub open spec fn entry_step(
    archive: Seq<u8>,
    i: int,
    m: Map<Seq<char>, FrameModel>,
    accepted: bool,
) -> Result<ArchiveState, ArchiveStop> {
    match zip_entry_name(archive, i) {
        Err(msg) => Err(ArchiveStop::Unreadable(msg)),
        Ok(name) => if !is_csv_name(name) {
            Ok((m, Seq::empty()))
        } else {
            match path_stem(name) {
                None => Err(ArchiveStop::NoStem(name)),
                Some(stem) => match first_timestamp(split_at_char(stem, '_')) {
                    None => Err(ArchiveStop::NoTimestamp(name)),
                    Some(t) => match zip_entry_data(archive, i) {
                        Err(msg) => Err(ArchiveStop::Unreadable(msg)),
                        Ok(data) => if accepted {
                            Ok(
                                (
                                    m.insert(stamp_text(t), frame_of(data)),
                                    seq![
                                        FrameEventModel::Added(
                                            stamp_text(t),
                                            polars_csv_columns(data).len(),
                                        ),
                                    ],
                                ),
                            )
                        } else {
                            Ok((m, seq![FrameEventModel::Refused(name)]))
                        },
                    },
                },
            }
        },
    }
}

/// The frames and events after the first `n` entries of `archive`, in order,
/// starting from `m`, where `accepted[i]` says whether polars reads entry `i`;
/// or the error that stopped the reading, with the frames and events as they
/// were when it came.
pub open spec fn entries_fold(
    archive: Seq<u8>,
    n: nat,
    m: Map<Seq<char>, FrameModel>,
    accepted: Seq<bool>,
) -> Result<ArchiveState, (ArchiveStop, Map<Seq<char>, FrameModel>, Seq<FrameEventModel>)>
    decreases n,
{
    if n == 0 {
        Ok((m, Seq::empty()))
    } else {
        match entries_fold(archive, (n - 1) as nat, m, accepted) {
            Err(x) => Err(x),
            Ok((m1, ev1)) => match entry_step(archive, n - 1, m1, accepted[n - 1]) {
                Ok((m2, ev2)) => Ok((m2, ev1 + ev2)),
                Err(e) => Err((e, m1, ev1)),
            },
        }
    }
}

/// The frames and events after all entries of `archive`, starting from `m`,
/// or the error that stopped the reading with the frames and events as they
/// were when it came.
pub open spec fn archive_frames(
    archive: Seq<u8>,
    m: Map<Seq<char>, FrameModel>,
    accepted: Seq<bool>,
) -> Result<ArchiveState, (ArchiveStop, Map<Seq<char>, FrameModel>, Seq<FrameEventModel>)> {
    match zip_entry_count(archive) {
        Err(msg) => Err((ArchiveStop::Unreadable(msg), m, Seq::empty())),
        Ok(n) => entries_fold(archive, n, m, accepted),
    }
}

/// `true` where the table `frames_after` and the events `events_after` are the
/// outcome `outcome` of reading an archive into a table that was `frames_before`
/// with events `events_before`, and `r` is the matching result.
pub open spec fn archive_outcome(
    outcome: Result<ArchiveState, (ArchiveStop, Map<Seq<char>, FrameModel>, Seq<FrameEventModel>)>,
    r: Result<(), ArchiveError>,
    events_before: Seq<FrameEvent>,
    frames_after: Map<Seq<char>, CsvFrame>,
    events_after: Seq<FrameEvent>,
) -> bool {
    match outcome {
        Ok((m, ev)) => r is Ok && frame_models(frames_after) == m && event_models(events_after)
            == event_models(events_before) + ev,
        Err((e, m, ev)) => r matches Err(x) && x@ == e && frame_models(frames_after) == m
            && event_models(events_after) == event_models(events_before) + ev,
    }
}

proof fn lemma_fold_stops(
    archive: Seq<u8>,
    k: nat,
    n: nat,
    m: Map<Seq<char>, FrameModel>,
    accepted: Seq<bool>,
)
    requires
        k <= n,
        entries_fold(archive, k, m, accepted) is Err,
    ensures
        entries_fold(archive, n, m, accepted) == entries_fold(archive, k, m, accepted),
    decreases n - k,
{
    if k < n {
        lemma_fold_stops(archive, k, (n - 1) as nat, m, accepted);
    }
}

proof fn lemma_fold_prefix(
    archive: Seq<u8>,
    k: nat,
    m: Map<Seq<char>, FrameModel>,
    a: Seq<bool>,
    b: Seq<bool>,
)
    requires
        forall|j: int| 0 <= j < k ==> a[j] == b[j],
    ensures
        entries_fold(archive, k, m, a) == entries_fold(archive, k, m, b),
    decreases k,
{
    if k > 0 {
        lemma_fold_prefix(archive, (k - 1) as nat, m, a, b);
        assert(a[k - 1] == b[k - 1]);
    }
}

proof fn lemma_frame_models_insert(
    before: Map<Seq<char>, CsvFrame>,
    after: Map<Seq<char>, CsvFrame>,
    key: Seq<char>,
    f: FrameModel,
)
    requires
        after.dom() == before.dom().insert(key),
        after[key]@ == f,
        forall|k: Seq<char>|
            k != key && before.dom().contains(k) ==> #[trigger] after[k] == before[k],
    ensures
        frame_models(after) == frame_models(before).insert(key, f),
{
    assert(frame_models(after) =~= frame_models(before).insert(key, f));
}

proof fn lemma_event_models_push(s: Seq<FrameEvent>, e: FrameEvent)
    ensures
        event_models(s.push(e)) == event_models(s) + seq![e@],
{
    assert(event_models(s.push(e)) =~= event_models(s) + seq![e@]);
}

/// Takes in the CSV entries of the zip archive `archive`, in order: each frame
/// that polars reads goes under the time stamp of its entry's name, and an
/// event for each CSV entry taken in or refused is added to `events`.
pub fn add_archive(
    frames: &mut KeyedTable<CsvFrame>,
    archive: Vec<u8>,
    events: &mut Vec<FrameEvent>,
) -> (r: Result<(), ArchiveError>)
    ensures
        exists|accepted: Seq<bool>|
            archive_outcome(
                #[trigger] archive_frames(archive@, frame_models(old(frames)@), accepted),
                r,
                old(events)@,
                final(frames)@,
                final(events)@,
            ),
{
    let ghost start = frame_models(frames@);
    let ghost events0 = event_models(events@);
    let ghost mut acc: Seq<bool> = Seq::empty();
    let bytes = archive.as_slice();
    let n = match zip_count(bytes) {
        Ok(n) => n,
        Err(msg) => {
            assert(archive_outcome(
                archive_frames(archive@, start, acc),
                Err::<(), ArchiveError>(ArchiveError::Unreadable(msg)),
                old(events)@,
                frames@,
                events@,
            ));
            return Err(ArchiveError::Unreadable(msg));
        },
    };
    let mut i: usize = 0;
    while i < n
        invariant
            bytes@ == archive@,
            zip_entry_count(archive@) == Ok::<nat, Seq<char>>(n as nat),
            i <= n,
            acc.len() == i,
            start == frame_models(old(frames)@),
            events0 == event_models(old(events)@),
            entries_fold(archive@, i as nat, start, acc) matches Ok((fm, ev)) && fm
                == frame_models(frames@) && event_models(events@) == events0 + ev,
        decreases n - i,
    {
        let ghost before = frames@;
        let ghost ev_before = events@;
        let ghost prev = entries_fold(archive@, i as nat, start, acc)->Ok_0;
        let ghost acc_f = acc.push(false);
        let ghost acc_t = acc.push(true);
        proof {
            lemma_fold_prefix(archive@, i as nat, start, acc, acc_f);
            lemma_fold_prefix(archive@, i as nat, start, acc, acc_t);
        }
        let name = match zip_name(bytes, i) {
            Ok(x) => x,
            Err(msg) => {
                proof {
                    lemma_fold_stops(archive@, (i + 1) as nat, n as nat, start, acc_f);
                }
                assert(archive_outcome(
                    archive_frames(archive@, start, acc_f),
                    Err::<(), ArchiveError>(ArchiveError::Unreadable(msg)),
                    old(events)@,
                    frames@,
                    events@,
                ));
                return Err(ArchiveError::Unreadable(msg));
            },
        };
        match entry_key(name.as_str()) {
            EntryKey::NotCsv => {
                proof {
                    acc = acc_f;
                }
            },
            EntryKey::NoStem => {
                proof {
                    lemma_fold_stops(archive@, (i + 1) as nat, n as nat, start, acc_f);
                }
                assert(archive_outcome(
                    archive_frames(archive@, start, acc_f),
                    Err::<(), ArchiveError>(ArchiveError::NoStem(name)),
                    old(events)@,
                    frames@,
                    events@,
                ));
                return Err(ArchiveError::NoStem(name));
            },
            EntryKey::NoTimestamp => {
                proof {
                    lemma_fold_stops(archive@, (i + 1) as nat, n as nat, start, acc_f);
                }
                assert(archive_outcome(
                    archive_frames(archive@, start, acc_f),
                    Err::<(), ArchiveError>(ArchiveError::NoTimestamp(name)),
                    old(events)@,
                    frames@,
                    events@,
                ));
                return Err(ArchiveError::NoTimestamp(name));
            },
            EntryKey::Timestamp(key) => {
                let data = match zip_data(bytes, i) {
                    Ok(d) => d,
                    Err(msg) => {
                        proof {
                            lemma_fold_stops(archive@, (i + 1) as nat, n as nat, start, acc_f);
                        }
                        assert(archive_outcome(
                            archive_frames(archive@, start, acc_f),
                            Err::<(), ArchiveError>(ArchiveError::Unreadable(msg)),
                            old(events)@,
                            frames@,
                            events@,
                        ));
                        return Err(ArchiveError::Unreadable(msg));
                    },
                };
                let ghost k = key@;
                let ghost d = data@;
                let key_copy = key.clone();
                match add_frame(frames, key, data) {
                    Ok(()) => {
                        proof {
                            lemma_frame_models_insert(before, frames@, k, frame_of(d));
                        }
                        let width = match frames.get(key_copy.as_str()) {
                            Some(f) => f.width(),
                            None => 0,
                        };
                        let ev = FrameEvent::Added { key: key_copy, width };
                        proof {
                            lemma_event_models_push(events@, ev);
                        }
                        events.push(ev);
                        proof {
                            acc = acc_t;
                        }
                    },
                    Err(message) => {
                        let ev = FrameEvent::Refused { name, message };
                        proof {
                            lemma_event_models_push(events@, ev);
                        }
                        events.push(ev);
                        proof {
                            acc = acc_f;
                        }
                    },
                }
            },
        }
        i = i + 1;
    }
    assert(archive_outcome(
        archive_frames(archive@, start, acc),
        Ok::<(), ArchiveError>(()),
        old(events)@,
        frames@,
        events@,
    ));
    Ok(())
}

proof fn lemma_fold_before_extra(
    a: Seq<u8>,
    a2: Seq<u8>,
    p: int,
    k: nat,
    m: Map<Seq<char>, FrameModel>,
    acc: Seq<bool>,
    acc2: Seq<bool>,
)
    requires
        k <= p,
        forall|j: int|
            0 <= j < p ==> #[trigger] zip_entry_name(a2, j) == zip_entry_name(a, j) && zip_entry_data(
                a2,
                j,
            ) == zip_entry_data(a, j) && acc2[j] == acc[j],
    ensures
        entries_fold(a2, k, m, acc2) == entries_fold(a, k, m, acc),
    decreases k,
{
    if k > 0 {
        lemma_fold_before_extra(a, a2, p, (k - 1) as nat, m, acc, acc2);
        assert(zip_entry_name(a2, k - 1) == zip_entry_name(a, k - 1));
    }
}

proof fn lemma_fold_after_extra(
    a: Seq<u8>,
    a2: Seq<u8>,
    p: int,
    k: nat,
    m: Map<Seq<char>, FrameModel>,
    acc: Seq<bool>,
    acc2: Seq<bool>,
)
    requires
        0 <= p,
        p + 1 <= k,
        forall|j: int|
            0 <= j < p ==> #[trigger] zip_entry_name(a2, j) == zip_entry_name(a, j) && zip_entry_data(
                a2,
                j,
            ) == zip_entry_data(a, j) && acc2[j] == acc[j],
        forall|j: int|
            p < j < k ==> #[trigger] zip_entry_name(a2, j) == zip_entry_name(a, j - 1)
                && zip_entry_data(a2, j) == zip_entry_data(a, j - 1) && acc2[j] == acc[j - 1],
        zip_entry_name(a2, p) matches Ok(x) && !is_csv_name(x),
    ensures
        entries_fold(a2, k, m, acc2) == entries_fold(a, (k - 1) as nat, m, acc),
    decreases k,
{
    if k == p + 1 {
        lemma_fold_before_extra(a, a2, p, p as nat, m, acc, acc2);
        match entries_fold(a2, p as nat, m, acc2) {
            Ok((m1, ev1)) => {
                assert(ev1 + Seq::<FrameEventModel>::empty() =~= ev1);
            },
            Err(_) => {},
        }
    } else {
        lemma_fold_after_extra(a, a2, p, (k - 1) as nat, m, acc, acc2);
        assert(zip_entry_name(a2, k - 1) == zip_entry_name(a, k - 2));
    }
}

/// An archive with one more entry that is not CSV (a text file, a directory,
/// a name without a time stamp, ...) is read as the archive without it: the
/// same frames, the same events, the same error.
pub proof fn law_extra_non_csv_entry(
    a: Seq<u8>,
    a2: Seq<u8>,
    n: nat,
    p: int,
    m: Map<Seq<char>, FrameModel>,
    acc: Seq<bool>,
    acc2: Seq<bool>,
)
    requires
        zip_entry_count(a) == Ok::<nat, Seq<char>>(n),
        zip_entry_count(a2) == Ok::<nat, Seq<char>>(n + 1),
        0 <= p <= n,
        forall|j: int|
            0 <= j < p ==> #[trigger] zip_entry_name(a2, j) == zip_entry_name(a, j) && zip_entry_data(
                a2,
                j,
            ) == zip_entry_data(a, j) && acc2[j] == acc[j],
        forall|j: int|
            p < j <= n ==> #[trigger] zip_entry_name(a2, j) == zip_entry_name(a, j - 1)
                && zip_entry_data(a2, j) == zip_entry_data(a, j - 1) && acc2[j] == acc[j - 1],
        zip_entry_name(a2, p) matches Ok(x) && !is_csv_name(x),
    ensures
        archive_frames(a2, m, acc2) == archive_frames(a, m, acc),
{
    lemma_fold_after_extra(a, a2, p, n + 1, m, acc, acc2);
}

/// The time stamp under which entry `i` of `archive` would put a frame: that of
/// its name where the name is read, ends in "csv" in any case, and has a stem
/// with a time stamp among its '_'-separated parts; otherwise none.
pub open spec fn entry_stamp(archive: Seq<u8>, i: int) -> Option<Seq<char>> {
    match zip_entry_name(archive, i) {
        Err(_) => None,
        Ok(name) => if !is_csv_name(name) {
            None
        } else {
            match path_stem(name) {
                None => None,
                Some(stem) => match first_timestamp(split_at_char(stem, '_')) {
                    None => None,
                    Some(t) => Some(stamp_text(t)),
                },
            }
        },
    }
}

/// The number of entries of `archive`, or none where it cannot be read.
pub open spec fn entry_total(archive: Seq<u8>) -> nat {
    match zip_entry_count(archive) {
        Ok(n) => n,
        Err(_) => 0,
    }
}

/// The frames that reading an archive leaves, whether it ended or stopped.
pub open spec fn outcome_map(
    o: Result<ArchiveState, (ArchiveStop, Map<Seq<char>, FrameModel>, Seq<FrameEventModel>)>,
) -> Map<Seq<char>, FrameModel> {
    match o {
        Ok((m, _)) => m,
        Err((_, m, _)) => m,
    }
}

proof fn lemma_fold_keeps(
    archive: Seq<u8>,
    n: nat,
    m: Map<Seq<char>, FrameModel>,
    acc: Seq<bool>,
    k: Seq<char>,
)
    requires
        m.dom().contains(k),
    ensures
        outcome_map(entries_fold(archive, n, m, acc)).dom().contains(k),
        (forall|i: int| 0 <= i < n ==> #[trigger] entry_stamp(archive, i) != Some(k))
            ==> outcome_map(entries_fold(archive, n, m, acc))[k] == m[k],
    decreases n,
{
    if n > 0 {
        lemma_fold_keeps(archive, (n - 1) as nat, m, acc, k);
        if forall|i: int| 0 <= i < n ==> #[trigger] entry_stamp(archive, i) != Some(k) {
            assert(entry_stamp(archive, n - 1) != Some(k));
        }
    }
}

/// Reading an archive into a table adds to it: every key that the table held
/// before is still there afterwards, whether the reading ended or stopped, and
/// a key that no CSV entry of the archive is stamped with keeps its frame.
pub proof fn law_archive_keeps_other_keys(
    archive: Seq<u8>,
    m: Map<Seq<char>, FrameModel>,
    accepted: Seq<bool>,
    k: Seq<char>,
)
    requires
        m.dom().contains(k),
    ensures
        outcome_map(archive_frames(archive, m, accepted)).dom().contains(k),
        (forall|i: int|
            0 <= i < entry_total(archive) ==> #[trigger] entry_stamp(archive, i) != Some(k))
            ==> outcome_map(archive_frames(archive, m, accepted))[k] == m[k],
{
    match zip_entry_count(archive) {
        Ok(n) => lemma_fold_keeps(archive, n, m, accepted, k),
        Err(_) => {},
    }
}

} // verus!

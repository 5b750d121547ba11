//! Character-level text work: splitting, replacing, line breaking and the
//! parts of a path's file name.
use vstd::prelude::*;

verus! {

/// An owned copy of `s`.
pub fn string_of_str(s: &str) -> (r: String)
    ensures
        r@ == s@,
{
    String::from_str(s)
}

/// The characters of `s`, in order.
pub fn chars_of(s: &str) -> (r: Vec<char>)
    ensures
        r@ == s@,
{
    let mut out: Vec<char> = Vec::new();
    for c in it: s.chars()
        invariant
            out@ == it.seq().take(it.index()),
            it.seq() == s@,
    {
        out.push(c);
    }
    out
}

/// `String::push`. Claimed: `c` is appended to `s`.
#[verifier::external_body]
pub(crate) fn push_char(s: &mut String, c: char)
    ensures
        final(s)@ == old(s)@.push(c),
{
    s.push(c);
}

/// Appends the characters `cs[from..to]` to `out`.
pub fn append_chars(out: &mut String, cs: &Vec<char>, from: usize, to: usize)
    requires
        from <= to <= cs@.len(),
    ensures
        final(out)@ == old(out)@ + cs@.subrange(from as int, to as int),
{
    let mut i = from;
    while i < to
        invariant
            from <= i <= to <= cs@.len(),
            out@ == old(out)@ + cs@.subrange(from as int, i as int),
        decreases to - i,
    {
        push_char(out, cs[i]);
        assert(cs@.subrange(from as int, i + 1) =~= cs@.subrange(from as int, i as int).push(
            cs@[i as int],
        ));
        i = i + 1;
    }
}

/// A string of the characters `cs[from..to]`.
pub fn string_of_chars(cs: &Vec<char>, from: usize, to: usize) -> (r: String)
    requires
        from <= to <= cs@.len(),
    ensures
        r@ == cs@.subrange(from as int, to as int),
{
    let mut out = String::new();
    append_chars(&mut out, cs, from, to);
    out
}

// ---------------------------------------------------------------------------
// Splitting at a separator character
/// The pieces of `s` between the occurrences of `sep`, as `str::split` gives
/// them for a one-character pattern: one more piece than there are separators.
pub open spec fn split_at_char(s: Seq<char>, sep: char) -> Seq<Seq<char>>
    decreases s.len(),
{
    if s.len() == 0 {
        seq![Seq::empty()]
    } else {
        let p = split_at_char(s.drop_last(), sep);
        if s.last() == sep {
            p.push(Seq::empty())
        } else {
            p.update(p.len() - 1, p.last().push(s.last()))
        }
    }
}

pub proof fn lemma_split_at_char_nonempty(s: Seq<char>, sep: char)
    ensures
        split_at_char(s, sep).len() >= 1,
    decreases s.len(),
{
    if s.len() > 0 {
        lemma_split_at_char_nonempty(s.drop_last(), sep);
    }
}

/// The pieces of `s` between the occurrences of `sep` (the pieces that `str::split` gives).
pub fn split_chars(s: &str, sep: char) -> (r: Vec<String>)
    ensures
        r@.len() == split_at_char(s@, sep).len(),
        forall|k: int| 0 <= k < r@.len() ==> #[trigger] r@[k]@ == split_at_char(s@, sep)[k],
{
    let cs = chars_of(s);
    let mut out: Vec<String> = Vec::new();
    let mut start: usize = 0;
    let mut i: usize = 0;
    assert(cs@.take(0) =~= Seq::<char>::empty());
    assert(cs@.subrange(0, 0) =~= Seq::<char>::empty());
    while i < cs.len()
        invariant
            cs@ == s@,
            start <= i <= cs@.len(),
            out@.len() + 1 == split_at_char(cs@.take(i as int), sep).len(),
            forall|k: int|
                0 <= k < out@.len() ==> #[trigger] out@[k]@ == split_at_char(
                    cs@.take(i as int),
                    sep,
                )[k],
            cs@.subrange(start as int, i as int) == split_at_char(cs@.take(i as int), sep).last(),
        decreases cs@.len() - i,
    {
        let ghost t = cs@.take(i as int);
        let ghost t1 = cs@.take(i + 1);
        assert(t1.drop_last() =~= t);
        assert(t1.last() == cs@[i as int]);
        proof {
            lemma_split_at_char_nonempty(t, sep);
        }
        if cs[i] == sep {
            out.push(string_of_chars(&cs, start, i));
            start = i + 1;
            assert(cs@.subrange(start as int, i + 1) =~= Seq::<char>::empty());
        } else {
            assert(cs@.subrange(start as int, i + 1) =~= cs@.subrange(start as int, i as int).push(
                cs@[i as int],
            ));
        }
        i = i + 1;
    }
    assert(cs@.take(i as int) =~= cs@);
    out.push(string_of_chars(&cs, start, i));
    out
}

/// The pieces `p` joined, `sep` between each two.
pub open spec fn joined_with(p: Seq<Seq<char>>, sep: char) -> Seq<char>
    decreases p.len(),
{
    if p.len() == 0 {
        Seq::empty()
    } else if p.len() == 1 {
        p[0]
    } else {
        joined_with(p.drop_last(), sep) + seq![sep] + p.last()
    }
}

/// Joining the pieces of a split, the separator between each two, gives back the text.
pub proof fn law_split_then_join(s: Seq<char>, sep: char)
    ensures
        joined_with(split_at_char(s, sep), sep) == s,
    decreases s.len(),
{
    if s.len() > 0 {
        let t = s.drop_last();
        law_split_then_join(t, sep);
        lemma_split_at_char_nonempty(t, sep);
        let p = split_at_char(t, sep);
        if s.last() == sep {
            let q = p.push(Seq::empty());
            assert(q.drop_last() =~= p);
            assert(joined_with(q, sep) =~= t + seq![sep]);
        } else {
            let q = p.update(p.len() - 1, p.last().push(s.last()));
            if p.len() == 1 {
                assert(joined_with(q, sep) =~= s);
            } else {
                assert(q.drop_last() =~= p.drop_last());
                assert(joined_with(q, sep) =~= joined_with(p.drop_last(), sep) + seq![sep]
                    + p.last().push(s.last()));
            }
        }
        assert(s =~= t.push(s.last()));
    }
}

/// No piece of a split holds the separator.
pub proof fn law_split_pieces_lack_separator(s: Seq<char>, sep: char, k: int)
    requires
        0 <= k < split_at_char(s, sep).len(),
    ensures
        !split_at_char(s, sep)[k].contains(sep),
    decreases s.len(),
{
    if s.len() > 0 {
        let t = s.drop_last();
        lemma_split_at_char_nonempty(t, sep);
        let p = split_at_char(t, sep);
        if k < p.len() - 1 || (k == p.len() - 1 && s.last() == sep) {
            law_split_pieces_lack_separator(t, sep, k);
        } else if k == p.len() - 1 {
            law_split_pieces_lack_separator(t, sep, k);
            let piece = p.last().push(s.last());
            assert forall|i: int| 0 <= i < piece.len() implies piece[i] != sep by {
                if i < piece.len() - 1 {
                    assert(piece[i] == p.last()[i]);
                }
            }
        }
    }
}

// ---------------------------------------------------------------------------
// Lines
/// `p` without one '\r' at its end, where it ends with one.
pub open spec fn strip_cr(p: Seq<char>) -> Seq<char> {
    if p.len() > 0 && p.last() == '\r' {
        p.drop_last()
    } else {
        p
    }
}

/// The lines of `s`, as `str::lines` gives them: `s` is split at each '\n'; a
/// '\r' just before a '\n' belongs to the line ending; a final line ending does
/// not start an empty line; the text after the last '\n' is kept as it is.
pub open spec fn text_lines(s: Seq<char>) -> Seq<Seq<char>> {
    let p = split_at_char(s, '\n');
    let n = if p.last().len() == 0 {
        p.len() - 1
    } else {
        p.len() as int
    };
    Seq::new(n as nat, |k: int| if k < p.len() - 1 { strip_cr(p[k]) } else { p[k] })
}

/// The lines of `s` (what `str::lines` gives).
pub fn lines_of(s: &str) -> (r: Vec<String>)
    ensures
        r@.len() == text_lines(s@).len(),
        forall|k: int| 0 <= k < r@.len() ==> #[trigger] r@[k]@ == text_lines(s@)[k],
{
    let pieces = split_chars(s, '\n');
    let ghost p = split_at_char(s@, '\n');
    proof {
        lemma_split_at_char_nonempty(s@, '\n');
    }
    let last = pieces.len() - 1;
    let n = if pieces[last].as_str().is_empty() {
        last
    } else {
        pieces.len()
    };
    let mut out: Vec<String> = Vec::new();
    let mut k: usize = 0;
    while k < n
        invariant
            pieces@.len() == p.len(),
            p.len() >= 1,
            last == p.len() - 1,
            forall|j: int| 0 <= j < pieces@.len() ==> #[trigger] pieces@[j]@ == p[j],
            p == split_at_char(s@, '\n'),
            n == text_lines(s@).len(),
            n <= pieces@.len(),
            k <= n,
            out@.len() == k,
            forall|j: int| 0 <= j < k ==> #[trigger] out@[j]@ == text_lines(s@)[j],
        decreases n - k,
    {
        if k < last {
            let cs = chars_of(pieces[k].as_str());
            let mut end = cs.len();
            if end > 0 && cs[end - 1] == '\r' {
                end = end - 1;
            }
            let line = string_of_chars(&cs, 0, end);
            assert(line@ =~= strip_cr(p[k as int]));
            out.push(line);
        } else {
            out.push(pieces[k].clone());
        }
        k = k + 1;
    }
    out
}

// ---------------------------------------------------------------------------
// Replacing
/// `s` with each occurrence of `from`, taken from left to right without
/// overlap, replaced by `to` (what `str::replace` gives). An empty `from`
/// occurs before each character and at the end.
pub open spec fn replaced(s: Seq<char>, from: Seq<char>, to: Seq<char>) -> Seq<char>
    decreases s.len(),
{
    if from.len() == 0 {
        if s.len() == 0 {
            to
        } else {
            to + seq![s[0]] + replaced(s.drop_first(), from, to)
        }
    } else if s.len() < from.len() {
        s
    } else if s.take(from.len() as int) == from {
        to + replaced(s.skip(from.len() as int), from, to)
    } else {
        seq![s[0]] + replaced(s.drop_first(), from, to)
    }
}

/// A text in which `from` does not occur is left as it is.
pub proof fn law_replace_without_occurrence(s: Seq<char>, from: Seq<char>, to: Seq<char>)
    requires
        from.len() > 0,
        forall|i: int| 0 <= i <= s.len() - from.len() ==> #[trigger] s.subrange(i, i + from.len()) != from,
    ensures
        replaced(s, from, to) == s,
    decreases s.len(),
{
    if s.len() >= from.len() {
        assert(s.subrange(0, 0 + from.len() as int) != from);
        assert(s.take(from.len() as int) == s.subrange(0, from.len() as int));
        let t = s.drop_first();
        assert forall|i: int| 0 <= i <= t.len() - from.len() implies #[trigger] t.subrange(
            i,
            i + from.len(),
        ) != from by {
            assert(t.subrange(i, i + from.len()) =~= s.subrange(i + 1, i + 1 + from.len()));
        }
        law_replace_without_occurrence(t, from, to);
        assert(seq![s[0]] + t =~= s);
    }
}

/// Whether `pat` occurs in `cs` at `at`.
fn occurs_at(cs: &Vec<char>, at: usize, pat: &Vec<char>) -> (r: bool)
    requires
        at + pat@.len() <= cs@.len(),
    ensures
        r == (cs@.subrange(at as int, at + pat@.len()) == pat@),
{
    let n = cs.len();
    let mut j: usize = 0;
    while j < pat.len()
        invariant
            n == cs@.len(),
            at + pat@.len() <= cs@.len(),
            j <= pat@.len(),
            cs@.subrange(at as int, at + j) == pat@.take(j as int),
        decreases pat@.len() - j,
    {
        if cs[at + j] != pat[j] {
            assert(cs@.subrange(at as int, at + pat@.len())[j as int] != pat@[j as int]);
            return false;
        }
        assert(cs@.subrange(at as int, at + j + 1) =~= pat@.take(j + 1));
        j = j + 1;
    }
    assert(pat@.take(j as int) =~= pat@);
    true
}

/// `s` with each occurrence of `from` replaced by `to` (what `str::replace` gives).
pub fn replace_all(s: &str, from: &str, to: &str) -> (r: String)
    ensures
        r@ == replaced(s@, from@, to@),
{
    let cs = chars_of(s);
    let pat = chars_of(from);
    let m = pat.len();
    let mut out = String::new();
    let mut i: usize = 0;
    assert(cs@.skip(0) =~= cs@);
    if m == 0 {
        while i < cs.len()
            invariant
                cs@ == s@,
                from@.len() == 0,
                i <= cs@.len(),
                out@ + replaced(cs@.skip(i as int), from@, to@) == replaced(s@, from@, to@),
            decreases cs@.len() - i,
        {
            let ghost rest = cs@.skip(i as int);
            assert(rest.drop_first() =~= cs@.skip(i + 1));
            let ghost before = out@;
            out.append(to);
            push_char(&mut out, cs[i]);
            assert(out@ =~= before + to@ + seq![rest[0]]);
            i = i + 1;
        }
        assert(cs@.skip(i as int) =~= Seq::<char>::empty());
        out.append(to);
        return out;
    }
    while i < cs.len()
        invariant
            cs@ == s@,
            pat@ == from@,
            m == pat@.len(),
            m > 0,
            i <= cs@.len(),
            out@ + replaced(cs@.skip(i as int), from@, to@) == replaced(s@, from@, to@),
        decreases cs@.len() - i,
    {
        let ghost rest = cs@.skip(i as int);
        if m <= cs.len() - i && occurs_at(&cs, i, &pat) {
            assert(rest.take(m as int) =~= cs@.subrange(i as int, i + m));
            assert(rest.skip(m as int) =~= cs@.skip(i + m));
            out.append(to);
            i = i + m;
        } else {
            if m <= cs.len() - i {
                assert(rest.take(m as int) =~= cs@.subrange(i as int, i + m));
            }
            assert(rest.drop_first() =~= cs@.skip(i + 1));
            push_char(&mut out, cs[i]);
            i = i + 1;
        }
    }
    assert(cs@.skip(i as int) =~= Seq::<char>::empty());
    out
}

// ---------------------------------------------------------------------------
// File names
/// The final component of the path `path`, as `std::path::Path::file_name`
/// gives it, or `None` where the path has none.
pub uninterp spec fn path_file_name(path: Seq<char>) -> Option<Seq<char>>;

/// `std::path::Path::file_name` on the path `path`, the component converted
/// back to a `String`. Claimed: the result is `path_file_name(path)`.
#[verifier::external_body]
fn std_file_name(path: &str) -> (r: Option<String>)
    ensures
        match path_file_name(path@) {
            Some(n) => r matches Some(x) && x@ == n,
            None => r is None,
        },
{
    std::path::Path::new(path).file_name().map(|n| n.to_string_lossy().into_owned())
}

/// The position of the last '.' in `s`.
pub open spec fn last_dot(s: Seq<char>) -> Option<int>
    decreases s.len(),
{
    if s.len() == 0 {
        None
    } else if s.last() == '.' {
        Some(s.len() - 1)
    } else {
        last_dot(s.drop_last())
    }
}

/// The stem of the file name `name`: all of it where it has no '.' but a
/// leading one, else the part before the last '.'.
pub open spec fn name_stem(name: Seq<char>) -> Seq<char> {
    match last_dot(name) {
        Some(k) => if k == 0 {
            name
        } else {
            name.take(k)
        },
        None => name,
    }
}

/// The extension of the file name `name`: the part after the last '.', where
/// that '.' is not the first character.
pub open spec fn name_extension(name: Seq<char>) -> Option<Seq<char>> {
    match last_dot(name) {
        Some(k) => if k == 0 {
            None
        } else {
            Some(name.skip(k + 1))
        },
        None => None,
    }
}

/// The file stem of the path `path` (what `Path::file_stem` gives).
pub open spec fn path_stem(path: Seq<char>) -> Option<Seq<char>> {
    match path_file_name(path) {
        Some(n) => Some(name_stem(n)),
        None => None,
    }
}

/// The extension of the path `path` (what `Path::extension` gives).
pub open spec fn path_extension(path: Seq<char>) -> Option<Seq<char>> {
    match path_file_name(path) {
        Some(n) => name_extension(n),
        None => None,
    }
}

pub proof fn lemma_last_dot_in_bounds(s: Seq<char>)
    ensures
        last_dot(s) matches Some(k) ==> 0 <= k < s.len() && s[k] == '.',
    decreases s.len(),
{
    if s.len() > 0 && s.last() != '.' {
        lemma_last_dot_in_bounds(s.drop_last());
    }
}

fn find_last_dot(cs: &Vec<char>) -> (r: Option<usize>)
    ensures
        match r {
            Some(k) => last_dot(cs@) == Some(k as int) && k < cs@.len(),
            None => last_dot(cs@) is None,
        },
{
    proof {
        lemma_last_dot_in_bounds(cs@);
    }
    let mut i = cs.len();
    assert(cs@.take(i as int) =~= cs@);
    while i > 0
        invariant
            i <= cs@.len(),
            last_dot(cs@) == last_dot(cs@.take(i as int)),
        decreases i,
    {
        assert(cs@.take(i as int).drop_last() =~= cs@.take(i - 1));
        if cs[i - 1] == '.' {
            assert(cs@.take(i as int).last() == '.');
            return Some(i - 1);
        }
        i = i - 1;
    }
    None
}

/// The stem of the file name `name`.
pub fn stem_of_name(name: String) -> (r: String)
    ensures
        r@ == name_stem(name@),
{
    let cs = chars_of(name.as_str());
    match find_last_dot(&cs) {
        Some(k) => if k == 0 {
            name
        } else {
            let stem = string_of_chars(&cs, 0, k);
            assert(stem@ =~= name@.take(k as int));
            stem
        },
        None => name,
    }
}

/// The extension of the file name `name`, where it has one.
pub fn extension_of_name(name: &str) -> (r: Option<String>)
    ensures
        match name_extension(name@) {
            Some(e) => r matches Some(x) && x@ == e,
            None => r is None,
        },
{
    let cs = chars_of(name);
    let len = cs.len();
    match find_last_dot(&cs) {
        Some(k) => if k == 0 {
            None
        } else {
            let ext = string_of_chars(&cs, k + 1, len);
            assert(ext@ =~= name@.skip(k + 1));
            Some(ext)
        },
        None => None,
    }
}

/// The file stem of the path `path`, or `None` where it has no file name.
pub fn file_stem(path: &str) -> (r: Option<String>)
    ensures
        match path_stem(path@) {
            Some(n) => r matches Some(x) && x@ == n,
            None => r is None,
        },
{
    match std_file_name(path) {
        None => None,
        Some(name) => Some(stem_of_name(name)),
    }
}

/// The extension of the path `path`, or `None` where it has none.
pub fn file_extension(path: &str) -> (r: Option<String>)
    ensures
        match path_extension(path@) {
            Some(n) => r matches Some(x) && x@ == n,
            None => r is None,
        },
{
    match std_file_name(path) {
        None => None,
        Some(name) => extension_of_name(name.as_str()),
    }
}

// ---------------------------------------------------------------------------
// Joining paths
/// `dir` joined with `name` as `Path::join` does on Unix: an absolute `name`
/// replaces `dir`; otherwise a '/' goes between them unless `dir` is empty or
/// already ends with one.
pub open spec fn joined_path(dir: Seq<char>, name: Seq<char>) -> Seq<char> {
    if name.len() > 0 && name[0] == '/' {
        name
    } else if dir.len() == 0 || dir.last() == '/' {
        dir + name
    } else {
        dir + seq!['/'] + name
    }
}

/// `dir` joined with `name` (what `Path::join` gives on Unix).
pub fn join_path(dir: &str, name: &str) -> (r: String)
    ensures
        r@ == joined_path(dir@, name@),
{
    let d = chars_of(dir);
    let n = chars_of(name);
    if n.len() > 0 && n[0] == '/' {
        return string_of_str(name);
    }
    let mut out = string_of_str(dir);
    if !(d.len() == 0 || d[d.len() - 1] == '/') {
        push_char(&mut out, '/');
    }
    out.append(name);
    out
}

// ---------------------------------------------------------------------------
// Case and encoding
/// The lowercase mapping of `s` that `str::to_lowercase` computes (Unicode's
/// `Lowercase` derived property).
pub uninterp spec fn unicode_lowercase(s: Seq<char>) -> Seq<char>;

/// `str::to_lowercase`. Claimed: the result is `unicode_lowercase(s)`.
#[verifier::external_body]
fn std_to_lowercase(s: &str) -> (r: String)
    ensures
        r@ == unicode_lowercase(s@),
{
    s.to_lowercase()
}

/// The lowercase form of `s` (what `str::to_lowercase` gives).
pub fn to_lowercase(s: &str) -> (r: String)
    ensures
        r@ == unicode_lowercase(s@),
{
    std_to_lowercase(s)
}

/// The text that the bytes `bytes` encode in UTF-8, or `None` where they are not UTF-8.
pub uninterp spec fn utf8_text(bytes: Seq<u8>) -> Option<Seq<char>>;

/// `String::from_utf8`, its error turned into its message. Claimed: it
/// succeeds exactly where `utf8_text` is defined, with that text.
#[verifier::external_body]
fn std_from_utf8(bytes: Vec<u8>) -> (r: Result<String, String>)
    ensures
        match utf8_text(bytes@) {
            Some(t) => r matches Ok(s) && s@ == t,
            None => r is Err,
        },
{
    String::from_utf8(bytes).map_err(|e| e.to_string())
}

/// The lines of the UTF-8 text `output` (a listing that a command printed),
/// or the decoding error's message where `output` is not UTF-8.
pub fn output_lines(output: Vec<u8>) -> (r: Result<Vec<String>, String>)
    ensures
        match utf8_text(output@) {
            Some(t) => r matches Ok(ls) && ls@.len() == text_lines(t).len() && forall|k: int|
                0 <= k < ls@.len() ==> #[trigger] ls@[k]@ == text_lines(t)[k],
            None => r is Err,
        },
{
    let text = std_from_utf8(output)?;
    Ok(lines_of(text.as_str()))
}

} // verus!

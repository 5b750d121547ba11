use data_collect::files::{add_archive, add_frame, ArchiveError, FrameEvent, entry_key, listed_paths, output_name, CsvFrame, EntryKey};
use data_collect::table::KeyedTable;
use std::io::Write;

fn key_of(name: &str) -> Option<String> {
    match entry_key(name) {
        EntryKey::Timestamp(k) => Some(k),
        _ => None,
    }
}

#[test]
fn csv_entries_are_keyed_by_their_time_stamp() {
    assert_eq!(key_of("data/SHIP_IMO1_202505301200.csv").unwrap(), "2025-05-30 12:00:00");
    assert_eq!(key_of("202501020304_x.CSV").unwrap(), "2025-01-02 03:04:00");
    assert_eq!(key_of("a_202501020304_202601020304.Csv").unwrap(), "2025-01-02 03:04:00");
}

#[test]
fn other_entries_are_told_apart() {
    assert!(matches!(entry_key("readme.txt"), EntryKey::NotCsv));
    assert!(matches!(entry_key("dir/"), EntryKey::NotCsv));
    assert!(matches!(entry_key(".csv"), EntryKey::NotCsv));
    assert!(matches!(entry_key("noext"), EntryKey::NotCsv));
    assert!(matches!(entry_key("data_2025.csv"), EntryKey::NoTimestamp));
    assert!(matches!(entry_key("a.csv"), EntryKey::NoTimestamp));
}

#[test]
fn export_name_defaults_to_the_input_stem() {
    assert_eq!(output_name("res/DP_IMO9986104_20250530230013.xml", "").unwrap(), "DP_IMO9986104_20250530230013.csv");
    assert_eq!(output_name("in.xml", "out.csv").unwrap(), "out.csv");
    assert!(output_name("/", "").is_none());
}

#[test]
fn listings_become_paths() {
    assert_eq!(
        listed_paths("/data/IMO1/2025/05/30", b"a_Zip.zip\nb_Zip.zip\n".to_vec()).unwrap(),
        vec!["/data/IMO1/2025/05/30/a_Zip.zip".to_string(), "/data/IMO1/2025/05/30/b_Zip.zip".to_string()]
    );
    assert!(listed_paths("/d", vec![0xc3]).is_err());
}

#[test]
fn csv_frames_are_stored_under_their_key() {
    let mut frames: KeyedTable<CsvFrame> = KeyedTable::new();
    add_frame(&mut frames, "k1".to_string(), b"a,b,c\n1,2,3\n4,5,6\n".to_vec()).unwrap();
    assert_eq!(frames.len(), 1);
    assert_eq!(frames.get("k1").unwrap().width(), 3);
    add_frame(&mut frames, "k1".to_string(), b"x,y\n1,2\n".to_vec()).unwrap();
    assert_eq!(frames.len(), 1);
    assert_eq!(frames.get("k1").unwrap().width(), 2);
}

fn zip_of(entries: &[(&str, &[u8])]) -> Vec<u8> {
    let mut w = zip::ZipWriter::new(std::io::Cursor::new(Vec::new()));
    let opts = zip::write::SimpleFileOptions::default()
        .compression_method(zip::CompressionMethod::Stored);
    for (name, data) in entries {
        w.start_file(*name, opts).unwrap();
        w.write_all(data).unwrap();
    }
    w.finish().unwrap().into_inner()
}

#[test]
fn archives_fill_the_frames_by_time_stamp() {
    let archive = zip_of(&[
        ("readme.txt", b"not a table"),
        ("S_IMO1_202505301200.csv", b"a,b,c\n1,2,3\n"),
        ("S_IMO1_202505301300.CSV", b"x,y\n1,2\n"),
        ("S_IMO1_202505301200_again.csv", b"p\n1\n"),
    ]);
    let mut frames: KeyedTable<CsvFrame> = KeyedTable::new();
    let mut events: Vec<FrameEvent> = Vec::new();
    add_archive(&mut frames, archive, &mut events).ok().unwrap();
    assert_eq!(frames.len(), 2);
    assert_eq!(events.len(), 3);
    assert!(matches!(&events[0], FrameEvent::Added { key, width: 3 } if key == "2025-05-30 12:00:00"));
    assert!(matches!(&events[2], FrameEvent::Added { key, width: 1 } if key == "2025-05-30 12:00:00"));
    assert_eq!(frames.get("2025-05-30 12:00:00").unwrap().width(), 1);
    assert_eq!(frames.get("2025-05-30 13:00:00").unwrap().width(), 2);
}

#[test]
fn archive_errors_stop_the_reading() {
    let mut frames: KeyedTable<CsvFrame> = KeyedTable::new();
    let archive = zip_of(&[
        ("S_202505301200.csv", b"a\n1\n"),
        ("no_stamp.csv", b"a\n1\n"),
        ("S_202505301300.csv", b"a\n1\n"),
    ]);
    let mut events: Vec<FrameEvent> = Vec::new();
    match add_archive(&mut frames, archive, &mut events) {
        Err(e) => {
            assert!(matches!(e, ArchiveError::NoTimestamp(ref n) if n == "no_stamp.csv"));
            assert_eq!(e.message(), "Failed to extract to datetime from file name: no_stamp.csv");
        }
        Ok(()) => panic!("expected an error"),
    }
    assert_eq!(frames.len(), 1);
    assert!(frames.contains_key("2025-05-30 12:00:00"));
    let mut empty: KeyedTable<CsvFrame> = KeyedTable::new();
    match add_archive(&mut empty, b"not a zip".to_vec(), &mut events) {
        Err(ArchiveError::Unreadable(m)) => assert!(!m.is_empty()),
        _ => panic!("expected the zip reader to refuse"),
    }
    assert_eq!(ArchiveError::NoStem("x".to_string()).message(), "Failed to get the file stem.");
}

#[test]
fn csv_that_polars_refuses_is_skipped_and_noted() {
    let archive = zip_of(&[("S_202505301200.csv", b""), ("S_202505301300.csv", b"a\n1\n")]);
    let mut frames: KeyedTable<CsvFrame> = KeyedTable::new();
    let mut events: Vec<FrameEvent> = Vec::new();
    add_archive(&mut frames, archive, &mut events).ok().unwrap();
    assert_eq!(frames.len(), 1);
    assert!(matches!(&events[0], FrameEvent::Refused { name, .. } if name == "S_202505301200.csv"));
    assert!(matches!(&events[1], FrameEvent::Added { width: 1, .. }));
}

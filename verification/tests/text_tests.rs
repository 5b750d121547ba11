use data_collect::text::{
    chars_of, extension_of_name, file_extension, file_stem, stem_of_name, join_path, lines_of, output_lines, replace_all,
    split_chars, to_lowercase,
};

fn strings(v: &[&str]) -> Vec<String> {
    v.iter().map(|s| s.to_string()).collect()
}

#[test]
fn lines_follow_str_lines() {
    for s in ["", "a", "a\n", "a\nb", "a\r\nb\r\n", "\n", "\n\n", "foo\nbar\n\r\nbaz\r", "x\r"] {
        let expected: Vec<String> = s.lines().map(|l| l.to_string()).collect();
        assert_eq!(lines_of(s), expected, "input {:?}", s);
    }
    assert_eq!(lines_of("foo\nbar\n\r\nbaz\r"), strings(&["foo", "bar", "", "baz\r"]));
}

#[test]
fn split_follows_str_split() {
    for s in ["", "_", "a_b", "a__b_", "DP_IMO9986104_20250530230013", "ünï_cödé"] {
        let expected: Vec<String> = s.split('_').map(|l| l.to_string()).collect();
        assert_eq!(split_chars(s, '_'), expected, "input {:?}", s);
    }
}

#[test]
fn replace_follows_str_replace() {
    for (s, from, to) in [
        ("IMO9986104", "IMO", ""),
        ("9986104", "IMO", ""),
        ("IMOIMO1IMO", "IMO", ""),
        ("IMIMOO", "IMO", ""),
        ("aaaa", "aa", "b"),
        ("xyz", "y", "long"),
        ("abc", "", "-"),
        ("", "", "-"),
        ("", "IMO", "x"),
    ] {
        assert_eq!(replace_all(s, from, to), s.replace(from, to), "input {:?}", s);
    }
    assert_eq!(replace_all("IMIMOO", "IMO", ""), "IMO");
}

#[test]
fn chars_are_kept_in_order() {
    assert_eq!(chars_of("héllo"), vec!['h', 'é', 'l', 'l', 'o']);
}

#[test]
fn join_follows_path_join() {
    for (d, n) in [("dir", "f.zip"), ("dir/", "f.zip"), ("", "f"), ("dir", "/abs/f"), ("/a/b", "c/d")] {
        let expected = std::path::Path::new(d).join(n).to_string_lossy().into_owned();
        assert_eq!(join_path(d, n), expected, "input {:?}", (d, n));
    }
    assert_eq!(join_path("/data", "x.zip"), "/data/x.zip");
}

#[test]
fn stem_and_extension_follow_path() {
    for p in [
        "a/b/file_202505301200.csv",
        "file.tar.gz",
        ".hidden",
        "noext",
        "dir/",
        "a.",
        "..a",
        "/",
        "",
        "x/..",
        "res/DP_IMO9986104_20250530230013.xml",
    ] {
        let path = std::path::Path::new(p);
        let stem = path.file_stem().map(|s| s.to_string_lossy().into_owned());
        let ext = path.extension().map(|s| s.to_string_lossy().into_owned());
        assert_eq!(file_stem(p), stem, "stem of {:?}", p);
        assert_eq!(file_extension(p), ext, "extension of {:?}", p);
    }
    assert_eq!(file_stem("a/b/data.CSV").unwrap(), "data");
    assert_eq!(file_extension("a/b/data.CSV").unwrap(), "CSV");
}

#[test]
fn lowercase_is_unicode_lowercase() {
    assert_eq!(to_lowercase("CsV"), "csv");
    assert_eq!(to_lowercase("ÄÖÜ"), "äöü");
}

#[test]
fn output_lines_decodes_then_splits() {
    assert_eq!(output_lines(b"a.zip\nb.zip\n".to_vec()).unwrap(), strings(&["a.zip", "b.zip"]));
    assert_eq!(output_lines(Vec::new()).unwrap(), Vec::<String>::new());
    assert!(output_lines(vec![0xff, 0xfe]).is_err());
}

#[test]
fn stems_and_extensions_of_file_names() {
    assert_eq!(stem_of_name("a.tar.gz".to_string()), "a.tar");
    assert_eq!(stem_of_name(".bashrc".to_string()), ".bashrc");
    assert_eq!(stem_of_name("plain".to_string()), "plain");
    assert_eq!(extension_of_name("a.tar.gz").unwrap(), "gz");
    assert_eq!(extension_of_name("a.").unwrap(), "");
    assert!(extension_of_name(".bashrc").is_none());
    assert!(extension_of_name("plain").is_none());
}

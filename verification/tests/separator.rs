use concat::separator::{parse_separator, render_separator, unescape_bytes, LineEnding};

#[test]
fn eol_is_line_ending() {
    assert_eq!(parse_separator("EOL", LineEnding::Lf).ok(), Some(b"\n".to_vec()));
    assert_eq!(parse_separator("EOL", LineEnding::CrLf).ok(), Some(b"\r\n".to_vec()));
    assert_eq!(parse_separator("eol", LineEnding::Lf).ok(), Some(b"eol".to_vec()));
    assert_eq!(parse_separator("EOLX", LineEnding::Lf).ok(), Some(b"EOLX".to_vec()));
}

#[test]
fn escapes_are_replaced() {
    assert_eq!(parse_separator("\\n", LineEnding::Lf).ok(), Some(b"\n".to_vec()));
    assert_eq!(parse_separator("a\\r\\nb", LineEnding::Lf).ok(), Some(b"a\r\nb".to_vec()));
    assert_eq!(parse_separator("\\t|\\\\|\\0", LineEnding::Lf).ok(), Some(b"\t|\\|\x00".to_vec()));
}

#[test]
fn unknown_escapes_and_trailing_backslash_are_kept() {
    assert_eq!(parse_separator("\\x", LineEnding::Lf).ok(), Some(b"\\x".to_vec()));
    assert_eq!(parse_separator("end\\", LineEnding::Lf).ok(), Some(b"end\\".to_vec()));
    assert_eq!(parse_separator("\\\\n", LineEnding::Lf).ok(), Some(b"\\n".to_vec()));
}

#[test]
fn plain_values_are_kept() {
    assert_eq!(parse_separator("---", LineEnding::Lf).ok(), Some(b"---".to_vec()));
    assert_eq!(parse_separator("", LineEnding::Lf).ok(), Some(Vec::new()));
    assert_eq!(parse_separator("é—", LineEnding::CrLf).ok(), Some("é—".as_bytes().to_vec()));
}

#[test]
fn unescape_never_grows() {
    for v in [&b"\\n\\t"[..], b"\\q", b"abc", b"\\"] {
        assert!(unescape_bytes(v).len() <= v.len());
    }
}

#[test]
fn line_ending_bytes() {
    assert_eq!(LineEnding::Lf.to_bytes(), vec![b'\n']);
    assert_eq!(LineEnding::CrLf.to_bytes(), vec![b'\r', b'\n']);
}

#[test]
fn fixed_phrases_are_replaced() {
    assert_eq!(parse_separator("####r########n########t####", LineEnding::Lf).ok(), Some(vec![0x0D, 0x0A, 0x09]));
    assert_eq!(parse_separator("a####n####b", LineEnding::Lf).ok(), Some(b"a\nb".to_vec()));
    assert_eq!(parse_separator("###n####", LineEnding::Lf).ok(), Some(b"###n####".to_vec()));
    assert_eq!(parse_separator("####x####", LineEnding::Lf).ok(), Some(b"####x####".to_vec()));
}

#[test]
fn file_phrases_follow_the_next_file() {
    let sep = b"[####file####|####name####|####ext####|####index####/####total####]";
    assert_eq!(render_separator(sep, Some(("C:\\123\\456\\foo.bar", 1)), 3), b"[C:\\123\\456\\foo.bar|foo|bar|2/3]".to_vec());
    assert_eq!(render_separator(sep, Some(("dir/archive.tar.gz", 0)), 12), b"[dir/archive.tar.gz|archive.tar|gz|1/12]".to_vec());
    assert_eq!(render_separator(sep, Some((".bashrc", 4)), 5), b"[.bashrc|.bashrc||5/5]".to_vec());
    assert_eq!(render_separator(sep, None, 2), b"[|||/2]".to_vec());
}

#[test]
fn total_phrase_and_plain_separators() {
    assert_eq!(render_separator(b"####total####", Some(("b", 1)), 3), b"3".to_vec());
    assert_eq!(render_separator(b"---", Some(("b", 1)), 3), b"---".to_vec());
    assert_eq!(render_separator(b"", None, 0), Vec::<u8>::new());
}

#[test]
fn readme_header_example() {
    let sep = parse_separator("####r########n########r########n####;;; - ####index#### / ####total#### ####r########n####", LineEnding::Lf).ok().unwrap();
    assert_eq!(render_separator(&sep, Some(("b.reg", 1)), 3), b"\r\n\r\n;;; - 2 / 3 \r\n".to_vec());
}

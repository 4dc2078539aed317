use concat::bytes::{is_control_or_ansi, is_whitespace};
use concat::clean::process_buffer;

fn run(input: &[u8], out_len: usize, clean: bool, trim: bool) -> (usize, Vec<u8>) {
    let mut out = vec![0xAAu8; out_len];
    let n = process_buffer(input, &mut out, clean, trim);
    (n, out)
}

fn processed(input: &[u8], clean: bool, trim: bool) -> Vec<u8> {
    let (n, out) = run(input, input.len() + 8, clean, trim);
    out[..n].to_vec()
}

#[test]
fn whitespace_bytes() {
    for b in [b' ', b'\t', b'\n', b'\r', 0x0B, 0x0C] {
        assert!(is_whitespace(b));
    }
    for b in [b'a', 0x00, 0x1B, 0x7F, 0xA0, b'0'] {
        assert!(!is_whitespace(b));
    }
}

#[test]
fn control_bytes() {
    assert!(is_control_or_ansi(0x00));
    assert!(is_control_or_ansi(0x1B));
    assert!(is_control_or_ansi(b'\n'));
    assert!(is_control_or_ansi(0x1F));
    assert!(is_control_or_ansi(0x7F));
    assert!(!is_control_or_ansi(b'\t'));
    assert!(!is_control_or_ansi(b' '));
    assert!(!is_control_or_ansi(b'~'));
    assert!(!is_control_or_ansi(0x80));
}

#[test]
fn no_option_writes_nothing() {
    let (n, out) = run(b"  hello  ", 16, false, false);
    assert_eq!(n, 0);
    assert_eq!(out, vec![0xAAu8; 16]);
}

#[test]
fn trim_removes_edges_only() {
    assert_eq!(processed(b" \t\r\n hello world \x0b\x0c\n", false, true), b"hello world".to_vec());
    assert_eq!(processed(b"   ", false, true), Vec::<u8>::new());
    assert_eq!(processed(b"", false, true), Vec::<u8>::new());
    assert_eq!(processed(b"a \x01 b", false, true), b"a \x01 b".to_vec());
}

#[test]
fn trim_leaves_rest_of_buffer_untouched() {
    let (n, out) = run(b"  ab  ", 5, false, true);
    assert_eq!(n, 2);
    assert_eq!(out, vec![b'a', b'b', 0xAA, 0xAA, 0xAA]);
}

#[test]
fn clean_removes_csi_sequences() {
    assert_eq!(processed(b"\x1b[31mred\x1b[0m plain", true, false), b"red plain".to_vec());
    assert_eq!(processed(b"\x1b[1;2", true, false), Vec::<u8>::new());
}

#[test]
fn clean_removes_osc_sequences() {
    assert_eq!(processed(b"\x1b]0;title\x07text", true, false), b"text".to_vec());
    assert_eq!(processed(b"\x1b]8;;link\x1b\\shown", true, false), b"shown".to_vec());
    assert_eq!(processed(b"\x1b]unterminated", true, false), Vec::<u8>::new());
    assert_eq!(processed(b"\x1b]a\x1bb\x07c", true, false), b"c".to_vec());
}

#[test]
fn clean_removes_other_escapes() {
    assert_eq!(processed(b"\x1bMx", true, false), b"x".to_vec());
    assert_eq!(processed(b"\x1b!xy", true, false), b"y".to_vec());
    assert_eq!(processed(b"ab\x1b", true, false), b"ab".to_vec());
}

#[test]
fn clean_removes_control_bytes_but_keeps_tab() {
    assert_eq!(processed(b"a\x00b\x07c\td\re\nf\x7fg", true, false), b"abc\tdefg".to_vec());
    assert_eq!(processed("é\u{1}".as_bytes(), true, false), "é".as_bytes().to_vec());
}

#[test]
fn clean_and_trim_together() {
    assert_eq!(processed(b"  \x1b[1mbold\x1b[0m  \n", true, true), b"bold".to_vec());
    assert_eq!(processed(b"\x01 a \x01", true, true), b"a".to_vec());
}

#[test]
fn output_is_cut_to_buffer() {
    let (n, out) = run(b"abcdef", 3, true, false);
    assert_eq!(n, 3);
    assert_eq!(out, b"abc".to_vec());
    let (n, out) = run(b"abc", 0, true, true);
    assert_eq!(n, 0);
    assert!(out.is_empty());
}

#[test]
fn cleaning_twice_is_cleaning_once() {
    let input = b"x\x1b[2Jy\x1b]t\x07z\x01\x7f\t!";
    let once = processed(input, true, false);
    assert_eq!(once, b"xyz\t!".to_vec());
    assert_eq!(processed(&once, true, false), once);
    for b in &once {
        assert!(!is_control_or_ansi(*b));
    }
}

#[test]
fn trimming_twice_is_trimming_once() {
    let once = processed(b"\n\n  text with  inner  space \t", false, true);
    assert_eq!(once, b"text with  inner  space".to_vec());
    assert_eq!(processed(&once, false, true), once);
}

#[test]
fn clean_removes_sequences_with_intermediate_bytes() {
    let (n, out) = run(b"\x1b(B\x1b[mok", 64, true, false);
    assert_eq!(n, 2);
    assert_eq!(&out[..2], b"ok");
    assert_eq!(processed(b"a\x1b#8b\x1b %Gc\x1b(", true, false), b"abc".to_vec());
}

#[test]
fn clean_removes_string_sequences() {
    assert_eq!(processed(b"x\x1bPq#0;2;0;0;0\x1b\\y", true, false), b"xy".to_vec());
    assert_eq!(processed(b"x\x1b_app\x07y", true, false), b"xy".to_vec());
}

#[test]
fn trim_after_clean_removes_exposed_whitespace() {
    let (n, out) = run(b"\x1b[0m hi \x00", 16, true, true);
    assert_eq!(n, 2);
    assert_eq!(&out[..2], b"hi");
}

#[test]
fn unterminated_string_sequence_takes_the_rest() {
    assert_eq!(processed(b"ok\x1b]title that never ends\nmore text", true, false), b"ok".to_vec());
    assert_eq!(processed(b"ok\x1bPdata\x1b[31m red", true, false), b"ok".to_vec());
    assert_eq!(processed(b"ok \x1b_app\x07 done", true, true), b"ok  done".to_vec());
}

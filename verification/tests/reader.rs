use concat::reader::{copy_stream, CopyStep, ProcessingReader, ReadOutcome};

/// Reads everything through `r`, with the source split into `pieces`, into
/// buffers of `out_len` bytes, and returns what came out.
fn read_all(clean: bool, trim: bool, pieces: &[&[u8]], out_len: usize) -> Vec<u8> {
    let mut r = ProcessingReader::new((), clean, trim);
    let mut next = 0;
    let mut result = Vec::new();
    let mut buf = vec![0u8; out_len];
    loop {
        if let Some(k) = r.read_pending(&mut buf) {
            result.extend_from_slice(&buf[..k]);
            continue;
        }
        if r.finished() {
            return result;
        }
        let chunk: &[u8] = if next < pieces.len() { pieces[next] } else { &[] };
        next += 1;
        let _ = r.inner_mut();
        match r.process_read(chunk, &mut buf) {
            ReadOutcome::Copied(k) => result.extend_from_slice(&buf[..k]),
            ReadOutcome::NeedMore => {}
            ReadOutcome::Finished => {}
        }
    }
}

#[test]
fn new_reader_has_nothing_pending() {
    let mut r = ProcessingReader::new((), true, false);
    let mut buf = [0u8; 4];
    assert_eq!(r.read_pending(&mut buf), None);
    assert_eq!(buf, [0u8; 4]);
    assert!(!r.finished());
}

#[test]
fn whole_input_is_trimmed_once() {
    assert_eq!(read_all(false, true, &[b"a ", b" b"], 8), b"a  b".to_vec());
    assert_eq!(read_all(false, true, &[b"  ", b"\n", b" x", b"y  ", b"  "], 8), b"xy".to_vec());
}

#[test]
fn blank_piece_does_not_end_the_input() {
    assert_eq!(read_all(false, true, &[b" \n ", b"abc"], 8), b"abc".to_vec());
    assert_eq!(read_all(true, false, &[b"\x01\x02", b"abc"], 8), b"abc".to_vec());
}

#[test]
fn escape_sequences_split_across_pieces_are_removed() {
    assert_eq!(read_all(true, false, &[b"a\x1b", b"[3", b"1mb\x1b]ti", b"tle\x07c"], 8), b"abc".to_vec());
}

#[test]
fn small_buffers_get_everything_in_order() {
    assert_eq!(read_all(true, true, &[b"  a\x1b[0mbcdef\x01g  "], 3), b"abcdefg".to_vec());
    assert_eq!(read_all(true, true, &[b"  a\x1b[0mbcdef\x01g  "], 1), b"abcdefg".to_vec());
}

#[test]
fn piece_outcomes() {
    let mut r = ProcessingReader::new((), false, true);
    let mut buf = [0u8; 2];
    assert!(matches!(r.process_read(b"   ", &mut buf), ReadOutcome::NeedMore));
    assert!(matches!(r.process_read(b" abc", &mut buf), ReadOutcome::Copied(2)));
    assert_eq!(&buf, b"ab");
    assert_eq!(r.read_pending(&mut buf), Some(1));
    assert_eq!(buf[0], b'c');
    assert_eq!(r.read_pending(&mut buf), None);
    assert!(matches!(r.process_read(b"", &mut buf), ReadOutcome::Finished));
    assert!(r.finished());
}

#[test]
fn copy_steps() {
    assert!(matches!(copy_stream(0), CopyStep::Finish));
    assert!(matches!(copy_stream(17), CopyStep::Write(17)));
}

#[test]
fn unterminated_string_sequence_takes_the_rest_of_the_input() {
    assert_eq!(read_all(true, false, &[b"ok\x1b]ti", b"tle", b"\nlater pieces too"], 8), b"ok".to_vec());
}

#[test]
fn held_whitespace_bounds_what_is_pending() {
    let mut r = ProcessingReader::new((), false, true);
    let mut buf = [0u8; 1];
    assert!(matches!(r.process_read(b"a", &mut buf), ReadOutcome::Copied(1)));
    assert!(matches!(r.process_read(b"   ", &mut buf), ReadOutcome::NeedMore));
    assert!(matches!(r.process_read(b"b", &mut buf), ReadOutcome::Copied(1)));
    assert_eq!(buf[0], b' ');
    let mut rest = [0u8; 8];
    assert_eq!(r.read_pending(&mut rest), Some(3));
    assert_eq!(&rest[..3], b"  b");
}

use concat::args::{parse_args, parse_position_value, ArgError, Options};
use concat::separator::LineEnding;

fn parse(args: &[&str]) -> Result<Options, ArgError> {
    let args: Vec<String> = args.iter().map(|a| a.to_string()).collect();
    parse_args(&args, LineEnding::Lf)
}

fn ok(args: &[&str]) -> Options {
    match parse(args) {
        Ok(o) => o,
        Err(_) => panic!("arguments refused: {:?}", args),
    }
}

#[test]
fn defaults() {
    let o = ok(&[]);
    assert!(o.files.is_empty());
    assert!(o.separator.is_empty());
    assert!(o.output.is_none());
    assert!(o.stdin_positions.is_empty());
    assert!(!o.stdin_ignored && !o.show_help && !o.clean && !o.trim);
}

#[test]
fn files_in_order_and_flags() {
    let o = ok(&["a.txt", "--clean", "-x", "b.txt", "--trim", "-"]);
    assert_eq!(o.files, vec!["a.txt".to_string(), "-x".to_string(), "b.txt".to_string(), "-".to_string()]);
    assert!(o.clean && o.trim && !o.show_help);
}

#[test]
fn help_flags() {
    assert!(ok(&["-h"]).show_help);
    assert!(ok(&["x", "--help"]).show_help);
    assert!(!ok(&["-help"]).show_help);
}

#[test]
fn separator_option() {
    assert_eq!(ok(&["--sep=EOL"]).separator, b"\n".to_vec());
    assert_eq!(ok(&["--sep=\\n---\\n"]).separator, b"\n---\n".to_vec());
    assert_eq!(ok(&["--sep=a", "--sep=b"]).separator, b"b".to_vec());
    assert_eq!(ok(&["--sep="]).separator, Vec::<u8>::new());
    let args = vec!["--sep=EOL".to_string()];
    match parse_args(&args, LineEnding::CrLf) {
        Ok(o) => assert_eq!(o.separator, b"\r\n".to_vec()),
        Err(_) => panic!("refused"),
    }
}

#[test]
fn output_option() {
    assert_eq!(ok(&["--out"]).output, Some(String::new()));
    assert_eq!(ok(&["--out="]).output, Some(String::new()));
    assert_eq!(ok(&["--out=combined.txt"]).output, Some("combined.txt".to_string()));
    assert_eq!(ok(&["--out=dir/ü.txt"]).output, Some("dir/ü.txt".to_string()));
}

#[test]
fn stdin_positions() {
    assert_eq!(ok(&["--push-stdin-at=first"]).stdin_positions, vec![0]);
    assert_eq!(ok(&["--push-stdin-at=LAST"]).stdin_positions, vec![usize::MAX]);
    assert_eq!(ok(&["--push-stdin-at=3", "--push-stdin-at=+1", "--push-stdin-at=3"]).stdin_positions, vec![3, 1, 3]);
    assert_eq!(ok(&["--push-stdin-at=007"]).stdin_positions, vec![7]);
}

#[test]
fn ignore_clears_and_blocks_positions() {
    let o = ok(&["--push-stdin-at=1", "--push-stdin-at=Ignore", "--push-stdin-at=2"]);
    assert!(o.stdin_ignored);
    assert!(o.stdin_positions.is_empty());
}

#[test]
fn invalid_position_is_refused() {
    for bad in ["-1", "+", "", "x", "1.5", "99999999999999999999999999", "first!"] {
        let arg = format!("--push-stdin-at={}", bad);
        match parse(&[arg.as_str()]) {
            Err(ArgError::InvalidPosition(v)) => assert_eq!(v, bad.to_string()),
            _ => panic!("accepted {}", bad),
        }
    }
}

#[test]
fn unknown_option_is_refused() {
    match parse(&["a", "--bogus", "--also-bogus"]) {
        Err(ArgError::UnknownOption(a)) => assert_eq!(a, "--bogus".to_string()),
        _ => panic!("accepted"),
    }
    match parse(&["--Clean"]) {
        Err(ArgError::UnknownOption(a)) => assert_eq!(a, "--Clean".to_string()),
        _ => panic!("accepted"),
    }
}

#[test]
fn first_error_wins() {
    match parse(&["--push-stdin-at=z", "--nope"]) {
        Err(ArgError::InvalidPosition(v)) => assert_eq!(v, "z".to_string()),
        _ => panic!("wrong outcome"),
    }
}

#[test]
fn position_values() {
    assert_eq!(parse_position_value("0"), Some(0));
    assert_eq!(parse_position_value("+42"), Some(42));
    assert_eq!(parse_position_value("18446744073709551615"), if usize::BITS == 64 { Some(usize::MAX) } else { None });
    assert_eq!(parse_position_value("18446744073709551616"), None);
    assert_eq!(parse_position_value("++1"), None);
    assert_eq!(parse_position_value(" 1"), None);
    assert_eq!(parse_position_value("١"), None);
}

#[test]
fn separator_as_two_arguments() {
    let o = ok(&["--sep", ";", "a.txt", "b.txt"]);
    assert_eq!(o.separator, b";".to_vec());
    assert_eq!(o.files, vec!["a.txt".to_string(), "b.txt".to_string()]);
    assert_eq!(ok(&["--sep", "--clean"]).separator, b"--clean".to_vec());
    assert!(!ok(&["--sep", "--clean"]).clean);
    assert_eq!(ok(&["--sep", "EOL"]).separator, b"\n".to_vec());
}

#[test]
fn separator_without_value_is_refused() {
    assert!(matches!(parse(&["a", "--sep"]), Err(ArgError::MissingSeparatorValue)));
}

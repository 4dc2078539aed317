use concat::plan::{concat_plan, output_target, stdin_insert_positions, OutputTarget, Segment};
use concat::plan::Segment::{File, Separator, Stdin};

fn before_stdin() -> Segment {
    Separator(None)
}

#[test]
fn no_stdin_when_unavailable_or_ignored() {
    assert!(stdin_insert_positions(false, false, &vec![1, 2], 3).is_empty());
    assert!(stdin_insert_positions(true, true, &vec![1, 2], 3).is_empty());
    assert!(stdin_insert_positions(false, false, &vec![], 3).is_empty());
}

#[test]
fn stdin_first_by_default() {
    assert_eq!(stdin_insert_positions(true, false, &vec![], 3), vec![0]);
    assert_eq!(stdin_insert_positions(true, false, &vec![], 0), vec![0]);
}

#[test]
fn positions_are_normalized_merged_and_sorted() {
    assert_eq!(stdin_insert_positions(true, false, &vec![3, usize::MAX, 0, 3, 7, 1], 2), vec![0, 1, 2]);
    assert_eq!(stdin_insert_positions(true, false, &vec![5, 2, 4], 10), vec![2, 4, 5]);
}

#[test]
fn plan_without_stdin() {
    assert_eq!(concat_plan(3, &[]), vec![File(0), Separator(Some(1)), File(1), Separator(Some(2)), File(2)]);
    assert_eq!(concat_plan(0, &[]), Vec::<Segment>::new());
    assert_eq!(concat_plan(1, &[]), vec![File(0)]);
}

#[test]
fn plan_with_stdin() {
    assert_eq!(concat_plan(2, &[0]), vec![Stdin, Separator(Some(0)), File(0), Separator(Some(1)), File(1)]);
    assert_eq!(concat_plan(2, &[2]), vec![File(0), Separator(Some(1)), File(1), before_stdin(), Stdin]);
    assert_eq!(concat_plan(2, &[1, 2]), vec![File(0), before_stdin(), Stdin, Separator(Some(1)), File(1), before_stdin(), Stdin]);
    assert_eq!(concat_plan(0, &[0]), vec![Stdin]);
}

#[test]
fn stdin_at_third_position_stands_before_third_file() {
    let plan = concat_plan(4, &stdin_insert_positions(true, false, &vec![2], 4));
    assert_eq!(plan, vec![File(0), Separator(Some(1)), File(1), before_stdin(), Stdin, Separator(Some(2)), File(2), Separator(Some(3)), File(3)]);
}

#[test]
fn separators_only_between_inputs() {
    let plan = concat_plan(5, &[0, 3, 5]);
    assert_eq!(plan.len(), 2 * 8 - 1);
    for (i, s) in plan.iter().enumerate() {
        assert_eq!(matches!(s, Separator(_)), i % 2 == 1);
        if i % 2 == 1 {
            let expected = match plan[i + 1] {
                File(k) => Separator(Some(k)),
                _ => before_stdin(),
            };
            assert_eq!(*s, expected);
        }
    }
    let files: Vec<usize> = plan.iter().filter_map(|s| if let Segment::File(i) = s { Some(*i) } else { None }).collect();
    assert_eq!(files, vec![0, 1, 2, 3, 4]);
    assert_eq!(plan.iter().filter(|s| **s == Segment::Stdin).count(), 3);
}

#[test]
fn output_targets() {
    use_output_target();
}

fn use_output_target() {
    assert!(matches!(output_target(&None), OutputTarget::Stdout));
    assert!(matches!(output_target(&Some(String::new())), OutputTarget::Timestamped));
    match output_target(&Some("out.txt".to_string())) {
        OutputTarget::Path(p) => assert_eq!(p, "out.txt".to_string()),
        _ => panic!("wrong target"),
    }
}

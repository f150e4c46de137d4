use barb::interpreter::{has_stray_close, parse_code};
use barb::shared::{targets_valid, Operation};

#[test]
fn parse_each_command_once() {
    let ops = parse_code("><+-.,");
    assert_eq!(
        ops,
        vec![
            Operation::Next,
            Operation::Prev,
            Operation::Increment,
            Operation::Decrement,
            Operation::Output,
            Operation::Input,
        ]
    );
}

#[test]
fn parse_skips_comments() {
    let ops = parse_code("add one: + then print it: .\n");
    assert_eq!(ops, vec![Operation::Increment, Operation::Output]);
}

#[test]
fn parse_empty_text() {
    assert_eq!(parse_code(""), Vec::<Operation>::new());
    assert_eq!(parse_code("only words"), Vec::<Operation>::new());
}

#[test]
fn parse_pairs_brackets() {
    let ops = parse_code("+[-]");
    assert_eq!(
        ops,
        vec![
            Operation::Increment,
            Operation::JumpIfZero(3),
            Operation::Decrement,
            Operation::JumpIfNonzero(1),
        ]
    );
}

#[test]
fn parse_pairs_nested_brackets() {
    let ops = parse_code("[[]x[]]");
    assert_eq!(
        ops,
        vec![
            Operation::JumpIfZero(5),
            Operation::JumpIfZero(2),
            Operation::JumpIfNonzero(1),
            Operation::JumpIfZero(4),
            Operation::JumpIfNonzero(3),
            Operation::JumpIfNonzero(0),
        ]
    );
}

#[test]
fn parse_unclosed_bracket_points_at_zero() {
    let ops = parse_code("+[[-]");
    assert_eq!(
        ops,
        vec![
            Operation::Increment,
            Operation::JumpIfZero(0),
            Operation::JumpIfZero(4),
            Operation::Decrement,
            Operation::JumpIfNonzero(2),
        ]
    );
}

#[test]
fn parse_jumps_point_at_each_other() {
    let ops = parse_code("[>[<+>-]<[->+<]]");
    for (i, op) in ops.iter().enumerate() {
        match op {
            Operation::JumpIfZero(t) => assert_eq!(ops[*t], Operation::JumpIfNonzero(i)),
            Operation::JumpIfNonzero(t) => assert_eq!(ops[*t], Operation::JumpIfZero(i)),
            _ => {}
        }
    }
}

#[test]
fn stray_close_is_found() {
    assert!(has_stray_close("]"));
    assert!(has_stray_close("[]]["));
    assert!(has_stray_close("+-]"));
    assert!(!has_stray_close("[[]"));
    assert!(!has_stray_close("[]"));
    assert!(has_stray_close("a ] in prose is still a command"));
    assert!(!has_stray_close(""));
}

fn shifted(ops: Vec<Operation>, n: usize) -> Vec<Operation> {
    ops.into_iter()
        .map(|op| match op {
            Operation::JumpIfZero(t) => Operation::JumpIfZero(t + n),
            Operation::JumpIfNonzero(t) => Operation::JumpIfNonzero(t + n),
            other => other,
        })
        .collect()
}

#[test]
fn parse_of_joined_balanced_texts() {
    let a = "+[->+<]";
    let b = "x[[-]>]<.";
    let oa = parse_code(a);
    let mut expected = oa.clone();
    expected.extend(shifted(parse_code(b), oa.len()));
    assert_eq!(parse_code(&format!("{a}{b}")), expected);
}

#[test]
fn parsed_targets_are_valid() {
    assert!(targets_valid(&parse_code("+[[-]>]<[")));
    assert!(!targets_valid(&[Operation::JumpIfZero(1)]));
    assert!(!targets_valid(&[Operation::Next, Operation::JumpIfNonzero(2)]));
    assert!(targets_valid(&[]));
}

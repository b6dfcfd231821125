use cmfmt::{longest_backtick_sequence, shortest_unused_backtick_sequence};

#[test]
fn longest_run_of_mixed_literal() {
    let lit: Vec<u8> = "a``b```c".as_bytes().to_vec();
    assert_eq!(longest_backtick_sequence(&lit), 3);
}

#[test]
fn longest_run_counts_trailing_run() {
    let lit: Vec<u8> = "a````".as_bytes().to_vec();
    assert_eq!(longest_backtick_sequence(&lit), 4);
}

#[test]
fn longest_run_of_plain_literal_is_zero() {
    let lit: Vec<u8> = "plain".as_bytes().to_vec();
    assert_eq!(longest_backtick_sequence(&lit), 0);
}

#[test]
fn shortest_unused_skips_embedded_run() {
    let lit: Vec<u8> = "a`b".as_bytes().to_vec();
    assert_eq!(shortest_unused_backtick_sequence(&lit), 2);
}

#[test]
fn shortest_unused_of_empty_literal_is_one() {
    let lit: Vec<u8> = Vec::new();
    assert_eq!(shortest_unused_backtick_sequence(&lit), 1);
}

#[test]
fn shortest_unused_counts_trailing_run() {
    let lit: Vec<u8> = "a`".as_bytes().to_vec();
    assert_eq!(shortest_unused_backtick_sequence(&lit), 2);
}

#[test]
fn shortest_unused_finds_gap_between_runs() {
    let lit: Vec<u8> = "`a```b".as_bytes().to_vec();
    assert_eq!(shortest_unused_backtick_sequence(&lit), 2);
}

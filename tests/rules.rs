use automaton::board::{Board, BoardError};
use automaton::rule::{repair_ref, Predicate, Rule, State};

fn eq_rule(target_state: usize, target_count: u32, count_state: usize) -> Rule {
    Rule::new(target_state, target_count, count_state, Predicate::Equals)
}

#[test]
fn predicate_equals() {
    assert!(Predicate::Equals.eval(3, 3));
    assert!(!Predicate::Equals.eval(2, 3));
    assert!(!Predicate::Equals.eval(4, 3));
}

#[test]
fn predicate_at_least_and_at_most() {
    assert!(Predicate::AtLeast.eval(3, 3));
    assert!(Predicate::AtLeast.eval(8, 3));
    assert!(!Predicate::AtLeast.eval(2, 3));
    assert!(Predicate::AtMost.eval(3, 3));
    assert!(Predicate::AtMost.eval(0, 3));
    assert!(!Predicate::AtMost.eval(4, 3));
}

#[test]
fn predicate_between_includes_both_bounds() {
    let p = Predicate::Between(5);
    assert!(!p.eval(1, 2));
    assert!(p.eval(2, 2));
    assert!(p.eval(4, 2));
    assert!(p.eval(5, 2));
    assert!(!p.eval(6, 2));
}

#[test]
fn rule_new_keeps_fields() {
    let r = Rule::new(2, 7, 1, Predicate::AtMost);
    assert_eq!(r.target_state, 2);
    assert_eq!(r.target_count, 7);
    assert_eq!(r.count_state, 1);
    assert_eq!(r.predicate, Predicate::AtMost);
}

#[test]
fn rule_evaluate_reads_watched_state() {
    let histogram = vec![5, 3, 0];
    assert!(eq_rule(1, 3, 1).evaluate(&histogram));
    assert!(!eq_rule(1, 3, 0).evaluate(&histogram));
    assert!(eq_rule(1, 0, 2).evaluate(&histogram));
    assert!(Rule::new(0, 4, 0, Predicate::AtLeast).evaluate(&histogram));
}

#[test]
fn state_new_keeps_fields() {
    let s = State::new(3, String::from("#123456"), 1, vec![eq_rule(0, 2, 1)]);
    assert_eq!(s.index, 3);
    assert_eq!(s.color, "#123456");
    assert_eq!(s.fail_state, 1);
    assert_eq!(s.rules, vec![eq_rule(0, 2, 1)]);
}

#[test]
fn repair_ref_falls_back_to_zero() {
    assert_eq!(repair_ref(2, 3, None), 2);
    assert_eq!(repair_ref(3, 3, None), 0);
    assert_eq!(repair_ref(2, 3, Some(2)), 0);
    assert_eq!(repair_ref(1, 3, Some(2)), 1);
}

#[test]
fn state_renumber_repairs_references() {
    let mut s = State::new(9, String::from("#00FF00"), 4, vec![eq_rule(5, 2, 1), eq_rule(1, 3, 2)]);
    s.renumber(1, 3, Some(2));
    assert_eq!(s.index, 1);
    assert_eq!(s.fail_state, 0);
    assert_eq!(s.rules, vec![eq_rule(0, 2, 1), eq_rule(1, 3, 0)]);
    assert_eq!(s.color, "#00FF00");
}

#[test]
fn state_refs_within() {
    let s = State::new(0, String::from("#000000"), 1, vec![eq_rule(1, 2, 2)]);
    assert!(s.refs_within(3));
    assert!(!s.refs_within(2));
    let t = State::new(0, String::from("#000000"), 2, vec![]);
    assert!(!t.refs_within(2));
}

/// Three states; state 0 has two rules that both fire on any histogram.
fn overlapping_rules_board() -> Board {
    let s0 = State::new(
        0,
        String::from("#000000"),
        0,
        vec![Rule::new(1, 0, 0, Predicate::AtLeast), Rule::new(2, 0, 0, Predicate::AtLeast)],
    );
    let s1 = State::new(1, String::from("#FF0000"), 1, vec![]);
    let s2 = State::new(2, String::from("#0000FF"), 2, vec![]);
    Board::new(3, 3, Some(vec![s0, s1, s2])).unwrap()
}

#[test]
fn first_matching_rule_wins() {
    let b = overlapping_rules_board();
    let next = b.next();
    assert_eq!(next, vec![vec![1; 3]; 3]);
}

#[test]
fn second_rule_applies_when_first_does_not_fire() {
    let s0 = State::new(
        0,
        String::from("#000000"),
        0,
        vec![Rule::new(1, 9, 0, Predicate::AtLeast), Rule::new(2, 8, 0, Predicate::Equals)],
    );
    let s1 = State::new(1, String::from("#FF0000"), 1, vec![]);
    let s2 = State::new(2, String::from("#0000FF"), 2, vec![]);
    let b = Board::new(4, 4, Some(vec![s0, s1, s2])).unwrap();
    assert_eq!(b.next(), vec![vec![2; 4]; 4]);
}

#[test]
fn no_rule_fires_gives_fail_state() {
    let s0 = State::new(
        0,
        String::from("#000000"),
        2,
        vec![Rule::new(1, 5, 1, Predicate::Equals), Rule::new(1, 1, 0, Predicate::AtMost)],
    );
    let s1 = State::new(1, String::from("#FF0000"), 1, vec![]);
    let s2 = State::new(2, String::from("#0000FF"), 2, vec![]);
    let b = Board::new(3, 2, Some(vec![s0, s1, s2])).unwrap();
    assert_eq!(b.next(), vec![vec![2; 3]; 2]);
}

#[test]
fn add_rule_appends_and_repairs() {
    let mut b = Board::new(3, 3, None).unwrap();
    assert_eq!(b.add_rule(0, eq_rule(7, 4, 1)), Ok(()));
    assert_eq!(b.state_types[0].rules, vec![eq_rule(1, 3, 1), eq_rule(0, 4, 1)]);
    assert_eq!(b.add_rule(2, eq_rule(1, 4, 1)), Err(BoardError::UnknownState));
    assert!(b.is_valid());
}

#[test]
fn remove_rule_returns_it() {
    let mut b = Board::new(3, 3, None).unwrap();
    assert_eq!(b.remove_rule(1, 0), Ok(eq_rule(1, 2, 1)));
    assert_eq!(b.state_types[1].rules, vec![eq_rule(1, 3, 1)]);
    assert_eq!(b.remove_rule(1, 1), Err(BoardError::OutOfBounds));
    assert_eq!(b.remove_rule(2, 0), Err(BoardError::UnknownState));
    assert_eq!(b.state_types[1].rules, vec![eq_rule(1, 3, 1)]);
}

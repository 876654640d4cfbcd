use re_set::check::cases_resolved;
use re_set::error::CompileError;
use re_set::parse::{CasePattern, StepCase};
use re_set::StateMachine;

fn go(start: u8, end: u8, target: usize, conditions: Vec<(usize, (u8, u8))>) -> StepCase {
    StepCase { byte_range: (start, end), next_case: CasePattern::Step(target, conditions) }
}

fn fin(start: u8, end: u8, pattern: usize) -> StepCase {
    StepCase { byte_range: (start, end), next_case: CasePattern::Match(pattern) }
}

#[test]
fn disjoint_cases_are_resolved() {
    assert!(cases_resolved(&Vec::new()));
    assert!(cases_resolved(&vec![fin(1, 2, 0)]));
    assert!(cases_resolved(&vec![fin(1, 2, 0), go(3, 4, 1, Vec::new()), fin(5, 9, 1)]));
}

#[test]
fn overlapping_cases_without_a_condition_are_not_resolved() {
    assert!(!cases_resolved(&vec![fin(1, 2, 0), fin(2, 3, 1)]));
    assert!(!cases_resolved(&vec![go(1, 2, 0, Vec::new()), go(2, 3, 1, Vec::new())]));
    assert!(!cases_resolved(&vec![fin(1, 1, 0), fin(5, 5, 0), go(0, 9, 1, Vec::new()), fin(5, 5, 1)]));
}

#[test]
fn a_condition_that_holds_the_shared_bytes_resolves() {
    assert!(cases_resolved(&vec![go(1, 5, 0, vec![(1, (3, 5))]), fin(3, 9, 1)]));
    assert!(cases_resolved(&vec![fin(3, 9, 1), go(1, 5, 0, vec![(1, (0, 200))])]));
    assert!(cases_resolved(&vec![go(1, 5, 0, vec![(0, (3, 5)), (2, (3, 5))]), fin(3, 9, 1)]));
}

#[test]
fn a_condition_that_misses_a_shared_byte_does_not_resolve() {
    assert!(!cases_resolved(&vec![go(1, 5, 0, vec![(1, (4, 5))]), fin(3, 9, 1)]));
    assert!(!cases_resolved(&vec![go(1, 5, 0, vec![(1, (3, 4))]), fin(3, 9, 1)]));
}

#[test]
fn a_condition_for_the_step_that_the_case_goes_on_to_does_not_resolve() {
    assert!(!cases_resolved(&vec![go(1, 5, 7, vec![(7, (3, 5))]), fin(3, 9, 1)]));
}

#[test]
fn reached_from_marks_what_going_on_reaches() {
    let machine = StateMachine {
        steps: vec![
            Some(vec![go(1, 1, 2, vec![(3, (1, 1))]), fin(2, 2, 0), go(3, 3, 9, Vec::new())]),
            Some(vec![go(1, 1, 0, Vec::new())]),
            Some(vec![go(1, 1, 4, Vec::new()), go(2, 2, 2, Vec::new())]),
            Some(Vec::new()),
            None,
            Some(Vec::new()),
        ],
        ends: Vec::new(),
    };
    assert_eq!(machine.reached_from(0), vec![true, false, true, false, true, false]);
    assert_eq!(machine.reached_from(1), vec![true, true, true, false, true, false]);
    assert_eq!(machine.reached_from(3), vec![false, false, false, true, false, false]);
    assert_eq!(machine.reached_from(4), vec![false, false, false, false, true, false]);
}

#[test]
fn an_ambiguous_step_out_of_reach_passes() {
    let machine = StateMachine {
        steps: vec![
            Some(vec![go(1, 1, 2, Vec::new())]),
            Some(vec![fin(1, 1, 0), fin(1, 1, 1)]),
            Some(Vec::new()),
        ],
        ends: Vec::new(),
    };
    assert_eq!(machine.check_resolved(), Ok(()));
}

#[test]
fn the_first_ambiguous_step_in_reach_is_named() {
    let machine = StateMachine {
        steps: vec![
            None,
            Some(vec![go(1, 1, 3, Vec::new()), go(2, 2, 2, Vec::new())]),
            Some(vec![fin(1, 1, 0), fin(1, 1, 1)]),
            Some(vec![go(1, 2, 1, Vec::new()), fin(2, 2, 1)]),
        ],
        ends: Vec::new(),
    };
    assert_eq!(machine.check_resolved(), Err(CompileError::UnresolvedAmbiguity { step: 2 }));
}

#[test]
fn nothing_to_check_without_steps() {
    assert_eq!(StateMachine::default().check_resolved(), Err(CompileError::EmptyAutomaton));
}

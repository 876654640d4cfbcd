use re_set::error::CompileError;
use re_set::parse::{CasePattern, StepCase};
use re_set::StateMachine;

fn on(start: u8, end: u8, target: usize, conditions: Vec<(usize, (u8, u8))>) -> StepCase {
    StepCase { byte_range: (start, end), next_case: CasePattern::Step(target, conditions) }
}

fn end(start: u8, end: u8, pattern: usize) -> StepCase {
    StepCase { byte_range: (start, end), next_case: CasePattern::Match(pattern) }
}

fn with_last_step(last: usize) -> StateMachine {
    let mut steps = Vec::new();
    steps.resize_with(last, || None);
    steps.push(Some(Vec::new()));
    StateMachine { steps, ends: Vec::new() }
}

#[test]
fn compact_renumbers_by_rank() {
    let machine = StateMachine {
        steps: vec![
            None,
            Some(vec![on(b'a', b'a', 3, vec![(5, (1, 2))]), end(b'b', b'b', 4)]),
            None,
            Some(vec![end(b'b', b'b', 0)]),
            None,
            Some(Vec::new()),
        ],
        ends: vec![None, None, None, None, None, Some(0)],
    };
    assert_eq!(
        machine.compact(),
        Ok(StateMachine {
            steps: vec![
                Some(vec![on(b'a', b'a', 1, vec![(2, (1, 2))]), end(b'b', b'b', 4)]),
                Some(vec![end(b'b', b'b', 0)]),
                Some(Vec::new()),
            ],
            ends: vec![None, None, Some(0)],
        })
    );
}

#[test]
fn compact_keeps_an_end_without_a_step() {
    let machine = StateMachine {
        steps: vec![Some(Vec::new()), None, None, Some(vec![on(1, 1, 2, Vec::new())])],
        ends: vec![None, None, Some(4)],
    };
    assert_eq!(
        machine.compact(),
        Ok(StateMachine {
            steps: vec![Some(Vec::new()), None, Some(vec![on(1, 1, 1, Vec::new())])],
            ends: vec![None, Some(4), None],
        })
    );
}

#[test]
fn compact_counts_the_ends_beyond_the_steps() {
    let machine = StateMachine {
        steps: vec![None, Some(vec![on(1, 1, 4, Vec::new()), on(2, 2, 9, Vec::new())])],
        ends: vec![None, None, None, None, Some(3)],
    };
    assert_eq!(
        machine.compact(),
        Ok(StateMachine {
            steps: vec![Some(vec![on(1, 1, 1, Vec::new()), on(2, 2, 2, Vec::new())]), None],
            ends: vec![None, Some(3)],
        })
    );
}

#[test]
fn compact_of_a_dense_table_changes_nothing() {
    let machine = StateMachine {
        steps: vec![
            Some(vec![on(b'a', b'a', 1, vec![(2, (1, 2))])]),
            Some(vec![end(b'b', b'b', 0), on(b'c', b'c', 0, Vec::new())]),
            Some(Vec::new()),
        ],
        ends: vec![None, None, Some(0)],
    };
    assert_eq!(machine.compact(), Ok(machine.clone()));
}

#[test]
fn compact_twice_is_compact_once() {
    let machine = StateMachine {
        steps: vec![None, None, Some(vec![on(b'a', b'a', 4, vec![(4, (1, 2))])]), None, Some(Vec::new())],
        ends: vec![None, None, None, None, Some(1)],
    };
    let once = machine.compact().unwrap();
    assert_eq!(once.compact(), Ok(once.clone()));
}

#[test]
fn compact_of_no_steps_is_an_error() {
    assert_eq!(StateMachine::default().compact(), Err(CompileError::EmptyAutomaton));
    let ends_only = StateMachine { steps: vec![None], ends: vec![Some(0)] };
    assert_eq!(ends_only.compact(), Err(CompileError::EmptyAutomaton));
}

#[test]
fn first_and_last_step_are_the_bounds() {
    let machine = StateMachine {
        steps: vec![None, Some(Vec::new()), None, Some(Vec::new()), None],
        ends: vec![Some(0)],
    };
    assert_eq!(machine.first_step(), Ok(1));
    assert_eq!(machine.last_step(), Ok(3));
    assert!(machine.has_step(1));
    assert!(!machine.has_step(0));
    assert!(!machine.has_step(5));
    assert!(machine.is_id(0));
    assert!(!machine.is_id(2));
}

#[test]
fn no_steps_no_bounds() {
    let machine = StateMachine { steps: vec![None, None], ends: vec![Some(0)] };
    assert_eq!(machine.first_step(), Err(CompileError::EmptyAutomaton));
    assert_eq!(machine.last_step(), Err(CompileError::EmptyAutomaton));
    assert_eq!(machine.step_size(), Err(CompileError::EmptyAutomaton));
}

#[test]
fn step_size_is_the_narrowest_width() {
    assert_eq!(with_last_step(0).step_size(), Ok(8));
    assert_eq!(with_last_step(1).step_size(), Ok(8));
    assert_eq!(with_last_step(255).step_size(), Ok(8));
    assert_eq!(with_last_step(256).step_size(), Ok(16));
    assert_eq!(with_last_step(65_535).step_size(), Ok(16));
    assert_eq!(with_last_step(65_536).step_size(), Ok(32));
}

#[test]
fn end_patterns_hands_out_the_ends() {
    let machine = StateMachine { steps: vec![Some(Vec::new())], ends: vec![None, Some(3)] };
    assert_eq!(machine.end_patterns(), vec![None, Some(3)]);
}

#[test]
fn set_step_pads_and_overwrites() {
    let mut machine = StateMachine::default();
    machine.set_step(2, vec![end(1, 1, 0)], None);
    assert_eq!(machine.steps, vec![None, None, Some(vec![end(1, 1, 0)])]);
    assert_eq!(machine.ends, Vec::<Option<usize>>::new());
    machine.set_step(1, Vec::new(), Some(5));
    assert_eq!(machine.steps, vec![None, Some(Vec::new()), Some(vec![end(1, 1, 0)])]);
    assert_eq!(machine.ends, vec![None, Some(5)]);
    machine.set_step(1, vec![end(2, 2, 1)], None);
    assert_eq!(machine.steps[1], Some(vec![end(2, 2, 1)]));
    assert_eq!(machine.ends, vec![None, Some(5)]);
    assert_eq!(machine.cases_of(1), Some(vec![end(2, 2, 1)]));
    assert_eq!(machine.cases_of(0), None);
    assert_eq!(machine.cases_of(9), None);
    assert_eq!(machine.end_of(1), Some(5));
    assert_eq!(machine.end_of(0), None);
    assert_eq!(machine.end_of(9), None);
}

#[test]
fn replace_cases_needs_the_step() {
    let mut machine = StateMachine { steps: vec![None, Some(Vec::new())], ends: Vec::new() };
    machine.replace_cases(0, vec![end(1, 1, 0)]);
    machine.replace_cases(4, vec![end(1, 1, 0)]);
    assert_eq!(machine.steps, vec![None, Some(Vec::new())]);
    machine.replace_cases(1, vec![end(1, 1, 0)]);
    assert_eq!(machine.steps, vec![None, Some(vec![end(1, 1, 0)])]);
}

use re_set::error::CompileError;
use re_set::parse::{CasePattern, StepCase};
use re_set::StateMachine;

fn to(start: u8, end: u8, target: usize, conditions: Vec<(usize, (u8, u8))>) -> StepCase {
    StepCase { byte_range: (start, end), next_case: CasePattern::Step(target, conditions) }
}

fn stop(start: u8, end: u8, pattern: usize) -> StepCase {
    StepCase { byte_range: (start, end), next_case: CasePattern::Match(pattern) }
}

#[test]
fn accept_ends_the_run_with_the_byte() {
    let machine = StateMachine { steps: vec![Some(vec![stop(b'a', b'c', 4)])], ends: Vec::new() };
    assert_eq!(machine.find(b"b"), Ok(Some((4, 1))));
    assert_eq!(machine.find(b"cab"), Ok(Some((4, 1))));
    assert_eq!(machine.find(b"d"), Ok(None));
    assert_eq!(machine.find(b""), Ok(None));
}

#[test]
fn a_pattern_that_ends_at_the_first_step_matches_nothing_at_least() {
    let machine = StateMachine {
        steps: vec![None, Some(vec![to(b'a', b'a', 2, Vec::new())]), Some(Vec::new())],
        ends: vec![None, Some(3)],
    };
    assert_eq!(machine.find(b""), Ok(Some((3, 0))));
    assert_eq!(machine.find(b"zz"), Ok(Some((3, 0))));
    assert_eq!(machine.find(b"az"), Ok(Some((3, 0))));
}

#[test]
fn arriving_at_a_step_where_a_pattern_ends_is_a_match() {
    let machine = StateMachine {
        steps: vec![Some(vec![to(b'a', b'a', 0, Vec::new()), to(b'b', b'b', 1, Vec::new())]), Some(Vec::new())],
        ends: vec![Some(0), None],
    };
    assert_eq!(machine.find(b"aab"), Ok(Some((0, 2))));
    assert_eq!(machine.find(b"aaa"), Ok(Some((0, 3))));
    assert_eq!(machine.find(b"b"), Ok(Some((0, 0))));
    assert_eq!(machine.find(b"aabx"), Ok(Some((0, 2))));
}

#[test]
fn a_condition_looks_at_the_byte_that_follows() {
    let machine = StateMachine {
        steps: vec![
            Some(vec![to(b'a', b'a', 1, vec![(2, (b'b', b'c'))])]),
            Some(Vec::new()),
            Some(Vec::new()),
        ],
        ends: vec![None, None, Some(7)],
    };
    assert_eq!(machine.find(b"ab"), Ok(Some((7, 1))));
    assert_eq!(machine.find(b"ac"), Ok(Some((7, 1))));
    assert_eq!(machine.find(b"ad"), Ok(None));
    assert_eq!(machine.find(b"aa"), Ok(None));
    assert_eq!(machine.find(b"a"), Ok(None));
}

#[test]
fn the_last_condition_that_holds_wins_and_arrival_wins_over_all() {
    let conditions = vec![(1, (b'x', b'x')), (2, (b'x', b'y')), (3, (b'x', b'x'))];
    let machine = StateMachine {
        steps: vec![
            Some(vec![to(b'a', b'a', 4, conditions.clone()), to(b'b', b'b', 1, conditions)]),
            Some(Vec::new()),
            Some(Vec::new()),
            Some(Vec::new()),
            Some(Vec::new()),
        ],
        ends: vec![None, Some(10), Some(20)],
    };
    assert_eq!(machine.find(b"ax"), Ok(Some((20, 1))));
    assert_eq!(machine.find(b"ay"), Ok(Some((20, 1))));
    assert_eq!(machine.find(b"az"), Ok(None));
    assert_eq!(machine.find(b"bz"), Ok(Some((10, 1))));
    assert_eq!(machine.find(b"bx"), Ok(Some((10, 1))));
}

#[test]
fn a_case_that_goes_on_is_taken_before_one_that_accepts() {
    let machine = StateMachine {
        steps: vec![
            Some(vec![stop(b'a', b'a', 0), to(b'a', b'b', 1, Vec::new()), stop(b'b', b'c', 2)]),
            Some(vec![stop(b'b', b'b', 1)]),
        ],
        ends: Vec::new(),
    };
    assert_eq!(machine.find(b"ab"), Ok(Some((1, 2))));
    assert_eq!(machine.find(b"a"), Ok(None));
    assert_eq!(machine.find(b"bb"), Ok(Some((1, 2))));
    assert_eq!(machine.find(b"c"), Ok(Some((2, 1))));
}

#[test]
fn of_two_cases_of_a_kind_the_earlier_is_taken() {
    let machine = StateMachine {
        steps: vec![
            Some(vec![stop(b'a', b'a', 5), stop(b'a', b'a', 6), to(b'b', b'b', 1, Vec::new()), to(b'b', b'b', 2, Vec::new())]),
            Some(vec![stop(b'x', b'x', 1)]),
            Some(vec![stop(b'x', b'x', 2)]),
        ],
        ends: Vec::new(),
    };
    assert_eq!(machine.find(b"a"), Ok(Some((5, 1))));
    assert_eq!(machine.find(b"bx"), Ok(Some((1, 2))));
}

#[test]
fn a_step_that_is_missing_ends_the_run() {
    let machine = StateMachine {
        steps: vec![Some(vec![to(b'a', b'a', 9, Vec::new()), to(b'b', b'b', 1, Vec::new())]), None],
        ends: vec![Some(1)],
    };
    assert_eq!(machine.find(b"aa"), Ok(Some((1, 0))));
    assert_eq!(machine.find(b"ba"), Ok(Some((1, 0))));
}

#[test]
fn no_steps_no_run() {
    assert_eq!(StateMachine::default().find(b"a"), Err(CompileError::EmptyAutomaton));
}

/// Every match with which following the cases of `machine` from `state`
/// can end: the pattern and the number of bytes read.
fn follow(machine: &StateMachine, state: usize, input: &[u8], at: usize, found: &mut Vec<(usize, usize)>) {
    if let Some(pattern) = machine.end_of(state) {
        found.push((pattern, at));
    }
    if at == input.len() {
        return;
    }
    for case in machine.cases_of(state).unwrap_or_default() {
        if case.byte_range.0 <= input[at] && input[at] <= case.byte_range.1 {
            match case.next_case {
                CasePattern::Match(pattern) => found.push((pattern, at + 1)),
                CasePattern::Step(target, _) => follow(machine, target, input, at + 1, found),
            }
        }
    }
}

#[test]
fn a_run_over_disjoint_cases_gives_the_longest_match() {
    let machine = StateMachine {
        steps: vec![
            Some(vec![to(b'a', b'c', 1, Vec::new()), stop(b'd', b'd', 4), to(b'e', b'e', 2, Vec::new())]),
            Some(vec![to(b'a', b'a', 1, Vec::new()), to(b'b', b'b', 2, Vec::new())]),
            Some(vec![stop(b'x', b'x', 7), to(b'y', b'y', 0, Vec::new())]),
        ],
        ends: vec![None, Some(1), None],
    };
    let inputs: [&[u8]; 10] =
        [b"", b"a", b"caab", b"abx", b"aby", b"abya", b"d", b"ex", b"eyd", b"zz"];
    for input in inputs {
        let mut found = Vec::new();
        follow(&machine, 0, input, 0, &mut found);
        let longest = found.into_iter().max_by_key(|(_, len)| *len);
        assert_eq!(machine.find(input), Ok(longest), "{input:?}");
    }
    assert_eq!(machine.find(b"abya"), Ok(Some((1, 4))));
    assert_eq!(machine.find(b"eyd"), Ok(Some((4, 3))));
}

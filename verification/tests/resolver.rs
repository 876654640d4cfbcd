use re_set::error::CompileError;
use re_set::extend::ranges_overlap;
use re_set::parse::{CasePattern, StepCase};
use re_set::StateMachine;

fn step(start: u8, end: u8, target: usize) -> StepCase {
    StepCase { byte_range: (start, end), next_case: CasePattern::Step(target, Vec::new()) }
}

fn step_if(start: u8, end: u8, target: usize, conditions: Vec<(usize, (u8, u8))>) -> StepCase {
    StepCase { byte_range: (start, end), next_case: CasePattern::Step(target, conditions) }
}

fn done(start: u8, end: u8, pattern: usize) -> StepCase {
    StepCase { byte_range: (start, end), next_case: CasePattern::Match(pattern) }
}

#[test]
fn ranges_overlap_where_they_share_a_byte() {
    assert!(ranges_overlap((1, 5), (5, 9)));
    assert!(ranges_overlap((5, 9), (1, 5)));
    assert!(ranges_overlap((1, 9), (3, 4)));
    assert!(!ranges_overlap((1, 4), (5, 9)));
    assert!(!ranges_overlap((5, 9), (1, 4)));
}

#[test]
fn first_end_is_the_smallest_step_of_a_pattern() {
    let machine = StateMachine { steps: Vec::new(), ends: vec![None, Some(4), Some(2), Some(4)] };
    assert_eq!(machine.first_end(4), Some(1));
    assert_eq!(machine.first_end(2), Some(2));
    assert_eq!(machine.first_end(0), None);
}

#[test]
fn add_condition_names_the_first_step_of_the_pattern() {
    let mut machine = StateMachine {
        steps: vec![Some(vec![done(1, 1, 0), step_if(2, 3, 1, vec![(0, (9, 9))])]), Some(Vec::new())],
        ends: vec![None, Some(6), Some(6)],
    };
    machine.add_condition(0, 1, 6, (4, 5));
    assert_eq!(
        machine.steps,
        vec![
            Some(vec![done(1, 1, 0), step_if(2, 3, 1, vec![(0, (9, 9)), (1, (4, 5))])]),
            Some(Vec::new()),
        ]
    );
    assert_eq!(machine.ends, vec![None, Some(6), Some(6)]);
}

#[test]
fn add_condition_leaves_other_cases_alone() {
    let table = StateMachine {
        steps: vec![Some(vec![done(1, 1, 0), step(2, 3, 1)]), Some(Vec::new())],
        ends: vec![None, Some(6)],
    };
    let mut machine = table.clone();
    machine.add_condition(0, 0, 6, (4, 5));
    assert_eq!(machine, table);
    machine.add_condition(0, 2, 6, (4, 5));
    assert_eq!(machine, table);
    machine.add_condition(5, 0, 6, (4, 5));
    assert_eq!(machine, table);
    machine.add_condition(0, 1, 7, (4, 5));
    assert_eq!(machine, table);
}

#[test]
fn merge_steps_appends_the_cases_of_the_second() {
    let mut machine = StateMachine {
        steps: vec![Some(vec![done(1, 1, 0)]), None, Some(vec![step(2, 2, 0), done(3, 3, 1)])],
        ends: Vec::new(),
    };
    machine.merge_steps(0, 2);
    assert_eq!(
        machine.steps,
        vec![
            Some(vec![done(1, 1, 0), step(2, 2, 0), done(3, 3, 1)]),
            None,
            Some(vec![step(2, 2, 0), done(3, 3, 1)]),
        ]
    );
    let before = machine.clone();
    machine.merge_steps(0, 1);
    assert_eq!(machine, before);
    machine.merge_steps(1, 0);
    assert_eq!(machine, before);
}

#[test]
fn two_steps_after_a_common_byte_are_merged_and_resolved_in_turn() {
    let mut machine = StateMachine {
        steps: vec![
            Some(vec![step(b'a', b'a', 1), step(b'a', b'a', 2)]),
            Some(vec![done(b'b', b'b', 0)]),
            Some(vec![step(b'b', b'b', 3)]),
            Some(vec![done(b'c', b'c', 1)]),
            Some(Vec::new()),
            Some(Vec::new()),
        ],
        ends: vec![None, None, None, None, Some(0), Some(1)],
    };
    assert_eq!(machine.extend_steps(), Ok(()));
    assert_eq!(
        machine.steps,
        vec![
            Some(vec![step(b'a', b'a', 1), step(b'a', b'a', 2)]),
            Some(vec![done(b'b', b'b', 0), step_if(b'b', b'b', 3, vec![(4, (b'b', b'b'))])]),
            Some(vec![step(b'b', b'b', 3)]),
            Some(vec![done(b'c', b'c', 1)]),
            Some(Vec::new()),
            Some(Vec::new()),
        ]
    );
    assert_eq!(machine.ends, vec![None, None, None, None, Some(0), Some(1)]);
}

#[test]
fn a_second_step_at_which_a_pattern_ends_leaves_a_condition() {
    let mut machine = StateMachine {
        steps: vec![
            Some(vec![step(b'a', b'c', 1), step(b'b', b'd', 2)]),
            Some(vec![done(b'x', b'x', 0)]),
            Some(vec![done(b'y', b'y', 1)]),
        ],
        ends: vec![None, None, Some(7)],
    };
    assert_eq!(machine.extend_steps(), Ok(()));
    assert_eq!(
        machine.steps,
        vec![
            Some(vec![step_if(b'a', b'c', 1, vec![(2, (b'b', b'd'))]), step(b'b', b'd', 2)]),
            Some(vec![done(b'x', b'x', 0), done(b'y', b'y', 1)]),
            Some(vec![done(b'y', b'y', 1)]),
        ]
    );
}

#[test]
fn a_case_that_accepts_leaves_a_condition_on_one_that_goes_on() {
    let mut machine = StateMachine {
        steps: vec![
            Some(vec![done(b'a', b'a', 0), step(b'a', b'b', 1), done(b'b', b'b', 1)]),
            Some(Vec::new()),
            Some(Vec::new()),
            Some(Vec::new()),
        ],
        ends: vec![None, None, Some(0), Some(1)],
    };
    assert_eq!(machine.extend_steps(), Ok(()));
    assert_eq!(
        machine.steps[0],
        Some(vec![
            done(b'a', b'a', 0),
            step_if(b'a', b'b', 1, vec![(2, (b'a', b'a')), (3, (b'b', b'b'))]),
            done(b'b', b'b', 1),
        ])
    );
}

#[test]
fn disjoint_or_accepting_cases_stay_as_they_are() {
    let table = StateMachine {
        steps: vec![
            Some(vec![step(1, 2, 1), step(3, 4, 2), done(5, 5, 0), done(5, 5, 1)]),
            Some(vec![done(1, 1, 0)]),
            Some(vec![done(1, 1, 1)]),
        ],
        ends: vec![None, Some(0), Some(1)],
    };
    let mut machine = table.clone();
    assert_eq!(machine.extend_steps(), Ok(()));
    assert_eq!(machine, table);
}

#[test]
fn steps_that_go_on_to_the_same_or_to_their_own_step_are_not_merged() {
    let table = StateMachine {
        steps: vec![
            Some(vec![step(1, 1, 1), step(1, 1, 1), step(2, 2, 0), step(2, 2, 1)]),
            Some(vec![done(9, 9, 0)]),
        ],
        ends: Vec::new(),
    };
    let mut machine = table.clone();
    assert_eq!(machine.extend_steps(), Ok(()));
    assert_eq!(machine, table);
}

#[test]
fn a_missing_step_is_not_merged() {
    let table = StateMachine {
        steps: vec![Some(vec![step(1, 1, 1), step(1, 1, 7)]), Some(vec![done(9, 9, 0)])],
        ends: Vec::new(),
    };
    let mut machine = table.clone();
    assert_eq!(machine.extend_steps(), Ok(()));
    assert_eq!(machine, table);
}

#[test]
fn steps_that_lead_to_each_other_are_merged_once_each_way() {
    let mut machine = StateMachine {
        steps: vec![
            Some(vec![step(b'a', b'a', 1), step(b'a', b'a', 2)]),
            Some(vec![step(b'a', b'a', 2), step(b'a', b'a', 1)]),
            Some(vec![step(b'a', b'a', 1), step(b'a', b'a', 2)]),
        ],
        ends: Vec::new(),
    };
    assert_eq!(machine.extend_steps(), Ok(()));
    assert_eq!(machine.steps[0], Some(vec![step(b'a', b'a', 1), step(b'a', b'a', 2)]));
    assert_eq!(
        machine.steps[1],
        Some(vec![
            step(b'a', b'a', 2),
            step(b'a', b'a', 1),
            step(b'a', b'a', 1),
            step(b'a', b'a', 2),
        ])
    );
    assert_eq!(
        machine.steps[2],
        Some(vec![
            step(b'a', b'a', 1),
            step(b'a', b'a', 2),
            step(b'a', b'a', 2),
            step(b'a', b'a', 1),
            step(b'a', b'a', 1),
            step(b'a', b'a', 2),
        ])
    );
}

#[test]
fn the_resolver_starts_at_the_first_step_only() {
    let table = StateMachine {
        steps: vec![
            None,
            Some(vec![step(1, 1, 2)]),
            Some(vec![step(1, 1, 1), done(1, 1, 0)]),
        ],
        ends: vec![Some(0)],
    };
    let mut machine = table.clone();
    assert_eq!(machine.extend_steps(), Ok(()));
    assert_eq!(machine, table);
}

#[test]
fn extend_split_steps_resolves_the_step_that_is_named() {
    let mut machine = StateMachine {
        steps: vec![
            None,
            Some(vec![step(1, 1, 2)]),
            Some(vec![step(1, 1, 1), done(1, 1, 0)]),
        ],
        ends: vec![Some(0)],
    };
    let mut exclude = Vec::new();
    machine.extend_split_steps(2, &mut exclude);
    assert_eq!(
        machine.steps[2],
        Some(vec![step_if(1, 1, 1, vec![(0, (1, 1))]), done(1, 1, 0)])
    );
    assert_eq!(exclude, Vec::new());
}

#[test]
fn a_pair_that_is_excluded_is_not_merged_again() {
    let table = StateMachine {
        steps: vec![
            Some(vec![step(1, 1, 1), step(1, 1, 2)]),
            Some(vec![done(2, 2, 0)]),
            Some(vec![done(3, 3, 1)]),
        ],
        ends: Vec::new(),
    };
    let mut machine = table.clone();
    let mut exclude = vec![(1, 2)];
    machine.extend_split_steps(0, &mut exclude);
    assert_eq!(machine, table);
    assert_eq!(exclude, vec![(1, 2)]);
    let mut none = Vec::new();
    machine.extend_split_steps(0, &mut none);
    assert_eq!(machine.steps[1], Some(vec![done(2, 2, 0), done(3, 3, 1)]));
    assert_eq!(none, vec![(1, 2)]);
}

#[test]
fn resolving_nothing_is_an_error() {
    let mut machine = StateMachine { steps: vec![None, None], ends: vec![Some(1)] };
    assert_eq!(machine.extend_steps(), Err(CompileError::EmptyAutomaton));
    assert_eq!(machine, StateMachine { steps: vec![None, None], ends: vec![Some(1)] });
}

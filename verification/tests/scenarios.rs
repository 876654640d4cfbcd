use re_set::check::cases_resolved;
use re_set::error::{CompileError, Construct};
use re_set::parse::CasePattern;
use re_set::pattern::parse_patterns;
use re_set::program::{Instruction, Nfa};
use re_set::StateMachine;

fn machine(patterns: &[&str]) -> StateMachine {
    let patterns: Vec<String> = patterns.iter().map(|p| p.to_string()).collect();
    StateMachine::compile(&patterns).unwrap()
}

fn refusal(patterns: &[&str]) -> CompileError {
    let patterns: Vec<String> = patterns.iter().map(|p| p.to_string()).collect();
    StateMachine::compile(&patterns).unwrap_err()
}

fn nfa_of(patterns: &[&str]) -> Nfa {
    let exprs: Vec<regex_syntax::hir::Hir> = patterns
        .iter()
        .map(|pattern| regex_syntax::Parser::new().parse(pattern).unwrap())
        .collect();
    let program = regex::internal::Compiler::new().bytes(true).compile(&exprs).unwrap();
    Nfa::from_regex(&program).unwrap()
}

/// Every end that trying all ways through the program reaches from `pc`
/// with the input from `at` on: the pattern and the number of bytes read.
fn backtrack(nfa: &Nfa, pc: usize, input: &[u8], at: usize, depth: usize, found: &mut Vec<(usize, usize)>) {
    if depth > 2 * nfa.len() {
        return;
    }
    match nfa.inst(pc) {
        Instruction::Match(pattern) => found.push((*pattern, at)),
        Instruction::Save { goto } => backtrack(nfa, *goto, input, at, depth + 1, found),
        Instruction::Split { goto1, goto2 } => {
            backtrack(nfa, *goto1, input, at, depth + 1, found);
            backtrack(nfa, *goto2, input, at, depth + 1, found);
        }
        Instruction::Bytes { start, end, goto } => {
            if at < input.len() && *start <= input[at] && input[at] <= *end {
                backtrack(nfa, *goto, input, at + 1, 0, found);
            }
        }
        _ => {}
    }
}

/// The longest match that trying all ways finds.
fn reference(nfa: &Nfa, input: &[u8]) -> Option<(usize, usize)> {
    let mut found = Vec::new();
    backtrack(nfa, 0, input, 0, 0, &mut found);
    found.into_iter().max_by_key(|(_, len)| *len)
}

#[test]
fn one_literal_matches_its_prefix() {
    assert_eq!(machine(&["abc"]).find(b"abcd"), Ok(Some((0, 3))));
}

#[test]
fn longest_of_three_literals_wins() {
    assert_eq!(machine(&["a", "ab", "abc"]).find(b"abcd"), Ok(Some((2, 3))));
}

#[test]
fn optional_sign_and_digit() {
    assert_eq!(machine(&["~?[-+]?[0-9]"]).find(b"~-3"), Ok(Some((0, 3))));
}

#[test]
fn other_byte_matches_nothing() {
    assert_eq!(machine(&["x"]).find(b"y"), Ok(None));
}

#[test]
fn repetition_terminates_and_matches_all() {
    assert_eq!(machine(&["a*"]).find(b"aaa"), Ok(Some((0, 3))));
}

#[test]
fn nested_repetition_terminates() {
    let compiled = machine(&["(a*)*"]);
    assert_eq!(compiled.find(b"aaab"), Ok(Some((0, 3))));
    assert_eq!(compiled.find(b""), Ok(Some((0, 0))));
}

#[test]
fn compiling_twice_gives_the_same_machine() {
    for set in [vec!["abc"], vec!["a", "ab", "abc"], vec!["~?[-+]?[0-9]"], vec!["a*"], vec!["[a-f]+x|y"]] {
        assert_eq!(machine(&set), machine(&set));
    }
    assert_eq!(refusal(&["ab", "abc"]), refusal(&["ab", "abc"]));
}

#[test]
fn compiled_machines_name_steps_of_their_own_only() {
    for set in [vec!["abc"], vec!["a", "ab", "abc"], vec!["~?[-+]?[0-9]"], vec!["a*"], vec!["(a*)*"]] {
        let compiled = machine(&set);
        for step in compiled.steps.iter().flatten() {
            for case in step {
                if let CasePattern::Step(target, conditions) = &case.next_case {
                    assert!(compiled.has_step(*target));
                    for (candidate, _) in conditions {
                        assert!(compiled.has_step(*candidate));
                    }
                }
            }
        }
        for (step, end) in compiled.ends.iter().enumerate() {
            assert!(end.is_none() || compiled.has_step(step));
        }
    }
}

#[test]
fn compiled_machines_are_resolved_within_reach() {
    for set in [vec!["abc"], vec!["a", "ab", "abc"], vec!["~?[-+]?[0-9]"], vec!["a*"], vec!["(a*)*"]] {
        assert_eq!(machine(&set).check_resolved(), Ok(()));
    }
}

#[test]
fn a_step_out_of_reach_may_stay_ambiguous() {
    let compiled = machine(&["a", "ab", "abc"]);
    let ambiguous: Vec<usize> = (0..compiled.steps.len())
        .filter(|&step| !cases_resolved(compiled.steps[step].as_ref().unwrap()))
        .collect();
    assert_eq!(ambiguous, vec![3]);
    assert!(!compiled.reached_from(0)[3]);
}

#[test]
fn compiled_machines_are_dense() {
    for set in [vec!["abc"], vec!["a", "ab", "abc"], vec!["~?[-+]?[0-9]"], vec!["a*"], vec!["(a*)*"]] {
        let compiled = machine(&set);
        assert_eq!(compiled.first_step(), Ok(0));
        assert_eq!(compiled.last_step(), Ok(compiled.steps.len() - 1));
        assert_eq!(compiled.steps.len(), compiled.ends.len());
        assert!(compiled.steps.iter().all(Option::is_some));
        assert_eq!(compiled.compact(), Ok(compiled.clone()));
        assert_eq!(compiled.step_size(), Ok(8));
    }
}

#[test]
fn capture_slots_leave_no_step() {
    let compiled = machine(&["abc"]);
    assert_eq!(compiled.steps.len(), 4);
    assert_eq!(compiled.ends, vec![None, None, None, Some(0)]);
}

#[test]
fn unambiguous_sets_agree_with_trying_all_ways() {
    let sets = [
        vec!["abc"],
        vec!["~?[-+]?[0-9]"],
        vec!["a*"],
        vec!["x"],
        vec!["[a-c]+d?"],
        vec!["ab", "cd", "e*f"],
        vec!["(a*)*"],
        vec!["[0-9]{2,4}(\\.[0-9]+)?"],
    ];
    let inputs: [&[u8]; 21] = [
        b"", b"a", b"aa", b"aaa", b"abc", b"abcd", b"ab", b"x", b"y", b"~-3", b"-3", b"+", b"7z",
        b"abcad", b"cd", b"eeef", b"ef", b"12", b"12345", b"123.5x", b"1.5",
    ];
    for set in sets {
        let compiled = machine(&set);
        let nfa = nfa_of(&set);
        for input in inputs {
            assert_eq!(compiled.find(input), Ok(reference(&nfa, input)), "{set:?} on {input:?}");
        }
    }
}

#[test]
fn a_pattern_that_the_parser_refuses_is_named() {
    assert!(matches!(refusal(&["a", "(", "["]), CompileError::SyntaxError { literal: 1, .. }));
    assert!(matches!(refusal(&["a{2,1}"]), CompileError::SyntaxError { literal: 0, .. }));
}

#[test]
fn what_the_parser_said_comes_back_unchanged() {
    let error = regex_syntax::Parser::new().parse("(").unwrap_err();
    assert_eq!(refusal(&["a", "(", "["]), CompileError::SyntaxError { literal: 1, error });
    let error = regex_syntax::Parser::new().parse("[^\\x00-\\x{10FFFF}]").unwrap_err();
    assert_eq!(
        refusal(&["[^\\x00-\\x{10FFFF}]", "("]),
        CompileError::SyntaxError { literal: 0, error }
    );
}

#[test]
fn a_refused_pattern_fails_whatever_else_is_wrong() {
    assert!(matches!(refusal(&["^a", "ab", "abc", "("]), CompileError::SyntaxError { literal: 3, .. }));
}

#[test]
fn parse_patterns_hands_out_what_the_parser_makes() {
    let patterns = vec!["a|b".to_string(), "[0-9]+".to_string()];
    let expected: Vec<regex_syntax::hir::Hir> = patterns
        .iter()
        .map(|pattern| regex_syntax::Parser::new().parse(pattern).unwrap())
        .collect();
    assert_eq!(parse_patterns(&patterns), Ok(expected));
    assert_eq!(parse_patterns(&Vec::new()), Ok(Vec::new()));
}

#[test]
fn parse_patterns_stops_at_the_first_refusal() {
    let patterns = vec!["a".to_string(), "b)".to_string(), "(".to_string()];
    let error = regex_syntax::Parser::new().parse("b)").unwrap_err();
    assert_eq!(parse_patterns(&patterns), Err(CompileError::SyntaxError { literal: 1, error }));
}

#[test]
fn a_program_that_is_too_big_is_refused_by_the_compiler() {
    assert!(matches!(
        refusal(&["\\pL{3000}"]),
        CompileError::Compiler(regex::Error::CompiledTooBig(_))
    ));
}

#[test]
fn an_anchor_is_unsupported() {
    assert_eq!(
        refusal(&["^a"]),
        CompileError::UnsupportedConstruct { construct: Construct::EmptyLook, position: 1 }
    );
    assert_eq!(
        refusal(&["a", "b\\b"]),
        CompileError::UnsupportedConstruct { construct: Construct::EmptyLook, position: 4 }
    );
}

#[test]
fn a_circle_of_saves_is_unsupported() {
    let nfa = Nfa::new(vec![Instruction::Save { goto: 0 }]).unwrap();
    assert_eq!(
        StateMachine::new(&nfa),
        Err(CompileError::UnsupportedConstruct { construct: Construct::Save, position: 0 })
    );
}

#[test]
fn two_steps_merged_without_a_condition_stay_ambiguous() {
    assert_eq!(refusal(&["ab", "abc"]), CompileError::UnresolvedAmbiguity { step: 0 });
    assert_eq!(refusal(&["x(a|ab)"]), CompileError::UnresolvedAmbiguity { step: 1 });
}

#[test]
fn no_patterns_no_automaton() {
    assert_eq!(StateMachine::compile(&Vec::new()), Err(CompileError::EmptyAutomaton));
    assert_eq!(StateMachine::new(&Nfa::new(Vec::new()).unwrap()), Err(CompileError::EmptyAutomaton));
}

#[test]
fn from_regex_compiles_what_new_compiles() {
    let exprs = vec![regex_syntax::Parser::new().parse("a|bc").unwrap()];
    let program = regex::internal::Compiler::new().bytes(true).compile(&exprs).unwrap();
    let copy = Nfa::from_regex(&program).unwrap();
    assert_eq!(StateMachine::from_regex(&program), StateMachine::new(&copy));
    assert_eq!(StateMachine::from_regex(&program).unwrap().find(b"bcd"), Ok(Some((0, 2))));
}

#[test]
fn a_shorter_alternative_is_lost_where_the_next_byte_does_not_repeat_it() {
    let compiled = machine(&["ab", "a"]);
    assert_eq!(compiled.find(b"ab"), Ok(Some((0, 2))));
    assert_eq!(compiled.find(b"aa"), Ok(Some((1, 1))));
    assert_eq!(compiled.find(b"ac"), Ok(None));
}

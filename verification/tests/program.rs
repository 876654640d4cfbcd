use re_set::error::{CompileError, Construct};
use re_set::program::{Instruction, Nfa};

fn regex_program(patterns: &[&str], bytes: bool) -> regex::internal::Program {
    let exprs: Vec<regex_syntax::hir::Hir> = patterns
        .iter()
        .map(|pattern| regex_syntax::Parser::new().parse(pattern).unwrap())
        .collect();
    regex::internal::Compiler::new().bytes(bytes).compile(&exprs).unwrap()
}

fn holds(nfa: &Nfa, expected: Vec<Instruction>) -> bool {
    nfa.len() == expected.len() && (0..nfa.len()).all(|pc| *nfa.inst(pc) == expected[pc])
}

#[test]
fn program_rejects_a_goto_outside() {
    assert_eq!(
        Nfa::new(vec![Instruction::Bytes { start: 1, end: 2, goto: 1 }]).err(),
        Some(CompileError::UnsupportedConstruct { construct: Construct::Goto, position: 0 })
    );
    assert!(Nfa::new(vec![Instruction::Bytes { start: 1, end: 2, goto: 0 }]).is_ok());
}

#[test]
fn program_names_the_first_stray_instruction() {
    let insts = vec![
        Instruction::Match(0),
        Instruction::Split { goto1: 0, goto2: 3 },
        Instruction::Save { goto: 9 },
    ];
    assert_eq!(
        Nfa::new(insts).err(),
        Some(CompileError::UnsupportedConstruct { construct: Construct::Goto, position: 1 })
    );
}

#[test]
fn empty_program_is_valid() {
    let nfa = Nfa::new(Vec::new()).unwrap();
    assert_eq!(nfa.len(), 0);
    assert_eq!(nfa.skip(0), 0);
}

#[test]
fn skip_follows_saves() {
    let program = Nfa::new(vec![
        Instruction::Save { goto: 1 },
        Instruction::Save { goto: 2 },
        Instruction::Match(0),
    ])
    .unwrap();
    assert_eq!(program.skip(0), 2);
    assert_eq!(program.skip(1), 2);
    assert_eq!(program.skip(2), 2);
    assert_eq!(program.skip(7), 7);
}

#[test]
fn skip_stops_in_a_circle_of_saves() {
    let program = Nfa::new(vec![Instruction::Save { goto: 1 }, Instruction::Save { goto: 0 }]).unwrap();
    assert_eq!(program.skip(0), 0);
    assert_eq!(program.skip(1), 1);
}

#[test]
fn from_regex_copies_a_byte_program() {
    let nfa = Nfa::from_regex(&regex_program(&["ab"], true)).unwrap();
    assert!(holds(
        &nfa,
        vec![
            Instruction::Save { goto: 1 },
            Instruction::Bytes { start: b'a', end: b'a', goto: 2 },
            Instruction::Bytes { start: b'b', end: b'b', goto: 3 },
            Instruction::Save { goto: 4 },
            Instruction::Match(0),
        ]
    ));
}

#[test]
fn from_regex_copies_a_character_program() {
    let nfa = Nfa::from_regex(&regex_program(&["[a-c0]x"], false)).unwrap();
    assert!(holds(
        &nfa,
        vec![
            Instruction::Save { goto: 1 },
            Instruction::Ranges { ranges: vec![('0', '0'), ('a', 'c')], goto: 2 },
            Instruction::Char { c: 'x', goto: 3 },
            Instruction::Save { goto: 4 },
            Instruction::Match(0),
        ]
    ));
}

#[test]
fn from_regex_copies_splits_and_matches_of_a_set() {
    let nfa = Nfa::from_regex(&regex_program(&["a", "b"], true)).unwrap();
    assert!(holds(
        &nfa,
        vec![
            Instruction::Split { goto1: 1, goto2: 3 },
            Instruction::Bytes { start: b'a', end: b'a', goto: 2 },
            Instruction::Match(0),
            Instruction::Bytes { start: b'b', end: b'b', goto: 4 },
            Instruction::Match(1),
        ]
    ));
}

#[test]
fn from_regex_copies_an_assertion() {
    let nfa = Nfa::from_regex(&regex_program(&["^a"], true)).unwrap();
    assert!(holds(
        &nfa,
        vec![
            Instruction::Save { goto: 1 },
            Instruction::EmptyLook { goto: 2 },
            Instruction::Bytes { start: b'a', end: b'a', goto: 3 },
            Instruction::Save { goto: 4 },
            Instruction::Match(0),
        ]
    ));
}

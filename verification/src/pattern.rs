//! From pattern text to a state machine, by way of the regex crates.

use vstd::prelude::*;
use crate::error::{CompileError, Construct};
use crate::outside::{
    compile_program, inst_at, inst_count, parse_of, parse_pattern, program_insts,
};
use crate::program::{first_stray, valid_program, Instruction, Nfa};
use crate::{compiles_to, finished, StateMachine};

verus! {

impl Nfa {
    /// Copies the instructions of a program of the regex crate. The first
    /// of them that points outside the program is an error.
    pub fn from_regex(program: &regex::internal::Program) -> (r: Result<Nfa, CompileError>)
        ensures
            match r {
                Ok(copy) => first_stray(program_insts(*program)) is None && copy@ == program_insts(
                    *program,
                ),
                Err(e) => {
                    &&& first_stray(program_insts(*program)) is Some
                    &&& e == CompileError::UnsupportedConstruct {
                        construct: Construct::Goto,
                        position: first_stray(program_insts(*program))->Some_0,
                    }
                },
            },
            r is Ok <==> valid_program(program_insts(*program)),
    {
        let n = inst_count(program);
        let mut insts: Vec<Instruction> = Vec::new();
        let mut pc: usize = 0;
        while pc < n
            invariant
                pc <= n,
                n == program_insts(*program).len(),
                insts.len() == pc,
                forall|k: int| 0 <= k < pc ==> insts@[k] == program_insts(*program)[k],
            decreases n - pc,
        {
            insts.push(inst_at(program, pc));
            pc += 1;
        }
        assert(insts@ =~= program_insts(*program));
        Nfa::new(insts)
    }
}

/// Whether `result` is what compiling the instructions of a program of the
/// regex crate gives: the first instruction that points outside the program
/// as an error, else what compiling the instructions gives.
pub open spec fn compiles_program(
    insts: Seq<Instruction>,
    result: Result<StateMachine, CompileError>,
) -> bool {
    match first_stray(insts) {
        Some(position) => result == Err::<StateMachine, CompileError>(
            CompileError::UnsupportedConstruct { construct: Construct::Goto, position },
        ),
        None => valid_program(insts) && compiles_to(insts, result),
    }
}

/// Whether the parser takes each of the first `n` patterns.
pub open spec fn all_parse(patterns: Seq<String>, n: int) -> bool {
    forall|k: int| 0 <= k < n ==> (#[trigger] parse_of(patterns[k]@)) is Ok
}

/// Has the parser read every pattern, in order, up to the first that it
/// refuses. That one is an error, which names the pattern by its index and
/// holds what the parser said; without one the expressions come back, one
/// for each pattern.
pub fn parse_patterns(patterns: &Vec<String>) -> (r: Result<
    Vec<regex_syntax::hir::Hir>,
    CompileError,
>)
    ensures
        match r {
            Ok(exprs) => {
                &&& exprs.len() == patterns.len()
                &&& forall|k: int|
                    0 <= k < patterns.len() ==> #[trigger] parse_of(patterns[k]@) == Ok::<
                        regex_syntax::hir::Hir,
                        regex_syntax::Error,
                    >(exprs@[k])
            },
            Err(CompileError::SyntaxError { literal, error }) => {
                &&& literal < patterns.len()
                &&& parse_of(patterns[literal as int]@) == Err::<
                    regex_syntax::hir::Hir,
                    regex_syntax::Error,
                >(error)
                &&& all_parse(patterns@, literal as int)
            },
            Err(_) => false,
        },
{
    let mut exprs: Vec<regex_syntax::hir::Hir> = Vec::new();
    let mut literal: usize = 0;
    while literal < patterns.len()
        invariant
            literal <= patterns.len(),
            exprs.len() == literal,
            forall|k: int|
                0 <= k < literal ==> #[trigger] parse_of(patterns[k]@) == Ok::<
                    regex_syntax::hir::Hir,
                    regex_syntax::Error,
                >(exprs@[k]),
        decreases patterns.len() - literal,
    {
        match parse_pattern(patterns[literal].as_str()) {
            Ok(expr) => exprs.push(expr),
            Err(error) => {
                return Err(CompileError::SyntaxError { literal, error });
            },
        }
        literal += 1;
    }
    Ok(exprs)
}

impl StateMachine {
    /// Compiles a program of the regex crate: copies its instructions and
    /// compiles the copy.
    pub fn from_regex(program: &regex::internal::Program) -> (r: Result<StateMachine, CompileError>)
        ensures
            compiles_program(program_insts(*program), r),
            r matches Ok(machine) ==> finished(machine@),
            r matches Err(e) ==> e is UnsupportedConstruct || e is EmptyAutomaton
                || e is UnresolvedAmbiguity,
    {
        let copy = match Nfa::from_regex(program) {
            Ok(copy) => copy,
            Err(e) => {
                return Err(e);
            },
        };
        StateMachine::new(&copy)
    }

    /// Compiles patterns, each in the syntax of the regex crate, into one
    /// machine; a match names its pattern by its index in `patterns`.
    ///
    /// Without patterns there is no automaton. Else the first pattern that
    /// the parser refuses is an error that names it and holds what the
    /// parser said. Where the parser takes them all, the compiler of the
    /// regex crate is handed the expressions; whether it makes a program of
    /// them depends on the machine as well, and its refusal is an error.
    /// Of the program that it makes the result is the compilation.
    pub fn compile(patterns: &Vec<String>) -> (r: Result<StateMachine, CompileError>)
        ensures
            patterns.len() == 0 ==> r == Err::<StateMachine, CompileError>(CompileError::EmptyAutomaton),
            r matches Err(CompileError::SyntaxError { literal, error }) ==> {
                &&& literal < patterns.len()
                &&& parse_of(patterns[literal as int]@) == Err::<
                    regex_syntax::hir::Hir,
                    regex_syntax::Error,
                >(error)
                &&& all_parse(patterns@, literal as int)
            },
            !all_parse(patterns@, patterns.len() as int) ==> r is Err && r->Err_0 is SyntaxError,
            r matches Err(CompileError::Compiler(_)) ==> patterns.len() > 0 && all_parse(
                patterns@,
                patterns.len() as int,
            ),
            patterns.len() > 0 && all_parse(patterns@, patterns.len() as int) && !(r is Err
                && r->Err_0 is Compiler) ==> exists|insts: Seq<Instruction>| #[trigger]
                compiles_program(insts, r),
            r matches Ok(machine) ==> finished(machine@),
    {
        if patterns.len() == 0 {
            assert(all_parse(patterns@, 0));
            return Err(CompileError::EmptyAutomaton);
        }
        let exprs = match parse_patterns(patterns) {
            Ok(exprs) => exprs,
            Err(e) => {
                return Err(e);
            },
        };
        proof {
            assert forall|k: int| 0 <= k < exprs.len() implies exists|pattern: Seq<char>|
                parse_of(pattern) == Ok::<regex_syntax::hir::Hir, regex_syntax::Error>(
                    #[trigger] exprs@[k],
                ) by {
                assert(parse_of(patterns[k]@) == Ok::<
                    regex_syntax::hir::Hir,
                    regex_syntax::Error,
                >(exprs@[k]));
            }
        }
        let program = match compile_program(&exprs) {
            Ok(program) => program,
            Err(error) => {
                return Err(CompileError::Compiler(error));
            },
        };
        let r = StateMachine::from_regex(&program);
        assert(compiles_program(program_insts(program), r));
        r
    }
}

} // verus!

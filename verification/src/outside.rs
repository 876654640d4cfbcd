//! What this library takes on trust from the regex crates: the types that
//! pass through it unread, and the calls that it makes into them. Nothing
//! here is proved; each contract says what is assumed of the call.

use vstd::prelude::*;
use crate::program::Instruction;

verus! {

/// `regex::internal::Program`: a compiled program. It is read through
/// its length and its instructions only.
#[verifier::external_type_specification]
#[verifier::external_body]
pub struct ExOutsideNfa(regex::internal::Program);

/// `regex::internal::Inst`: one instruction of such a program, the item
/// type of the slice that the program dereferences to.
#[verifier::external_type_specification]
#[verifier::external_body]
pub struct ExOutsideInst(regex::internal::Inst);

/// `regex_syntax::hir::Hir`: a parsed pattern, handed from the parser to
/// the compiler.
#[verifier::external_type_specification]
#[verifier::external_body]
pub struct ExHir(regex_syntax::hir::Hir);

/// `regex_syntax::Error`: why the parser refused a pattern.
#[verifier::external_type_specification]
#[verifier::external_body]
pub struct ExSyntaxRefusal(regex_syntax::Error);

/// `regex::Error`: why the compiler made no program.
#[verifier::external_type_specification]
#[verifier::external_body]
pub struct ExCompilerRefusal(regex::Error);

/// The instructions that a program of the regex crate holds, in order, each
/// as `inst_at` copies it.
pub uninterp spec fn program_insts(program: regex::internal::Program) -> Seq<Instruction>;

/// What the parser of the regex crates, with the settings that it starts
/// with, makes of a pattern: an expression, or its refusal.
pub uninterp spec fn parse_of(pattern: Seq<char>) -> Result<
    regex_syntax::hir::Hir,
    regex_syntax::Error,
>;

/// Calls `regex_syntax::Parser::parse` on a parser that `Parser::new` has
/// made. What comes back is taken to depend on the pattern alone, and is
/// what `parse_of` names.
#[verifier::external_body]
pub(crate) fn parse_pattern(pattern: &str) -> (r: Result<regex_syntax::hir::Hir, regex_syntax::Error>)
    ensures
        r == parse_of(pattern@),
{
    regex_syntax::Parser::new().parse(pattern)
}

/// Calls `regex::internal::Compiler::compile` on a compiler that
/// `Compiler::new` has made and `bytes(true)` has set to byte instructions.
/// The compiler reads its first expression without asking whether there is
/// one, so there has to be one. It also takes for granted that no class of
/// an expression is empty, which holds of what the parser hands out and not
/// of every expression that can be built, so each expression has to be one
/// that the parser made of some pattern. Nothing is claimed of what comes
/// back: whether a program is too big depends on the machine.
#[verifier::external_body]
pub(crate) fn compile_program(exprs: &Vec<regex_syntax::hir::Hir>) -> (r: Result<
    regex::internal::Program,
    regex::Error,
>)
    requires
        exprs.len() > 0,
        forall|k: int|
            0 <= k < exprs.len() ==> exists|pattern: Seq<char>|
                parse_of(pattern) == Ok::<regex_syntax::hir::Hir, regex_syntax::Error>(
                    #[trigger] exprs@[k],
                ),
{
    regex::internal::Compiler::new().bytes(true).compile(exprs)
}

/// Calls `len` on the slice of instructions that a program of the regex
/// crate dereferences to. What comes back is taken as the length of
/// `program_insts`.
#[verifier::external_body]
pub(crate) fn inst_count(program: &regex::internal::Program) -> (n: usize)
    ensures
        n == program_insts(*program).len(),
{
    program.len()
}

/// Indexes the slice of instructions that a program of the regex crate
/// dereferences to, which needs `pc` to be below its length, and copies the
/// instruction: its kind and, of its fields, the positions that it points
/// to and what it consumes. What comes back is taken as the entry of
/// `program_insts` at `pc`.
#[verifier::external_body]
pub(crate) fn inst_at(program: &regex::internal::Program, pc: usize) -> (inst: Instruction)
    requires
        pc < program_insts(*program).len(),
    ensures
        inst == program_insts(*program)[pc as int],
{
    match &program[pc] {
        regex::internal::Inst::Match(slot) => Instruction::Match(*slot),
        regex::internal::Inst::Save(i) => Instruction::Save { goto: i.goto },
        regex::internal::Inst::Split(i) => Instruction::Split { goto1: i.goto1, goto2: i.goto2 },
        regex::internal::Inst::EmptyLook(i) => Instruction::EmptyLook { goto: i.goto },
        regex::internal::Inst::Char(i) => Instruction::Char { c: i.c, goto: i.goto },
        regex::internal::Inst::Ranges(i) => Instruction::Ranges { ranges: i.ranges.to_vec(), goto: i.goto },
        regex::internal::Inst::Bytes(i) => Instruction::Bytes { start: i.start, end: i.end, goto: i.goto },
    }
}

} // verus!

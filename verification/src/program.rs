//! The instruction program that an automaton is built from.

use vstd::prelude::*;
use crate::error::{Construct, CompileError};

verus! {

/// One instruction of a nondeterministic program. Every `goto` is the
/// position of the instruction that follows.
#[derive(Debug, PartialEq, Eq)]
pub enum Instruction {
    /// The pattern with this index has matched.
    Match(usize),
    /// Records a capture position; consumes nothing and decides nothing.
    Save { goto: usize },
    /// Tries `goto1` and `goto2`, in that order of preference.
    Split { goto1: usize, goto2: usize },
    /// A zero-width assertion.
    EmptyLook { goto: usize },
    /// Consumes this one character.
    Char { c: char, goto: usize },
    /// Consumes a character of one of these inclusive ranges.
    Ranges { ranges: Vec<(char, char)>, goto: usize },
    /// Consumes a byte of the inclusive range `start..=end`.
    Bytes { start: u8, end: u8, goto: usize },
}

/// Whether every position that `inst` names lies below `n`.
pub open spec fn gotos_below(inst: Instruction, n: int) -> bool {
    match inst {
        Instruction::Match(_) => true,
        Instruction::Save { goto } => goto < n,
        Instruction::Split { goto1, goto2 } => goto1 < n && goto2 < n,
        Instruction::EmptyLook { goto } => goto < n,
        Instruction::Char { c, goto } => goto < n,
        Instruction::Ranges { ranges, goto } => goto < n,
        Instruction::Bytes { start, end, goto } => goto < n,
    }
}

/// A program is valid when no instruction points outside of it.
pub open spec fn valid_program(insts: Seq<Instruction>) -> bool {
    forall|i: int| 0 <= i < insts.len() ==> gotos_below(#[trigger] insts[i], insts.len() as int)
}

/// The first position at or after `from` to hold an instruction that points
/// outside the program.
pub open spec fn stray_from(insts: Seq<Instruction>, from: int) -> Option<usize>
    decreases insts.len() - from,
{
    if from < 0 || from >= insts.len() {
        None
    } else if !gotos_below(insts[from], insts.len() as int) {
        Some(from as usize)
    } else {
        stray_from(insts, from + 1)
    }
}

/// The first instruction that points outside the program.
pub open spec fn first_stray(insts: Seq<Instruction>) -> Option<usize> {
    stray_from(insts, 0)
}

/// Where no instruction from `from` on strays, all of them point inside.
pub proof fn lemma_no_stray(insts: Seq<Instruction>, from: int, at: int)
    requires
        0 <= from <= at < insts.len(),
        stray_from(insts, from) is None,
    ensures
        gotos_below(insts[at], insts.len() as int),
    decreases insts.len() - from,
{
    if from < at {
        lemma_no_stray(insts, from + 1, at);
    }
}

/// The position reached from `pc` by following at most `fuel` `Save`
/// instructions.
pub open spec fn skip_within(insts: Seq<Instruction>, pc: int, fuel: nat) -> int
    decreases fuel,
{
    if fuel > 0 && 0 <= pc < insts.len() {
        match insts[pc] {
            Instruction::Save { goto } => skip_within(insts, goto as int, (fuel - 1) as nat),
            _ => pc,
        }
    } else {
        pc
    }
}

/// The next position at or after `pc` to hold an instruction other than
/// `Save`. A chain of `Save`s longer than the program runs in a circle; the
/// walk then stops on one of them.
pub open spec fn skip(insts: Seq<Instruction>, pc: int) -> int {
    skip_within(insts, pc, insts.len())
}

/// Following `Save`s from a position of a valid program stays inside it.
pub proof fn lemma_skip_within_in_range(insts: Seq<Instruction>, pc: int, fuel: nat)
    requires
        valid_program(insts),
        0 <= pc < insts.len(),
    ensures
        0 <= skip_within(insts, pc, fuel) < insts.len(),
    decreases fuel,
{
    if fuel > 0 {
        match insts[pc] {
            Instruction::Save { goto } => {
                lemma_skip_within_in_range(insts, goto as int, (fuel - 1) as nat);
            },
            _ => {},
        }
    }
}

/// A sequence of instructions none of which points outside the sequence.
#[derive(Debug)]
pub struct Nfa {
    insts: Vec<Instruction>,
}

impl View for Nfa {
    type V = Seq<Instruction>;

    closed spec fn view(&self) -> Seq<Instruction> {
        self.insts@
    }
}

impl Nfa {
    #[verifier::type_invariant]
    spec fn well_formed(self) -> bool {
        valid_program(self.insts@)
    }

    /// Makes a program of `insts`. The first instruction that points outside
    /// of them is an error.
    pub fn new(insts: Vec<Instruction>) -> (r: Result<Nfa, CompileError>)
        ensures
            match r {
                Ok(program) => first_stray(insts@) is None && program@ == insts@,
                Err(e) => {
                    &&& first_stray(insts@) is Some
                    &&& e == CompileError::UnsupportedConstruct {
                        construct: Construct::Goto,
                        position: first_stray(insts@)->Some_0,
                    }
                },
            },
            r is Ok <==> valid_program(insts@),
    {
        let n = insts.len();
        let mut i: usize = 0;
        while i < n
            invariant
                n == insts.len(),
                i <= n,
                first_stray(insts@) == stray_from(insts@, i as int),
            decreases n - i,
        {
            let ok = match &insts[i] {
                Instruction::Match(_) => true,
                Instruction::Save { goto } => *goto < n,
                Instruction::Split { goto1, goto2 } => *goto1 < n && *goto2 < n,
                Instruction::EmptyLook { goto } => *goto < n,
                Instruction::Char { c: _, goto } => *goto < n,
                Instruction::Ranges { ranges: _, goto } => *goto < n,
                Instruction::Bytes { start: _, end: _, goto } => *goto < n,
            };
            if !ok {
                assert(!gotos_below(insts@[i as int], n as int));
                return Err(
                    CompileError::UnsupportedConstruct { construct: Construct::Goto, position: i },
                );
            }
            i += 1;
        }
        proof {
            assert forall|k: int| 0 <= k < insts@.len() implies gotos_below(
                #[trigger] insts@[k],
                insts@.len() as int,
            ) by {
                lemma_no_stray(insts@, 0, k);
            }
        }
        Ok(Nfa { insts })
    }

    /// The number of instructions.
    pub fn len(&self) -> (n: usize)
        ensures
            n == self@.len(),
            valid_program(self@),
    {
        proof {
            use_type_invariant(self);
        }
        self.insts.len()
    }

    /// The instruction at `pc`.
    pub fn inst(&self, pc: usize) -> (inst: &Instruction)
        requires
            pc < self@.len(),
        ensures
            *inst == self@[pc as int],
    {
        &self.insts[pc]
    }

    /// Follows `Save` instructions from `pc` to the next instruction of
    /// another kind.
    pub fn skip(&self, pc: usize) -> (r: usize)
        ensures
            r == skip(self@, pc as int),
            pc < self@.len() ==> r < self@.len(),
    {
        proof {
            use_type_invariant(self);
        }
        let n = self.insts.len();
        let mut at: usize = pc;
        let mut left: usize = n;
        while left > 0 && at < n
            invariant
                n == self.insts@.len(),
                valid_program(self.insts@),
                left <= n,
                pc < n ==> at < n,
                skip(self.insts@, pc as int) == skip_within(self.insts@, at as int, left as nat),
            decreases left,
        {
            match &self.insts[at] {
                Instruction::Save { goto } => {
                    at = *goto;
                    left -= 1;
                },
                _ => {
                    return at;
                },
            }
        }
        at
    }
}

} // verus!

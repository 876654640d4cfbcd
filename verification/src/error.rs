//! The ways in which building or querying an automaton fails.

use vstd::prelude::*;

verus! {

/// An instruction kind that the automaton has no transition for.
#[derive(Clone, Copy, Debug, PartialEq, Eq, Structural)]
pub enum Construct {
    /// A capture slot that was not skipped over.
    Save,
    /// A zero-width assertion.
    EmptyLook,
    /// An instruction that points outside the program.
    Goto,
}

/// Why no automaton, or no answer about one, could be given.
#[derive(Debug, PartialEq)]
pub enum CompileError {
    /// The parser refused the pattern with index `literal`; `error` is what
    /// it said.
    SyntaxError { literal: usize, error: regex_syntax::Error },
    /// The compiler made no program of the patterns; this is what it said.
    Compiler(regex::Error),
    /// The instruction at `position` is of a kind that cannot be turned into
    /// transitions.
    UnsupportedConstruct { construct: Construct, position: usize },
    /// Two cases of `step` claim a common byte and no lookahead condition
    /// tells them apart.
    UnresolvedAmbiguity { step: usize },
    /// The table holds no step.
    EmptyAutomaton,
}

} // verus!

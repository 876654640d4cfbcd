//! Compiles a set of regular expressions into a table of steps with
//! byte-range transitions, and runs such a table on input bytes.
//!
//! The way from patterns to a table:
//! - [`pattern`] has the regex crates parse and compile the patterns into
//!   an instruction program, and copies that into a [`program::Nfa`];
//! - [`parse`] builds the steps of a [`StateMachine`] from the program;
//! - [`extend`] resolves cases of a step that claim a common byte;
//! - [`compact`] renumbers the steps without gaps;
//! - [`check`] makes sure that what is left ambiguous is out of reach.
//!
//! [`run`] is the matching loop over a finished table, [`reference`] a
//! matcher that tries every way through a program, [`laws`] states what
//! holds of every compilation, and [`outside`] holds what is taken on trust
//! from the regex crates.

pub mod check;
pub mod compact;
pub mod error;
pub mod extend;
pub mod laws;
pub mod outside;
pub mod parse;
pub mod pattern;
pub mod program;
pub mod reference;
pub mod run;

use vstd::prelude::*;
use crate::compact::dense;
use crate::error::CompileError;
use crate::parse::{grounded, parsed, view_cases, Case, StepCase};
use crate::program::{Instruction, Nfa};

verus! {

/// A state machine as a mathematical value: for each step identifier the
/// cases of the step, if there is such a step, and the pattern that has
/// matched when the input ends there, if there is one.
pub struct Table {
    pub steps: Seq<Option<Seq<Case>>>,
    pub ends: Seq<Option<usize>>,
}

/// `entries`, lengthened with `None` until it holds at least `n` entries.
pub open spec fn pad<T>(entries: Seq<Option<T>>, n: int) -> Seq<Option<T>> {
    if entries.len() >= n {
        entries
    } else {
        entries + Seq::new((n - entries.len()) as nat, |i: int| None)
    }
}

impl Table {
    /// The table without steps.
    pub open spec fn empty() -> Table {
        Table { steps: Seq::empty(), ends: Seq::empty() }
    }

    /// Whether `step` identifies a step.
    pub open spec fn has_step(self, step: int) -> bool {
        0 <= step < self.steps.len() && self.steps[step] is Some
    }

    /// The cases of `step`; none if there is no such step.
    pub open spec fn cases(self, step: int) -> Seq<Case> {
        if self.has_step(step) {
            self.steps[step]->Some_0
        } else {
            Seq::empty()
        }
    }

    /// The pattern that has matched when the input ends at `step`.
    pub open spec fn end(self, step: int) -> Option<usize> {
        if 0 <= step < self.ends.len() {
            self.ends[step]
        } else {
            None
        }
    }

    /// The table with `cases` as the cases of `step` and, when `end` names a
    /// pattern, with that pattern as the one that ends there.
    pub open spec fn install(self, step: int, cases: Seq<Case>, end: Option<usize>) -> Table {
        Table {
            steps: pad(self.steps, step + 1).update(step, Some(cases)),
            ends: if end is Some {
                pad(self.ends, step + 1).update(step, end)
            } else {
                self.ends
            },
        }
    }
}

/// One entry of a table as a mathematical value.
pub open spec fn view_entry(entry: Option<Vec<StepCase>>) -> Option<Seq<Case>> {
    match entry {
        Some(cases) => Some(view_cases(cases@)),
        None => None,
    }
}

/// The steps of a table as mathematical values.
pub open spec fn view_steps(steps: Seq<Option<Vec<StepCase>>>) -> Seq<Option<Seq<Case>>> {
    steps.map_values(|entry: Option<Vec<StepCase>>| view_entry(entry))
}

/// A state machine that matches the patterns of a program against the start
/// of an input.
///
/// Both vectors are indexed by step identifier: `steps` holds the cases of
/// each step, `ends` the index of the pattern that has matched when the
/// input ends at a step.
#[derive(Debug, PartialEq, Eq)]
pub struct StateMachine {
    pub steps: Vec<Option<Vec<StepCase>>>,
    pub ends: Vec<Option<usize>>,
}

impl View for StateMachine {
    type V = Table;

    open spec fn view(&self) -> Table {
        Table { steps: view_steps(self.steps@), ends: self.ends@ }
    }
}

impl Default for StateMachine {
    fn default() -> (r: Self)
        ensures
            r@ == Table::empty(),
    {
        let r = StateMachine { steps: Vec::new(), ends: Vec::new() };
        assert(r@.steps =~= Seq::empty());
        r
    }
}

impl Clone for StateMachine {
    fn clone(&self) -> (r: Self)
        ensures
            r@ == self@,
            r.steps.len() == self.steps.len(),
            r.ends.len() == self.ends.len(),
    {
        let mut steps: Vec<Option<Vec<StepCase>>> = Vec::new();
        let mut i: usize = 0;
        while i < self.steps.len()
            invariant
                i <= self.steps.len(),
                steps.len() == i,
                forall|k: int| 0 <= k < i ==> view_entry(#[trigger] steps@[k]) == view_entry(self.steps@[k]),
            decreases self.steps.len() - i,
        {
            let entry = match &self.steps[i] {
                Some(cases) => Some(crate::parse::clone_cases(cases)),
                None => None,
            };
            steps.push(entry);
            i += 1;
        }
        let mut ends: Vec<Option<usize>> = Vec::new();
        let mut j: usize = 0;
        while j < self.ends.len()
            invariant
                j <= self.ends.len(),
                ends.len() == j,
                forall|k: int| 0 <= k < j ==> ends@[k] == self.ends@[k],
            decreases self.ends.len() - j,
        {
            ends.push(self.ends[j]);
            j += 1;
        }
        assert(view_steps(steps@) =~= view_steps(self.steps@));
        assert(ends@ =~= self.ends@);
        StateMachine { steps, ends }
    }
}

/// What compiling a program comes to: the table that the builder and the
/// resolver make of an empty one, compacted, if no step that its first step
/// reaches is left with unresolved cases.
pub open spec fn compiled(insts: Seq<Instruction>) -> Result<Table, CompileError> {
    match parsed(Table::empty(), insts) {
        Err(e) => Err(e),
        Ok(resolved) => match resolved.compacted() {
            Err(e) => Err(e),
            Ok(compact) => match compact.unresolved() {
                Some(step) => Err(CompileError::UnresolvedAmbiguity { step }),
                None => Ok(compact),
            },
        },
    }
}

/// What holds of every table that a compilation hands out: it names no
/// step that it lacks, its identifiers have no gaps, it has a first step,
/// and no step that the first step reaches has unresolved cases.
pub open spec fn finished(table: Table) -> bool {
    &&& table.closed()
    &&& dense(table)
    &&& table.first_step() is Some
    &&& table.unresolved() is None
}

/// Whether `result` is what compiling `insts` gives.
pub open spec fn compiles_to(insts: Seq<Instruction>, result: Result<StateMachine, CompileError>) -> bool {
    match result {
        Ok(machine) => compiled(insts) == Ok::<Table, CompileError>(machine@),
        Err(e) => compiled(insts) == Err::<Table, CompileError>(e),
    }
}

impl StateMachine {
    /// Compiles `program` into a state machine: builds the steps, resolves
    /// them, renumbers them without gaps, and makes sure that no step within
    /// reach of the first is left ambiguous.
    pub fn new(program: &Nfa) -> (r: Result<StateMachine, CompileError>)
        ensures
            compiles_to(program@, r),
            r matches Ok(machine) ==> finished(machine@),
            r matches Err(e) ==> e is UnsupportedConstruct || e is EmptyAutomaton
                || e is UnresolvedAmbiguity,
    {
        let mut machine = StateMachine::default();
        assert(grounded(machine@, program@));
        if let Err(e) = machine.parse(program) {
            return Err(e);
        }
        let compact = match machine.compact() {
            Ok(compact) => compact,
            Err(e) => {
                return Err(e);
            },
        };
        proof {
            let n = machine.steps.len();
            assert(machine@.steps.len() == n);
            crate::check::lemma_first_step_is_step(machine@.steps, 0);
            let first = machine@.first_step()->Some_0 as int;
            crate::compact::lemma_compact_at(machine@, machine@.bound(), first);
            crate::check::lemma_step_has_first(compact@.steps, 0, machine@.rank(first) as int);
        }
        match compact.check_resolved() {
            Ok(_) => Ok(compact),
            Err(e) => Err(e),
        }
    }

    /// The cases of `step`, copied; `None` if there is no such step.
    pub fn cases_of(&self, step: usize) -> (r: Option<Vec<StepCase>>)
        ensures
            r is Some <==> self@.has_step(step as int),
            r matches Some(cases) ==> view_cases(cases@) == self@.cases(step as int),
    {
        if step < self.steps.len() {
            match &self.steps[step] {
                Some(cases) => Some(crate::parse::clone_cases(cases)),
                None => None,
            }
        } else {
            None
        }
    }

    /// The pattern that has matched when the input ends at `step`.
    pub fn end_of(&self, step: usize) -> (r: Option<usize>)
        ensures
            r == self@.end(step as int),
    {
        if step < self.ends.len() {
            self.ends[step]
        } else {
            None
        }
    }

    /// Makes `cases` the cases of `step` and, when `end` names a pattern,
    /// records that it ends there.
    pub fn set_step(&mut self, step: usize, cases: Vec<StepCase>, end: Option<usize>)
        requires
            step < usize::MAX,
        ensures
            final(self)@ == old(self)@.install(step as int, view_cases(cases@), end),
    {
        let ghost before = *self;
        while self.steps.len() <= step
            invariant
                self.steps.len() >= before.steps.len(),
                self.steps.len() == before.steps.len() || self.steps.len() <= step + 1,
                forall|i: int| 0 <= i < before.steps.len() ==> self.steps@[i] == before.steps@[i],
                forall|i: int| before.steps.len() <= i < self.steps.len() ==> self.steps@[i] is None,
                self.ends == before.ends,
            decreases step + 1 - self.steps.len(),
        {
            self.steps.push(None);
        }
        self.steps.set(step, Some(cases));
        assert(view_steps(self.steps@) =~= pad(before@.steps, step as int + 1).update(
            step as int,
            Some(view_cases(cases@)),
        ));
        if end.is_some() {
            let ghost steps = self.steps;
            while self.ends.len() <= step
                invariant
                    self.ends.len() >= before.ends.len(),
                    self.ends.len() == before.ends.len() || self.ends.len() <= step + 1,
                    forall|i: int| 0 <= i < before.ends.len() ==> self.ends@[i] == before.ends@[i],
                    forall|i: int| before.ends.len() <= i < self.ends.len() ==> self.ends@[i] is None,
                    self.steps == steps,
                decreases step + 1 - self.ends.len(),
            {
                self.ends.push(None);
            }
            self.ends.set(step, end);
            assert(self.ends@ =~= pad(before@.ends, step as int + 1).update(step as int, end));
        }
    }
}

} // verus!

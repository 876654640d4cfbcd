//! The compactor: it renumbers the steps of a table without gaps.

use vstd::prelude::*;
use crate::error::CompileError;
use crate::parse::{view_cases, Case, CasePattern, StepCase, Transition};
use crate::{view_entry, view_steps, StateMachine, Table};

verus! {

impl Table {
    /// Whether `s` identifies a step or is recorded as the end of a pattern.
    pub open spec fn is_id(self, s: int) -> bool {
        self.has_step(s) || self.end(s) is Some
    }

    /// A number that no identifier of the table reaches.
    pub open spec fn bound(self) -> int {
        if self.steps.len() >= self.ends.len() {
            self.steps.len() as int
        } else {
            self.ends.len() as int
        }
    }

    /// How many identifiers of the table are below `s`: the new identifier
    /// of `s`.
    pub open spec fn rank(self, s: int) -> nat
        decreases s,
    {
        if s <= 0 {
            0
        } else {
            self.rank(s - 1) + if self.is_id(s - 1) {
                1nat
            } else {
                0nat
            }
        }
    }

    /// `case` with every step that it names renumbered.
    pub open spec fn remap_case(self, case: Case) -> Case {
        Case {
            range: case.range,
            transition: match case.transition {
                Transition::Continue { target, conditions } => Transition::Continue {
                    target: self.rank(target as int) as usize,
                    conditions: conditions.map_values(
                        |c: (usize, (u8, u8))| (self.rank(c.0 as int) as usize, c.1),
                    ),
                },
                Transition::Accept { pattern } => Transition::Accept { pattern },
            },
        }
    }

    /// The cases of a step with every step that they name renumbered.
    pub open spec fn remap_cases(self, cases: Seq<Case>) -> Seq<Case> {
        cases.map_values(|case: Case| self.remap_case(case))
    }

    /// The renumbered entry of identifier `s`.
    pub open spec fn remap_entry(self, s: int) -> Option<Seq<Case>> {
        if self.has_step(s) {
            Some(self.remap_cases(self.cases(s)))
        } else {
            None
        }
    }

    /// The renumbered entries of the identifiers below `upto`, in order.
    pub open spec fn compact_steps(self, upto: int) -> Seq<Option<Seq<Case>>>
        decreases upto,
    {
        if upto <= 0 {
            Seq::empty()
        } else if self.is_id(upto - 1) {
            self.compact_steps(upto - 1).push(self.remap_entry(upto - 1))
        } else {
            self.compact_steps(upto - 1)
        }
    }

    /// The ends of the identifiers below `upto`, in order.
    pub open spec fn compact_ends(self, upto: int) -> Seq<Option<usize>>
        decreases upto,
    {
        if upto <= 0 {
            Seq::empty()
        } else if self.is_id(upto - 1) {
            self.compact_ends(upto - 1).push(self.end(upto - 1))
        } else {
            self.compact_ends(upto - 1)
        }
    }

    /// The table with its identifiers renumbered by rank. A table without
    /// steps has none.
    pub open spec fn compacted(self) -> Result<Table, CompileError> {
        if self.first_step() is None {
            Err(CompileError::EmptyAutomaton)
        } else {
            Ok(
                Table {
                    steps: self.compact_steps(self.bound()),
                    ends: self.compact_ends(self.bound()),
                },
            )
        }
    }

    /// The last step below `upto`.
    pub open spec fn last_step_below(self, upto: int) -> Option<usize>
        decreases upto,
    {
        if upto <= 0 {
            None
        } else if self.has_step(upto - 1) {
            Some((upto - 1) as usize)
        } else {
            self.last_step_below(upto - 1)
        }
    }

    /// The step with the largest identifier.
    pub open spec fn last_step(self) -> Option<usize> {
        self.last_step_below(self.steps.len() as int)
    }
}

/// The number of bits of the narrowest of the unsigned integer types of 8,
/// 16, 32 and 64 bits that holds `step`.
pub open spec fn width_of(step: usize) -> u8 {
    if step < 0x100 {
        8
    } else if step < 0x1_0000 {
        16
    } else if step < 0x1_0000_0000 {
        32
    } else {
        64
    }
}

/// There are no more identifiers below `s` than numbers.
pub proof fn lemma_rank_bound(table: Table, s: int)
    requires
        0 <= s,
    ensures
        table.rank(s) <= s,
    decreases s,
{
    if s > 0 {
        lemma_rank_bound(table, s - 1);
    }
}

/// From the bound of a table on the rank stays the same.
pub proof fn lemma_rank_above_bound(table: Table, s: int)
    requires
        table.bound() <= s,
    ensures
        table.rank(s) == table.rank(table.bound()),
    decreases s,
{
    if s > table.bound() {
        lemma_rank_above_bound(table, s - 1);
        assert(!table.is_id(s - 1));
    }
}

/// The compacted table has one entry for each identifier below `upto`.
pub proof fn lemma_compact_len(table: Table, upto: int)
    ensures
        table.compact_steps(upto).len() == table.rank(upto),
        table.compact_ends(upto).len() == table.rank(upto),
    decreases upto,
{
    if upto > 0 {
        lemma_compact_len(table, upto - 1);
    }
}

/// An identifier below `upto` has its renumbered entry and its end at its
/// rank.
pub proof fn lemma_compact_at(table: Table, upto: int, s: int)
    requires
        0 <= s < upto,
        table.is_id(s),
    ensures
        table.rank(s) < table.rank(upto),
        table.compact_steps(upto).len() == table.rank(upto),
        table.compact_ends(upto).len() == table.rank(upto),
        table.compact_steps(upto)[table.rank(s) as int] == table.remap_entry(s),
        table.compact_ends(upto)[table.rank(s) as int] == table.end(s),
    decreases upto,
{
    lemma_compact_len(table, upto);
    lemma_compact_len(table, upto - 1);
    if s < upto - 1 {
        lemma_compact_at(table, upto - 1, s);
    }
}

/// Every entry of the compacted table is that of an identifier.
pub proof fn lemma_compact_from(table: Table, upto: int, r: int) -> (s: int)
    requires
        0 <= r < table.rank(upto),
    ensures
        0 <= s < upto,
        table.is_id(s),
        table.rank(s) == r,
    decreases upto,
{
    if upto <= 0 {
        0
    } else if table.is_id(upto - 1) && table.rank(upto - 1) == r {
        upto - 1
    } else {
        lemma_compact_from(table, upto - 1, r)
    }
}

/// Whether the identifiers of a table are the numbers below their count,
/// and both of its sequences have that length.
pub open spec fn dense(table: Table) -> bool {
    &&& table.steps.len() == table.ends.len()
    &&& forall|s: int| 0 <= s < table.steps.len() ==> table.is_id(s)
}

/// Compaction leaves a dense table.
pub proof fn lemma_compacted_dense(table: Table)
    requires
        table.compacted() is Ok,
    ensures
        dense(table.compacted()->Ok_0),
{
    let out = table.compacted()->Ok_0;
    lemma_compact_len(table, table.bound());
    assert forall|r: int| 0 <= r < out.steps.len() implies out.is_id(r) by {
        let s = lemma_compact_from(table, table.bound(), r);
        lemma_compact_at(table, table.bound(), s);
    }
}

/// Compaction keeps a closed table closed.
pub proof fn lemma_compacted_closed(table: Table)
    requires
        table.closed(),
        table.bound() <= usize::MAX,
        table.compacted() is Ok,
    ensures
        table.compacted()->Ok_0.closed(),
{
    let out = table.compacted()->Ok_0;
    let bound = table.bound();
    lemma_compact_len(table, bound);
    lemma_rank_bound(table, bound);
    assert forall|t: int| table.has_step(t) implies out.has_step(table.rank(t) as usize as int) by {
        lemma_compact_at(table, bound, t);
    }
    assert forall|r: int, k: int| out.has_step(r) && 0 <= k < out.cases(r).len() implies out.links(
        #[trigger] out.cases(r)[k],
    ) by {
        let s = lemma_compact_from(table, bound, r);
        lemma_compact_at(table, bound, s);
        let case = table.cases(s)[k];
        assert(out.cases(r)[k] == table.remap_case(case));
        assert(table.links(case));
        match case.transition {
            Transition::Continue { target, conditions } => {
                let renumbered = out.cases(r)[k].transition->conditions;
                assert forall|c: int| 0 <= c < renumbered.len() implies out.has_step(
                    (#[trigger] renumbered[c]).0 as int,
                ) by {
                    assert(table.has_step(conditions[c].0 as int));
                }
            },
            Transition::Accept { pattern } => {},
        }
    }
    assert forall|r: int| (#[trigger] out.end(r)) is Some implies out.has_step(r) by {
        let s = lemma_compact_from(table, bound, r);
        lemma_compact_at(table, bound, s);
        assert(table.end(s) is Some);
    }
}

/// Compaction keeps a table plain: it changes no range and adds no
/// condition.
pub proof fn lemma_compacted_plain(table: Table)
    requires
        crate::run::plain(table),
        table.compacted() is Ok,
    ensures
        crate::run::plain(table.compacted()->Ok_0),
{
    let out = table.compacted()->Ok_0;
    let bound = table.bound();
    lemma_compact_len(table, bound);
    assert forall|r: int| crate::run::plain_cases(#[trigger] out.cases(r)) by {
        if out.has_step(r) {
            let s = lemma_compact_from(table, bound, r);
            lemma_compact_at(table, bound, s);
            let before = table.cases(s);
            let after = out.cases(r);
            assert(crate::run::plain_cases(before));
            assert(after == table.remap_cases(before));
            assert forall|a: int, b: int| 0 <= a < b < after.len() implies !crate::extend::overlaps(
                #[trigger] after[a].range,
                #[trigger] after[b].range,
            ) by {
                assert(after[a].range == before[a].range);
                assert(after[b].range == before[b].range);
            }
            assert forall|k: int|
                0 <= k < after.len() && (#[trigger] after[k]).transition is Continue implies after[k].transition->conditions.len()
                == 0 by {
                assert(after[k] == table.remap_case(before[k]));
                assert(before[k].transition is Continue);
            }
        }
    }
}

/// Following cases ends the same way in a closed table and in the
/// compacted one, from a step and from the step that it has become.
pub proof fn lemma_compacted_accepts(
    table: Table,
    input: Seq<u8>,
    s: int,
    i: int,
    n: int,
    pattern: usize,
)
    requires
        table.closed(),
        table.bound() <= usize::MAX,
        table.compacted() is Ok,
        table.has_step(s),
    ensures
        crate::run::accepts(table.compacted()->Ok_0, input, table.rank(s) as int, i, n, pattern)
            == crate::run::accepts(table, input, s, i, n, pattern),
    decreases n - i,
{
    let out = table.compacted()->Ok_0;
    let at = table.rank(s) as int;
    lemma_compact_at(table, table.bound(), s);
    assert(out.has_step(at));
    assert(out.cases(at) == table.remap_cases(table.cases(s)));
    assert(out.end(at) == table.end(s));
    if 0 <= i < n <= input.len() {
        let j = i + 1;
        if crate::run::accepts(out, input, at, i, n, pattern) {
            let k = crate::run::lemma_accepts_through(out, input, at, i, n, pattern);
            let before = table.cases(s)[k];
            assert(out.cases(at)[k] == table.remap_case(before));
            assert(table.links(before));
            match before.transition {
                Transition::Continue { target, conditions } => {
                    lemma_rank_bound(table, target as int);
                    lemma_compacted_accepts(table, input, target as int, j, n, pattern);
                },
                Transition::Accept { pattern: accepted } => {},
            }
            assert(crate::run::takes(table, input, before, i, n, pattern));
            crate::run::lemma_accepts_by(table, input, s, i, n, pattern, k);
        }
        if crate::run::accepts(table, input, s, i, n, pattern) {
            let k = crate::run::lemma_accepts_through(table, input, s, i, n, pattern);
            let before = table.cases(s)[k];
            assert(out.cases(at)[k] == table.remap_case(before));
            assert(table.links(before));
            match before.transition {
                Transition::Continue { target, conditions } => {
                    lemma_rank_bound(table, target as int);
                    lemma_compacted_accepts(table, input, target as int, j, n, pattern);
                },
                Transition::Accept { pattern: accepted } => {},
            }
            assert(crate::run::takes(out, input, out.cases(at)[k], i, n, pattern));
            crate::run::lemma_accepts_by(out, input, at, i, n, pattern, k);
        }
    }
}

/// Below the first step there is no step.
pub proof fn lemma_none_below_first(steps: Seq<Option<Seq<Case>>>, from: int, s: int)
    requires
        0 <= from <= s,
        steps.len() <= usize::MAX,
        crate::extend::first_step_from(steps, from) is Some,
        s < crate::extend::first_step_from(steps, from)->Some_0,
    ensures
        s < steps.len(),
        !(steps[s] is Some),
    decreases steps.len() - from,
{
    if from < s {
        lemma_none_below_first(steps, from + 1, s);
    }
}

/// The first step of a closed table becomes step 0.
pub proof fn lemma_first_step_rank(table: Table, s: int)
    requires
        table.closed(),
        table.steps.len() <= usize::MAX,
        table.first_step() is Some,
        0 <= s <= table.first_step()->Some_0,
    ensures
        table.rank(s) == 0,
    decreases s,
{
    if s > 0 {
        lemma_first_step_rank(table, s - 1);
        lemma_none_below_first(table.steps, 0, s - 1);
        assert(!table.has_step(s - 1));
        if table.end(s - 1) is Some {
            assert(table.has_step(s - 1));
        }
    }
}

/// In a dense table every identifier up to the length is its own rank.
pub proof fn lemma_dense_rank(table: Table, s: int)
    requires
        dense(table),
        0 <= s <= table.steps.len(),
    ensures
        table.rank(s) == s,
    decreases s,
{
    if s > 0 {
        lemma_dense_rank(table, s - 1);
    }
}

/// In a dense and closed table renumbering changes no case.
pub proof fn lemma_dense_remap(table: Table, case: Case)
    requires
        dense(table),
        table.steps.len() <= usize::MAX,
        table.links(case),
    ensures
        table.remap_case(case) == case,
{
    match case.transition {
        Transition::Continue { target, conditions } => {
            lemma_dense_rank(table, target as int);
            let renumbered = conditions.map_values(
                |c: (usize, (u8, u8))| (table.rank(c.0 as int) as usize, c.1),
            );
            assert forall|c: int| 0 <= c < conditions.len() implies renumbered[c] == conditions[c] by {
                assert(table.has_step(conditions[c].0 as int));
                lemma_dense_rank(table, conditions[c].0 as int);
            }
            assert(renumbered =~= conditions);
        },
        Transition::Accept { pattern } => {},
    }
}

/// In a dense and closed table the compacted entries are the entries.
pub proof fn lemma_dense_compact(table: Table, upto: int)
    requires
        dense(table),
        table.closed(),
        table.steps.len() <= usize::MAX,
        0 <= upto <= table.steps.len(),
    ensures
        table.compact_steps(upto) == table.steps.take(upto),
        table.compact_ends(upto) == table.ends.take(upto),
    decreases upto,
{
    if upto > 0 {
        lemma_dense_compact(table, upto - 1);
        let s = upto - 1;
        assert(table.is_id(s));
        if table.has_step(s) {
            let cases = table.cases(s);
            assert forall|k: int| 0 <= k < cases.len() implies table.remap_case(cases[k])
                == cases[k] by {
                assert(table.links(table.cases(s)[k]));
                lemma_dense_remap(table, cases[k]);
            }
            assert(table.remap_cases(cases) =~= cases);
        }
        assert(table.remap_entry(s) == table.steps[s]);
        assert(table.steps.take(upto) =~= table.steps.take(upto - 1).push(table.steps[s]));
        assert(table.ends.take(upto) =~= table.ends.take(upto - 1).push(table.ends[s]));
    } else {
        assert(table.steps.take(0) =~= Seq::empty());
        assert(table.ends.take(0) =~= Seq::empty());
    }
}

/// Looks up the new identifier of `s`. `ranks` holds the ranks up to the
/// bound of the table.
fn rank_of(ranks: &Vec<usize>, s: usize, Ghost(table): Ghost<Table>) -> (r: usize)
    requires
        ranks.len() == table.bound() + 1,
        forall|x: int| 0 <= x < ranks.len() ==> ranks[x] == table.rank(x),
    ensures
        r == table.rank(s as int),
{
    if s < ranks.len() {
        ranks[s]
    } else {
        proof {
            lemma_rank_above_bound(table, s as int);
        }
        ranks[ranks.len() - 1]
    }
}

/// Renumbers the steps that one case names.
fn remap_case(case: &StepCase, ranks: &Vec<usize>, Ghost(table): Ghost<Table>) -> (r: StepCase)
    requires
        ranks.len() == table.bound() + 1,
        forall|x: int| 0 <= x < ranks.len() ==> ranks[x] == table.rank(x),
    ensures
        r@ == table.remap_case(case@),
{
    match &case.next_case {
        CasePattern::Step(target, conditions) => {
            let mut renumbered: Vec<(usize, (u8, u8))> = Vec::new();
            let mut c: usize = 0;
            while c < conditions.len()
                invariant
                    c <= conditions.len(),
                    renumbered.len() == c,
                    ranks.len() == table.bound() + 1,
                    forall|x: int| 0 <= x < ranks.len() ==> ranks[x] == table.rank(x),
                    forall|m: int|
                        0 <= m < c ==> #[trigger] renumbered@[m] == (
                            table.rank(conditions@[m].0 as int) as usize,
                            conditions@[m].1,
                        ),
                decreases conditions.len() - c,
            {
                let (step, range) = conditions[c];
                renumbered.push((rank_of(ranks, step, Ghost(table)), range));
                c += 1;
            }
            assert(renumbered@ =~= conditions@.map_values(
                |c: (usize, (u8, u8))| (table.rank(c.0 as int) as usize, c.1),
            ));
            StepCase {
                byte_range: case.byte_range,
                next_case: CasePattern::Step(rank_of(ranks, *target, Ghost(table)), renumbered),
            }
        },
        CasePattern::Match(pattern) => StepCase {
            byte_range: case.byte_range,
            next_case: CasePattern::Match(*pattern),
        },
    }
}

/// Renumbers the steps that the cases of one step name.
fn remap_cases(cases: &Vec<StepCase>, ranks: &Vec<usize>, Ghost(table): Ghost<Table>) -> (r: Vec<
    StepCase,
>)
    requires
        ranks.len() == table.bound() + 1,
        forall|x: int| 0 <= x < ranks.len() ==> ranks[x] == table.rank(x),
    ensures
        view_cases(r@) == table.remap_cases(view_cases(cases@)),
{
    let mut renumbered: Vec<StepCase> = Vec::new();
    let mut k: usize = 0;
    while k < cases.len()
        invariant
            k <= cases.len(),
            renumbered.len() == k,
            ranks.len() == table.bound() + 1,
            forall|x: int| 0 <= x < ranks.len() ==> ranks[x] == table.rank(x),
            forall|m: int| 0 <= m < k ==> (#[trigger] renumbered@[m])@ == table.remap_case(cases@[m]@),
        decreases cases.len() - k,
    {
        renumbered.push(remap_case(&cases[k], ranks, Ghost(table)));
        k += 1;
    }
    assert(view_cases(renumbered@) =~= table.remap_cases(view_cases(cases@)));
    renumbered
}

impl StateMachine {
    /// Tells whether `s` identifies a step or is recorded as the end of a
    /// pattern.
    pub fn is_id(&self, s: usize) -> (r: bool)
        ensures
            r == self@.is_id(s as int),
    {
        self.has_step(s) || self.end_of(s).is_some()
    }

    /// Renumbers the steps without gaps, in the order of their identifiers,
    /// in every place that names one.
    pub fn compact(&self) -> (r: Result<StateMachine, CompileError>)
        ensures
            match r {
                Ok(machine) => self@.compacted() == Ok::<Table, CompileError>(machine@),
                Err(e) => self@.compacted() == Err::<Table, CompileError>(e),
            },
            r matches Ok(machine) ==> dense(machine@),
            r matches Ok(machine) ==> (self@.closed() ==> machine@.closed()),
    {
        if let Err(e) = self.first_step() {
            return Err(e);
        }
        proof {
            lemma_compacted_dense(self@);
            if self@.closed() {
                assert(self@.bound() == self.steps.len() || self@.bound() == self.ends.len());
                lemma_compacted_closed(self@);
            }
        }
        let bound = if self.steps.len() >= self.ends.len() {
            self.steps.len()
        } else {
            self.ends.len()
        };
        assert(bound == self@.bound());
        let mut ranks: Vec<usize> = Vec::new();
        ranks.push(0);
        let mut s: usize = 0;
        while s < bound
            invariant
                s <= bound,
                ranks.len() == s + 1,
                forall|x: int| 0 <= x < ranks.len() ==> ranks[x] == self@.rank(x),
            decreases bound - s,
        {
            proof {
                lemma_rank_bound(self@, s as int);
            }
            let below = ranks[s];
            let next = if self.is_id(s) {
                below + 1
            } else {
                below
            };
            ranks.push(next);
            s += 1;
        }
        let mut steps: Vec<Option<Vec<StepCase>>> = Vec::new();
        let mut ends: Vec<Option<usize>> = Vec::new();
        let mut s: usize = 0;
        assert(view_steps(steps@) =~= self@.compact_steps(0));
        while s < bound
            invariant
                s <= bound,
                bound == self@.bound(),
                ranks.len() == bound + 1,
                forall|x: int| 0 <= x < ranks.len() ==> ranks[x] == self@.rank(x),
                view_steps(steps@) == self@.compact_steps(s as int),
                ends@ == self@.compact_ends(s as int),
            decreases bound - s,
        {
            if self.is_id(s) {
                let entry = if s < self.steps.len() {
                    match &self.steps[s] {
                        Some(cases) => {
                            assert(self@.cases(s as int) == view_cases(cases@));
                            Some(remap_cases(cases, &ranks, Ghost(self@)))
                        },
                        None => None,
                    }
                } else {
                    None
                };
                assert(view_entry(entry) == self@.remap_entry(s as int));
                let ghost before = steps@;
                steps.push(entry);
                assert(view_steps(steps@) =~= view_steps(before).push(view_entry(entry)));
                ends.push(self.end_of(s));
            }
            s += 1;
        }
        Ok(StateMachine { steps, ends })
    }

    /// The largest step identifier.
    pub fn last_step(&self) -> (r: Result<usize, CompileError>)
        ensures
            match r {
                Ok(step) => self@.last_step() == Some(step),
                Err(e) => e == CompileError::EmptyAutomaton && self@.last_step() is None,
            },
    {
        let mut upto: usize = self.steps.len();
        assert(self@.steps.len() == upto);
        while upto > 0
            invariant
                upto <= self.steps.len(),
                self@.last_step() == self@.last_step_below(upto as int),
            decreases upto,
        {
            if self.steps[upto - 1].is_some() {
                return Ok(upto - 1);
            }
            upto -= 1;
        }
        Err(CompileError::EmptyAutomaton)
    }

    /// The number of bits of the narrowest unsigned integer type that holds
    /// every step identifier: 8, 16, 32 or 64.
    pub fn step_size(&self) -> (r: Result<u8, CompileError>)
        ensures
            match r {
                Ok(bits) => self@.last_step() is Some && bits == width_of(
                    self@.last_step()->Some_0,
                ),
                Err(e) => e == CompileError::EmptyAutomaton && self@.last_step() is None,
            },
    {
        let last = match self.last_step() {
            Ok(step) => step,
            Err(e) => {
                return Err(e);
            },
        };
        if last < 0x100 {
            Ok(8)
        } else if last < 0x1_0000 {
            Ok(16)
        } else if (last as u64) < 0x1_0000_0000u64 {
            Ok(32)
        } else {
            Ok(64)
        }
    }

    /// Hands out the record of the patterns' ends.
    pub fn end_patterns(self) -> (r: Vec<Option<usize>>)
        ensures
            r@ == self@.ends,
    {
        self.ends
    }
}

} // verus!

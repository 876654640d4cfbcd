//! The resolver: it takes apart cases of one step that claim a common byte.

use vstd::prelude::*;
use vstd::arithmetic::div_mod::lemma_fundamental_div_mod_converse;
use vstd::set_lib::*;
use crate::error::CompileError;
use crate::parse::{view_cases, Case, CasePattern, StepCase, Transition};
use crate::{view_steps, StateMachine, Table};

verus! {

/// Whether two inclusive byte ranges share a byte.
pub open spec fn overlaps(a: (u8, u8), b: (u8, u8)) -> bool {
    a.0 <= b.1 && a.1 >= b.0
}

/// The first step at or after `from` at which `pattern` ends.
pub open spec fn first_end_from(ends: Seq<Option<usize>>, pattern: usize, from: int) -> Option<
    usize,
>
    decreases ends.len() - from,
{
    if from < 0 || from >= ends.len() {
        None
    } else if ends[from] == Some(pattern) {
        Some(from as usize)
    } else {
        first_end_from(ends, pattern, from + 1)
    }
}

/// The step with the smallest identifier at which `pattern` ends.
pub open spec fn first_end(ends: Seq<Option<usize>>, pattern: usize) -> Option<usize> {
    first_end_from(ends, pattern, 0)
}

/// The first step at or after `from`.
pub open spec fn first_step_from(steps: Seq<Option<Seq<Case>>>, from: int) -> Option<usize>
    decreases steps.len() - from,
{
    if from < 0 || from >= steps.len() {
        None
    } else if steps[from] is Some {
        Some(from as usize)
    } else {
        first_step_from(steps, from + 1)
    }
}

impl Table {
    /// The step with the smallest identifier.
    pub open spec fn first_step(self) -> Option<usize> {
        first_step_from(self.steps, 0)
    }

    /// The table with `cases` in place of the cases of `step`.
    pub open spec fn with_cases(self, step: int, cases: Seq<Case>) -> Table {
        if self.has_step(step) {
            Table { steps: self.steps.update(step, Some(cases)), ends: self.ends }
        } else {
            self
        }
    }

    /// The table in which case `index` of `step`, if it goes on to a step,
    /// has one more condition: the first step at which `pattern` ends, with
    /// `range`. Where `pattern` ends nowhere the table stays as it is.
    pub open spec fn with_condition(
        self,
        step: int,
        index: int,
        pattern: usize,
        range: (u8, u8),
    ) -> Table {
        if 0 <= index < self.cases(step).len() {
            let case = self.cases(step)[index];
            match (case.transition, first_end(self.ends, pattern)) {
                (Transition::Continue { target, conditions }, Some(at)) => self.with_cases(
                    step,
                    self.cases(step).update(
                        index,
                        Case {
                            range: case.range,
                            transition: Transition::Continue {
                                target,
                                conditions: conditions.push((at, range)),
                            },
                        },
                    ),
                ),
                _ => self,
            }
        } else {
            self
        }
    }

    /// The table in which the cases of `from` follow those of `into` at
    /// `into`.
    pub open spec fn merged(self, into: int, from: int) -> Table {
        self.with_cases(into, self.cases(into) + self.cases(from))
    }
}

/// The state of a resolution: the table so far, and the pairs of steps of
/// which the second has been merged into the first.
pub struct Resolution {
    pub table: Table,
    pub done: Set<(usize, usize)>,
}

/// How many pairs of step identifiers below `n` are not in `done`.
pub open spec fn pairs_left(n: nat, done: Set<(usize, usize)>) -> nat {
    Set::new(
        |code: int|
            0 <= code < n * n && !done.contains(((code / n as int) as usize, (code % n as int) as usize)),
    ).len()
}

/// A pair that is merged leaves fewer pairs, whatever else is merged with it.
pub proof fn lemma_pairs_left_shrinks(
    n: nat,
    done: Set<(usize, usize)>,
    more: Set<(usize, usize)>,
    a: usize,
    b: usize,
)
    requires
        a < n,
        b < n,
        !done.contains((a, b)),
        done.subset_of(more),
        more.contains((a, b)),
    ensures
        pairs_left(n, more) < pairs_left(n, done),
{
    let before = Set::new(
        |code: int|
            0 <= code < n * n && !done.contains(((code / n as int) as usize, (code % n as int) as usize)),
    );
    let after = Set::new(
        |code: int|
            0 <= code < n * n && !more.contains(((code / n as int) as usize, (code % n as int) as usize)),
    );
    let code = a as int * n as int + b as int;
    assert(n * n >= 0) by (nonlinear_arith);
    lemma_int_range(0, (n * n) as int);
    assert(before.subset_of(set_int_range(0, (n * n) as int)));
    lemma_len_subset(before, set_int_range(0, (n * n) as int));
    assert(0 <= code < n * n) by (nonlinear_arith)
        requires
            0 <= a < n,
            0 <= b < n,
            code == a as int * n as int + b as int,
    ;
    lemma_fundamental_div_mod_converse(code, n as int, a as int, b as int);
    assert(before.contains(code));
    assert(after.subset_of(before.remove(code)));
    lemma_len_subset(after, before.remove(code));
}

/// The resolution of the pairs of cases of step `s` from the pair
/// (`i`, `j`) on, in the order in which the second index runs through all
/// that follow the first. `snapshot` holds the cases of `s` as they were
/// when its resolution began; `n` bounds the step identifiers.
///
/// Two cases that share a byte are treated by what follows them:
/// - Both go on, to different steps, the first not to `s`, both steps are in
///   the table, and the pair of them has not been merged: if a pattern ends
///   at the second step, the first case gets a condition for it, with the
///   range of the second case; the cases of the second step are appended to
///   those of the first; the pair is recorded as merged; and the first step
///   is resolved in turn.
/// - One goes on and the other accepts a pattern: the one that goes on gets
///   a condition for the pattern, with the range of the other.
/// - Otherwise nothing is done.
pub open spec fn resolve_from(
    r: Resolution,
    n: nat,
    s: usize,
    snapshot: Seq<Case>,
    i: int,
    j: int,
) -> Resolution
    decreases pairs_left(n, r.done), snapshot.len() - i, snapshot.len() - j,
{
    if i < 0 || j < 0 || i >= snapshot.len() {
        r
    } else if j >= snapshot.len() {
        resolve_from(r, n, s, snapshot, i + 1, i + 2)
    } else if !overlaps(snapshot[i].range, snapshot[j].range) {
        resolve_from(r, n, s, snapshot, i, j + 1)
    } else {
        match (snapshot[i].transition, snapshot[j].transition) {
            (
                Transition::Continue { target: first, conditions: _ },
                Transition::Continue { target: second, conditions: _ },
            ) => {
                if first != second && first != s && first < n && second < n && r.table.has_step(
                    first as int,
                ) && r.table.has_step(second as int) && !r.done.contains((first, second)) {
                    let noted = match r.table.end(second as int) {
                        Some(pattern) => r.table.with_condition(
                            s as int,
                            i,
                            pattern,
                            snapshot[j].range,
                        ),
                        None => r.table,
                    };
                    let merged = noted.merged(first as int, second as int);
                    let begun = r.done.insert((first, second));
                    proof {
                        lemma_pairs_left_shrinks(n, r.done, begun, first, second);
                    }
                    let inner = resolve_from(
                        Resolution { table: merged, done: begun },
                        n,
                        first,
                        merged.cases(first as int),
                        0,
                        1,
                    );
                    proof {
                        lemma_pairs_left_shrinks(n, r.done, begun + inner.done, first, second);
                    }
                    resolve_from(
                        Resolution { table: inner.table, done: begun + inner.done },
                        n,
                        s,
                        snapshot,
                        i,
                        j + 1,
                    )
                } else {
                    resolve_from(r, n, s, snapshot, i, j + 1)
                }
            },
            (Transition::Continue { target: _, conditions: _ }, Transition::Accept { pattern }) => {
                resolve_from(
                    Resolution {
                        table: r.table.with_condition(s as int, i, pattern, snapshot[j].range),
                        done: r.done,
                    },
                    n,
                    s,
                    snapshot,
                    i,
                    j + 1,
                )
            },
            (Transition::Accept { pattern }, Transition::Continue { target: _, conditions: _ }) => {
                resolve_from(
                    Resolution {
                        table: r.table.with_condition(s as int, j, pattern, snapshot[i].range),
                        done: r.done,
                    },
                    n,
                    s,
                    snapshot,
                    i,
                    j + 1,
                )
            },
            _ => resolve_from(r, n, s, snapshot, i, j + 1),
        }
    }
}

/// The resolution of all pairs of cases of step `s`.
pub open spec fn resolve_step(r: Resolution, n: nat, s: usize) -> Resolution {
    resolve_from(r, n, s, r.table.cases(s as int), 0, 1)
}

/// The table after the resolver has run from its first step; a table
/// without steps stays as it is.
pub open spec fn resolved(table: Table) -> Table {
    match table.first_step() {
        Some(first) => resolve_step(
            Resolution { table, done: Set::empty() },
            table.steps.len(),
            first,
        ).table,
        None => table,
    }
}

/// Where no two cases of a step share a byte, resolving the step changes
/// nothing.
pub proof fn lemma_resolve_from_disjoint(
    r: Resolution,
    n: nat,
    s: usize,
    snapshot: Seq<Case>,
    i: int,
    j: int,
)
    requires
        crate::run::disjoint_cases(snapshot),
        0 <= i < j,
    ensures
        resolve_from(r, n, s, snapshot, i, j) == r,
    decreases pairs_left(n, r.done), snapshot.len() - i, snapshot.len() - j,
{
    if i >= snapshot.len() {
    } else if j >= snapshot.len() {
        lemma_resolve_from_disjoint(r, n, s, snapshot, i + 1, i + 2);
    } else {
        assert(!overlaps(snapshot[i].range, snapshot[j].range));
        lemma_resolve_from_disjoint(r, n, s, snapshot, i, j + 1);
    }
}

/// Resolving keeps a closed table closed, and records no end.
pub proof fn lemma_resolve_from_closed(
    r: Resolution,
    n: nat,
    s: usize,
    snapshot: Seq<Case>,
    i: int,
    j: int,
)
    requires
        r.table.closed(),
        r.table.ends.len() <= usize::MAX,
    ensures
        resolve_from(r, n, s, snapshot, i, j).table.closed(),
        resolve_from(r, n, s, snapshot, i, j).table.ends == r.table.ends,
        resolve_from(r, n, s, snapshot, i, j).table.steps.len() == r.table.steps.len(),
    decreases pairs_left(n, r.done), snapshot.len() - i, snapshot.len() - j,
{
    if i < 0 || j < 0 || i >= snapshot.len() {
    } else if j >= snapshot.len() {
        lemma_resolve_from_closed(r, n, s, snapshot, i + 1, i + 2);
    } else if !overlaps(snapshot[i].range, snapshot[j].range) {
        lemma_resolve_from_closed(r, n, s, snapshot, i, j + 1);
    } else {
        match (snapshot[i].transition, snapshot[j].transition) {
            (
                Transition::Continue { target: first, conditions: _ },
                Transition::Continue { target: second, conditions: _ },
            ) => {
                if first != second && first != s && first < n && second < n && r.table.has_step(
                    first as int,
                ) && r.table.has_step(second as int) && !r.done.contains((first, second)) {
                    let noted = match r.table.end(second as int) {
                        Some(pattern) => r.table.with_condition(
                            s as int,
                            i,
                            pattern,
                            snapshot[j].range,
                        ),
                        None => r.table,
                    };
                    if let Some(pattern) = r.table.end(second as int) {
                        crate::check::lemma_with_condition_closed(
                            r.table,
                            s as int,
                            i,
                            pattern,
                            snapshot[j].range,
                        );
                    }
                    crate::check::lemma_merged_closed(noted, first as int, second as int);
                    let merged = noted.merged(first as int, second as int);
                    let begun = r.done.insert((first, second));
                    lemma_pairs_left_shrinks(n, r.done, begun, first, second);
                    let started = Resolution { table: merged, done: begun };
                    lemma_resolve_from_closed(started, n, first, merged.cases(first as int), 0, 1);
                    let inner = resolve_from(started, n, first, merged.cases(first as int), 0, 1);
                    lemma_pairs_left_shrinks(n, r.done, begun + inner.done, first, second);
                    lemma_resolve_from_closed(
                        Resolution { table: inner.table, done: begun + inner.done },
                        n,
                        s,
                        snapshot,
                        i,
                        j + 1,
                    );
                } else {
                    lemma_resolve_from_closed(r, n, s, snapshot, i, j + 1);
                }
            },
            (Transition::Continue { target: _, conditions: _ }, Transition::Accept { pattern }) => {
                crate::check::lemma_with_condition_closed(
                    r.table,
                    s as int,
                    i,
                    pattern,
                    snapshot[j].range,
                );
                lemma_resolve_from_closed(
                    Resolution {
                        table: r.table.with_condition(s as int, i, pattern, snapshot[j].range),
                        done: r.done,
                    },
                    n,
                    s,
                    snapshot,
                    i,
                    j + 1,
                );
            },
            (Transition::Accept { pattern }, Transition::Continue { target: _, conditions: _ }) => {
                crate::check::lemma_with_condition_closed(
                    r.table,
                    s as int,
                    j,
                    pattern,
                    snapshot[i].range,
                );
                lemma_resolve_from_closed(
                    Resolution {
                        table: r.table.with_condition(s as int, j, pattern, snapshot[i].range),
                        done: r.done,
                    },
                    n,
                    s,
                    snapshot,
                    i,
                    j + 1,
                );
            },
            _ => {
                lemma_resolve_from_closed(r, n, s, snapshot, i, j + 1);
            },
        }
    }
}

/// The state of a resolution that a machine and a list of merged pairs
/// stand for.
pub open spec fn resolution(machine: StateMachine, exclude: Vec<(usize, usize)>) -> Resolution {
    Resolution { table: machine@, done: exclude@.to_set() }
}

/// Tells whether two inclusive byte ranges share a byte.
pub fn ranges_overlap(a: (u8, u8), b: (u8, u8)) -> (r: bool)
    ensures
        r == overlaps(a, b),
{
    a.0 <= b.1 && a.1 >= b.0
}

/// Tells whether `pair` is in `list`.
fn contains_pair(list: &Vec<(usize, usize)>, pair: (usize, usize)) -> (r: bool)
    ensures
        r == list@.to_set().contains(pair),
{
    let mut k: usize = 0;
    while k < list.len()
        invariant
            k <= list.len(),
            forall|m: int| 0 <= m < k ==> list@[m] != pair,
        decreases list.len() - k,
    {
        let (a, b) = list[k];
        if a == pair.0 && b == pair.1 {
            assert(list@[k as int] == pair);
            return true;
        }
        k += 1;
    }
    false
}

impl StateMachine {
    /// Tells whether `step` identifies a step.
    pub fn has_step(&self, step: usize) -> (r: bool)
        ensures
            r == self@.has_step(step as int),
    {
        step < self.steps.len() && self.steps[step].is_some()
    }

    /// Finds the step with the smallest identifier at which `pattern` ends.
    pub fn first_end(&self, pattern: usize) -> (r: Option<usize>)
        ensures
            r == first_end(self@.ends, pattern),
    {
        let mut at: usize = 0;
        while at < self.ends.len()
            invariant
                at <= self.ends.len(),
                first_end(self@.ends, pattern) == first_end_from(self@.ends, pattern, at as int),
            decreases self.ends.len() - at,
        {
            if let Some(found) = self.ends[at] {
                if found == pattern {
                    return Some(at);
                }
            }
            at += 1;
        }
        None
    }

    /// The smallest step identifier.
    pub fn first_step(&self) -> (r: Result<usize, CompileError>)
        ensures
            match r {
                Ok(step) => self@.first_step() == Some(step),
                Err(e) => e == CompileError::EmptyAutomaton && self@.first_step() is None,
            },
    {
        let mut at: usize = 0;
        while at < self.steps.len()
            invariant
                at <= self.steps.len(),
                self@.first_step() == first_step_from(self@.steps, at as int),
            decreases self.steps.len() - at,
        {
            if self.steps[at].is_some() {
                return Ok(at);
            }
            at += 1;
        }
        Err(CompileError::EmptyAutomaton)
    }

    /// Puts `cases` in place of the cases of `step`, if there is such a step.
    pub fn replace_cases(&mut self, step: usize, cases: Vec<StepCase>)
        ensures
            final(self)@ == old(self)@.with_cases(step as int, view_cases(cases@)),
            final(self).steps.len() == old(self).steps.len(),
            final(self).ends == old(self).ends,
    {
        if step < self.steps.len() && self.steps[step].is_some() {
            self.steps.set(step, Some(cases));
            assert(view_steps(self.steps@) =~= view_steps(old(self).steps@).update(
                step as int,
                Some(view_cases(cases@)),
            ));
        }
    }

    /// Gives case `step_index` of `current_step`, if it goes on to a step,
    /// one more condition: the first step at which pattern `match_index`
    /// ends, with `byte_range`.
    pub fn add_condition(
        &mut self,
        current_step: usize,
        step_index: usize,
        match_index: usize,
        byte_range: (u8, u8),
    )
        ensures
            final(self)@ == old(self)@.with_condition(
                current_step as int,
                step_index as int,
                match_index,
                byte_range,
            ),
            final(self).steps.len() == old(self).steps.len(),
            final(self).ends == old(self).ends,
            old(self)@.closed() ==> final(self)@.closed(),
    {
        proof {
            if self@.closed() {
                assert(self@.ends.len() == self.ends.len());
                crate::check::lemma_with_condition_closed(
                    self@,
                    current_step as int,
                    step_index as int,
                    match_index,
                    byte_range,
                );
            }
        }
        let mut cases = match self.cases_of(current_step) {
            Some(cases) => cases,
            None => {
                return ;
            },
        };
        if step_index >= cases.len() {
            return ;
        }
        let at = match self.first_end(match_index) {
            Some(at) => at,
            None => {
                return ;
            },
        };
        let case = cases[step_index].clone();
        match case.next_case {
            CasePattern::Step(target, mut conditions) => {
                conditions.push((at, byte_range));
                let ghost before = cases@;
                cases.set(
                    step_index,
                    StepCase {
                        byte_range: case.byte_range,
                        next_case: CasePattern::Step(target, conditions),
                    },
                );
                assert(view_cases(cases@) =~= view_cases(before).update(
                    step_index as int,
                    cases@[step_index as int]@,
                ));
                self.replace_cases(current_step, cases);
            },
            CasePattern::Match(_) => {},
        }
    }

    /// Appends the cases of `from` to those of `into`, if both are steps.
    pub fn merge_steps(&mut self, into: usize, from: usize)
        ensures
            final(self)@ == old(self)@.merged(into as int, from as int),
            final(self).steps.len() == old(self).steps.len(),
            final(self).ends == old(self).ends,
            old(self)@.closed() ==> final(self)@.closed(),
    {
        proof {
            if self@.closed() {
                crate::check::lemma_merged_closed(self@, into as int, from as int);
            }
        }
        let mut cases = match self.cases_of(into) {
            Some(cases) => cases,
            None => {
                return ;
            },
        };
        let mut more = match self.cases_of(from) {
            Some(cases) => cases,
            None => {
                assert(self@.steps =~= self@.merged(into as int, from as int).steps);
                return ;
            },
        };
        proof {
            crate::parse::lemma_view_cases_add(cases@, more@);
        }
        cases.append(&mut more);
        self.replace_cases(into, cases);
    }

    /// Resolves the pairs of cases of `current_step`, and the steps into
    /// which it merges others. `exclude` lists the pairs merged so far.
    /// Cases that share a byte and that no rule applies to stay as they
    /// are; [`StateMachine::check_resolved`] finds them.
    pub fn extend_split_steps(&mut self, current_step: usize, exclude: &mut Vec<(usize, usize)>)
        ensures
            resolution(*final(self), *final(exclude)) == resolve_step(
                resolution(*old(self), *old(exclude)),
                old(self).steps.len() as nat,
                current_step,
            ),
            final(self).steps.len() == old(self).steps.len(),
            final(self).ends == old(self).ends,
            old(exclude)@.to_set().subset_of(final(exclude)@.to_set()),
            old(self)@.closed() ==> final(self)@.closed(),
        decreases pairs_left(old(self).steps.len() as nat, old(exclude)@.to_set()),
    {
        let first_steps = match self.cases_of(current_step) {
            Some(cases) => cases,
            None => Vec::new(),
        };
        let ghost n = self.steps.len() as nat;
        let ghost snapshot = view_cases(first_steps@);
        let ghost goal = resolve_step(resolution(*old(self), *old(exclude)), n, current_step);
        assert(snapshot =~= self@.cases(current_step as int));
        let mut i: usize = 0;
        while i < first_steps.len()
            invariant
                i <= first_steps.len(),
                n == self.steps.len(),
                n == old(self).steps.len(),
                self.ends == old(self).ends,
                old(self)@.closed() ==> self@.closed(),
                snapshot == view_cases(first_steps@),
                old(exclude)@.to_set().subset_of(exclude@.to_set()),
                goal == resolve_from(
                    resolution(*self, *exclude),
                    n,
                    current_step,
                    snapshot,
                    i as int,
                    i as int + 1,
                ),
            decreases first_steps.len() - i,
        {
            let mut j: usize = i + 1;
            while j < first_steps.len()
                invariant
                    i < first_steps.len(),
                    i < j <= first_steps.len(),
                    n == self.steps.len(),
                    n == old(self).steps.len(),
                    self.ends == old(self).ends,
                    old(self)@.closed() ==> self@.closed(),
                    snapshot == view_cases(first_steps@),
                    old(exclude)@.to_set().subset_of(exclude@.to_set()),
                    goal == resolve_from(
                        resolution(*self, *exclude),
                        n,
                        current_step,
                        snapshot,
                        i as int,
                        j as int,
                    ),
                decreases first_steps.len() - j,
            {
                let range1 = first_steps[i].byte_range;
                let range2 = first_steps[j].byte_range;
                assert(snapshot[i as int] == first_steps@[i as int]@);
                assert(snapshot[j as int] == first_steps@[j as int]@);
                if ranges_overlap(range1, range2) {
                    match &first_steps[i].next_case {
                        CasePattern::Step(first, _) => match &first_steps[j].next_case {
                            CasePattern::Step(second, _) => {
                                let first = *first;
                                let second = *second;
                                if first != second && first != current_step && self.has_step(first)
                                    && self.has_step(second) && !contains_pair(
                                    exclude,
                                    (first, second),
                                ) {
                                    let ghost listed = exclude@;
                                    if let Some(pattern) = self.end_of(second) {
                                        self.add_condition(current_step, i, pattern, range2);
                                    }
                                    self.merge_steps(first, second);
                                    exclude.push((first, second));
                                    proof {
                                        listed.lemma_push_to_set_commute((first, second));
                                        lemma_pairs_left_shrinks(
                                            n,
                                            old(exclude)@.to_set(),
                                            exclude@.to_set(),
                                            first,
                                            second,
                                        );
                                        assert(view_cases(Seq::<StepCase>::empty()) =~= Seq::<
                                            Case,
                                        >::empty());
                                    }
                                    let ghost begun = exclude@.to_set();
                                    self.extend_split_steps(first, exclude);
                                    assert(begun + exclude@.to_set() =~= exclude@.to_set());
                                }
                            },
                            CasePattern::Match(pattern) => {
                                self.add_condition(current_step, i, *pattern, range2);
                            },
                        },
                        CasePattern::Match(pattern) => match &first_steps[j].next_case {
                            CasePattern::Step(_, _) => {
                                self.add_condition(current_step, j, *pattern, range1);
                            },
                            CasePattern::Match(_) => {},
                        },
                    }
                }
                j += 1;
            }
            i += 1;
        }
    }

    /// Runs the resolver from the first step. A table without steps is an
    /// error.
    ///
    /// `Ok` says that the resolver has run, not that every pair of cases is
    /// resolved: it merges and adds conditions where its rules apply, and
    /// leaves the other cases that share a byte as they are. Whether any of
    /// them is within reach of the first step is for
    /// [`StateMachine::check_resolved`] to say, which reports it as
    /// `UnresolvedAmbiguity`; [`StateMachine::new`] asks it of the finished
    /// table.
    pub fn extend_steps(&mut self) -> (r: Result<(), CompileError>)
        ensures
            match r {
                Ok(_) => old(self)@.first_step() is Some && final(self)@ == resolved(old(self)@),
                Err(e) => {
                    &&& e == CompileError::EmptyAutomaton
                    &&& old(self)@.first_step() is None
                    &&& final(self)@ == old(self)@
                },
            },
            final(self).steps.len() == old(self).steps.len(),
            final(self).ends == old(self).ends,
            old(self)@.closed() ==> final(self)@.closed(),
    {
        let start = match self.first_step() {
            Ok(step) => step,
            Err(e) => {
                return Err(e);
            },
        };
        let mut exclude: Vec<(usize, usize)> = Vec::new();
        assert(exclude@.to_set() =~= Set::<(usize, usize)>::empty());
        self.extend_split_steps(start, &mut exclude);
        Ok(())
    }
}

} // verus!

//! What holds of a finished table, and the checks that establish it.

use vstd::prelude::*;
use crate::error::CompileError;
use crate::extend::overlaps;
use crate::parse::{view_cases, Case, CasePattern, StepCase, Transition};
use crate::{StateMachine, Table};

verus! {

/// Whether `case` goes on to step `b`.
pub open spec fn goes_to(case: Case, b: int) -> bool {
    case.transition matches Transition::Continue { target, .. } && target == b
}

impl Table {
    /// Whether every step that `case` names is a step of the table.
    pub open spec fn links(self, case: Case) -> bool {
        match case.transition {
            Transition::Continue { target, conditions } => {
                &&& self.has_step(target as int)
                &&& forall|c: int|
                    0 <= c < conditions.len() ==> self.has_step((#[trigger] conditions[c]).0 as int)
            },
            Transition::Accept { pattern } => true,
        }
    }

    /// Whether nothing in the table names a step that is missing: neither
    /// a case nor the record of a pattern's end.
    pub open spec fn closed(self) -> bool {
        &&& forall|s: int, k: int|
            self.has_step(s) && 0 <= k < self.cases(s).len() ==> self.links(
                #[trigger] self.cases(s)[k],
            )
        &&& forall|s: int| (#[trigger] self.end(s)) is Some ==> self.has_step(s)
    }

    /// Whether some case of step `a` goes on to step `b`.
    pub open spec fn edge(self, a: int, b: int) -> bool {
        exists|k: int| 0 <= k < self.cases(a).len() && goes_to(#[trigger] self.cases(a)[k], b)
    }

    /// Whether `to` is reached from `from` by going on `hops` times.
    pub open spec fn reaches(self, from: int, to: int, hops: nat) -> bool
        decreases hops,
    {
        if hops == 0 {
            from == to
        } else {
            exists|via: int|
                self.reaches(from, via, (hops - 1) as nat) && #[trigger] self.edge(via, to)
        }
    }

    /// Whether `to` is reached from `from` by going on any number of times.
    pub open spec fn reachable(self, from: int, to: int) -> bool {
        exists|hops: nat| self.reaches(from, to, hops)
    }
}

/// Whether `range` holds every byte that `a` and `b` share.
pub open spec fn covers_shared(range: (u8, u8), a: (u8, u8), b: (u8, u8)) -> bool {
    &&& range.0 <= a.0 || range.0 <= b.0
    &&& range.1 >= a.1 || range.1 >= b.1
}

/// Whether `case` goes on and has a condition, for a step other than the
/// one it goes on to, whose range holds every byte that `case` shares with
/// `other`.
pub open spec fn tells_apart(case: Case, other: Case) -> bool {
    match case.transition {
        Transition::Continue { target, conditions } => exists|c: int|
            0 <= c < conditions.len() && (#[trigger] conditions[c]).0 != target && covers_shared(
                conditions[c].1,
                case.range,
                other.range,
            ),
        Transition::Accept { pattern } => false,
    }
}

/// Whether two cases claim no common byte, or a condition of one of them
/// tells them apart.
pub open spec fn pair_resolved(a: Case, b: Case) -> bool {
    !overlaps(a.range, b.range) || tells_apart(a, b) || tells_apart(b, a)
}

/// Whether every two cases of a step are resolved.
pub open spec fn step_resolved(cases: Seq<Case>) -> bool {
    forall|i: int, j: int| 0 <= i < j < cases.len() ==> pair_resolved(cases[i], cases[j])
}

/// The first step from `from` on, where there is one, is a step.
pub proof fn lemma_first_step_is_step(steps: Seq<Option<Seq<Case>>>, from: int)
    requires
        0 <= from,
        steps.len() <= usize::MAX,
        crate::extend::first_step_from(steps, from) is Some,
    ensures
        from <= crate::extend::first_step_from(steps, from)->Some_0 < steps.len(),
        steps[crate::extend::first_step_from(steps, from)->Some_0 as int] is Some,
    decreases steps.len() - from,
{
    if from < steps.len() && !(steps[from] is Some) {
        lemma_first_step_is_step(steps, from + 1);
    }
}

/// Where there is a step from `from` on, there is a first one.
pub proof fn lemma_step_has_first(steps: Seq<Option<Seq<Case>>>, from: int, s: int)
    requires
        0 <= from <= s < steps.len(),
        steps[s] is Some,
    ensures
        crate::extend::first_step_from(steps, from) is Some,
    decreases steps.len() - from,
{
    if !(steps[from] is Some) {
        lemma_step_has_first(steps, from + 1, s);
    }
}

/// The first step at which a pattern ends, where there is one, is a step at
/// which it ends.
pub proof fn lemma_first_end_is_end(ends: Seq<Option<usize>>, pattern: usize, from: int)
    requires
        0 <= from,
        ends.len() <= usize::MAX,
        crate::extend::first_end_from(ends, pattern, from) is Some,
    ensures
        from <= crate::extend::first_end_from(ends, pattern, from)->Some_0 < ends.len(),
        ends[crate::extend::first_end_from(ends, pattern, from)->Some_0 as int] == Some(pattern),
    decreases ends.len() - from,
{
    if from < ends.len() && ends[from] != Some(pattern) {
        lemma_first_end_is_end(ends, pattern, from + 1);
    }
}

/// Putting cases that name only steps of the table in place of the cases of
/// a step keeps the table closed.
pub proof fn lemma_with_cases_closed(table: Table, step: int, cases: Seq<Case>)
    requires
        table.closed(),
        forall|k: int| 0 <= k < cases.len() ==> table.links(#[trigger] cases[k]),
    ensures
        table.with_cases(step, cases).closed(),
{
    let after = table.with_cases(step, cases);
    assert forall|s: int| after.has_step(s) == table.has_step(s) by {}
    assert forall|s: int, k: int| after.has_step(s) && 0 <= k < after.cases(s).len() implies after.links(
        #[trigger] after.cases(s)[k],
    ) by {
        let case = after.cases(s)[k];
        if s == step {
            assert(table.links(cases[k]));
        } else {
            assert(table.links(table.cases(s)[k]));
        }
        assert(table.links(case));
        match case.transition {
            Transition::Continue { target, conditions } => {
                assert forall|c: int| 0 <= c < conditions.len() implies after.has_step(
                    (#[trigger] conditions[c]).0 as int,
                ) by {
                    assert(table.has_step(conditions[c].0 as int));
                }
            },
            Transition::Accept { pattern } => {},
        }
    }
    assert forall|s: int| (#[trigger] after.end(s)) is Some implies after.has_step(s) by {
        assert(table.end(s) is Some);
    }
}

/// One more condition keeps a table closed.
pub proof fn lemma_with_condition_closed(
    table: Table,
    step: int,
    index: int,
    pattern: usize,
    range: (u8, u8),
)
    requires
        table.closed(),
        table.ends.len() <= usize::MAX,
    ensures
        table.with_condition(step, index, pattern, range).closed(),
{
    if 0 <= index < table.cases(step).len() {
        let case = table.cases(step)[index];
        match (case.transition, crate::extend::first_end(table.ends, pattern)) {
            (Transition::Continue { target, conditions }, Some(at)) => {
                lemma_first_end_is_end(table.ends, pattern, 0);
                assert(table.end(at as int) is Some);
                assert(table.has_step(at as int));
                let changed = Case {
                    range: case.range,
                    transition: Transition::Continue {
                        target,
                        conditions: conditions.push((at, range)),
                    },
                };
                let cases = table.cases(step).update(index, changed);
                assert(table.links(case));
                assert(table.links(changed)) by {
                    assert forall|c: int| 0 <= c < conditions.push((at, range)).len() implies table.has_step(
                        (#[trigger] conditions.push((at, range))[c]).0 as int,
                    ) by {
                        if c < conditions.len() {
                            assert(table.has_step(conditions[c].0 as int));
                        }
                    }
                }
                assert forall|k: int| 0 <= k < cases.len() implies table.links(#[trigger] cases[k]) by {
                    if k != index {
                        assert(table.links(table.cases(step)[k]));
                    }
                }
                lemma_with_cases_closed(table, step, cases);
            },
            _ => {},
        }
    }
}

/// Appending the cases of one step to those of another keeps a table closed.
pub proof fn lemma_merged_closed(table: Table, into: int, from: int)
    requires
        table.closed(),
    ensures
        table.merged(into, from).closed(),
{
    let cases = table.cases(into) + table.cases(from);
    assert forall|k: int| 0 <= k < cases.len() implies table.links(#[trigger] cases[k]) by {
        if k < table.cases(into).len() {
            assert(table.links(table.cases(into)[k]));
        } else {
            assert(table.links(table.cases(from)[k - table.cases(into).len()]));
        }
    }
    lemma_with_cases_closed(table, into, cases);
}

/// How many of `marks` are set.
pub open spec fn count_set(marks: Seq<bool>) -> nat
    decreases marks.len(),
{
    if marks.len() == 0 {
        0
    } else {
        count_set(marks.drop_last()) + if marks.last() {
            1nat
        } else {
            0nat
        }
    }
}

/// No more marks are set than there are.
pub proof fn lemma_count_set_bound(marks: Seq<bool>)
    ensures
        count_set(marks) <= marks.len(),
    decreases marks.len(),
{
    if marks.len() > 0 {
        lemma_count_set_bound(marks.drop_last());
    }
}

/// Setting a mark that was not set makes one more.
pub proof fn lemma_count_set_grows(marks: Seq<bool>, at: int)
    requires
        0 <= at < marks.len(),
        !marks[at],
    ensures
        count_set(marks.update(at, true)) == count_set(marks) + 1,
    decreases marks.len(),
{
    let after = marks.update(at, true);
    if at == marks.len() - 1 {
        assert(after.drop_last() =~= marks.drop_last());
    } else {
        lemma_count_set_grows(marks.drop_last(), at);
        assert(after.drop_last() =~= marks.drop_last().update(at, true));
    }
}

/// One more hop from a step that is reached reaches a step.
pub proof fn lemma_reachable_step(table: Table, from: int, via: int, to: int)
    requires
        table.reachable(from, via),
        table.edge(via, to),
    ensures
        table.reachable(from, to),
{
    let hops = choose|hops: nat| table.reaches(from, via, hops);
    let more: nat = hops + 1;
    assert(table.reaches(from, via, (more - 1) as nat));
    assert(table.reaches(from, to, more));
}

/// From what is no step going on reaches nothing else.
pub proof fn lemma_reaches_from_no_step(table: Table, from: int, to: int, hops: nat)
    requires
        !table.has_step(from),
        table.reaches(from, to, hops),
    ensures
        to == from,
    decreases hops,
{
    if hops > 0 {
        let via = choose|via: int|
            table.reaches(from, via, (hops - 1) as nat) && #[trigger] table.edge(via, to);
        lemma_reaches_from_no_step(table, from, via, (hops - 1) as nat);
        assert(table.cases(via).len() == 0);
    }
}

/// Marks that hold `from` and, with a step, every step of the table that it
/// goes on to, hold every step of the table that is reached from `from`.
pub proof fn lemma_marks_hold_reached(table: Table, marks: Seq<bool>, from: int, to: int, hops: nat)
    requires
        marks.len() == table.steps.len(),
        0 <= from < marks.len(),
        marks[from],
        forall|a: int, b: int|
            0 <= a < marks.len() && marks[a] && 0 <= b < marks.len() && #[trigger] table.edge(a, b)
                ==> marks[b],
        table.reaches(from, to, hops),
        0 <= to < marks.len(),
    ensures
        marks[to],
    decreases hops,
{
    if hops > 0 {
        let via = choose|via: int|
            table.reaches(from, via, (hops - 1) as nat) && #[trigger] table.edge(via, to);
        assert(table.cases(via).len() > 0);
        assert(table.has_step(via));
        lemma_marks_hold_reached(table, marks, from, via, (hops - 1) as nat);
    }
}

/// The first step at or after `from` that is reached from `first` and has
/// two cases that are not resolved.
pub open spec fn first_unresolved_from(table: Table, first: int, from: int) -> Option<usize>
    decreases table.steps.len() - from,
{
    if from < 0 || from >= table.steps.len() {
        None
    } else if table.reachable(first, from) && !step_resolved(table.cases(from)) {
        Some(from as usize)
    } else {
        first_unresolved_from(table, first, from + 1)
    }
}

impl Table {
    /// The step with the smallest identifier that is reached from the first
    /// step and has two cases that are not resolved.
    pub open spec fn unresolved(self) -> Option<usize> {
        match self.first_step() {
            Some(first) => first_unresolved_from(self, first as int, 0),
            None => None,
        }
    }
}

/// Where no step at or after `from` is unresolved, every step from there on
/// that is reached from `first` is resolved.
pub proof fn lemma_none_unresolved(table: Table, first: int, from: int, s: int)
    requires
        0 <= from <= s,
        first_unresolved_from(table, first, from) is None,
        table.reachable(first, s),
    ensures
        step_resolved(table.cases(s)),
    decreases table.steps.len() - from,
{
    if from < table.steps.len() {
        if from < s {
            lemma_none_unresolved(table, first, from + 1, s);
        }
    } else {
        assert(table.cases(s).len() == 0);
    }
}

/// Tells whether `range` holds every byte that `a` and `b` share.
fn range_covers_shared(range: (u8, u8), a: (u8, u8), b: (u8, u8)) -> (r: bool)
    ensures
        r == covers_shared(range, a, b),
{
    (range.0 <= a.0 || range.0 <= b.0) && (range.1 >= a.1 || range.1 >= b.1)
}

/// Tells whether a condition of `case` tells it apart from `other`.
fn case_tells_apart(case: &StepCase, other: &StepCase) -> (r: bool)
    ensures
        r == tells_apart(case@, other@),
{
    match &case.next_case {
        CasePattern::Step(target, conditions) => {
            let mut c: usize = 0;
            while c < conditions.len()
                invariant
                    c <= conditions.len(),
                    case.next_case == CasePattern::Step(*target, *conditions),
                    forall|m: int|
                        0 <= m < c ==> !((#[trigger] conditions@[m]).0 != *target && covers_shared(
                            conditions@[m].1,
                            case.byte_range,
                            other.byte_range,
                        )),
                decreases conditions.len() - c,
            {
                let (step, range) = conditions[c];
                if step != *target && range_covers_shared(range, case.byte_range, other.byte_range) {
                    assert(conditions@[c as int] == (step, range));
                    assert(case@.transition == Transition::Continue {
                        target: *target,
                        conditions: conditions@,
                    });
                    let ghost listed = case@.transition->conditions;
                    assert(listed == conditions@);
                    assert(case@.transition->target == *target);
                    assert(listed[c as int].0 != case@.transition->target && covers_shared(
                        listed[c as int].1,
                        case@.range,
                        other@.range,
                    ));
                    return true;
                }
                c += 1;
            }
            false
        },
        CasePattern::Match(_) => false,
    }
}

/// Tells whether every two cases of a step are resolved.
pub fn cases_resolved(cases: &Vec<StepCase>) -> (r: bool)
    ensures
        r == step_resolved(view_cases(cases@)),
{
    let ghost seen = view_cases(cases@);
    let mut i: usize = 0;
    while i < cases.len()
        invariant
            i <= cases.len(),
            seen == view_cases(cases@),
            forall|x: int, y: int| 0 <= x < y < seen.len() && x < i ==> pair_resolved(seen[x], seen[y]),
        decreases cases.len() - i,
    {
        let mut j: usize = i + 1;
        while j < cases.len()
            invariant
                i < j <= cases.len(),
                seen == view_cases(cases@),
                forall|x: int, y: int|
                    0 <= x < y < seen.len() && x < i ==> pair_resolved(seen[x], seen[y]),
                forall|y: int| i < y < j ==> pair_resolved(seen[i as int], seen[y]),
            decreases cases.len() - j,
        {
            assert(seen[i as int] == cases@[i as int]@);
            assert(seen[j as int] == cases@[j as int]@);
            let apart = !crate::extend::ranges_overlap(cases[i].byte_range, cases[j].byte_range)
                || case_tells_apart(&cases[i], &cases[j]) || case_tells_apart(&cases[j], &cases[i]);
            if !apart {
                assert(!pair_resolved(seen[i as int], seen[j as int]));
                return false;
            }
            j += 1;
        }
        i += 1;
    }
    true
}

impl StateMachine {
    /// Looks for a step that the first step reaches and that has two cases
    /// which claim a common byte and are not told apart by a condition.
    pub fn check_resolved(&self) -> (r: Result<(), CompileError>)
        ensures
            match r {
                Ok(_) => self@.first_step() is Some && self@.unresolved() is None,
                Err(CompileError::EmptyAutomaton) => self@.first_step() is None,
                Err(CompileError::UnresolvedAmbiguity { step }) => self@.first_step() is Some
                    && self@.unresolved() == Some(step),
                Err(_) => false,
            },
    {
        let first = match self.first_step() {
            Ok(step) => step,
            Err(e) => {
                return Err(e);
            },
        };
        let n = self.steps.len();
        proof {
            assert(self@.steps.len() == n);
            lemma_first_step_is_step(self@.steps, 0);
        }
        let marks = self.reached_from(first);
        let mut s: usize = 0;
        while s < self.steps.len()
            invariant
                s <= self.steps.len(),
                marks.len() == self.steps.len(),
                self@.first_step() == Some(first),
                forall|x: int|
                    0 <= x < marks.len() ==> (marks[x] <==> self@.reachable(first as int, x)),
                self@.unresolved() == first_unresolved_from(self@, first as int, s as int),
            decreases self.steps.len() - s,
        {
            if marks[s] {
                if let Some(cases) = &self.steps[s] {
                    assert(self@.cases(s as int) == view_cases(cases@));
                    if !cases_resolved(cases) {
                        return Err(CompileError::UnresolvedAmbiguity { step: s });
                    }
                } else {
                    assert(self@.cases(s as int).len() == 0);
                }
            }
            s += 1;
        }
        Ok(())
    }

    /// Marks the steps that are reached from `first` by going on.
    pub fn reached_from(&self, first: usize) -> (marks: Vec<bool>)
        ensures
            marks.len() == self.steps.len(),
            forall|s: int| 0 <= s < marks.len() ==> (marks[s] <==> self@.reachable(first as int, s)),
    {
        let n = self.steps.len();
        let mut marks: Vec<bool> = Vec::new();
        while marks.len() < n
            invariant
                marks.len() <= n,
                forall|s: int| 0 <= s < marks.len() ==> !marks[s],
                count_set(marks@) == 0,
            decreases n - marks.len(),
        {
            let ghost before = marks@;
            marks.push(false);
            assert(marks@.drop_last() =~= before);
        }
        if first >= n {
            proof {
                assert forall|s: int| 0 <= s < marks.len() implies !self@.reachable(first as int, s) by {
                    if self@.reachable(first as int, s) {
                        let hops = choose|hops: nat| self@.reaches(first as int, s, hops);
                        lemma_reaches_from_no_step(self@, first as int, s, hops);
                    }
                }
            }
            return marks;
        }
        proof {
            lemma_count_set_grows(marks@, first as int);
            assert(self@.reaches(first as int, first as int, 0));
        }
        marks.set(first, true);
        let mut count: usize = 1;
        let ghost table = self@;
        loop
            invariant
                n == self.steps.len(),
                table == self@,
                marks.len() == n,
                first < n,
                marks[first as int],
                count == count_set(marks@),
                forall|s: int| 0 <= s < n && marks[s] ==> table.reachable(first as int, s),
            ensures
                forall|a: int, b: int|
                    0 <= a < n && marks[a] && 0 <= b < n && #[trigger] table.edge(a, b) ==> marks[b],
            decreases n - count,
        {
            proof {
                lemma_count_set_bound(marks@);
            }
            let mut changed = false;
            let ghost start = count;
            let mut a: usize = 0;
            while a < n
                invariant
                    a <= n,
                    n == self.steps.len(),
                    table == self@,
                    marks.len() == n,
                    first < n,
                    marks[first as int],
                    count == count_set(marks@),
                    count <= n,
                    start <= count,
                    changed ==> start < count,
                    forall|s: int| 0 <= s < n && marks[s] ==> table.reachable(first as int, s),
                    !changed ==> forall|x: int, b: int|
                        0 <= x < a && marks[x] && 0 <= b < n && #[trigger] table.edge(x, b)
                            ==> marks[b],
                decreases n - a,
            {
                if marks[a] {
                    if let Some(cases) = &self.steps[a] {
                        assert(table.cases(a as int) == view_cases(cases@));
                        let mut k: usize = 0;
                        while k < cases.len()
                            invariant
                                k <= cases.len(),
                                a < n,
                                n == self.steps.len(),
                                table == self@,
                                table.cases(a as int) == view_cases(cases@),
                                marks.len() == n,
                                first < n,
                                marks[first as int],
                                marks[a as int],
                                count == count_set(marks@),
                                count <= n,
                                start <= count,
                                changed ==> start < count,
                                forall|s: int|
                                    0 <= s < n && marks[s] ==> table.reachable(first as int, s),
                                !changed ==> forall|x: int, b: int|
                                    0 <= x < a && marks[x] && 0 <= b < n && #[trigger] table.edge(
                                        x,
                                        b,
                                    ) ==> marks[b],
                                !changed ==> forall|m: int, b: int|
                                    0 <= m < k && 0 <= b < n && #[trigger] goes_to(
                                        table.cases(a as int)[m],
                                        b,
                                    ) ==> marks[b],
                            decreases cases.len() - k,
                        {
                            assert(table.cases(a as int)[k as int] == cases@[k as int]@);
                            if let CasePattern::Step(target, _) = &cases[k].next_case {
                                let target = *target;
                                if target < n && !marks[target] {
                                    proof {
                                        lemma_count_set_grows(marks@, target as int);
                                        assert(goes_to(table.cases(a as int)[k as int], target as int));
                                        assert(table.edge(a as int, target as int));
                                        lemma_reachable_step(
                                            table,
                                            first as int,
                                            a as int,
                                            target as int,
                                        );
                                    }
                                    marks.set(target, true);
                                    proof {
                                        lemma_count_set_bound(marks@);
                                    }
                                    count += 1;
                                    changed = true;
                                }
                            }
                            k += 1;
                        }
                    } else {
                        assert(table.cases(a as int).len() == 0);
                    }
                }
                a += 1;
            }
            if !changed {
                break ;
            }
        }
        proof {
            assert forall|s: int| 0 <= s < marks.len() && table.reachable(first as int, s) implies marks[s] by {
                let hops = choose|hops: nat| table.reaches(first as int, s, hops);
                lemma_marks_hold_reached(table, marks@, first as int, s, hops);
            }
        }
        marks
    }
}

} // verus!

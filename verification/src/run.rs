//! Running a table on input bytes.

use vstd::prelude::*;
use crate::error::CompileError;
use crate::parse::{view_cases, Case, CasePattern, StepCase, Transition};
use crate::{StateMachine, Table};

verus! {

/// Whether an inclusive byte range holds `byte`.
pub open spec fn holds(range: (u8, u8), byte: u8) -> bool {
    range.0 <= byte <= range.1
}

/// The first case at or after `from` whose range holds `byte` and that goes
/// on, if `going_on`, or accepts, if not.
pub open spec fn first_case_from(cases: Seq<Case>, byte: u8, going_on: bool, from: int) -> Option<
    int,
>
    decreases cases.len() - from,
{
    if from < 0 || from >= cases.len() {
        None
    } else if holds(cases[from].range, byte) && (cases[from].transition is Continue) == going_on {
        Some(from)
    } else {
        first_case_from(cases, byte, going_on, from + 1)
    }
}

/// The case that `byte` selects: among the cases whose range holds it, one
/// that goes on before one that accepts, and an earlier one before a later
/// one. Where the ranges of a step are disjoint this is the one case that
/// holds the byte.
pub open spec fn select(cases: Seq<Case>, byte: u8) -> Option<int> {
    match first_case_from(cases, byte, true, 0) {
        Some(k) => Some(k),
        None => first_case_from(cases, byte, false, 0),
    }
}

/// The best match after the first `upto` of `conditions` have been looked
/// at, in order: a condition whose range holds the byte that comes `next`,
/// and at whose step a pattern ends, makes that pattern the best match,
/// with `len` bytes.
pub open spec fn after_conditions(
    table: Table,
    conditions: Seq<(usize, (u8, u8))>,
    next: Option<u8>,
    last: Option<(usize, usize)>,
    len: usize,
    upto: int,
) -> Option<(usize, usize)>
    decreases upto,
{
    if upto <= 0 {
        last
    } else {
        let before = after_conditions(table, conditions, next, last, len, upto - 1);
        let (step, range) = conditions[upto - 1];
        match (next, table.end(step as int)) {
            (Some(byte), Some(pattern)) => if holds(range, byte) {
                Some((pattern, len))
            } else {
                before
            },
            _ => before,
        }
    }
}

/// The result of running from step `state` on the bytes of `input` from
/// index `i` on, when `last` is the best match so far: a pattern and the
/// number of bytes that it matched.
///
/// The byte at `i` selects a case of `state`; without one the run ends with
/// `last`. A case that accepts ends the run with its pattern and the bytes
/// up to and with this one. A case that goes on first has its conditions
/// looked at, and then moves to its target; a pattern that ends at the
/// target becomes the best match.
pub open spec fn run_from(
    table: Table,
    input: Seq<u8>,
    state: int,
    i: int,
    last: Option<(usize, usize)>,
) -> Option<(usize, usize)>
    decreases input.len() - i,
{
    if i < 0 || i >= input.len() {
        last
    } else {
        let cases = table.cases(state);
        match select(cases, input[i]) {
            None => last,
            Some(k) => match cases[k].transition {
                Transition::Accept { pattern } => Some((pattern, (i + 1) as usize)),
                Transition::Continue { target, conditions } => {
                    let next = if i + 1 < input.len() {
                        Some(input[i + 1])
                    } else {
                        None
                    };
                    let noted = after_conditions(
                        table,
                        conditions,
                        next,
                        last,
                        (i + 1) as usize,
                        conditions.len() as int,
                    );
                    let arrived = match table.end(target as int) {
                        Some(pattern) => Some((pattern, (i + 1) as usize)),
                        None => noted,
                    };
                    run_from(table, input, target as int, i + 1, arrived)
                },
            },
        }
    }
}

/// The longest match of the table at the start of `input`: the pattern and
/// the number of bytes matched, `None` where nothing matches. A pattern
/// that ends at the first step matches no bytes at the least.
pub open spec fn matched(table: Table, input: Seq<u8>) -> Result<Option<(usize, usize)>, CompileError> {
    match table.first_step() {
        None => Err(CompileError::EmptyAutomaton),
        Some(first) => Ok(
            run_from(
                table,
                input,
                first as int,
                0,
                match table.end(first as int) {
                    Some(pattern) => Some((pattern, 0usize)),
                    None => None,
                },
            ),
        ),
    }
}

/// The first case of a kind that holds a byte, where there is one, holds
/// the byte and is of that kind.
pub proof fn lemma_first_case_holds(cases: Seq<Case>, byte: u8, going_on: bool, from: int)
    requires
        0 <= from,
        first_case_from(cases, byte, going_on, from) is Some,
    ensures
        ({
            let k = first_case_from(cases, byte, going_on, from)->Some_0;
            &&& from <= k < cases.len()
            &&& holds(cases[k].range, byte)
            &&& (cases[k].transition is Continue) == going_on
        }),
    decreases cases.len() - from,
{
    if from < cases.len() && !(holds(cases[from].range, byte) && (cases[from].transition is Continue)
        == going_on) {
        lemma_first_case_holds(cases, byte, going_on, from + 1);
    }
}

/// Where a case of a kind holds a byte, there is a first one.
pub proof fn lemma_first_case_exists(cases: Seq<Case>, byte: u8, going_on: bool, from: int, k: int)
    requires
        0 <= from <= k < cases.len(),
        holds(cases[k].range, byte),
        (cases[k].transition is Continue) == going_on,
    ensures
        first_case_from(cases, byte, going_on, from) is Some,
    decreases cases.len() - from,
{
    if !(holds(cases[from].range, byte) && (cases[from].transition is Continue) == going_on) {
        lemma_first_case_exists(cases, byte, going_on, from + 1, k);
    }
}

/// Looking at conditions leaves the best match as it was or makes it one
/// of `len` bytes.
pub proof fn lemma_after_conditions(
    table: Table,
    conditions: Seq<(usize, (u8, u8))>,
    next: Option<u8>,
    last: Option<(usize, usize)>,
    len: usize,
    upto: int,
)
    ensures
        ({
            let after = after_conditions(table, conditions, next, last, len, upto);
            after == last || (after is Some && after->Some_0.1 == len)
        }),
    decreases upto,
{
    if upto > 0 {
        lemma_after_conditions(table, conditions, next, last, len, upto - 1);
    }
}

/// A run matches no more bytes than the input holds.
pub proof fn lemma_run_within(
    table: Table,
    input: Seq<u8>,
    state: int,
    i: int,
    last: Option<(usize, usize)>,
)
    requires
        0 <= i <= input.len() <= usize::MAX,
        last matches Some(best) ==> best.1 <= input.len(),
    ensures
        run_from(table, input, state, i, last) matches Some(best) ==> best.1 <= input.len(),
    decreases input.len() - i,
{
    if i < input.len() {
        let cases = table.cases(state);
        match select(cases, input[i]) {
            None => {},
            Some(k) => match cases[k].transition {
                Transition::Accept { pattern } => {},
                Transition::Continue { target, conditions } => {
                    let next = if i + 1 < input.len() {
                        Some(input[i + 1])
                    } else {
                        None
                    };
                    lemma_after_conditions(
                        table,
                        conditions,
                        next,
                        last,
                        (i + 1) as usize,
                        conditions.len() as int,
                    );
                    let noted = after_conditions(
                        table,
                        conditions,
                        next,
                        last,
                        (i + 1) as usize,
                        conditions.len() as int,
                    );
                    let arrived = match table.end(target as int) {
                        Some(pattern) => Some((pattern, (i + 1) as usize)),
                        None => noted,
                    };
                    lemma_run_within(table, input, target as int, i + 1, arrived);
                },
            },
        }
    }
}

/// Whether following cases from `state`, with the first `i` bytes of
/// `input` read, can end with `pattern` matched when `n` bytes are read:
/// with no byte more, `pattern` ends at `state`; with one byte more, some
/// case of `state` whose range holds the byte accepts `pattern`; else such a
/// case goes on to a step from which the same holds. Conditions play no
/// part.
pub open spec fn accepts(
    table: Table,
    input: Seq<u8>,
    state: int,
    i: int,
    n: int,
    pattern: usize,
) -> bool
    decreases n - i,
{
    if i < 0 || n < i || n > input.len() {
        false
    } else if n == i {
        table.end(state) == Some(pattern)
    } else {
        exists|k: int|
            0 <= k < table.cases(state).len() && holds(
                (#[trigger] table.cases(state)[k]).range,
                input[i],
            ) && match table.cases(state)[k].transition {
                Transition::Accept { pattern: accepted } => n == i + 1 && accepted == pattern,
                Transition::Continue { target, conditions } => accepts(
                    table,
                    input,
                    target as int,
                    i + 1,
                    n,
                    pattern,
                ),
            }
    }
}

/// Whether `case` holds the byte at `i` and, having read it, can end with
/// `pattern` matched when `n` bytes are read.
pub open spec fn takes(table: Table, input: Seq<u8>, case: Case, i: int, n: int, pattern: usize) -> bool {
    &&& 0 <= i < n <= input.len()
    &&& holds(case.range, input[i])
    &&& match case.transition {
        Transition::Accept { pattern: accepted } => n == i + 1 && accepted == pattern,
        Transition::Continue { target, conditions } => accepts(
            table,
            input,
            target as int,
            i + 1,
            n,
            pattern,
        ),
    }
}

/// Whether no two of `cases` share a byte.
pub open spec fn disjoint_cases(cases: Seq<Case>) -> bool {
    forall|a: int, b: int|
        0 <= a < b < cases.len() ==> !crate::extend::overlaps(
            #[trigger] cases[a].range,
            #[trigger] cases[b].range,
        )
}

/// Whether no two of `cases` share a byte, and none has a condition.
pub open spec fn plain_cases(cases: Seq<Case>) -> bool {
    &&& disjoint_cases(cases)
    &&& forall|k: int|
        0 <= k < cases.len() && (#[trigger] cases[k]).transition is Continue
            ==> cases[k].transition->conditions.len() == 0
}

/// Whether the cases of every step are plain.
pub open spec fn plain(table: Table) -> bool {
    forall|s: int| plain_cases(#[trigger] table.cases(s))
}

/// Whether following cases from `state` can end with a pattern matched
/// after more than `i` bytes.
pub open spec fn accepts_beyond(table: Table, input: Seq<u8>, state: int, i: int) -> bool {
    exists|n: int, pattern: usize| n > i && #[trigger] accepts(table, input, state, i, n, pattern)
}

/// Whether `best` is the longest match that following cases from `state`
/// can end with, and the only one of its length.
pub open spec fn is_longest(
    table: Table,
    input: Seq<u8>,
    state: int,
    i: int,
    best: (usize, usize),
) -> bool {
    &&& accepts(table, input, state, i, best.1 as int, best.0)
    &&& forall|n: int, pattern: usize| #[trigger]
        accepts(table, input, state, i, n, pattern) ==> n < best.1 || (n == best.1 && pattern
            == best.0)
}

/// What is accepted after more bytes than are read is accepted through a
/// case: this gives one.
pub proof fn lemma_accepts_through(
    table: Table,
    input: Seq<u8>,
    state: int,
    i: int,
    n: int,
    pattern: usize,
) -> (k: int)
    requires
        n > i,
        accepts(table, input, state, i, n, pattern),
    ensures
        0 <= k < table.cases(state).len(),
        takes(table, input, table.cases(state)[k], i, n, pattern),
{
    choose|k: int|
        0 <= k < table.cases(state).len() && holds(
            (#[trigger] table.cases(state)[k]).range,
            input[i],
        ) && match table.cases(state)[k].transition {
            Transition::Accept { pattern: accepted } => n == i + 1 && accepted == pattern,
            Transition::Continue { target, conditions } => accepts(
                table,
                input,
                target as int,
                i + 1,
                n,
                pattern,
            ),
        }
}

/// What a case of a step takes to a match, the step accepts.
pub proof fn lemma_accepts_by(
    table: Table,
    input: Seq<u8>,
    state: int,
    i: int,
    n: int,
    pattern: usize,
    k: int,
)
    requires
        0 <= k < table.cases(state).len(),
        takes(table, input, table.cases(state)[k], i, n, pattern),
    ensures
        accepts(table, input, state, i, n, pattern),
{
}

/// Where no case of a kind holds a byte from `from` on, none of that kind
/// holds it.
pub proof fn lemma_no_first_case(cases: Seq<Case>, byte: u8, going_on: bool, from: int, k: int)
    requires
        0 <= from <= k < cases.len(),
        first_case_from(cases, byte, going_on, from) is None,
        (cases[k].transition is Continue) == going_on,
    ensures
        !holds(cases[k].range, byte),
{
    if holds(cases[k].range, byte) {
        lemma_first_case_exists(cases, byte, going_on, from, k);
    }
}

/// What a byte selects among plain cases is the one case that holds it.
pub proof fn lemma_select_plain(cases: Seq<Case>, byte: u8)
    requires
        plain_cases(cases),
    ensures
        match select(cases, byte) {
            Some(k) => 0 <= k < cases.len() && holds(cases[k].range, byte) && forall|m: int|
                0 <= m < cases.len() && holds(#[trigger] cases[m].range, byte) ==> m == k,
            None => forall|m: int| 0 <= m < cases.len() ==> !holds(#[trigger] cases[m].range, byte),
        },
{
    if first_case_from(cases, byte, true, 0) is Some {
        lemma_first_case_holds(cases, byte, true, 0);
    }
    if first_case_from(cases, byte, false, 0) is Some {
        lemma_first_case_holds(cases, byte, false, 0);
    }
    match select(cases, byte) {
        Some(k) => {
            assert forall|m: int| 0 <= m < cases.len() && holds(
                #[trigger] cases[m].range,
                byte,
            ) implies m == k by {
                if m < k {
                    assert(crate::extend::overlaps(cases[m].range, cases[k].range));
                } else if k < m {
                    assert(crate::extend::overlaps(cases[k].range, cases[m].range));
                }
            }
        },
        None => {
            assert forall|m: int| 0 <= m < cases.len() implies !holds(
                #[trigger] cases[m].range,
                byte,
            ) by {
                lemma_no_first_case(cases, byte, cases[m].transition is Continue, 0, m);
            }
        },
    }
}

/// In a plain table a run ends with the longest match that following cases
/// from its state can end with after more bytes than are read, and where
/// there is none, with the best match that it began with.
pub proof fn lemma_run_is_longest(
    table: Table,
    input: Seq<u8>,
    state: int,
    i: int,
    last: Option<(usize, usize)>,
)
    requires
        plain(table),
        0 <= i <= input.len() <= usize::MAX,
    ensures
        accepts_beyond(table, input, state, i) ==> {
            &&& run_from(table, input, state, i, last) is Some
            &&& run_from(table, input, state, i, last)->Some_0.1 > i
            &&& is_longest(table, input, state, i, run_from(table, input, state, i, last)->Some_0)
        },
        !accepts_beyond(table, input, state, i) ==> run_from(table, input, state, i, last) == last,
    decreases input.len() - i,
{
    let cases = table.cases(state);
    let result = run_from(table, input, state, i, last);
    assert(plain_cases(cases));
    if i >= input.len() {
        assert(!accepts_beyond(table, input, state, i));
    } else {
        lemma_select_plain(cases, input[i]);
        match select(cases, input[i]) {
            None => {
                assert forall|n: int, pattern: usize| n > i implies !#[trigger] accepts(
                    table,
                    input,
                    state,
                    i,
                    n,
                    pattern,
                ) by {
                    if accepts(table, input, state, i, n, pattern) {
                        let m = lemma_accepts_through(table, input, state, i, n, pattern);
                        assert(holds(cases[m].range, input[i]));
                    }
                }
            },
            Some(k) => {
                // Whatever is accepted beyond `i` is accepted through case `k`.
                assert forall|n: int, pattern: usize| n > i && #[trigger] accepts(
                    table,
                    input,
                    state,
                    i,
                    n,
                    pattern,
                ) implies takes(table, input, cases[k], i, n, pattern) by {
                    let m = lemma_accepts_through(table, input, state, i, n, pattern);
                    assert(holds(cases[m].range, input[i]));
                    assert(m == k);
                }
                match cases[k].transition {
                    Transition::Accept { pattern } => {
                        assert(takes(table, input, cases[k], i, i + 1, pattern));
                        lemma_accepts_by(table, input, state, i, i + 1, pattern, k);
                        assert(result == Some((pattern, (i + 1) as usize)));
                        assert forall|n: int, other: usize| #[trigger]
                            accepts(table, input, state, i, n, other) implies n < i + 1 || (n == i
                            + 1 && other == pattern) by {
                            if n > i {
                                assert(takes(table, input, cases[k], i, n, other));
                            }
                        }
                    },
                    Transition::Continue { target, conditions } => {
                        assert(conditions.len() == 0);
                        let next = if i + 1 < input.len() {
                            Some(input[i + 1])
                        } else {
                            None
                        };
                        let noted = after_conditions(
                            table,
                            conditions,
                            next,
                            last,
                            (i + 1) as usize,
                            conditions.len() as int,
                        );
                        assert(noted == last);
                        let arrived = match table.end(target as int) {
                            Some(pattern) => Some((pattern, (i + 1) as usize)),
                            None => noted,
                        };
                        assert(result == run_from(table, input, target as int, i + 1, arrived));
                        lemma_run_is_longest(table, input, target as int, i + 1, arrived);
                        // Acceptance from here beyond `i` is acceptance from the target.
                        assert forall|n: int, other: usize| n > i implies (#[trigger] accepts(
                            table,
                            input,
                            state,
                            i,
                            n,
                            other,
                        ) <==> accepts(table, input, target as int, i + 1, n, other)) by {
                            if accepts(table, input, target as int, i + 1, n, other) {
                                assert(takes(table, input, cases[k], i, n, other));
                                lemma_accepts_by(table, input, state, i, n, other, k);
                            }
                            if accepts(table, input, state, i, n, other) {
                                assert(takes(table, input, cases[k], i, n, other));
                            }
                        }
                        if accepts_beyond(table, input, target as int, i + 1) {
                            let (n, other) = choose|n: int, other: usize|
                                n > i + 1 && #[trigger] accepts(
                                    table,
                                    input,
                                    target as int,
                                    i + 1,
                                    n,
                                    other,
                                );
                            assert(accepts(table, input, state, i, n, other));
                            let best = result->Some_0;
                            assert(accepts(table, input, state, i, best.1 as int, best.0));
                            assert forall|m: int, p: usize| #[trigger]
                                accepts(table, input, state, i, m, p) implies m < best.1 || (m
                                == best.1 && p == best.0) by {
                                if m > i {
                                    assert(accepts(table, input, target as int, i + 1, m, p));
                                }
                            }
                        } else {
                            assert(result == arrived);
                            match table.end(target as int) {
                                Some(pattern) => {
                                    assert(accepts(table, input, target as int, i + 1, i + 1, pattern));
                                    assert(accepts(table, input, state, i, i + 1, pattern));
                                    assert forall|m: int, p: usize| #[trigger]
                                        accepts(table, input, state, i, m, p) implies m < i + 1 || (
                                    m == i + 1 && p == pattern) by {
                                        if m > i {
                                            assert(accepts(table, input, target as int, i + 1, m, p));
                                            if m > i + 1 {
                                                assert(accepts_beyond(
                                                    table,
                                                    input,
                                                    target as int,
                                                    i + 1,
                                                ));
                                            }
                                        }
                                    }
                                },
                                None => {
                                    assert forall|m: int, p: usize| m > i implies !#[trigger] accepts(
                                        table,
                                        input,
                                        state,
                                        i,
                                        m,
                                        p,
                                    ) by {
                                        if accepts(table, input, state, i, m, p) {
                                            assert(accepts(table, input, target as int, i + 1, m, p));
                                            if m > i + 1 {
                                                assert(accepts_beyond(
                                                    table,
                                                    input,
                                                    target as int,
                                                    i + 1,
                                                ));
                                            }
                                        }
                                    }
                                },
                            }
                        }
                    },
                }
            },
        }
    }
}

/// Finds the first case of the wanted kind whose range holds `byte`.
fn find_case(cases: &Vec<StepCase>, byte: u8, going_on: bool) -> (r: Option<usize>)
    ensures
        match r {
            Some(k) => first_case_from(view_cases(cases@), byte, going_on, 0) == Some(k as int) && k
                < cases.len(),
            None => first_case_from(view_cases(cases@), byte, going_on, 0) is None,
        },
{
    let mut k: usize = 0;
    while k < cases.len()
        invariant
            k <= cases.len(),
            first_case_from(view_cases(cases@), byte, going_on, 0) == first_case_from(
                view_cases(cases@),
                byte,
                going_on,
                k as int,
            ),
        decreases cases.len() - k,
    {
        let case = &cases[k];
        assert(view_cases(cases@)[k as int] == case@);
        let goes_on = match &case.next_case {
            CasePattern::Step(_, _) => true,
            CasePattern::Match(_) => false,
        };
        if case.byte_range.0 <= byte && byte <= case.byte_range.1 && goes_on == going_on {
            return Some(k);
        }
        k += 1;
    }
    None
}

impl StateMachine {
    /// Runs the machine on `input` and returns the longest match at its
    /// start: the index of the pattern and the number of bytes matched.
    pub fn find(&self, input: &[u8]) -> (r: Result<Option<(usize, usize)>, CompileError>)
        ensures
            r == matched(self@, input@),
            r matches Ok(Some(best)) ==> best.1 <= input@.len(),
    {
        let first = match self.first_step() {
            Ok(step) => step,
            Err(e) => {
                return Err(e);
            },
        };
        let mut last: Option<(usize, usize)> = match self.end_of(first) {
            Some(pattern) => Some((pattern, 0)),
            None => None,
        };
        let mut state: usize = first;
        let mut i: usize = 0;
        let n = input.len();
        proof {
            lemma_run_within(self@, input@, first as int, 0, last);
        }
        while i < input.len()
            invariant
                i <= input.len(),
                matched(self@, input@) matches Ok(Some(best)) ==> best.1 <= input@.len(),
                matched(self@, input@) == Ok::<Option<(usize, usize)>, CompileError>(
                    run_from(self@, input@, state as int, i as int, last),
                ),
            decreases input.len() - i,
        {
            let cases = if state < self.steps.len() {
                match &self.steps[state] {
                    Some(cases) => cases,
                    None => {
                        assert(self@.cases(state as int).len() == 0);
                        return Ok(last);
                    },
                }
            } else {
                assert(self@.cases(state as int).len() == 0);
                return Ok(last);
            };
            assert(self@.cases(state as int) == view_cases(cases@));
            let byte = input[i];
            let chosen = match find_case(cases, byte, true) {
                Some(k) => Some(k),
                None => find_case(cases, byte, false),
            };
            let k = match chosen {
                Some(k) => k,
                None => {
                    return Ok(last);
                },
            };
            assert(view_cases(cases@)[k as int] == cases@[k as int]@);
            match &cases[k].next_case {
                CasePattern::Match(pattern) => {
                    return Ok(Some((*pattern, i + 1)));
                },
                CasePattern::Step(target, conditions) => {
                    let next = if i + 1 < input.len() {
                        Some(input[i + 1])
                    } else {
                        None
                    };
                    let ghost before = last;
                    let mut c: usize = 0;
                    while c < conditions.len()
                        invariant
                            c <= conditions.len(),
                            i < input.len(),
                            last == after_conditions(
                                self@,
                                conditions@,
                                next,
                                before,
                                (i + 1) as usize,
                                c as int,
                            ),
                        decreases conditions.len() - c,
                    {
                        let (step, range) = conditions[c];
                        if let Some(byte) = next {
                            if let Some(pattern) = self.end_of(step) {
                                if range.0 <= byte && byte <= range.1 {
                                    last = Some((pattern, i + 1));
                                }
                            }
                        }
                        c += 1;
                    }
                    if let Some(pattern) = self.end_of(*target) {
                        last = Some((pattern, i + 1));
                    }
                    state = *target;
                },
            }
            i += 1;
        }
        Ok(last)
    }
}

} // verus!

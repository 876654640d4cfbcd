//! A matcher that tries every way through a program, and what the tables
//! of unambiguous programs have in common with it.

use vstd::prelude::*;
use crate::parse::{
    byte_of, lemma_unvisited_shrinks, match_at, records, resolve, split_end, step_cases,
    unvisited, Case, Transition,
};
use crate::program::{gotos_below, lemma_skip_within_in_range, skip, valid_program, Instruction};
use crate::run::{accepts, holds, lemma_accepts_by, lemma_accepts_through, takes};
use crate::Table;

verus! {

/// Whether some of `ranges` holds `byte`, each end taken as a byte.
pub open spec fn some_range_holds(ranges: Seq<(char, char)>, byte: u8) -> bool {
    exists|r: int|
        0 <= r < ranges.len() && holds(
            (byte_of((#[trigger] ranges[r]).0), byte_of(ranges[r].1)),
            byte,
        )
}

/// Whether trying every way through the program from `pc`, with the first
/// `i` bytes of `input` read, reaches the match of `pattern` with `n` bytes
/// read. A `Save` is passed over wherever an instruction points to one. A
/// `Split` that is met again before a byte is read is not entered a second
/// time: `path` holds the ones entered since the last byte.
pub open spec fn tries(
    insts: Seq<Instruction>,
    input: Seq<u8>,
    pc: int,
    i: int,
    n: int,
    pattern: usize,
    path: Set<int>,
) -> bool
    decreases n - i, unvisited(insts.len(), path),
{
    if !(0 <= pc < insts.len()) || path.contains(pc) || i < 0 || n < i || n > input.len() {
        false
    } else {
        match insts[pc] {
            Instruction::Match(matched) => n == i && matched == pattern,
            Instruction::Split { goto1, goto2 } => {
                let inner = path.insert(pc);
                proof {
                    lemma_unvisited_shrinks(insts.len(), path, pc);
                }
                tries(insts, input, skip(insts, goto1 as int), i, n, pattern, inner) || tries(
                    insts,
                    input,
                    skip(insts, goto2 as int),
                    i,
                    n,
                    pattern,
                    inner,
                )
            },
            Instruction::Bytes { start, end, goto } => i < n && holds((start, end), input[i])
                && tries(insts, input, skip(insts, goto as int), i + 1, n, pattern, Set::empty()),
            Instruction::Char { c, goto } => i < n && holds((byte_of(c), byte_of(c)), input[i])
                && tries(insts, input, skip(insts, goto as int), i + 1, n, pattern, Set::empty()),
            Instruction::Ranges { ranges, goto } => i < n && some_range_holds(ranges@, input[i])
                && tries(insts, input, skip(insts, goto as int), i + 1, n, pattern, Set::empty()),
            Instruction::Save { goto } => false,
            Instruction::EmptyLook { goto } => false,
        }
    }
}

/// Whether every position of `path` holds a `Split`.
pub open spec fn splits_only(insts: Seq<Instruction>, path: Set<int>) -> bool {
    forall|x: int| path.contains(x) ==> 0 <= x < insts.len() && insts[x] is Split
}

/// The pattern that a `Split` is found to end is one that trying every way
/// reaches without a byte more.
pub proof fn lemma_split_end_tries(
    insts: Seq<Instruction>,
    input: Seq<u8>,
    p: int,
    i: int,
    path: Set<int>,
)
    requires
        valid_program(insts),
        0 <= i <= input.len(),
        splits_only(insts, path),
        split_end(insts, p, path) is Some,
    ensures
        tries(insts, input, p, i, i, split_end(insts, p, path)->Some_0, path),
    decreases unvisited(insts.len(), path),
{
    let pattern = split_end(insts, p, path)->Some_0;
    match insts[p] {
        Instruction::Split { goto1, goto2 } => {
            let first_at = skip(insts, goto1 as int);
            let second_at = skip(insts, goto2 as int);
            let inner = path.insert(p);
            lemma_unvisited_shrinks(insts.len(), path, p);
            lemma_skip_within_in_range(insts, goto1 as int, insts.len());
            lemma_skip_within_in_range(insts, goto2 as int, insts.len());
            assert(splits_only(insts, inner));
            if split_end(insts, first_at, inner) is Some {
                lemma_split_end_tries(insts, input, first_at, i, inner);
            } else if split_end(insts, second_at, inner) is Some {
                lemma_split_end_tries(insts, input, second_at, i, inner);
            } else if match_at(insts, second_at) is Some {
                assert(!inner.contains(second_at));
                assert(tries(insts, input, second_at, i, i, pattern, inner));
            } else {
                assert(!inner.contains(first_at));
                assert(tries(insts, input, first_at, i, i, pattern, inner));
            }
        },
        _ => {},
    }
}

/// Where trying every way from a `Split` reaches a match without a byte
/// more, the `Split` is found to end a pattern.
pub proof fn lemma_tries_split_end(
    insts: Seq<Instruction>,
    input: Seq<u8>,
    p: int,
    i: int,
    pattern: usize,
    path: Set<int>,
)
    requires
        valid_program(insts),
        tries(insts, input, p, i, i, pattern, path),
        insts[p] is Split,
    ensures
        split_end(insts, p, path) is Some,
    decreases unvisited(insts.len(), path),
{
    match insts[p] {
        Instruction::Split { goto1, goto2 } => {
            let first_at = skip(insts, goto1 as int);
            let second_at = skip(insts, goto2 as int);
            let inner = path.insert(p);
            lemma_unvisited_shrinks(insts.len(), path, p);
            if tries(insts, input, first_at, i, i, pattern, inner) {
                if insts[first_at] is Split {
                    lemma_tries_split_end(insts, input, first_at, i, pattern, inner);
                } else {
                    assert(insts[first_at] is Match);
                }
            } else {
                assert(tries(insts, input, second_at, i, i, pattern, inner));
                if insts[second_at] is Split {
                    lemma_tries_split_end(insts, input, second_at, i, pattern, inner);
                } else {
                    assert(insts[second_at] is Match);
                }
            }
        },
        _ => {},
    }
}

/// Whether following cases from `state` can end with some pattern matched
/// when `n` bytes are read.
pub open spec fn accepts_some(table: Table, input: Seq<u8>, state: int, i: int, n: int) -> bool {
    exists|pattern: usize| accepts(table, input, state, i, n, pattern)
}

/// What a case of a step of the program takes to a match, trying every way
/// from the step reaches, if it reaches whatever the table accepts after
/// the byte.
pub proof fn lemma_cases_sound(
    insts: Seq<Instruction>,
    input: Seq<u8>,
    table: Table,
    p: int,
    i: int,
    n: int,
    pattern: usize,
    path: Set<int>,
    k: int,
)
    requires
        valid_program(insts),
        insts.len() <= usize::MAX,
        0 <= i < n <= input.len(),
        step_cases(insts, p, path) is Ok,
        0 <= k < step_cases(insts, p, path)->Ok_0.len(),
        takes(table, input, step_cases(insts, p, path)->Ok_0[k], i, n, pattern),
        forall|q: int, other: usize|
            0 <= q < insts.len() && #[trigger] accepts(table, input, q, i + 1, n, other) ==> tries(
                insts,
                input,
                q,
                i + 1,
                n,
                other,
                Set::empty(),
            ),
    ensures
        tries(insts, input, p, i, n, pattern, path),
    decreases unvisited(insts.len(), path),
{
    let cases = step_cases(insts, p, path)->Ok_0;
    assert(0 <= p < insts.len() && !path.contains(p));
    assert(gotos_below(insts[p], insts.len() as int));
    match insts[p] {
        Instruction::Split { goto1, goto2 } => {
            let inner = path.insert(p);
            lemma_unvisited_shrinks(insts.len(), path, p);
            let first = step_cases(insts, skip(insts, goto1 as int), inner)->Ok_0;
            let second = step_cases(insts, skip(insts, goto2 as int), inner)->Ok_0;
            assert(cases == first + second);
            if k < first.len() {
                assert(cases[k] == first[k]);
                lemma_cases_sound(insts, input, table, skip(insts, goto1 as int), i, n, pattern, inner, k);
            } else {
                assert(cases[k] == second[k - first.len()]);
                lemma_cases_sound(
                    insts,
                    input,
                    table,
                    skip(insts, goto2 as int),
                    i,
                    n,
                    pattern,
                    inner,
                    k - first.len(),
                );
            }
        },
        Instruction::Bytes { start, end, goto } => {
            lemma_follows_sound(insts, input, table, goto as int, i, n, pattern, cases[k]);
        },
        Instruction::Char { c, goto } => {
            lemma_follows_sound(insts, input, table, goto as int, i, n, pattern, cases[k]);
        },
        Instruction::Ranges { ranges, goto } => {
            lemma_follows_sound(insts, input, table, goto as int, i, n, pattern, cases[k]);
            assert(holds((byte_of(ranges@[k].0), byte_of(ranges@[k].1)), input[i]));
        },
        _ => {},
    }
}

/// The same for what follows the byte of one instruction.
pub proof fn lemma_follows_sound(
    insts: Seq<Instruction>,
    input: Seq<u8>,
    table: Table,
    goto: int,
    i: int,
    n: int,
    pattern: usize,
    case: Case,
)
    requires
        valid_program(insts),
        insts.len() <= usize::MAX,
        0 <= i < n <= input.len(),
        0 <= goto < insts.len(),
        case.transition == resolve(insts, goto),
        takes(table, input, case, i, n, pattern),
        forall|q: int, other: usize|
            0 <= q < insts.len() && #[trigger] accepts(table, input, q, i + 1, n, other) ==> tries(
                insts,
                input,
                q,
                i + 1,
                n,
                other,
                Set::empty(),
            ),
    ensures
        tries(insts, input, skip(insts, goto), i + 1, n, pattern, Set::empty()),
{
    let at = skip(insts, goto);
    lemma_skip_within_in_range(insts, goto, insts.len());
    if !(insts[at] is Match) {
        assert(accepts(table, input, at, i + 1, n, pattern));
    }
}

/// Where trying every way from a step of the program reaches a match after
/// a byte more at least, a case of the step takes the byte to a match, if
/// the table accepts wherever trying every way reaches a match after the
/// byte.
pub proof fn lemma_cases_complete(
    insts: Seq<Instruction>,
    input: Seq<u8>,
    table: Table,
    p: int,
    i: int,
    n: int,
    pattern: usize,
    path: Set<int>,
) -> (found: (int, usize))
    requires
        valid_program(insts),
        insts.len() <= usize::MAX,
        0 <= i < n <= input.len(),
        step_cases(insts, p, path) is Ok,
        tries(insts, input, p, i, n, pattern, path),
        forall|q: int, other: usize|
            0 <= q < insts.len() && #[trigger] tries(insts, input, q, i + 1, n, other, Set::empty())
                ==> accepts_some(table, input, q, i + 1, n),
    ensures
        0 <= found.0 < step_cases(insts, p, path)->Ok_0.len(),
        takes(table, input, step_cases(insts, p, path)->Ok_0[found.0], i, n, found.1),
    decreases unvisited(insts.len(), path),
{
    let cases = step_cases(insts, p, path)->Ok_0;
    assert(gotos_below(insts[p], insts.len() as int));
    match insts[p] {
        Instruction::Split { goto1, goto2 } => {
            let inner = path.insert(p);
            lemma_unvisited_shrinks(insts.len(), path, p);
            let first = step_cases(insts, skip(insts, goto1 as int), inner)->Ok_0;
            let second = step_cases(insts, skip(insts, goto2 as int), inner)->Ok_0;
            assert(cases == first + second);
            if tries(insts, input, skip(insts, goto1 as int), i, n, pattern, inner) {
                let found = lemma_cases_complete(
                    insts,
                    input,
                    table,
                    skip(insts, goto1 as int),
                    i,
                    n,
                    pattern,
                    inner,
                );
                assert(cases[found.0] == first[found.0]);
                found
            } else {
                let found = lemma_cases_complete(
                    insts,
                    input,
                    table,
                    skip(insts, goto2 as int),
                    i,
                    n,
                    pattern,
                    inner,
                );
                assert(cases[found.0 + first.len()] == second[found.0]);
                (found.0 + first.len(), found.1)
            }
        },
        Instruction::Bytes { start, end, goto } => {
            let other = lemma_follows_complete(insts, input, table, goto as int, i, n, pattern);
            (0, other)
        },
        Instruction::Char { c, goto } => {
            let other = lemma_follows_complete(insts, input, table, goto as int, i, n, pattern);
            (0, other)
        },
        Instruction::Ranges { ranges, goto } => {
            let other = lemma_follows_complete(insts, input, table, goto as int, i, n, pattern);
            let r = choose|r: int|
                0 <= r < ranges@.len() && holds(
                    (byte_of((#[trigger] ranges@[r]).0), byte_of(ranges@[r].1)),
                    input[i],
                );
            (r, other)
        },
        _ => (0, pattern),
    }
}

/// The same for what follows the byte of one instruction: the pattern that
/// the table accepts after it.
pub proof fn lemma_follows_complete(
    insts: Seq<Instruction>,
    input: Seq<u8>,
    table: Table,
    goto: int,
    i: int,
    n: int,
    pattern: usize,
) -> (other: usize)
    requires
        valid_program(insts),
        insts.len() <= usize::MAX,
        0 <= i < n <= input.len(),
        0 <= goto < insts.len(),
        tries(insts, input, skip(insts, goto), i + 1, n, pattern, Set::empty()),
        forall|q: int, other: usize|
            0 <= q < insts.len() && #[trigger] tries(insts, input, q, i + 1, n, other, Set::empty())
                ==> accepts_some(table, input, q, i + 1, n),
    ensures
        match resolve(insts, goto) {
            Transition::Accept { pattern: accepted } => n == i + 1 && accepted == other,
            Transition::Continue { target, conditions } => accepts(
                table,
                input,
                target as int,
                i + 1,
                n,
                other,
            ),
        },
{
    let at = skip(insts, goto);
    lemma_skip_within_in_range(insts, goto, insts.len());
    if insts[at] is Match {
        pattern
    } else {
        let j = i + 1;
        assert(accepts_some(table, input, at, j, n));
        choose|other: usize| accepts(table, input, at, j, n, other)
    }
}

/// What the table built from a program accepts, trying every way through
/// the program reaches.
pub proof fn lemma_table_sound(
    insts: Seq<Instruction>,
    input: Seq<u8>,
    table: Table,
    q: int,
    i: int,
    n: int,
    pattern: usize,
)
    requires
        valid_program(insts),
        insts.len() <= usize::MAX,
        records(table, insts, insts.len()),
        0 <= q < insts.len(),
        accepts(table, input, q, i, n, pattern),
    ensures
        tries(insts, input, q, i, n, pattern, Set::empty()),
    decreases n - i,
{
    if n == i {
        assert(table.has_step(q));
        match insts[q] {
            Instruction::Split { goto1, goto2 } => {
                assert(splits_only(insts, Set::empty()));
                lemma_split_end_tries(insts, input, q, i, Set::empty());
            },
            _ => {},
        }
    } else {
        let k = lemma_accepts_through(table, input, q, i, n, pattern);
        assert(table.has_step(q));
        let j = i + 1;
        assert forall|at: int, other: usize|
            0 <= at < insts.len() && #[trigger] accepts(table, input, at, j, n, other) implies tries(
            insts,
            input,
            at,
            j,
            n,
            other,
            Set::empty(),
        ) by {
            lemma_table_sound(insts, input, table, at, j, n, other);
        }
        lemma_cases_sound(insts, input, table, q, i, n, pattern, Set::empty(), k);
    }
}

/// Where trying every way through a program reaches a match, the table
/// built from the program accepts some pattern after as many bytes.
pub proof fn lemma_table_complete(
    insts: Seq<Instruction>,
    input: Seq<u8>,
    table: Table,
    q: int,
    i: int,
    n: int,
    pattern: usize,
)
    requires
        valid_program(insts),
        insts.len() <= usize::MAX,
        records(table, insts, insts.len()),
        0 <= q < insts.len(),
        tries(insts, input, q, i, n, pattern, Set::empty()),
    ensures
        accepts_some(table, input, q, i, n),
    decreases n - i,
{
    assert(skip(insts, q) == q);
    assert(crate::parse::significant(insts, q, insts.len()));
    assert(table.has_step(q));
    if n == i {
        match insts[q] {
            Instruction::Split { goto1, goto2 } => {
                lemma_tries_split_end(insts, input, q, i, pattern, Set::empty());
                let ended = split_end(insts, q, Set::empty())->Some_0;
                assert(accepts(table, input, q, i, n, ended));
            },
            Instruction::Match(matched) => {
                assert(accepts(table, input, q, i, n, matched));
            },
            _ => {},
        }
    } else {
        let j = i + 1;
        assert forall|at: int, other: usize|
            0 <= at < insts.len() && #[trigger] tries(
                insts,
                input,
                at,
                j,
                n,
                other,
                Set::empty(),
            ) implies accepts_some(table, input, at, j, n) by {
            lemma_table_complete(insts, input, table, at, j, n, other);
        }
        let found = lemma_cases_complete(insts, input, table, q, i, n, pattern, Set::empty());
        lemma_accepts_by(table, input, q, i, n, found.1, found.0);
    }
}

} // verus!

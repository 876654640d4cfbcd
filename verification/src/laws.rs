//! What holds of every compilation, stated over the tables themselves.

use vstd::prelude::*;
use crate::check::{
    lemma_first_step_is_step, lemma_none_unresolved, lemma_step_has_first, step_resolved,
};
use crate::compact::{
    dense, lemma_compact_at, lemma_compact_len, lemma_compacted_accepts, lemma_compacted_closed,
    lemma_compacted_dense, lemma_compacted_plain, lemma_dense_compact, lemma_first_step_rank,
    lemma_rank_bound,
};
use crate::reference::{accepts_some, lemma_table_complete, lemma_table_sound, tries};
use crate::error::CompileError;
use crate::extend::{
    lemma_resolve_from_closed, lemma_resolve_from_disjoint, overlaps, Resolution,
};
use crate::parse::{
    build, end_at, from_program, lemma_build_grounded, lemma_grounded_closed, parsed, records,
    significant, step_cases, Case,
};
use crate::program::{lemma_skip_within_in_range, skip, valid_program, Instruction};
use crate::run::{
    accepts, accepts_beyond, disjoint_cases, first_case_from, holds, is_longest,
    lemma_first_case_exists, lemma_first_case_holds, lemma_run_is_longest, matched, plain,
    plain_cases, select,
};
use crate::{compiled, compiles_to, StateMachine, Table};

verus! {

/// A build from an empty table that succeeds records, for every position
/// that holds a significant instruction, the cases of that position and the
/// pattern that ends there, and nothing else.
pub proof fn build_records_significant_positions(insts: Seq<Instruction>, k: nat)
    requires
        valid_program(insts),
        k <= insts.len(),
        build(Table::empty(), insts, k) is Ok,
    ensures
        records(build(Table::empty(), insts, k)->Ok_0, insts, k),
    decreases k,
{
    let table = build(Table::empty(), insts, k)->Ok_0;
    if k == 0 {
        assert forall|p: int| !(#[trigger] table.has_step(p)) by {}
    } else {
        let before = build(Table::empty(), insts, (k - 1) as nat)->Ok_0;
        build_records_significant_positions(insts, (k - 1) as nat);
        let at = skip(insts, k - 1);
        lemma_skip_within_in_range(insts, k - 1, insts.len());
        assert(significant(insts, at, k));
        assert forall|p: int|
            {
                &&& #[trigger] table.has_step(p) <==> significant(insts, p, k)
                &&& table.has_step(p) ==> step_cases(insts, p, Set::empty()) == Ok::<
                    Seq<Case>,
                    CompileError,
                >(table.cases(p))
                &&& table.end(p) == if table.has_step(p) {
                    end_at(insts, p)
                } else {
                    None
                }
            } by {
            assert(before.has_step(p) <==> significant(insts, p, (k - 1) as nat));
            if significant(insts, p, (k - 1) as nat) {
                let q = choose|q: int| 0 <= q < k - 1 && #[trigger] skip(insts, q) == p;
                assert(0 <= q < k && skip(insts, q) == p);
            }
            if significant(insts, p, k) && p != at {
                let q = choose|q: int| 0 <= q < k && #[trigger] skip(insts, q) == p;
                assert(0 <= q < k - 1 && skip(insts, q) == p);
            }
            if !before.has_step(at) {
                assert(before.end(at) is None);
                if p != at {
                    assert(table.has_step(p) == before.has_step(p));
                    assert(table.cases(p) == before.cases(p));
                    assert(table.end(p) == before.end(p));
                }
            }
        }
    }
}

/// Compiling is a function of the program: of two outcomes of compiling
/// the same instructions, either both are machines with the same steps,
/// cases and ends, or both are the same error.
pub proof fn compilation_is_deterministic(
    insts: Seq<Instruction>,
    first: Result<StateMachine, CompileError>,
    second: Result<StateMachine, CompileError>,
)
    requires
        compiles_to(insts, first),
        compiles_to(insts, second),
    ensures
        match (first, second) {
            (Ok(a), Ok(b)) => a@ == b@,
            (Err(a), Err(b)) => a == b,
            _ => false,
        },
{
}

/// In a compiled table, every two cases of a step that the first step
/// reaches claim no common byte, or a condition of one of them, for a step
/// other than the one it goes on to, holds every byte that they share.
pub proof fn compiled_steps_are_resolved(insts: Seq<Instruction>, step: int)
    requires
        compiled(insts) is Ok,
        compiled(insts)->Ok_0.first_step() is Some,
        compiled(insts)->Ok_0.reachable(compiled(insts)->Ok_0.first_step()->Some_0 as int, step),
    ensures
        step_resolved(compiled(insts)->Ok_0.cases(step)),
{
    let table = compiled(insts)->Ok_0;
    let first = table.first_step()->Some_0 as int;
    if 0 <= step {
        lemma_none_unresolved(table, first, 0, step);
    } else {
        assert(table.cases(step).len() == 0);
    }
}

/// In a closed table, whatever is reached from a step by going on is a
/// step: no case leads out of the table.
pub proof fn reached_steps_exist(table: Table, from: int, to: int, hops: nat)
    requires
        table.closed(),
        table.has_step(from),
        table.reaches(from, to, hops),
    ensures
        table.has_step(to),
    decreases hops,
{
    if hops > 0 {
        let via = choose|via: int|
            table.reaches(from, via, (hops - 1) as nat) && #[trigger] table.edge(via, to);
        reached_steps_exist(table, from, via, (hops - 1) as nat);
        let k = choose|k: int|
            0 <= k < table.cases(via).len() && crate::check::goes_to(
                #[trigger] table.cases(via)[k],
                to,
            );
        assert(table.links(table.cases(via)[k]));
    }
}

/// The table compiled from a valid program is closed: every step that a
/// case or a condition names, and every step at which a pattern ends, is a
/// step of the table.
pub proof fn compiled_is_closed(insts: Seq<Instruction>)
    requires
        valid_program(insts),
        insts.len() <= usize::MAX,
        compiled(insts) is Ok,
    ensures
        compiled(insts)->Ok_0.closed(),
{
    let built = build(Table::empty(), insts, insts.len())->Ok_0;
    lemma_build_grounded(Table::empty(), insts, insts.len());
    lemma_grounded_closed(built, insts);
    let first = built.first_step()->Some_0;
    lemma_resolve_from_closed(
        Resolution { table: built, done: Set::empty() },
        built.steps.len(),
        first,
        built.cases(first as int),
        0,
        1,
    );
    let resolved = parsed(Table::empty(), insts)->Ok_0;
    lemma_compacted_closed(resolved);
}

/// In the table compiled from a valid program the steps are the numbers
/// below their count: every identifier is a step, and the first step is 0.
pub proof fn compiled_is_dense(insts: Seq<Instruction>)
    requires
        valid_program(insts),
        insts.len() <= usize::MAX,
        compiled(insts) is Ok,
    ensures
        dense(compiled(insts)->Ok_0),
        forall|s: int|
            0 <= s < compiled(insts)->Ok_0.steps.len() ==> #[trigger] compiled(insts)->Ok_0.has_step(s),
        compiled(insts)->Ok_0.first_step() == Some(0usize),
{
    let resolved = parsed(Table::empty(), insts)->Ok_0;
    let table = compiled(insts)->Ok_0;
    compiled_is_closed(insts);
    lemma_compacted_dense(resolved);
    assert forall|s: int| 0 <= s < table.steps.len() implies #[trigger] table.has_step(s) by {
        assert(table.is_id(s));
        if table.end(s) is Some {
            assert(table.has_step(s));
        }
    }
    let built = build(Table::empty(), insts, insts.len())->Ok_0;
    lemma_build_grounded(Table::empty(), insts, insts.len());
    lemma_grounded_closed(built, insts);
    lemma_resolve_from_closed(
        Resolution { table: built, done: Set::empty() },
        built.steps.len(),
        built.first_step()->Some_0,
        built.cases(built.first_step()->Some_0 as int),
        0,
        1,
    );
    lemma_first_step_is_step(resolved.steps, 0);
    let first = resolved.first_step()->Some_0 as int;
    lemma_compact_at(resolved, resolved.bound(), first);
    assert(table.steps.len() > 0);
    assert(table.has_step(0));
}

/// Where no two cases of a step share a byte, a byte selects the one case
/// whose range holds it.
pub proof fn select_takes_the_only_case(cases: Seq<Case>, byte: u8, k: int)
    requires
        forall|i: int, j: int|
            0 <= i < j < cases.len() ==> !overlaps(#[trigger] cases[i].range, #[trigger] cases[j].range),
        0 <= k < cases.len(),
        holds(cases[k].range, byte),
    ensures
        select(cases, byte) == Some(k),
{
    let going_on = cases[k].transition is Continue;
    lemma_first_case_exists(cases, byte, going_on, 0, k);
    if first_case_from(cases, byte, true, 0) is Some {
        lemma_first_case_holds(cases, byte, true, 0);
    }
    if first_case_from(cases, byte, false, 0) is Some {
        lemma_first_case_holds(cases, byte, false, 0);
    }
    let chosen = select(cases, byte)->Some_0;
    if chosen < k {
        assert(overlaps(cases[chosen].range, cases[k].range));
    } else if k < chosen {
        assert(overlaps(cases[k].range, cases[chosen].range));
    }
}

/// On a table in which no two cases of a step share a byte and no case has
/// a condition, the match that a run from the first step gives is the
/// longest with which following cases from the first step can end, and the
/// only one of its length; it gives none where following cases ends with
/// none.
pub proof fn plain_run_is_longest(table: Table, input: Seq<u8>)
    requires
        plain(table),
        input.len() <= usize::MAX,
        table.first_step() is Some,
    ensures
        match matched(table, input) {
            Ok(Some(best)) => is_longest(
                table,
                input,
                table.first_step()->Some_0 as int,
                0,
                best,
            ),
            Ok(None) => forall|n: int, pattern: usize|
                !#[trigger] accepts(table, input, table.first_step()->Some_0 as int, 0, n, pattern),
            Err(_) => false,
        },
{
    let first = table.first_step()->Some_0 as int;
    let begun = match table.end(first) {
        Some(pattern) => Some((pattern, 0usize)),
        None => None,
    };
    lemma_run_is_longest(table, input, first, 0, begun);
    if !accepts_beyond(table, input, first, 0) {
        assert forall|n: int, pattern: usize| n > 0 implies !#[trigger] accepts(
            table,
            input,
            first,
            0,
            n,
            pattern,
        ) by {}
    }
}

/// Where no step of a valid program has two cases that share a byte, the
/// table compiled from it is plain: the resolver finds nothing to do, and
/// compaction changes no range and adds no condition.
pub proof fn compiled_is_plain(insts: Seq<Instruction>)
    requires
        valid_program(insts),
        insts.len() <= usize::MAX,
        compiled(insts) is Ok,
        forall|p: int|
            0 <= p < insts.len() && (#[trigger] step_cases(insts, p, Set::empty())) is Ok
                ==> disjoint_cases(step_cases(insts, p, Set::empty())->Ok_0),
    ensures
        plain(compiled(insts)->Ok_0),
        parsed(Table::empty(), insts) == build(Table::empty(), insts, insts.len()),
{
    let built = build(Table::empty(), insts, insts.len())->Ok_0;
    build_records_significant_positions(insts, insts.len());
    lemma_build_grounded(Table::empty(), insts, insts.len());
    assert forall|s: int| plain_cases(#[trigger] built.cases(s)) by {
        if built.has_step(s) {
            let cases = built.cases(s);
            assert(step_cases(insts, s, Set::empty()) == Ok::<Seq<Case>, CompileError>(cases));
            assert forall|k: int|
                0 <= k < cases.len() && (#[trigger] cases[k]).transition is Continue implies cases[k].transition->conditions.len()
                == 0 by {
                assert(from_program(insts, built.cases(s)[k]));
            }
        }
    }
    let first = built.first_step()->Some_0;
    lemma_resolve_from_disjoint(
        Resolution { table: built, done: Set::empty() },
        built.steps.len(),
        first,
        built.cases(first as int),
        0,
        1,
    );
    lemma_compacted_plain(built);
}

/// Where no step of a valid program has two cases that share a byte, a run
/// of the machine compiled from it agrees with trying every way through the
/// program from its first significant position: the match that the run
/// gives is one that trying every way reaches, none that it reaches has
/// more bytes, and the run gives no match where trying every way reaches
/// none.
pub proof fn unambiguous_run_agrees_with_trying_every_way(
    insts: Seq<Instruction>,
    input: Seq<u8>,
)
    requires
        valid_program(insts),
        insts.len() <= usize::MAX,
        input.len() <= usize::MAX,
        compiled(insts) is Ok,
        forall|p: int|
            0 <= p < insts.len() && (#[trigger] step_cases(insts, p, Set::empty())) is Ok
                ==> disjoint_cases(step_cases(insts, p, Set::empty())->Ok_0),
    ensures
        ({
            let entry = build(Table::empty(), insts, insts.len())->Ok_0.first_step()->Some_0 as int;
            match matched(compiled(insts)->Ok_0, input) {
                Ok(Some(best)) => {
                    &&& tries(insts, input, entry, 0, best.1 as int, best.0, Set::empty())
                    &&& forall|n: int, pattern: usize|
                        n > best.1 ==> !#[trigger] tries(
                            insts,
                            input,
                            entry,
                            0,
                            n,
                            pattern,
                            Set::empty(),
                        )
                },
                Ok(None) => forall|n: int, pattern: usize|
                    !#[trigger] tries(insts, input, entry, 0, n, pattern, Set::empty()),
                Err(_) => false,
            }
        }),
{
    let built = build(Table::empty(), insts, insts.len())->Ok_0;
    let table = compiled(insts)->Ok_0;
    compiled_is_plain(insts);
    compiled_is_dense(insts);
    build_records_significant_positions(insts, insts.len());
    lemma_build_grounded(Table::empty(), insts, insts.len());
    lemma_grounded_closed(built, insts);
    assert(table == built.compacted()->Ok_0);
    lemma_first_step_is_step(built.steps, 0);
    let entry = built.first_step()->Some_0 as int;
    lemma_first_step_rank(built, entry);
    plain_run_is_longest(table, input);
    // What the compiled table accepts from step 0, trying every way reaches.
    assert forall|n: int, pattern: usize| #[trigger]
        accepts(table, input, 0, 0, n, pattern) implies tries(
        insts,
        input,
        entry,
        0,
        n,
        pattern,
        Set::empty(),
    ) by {
        lemma_compacted_accepts(built, input, entry, 0, n, pattern);
        lemma_table_sound(insts, input, built, entry, 0, n, pattern);
    }
    // Where trying every way reaches a match, the compiled table accepts.
    assert forall|n: int, pattern: usize| #[trigger]
        tries(insts, input, entry, 0, n, pattern, Set::empty()) implies accepts_some(
        table,
        input,
        0,
        0,
        n,
    ) by {
        lemma_table_complete(insts, input, built, entry, 0, n, pattern);
        let other = choose|other: usize| accepts(built, input, entry, 0, n, other);
        lemma_compacted_accepts(built, input, entry, 0, n, other);
        assert(accepts(table, input, 0, 0, n, other));
    }
    match matched(table, input) {
        Ok(Some(best)) => {
            assert forall|n: int, pattern: usize| n > best.1 implies !#[trigger] tries(
                insts,
                input,
                entry,
                0,
                n,
                pattern,
                Set::empty(),
            ) by {
                if tries(insts, input, entry, 0, n, pattern, Set::empty()) {
                    assert(accepts_some(table, input, 0, 0, n));
                    let other = choose|other: usize| accepts(table, input, 0, 0, n, other);
                    assert(accepts(table, input, 0, 0, n, other));
                }
            }
        },
        Ok(None) => {
            assert forall|n: int, pattern: usize| !#[trigger] tries(
                insts,
                input,
                entry,
                0,
                n,
                pattern,
                Set::empty(),
            ) by {
                if tries(insts, input, entry, 0, n, pattern, Set::empty()) {
                    assert(accepts_some(table, input, 0, 0, n));
                    let other = choose|other: usize| accepts(table, input, 0, 0, n, other);
                    assert(accepts(table, input, 0, 0, n, other));
                }
            }
        },
        Err(_) => {},
    }
}

/// Compacting a dense and closed table changes nothing: every step keeps
/// its identifier.
pub proof fn compaction_of_dense_is_identity(table: Table)
    requires
        dense(table),
        table.closed(),
        table.first_step() is Some,
        table.steps.len() <= usize::MAX,
    ensures
        table.compacted() == Ok::<Table, CompileError>(table),
{
    lemma_dense_compact(table, table.steps.len() as int);
    assert(table.steps.take(table.steps.len() as int) =~= table.steps);
    assert(table.ends.take(table.ends.len() as int) =~= table.ends);
}

/// Compacting a second time changes nothing.
pub proof fn compaction_is_idempotent(table: Table)
    requires
        table.closed(),
        table.bound() <= usize::MAX,
        table.compacted() is Ok,
    ensures
        table.compacted()->Ok_0.compacted() == table.compacted(),
{
    let out = table.compacted()->Ok_0;
    lemma_compacted_dense(table);
    lemma_compacted_closed(table);
    lemma_compact_len(table, table.bound());
    lemma_rank_bound(table, table.bound());
    lemma_first_step_is_step(table.steps, 0);
    let first = table.first_step()->Some_0 as int;
    lemma_compact_at(table, table.bound(), first);
    lemma_step_has_first(out.steps, 0, table.rank(first) as int);
    compaction_of_dense_is_identity(out);
}

} // verus!

//! Steps and their cases, and the builder that reads them off a program.

use vstd::prelude::*;
use vstd::set_lib::*;
use crate::error::{Construct, CompileError};
use crate::program::{gotos_below, skip, valid_program, Instruction, Nfa};
use crate::extend::resolved;
use crate::{StateMachine, Table};

verus! {

/// What follows a byte that a case has claimed.
#[derive(Debug, PartialEq, Eq)]
pub enum CasePattern {
    /// Go on at a step. Each condition pairs a step with a byte range: when
    /// the byte after the claimed one lies in the range, the pattern that
    /// ends at that step is the best match so far.
    Step(usize, Vec<(usize, (u8, u8))>),
    /// The pattern with this index has matched; nothing more is read.
    Match(usize),
}

/// One rule of a step: an inclusive byte range, and what follows a byte in it.
#[derive(Debug, PartialEq, Eq)]
pub struct StepCase {
    pub byte_range: (u8, u8),
    pub next_case: CasePattern,
}

/// A [`CasePattern`] as a mathematical value.
pub enum Transition {
    Continue { target: usize, conditions: Seq<(usize, (u8, u8))> },
    Accept { pattern: usize },
}

/// A [`StepCase`] as a mathematical value.
pub struct Case {
    pub range: (u8, u8),
    pub transition: Transition,
}

impl View for CasePattern {
    type V = Transition;

    open spec fn view(&self) -> Transition {
        match *self {
            CasePattern::Step(target, conditions) => Transition::Continue {
                target,
                conditions: conditions@,
            },
            CasePattern::Match(pattern) => Transition::Accept { pattern },
        }
    }
}

impl View for StepCase {
    type V = Case;

    open spec fn view(&self) -> Case {
        Case { range: self.byte_range, transition: self.next_case@ }
    }
}

/// The cases of a step as mathematical values.
pub open spec fn view_cases(cases: Seq<StepCase>) -> Seq<Case> {
    cases.map_values(|c: StepCase| c@)
}

impl Clone for CasePattern {
    fn clone(&self) -> (r: Self)
        ensures
            r@ == self@,
    {
        match self {
            CasePattern::Step(target, conditions) => {
                let mut copy: Vec<(usize, (u8, u8))> = Vec::new();
                let mut i: usize = 0;
                while i < conditions.len()
                    invariant
                        i <= conditions.len(),
                        copy@ == conditions@.take(i as int),
                    decreases conditions.len() - i,
                {
                    copy.push(conditions[i]);
                    assert(conditions@.take(i as int + 1) =~= conditions@.take(i as int).push(
                        conditions@[i as int],
                    ));
                    i += 1;
                }
                assert(conditions@.take(conditions.len() as int) =~= conditions@);
                CasePattern::Step(*target, copy)
            },
            CasePattern::Match(pattern) => CasePattern::Match(*pattern),
        }
    }
}

impl Clone for StepCase {
    fn clone(&self) -> (r: Self)
        ensures
            r@ == self@,
    {
        StepCase { byte_range: self.byte_range, next_case: self.next_case.clone() }
    }
}

/// Copies a list of cases.
pub fn clone_cases(cases: &Vec<StepCase>) -> (r: Vec<StepCase>)
    ensures
        view_cases(r@) == view_cases(cases@),
{
    let mut copy: Vec<StepCase> = Vec::new();
    let mut i: usize = 0;
    while i < cases.len()
        invariant
            i <= cases.len(),
            copy.len() == i,
            forall|k: int| 0 <= k < i ==> (#[trigger] copy@[k])@ == cases@[k]@,
        decreases cases.len() - i,
    {
        copy.push(cases[i].clone());
        i += 1;
    }
    assert(view_cases(copy@) =~= view_cases(cases@));
    copy
}

/// The transition of an instruction that hands over to `goto`: a match when
/// the next significant instruction is one, else a move to that instruction.
pub open spec fn resolve(insts: Seq<Instruction>, goto: int) -> Transition {
    let at = skip(insts, goto);
    if 0 <= at < insts.len() && insts[at] is Match {
        Transition::Accept { pattern: insts[at]->Match_0 }
    } else {
        Transition::Continue { target: at as usize, conditions: Seq::empty() }
    }
}

/// Says what follows an instruction that hands over to `goto`.
pub fn next_case(goto: usize, program: &Nfa) -> (r: CasePattern)
    ensures
        r@ == resolve(program@, goto as int),
{
    let at = program.skip(goto);
    if at < program.len() {
        if let Instruction::Match(pattern) = program.inst(at) {
            return CasePattern::Match(*pattern);
        }
    }
    CasePattern::Step(at, Vec::new())
}

/// The byte that stands for a character: its code point modulo 256.
pub open spec fn byte_of(c: char) -> u8 {
    ((c as u32) % 256) as u8
}

/// Computes the byte that stands for a character.
pub fn to_byte(c: char) -> (b: u8)
    ensures
        b == byte_of(c),
{
    ((c as u32) % 256) as u8
}

/// One case for each of `ranges`, all followed by `next`.
pub open spec fn range_cases(ranges: Seq<(char, char)>, next: Transition) -> Seq<Case> {
    Seq::new(
        ranges.len(),
        |k: int| Case { range: (byte_of(ranges[k].0), byte_of(ranges[k].1)), transition: next },
    )
}

/// How many of the positions below `n` are not in `path`.
pub open spec fn unvisited(n: nat, path: Set<int>) -> nat {
    set_int_range(0, n as int).difference(path).len()
}

/// Entering a position that is not on the path leaves fewer unvisited.
pub proof fn lemma_unvisited_shrinks(n: nat, path: Set<int>, p: int)
    requires
        0 <= p < n,
        !path.contains(p),
    ensures
        unvisited(n, path.insert(p)) < unvisited(n, path),
{
    lemma_int_range(0, n as int);
    let rest = set_int_range(0, n as int).difference(path);
    assert(rest.contains(p));
    assert(set_int_range(0, n as int).difference(path.insert(p)) =~= rest.remove(p));
}

/// The positions that a vector of marks has marked.
pub open spec fn marked(marks: Seq<bool>) -> Set<int> {
    Set::new(|i: int| 0 <= i < marks.len() && marks[i])
}

/// The error for an instruction of kind `construct` at `position`.
pub open spec fn unsupported(construct: Construct, position: int) -> CompileError {
    CompileError::UnsupportedConstruct { construct, position: position as usize }
}

/// The cases of the step at position `p`: those of the byte-consuming
/// instructions that `p` reaches through `Split`s alone, `goto1` before
/// `goto2`. A `Split` met again on the way from `p` adds nothing. An
/// instruction that has no transition makes the whole an error.
pub open spec fn step_cases(insts: Seq<Instruction>, p: int, path: Set<int>) -> Result<Seq<Case>, CompileError>
    decreases unvisited(insts.len(), path),
{
    if !(0 <= p < insts.len()) || path.contains(p) {
        Ok(Seq::empty())
    } else {
        match insts[p] {
            Instruction::Split { goto1, goto2 } => {
                let inner = path.insert(p);
                proof {
                    lemma_unvisited_shrinks(insts.len(), path, p);
                }
                match step_cases(insts, skip(insts, goto1 as int), inner) {
                    Err(e) => Err(e),
                    Ok(first) => match step_cases(insts, skip(insts, goto2 as int), inner) {
                        Err(e) => Err(e),
                        Ok(second) => Ok(first + second),
                    },
                }
            },
            Instruction::Match(_) => Ok(Seq::empty()),
            Instruction::Save { goto } => Err(unsupported(Construct::Save, p)),
            Instruction::EmptyLook { goto } => Err(unsupported(Construct::EmptyLook, p)),
            Instruction::Char { c, goto } => Ok(
                seq![Case { range: (byte_of(c), byte_of(c)), transition: resolve(insts, goto as int) }],
            ),
            Instruction::Ranges { ranges, goto } => Ok(range_cases(ranges@, resolve(insts, goto as int))),
            Instruction::Bytes { start, end, goto } => Ok(
                seq![Case { range: (start, end), transition: resolve(insts, goto as int) }],
            ),
        }
    }
}

/// Mapping to mathematical values goes through concatenation.
pub proof fn lemma_view_cases_add(a: Seq<StepCase>, b: Seq<StepCase>)
    ensures
        view_cases(a + b) == view_cases(a) + view_cases(b),
{
    assert(view_cases(a + b) =~= view_cases(a) + view_cases(b));
}

/// Gathers the cases of the step at `position`. `on_path` marks the `Split`s
/// between the step asked for and `position`.
fn collect_cases(program: &Nfa, position: usize, on_path: &mut Vec<bool>) -> (r: Result<
    Vec<StepCase>,
    CompileError,
>)
    requires
        old(on_path).len() == program@.len(),
    ensures
        final(on_path)@ == old(on_path)@,
        r matches Ok(cases) ==> step_cases(program@, position as int, marked(old(on_path)@)) == Ok::<
            Seq<Case>,
            CompileError,
        >(view_cases(cases@)),
        r matches Err(e) ==> step_cases(program@, position as int, marked(old(on_path)@)) == Err::<
            Seq<Case>,
            CompileError,
        >(e) && e is UnsupportedConstruct,
    decreases unvisited(program@.len(), marked(old(on_path)@)),
{
    let n = program.len();
    if position >= n || on_path[position] {
        let none: Vec<StepCase> = Vec::new();
        assert(view_cases(none@) =~= Seq::empty());
        return Ok(none);
    }
    let ghost path = marked(on_path@);
    match program.inst(position) {
        Instruction::Split { goto1, goto2 } => {
            let first_at = program.skip(*goto1);
            let second_at = program.skip(*goto2);
            on_path.set(position, true);
            proof {
                assert(marked(on_path@) =~= path.insert(position as int));
                lemma_unvisited_shrinks(n as nat, path, position as int);
            }
            let first = collect_cases(program, first_at, on_path);
            let both = match first {
                Err(e) => Err(e),
                Ok(mut cases) => match collect_cases(program, second_at, on_path) {
                    Err(e) => Err(e),
                    Ok(mut more) => {
                        proof {
                            lemma_view_cases_add(cases@, more@);
                        }
                        cases.append(&mut more);
                        Ok(cases)
                    },
                },
            };
            on_path.set(position, false);
            assert(on_path@ =~= old(on_path)@);
            both
        },
        Instruction::Match(_) => {
            let none: Vec<StepCase> = Vec::new();
            assert(view_cases(none@) =~= Seq::empty());
            Ok(none)
        },
        Instruction::Save { goto: _ } => Err(
            CompileError::UnsupportedConstruct { construct: Construct::Save, position },
        ),
        Instruction::EmptyLook { goto: _ } => Err(
            CompileError::UnsupportedConstruct { construct: Construct::EmptyLook, position },
        ),
        Instruction::Char { c, goto } => {
            let b = to_byte(*c);
            let mut cases: Vec<StepCase> = Vec::new();
            cases.push(StepCase { byte_range: (b, b), next_case: next_case(*goto, program) });
            assert(view_cases(cases@) =~= seq![
                Case { range: (b, b), transition: resolve(program@, *goto as int) },
            ]);
            Ok(cases)
        },
        Instruction::Ranges { ranges, goto } => {
            let mut cases: Vec<StepCase> = Vec::new();
            let mut k: usize = 0;
            while k < ranges.len()
                invariant
                    k <= ranges.len(),
                    cases.len() == k,
                    forall|i: int|
                        0 <= i < k ==> (#[trigger] cases@[i])@ == range_cases(
                            ranges@,
                            resolve(program@, *goto as int),
                        )[i],
                decreases ranges.len() - k,
            {
                let (low, high) = ranges[k];
                cases.push(
                    StepCase {
                        byte_range: (to_byte(low), to_byte(high)),
                        next_case: next_case(*goto, program),
                    },
                );
                k += 1;
            }
            assert(view_cases(cases@) =~= range_cases(ranges@, resolve(program@, *goto as int)));
            Ok(cases)
        },
        Instruction::Bytes { start, end, goto } => {
            let mut cases: Vec<StepCase> = Vec::new();
            cases.push(StepCase { byte_range: (*start, *end), next_case: next_case(*goto, program) });
            assert(view_cases(cases@) =~= seq![
                Case { range: (*start, *end), transition: resolve(program@, *goto as int) },
            ]);
            Ok(cases)
        },
    }
}

/// The pattern of the `Match` instruction at `p`, if there is one.
pub open spec fn match_at(insts: Seq<Instruction>, p: int) -> Option<usize> {
    if 0 <= p < insts.len() && insts[p] is Match {
        Some(insts[p]->Match_0)
    } else {
        None
    }
}

/// `first` if it names a pattern, else `second`.
pub open spec fn or_else(first: Option<usize>, second: Option<usize>) -> Option<usize> {
    if first is Some {
        first
    } else {
        second
    }
}

/// The pattern that has matched without further input at the `Split` at
/// `p`, if any: the one found below `goto1`, else the one found below
/// `goto2`, else the `Match` that `goto2` leads to, else the `Match` that
/// `goto1` leads to. A `Split` met again on the way from `p` adds nothing.
pub open spec fn split_end(insts: Seq<Instruction>, p: int, path: Set<int>) -> Option<usize>
    decreases unvisited(insts.len(), path),
{
    if !(0 <= p < insts.len()) || path.contains(p) {
        None
    } else {
        match insts[p] {
            Instruction::Split { goto1, goto2 } => {
                let first_at = skip(insts, goto1 as int);
                let second_at = skip(insts, goto2 as int);
                let inner = path.insert(p);
                proof {
                    lemma_unvisited_shrinks(insts.len(), path, p);
                }
                or_else(
                    split_end(insts, first_at, inner),
                    or_else(
                        split_end(insts, second_at, inner),
                        or_else(match_at(insts, second_at), match_at(insts, first_at)),
                    ),
                )
            },
            _ => None,
        }
    }
}

/// The pattern that has matched when the input ends at position `p`.
pub open spec fn end_at(insts: Seq<Instruction>, p: int) -> Option<usize> {
    if 0 <= p < insts.len() {
        match insts[p] {
            Instruction::Match(pattern) => Some(pattern),
            Instruction::Split { goto1, goto2 } => split_end(insts, p, Set::empty()),
            _ => None,
        }
    } else {
        None
    }
}

/// Reads the pattern of a `Match` instruction.
fn pattern_at(program: &Nfa, position: usize) -> (r: Option<usize>)
    ensures
        r == match_at(program@, position as int),
{
    if position < program.len() {
        if let Instruction::Match(pattern) = program.inst(position) {
            return Some(*pattern);
        }
    }
    None
}

/// Picks the first of two answers that names a pattern.
fn first_of(first: Option<usize>, second: Option<usize>) -> (r: Option<usize>)
    ensures
        r == or_else(first, second),
{
    if first.is_some() {
        first
    } else {
        second
    }
}

/// Looks through the `Split`s below `position` for a `Match` that needs no
/// further input. `on_path` marks the `Split`s between the step asked for
/// and `position`.
fn split_match(program: &Nfa, position: usize, on_path: &mut Vec<bool>) -> (r: Option<usize>)
    requires
        old(on_path).len() == program@.len(),
    ensures
        final(on_path)@ == old(on_path)@,
        r == split_end(program@, position as int, marked(old(on_path)@)),
    decreases unvisited(program@.len(), marked(old(on_path)@)),
{
    let n = program.len();
    if position >= n || on_path[position] {
        return None;
    }
    let ghost path = marked(on_path@);
    match program.inst(position) {
        Instruction::Split { goto1, goto2 } => {
            let first_at = program.skip(*goto1);
            let second_at = program.skip(*goto2);
            on_path.set(position, true);
            proof {
                assert(marked(on_path@) =~= path.insert(position as int));
                lemma_unvisited_shrinks(n as nat, path, position as int);
            }
            let below_first = split_match(program, first_at, on_path);
            let below_second = split_match(program, second_at, on_path);
            on_path.set(position, false);
            assert(on_path@ =~= old(on_path)@);
            first_of(
                below_first,
                first_of(
                    below_second,
                    first_of(pattern_at(program, second_at), pattern_at(program, first_at)),
                ),
            )
        },
        _ => None,
    }
}

/// Makes a vector of `n` marks, none of them set.
fn no_marks(n: usize) -> (marks: Vec<bool>)
    ensures
        marks.len() == n,
        marked(marks@) == Set::<int>::empty(),
{
    let mut marks: Vec<bool> = Vec::new();
    while marks.len() < n
        invariant
            marks.len() <= n,
            forall|i: int| 0 <= i < marks.len() ==> !marks@[i],
        decreases n - marks.len(),
    {
        marks.push(false);
    }
    assert(marked(marks@) =~= Set::<int>::empty());
    marks
}

/// What looking at position `p` makes of a table: a table that has the step
/// is left as it is; another gets the cases of `p` and the pattern that ends
/// there.
pub open spec fn visit(table: Table, insts: Seq<Instruction>, p: int) -> Result<Table, CompileError> {
    if table.has_step(p) {
        Ok(table)
    } else {
        match step_cases(insts, p, Set::empty()) {
            Err(e) => Err(e),
            Ok(cases) => Ok(table.install(p, cases, end_at(insts, p))),
        }
    }
}

/// What looking at the significant instruction of each of the first `k`
/// positions, in order, makes of a table.
pub open spec fn build(table: Table, insts: Seq<Instruction>, k: nat) -> Result<Table, CompileError>
    decreases k,
{
    if k == 0 {
        Ok(table)
    } else {
        match build(table, insts, (k - 1) as nat) {
            Err(e) => Err(e),
            Ok(built) => visit(built, insts, skip(insts, k - 1)),
        }
    }
}

/// Whether what follows `case` is what follows some instruction of the
/// program.
pub open spec fn from_program(insts: Seq<Instruction>, case: Case) -> bool {
    exists|goto: int| 0 <= goto < insts.len() && case.transition == #[trigger] resolve(insts, goto)
}

/// Every case of a step of a valid program hands over as an instruction of
/// the program does.
pub proof fn lemma_step_cases_from_program(insts: Seq<Instruction>, p: int, path: Set<int>)
    requires
        valid_program(insts),
        step_cases(insts, p, path) is Ok,
    ensures
        forall|i: int|
            0 <= i < step_cases(insts, p, path)->Ok_0.len() ==> from_program(
                insts,
                #[trigger] step_cases(insts, p, path)->Ok_0[i],
            ),
    decreases unvisited(insts.len(), path),
{
    let cases = step_cases(insts, p, path)->Ok_0;
    if !(0 <= p < insts.len()) || path.contains(p) {
    } else {
        match insts[p] {
            Instruction::Split { goto1, goto2 } => {
                let inner = path.insert(p);
                lemma_unvisited_shrinks(insts.len(), path, p);
                lemma_step_cases_from_program(insts, skip(insts, goto1 as int), inner);
                lemma_step_cases_from_program(insts, skip(insts, goto2 as int), inner);
                let first = step_cases(insts, skip(insts, goto1 as int), inner)->Ok_0;
                let second = step_cases(insts, skip(insts, goto2 as int), inner)->Ok_0;
                assert forall|i: int| 0 <= i < cases.len() implies from_program(
                    insts,
                    #[trigger] cases[i],
                ) by {
                    if i < first.len() {
                        assert(cases[i] == first[i]);
                    } else {
                        assert(cases[i] == second[i - first.len()]);
                    }
                }
            },
            Instruction::Char { c, goto } => {
                assert(gotos_below(insts[p], insts.len() as int));
                assert(cases[0].transition == resolve(insts, goto as int));
            },
            Instruction::Ranges { ranges, goto } => {
                assert(gotos_below(insts[p], insts.len() as int));
                assert forall|i: int| 0 <= i < cases.len() implies from_program(
                    insts,
                    #[trigger] cases[i],
                ) by {
                    assert(cases[i].transition == resolve(insts, goto as int));
                }
            },
            Instruction::Bytes { start, end, goto } => {
                assert(gotos_below(insts[p], insts.len() as int));
                assert(cases[0].transition == resolve(insts, goto as int));
            },
            _ => {},
        }
    }
}

/// Whether a table holds nothing but what a build from `insts` records:
/// steps at positions of the program, cases that hand over as its
/// instructions do, and ends at steps only.
pub open spec fn grounded(table: Table, insts: Seq<Instruction>) -> bool {
    &&& table.steps.len() <= insts.len()
    &&& table.ends.len() <= insts.len()
    &&& forall|s: int, k: int|
        table.has_step(s) && 0 <= k < table.cases(s).len() ==> from_program(
            insts,
            #[trigger] table.cases(s)[k],
        )
    &&& forall|s: int| (#[trigger] table.end(s)) is Some ==> table.has_step(s)
}

/// Looking at a position of a valid program keeps a table grounded, keeps
/// its steps, and leaves a step at the position.
pub proof fn lemma_visit_grounded(table: Table, insts: Seq<Instruction>, p: int)
    requires
        valid_program(insts),
        grounded(table, insts),
        0 <= p < insts.len(),
        visit(table, insts, p) is Ok,
    ensures
        grounded(visit(table, insts, p)->Ok_0, insts),
        visit(table, insts, p)->Ok_0.has_step(p),
        forall|s: int| table.has_step(s) ==> visit(table, insts, p)->Ok_0.has_step(s),
{
    let after = visit(table, insts, p)->Ok_0;
    if !table.has_step(p) {
        let cases = step_cases(insts, p, Set::empty())->Ok_0;
        lemma_step_cases_from_program(insts, p, Set::empty());
        assert(after.has_step(p));
        assert(after.cases(p) == cases);
        assert forall|s: int| s != p implies after.has_step(s) == table.has_step(s) && after.cases(s)
            == table.cases(s) by {}
        assert forall|s: int, k: int| after.has_step(s) && 0 <= k < after.cases(s).len() implies from_program(
            insts,
            #[trigger] after.cases(s)[k],
        ) by {
            if s != p {
                assert(from_program(insts, table.cases(s)[k]));
            }
        }
        assert forall|s: int| (#[trigger] after.end(s)) is Some implies after.has_step(s) by {
            if s != p {
                assert(table.end(s) is Some);
            }
        }
    }
}

/// A build from a valid program keeps a table grounded and leaves a step at
/// the significant instruction of every position that it has looked at.
pub proof fn lemma_build_grounded(table: Table, insts: Seq<Instruction>, k: nat)
    requires
        valid_program(insts),
        grounded(table, insts),
        k <= insts.len(),
        build(table, insts, k) is Ok,
    ensures
        grounded(build(table, insts, k)->Ok_0, insts),
        forall|s: int| table.has_step(s) ==> build(table, insts, k)->Ok_0.has_step(s),
        forall|q: int| 0 <= q < k ==> build(table, insts, k)->Ok_0.has_step(#[trigger] skip(insts, q)),
    decreases k,
{
    if k > 0 {
        let before = build(table, insts, (k - 1) as nat)->Ok_0;
        lemma_build_grounded(table, insts, (k - 1) as nat);
        crate::program::lemma_skip_within_in_range(insts, k - 1, insts.len());
        lemma_visit_grounded(before, insts, skip(insts, k - 1));
    }
}

/// A grounded table with a step at every significant instruction of a
/// valid program is closed.
pub proof fn lemma_grounded_closed(table: Table, insts: Seq<Instruction>)
    requires
        valid_program(insts),
        insts.len() <= usize::MAX,
        grounded(table, insts),
        forall|q: int| 0 <= q < insts.len() ==> table.has_step(#[trigger] skip(insts, q)),
    ensures
        table.closed(),
{
    assert forall|s: int, k: int| table.has_step(s) && 0 <= k < table.cases(s).len() implies table.links(
        #[trigger] table.cases(s)[k],
    ) by {
        let case = table.cases(s)[k];
        assert(from_program(insts, case));
        let goto = choose|goto: int|
            0 <= goto < insts.len() && case.transition == #[trigger] resolve(insts, goto);
        crate::program::lemma_skip_within_in_range(insts, goto, insts.len());
        assert(table.has_step(skip(insts, goto)));
    }
}

/// Whether position `p` holds the significant instruction of one of the
/// first `k` positions.
pub open spec fn significant(insts: Seq<Instruction>, p: int, k: nat) -> bool {
    exists|q: int| 0 <= q < k && #[trigger] skip(insts, q) == p
}

/// Whether a table holds what a build from an empty table has recorded
/// after the first `k` positions: a step at each significant position, with
/// the cases of that position and the pattern that ends there, and nothing
/// else.
pub open spec fn records(table: Table, insts: Seq<Instruction>, k: nat) -> bool {
    forall|p: int|
        {
            &&& #[trigger] table.has_step(p) <==> significant(insts, p, k)
            &&& table.has_step(p) ==> step_cases(insts, p, Set::empty()) == Ok::<
                Seq<Case>,
                CompileError,
            >(table.cases(p))
            &&& table.end(p) == if table.has_step(p) {
                end_at(insts, p)
            } else {
                None
            }
        }
}

/// A build that has failed stays failed.
pub proof fn lemma_build_error_stays(table: Table, insts: Seq<Instruction>, k: nat, m: nat)
    requires
        k <= m,
        build(table, insts, k) is Err,
    ensures
        build(table, insts, m) == build(table, insts, k),
    decreases m,
{
    if k < m {
        lemma_build_error_stays(table, insts, k, (m - 1) as nat);
    }
}

/// What building from all of a program and then resolving makes of a
/// table. A table that is left without steps is an error.
pub open spec fn parsed(table: Table, insts: Seq<Instruction>) -> Result<Table, CompileError> {
    match build(table, insts, insts.len()) {
        Err(e) => Err(e),
        Ok(built) => if built.first_step() is Some {
            Ok(resolved(built))
        } else {
            Err(CompileError::EmptyAutomaton)
        },
    }
}

impl StateMachine {
    /// Records the step of every significant instruction of `program` that
    /// the table does not hold yet, then runs the resolver from the first
    /// step. On an error the machine is left as it was.
    ///
    /// `Ok` says that the table is built and the resolver has run. Cases
    /// that the resolver could not tell apart are still in it; whether any
    /// of them is within reach of the first step is for
    /// [`StateMachine::check_resolved`] to say, which reports it as
    /// `UnresolvedAmbiguity`, and [`StateMachine::new`] asks it of the
    /// finished table.
    pub fn parse(&mut self, program: &Nfa) -> (r: Result<(), CompileError>)
        ensures
            match r {
                Ok(_) => parsed(old(self)@, program@) == Ok::<Table, CompileError>(final(self)@),
                Err(e) => parsed(old(self)@, program@) == Err::<Table, CompileError>(e) && final(self)@
                    == old(self)@,
            },
            r is Ok && grounded(old(self)@, program@) ==> final(self)@.closed(),
            r matches Err(e) ==> e is UnsupportedConstruct || e is EmptyAutomaton,
    {
        let n = program.len();
        let mut next = self.clone();
        let mut k: usize = 0;
        while k < n
            invariant
                k <= n,
                n == program@.len(),
                build(self@, program@, k as nat) == Ok::<Table, CompileError>(next@),
            decreases n - k,
        {
            let position = program.skip(k);
            match next.parse_inst(position, program) {
                Ok(_) => {},
                Err(e) => {
                    proof {
                        assert(build(self@, program@, (k + 1) as nat) == Err::<Table, CompileError>(e));
                        lemma_build_error_stays(self@, program@, (k + 1) as nat, n as nat);
                    }
                    return Err(e);
                },
            }
            k += 1;
        }
        proof {
            if grounded(self@, program@) {
                lemma_build_grounded(self@, program@, n as nat);
                lemma_grounded_closed(next@, program@);
            }
        }
        match next.extend_steps() {
            Ok(_) => {
                *self = next;
                Ok(())
            },
            Err(e) => Err(e),
        }
    }

    /// Returns the cases of the step at `position`, and records them, with
    /// the pattern that ends there, unless the step is in the table already.
    ///
    /// On an instruction that has no transition nothing is recorded.
    pub fn parse_inst(&mut self, position: usize, program: &Nfa) -> (r: Result<
        Vec<StepCase>,
        CompileError,
    >)
        requires
            position < program@.len(),
        ensures
            match r {
                Ok(cases) => {
                    &&& visit(old(self)@, program@, position as int) == Ok::<Table, CompileError>(
                        final(self)@,
                    )
                    &&& view_cases(cases@) == final(self)@.cases(position as int)
                },
                Err(e) => {
                    &&& visit(old(self)@, program@, position as int) == Err::<Table, CompileError>(e)
                    &&& final(self)@ == old(self)@
                    &&& e is UnsupportedConstruct
                },
            },
    {
        if let Some(known) = self.cases_of(position) {
            return Ok(known);
        }
        let mut on_path = no_marks(program.len());
        let cases = match collect_cases(program, position, &mut on_path) {
            Ok(cases) => cases,
            Err(e) => {
                return Err(e);
            },
        };
        let end = match program.inst(position) {
            Instruction::Match(pattern) => Some(*pattern),
            Instruction::Split { goto1: _, goto2: _ } => split_match(program, position, &mut on_path),
            _ => None,
        };
        let copy = clone_cases(&cases);
        self.set_step(position, cases, end);
        Ok(copy)
    }
}

} // verus!

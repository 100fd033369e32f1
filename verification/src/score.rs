//! Scoring the branches of a batch: what goes to the backend for each
//! request, in which passes, and what its rows are read as.

use indexmap::IndexMap;
use vstd::prelude::*;
use vstd::slice::slice_subrange;

use crate::api::{state_block, Request};
use crate::backend::{
    group_views, Backend, BranchOutput, BranchTokens, BranchTokensView, Group, GroupOutput,
    PrefixSource, Token, Want,
};
use crate::engine::{
    after_pass, branch_row_sum, branch_token_sum, passes, pass_lists, plan_passes, same_but_diag,
    Board, Cost, Diagnostics, Limits, Mode, Slot,
};
use crate::error::{Error, ErrorView};
use crate::map::{orders_of, questions_of};
use crate::pack::{
    all_tokens, branches_fault, marks_readable, pack, pack_branches, packed_branch, packed_views,
    token_fault,
};
use crate::readout::{
    gather_fault, gatherable, is_reading, labels_fault, letter, too_many_options, Reading, Readout,
};
use crate::render::{
    branch_views, branches_of, orders_fit, prefix_view, BranchView, Rendered, RenderedBranch,
    Renderer, SegmentView,
};

verus! {

/// The branches of one job that go to the backend.
#[derive(Debug)]
pub struct Item {
    pub job: usize,
    pub branches: Vec<RenderedBranch>,
    pub packed: Vec<BranchTokens>,
    pub label_ids: Vec<Token>,
}

/// The most options of the first `n` branches.
pub open spec fn most_options(b: Seq<RenderedBranch>, n: nat) -> nat
    decreases n,
{
    if n == 0 {
        0
    } else {
        let m = most_options(b, (n - 1) as nat);
        if b[n - 1].keys@.len() > m {
            b[n - 1].keys@.len()
        } else {
            m
        }
    }
}

fn max_options(b: &Vec<RenderedBranch>) -> (r: usize)
    ensures
        r == most_options(b@, b@.len()),
{
    let mut m: usize = 0;
    let mut i: usize = 0;
    while i < b.len()
        invariant
            0 <= i <= b@.len(),
            m == most_options(b@, i as nat),
        decreases b@.len() - i,
    {
        if b[i].keys.len() > m {
            m = b[i].keys.len();
        }
        i += 1;
    }
    m
}

/// Why branches cannot go to the backend, if they cannot: the first that it
/// cannot tokenize, or, where letters are read, too many options or a letter
/// that is not one token.
pub open spec fn prepare_fault<B: Backend>(
    b: &B,
    readout: Readout,
    branches: Seq<RenderedBranch>,
) -> Option<ErrorView> {
    let k = most_options(branches, branches.len());
    match branches_fault(b, branches_of(branches)) {
        Some(e) => Some(e),
        None => if readout is Pointer {
            None
        } else if k > 52 {
            Some(too_many_options())
        } else {
            labels_fault(b, k)
        },
    }
}

/// The branches of job `job` as the backend takes them, with the letters'
/// tokens where letters are read.
pub fn prepare<B: Backend>(
    backend: &B,
    readout: &Readout,
    job: usize,
    branches: Vec<RenderedBranch>,
) -> (r: Result<Item, Error>)
    requires
        forall|i: int|
            0 <= i < branches@.len() ==> marks_readable(backend, (#[trigger] branches@[i])@),
    ensures
        match r {
            Ok(it) => {
                &&& prepare_fault(backend, *readout, branches@) is None
                &&& it.job == job
                &&& it.branches == branches
                &&& packed_views(it.packed@) == branches_of(branches@).map_values(
                    |v: BranchView| packed_branch(backend, v),
                )
                &&& match *readout {
                    Readout::Pointer(_) => it.label_ids@.len() == 0,
                    Readout::Label => {
                        &&& it.label_ids@.len() == most_options(branches@, branches@.len())
                        &&& forall|i: int|
                            0 <= i < it.label_ids@.len() ==> backend.text_tokens(letter(i)) == Ok::<Seq<Token>, ErrorView>(seq![#[trigger] it.label_ids@[i]])
                    },
                }
            },
            Err(e) => prepare_fault(backend, *readout, branches@) == Some(e@),
        },
{
    let packed: Vec<BranchTokens> = match pack_branches(backend, &branches) {
        Ok(p) => p,
        Err(e) => {
            return Err(e);
        },
    };
    let label_ids: Vec<Token> = match readout {
        Readout::Label => match Readout::label_ids(backend, max_options(&branches)) {
            Ok(v) => v,
            Err(e) => {
                return Err(e);
            },
        },
        Readout::Pointer(_) => Vec::new(),
    };
    Ok(Item { job, branches, packed, label_ids })
}

/// The jobs of items.
pub open spec fn jobs_of(items: Seq<Item>) -> Seq<usize> {
    items.map_values(|it: Item| it.job)
}

/// What a prefix with its branches asks of a pass.
pub open spec fn cost_view(prefix: Seq<Token>, b: Seq<BranchTokens>) -> Cost {
    Cost {
        tokens: (prefix.len() + branch_token_sum(b, b.len())) as usize,
        sequences: (1 + b.len()) as usize,
        rows: branch_row_sum(b, b.len()) as usize,
    }
}

/// What each item asks of a pass.
pub open spec fn costs_view(board: Board, items: Seq<Item>) -> Seq<Cost> {
    items.map_values(
        |it: Item| cost_view(board.slots@[it.job as int]->Live_0.prefix@, it.packed@),
    )
}

/// The counts of an item are numbers of the machine.
pub open spec fn countable(board: Board, it: Item) -> bool {
    let job = board.slots@[it.job as int]->Live_0;
    &&& job.prefix@.len() + branch_token_sum(it.packed@, it.packed@.len()) <= usize::MAX
    &&& branch_row_sum(it.packed@, it.packed@.len()) <= usize::MAX
    &&& it.packed@.len() < usize::MAX
    &&& job.diag.passes + it.packed@.len() < usize::MAX
}

/// The items belong to running jobs, one item each, and can be counted.
pub open spec fn items_run(board: Board, items: Seq<Item>) -> bool {
    &&& board.runs(jobs_of(items))
    &&& forall|k: int| 0 <= k < items.len() ==> countable(board, #[trigger] items[k])
}

/// Every entry of the passes names an item, and none is named twice.
pub proof fn passes_are_apart(costs: Seq<Cost>, limits: Limits, n: nat)
    requires
        n <= costs.len() <= usize::MAX,
    ensures
        ({
            let ps = passes(costs, limits, n);
            &&& forall|p: int, a: int|
                0 <= p < ps.len() && 0 <= a < ps[p].len() ==> #[trigger] ps[p][a] < n
            &&& forall|p: int, a: int, q: int, b: int|
                0 <= p < ps.len() && 0 <= a < ps[p].len() && 0 <= q < ps.len() && 0 <= b
                    < ps[q].len() && (p != q || a != b) ==> #[trigger] ps[p][a]
                    != #[trigger] ps[q][b]
        }),
    decreases n,
{
    if n > 0 {
        let m = (n - 1) as nat;
        passes_are_apart(costs, limits, m);
        let before = passes(costs, limits, m);
        let ps = passes(costs, limits, n);
        assert forall|p: int, a: int| 0 <= p < ps.len() && 0 <= a < ps[p].len() implies #[trigger] ps[p][a]
            < n by {
            if p < before.len() && a < before[p].len() {
                assert(ps[p][a] == before[p][a]);
            }
        }
        assert forall|p: int, a: int, q: int, b: int|
            0 <= p < ps.len() && 0 <= a < ps[p].len() && 0 <= q < ps.len() && 0 <= b < ps[q].len()
                && (p != q || a != b) implies #[trigger] ps[p][a] != #[trigger] ps[q][b] by {
            let old_p = p < before.len() && a < before[p].len();
            let old_q = q < before.len() && b < before[q].len();
            if old_p {
                assert(ps[p][a] == before[p][a]);
            }
            if old_q {
                assert(ps[q][b] == before[q][b]);
            }
        }
    }
}

fn costs_of(board: &Board, items: &Vec<Item>) -> (r: Vec<Cost>)
    requires
        items_run(*board, items@),
    ensures
        r@ == costs_view(*board, items@),
{
    let mut out: Vec<Cost> = Vec::new();
    let mut k: usize = 0;
    while k < items.len()
        invariant
            0 <= k <= items@.len(),
            items_run(*board, items@),
            out@.len() == k,
            forall|j: int| 0 <= j < k ==> #[trigger] out@[j] == costs_view(*board, items@)[j],
        decreases items@.len() - k,
    {
        let it: &Item = &items[k];
        assert(jobs_of(items@)[k as int] == it.job);
        assert(countable(*board, items@[k as int]));
        match &board.slots[it.job] {
            Slot::Live(job) => out.push(Cost::of(&job.prefix, &it.packed)),
            Slot::Failed(_) => {
                assert(false);
            },
        }
        k += 1;
    }
    assert(out@ =~= costs_view(*board, items@));
    out
}

/// What the items of a pass hand to the backend: each its job's prefix and its
/// own branches.
pub open spec fn pass_groups(slots: Seq<Slot>, items: Seq<Item>, chunk: Seq<usize>) -> Seq<
    (Seq<Token>, Seq<BranchTokens>),
> {
    chunk.map_values(
        |k: usize|
            (slots[items[k as int].job as int]->Live_0.prefix@, items[k as int].packed@),
    )
}

fn groups_of<'a>(board: &'a Board, items: &'a Vec<Item>, chunk: &Vec<usize>) -> (r: Vec<Group<'a>>)
    requires
        forall|a: int|
            0 <= a < chunk@.len() ==> (#[trigger] chunk@[a]) < items@.len()
                && items@[chunk@[a] as int].job < board.slots@.len()
                && board.slots@[items@[chunk@[a] as int].job as int] is Live,
    ensures
        group_views(r@) == pass_groups(board.slots@, items@, chunk@),
{
    let mut out: Vec<Group<'a>> = Vec::new();
    let mut a: usize = 0;
    while a < chunk.len()
        invariant
            0 <= a <= chunk@.len(),
            forall|a: int|
                0 <= a < chunk@.len() ==> (#[trigger] chunk@[a]) < items@.len()
                    && items@[chunk@[a] as int].job < board.slots@.len()
                    && board.slots@[items@[chunk@[a] as int].job as int] is Live,
            out@.len() == a,
            forall|x: int|
                0 <= x < a ==> {
                    let it = items@[chunk@[x] as int];
                    (#[trigger] out@[x]).prefix@ == board.slots@[it.job as int]->Live_0.prefix@
                        && out@[x].branches@ == it.packed@
                },
        decreases chunk@.len() - a,
    {
        assert(chunk@[a as int] < items@.len());
        let it: &'a Item = &items[chunk[a]];
        match &board.slots[it.job] {
            Slot::Live(job) => out.push(Group { prefix: &job.prefix, branches: &it.packed }),
            Slot::Failed(_) => {
                assert(false);
            },
        }
        a += 1;
    }
    assert(group_views(out@) =~= pass_groups(board.slots@, items@, chunk@));
    out
}

/// The jobs of the items of a pass.
pub open spec fn chunk_jobs(items: Seq<Item>, chunk: Seq<usize>) -> Seq<usize> {
    chunk.map_values(|k: usize| items[k as int].job)
}

fn jobs_in(items: &Vec<Item>, chunk: &Vec<usize>) -> (r: Vec<usize>)
    requires
        forall|a: int| 0 <= a < chunk@.len() ==> (#[trigger] chunk@[a]) < items@.len(),
    ensures
        r@ == chunk_jobs(items@, chunk@),
{
    let mut out: Vec<usize> = Vec::new();
    let mut a: usize = 0;
    while a < chunk.len()
        invariant
            0 <= a <= chunk@.len(),
            forall|a: int| 0 <= a < chunk@.len() ==> (#[trigger] chunk@[a]) < items@.len(),
            out@.len() == a,
            forall|x: int| 0 <= x < a ==> #[trigger] out@[x] == chunk_jobs(items@, chunk@)[x],
        decreases chunk@.len() - a,
    {
        out.push(items[chunk[a]].job);
        a += 1;
    }
    assert(out@ =~= chunk_jobs(items@, chunk@));
    out
}

/// The items of a pass: each named once, each of a running job of its own
/// whose next pass can be counted.
pub open spec fn chunk_runs(board: Board, items: Seq<Item>, chunk: Seq<usize>) -> bool {
    &&& chunk.no_duplicates()
    &&& forall|a: int| 0 <= a < chunk.len() ==> (#[trigger] chunk[a]) < items.len()
    &&& board.runs(chunk_jobs(items, chunk))
    &&& forall|a: int|
        0 <= a < chunk.len() ==> board.slots@[(#[trigger] chunk_jobs(
            items,
            chunk,
        )[a]) as int]->Live_0.diag.passes < usize::MAX
}

/// What item `chunk[a]` has of a pass that gave `outs`.
pub open spec fn delivered(
    before: Slot,
    after: Slot,
    was: Option<Vec<BranchOutput>>,
    is: Option<Vec<BranchOutput>>,
    outs: Seq<GroupOutput>,
    a: int,
    company: nat,
) -> bool {
    if a < outs.len() {
        &&& same_but_diag(before, after)
        &&& after_pass(
            before->Live_0.diag,
            after->Live_0.diag,
            company,
            outs[a].prefix_source,
        )
        &&& is == Some(outs[a].branches)
    } else {
        after == before && is == was
    }
}

/// Hands the outputs of a pass to its items, in order; an item without an
/// output stays as it is.
pub fn deliver_pass(
    board: &mut Board,
    items: &Vec<Item>,
    chunk: &Vec<usize>,
    outs: Vec<GroupOutput>,
    results: &mut Vec<Option<Vec<BranchOutput>>>,
)
    requires
        chunk_runs(*old(board), items@, chunk@),
        old(results)@.len() == items@.len(),
    ensures
        final(board).slots@.len() == old(board).slots@.len(),
        final(results)@.len() == old(results)@.len(),
        forall|j: int|
            0 <= j < old(board).slots@.len() && !chunk_jobs(items@, chunk@).contains(j as usize)
                ==> #[trigger] final(board).slots@[j] == old(board).slots@[j],
        forall|k: int|
            0 <= k < items@.len() && !chunk@.contains(k as usize) ==> #[trigger] final(results)@[k]
                == old(results)@[k],
        forall|a: int|
            0 <= a < chunk@.len() ==> {
                let k = (#[trigger] chunk@[a]) as int;
                let j = items@[k].job as int;
                delivered(
                    old(board).slots@[j],
                    final(board).slots@[j],
                    old(results)@[k],
                    final(results)@[k],
                    outs@,
                    a,
                    chunk@.len(),
                )
            },
{
    let ghost all = outs@;
    let ghost slots = board.slots@;
    let ghost given = results@;
    let ghost jobs = chunk_jobs(items@, chunk@);
    let mut rest: Vec<GroupOutput> = outs;
    while rest.len() > chunk.len()
        invariant
            rest@.len() <= all.len(),
            rest@ == all.take(rest@.len() as int),
            rest@.len() >= chunk@.len() || rest@ == all,
        decreases rest@.len(),
    {
        rest.pop();
        assert(rest@ =~= all.take(rest@.len() as int));
    }
    let ghost m = rest@.len();
    while rest.len() > 0
        invariant
            rest@.len() <= m <= all.len(),
            m <= chunk@.len(),
            m == chunk@.len() || m == all.len(),
            rest@ == all.take(rest@.len() as int),
            jobs == chunk_jobs(items@, chunk@),
            chunk@.no_duplicates(),
            jobs.no_duplicates(),
            board.slots@.len() == slots.len(),
            results@.len() == given.len(),
            given.len() == items@.len(),
            forall|a: int| 0 <= a < chunk@.len() ==> (#[trigger] chunk@[a]) < items@.len(),
            forall|a: int|
                0 <= a < chunk@.len() ==> (#[trigger] jobs[a]) < slots.len()
                    && slots[jobs[a] as int] is Live && slots[jobs[a] as int]->Live_0.diag.passes
                    < usize::MAX,
            forall|j: int|
                0 <= j < slots.len() && !jobs.contains(j as usize) ==> #[trigger] board.slots@[j]
                    == slots[j],
            forall|k: int|
                0 <= k < given.len() && !chunk@.contains(k as usize) ==> #[trigger] results@[k]
                    == given[k],
            forall|a: int|
                0 <= a < rest@.len() || m <= a < chunk@.len() ==> board.slots@[(#[trigger] jobs[a]) as int]
                    == slots[jobs[a] as int] && results@[chunk@[a] as int]
                    == given[chunk@[a] as int],
            forall|a: int|
                rest@.len() <= a < m ==> delivered(
                    slots[(#[trigger] jobs[a]) as int],
                    board.slots@[jobs[a] as int],
                    given[chunk@[a] as int],
                    results@[chunk@[a] as int],
                    all,
                    a,
                    chunk@.len(),
                ),
        decreases rest@.len(),
    {
        let a: usize = rest.len() - 1;
        let ghost mid = board.slots@;
        let ghost held = results@;
        assert(jobs[a as int] == items@[chunk@[a as int] as int].job);
        match rest.pop() {
            Some(out) => {
                assert(out == all[a as int]);
                let k: usize = chunk[a];
                let i: usize = items[k].job;
                board.note_shared(i, chunk.len(), out.prefix_source);
                results.set(k, Some(out.branches));
                proof {
                    assert(jobs[a as int] == i && chunk@[a as int] == k);
                    assert(jobs.contains(i));
                    assert(chunk@.contains(k));
                    assert forall|x: int| 0 <= x < chunk@.len() && x != a implies board.slots@[(
                    #[trigger] jobs[x]) as int] == mid[jobs[x] as int]
                        && results@[chunk@[x] as int] == held[chunk@[x] as int] by {
                        assert(jobs[x] != jobs[a as int]);
                        assert(chunk@[x] != chunk@[a as int]);
                        assert(chunk@[x] < items@.len());
                    }
                    assert(rest@ =~= all.take(rest@.len() as int));
                }
            },
            None => {},
        }
    }
    assert forall|a: int| 0 <= a < chunk@.len() implies {
        let k = (#[trigger] chunk@[a]) as int;
        let j = items@[k].job as int;
        delivered(
            slots[j],
            board.slots@[j],
            given[k],
            results@[k],
            all,
            a,
            chunk@.len(),
        )
    } by {
        assert(jobs[a] == items@[chunk@[a] as int].job);
    }
}

/// What the item at place `a` of a pass of `company` items has of the pass's
/// reply: its own outputs and a recorded pass, or the pass's error.
pub open spec fn replied(
    before: Slot,
    after: Slot,
    is: Option<Vec<BranchOutput>>,
    reply: Result<Vec<GroupOutput>, Error>,
    a: int,
    company: nat,
) -> bool {
    match reply {
        Ok(outs) => delivered(before, after, None, is, outs@, a, company),
        Err(e) => is is None && after is Failed && after->Failed_0@ == e@,
    }
}

/// Calls of a backend, one for each of the first `n` passes: call `p` is given
/// the prefixes and branches of the pass's items and asked for `want`, takes
/// the backend from `states[p]` to the next state and returns `replies[p]`.
pub open spec fn calls_shared<B: Backend>(
    states: Seq<B>,
    replies: Seq<Result<Vec<GroupOutput>, Error>>,
    slots: Seq<Slot>,
    items: Seq<Item>,
    ps: Seq<Seq<usize>>,
    want: Want,
    n: nat,
) -> bool {
    &&& states.len() == n + 1
    &&& replies.len() == n
    &&& forall|p: int|
        0 <= p < n ==> states[p].evaluates_many(
            pass_groups(slots, items, ps[p]),
            want,
            #[trigger] replies[p],
            &states[p + 1],
        )
}

/// Every item went in the pass that the limits give it, one call per pass, and
/// has what its pass replied for it.
pub open spec fn shared_passes<B: Backend>(
    start: B,
    end: B,
    before: Seq<Slot>,
    after: Seq<Slot>,
    items: Seq<Item>,
    limits: Limits,
    want: Want,
    r: Seq<Option<Vec<BranchOutput>>>,
) -> bool {
    let costs = items.map_values(
        |it: Item| cost_view(before[it.job as int]->Live_0.prefix@, it.packed@),
    );
    let ps = passes(costs, limits, items.len());
    exists|states: Seq<B>, replies: Seq<Result<Vec<GroupOutput>, Error>>|
        {
            &&& #[trigger] calls_shared(states, replies, before, items, ps, want, ps.len())
            &&& states.first() == start
            &&& states.last() == end
            &&& forall|p: int, a: int|
                0 <= p < ps.len() && 0 <= a < ps[p].len() ==> {
                    let k = (#[trigger] ps[p][a]) as int;
                    let j = items[k].job as int;
                    replied(before[j], after[j], r[k], replies[p], a, ps[p].len())
                }
        }
}

/// The item at place `a` of pass `p` after its pass.
spec fn settled(
    before: Seq<Slot>,
    after: Seq<Slot>,
    items: Seq<Item>,
    results: Seq<Option<Vec<BranchOutput>>>,
    replies: Seq<Result<Vec<GroupOutput>, Error>>,
    ps: Seq<Seq<usize>>,
    p: int,
    a: int,
) -> bool {
    let k = ps[p][a] as int;
    replied(
        before[items[k].job as int],
        after[items[k].job as int],
        results[k],
        replies[p],
        a,
        ps[p].len(),
    )
}

/// The item at place `a` of pass `p` before its pass.
spec fn waiting(
    before: Seq<Slot>,
    now: Seq<Slot>,
    items: Seq<Item>,
    results: Seq<Option<Vec<BranchOutput>>>,
    ps: Seq<Seq<usize>>,
    p: int,
    a: int,
) -> bool {
    let k = ps[p][a] as int;
    now[items[k].job as int] == before[items[k].job as int] && results[k] is None
}

/// Evaluates the items in as few passes as the limits allow, one call of the
/// backend per pass. Every item ends with its outputs and a recorded pass, or
/// without outputs: its pass failed, and its job with it, or gave nothing for
/// it. Other jobs stay as they are.
pub fn evaluate_packed<B: Backend>(
    board: &mut Board,
    backend: &mut B,
    items: &Vec<Item>,
    limits: Limits,
    want: Want,
) -> (r: Vec<Option<Vec<BranchOutput>>>)
    requires
        items_run(*old(board), items@),
    ensures
        r@.len() == items@.len(),
        final(board).slots@.len() == old(board).slots@.len(),
        forall|j: int|
            0 <= j < old(board).slots@.len() && !jobs_of(items@).contains(j as usize)
                ==> #[trigger] final(board).slots@[j] == old(board).slots@[j],
        shared_passes(
            *old(backend),
            *final(backend),
            old(board).slots@,
            final(board).slots@,
            items@,
            limits,
            want,
            r@,
        ),
{
    let ghost before = board.slots@;
    let costs: Vec<Cost> = costs_of(board, items);
    let plan: Vec<Vec<usize>> = plan_passes(&costs, limits);
    let ghost n = items@.len();
    let ghost ps = passes(costs@, limits, n);
    let len: usize = items.len();
    proof {
        passes_are_apart(costs@, limits, n);
        assert(pass_lists(plan@) == ps);
    }
    let mut results: Vec<Option<Vec<BranchOutput>>> = Vec::new();
    let mut k: usize = 0;
    while k < len
        invariant
            0 <= k <= len,
            results@.len() == k,
            forall|j: int| 0 <= j < k ==> #[trigger] results@[j] is None,
        decreases len - k,
    {
        results.push(None);
        k += 1;
    }
    let ghost jobs = jobs_of(items@);
    assert(forall|x: int| 0 <= x < items@.len() ==> #[trigger] jobs[x] == items@[x].job);
    let ghost mut states: Seq<B> = seq![*backend];
    let ghost mut replies: Seq<Result<Vec<GroupOutput>, Error>> = Seq::empty();
    let mut p: usize = 0;
    while p < plan.len()
        invariant
            calls_shared(states, replies, before, items@, ps, want, p as nat),
            states.first() == *old(backend),
            states.last() == *backend,
            0 <= p <= plan@.len(),
            plan@.len() == ps.len(),
            pass_lists(plan@) == ps,
            jobs == jobs_of(items@),
            n == items@.len(),
            results@.len() == n,
            board.slots@.len() == before.len(),
            jobs.no_duplicates(),
            forall|x: int|
                0 <= x < n ==> #[trigger] jobs[x] == items@[x].job && jobs[x] < before.len()
                    && before[jobs[x] as int] is Live && before[jobs[x] as int]->Live_0.diag.passes
                    < usize::MAX,
            forall|q: int, a: int|
                0 <= q < ps.len() && 0 <= a < ps[q].len() ==> #[trigger] ps[q][a] < n,
            forall|q: int, a: int, r: int, b: int|
                0 <= q < ps.len() && 0 <= a < ps[q].len() && 0 <= r < ps.len() && 0 <= b
                    < ps[r].len() && (q != r || a != b) ==> #[trigger] ps[q][a]
                    != #[trigger] ps[r][b],
            forall|j: int|
                0 <= j < before.len() && !jobs.contains(j as usize) ==> #[trigger] board.slots@[j]
                    == before[j],
            forall|q: int, a: int|
                0 <= q < p && 0 <= a < ps[q].len() ==> #[trigger] settled(
                    before,
                    board.slots@,
                    items@,
                    results@,
                    replies,
                    ps,
                    q,
                    a,
                ),
            forall|q: int, a: int|
                p <= q < ps.len() && 0 <= a < ps[q].len() ==> #[trigger] waiting(
                    before,
                    board.slots@,
                    items@,
                    results@,
                    ps,
                    q,
                    a,
                ),
        decreases plan@.len() - p,
    {
        let chunk: &Vec<usize> = &plan[p];
        let ghost mid = board.slots@;
        let ghost held = results@;
        let ghost cj = chunk_jobs(items@, chunk@);
        proof {
            assert(ps[p as int] == chunk@);
            assert forall|a: int| 0 <= a < chunk@.len() implies (#[trigger] chunk@[a]) < n
                && mid[items@[chunk@[a] as int].job as int] == before[items@[chunk@[a] as int].job as int]
                && held[chunk@[a] as int] is None by {
                assert(ps[p as int][a] < n);
                assert(waiting(before, mid, items@, held, ps, p as int, a));
            }
            assert forall|a: int, b: int|
                0 <= a < chunk@.len() && 0 <= b < chunk@.len() && a != b implies chunk@[a]
                != chunk@[b] by {
                assert(ps[p as int][a] != ps[p as int][b]);
            }
            assert(chunk@.no_duplicates());
            assert forall|a: int| 0 <= a < cj.len() implies (#[trigger] cj[a]) < mid.len()
                && mid[cj[a] as int] is Live && mid[cj[a] as int]->Live_0.diag.passes
                < usize::MAX && cj[a] == jobs[chunk@[a] as int] by {
                assert(chunk@[a] < n);
                assert(jobs[chunk@[a] as int] == items@[chunk@[a] as int].job);
            }
            assert forall|a: int, b: int|
                0 <= a < cj.len() && 0 <= b < cj.len() && a != b implies cj[a] != cj[b] by {
                assert(chunk@[a] != chunk@[b]);
                assert(cj[a] == jobs[chunk@[a] as int] && cj[b] == jobs[chunk@[b] as int]);
            }
            assert(board.runs(cj));
            assert(chunk_runs(*board, items@, chunk@));
            assert forall|a: int| 0 <= a < chunk@.len() implies (#[trigger] chunk@[a])
                < items@.len() && items@[chunk@[a] as int].job < board.slots@.len()
                && board.slots@[items@[chunk@[a] as int].job as int] is Live by {
                assert(cj[a] == items@[chunk@[a] as int].job);
            }
        }
        let groups: Vec<Group<'_>> = groups_of(board, items, chunk);
        let ghost had = replies;
        let ghost were = states;
        let given = backend.evaluate_many(&groups, want);
        proof {
            assert(pass_groups(mid, items@, chunk@) =~= pass_groups(before, items@, ps[p as int]));
            replies = had.push(given);
            states = were.push(*backend);
            assert forall|x: int| 0 <= x < p + 1 implies states[x].evaluates_many(
                pass_groups(before, items@, ps[x]),
                want,
                #[trigger] replies[x],
                &states[x + 1],
            ) by {
                if x < p {
                    assert(replies[x] == had[x]);
                    assert(states[x] == were[x] && states[x + 1] == were[x + 1]);
                }
            }
            assert(calls_shared(states, replies, before, items@, ps, want, (p + 1) as nat));
        }
        match given {
            Ok(outs) => deliver_pass(board, items, chunk, outs, &mut results),
            Err(e) => {
                let failed: Vec<usize> = jobs_in(items, chunk);
                board.fail_pass(&failed, &e);
            },
        }
        proof {
            // Items of other passes have other jobs and keep what they had.
            assert forall|q: int, a: int|
                0 <= q < ps.len() && q != p && 0 <= a < ps[q].len() implies {
                let k = (#[trigger] ps[q][a]) as int;
                board.slots@[items@[k].job as int] == mid[items@[k].job as int] && results@[k]
                    == held[k]
            } by {
                let k = ps[q][a] as int;
                assert(jobs[k] == items@[k].job);
                if cj.contains(items@[k].job) {
                    let b = choose|b: int| 0 <= b < cj.len() && cj[b] == items@[k].job;
                    assert(cj[b] == jobs[chunk@[b] as int]);
                    assert(ps[p as int][b] != ps[q][a]);
                    assert(false);
                }
                if chunk@.contains(k as usize) {
                    let b = choose|b: int| 0 <= b < chunk@.len() && chunk@[b] == k as usize;
                    assert(ps[p as int][b] != ps[q][a]);
                    assert(false);
                }
            }
            assert forall|a: int| 0 <= a < ps[p as int].len() implies #[trigger] settled(
                before,
                board.slots@,
                items@,
                results@,
                replies,
                ps,
                p as int,
                a,
            ) by {
                let k = chunk@[a] as int;
                assert(cj[a] == items@[k].job);
                assert(ps[p as int][a] == chunk@[a]);
            }
            assert forall|q: int, a: int| 0 <= q < p && 0 <= a < ps[q].len() implies #[trigger] settled(
                before,
                board.slots@,
                items@,
                results@,
                replies,
                ps,
                q,
                a,
            ) by {
                assert(settled(before, mid, items@, held, had, ps, q, a));
                assert(replies[q] == had[q]);
                assert(ps[q][a] < n);
            }
            assert forall|q: int, a: int|
                p < q < ps.len() && 0 <= a < ps[q].len() implies #[trigger] waiting(
                before,
                board.slots@,
                items@,
                results@,
                ps,
                q,
                a,
            ) by {
                assert(waiting(before, mid, items@, held, ps, q, a));
                assert(ps[q][a] < n);
            }
            assert forall|j: int| 0 <= j < before.len() && !jobs.contains(j as usize) implies #[trigger] board.slots@[j]
                == before[j] by {
                if cj.contains(j as usize) {
                    let b = choose|b: int| 0 <= b < cj.len() && cj[b] == j as usize;
                    assert(jobs[chunk@[b] as int] == j as usize);
                }
                assert(mid[j] == before[j]);
            }
        }
        p += 1;
    }
    proof {
        assert(p == ps.len());
        assert(calls_shared(states, replies, before, items@, ps, want, ps.len()));
        assert forall|q: int, a: int| 0 <= q < ps.len() && 0 <= a < ps[q].len() implies {
            let k = (#[trigger] ps[q][a]) as int;
            let j = items@[k].job as int;
            replied(before[j], board.slots@[j], results@[k], replies[q], a, ps[q].len())
        } by {
            assert(settled(before, board.slots@, items@, results@, replies, ps, q, a));
        }
    }
    results
}

/// Calls of a backend that hand it branches one by one: call `b` is given the
/// prefix and branch `b` alone, takes the backend from `states[b]` to the next
/// state and returns `replies[b]`.
pub open spec fn calls_apart<B: Backend>(
    states: Seq<B>,
    replies: Seq<Result<Vec<BranchOutput>, Error>>,
    prefix: Seq<Token>,
    packed: Seq<BranchTokens>,
    want: Want,
) -> bool {
    &&& states.len() == replies.len() + 1
    &&& replies.len() <= packed.len()
    &&& forall|b: int|
        0 <= b < replies.len() ==> states[b].evaluates(
            prefix,
            seq![packed[b]],
            want,
            #[trigger] replies[b],
            &states[b + 1],
        )
}

/// The outputs of successful replies, one reply's after the other's.
pub open spec fn outputs_in(replies: Seq<Result<Vec<BranchOutput>, Error>>) -> Seq<BranchOutput>
    decreases replies.len(),
{
    if replies.len() == 0 {
        Seq::empty()
    } else {
        outputs_in(replies.drop_last()) + replies.last()->Ok_0@
    }
}

/// What `n` branches come to: all outputs where a reply came for each branch
/// and each succeeded, else the error of the last reply, the first to fail.
pub open spec fn comes_to(
    replies: Seq<Result<Vec<BranchOutput>, Error>>,
    n: nat,
    r: Result<Vec<BranchOutput>, Error>,
) -> bool {
    match r {
        Ok(outs) => {
            &&& replies.len() == n
            &&& forall|b: int| 0 <= b < n ==> (#[trigger] replies[b]) is Ok
            &&& outs@ == outputs_in(replies)
        },
        Err(e) => {
            &&& replies.len() > 0
            &&& forall|b: int| 0 <= b < replies.len() - 1 ==> (#[trigger] replies[b]) is Ok
            &&& replies.last() == Err::<Vec<BranchOutput>, Error>(e)
        },
    }
}

/// Handing the branches to the backend one by one, up to the first that fails,
/// comes to `r`.
pub open spec fn evaluated_apart<B: Backend>(
    start: B,
    end: B,
    prefix: Seq<Token>,
    packed: Seq<BranchTokens>,
    want: Want,
    r: Result<Vec<BranchOutput>, Error>,
) -> bool {
    exists|states: Seq<B>, replies: Seq<Result<Vec<BranchOutput>, Error>>|
        {
            &&& #[trigger] calls_apart(states, replies, prefix, packed, want)
            &&& states.first() == start
            &&& states.last() == end
            &&& comes_to(replies, packed.len(), r)
        }
}

/// Evaluates one item's branches one by one on the job's prefix, up to the
/// first that fails.
fn evaluate_apart<B: Backend>(
    prefix: &Vec<Token>,
    backend: &mut B,
    packed: &Vec<BranchTokens>,
    want: Want,
) -> (r: Result<Vec<BranchOutput>, Error>)
    ensures
        evaluated_apart(*old(backend), *final(backend), prefix@, packed@, want, r),
{
    let mut outs: Vec<BranchOutput> = Vec::new();
    let len: usize = packed.len();
    let mut b: usize = 0;
    let ghost mut states: Seq<B> = seq![*backend];
    let ghost mut replies: Seq<Result<Vec<BranchOutput>, Error>> = Seq::empty();
    while b < len
        invariant
            0 <= b <= len,
            len == packed@.len(),
            replies.len() == b,
            calls_apart(states, replies, prefix@, packed@, want),
            states.first() == *old(backend),
            states.last() == *backend,
            forall|x: int| 0 <= x < b ==> (#[trigger] replies[x]) is Ok,
            outs@ == outputs_in(replies),
        decreases len - b,
    {
        let one: &[BranchTokens] = slice_subrange(packed.as_slice(), b, b + 1);
        let ghost before = replies;
        let ghost passed = states;
        let reply = backend.evaluate(prefix.as_slice(), one, want);
        proof {
            assert(one@ =~= seq![packed@[b as int]]);
            replies = before.push(reply);
            states = passed.push(*backend);
            assert forall|x: int| 0 <= x < replies.len() implies states[x].evaluates(
                prefix@,
                seq![packed@[x]],
                want,
                #[trigger] replies[x],
                &states[x + 1],
            ) by {
                if x < b {
                    assert(replies[x] == before[x]);
                    assert(states[x] == passed[x] && states[x + 1] == passed[x + 1]);
                }
            }
            assert(replies.drop_last() =~= before);
        }
        match reply {
            Ok(o) => {
                let mut o: Vec<BranchOutput> = o;
                outs.append(&mut o);
            },
            Err(e) => {
                assert(calls_apart(states, replies, prefix@, packed@, want));
                return Err(e);
            },
        }
        b += 1;
    }
    Ok(outs)
}

/// A slot after the branches of its job went to the backend one by one and
/// came to `given`: every branch is counted as a pass where all went well, else
/// the job failed.
pub open spec fn went_apart(
    before: Slot,
    after: Slot,
    r: Option<Vec<BranchOutput>>,
    given: Result<Vec<BranchOutput>, Error>,
    branches: nat,
    source: Option<PrefixSource>,
) -> bool {
    match given {
        Ok(outs) => {
            let a = before->Live_0.diag;
            &&& r == Some(outs)
            &&& same_but_diag(before, after)
            &&& after->Live_0.diag == (Diagnostics {
                passes: (a.passes + branches) as usize,
                prefix_source: source,
                ..a
            })
        },
        Err(e) => r is None && after == Slot::Failed(e),
    }
}

/// Records what evaluating the item's branches one by one gave.
pub fn deliver_apart(
    board: &mut Board,
    it: &Item,
    source: Option<PrefixSource>,
    given: Result<Vec<BranchOutput>, Error>,
) -> (r: Option<Vec<BranchOutput>>)
    requires
        it.job < old(board).slots@.len(),
        old(board).slots@[it.job as int] is Live,
        old(board).slots@[it.job as int]->Live_0.diag.passes + it.packed@.len() <= usize::MAX,
    ensures
        final(board).slots@.len() == old(board).slots@.len(),
        forall|j: int|
            0 <= j < old(board).slots@.len() && j != it.job ==> #[trigger] final(board).slots@[j]
                == old(board).slots@[j],
        went_apart(
            old(board).slots@[it.job as int],
            final(board).slots@[it.job as int],
            r,
            given,
            it.packed@.len(),
            source,
        ),
{
    board.note_passes(it.job, it.packed.len());
    board.note_source(it.job, source);
    match given {
        Ok(outs) => Some(outs),
        Err(e) => {
            board.fail(it.job, e);
            None
        },
    }
}

/// The first `n` items went to the backend one after the other: item `k` took
/// it from `turns[k]` to the next state, on its job's prefix, and has what its
/// branches came to.
pub open spec fn turns_apart<B: Backend>(
    turns: Seq<B>,
    given: Seq<Result<Vec<BranchOutput>, Error>>,
    before: Seq<Slot>,
    after: Seq<Slot>,
    items: Seq<Item>,
    want: Want,
    r: Seq<Option<Vec<BranchOutput>>>,
    n: nat,
) -> bool {
    &&& turns.len() == n + 1
    &&& given.len() == n
    &&& forall|k: int|
        #![trigger given[k]]
        0 <= k < n ==> {
            let j = items[k].job as int;
            &&& evaluated_apart(
                turns[k],
                turns[k + 1],
                before[j]->Live_0.prefix@,
                items[k].packed@,
                want,
                given[k],
            )
            &&& went_apart(
                before[j],
                after[j],
                r[k],
                given[k],
                items[k].packed@.len(),
                turns[k + 1].last_source(),
            )
        }
}

/// Every item's branches went to the backend on their own, item by item, and
/// every item has what its branches came to.
pub open spec fn separate_turns<B: Backend>(
    start: B,
    end: B,
    before: Seq<Slot>,
    after: Seq<Slot>,
    items: Seq<Item>,
    want: Want,
    r: Seq<Option<Vec<BranchOutput>>>,
) -> bool {
    exists|turns: Seq<B>, given: Seq<Result<Vec<BranchOutput>, Error>>|
        {
            &&& #[trigger] turns_apart(turns, given, before, after, items, want, r, items.len())
            &&& turns.first() == start
            &&& turns.last() == end
        }
}

/// Evaluates every branch of every item on its own, re-evaluating the prefix
/// each time.
pub fn evaluate_separate<B: Backend>(
    board: &mut Board,
    backend: &mut B,
    items: &Vec<Item>,
    want: Want,
) -> (r: Vec<Option<Vec<BranchOutput>>>)
    requires
        items_run(*old(board), items@),
    ensures
        r@.len() == items@.len(),
        final(board).slots@.len() == old(board).slots@.len(),
        forall|j: int|
            0 <= j < old(board).slots@.len() && !jobs_of(items@).contains(j as usize)
                ==> #[trigger] final(board).slots@[j] == old(board).slots@[j],
        separate_turns(
            *old(backend),
            *final(backend),
            old(board).slots@,
            final(board).slots@,
            items@,
            want,
            r@,
        ),
{
    let ghost before = board.slots@;
    let ghost start = *board;
    let ghost jobs = jobs_of(items@);
    let ghost mut turns: Seq<B> = seq![*backend];
    let ghost mut replies: Seq<Result<Vec<BranchOutput>, Error>> = Seq::empty();
    let mut results: Vec<Option<Vec<BranchOutput>>> = Vec::new();
    let mut k: usize = 0;
    while k < items.len()
        invariant
            0 <= k <= items@.len(),
            before == start.slots@,
            items_run(start, items@),
            jobs == jobs_of(items@),
            board.slots@.len() == before.len(),
            results@.len() == k,
            turns.first() == *old(backend),
            turns.last() == *backend,
            forall|j: int|
                0 <= j < before.len() && !jobs.contains(j as usize) ==> #[trigger] board.slots@[j]
                    == before[j],
            forall|x: int|
                k <= x < items@.len() ==> board.slots@[(#[trigger] items@[x]).job as int]
                    == before[items@[x].job as int],
            turns_apart(turns, replies, before, board.slots@, items@, want, results@, k as nat),
        decreases items@.len() - k,
    {
        let it: &Item = &items[k];
        let ghost mid = board.slots@;
        let ghost held = results@;
        let ghost had = replies;
        let ghost were = turns;
        proof {
            assert(jobs[k as int] == it.job);
            assert(countable(start, items@[k as int]));
            assert(mid[it.job as int] == before[it.job as int]);
        }
        let given = match &board.slots[it.job] {
            Slot::Live(job) => evaluate_apart(&job.prefix, backend, &it.packed, want),
            Slot::Failed(e) => {
                assert(false);
                Err(e.clone())
            },
        };
        let ghost reply = given;
        let source = backend.prefix_source();
        let out = deliver_apart(board, it, source, given);
        results.push(out);
        proof {
            replies = had.push(reply);
            turns = were.push(*backend);
            assert forall|x: int| 0 <= x < items@.len() && x != k implies board.slots@[(
            #[trigger] items@[x]).job as int] == mid[items@[x].job as int] by {
                assert(jobs[x] != jobs[k as int]);
                assert(jobs[x] == items@[x].job);
                assert(jobs[x] < before.len());
            }
            assert(jobs.contains(it.job));
            assert forall|x: int|
                #![trigger replies[x]]
                0 <= x < k + 1 implies {
                let j = items@[x].job as int;
                &&& evaluated_apart(
                    turns[x],
                    turns[x + 1],
                    before[j]->Live_0.prefix@,
                    items@[x].packed@,
                    want,
                    replies[x],
                )
                &&& went_apart(
                    before[j],
                    board.slots@[j],
                    results@[x],
                    replies[x],
                    items@[x].packed@.len(),
                    turns[x + 1].last_source(),
                )
            } by {
                if x < k {
                    assert(replies[x] == had[x]);
                    assert(turns[x] == were[x] && turns[x + 1] == were[x + 1]);
                    assert(results@[x] == held[x]);
                    assert(board.slots@[items@[x].job as int] == mid[items@[x].job as int]);
                }
            }
        }
        k += 1;
    }
    results
}

/// Evaluates the items of a batch as the mode says.
pub fn evaluate_items<B: Backend>(
    board: &mut Board,
    backend: &mut B,
    items: &Vec<Item>,
    mode: Mode,
    want: Want,
) -> (r: Vec<Option<Vec<BranchOutput>>>)
    requires
        items_run(*old(board), items@),
    ensures
        r@.len() == items@.len(),
        final(board).slots@.len() == old(board).slots@.len(),
        forall|j: int|
            0 <= j < old(board).slots@.len() && !jobs_of(items@).contains(j as usize)
                ==> #[trigger] final(board).slots@[j] == old(board).slots@[j],
        mode == Mode::Separate ==> separate_turns(
            *old(backend),
            *final(backend),
            old(board).slots@,
            final(board).slots@,
            items@,
            want,
            r@,
        ),
        mode == Mode::Packed ==> shared_passes(
            *old(backend),
            *final(backend),
            old(board).slots@,
            final(board).slots@,
            items@,
            old(backend).pass_limits(),
            want,
            r@,
        ),
{
    match mode {
        Mode::Separate => evaluate_separate(board, backend, items, want),
        Mode::Packed => {
            let limits: Limits = backend.limits();
            evaluate_packed(board, backend, items, limits, want)
        },
    }
}

/// How many branches of an item have an output.
pub open spec fn answered(it: Item, outs: Seq<BranchOutput>) -> nat {
    if it.branches@.len() < outs.len() {
        it.branches@.len()
    } else {
        outs.len()
    }
}

/// The error of the first of the `n` branches whose rows cannot be read.
pub open spec fn readings_fault(
    r: Readout,
    it: Item,
    outs: Seq<BranchOutput>,
    n: nat,
) -> Option<ErrorView>
    decreases n,
{
    if n == 0 {
        None
    } else {
        match readings_fault(r, it, outs, (n - 1) as nat) {
            Some(e) => Some(e),
            None => gather_fault(r, it.branches@[n - 1], outs[n - 1]),
        }
    }
}

proof fn readings_fault_stays(r: Readout, it: Item, outs: Seq<BranchOutput>, i: nat, n: nat)
    requires
        i <= n,
        readings_fault(r, it, outs, i) is Some,
    ensures
        readings_fault(r, it, outs, n) == readings_fault(r, it, outs, i),
    decreases n - i,
{
    if i < n {
        readings_fault_stays(r, it, outs, i + 1, n);
    }
}

/// Reads the outputs of an item's branches.
pub fn read_item(readout: &Readout, it: &Item, outs: &Vec<BranchOutput>) -> (r: Result<
    Vec<Reading>,
    Error,
>)
    requires
        forall|i: int|
            0 <= i < answered(*it, outs@) ==> gatherable(
                *readout,
                #[trigger] it.branches@[i],
                outs@[i],
                it.label_ids@,
            ),
    ensures
        match r {
            Ok(v) => {
                &&& readings_fault(*readout, *it, outs@, answered(*it, outs@)) is None
                &&& v@.len() == answered(*it, outs@)
                &&& forall|i: int|
                    0 <= i < v@.len() ==> is_reading(
                        *readout,
                        it.branches@[i],
                        outs@[i],
                        it.label_ids@,
                        #[trigger] v@[i],
                    )
            },
            Err(e) => readings_fault(*readout, *it, outs@, answered(*it, outs@)) == Some(e@),
        },
{
    let n: usize = if it.branches.len() < outs.len() {
        it.branches.len()
    } else {
        outs.len()
    };
    let mut v: Vec<Reading> = Vec::new();
    let mut i: usize = 0;
    while i < n
        invariant
            0 <= i <= n,
            n == answered(*it, outs@),
            forall|i: int|
                0 <= i < n ==> gatherable(
                    *readout,
                    #[trigger] it.branches@[i],
                    outs@[i],
                    it.label_ids@,
                ),
            readings_fault(*readout, *it, outs@, i as nat) is None,
            v@.len() == i,
            forall|j: int|
                0 <= j < i ==> is_reading(
                    *readout,
                    it.branches@[j],
                    outs@[j],
                    it.label_ids@,
                    #[trigger] v@[j],
                ),
        decreases n - i,
    {
        assert(gatherable(*readout, it.branches@[i as int], outs@[i as int], it.label_ids@));
        match readout.gather(&it.branches[i], &outs[i], &it.label_ids) {
            Ok(x) => v.push(x),
            Err(e) => {
                proof {
                    readings_fault_stays(*readout, *it, outs@, (i + 1) as nat, n as nat);
                }
                return Err(e);
            },
        }
        i += 1;
    }
    Ok(v)
}

/// The error of tokenizing a rendered request, if it cannot be tokenized.
pub open spec fn pack_fault<B: Backend>(
    b: &B,
    prefix: Seq<SegmentView>,
    branches: Seq<BranchView>,
) -> Option<ErrorView> {
    match token_fault(b, prefix) {
        Some(e) => Some(e),
        None => branches_fault(b, branches),
    }
}

/// Hidden-state rows at every mark of every branch, in one evaluation, under
/// explicit option orders: the branches and what the backend gave for them.
pub fn hidden_rows<B: Backend>(
    backend: &mut B,
    renderer: &Renderer,
    req: &Request,
    orders: &IndexMap<String, Vec<usize>>,
) -> (r: Result<(Vec<RenderedBranch>, Vec<BranchOutput>), Error>)
    requires
        orders_fit(questions_of(req.questions), orders_of(*orders)),
        forall|i: int|
            0 <= i < questions_of(req.questions).len() ==> marks_readable(
                old(backend),
                #[trigger] branch_views(
                    renderer@,
                    questions_of(req.questions),
                    orders_of(*orders),
                )[i],
            ),
    ensures
        ({
            let branches = branch_views(
                renderer@,
                questions_of(req.questions),
                orders_of(*orders),
            );
            let fault = pack_fault(
                old(backend),
                prefix_view(renderer@, state_block(req.state@)),
                branches,
            );
            match fault {
                Some(f) => r is Err && r->Err_0@ == f && *final(backend) == *old(backend),
                None => exists|packed: Seq<BranchTokens>| #[trigger]
                    packed_views(packed) == branches.map_values(
                        |v: BranchView| packed_branch(old(backend), v),
                    ) && old(backend).evaluates(
                        all_tokens(old(backend), prefix_view(renderer@, state_block(req.state@))),
                        packed,
                        Want::Hidden,
                        match r {
                            Ok((_, outs)) => Ok(outs),
                            Err(e) => Err(e),
                        },
                        &*final(backend),
                    ),
            }
        }),
        r matches Ok((b, _)) ==> branches_of(b@) == branch_views(
            renderer@,
            questions_of(req.questions),
            orders_of(*orders),
        ),
{
    let rendered: Rendered = renderer.render_with(req, orders);
    let ghost vs = branches_of(rendered.branches@);
    let start: &B = backend;
    proof {
        assert forall|i: int| 0 <= i < rendered.branches@.len() implies marks_readable(
            start,
            (#[trigger] rendered.branches@[i])@,
        ) by {
            assert(vs[i] == rendered.branches@[i]@);
            assert(vs.len() == questions_of(req.questions).len());
        }
    }
    let packed = match pack(start, &rendered) {
        Ok(p) => p,
        Err(e) => {
            return Err(e);
        },
    };
    assert(packed_views(packed.branches@) == vs.map_values(
        |v: BranchView| packed_branch(old(backend), v),
    ));
    match backend.evaluate(packed.prefix.as_slice(), packed.branches.as_slice(), Want::Hidden) {
        Ok(outs) => Ok((rendered.branches, outs)),
        Err(e) => Err(e),
    }
}

/// The rows of outputs.
pub open spec fn row_views(outs: Seq<BranchOutput>) -> Seq<Seq<Seq<u32>>> {
    outs.map_values(|o: BranchOutput| o.rows@.map_values(|row: Vec<u32>| row@))
}

/// The rows of branches where those of a branch are `f` of the prefix, the
/// branch and what is wanted.
pub open spec fn own_rows(
    f: spec_fn(Seq<Token>, BranchTokensView, Want) -> Seq<Seq<u32>>,
    prefix: Seq<Token>,
    packed: Seq<BranchTokens>,
    want: Want,
) -> Seq<Seq<Seq<u32>>> {
    packed.map_values(|b: BranchTokens| f(prefix, b@, want))
}

/// A backend that keeps branches and requests apart: whatever it answers, the
/// rows of a branch are `f` of its prefix, the branch and what is wanted.
pub open spec fn isolates<B: Backend>(
    f: spec_fn(Seq<Token>, BranchTokensView, Want) -> Seq<Seq<u32>>,
) -> bool {
    &&& forall|
        b: B,
        prefix: Seq<Token>,
        packed: Seq<BranchTokens>,
        want: Want,
        r: Result<Vec<BranchOutput>, Error>,
        after: B,
    | #[trigger]
        b.evaluates(prefix, packed, want, r, &after) && r is Ok ==> row_views(r->Ok_0@) == own_rows(
            f,
            prefix,
            packed,
            want,
        )
    &&& forall|
        b: B,
        groups: Seq<(Seq<Token>, Seq<BranchTokens>)>,
        want: Want,
        r: Result<Vec<GroupOutput>, Error>,
        after: B,
        a: int,
    |
        #![trigger b.evaluates_many(groups, want, r, &after), groups[a]]
        b.evaluates_many(groups, want, r, &after) && r is Ok && 0 <= a < groups.len() && a
            < r->Ok_0@.len() ==> row_views(r->Ok_0@[a].branches@) == own_rows(
            f,
            groups[a].0,
            groups[a].1,
            want,
        )
}

proof fn apart_rows<B: Backend>(
    f: spec_fn(Seq<Token>, BranchTokensView, Want) -> Seq<Seq<u32>>,
    states: Seq<B>,
    replies: Seq<Result<Vec<BranchOutput>, Error>>,
    prefix: Seq<Token>,
    packed: Seq<BranchTokens>,
    want: Want,
)
    requires
        isolates::<B>(f),
        calls_apart(states, replies, prefix, packed, want),
        forall|b: int| 0 <= b < replies.len() ==> (#[trigger] replies[b]) is Ok,
    ensures
        row_views(outputs_in(replies)) == own_rows(
            f,
            prefix,
            packed.take(replies.len() as int),
            want,
        ),
    decreases replies.len(),
{
    let n = replies.len() as int;
    if n > 0 {
        let rest = replies.drop_last();
        assert(calls_apart(states.drop_last(), rest, prefix, packed, want)) by {
            assert forall|b: int| 0 <= b < rest.len() implies states.drop_last()[b].evaluates(
                prefix,
                seq![packed[b]],
                want,
                #[trigger] rest[b],
                &states.drop_last()[b + 1],
            ) by {
                assert(rest[b] == replies[b]);
            }
        }
        assert forall|b: int| 0 <= b < rest.len() implies (#[trigger] rest[b]) is Ok by {
            assert(rest[b] == replies[b]);
        }
        apart_rows(f, states.drop_last(), rest, prefix, packed, want);
        let last = replies[n - 1];
        assert(states[n - 1].evaluates(prefix, seq![packed[n - 1]], want, last, &states[n]));
        assert(row_views(last->Ok_0@) == own_rows(f, prefix, seq![packed[n - 1]], want));
        assert(row_views(outputs_in(replies)) =~= row_views(outputs_in(rest)) + row_views(
            last->Ok_0@,
        ));
        assert(own_rows(f, prefix, packed.take(n), want) =~= own_rows(
            f,
            prefix,
            packed.take(n - 1),
            want,
        ) + own_rows(f, prefix, seq![packed[n - 1]], want));
    } else {
        assert(row_views(outputs_in(replies)) =~= own_rows(f, prefix, packed.take(0), want));
    }
}

/// Every item goes in a pass.
proof fn in_a_pass(costs: Seq<Cost>, limits: Limits, n: nat, k: int) -> (r: (int, int))
    requires
        0 <= k < n <= usize::MAX,
    ensures
        0 <= r.0 < passes(costs, limits, n).len(),
        0 <= r.1 < passes(costs, limits, n)[r.0].len(),
        passes(costs, limits, n)[r.0][r.1] == k,
    decreases n,
{
    let all = passes(costs, limits, n);
    let rest = passes(costs, limits, (n - 1) as nat);
    if k == n - 1 {
        (all.len() - 1, all.last().len() - 1)
    } else {
        in_a_pass(costs, limits, (n - 1) as nat, k)
    }
}

/// On a backend that keeps requests apart, an item of shared passes has the
/// rows of its own prefix and branches, whatever else went in its pass.
pub proof fn shared_rows_are_the_items_own<B: Backend>(
    f: spec_fn(Seq<Token>, BranchTokensView, Want) -> Seq<Seq<u32>>,
    start: B,
    end: B,
    before: Seq<Slot>,
    after: Seq<Slot>,
    items: Seq<Item>,
    limits: Limits,
    want: Want,
    r: Seq<Option<Vec<BranchOutput>>>,
    k: int,
)
    requires
        isolates::<B>(f),
        shared_passes(start, end, before, after, items, limits, want, r),
        0 <= k < items.len() <= usize::MAX,
        r[k] is Some,
    ensures
        row_views(r[k]->0@) == own_rows(
            f,
            before[items[k].job as int]->Live_0.prefix@,
            items[k].packed@,
            want,
        ),
{
    let costs = items.map_values(
        |it: Item| cost_view(before[it.job as int]->Live_0.prefix@, it.packed@),
    );
    let ps = passes(costs, limits, items.len());
    let (states, replies) = choose|states: Seq<B>, replies: Seq<Result<Vec<GroupOutput>, Error>>|
        {
            &&& #[trigger] calls_shared(states, replies, before, items, ps, want, ps.len())
            &&& states.first() == start
            &&& states.last() == end
            &&& forall|p: int, a: int|
                0 <= p < ps.len() && 0 <= a < ps[p].len() ==> {
                    let k = (#[trigger] ps[p][a]) as int;
                    let j = items[k].job as int;
                    replied(before[j], after[j], r[k], replies[p], a, ps[p].len())
                }
        };
    let (p, a) = in_a_pass(costs, limits, items.len(), k);
    let j = items[k].job as int;
    assert(replied(before[j], after[j], r[k], replies[p], a, ps[p].len()));
    let groups = pass_groups(before, items, ps[p]);
    assert(states[p].evaluates_many(groups, want, replies[p], &states[p + 1]));
    assert(groups[a] == (before[j]->Live_0.prefix@, items[k].packed@));
}

/// On a backend that keeps branches apart, an item whose branches went one by
/// one has the rows of its own prefix and branches, and every branch is
/// counted as a pass.
pub proof fn separate_rows_are_the_items_own<B: Backend>(
    f: spec_fn(Seq<Token>, BranchTokensView, Want) -> Seq<Seq<u32>>,
    start: B,
    end: B,
    before: Seq<Slot>,
    after: Seq<Slot>,
    items: Seq<Item>,
    want: Want,
    r: Seq<Option<Vec<BranchOutput>>>,
    k: int,
)
    requires
        isolates::<B>(f),
        separate_turns(start, end, before, after, items, want, r),
        0 <= k < items.len(),
        r[k] is Some,
    ensures
        row_views(r[k]->0@) == own_rows(
            f,
            before[items[k].job as int]->Live_0.prefix@,
            items[k].packed@,
            want,
        ),
        after[items[k].job as int]->Live_0.diag.passes == (
        before[items[k].job as int]->Live_0.diag.passes + items[k].packed@.len()) as usize,
{
    let (turns, given) = choose|turns: Seq<B>, given: Seq<Result<Vec<BranchOutput>, Error>>|
        {
            &&& #[trigger] turns_apart(turns, given, before, after, items, want, r, items.len())
            &&& turns.first() == start
            &&& turns.last() == end
        };
    let one = given[k];
    let prefix = before[items[k].job as int]->Live_0.prefix@;
    let packed = items[k].packed@;
    assert(evaluated_apart(turns[k], turns[k + 1], prefix, packed, want, one));
    let (states, replies) = choose|states: Seq<B>, replies: Seq<Result<Vec<BranchOutput>, Error>>|
        {
            &&& #[trigger] calls_apart(states, replies, prefix, packed, want)
            &&& states.first() == turns[k]
            &&& states.last() == turns[k + 1]
            &&& comes_to(replies, packed.len(), one)
        };
    apart_rows(f, states, replies, prefix, packed, want);
    assert(packed.take(packed.len() as int) =~= packed);
}

/// Packing changes no answer: on a backend that keeps branches apart, an item
/// has the same rows from shared passes as from passes of its branches one by
/// one.
pub proof fn packed_and_separate_rows_agree<B: Backend>(
    f: spec_fn(Seq<Token>, BranchTokensView, Want) -> Seq<Seq<u32>>,
    packed: (B, B),
    separate: (B, B),
    before: Seq<Slot>,
    after_packed: Seq<Slot>,
    after_separate: Seq<Slot>,
    items: Seq<Item>,
    limits: Limits,
    want: Want,
    r_packed: Seq<Option<Vec<BranchOutput>>>,
    r_separate: Seq<Option<Vec<BranchOutput>>>,
    k: int,
)
    requires
        isolates::<B>(f),
        shared_passes(packed.0, packed.1, before, after_packed, items, limits, want, r_packed),
        separate_turns(separate.0, separate.1, before, after_separate, items, want, r_separate),
        0 <= k < items.len() <= usize::MAX,
        r_packed[k] is Some,
        r_separate[k] is Some,
    ensures
        row_views(r_packed[k]->0@) == row_views(r_separate[k]->0@),
{
    shared_rows_are_the_items_own(
        f,
        packed.0,
        packed.1,
        before,
        after_packed,
        items,
        limits,
        want,
        r_packed,
        k,
    );
    separate_rows_are_the_items_own(
        f,
        separate.0,
        separate.1,
        before,
        after_separate,
        items,
        want,
        r_separate,
        k,
    );
}

/// A batch gives a request what it gets alone: on a backend that keeps
/// requests apart, an item has the same rows in any two runs, whatever other
/// items they evaluate and whichever requests were refused beside it.
pub proof fn a_batch_gives_what_a_request_gets_alone<B: Backend>(
    f: spec_fn(Seq<Token>, BranchTokensView, Want) -> Seq<Seq<u32>>,
    batch: (B, B),
    alone: (B, B),
    before_batch: Seq<Slot>,
    after_batch: Seq<Slot>,
    before_alone: Seq<Slot>,
    after_alone: Seq<Slot>,
    items_batch: Seq<Item>,
    items_alone: Seq<Item>,
    limits: (Limits, Limits),
    want: Want,
    r_batch: Seq<Option<Vec<BranchOutput>>>,
    r_alone: Seq<Option<Vec<BranchOutput>>>,
    k: int,
    l: int,
)
    requires
        isolates::<B>(f),
        shared_passes(
            batch.0,
            batch.1,
            before_batch,
            after_batch,
            items_batch,
            limits.0,
            want,
            r_batch,
        ),
        shared_passes(
            alone.0,
            alone.1,
            before_alone,
            after_alone,
            items_alone,
            limits.1,
            want,
            r_alone,
        ),
        0 <= k < items_batch.len() <= usize::MAX,
        0 <= l < items_alone.len() <= usize::MAX,
        before_batch[items_batch[k].job as int]->Live_0.prefix@
            == before_alone[items_alone[l].job as int]->Live_0.prefix@,
        packed_views(items_batch[k].packed@) == packed_views(items_alone[l].packed@),
        r_batch[k] is Some,
        r_alone[l] is Some,
    ensures
        row_views(r_batch[k]->0@) == row_views(r_alone[l]->0@),
{
    shared_rows_are_the_items_own(
        f,
        batch.0,
        batch.1,
        before_batch,
        after_batch,
        items_batch,
        limits.0,
        want,
        r_batch,
        k,
    );
    shared_rows_are_the_items_own(
        f,
        alone.0,
        alone.1,
        before_alone,
        after_alone,
        items_alone,
        limits.1,
        want,
        r_alone,
        l,
    );
    let a = items_batch[k].packed@;
    let b = items_alone[l].packed@;
    let prefix = before_batch[items_batch[k].job as int]->Live_0.prefix@;
    assert(packed_views(a).len() == packed_views(b).len());
    assert forall|x: int| 0 <= x < a.len() implies (#[trigger] a[x])@ == b[x]@ by {
        assert(packed_views(a)[x] == packed_views(b)[x]);
    }
    assert(own_rows(f, prefix, a, want) =~= own_rows(f, prefix, b, want));
}

/// As many letters are resolved as the branch with the most options has: no
/// branch has more, and one has as many.
pub proof fn letters_suffice_for_every_branch(b: Seq<RenderedBranch>, n: nat, i: int)
    requires
        0 <= i < n <= b.len(),
    ensures
        b[i].keys@.len() <= most_options(b, n),
        exists|k: int| 0 <= k < n && (#[trigger] b[k]).keys@.len() == most_options(b, n),
    decreases n,
{
    if n > 1 {
        letters_suffice_for_every_branch(b, (n - 1) as nat, if i < n - 1 { i } else { 0 });
        let m = most_options(b, (n - 1) as nat);
        let k = choose|k: int| 0 <= k < n - 1 && (#[trigger] b[k]).keys@.len() == m;
        if b[n - 1].keys@.len() > m {
            assert(b[n - 1].keys@.len() == most_options(b, n));
        } else {
            assert(b[k].keys@.len() == most_options(b, n));
        }
    } else {
        assert(most_options(b, 0) == 0);
        assert(b[0].keys@.len() == most_options(b, 1));
    }
}

/// The outputs of an item are read exactly where the readout reads each of
/// them under its own branch.
pub proof fn readings_pass_exactly_when_each_does(
    r: Readout,
    it: Item,
    outs: Seq<BranchOutput>,
    n: nat,
)
    requires
        n <= outs.len(),
        n <= it.branches@.len(),
    ensures
        readings_fault(r, it, outs, n) is None <==> forall|i: int|
            0 <= i < n ==> gather_fault(r, it.branches@[i], #[trigger] outs[i]) is None,
    decreases n,
{
    if n > 0 {
        readings_pass_exactly_when_each_does(r, it, outs, (n - 1) as nat);
        if readings_fault(r, it, outs, n) is Some {
            assert(outs[n - 1] == outs[n - 1]);
        }
    }
}

} // verus!

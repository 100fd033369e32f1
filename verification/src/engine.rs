//! The life of a batch of requests between planning and answers: which jobs
//! are alive, which of them share a backend pass, and what each pass records.

use indexmap::IndexMap;
use vstd::prelude::*;

use crate::backend::{BranchTokens, PrefixSource, Token};
use crate::error::Error;
use crate::map::no_key_lists;
use crate::plan::Plan;

verus! {

/// Per-request diagnostics, surfaced as headers by a server or printed by a
/// command line.
#[derive(Debug)]
pub struct Diagnostics {
    pub prefix_tokens: usize,
    /// Every branch that was evaluated, with the extra option orders and the
    /// group / finalist branches of a two-stage Choice.
    pub branch_tokens: Vec<usize>,
    /// Number of evaluations (1 when packed; +1 for a baseline pass that was
    /// not served from the cache; +1 for a second pass).
    pub passes: usize,
    /// Where the backend got the state from.
    pub prefix_source: Option<PrefixSource>,
    /// Option orders averaged per Choice / Noul.
    pub orders: usize,
    /// Choices with more options than the label readout can letter: the
    /// finalist keys that went into the second stage.
    pub two_stage: IndexMap<String, Vec<String>>,
    /// Requests that shared a backend pass with this one (1 = alone).
    pub batch: usize,
    /// The questions whose first read fell below the threshold and were
    /// re-asked under the other orders.
    pub rechecked: Vec<String>,
}

/// How branches are evaluated.
#[derive(Debug, Clone, Copy, PartialEq, Eq, Structural)]
pub enum Mode {
    /// Every branch in one evaluation: state once, one pass.
    Packed,
    /// One evaluation per branch, re-evaluating the prefix each time. Only for
    /// checking that packing does not change the numbers.
    Separate,
}

/// What a backend takes in one pass.
#[derive(Debug, Clone, Copy, PartialEq, Eq, Structural)]
pub struct Limits {
    pub tokens: usize,
    pub sequences: usize,
    pub rows: usize,
}

impl Default for Limits {
    fn default() -> (l: Limits)
        ensures
            l == (Limits { tokens: usize::MAX, sequences: usize::MAX, rows: usize::MAX }),
    {
        Limits { tokens: usize::MAX, sequences: usize::MAX, rows: usize::MAX }
    }
}

/// What one job asks of a pass.
#[derive(Debug, Clone, Copy, PartialEq, Eq, Structural)]
pub struct Cost {
    pub tokens: usize,
    pub sequences: usize,
    pub rows: usize,
}

/// The tokens of the first `n` branches.
pub open spec fn branch_token_sum(b: Seq<BranchTokens>, n: nat) -> nat
    decreases n,
{
    if n == 0 {
        0
    } else {
        branch_token_sum(b, (n - 1) as nat) + b[n - 1].tokens@.len()
    }
}

/// The wanted rows of the first `n` branches.
pub open spec fn branch_row_sum(b: Seq<BranchTokens>, n: nat) -> nat
    decreases n,
{
    if n == 0 {
        0
    } else {
        branch_row_sum(b, (n - 1) as nat) + b[n - 1].want@.len()
    }
}

proof fn sums_grow(b: Seq<BranchTokens>, i: nat, n: nat)
    requires
        i <= n <= b.len(),
    ensures
        branch_token_sum(b, i) <= branch_token_sum(b, n),
        branch_row_sum(b, i) <= branch_row_sum(b, n),
    decreases n - i,
{
    if i < n {
        sums_grow(b, i + 1, n);
    }
}

impl Cost {
    /// The cost of a prefix with its branches: every token once, one sequence
    /// for the prefix and one per branch, one row per wanted place.
    pub fn of(prefix: &Vec<Token>, branches: &Vec<BranchTokens>) -> (c: Cost)
        requires
            prefix@.len() + branch_token_sum(branches@, branches@.len()) <= usize::MAX,
            branch_row_sum(branches@, branches@.len()) <= usize::MAX,
            branches@.len() < usize::MAX,
        ensures
            c.tokens == prefix@.len() + branch_token_sum(branches@, branches@.len()),
            c.sequences == 1 + branches@.len(),
            c.rows == branch_row_sum(branches@, branches@.len()),
    {
        let mut tokens: usize = prefix.len();
        let mut rows: usize = 0;
        let mut i: usize = 0;
        while i < branches.len()
            invariant
                0 <= i <= branches@.len(),
                prefix@.len() + branch_token_sum(branches@, branches@.len()) <= usize::MAX,
                branch_row_sum(branches@, branches@.len()) <= usize::MAX,
                tokens == prefix@.len() + branch_token_sum(branches@, i as nat),
                rows == branch_row_sum(branches@, i as nat),
            decreases branches@.len() - i,
        {
            proof {
                sums_grow(branches@, (i + 1) as nat, branches@.len());
            }
            tokens += branches[i].tokens.len();
            rows += branches[i].want.len();
            i += 1;
        }
        Cost { tokens, sequences: 1 + branches.len(), rows }
    }
}

/// The costs of the items `c`, summed.
pub open spec fn tokens_of(costs: Seq<Cost>, c: Seq<usize>) -> nat
    decreases c.len(),
{
    if c.len() == 0 {
        0
    } else {
        tokens_of(costs, c.drop_last()) + costs[c.last() as int].tokens as nat
    }
}

pub open spec fn sequences_of(costs: Seq<Cost>, c: Seq<usize>) -> nat
    decreases c.len(),
{
    if c.len() == 0 {
        0
    } else {
        sequences_of(costs, c.drop_last()) + costs[c.last() as int].sequences as nat
    }
}

pub open spec fn rows_of(costs: Seq<Cost>, c: Seq<usize>) -> nat
    decreases c.len(),
{
    if c.len() == 0 {
        0
    } else {
        rows_of(costs, c.drop_last()) + costs[c.last() as int].rows as nat
    }
}

/// The items `c` go in one pass.
pub open spec fn within(costs: Seq<Cost>, c: Seq<usize>, limits: Limits) -> bool {
    &&& tokens_of(costs, c) <= limits.tokens
    &&& sequences_of(costs, c) <= limits.sequences
    &&& rows_of(costs, c) <= limits.rows
}

/// The first `n` items in passes: each joins the last pass while it fits,
/// else it opens a new one.
pub open spec fn passes(costs: Seq<Cost>, limits: Limits, n: nat) -> Seq<Seq<usize>>
    decreases n,
{
    if n == 0 {
        Seq::empty()
    } else {
        let p = passes(costs, limits, (n - 1) as nat);
        let k = (n - 1) as usize;
        if p.len() > 0 && within(costs, p.last().push(k), limits) {
            p.drop_last().push(p.last().push(k))
        } else {
            p.push(seq![k])
        }
    }
}

/// The lists of a list of passes.
pub open spec fn pass_lists(v: Seq<Vec<usize>>) -> Seq<Seq<usize>> {
    v.map_values(|c: Vec<usize>| c@)
}

/// Items in as few passes as going through them in order allows; a lone item
/// that exceeds the limits still gets its own pass.
pub fn plan_passes(costs: &Vec<Cost>, limits: Limits) -> (r: Vec<Vec<usize>>)
    ensures
        pass_lists(r@) == passes(costs@, limits, costs@.len()),
{
    let mut out: Vec<Vec<usize>> = Vec::new();
    let mut toks: usize = 0;
    let mut seqs: usize = 0;
    let mut rows: usize = 0;
    let mut k: usize = 0;
    assert(pass_lists(out@) =~= passes(costs@, limits, 0));
    while k < costs.len()
        invariant
            0 <= k <= costs@.len(),
            pass_lists(out@) == passes(costs@, limits, k as nat),
            out@.len() > 0 ==> toks == tokens_of(costs@, out@.last()@) && seqs == sequences_of(
                costs@,
                out@.last()@,
            ) && rows == rows_of(costs@, out@.last()@),
        decreases costs@.len() - k,
    {
        let c: Cost = costs[k];
        let ghost before = pass_lists(out@);
        assert(before.len() == out@.len());
        let fits = toks <= limits.tokens && c.tokens <= limits.tokens - toks && seqs
            <= limits.sequences && c.sequences <= limits.sequences - seqs && rows <= limits.rows
            && c.rows <= limits.rows - rows;
        proof {
            if out@.len() > 0 {
                let last = out@.last()@;
                assert(before.last() == last);
                assert(last.push(k).drop_last() =~= last);
                assert(fits == within(costs@, last.push(k), limits));
            }
        }
        match out.pop() {
            Some(last) => {
                let mut last: Vec<usize> = last;
                if fits {
                    last.push(k);
                    toks += c.tokens;
                    seqs += c.sequences;
                    rows += c.rows;
                    out.push(last);
                    assert(pass_lists(out@) =~= before.drop_last().push(before.last().push(k)));
                } else {
                    out.push(last);
                    let mut lone: Vec<usize> = Vec::new();
                    lone.push(k);
                    assert(lone@ =~= seq![k]);
                    proof {
                        lone_sums(costs@, k);
                    }
                    out.push(lone);
                    toks = c.tokens;
                    seqs = c.sequences;
                    rows = c.rows;
                    assert(pass_lists(out@) =~= before.push(seq![k]));
                }
            },
            None => {
                let mut lone: Vec<usize> = Vec::new();
                lone.push(k);
                assert(lone@ =~= seq![k]);
                proof {
                    lone_sums(costs@, k);
                }
                out.push(lone);
                toks = c.tokens;
                seqs = c.sequences;
                rows = c.rows;
                assert(pass_lists(out@) =~= before.push(seq![k]));
            },
        }
        k += 1;
    }
    out
}

proof fn lone_sums(costs: Seq<Cost>, k: usize)
    requires
        k < costs.len(),
    ensures
        tokens_of(costs, seq![k]) == costs[k as int].tokens,
        sequences_of(costs, seq![k]) == costs[k as int].sequences,
        rows_of(costs, seq![k]) == costs[k as int].rows,
{
    reveal_with_fuel(tokens_of, 2);
    reveal_with_fuel(sequences_of, 2);
    reveal_with_fuel(rows_of, 2);
    assert(seq![k].drop_last() =~= Seq::<usize>::empty());
}

/// The passes hold every item once and in order, none is empty, those with
/// company stay within the limits, and no pass could have taken the item that
/// opens the next one.
pub proof fn passes_cover_and_fit(costs: Seq<Cost>, limits: Limits, n: nat)
    requires
        n <= costs.len() <= usize::MAX,
    ensures
        passes(costs, limits, n).flatten() == Seq::new(n, |i: int| i as usize),
        n > 0 ==> passes(costs, limits, n).len() > 0,
        forall|p: int|
            0 <= p < passes(costs, limits, n).len() ==> (#[trigger] passes(
                costs,
                limits,
                n,
            )[p]).len() > 0,
        forall|p: int|
            0 <= p < passes(costs, limits, n).len() && (#[trigger] passes(
                costs,
                limits,
                n,
            )[p]).len() > 1 ==> within(costs, passes(costs, limits, n)[p], limits),
        forall|p: int|
            0 < p < passes(costs, limits, n).len() ==> !within(
                costs,
                passes(costs, limits, n)[p - 1].push((#[trigger] passes(costs, limits, n)[p])[0]),
                limits,
            ),
    decreases n,
{
    let all = passes(costs, limits, n);
    if n == 0 {
        assert(all.flatten() =~= Seq::new(n, |i: int| i as usize));
    } else {
        let k = (n - 1) as usize;
        let rest = passes(costs, limits, (n - 1) as nat);
        passes_cover_and_fit(costs, limits, (n - 1) as nat);
        if rest.len() > 0 && within(costs, rest.last().push(k), limits) {
            let head = rest.drop_last();
            head.lemma_flatten_push(rest.last());
            head.lemma_flatten_push(rest.last().push(k));
            assert(head.push(rest.last()) =~= rest);
            assert(all.flatten() =~= rest.flatten().push(k));
            assert(all.flatten() =~= Seq::new(n, |i: int| i as usize));
            assert forall|p: int| 0 < p < all.len() implies !within(
                costs,
                all[p - 1].push((#[trigger] all[p])[0]),
                limits,
            ) by {
                assert(all[p][0] == rest[p][0]);
                assert(all[p - 1] == rest[p - 1]);
            }
        } else {
            rest.lemma_flatten_push(seq![k]);
            assert(all.flatten() =~= rest.flatten().push(k));
            assert(all.flatten() =~= Seq::new(n, |i: int| i as usize));
            assert forall|p: int| 0 < p < all.len() implies !within(
                costs,
                all[p - 1].push((#[trigger] all[p])[0]),
                limits,
            ) by {
                if p < rest.len() {
                    assert(all[p] == rest[p] && all[p - 1] == rest[p - 1]);
                } else {
                    assert(all[p - 1] == rest.last());
                    assert(all[p][0] == k);
                }
            }
        }
    }
}

/// One request between its passes.
#[derive(Debug)]
pub struct Job {
    pub plan: Plan,
    pub prefix: Vec<Token>,
    pub diag: Diagnostics,
}

/// Where a request of a batch stands: still running, or failed with its own
/// error.
#[derive(Debug)]
pub enum Slot {
    Live(Job),
    Failed(Error),
}

/// A batch of requests. Requests stay independent: one that fails
/// validation, packing or its pass gets its own error and the others go on.
#[derive(Debug)]
pub struct Board {
    pub slots: Vec<Slot>,
}

/// A job that has just been planned.
pub open spec fn fresh(job: Job, plan: Plan, prefix: Vec<Token>, orders: usize) -> bool {
    &&& job.plan == plan
    &&& job.prefix == prefix
    &&& job.diag.prefix_tokens == prefix@.len()
    &&& job.diag.branch_tokens@ == Seq::<usize>::empty()
    &&& job.diag.passes == 0
    &&& job.diag.prefix_source is None
    &&& job.diag.orders == (if orders == 0 {
        1
    } else {
        orders
    })
    &&& crate::map::key_lists_of(job.diag.two_stage) == Seq::<(Seq<char>, Seq<Seq<char>>)>::empty()
    &&& job.diag.batch == 1
    &&& job.diag.rechecked@ == Seq::<String>::empty()
}

/// The diagnostics of a job after a shared pass.
pub open spec fn after_pass(
    old_diag: Diagnostics,
    d: Diagnostics,
    company: nat,
    source: Option<PrefixSource>,
) -> bool {
    &&& d.prefix_tokens == old_diag.prefix_tokens
    &&& d.branch_tokens == old_diag.branch_tokens
    &&& d.passes == old_diag.passes + 1
    &&& d.prefix_source == source
    &&& d.orders == old_diag.orders
    &&& d.two_stage == old_diag.two_stage
    &&& d.batch == (if old_diag.batch < company {
        company
    } else {
        old_diag.batch as nat
    })
    &&& d.rechecked == old_diag.rechecked
}

impl Board {
    /// Opens a batch from what planning and tokenizing the prefix gave for
    /// each request.
    pub fn open(planned: Vec<Result<(Plan, Vec<Token>), Error>>, orders: usize) -> (r: Board)
        ensures
            r.slots@.len() == planned@.len(),
            forall|i: int|
                0 <= i < planned@.len() ==> match #[trigger] r.slots@[i] {
                    Slot::Live(job) => planned@[i] is Ok && fresh(
                        job,
                        planned@[i]->Ok_0.0,
                        planned@[i]->Ok_0.1,
                        orders,
                    ),
                    Slot::Failed(e) => planned@[i] == Err::<(Plan, Vec<Token>), Error>(e),
                },
    {
        let ghost all = planned@;
        let mut rest: Vec<Result<(Plan, Vec<Token>), Error>> = planned;
        let mut back: Vec<Slot> = Vec::new();
        while rest.len() > 0
            invariant
                rest@.len() + back@.len() == all.len(),
                rest@ == all.take(rest@.len() as int),
                forall|j: int|
                    0 <= j < back@.len() ==> match #[trigger] back@[j] {
                        Slot::Live(job) => all[all.len() - 1 - j] is Ok && fresh(
                            job,
                            all[all.len() - 1 - j]->Ok_0.0,
                            all[all.len() - 1 - j]->Ok_0.1,
                            orders,
                        ),
                        Slot::Failed(e) => all[all.len() - 1 - j] == Err::<
                            (Plan, Vec<Token>),
                            Error,
                        >(e),
                    },
            decreases rest@.len(),
        {
            let ghost n = rest@.len();
            match rest.pop() {
                Some(p) => {
                    assert(p == all[n - 1]);
                    match p {
                        Ok((plan, prefix)) => {
                            let diag = Diagnostics {
                                prefix_tokens: prefix.len(),
                                branch_tokens: Vec::new(),
                                passes: 0,
                                prefix_source: None,
                                orders: if orders == 0 {
                                    1
                                } else {
                                    orders
                                },
                                two_stage: no_key_lists(),
                                batch: 1,
                                rechecked: Vec::new(),
                            };
                            back.push(Slot::Live(Job { plan, prefix, diag }));
                        },
                        Err(e) => {
                            back.push(Slot::Failed(e));
                        },
                    }
                },
                None => {},
            }
            assert(rest@ =~= all.take(rest@.len() as int));
        }
        let mut slots: Vec<Slot> = Vec::new();
        let ghost rev = back@;
        while back.len() > 0
            invariant
                back@.len() + slots@.len() == rev.len(),
                rev.len() == all.len(),
                back@ == rev.take(back@.len() as int),
                forall|j: int|
                    0 <= j < slots@.len() ==> #[trigger] slots@[j] == rev[rev.len() - 1 - j],
            decreases back@.len(),
        {
            let ghost n = back@.len();
            match back.pop() {
                Some(x) => {
                    assert(x == rev[n - 1]);
                    slots.push(x);
                },
                None => {},
            }
            assert(back@ =~= rev.take(back@.len() as int));
        }
        Board { slots }
    }

    /// The jobs that are still running, in request order.
    pub open spec fn live_among(self, n: nat) -> Seq<usize>
        decreases n,
    {
        if n == 0 {
            Seq::empty()
        } else {
            let r = self.live_among((n - 1) as nat);
            if self.slots@[n - 1] is Live {
                r.push((n - 1) as usize)
            } else {
                r
            }
        }
    }

    /// The jobs that are still running, in request order.
    pub fn live(&self) -> (r: Vec<usize>)
        ensures
            r@ == self.live_among(self.slots@.len()),
    {
        let mut out: Vec<usize> = Vec::new();
        let mut i: usize = 0;
        while i < self.slots.len()
            invariant
                0 <= i <= self.slots@.len(),
                out@ == self.live_among(i as nat),
            decreases self.slots@.len() - i,
        {
            match &self.slots[i] {
                Slot::Live(_) => {
                    out.push(i);
                },
                Slot::Failed(_) => {},
            }
            i += 1;
        }
        out
    }

    /// Fails job `i` with `e`; the others stay as they are.
    pub fn fail(&mut self, i: usize, e: Error)
        requires
            i < old(self).slots@.len(),
            old(self).slots@[i as int] is Live,
        ensures
            final(self).slots@ == old(self).slots@.update(i as int, Slot::Failed(e)),
    {
        self.slots.set(i, Slot::Failed(e));
    }
}

/// Only the diagnostics of a running job changed.
pub open spec fn same_but_diag(a: Slot, b: Slot) -> bool {
    &&& a is Live
    &&& b is Live
    &&& a->Live_0.plan == b->Live_0.plan
    &&& a->Live_0.prefix == b->Live_0.prefix
}

/// Only slot `i` changed, and of it only the diagnostics.
pub open spec fn only_diag(a: Seq<Slot>, b: Seq<Slot>, i: int) -> bool {
    &&& a.len() == b.len()
    &&& same_but_diag(a[i], b[i])
    &&& forall|j: int| 0 <= j < a.len() && j != i ==> #[trigger] b[j] == a[j]
}

/// The token counts of packed branches.
pub open spec fn token_counts(b: Seq<BranchTokens>) -> Seq<usize> {
    b.map_values(|x: BranchTokens| x.tokens@.len() as usize)
}

impl Board {
    /// Records the branches of job `i` that go to the backend.
    pub fn note_packed(&mut self, i: usize, packed: &Vec<BranchTokens>)
        requires
            i < old(self).slots@.len(),
            old(self).slots@[i as int] is Live,
        ensures
            only_diag(old(self).slots@, final(self).slots@, i as int),
            ({
                let a = old(self).slots@[i as int]->Live_0.diag;
                let b = final(self).slots@[i as int]->Live_0.diag;
                &&& b.branch_tokens@ == a.branch_tokens@ + token_counts(packed@)
                &&& b == (Diagnostics { branch_tokens: b.branch_tokens, ..a })
            }),
    {
        let ghost before = self.slots@;
        match &mut self.slots[i] {
            Slot::Live(job) => {
                let ghost sofar = job.diag.branch_tokens@;
                let ghost rest = job.diag;
                let mut k: usize = 0;
                assert(job.diag.branch_tokens@ =~= sofar + token_counts(packed@).take(0));
                while k < packed.len()
                    invariant
                        0 <= k <= packed@.len(),
                        job.diag.branch_tokens@ == sofar + token_counts(packed@).take(k as int),
                        job.diag == (Diagnostics { branch_tokens: job.diag.branch_tokens, ..rest }),
                        job.plan == before[i as int]->Live_0.plan,
                        job.prefix == before[i as int]->Live_0.prefix,
                    decreases packed@.len() - k,
                {
                    job.diag.branch_tokens.push(packed[k].tokens.len());
                    k += 1;
                    assert(job.diag.branch_tokens@ =~= sofar + token_counts(packed@).take(
                        k as int,
                    ));
                }
                assert(token_counts(packed@).take(k as int) =~= token_counts(packed@));
            },
            Slot::Failed(_) => {},
        }
    }

    /// Records an extra evaluation of job `i`, such as a baseline pass.
    pub fn note_passes(&mut self, i: usize, n: usize)
        requires
            i < old(self).slots@.len(),
            old(self).slots@[i as int] is Live,
            old(self).slots@[i as int]->Live_0.diag.passes + n <= usize::MAX,
        ensures
            only_diag(old(self).slots@, final(self).slots@, i as int),
            ({
                let a = old(self).slots@[i as int]->Live_0.diag;
                let b = final(self).slots@[i as int]->Live_0.diag;
                b == (Diagnostics { passes: (a.passes + n) as usize, ..a })
            }),
    {
        match &mut self.slots[i] {
            Slot::Live(job) => {
                job.diag.passes += n;
            },
            Slot::Failed(_) => {},
        }
    }

    /// Records where the state of job `i` came from.
    pub fn note_source(&mut self, i: usize, source: Option<PrefixSource>)
        requires
            i < old(self).slots@.len(),
            old(self).slots@[i as int] is Live,
        ensures
            only_diag(old(self).slots@, final(self).slots@, i as int),
            ({
                let a = old(self).slots@[i as int]->Live_0.diag;
                let b = final(self).slots@[i as int]->Live_0.diag;
                b == (Diagnostics { prefix_source: source, ..a })
            }),
    {
        match &mut self.slots[i] {
            Slot::Live(job) => {
                job.diag.prefix_source = source;
            },
            Slot::Failed(_) => {},
        }
    }

    /// Records a pass that job `i` shared with `company` jobs in all.
    pub fn note_shared(&mut self, i: usize, company: usize, source: Option<PrefixSource>)
        requires
            i < old(self).slots@.len(),
            old(self).slots@[i as int] is Live,
            old(self).slots@[i as int]->Live_0.diag.passes < usize::MAX,
        ensures
            only_diag(old(self).slots@, final(self).slots@, i as int),
            after_pass(
                old(self).slots@[i as int]->Live_0.diag,
                final(self).slots@[i as int]->Live_0.diag,
                company as nat,
                source,
            ),
    {
        match &mut self.slots[i] {
            Slot::Live(job) => {
                job.diag.passes += 1;
                if job.diag.batch < company {
                    job.diag.batch = company;
                }
                job.diag.prefix_source = source;
            },
            Slot::Failed(_) => {},
        }
    }

    /// The jobs `jobs` are running, each named once.
    pub open spec fn runs(self, jobs: Seq<usize>) -> bool {
        &&& jobs.no_duplicates()
        &&& forall|k: int|
            0 <= k < jobs.len() ==> (#[trigger] jobs[k]) < self.slots@.len()
                && self.slots@[jobs[k] as int] is Live
    }

    /// Fails every job of a pass with the pass's error.
    pub fn fail_pass(&mut self, jobs: &Vec<usize>, e: &Error)
        requires
            old(self).runs(jobs@),
        ensures
            final(self).slots@.len() == old(self).slots@.len(),
            forall|j: int|
                0 <= j < old(self).slots@.len() && !jobs@.contains(j as usize)
                    ==> #[trigger] final(self).slots@[j] == old(self).slots@[j],
            forall|k: int|
                0 <= k < jobs@.len() ==> {
                    let j = (#[trigger] jobs@[k]) as int;
                    final(self).slots@[j] is Failed && final(self).slots@[j]->Failed_0@ == e@
                },
    {
        let ghost before = self.slots@;
        let mut k: usize = 0;
        while k < jobs.len()
            invariant
                0 <= k <= jobs@.len(),
                self.slots@.len() == before.len(),
                jobs@.no_duplicates(),
                forall|x: int|
                    0 <= x < jobs@.len() ==> (#[trigger] jobs@[x]) < before.len()
                        && before[jobs@[x] as int] is Live,
                forall|j: int|
                    0 <= j < before.len() && !jobs@.take(k as int).contains(j as usize)
                        ==> #[trigger] self.slots@[j] == before[j],
                forall|x: int|
                    0 <= x < k ==> {
                        let j = (#[trigger] jobs@[x]) as int;
                        self.slots@[j] is Failed && self.slots@[j]->Failed_0@ == e@
                    },
            decreases jobs@.len() - k,
        {
            let i: usize = jobs[k];
            let ghost mid = self.slots@;
            proof {
                let t = jobs@.take(k as int);
                if t.contains(i) {
                    let y = choose|y: int| 0 <= y < t.len() && t[y] == i;
                    assert(jobs@[y] == jobs@[k as int]);
                }
                assert(self.slots@[i as int] == before[i as int]);
            }
            self.fail(i, e.clone());
            proof {
                let t = jobs@.take(k as int);
                let u = jobs@.take(k as int + 1);
                assert(u =~= t.push(i));
                assert forall|j: int| 0 <= j < before.len() && !u.contains(j as usize) implies #[trigger] self.slots@[j]
                    == before[j] by {
                    if t.contains(j as usize) {
                        let y = choose|y: int| 0 <= y < t.len() && t[y] == j as usize;
                        assert(u[y] == j as usize);
                    }
                    if j == i {
                        assert(u[k as int] == j as usize);
                    }
                    assert(self.slots@[j] == mid[j]);
                }
                assert forall|x: int| 0 <= x < k implies {
                    let j = (#[trigger] jobs@[x]) as int;
                    self.slots@[j] is Failed && self.slots@[j]->Failed_0@ == e@
                } by {
                    assert(jobs@[x] != jobs@[k as int]);
                    assert(self.slots@[jobs@[x] as int] == mid[jobs@[x] as int]);
                }
            }
            k += 1;
        }
        assert(jobs@.take(k as int) =~= jobs@);
    }

    /// Records what the second pass of job `i` asks.
    pub fn note_second(
        &mut self,
        i: usize,
        finalists: IndexMap<String, Vec<String>>,
        rechecked: Vec<String>,
    )
        requires
            i < old(self).slots@.len(),
            old(self).slots@[i as int] is Live,
        ensures
            only_diag(old(self).slots@, final(self).slots@, i as int),
            ({
                let a = old(self).slots@[i as int]->Live_0.diag;
                let b = final(self).slots@[i as int]->Live_0.diag;
                b == (Diagnostics { two_stage: finalists, rechecked, ..a })
            }),
    {
        match &mut self.slots[i] {
            Slot::Live(job) => {
                job.diag.two_stage = finalists;
                job.diag.rechecked = rechecked;
            },
            Slot::Failed(_) => {},
        }
    }
}

/// The sum of the first `n` counts.
pub open spec fn count_sum(v: Seq<usize>, n: nat) -> nat
    decreases n,
{
    if n == 0 {
        0
    } else {
        count_sum(v, (n - 1) as nat) + v[n - 1] as nat
    }
}

pub(crate) proof fn count_sum_grows(v: Seq<usize>, i: nat, n: nat)
    requires
        i <= n <= v.len(),
    ensures
        count_sum(v, i) <= count_sum(v, n),
    decreases n - i,
{
    if i < n {
        count_sum_grows(v, i + 1, n);
    }
}

/// What a response reports: every token that went in; nothing is generated.
#[derive(Debug, Clone, Copy, PartialEq, Eq, Default, Structural)]
pub struct Usage {
    pub input_tokens: u64,
    pub output_tokens: u64,
}

impl Diagnostics {
    /// The request's token usage: the prefix once and every branch.
    pub fn usage(&self) -> (u: Usage)
        requires
            self.prefix_tokens + count_sum(self.branch_tokens@, self.branch_tokens@.len())
                <= usize::MAX,
        ensures
            u.input_tokens == self.prefix_tokens + count_sum(
                self.branch_tokens@,
                self.branch_tokens@.len(),
            ),
            u.output_tokens == 0,
    {
        let mut n: usize = self.prefix_tokens;
        let mut i: usize = 0;
        while i < self.branch_tokens.len()
            invariant
                0 <= i <= self.branch_tokens@.len(),
                self.prefix_tokens + count_sum(self.branch_tokens@, self.branch_tokens@.len())
                    <= usize::MAX,
                n == self.prefix_tokens + count_sum(self.branch_tokens@, i as nat),
            decreases self.branch_tokens@.len() - i,
        {
            proof {
                count_sum_grows(self.branch_tokens@, (i + 1) as nat, self.branch_tokens@.len());
            }
            n += self.branch_tokens[i];
            i += 1;
        }
        Usage { input_tokens: n as u64, output_tokens: 0 }
    }
}

/// The running jobs are exactly those that have not failed, in request order.
pub proof fn running_jobs_are_live(b: Board, n: nat, i: int)
    requires
        n <= b.slots@.len() <= usize::MAX,
        0 <= i < n,
    ensures
        b.slots@[i] is Live <==> b.live_among(n).contains(i as usize),
        forall|k: int|
            0 <= k < b.live_among(n).len() ==> (#[trigger] b.live_among(n)[k]) < n,
        forall|x: int, y: int|
            0 <= x < y < b.live_among(n).len() ==> #[trigger] b.live_among(n)[x]
                < #[trigger] b.live_among(n)[y],
    decreases n,
{
    let all = b.live_among(n);
    let rest = b.live_among((n - 1) as nat);
    if n > 1 {
        running_jobs_are_live(b, (n - 1) as nat, if i < n - 1 { i } else { 0 });
    }
    assert(b.live_among(0).len() == 0);
    if b.slots@[n - 1] is Live {
        assert(all[rest.len() as int] == (n - 1) as usize);
        if rest.contains(i as usize) {
            let k = rest.index_of(i as usize);
            assert(all[k] == i as usize);
        }
    }
}

/// What a request costs is what its stream holds: every token of the prefix and
/// of the branches, and every row that a branch wants.
pub proof fn costs_count_the_stream(prefix: Seq<u32>, bs: Seq<BranchTokens>, n: nat)
    requires
        n <= bs.len(),
    ensures
        crate::gemma::stream_ids(prefix, bs, n).len() == prefix.len() + branch_token_sum(bs, n),
        crate::gemma::want_count(bs, n) == branch_row_sum(bs, n),
    decreases n,
{
    if n > 0 {
        costs_count_the_stream(prefix, bs, (n - 1) as nat);
    }
}

/// The passes' costs are sums: an item more adds its own tokens, sequences and
/// rows, each to its own sum.
pub proof fn costs_add_up(costs: Seq<Cost>, c: Seq<usize>, k: usize)
    ensures
        tokens_of(costs, c.push(k)) == tokens_of(costs, c) + costs[k as int].tokens,
        sequences_of(costs, c.push(k)) == sequences_of(costs, c) + costs[k as int].sequences,
        rows_of(costs, c.push(k)) == rows_of(costs, c) + costs[k as int].rows,
        tokens_of(costs, Seq::empty()) == 0,
        sequences_of(costs, Seq::empty()) == 0,
        rows_of(costs, Seq::empty()) == 0,
{
    assert(c.push(k).drop_last() =~= c);
}

/// A pass is within the limits exactly where each of its sums is.
pub proof fn limits_bound_each_sum(costs: Seq<Cost>, c: Seq<usize>, limits: Limits)
    ensures
        within(costs, c, limits) <==> tokens_of(costs, c) <= limits.tokens && sequences_of(costs, c)
            <= limits.sequences && rows_of(costs, c) <= limits.rows,
{
}

/// A shared pass is counted once and remembers the largest company that a job
/// was evaluated in; what was counted of the prompt stays.
pub proof fn a_pass_counts_once(
    a: Diagnostics,
    b: Diagnostics,
    c: Diagnostics,
    m: nat,
    n: nat,
    first: Option<PrefixSource>,
    second: Option<PrefixSource>,
)
    requires
        after_pass(a, b, m, first),
        after_pass(b, c, n, second),
    ensures
        c.passes == a.passes + 2,
        c.batch >= a.batch && c.batch >= m && c.batch >= n,
        c.batch == a.batch || c.batch == m || c.batch == n,
        c.prefix_source == second,
        c.prefix_tokens == a.prefix_tokens && c.branch_tokens == a.branch_tokens,
        c.orders == a.orders && c.two_stage == a.two_stage && c.rechecked == a.rechecked,
{
}

/// A new job has its prefix counted and nothing evaluated, in at least one
/// order and in no company but its own.
pub proof fn new_jobs_have_done_nothing(job: Job, plan: Plan, prefix: Vec<Token>, orders: usize)
    requires
        fresh(job, plan, prefix, orders),
    ensures
        job.diag.prefix_tokens == job.prefix@.len(),
        job.diag.passes == 0 && job.diag.branch_tokens@.len() == 0,
        job.diag.orders >= 1 && job.diag.orders >= orders,
        job.diag.orders > 1 ==> job.diag.orders == orders,
        job.diag.batch == 1 && job.diag.rechecked@.len() == 0,
        job.diag.prefix_source is None,
{
}

} // verus!

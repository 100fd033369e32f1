//! Folding what the branches of a question returned into one vote list per
//! option.

use vstd::prelude::*;

use crate::api::{QuestionView, Request};
use crate::map::questions_of;
use crate::plan::{
    at_slots, branches_under, chunks_fit, first_branches, first_orders, first_slots, group_size,
    grouped_are_questions, holds, ids_differ, orders_for_view, over_cap, reordered, reordered_fit,
    Plan,
};
use crate::render::{
    branch_view, branches_of, kind_of, option_texts, order_fits, order_for, BranchView, LayoutView,
    RenderedBranch,
};
use crate::text::same;

verus! {

/// The logit of an option that was never asked, as the bit pattern of its
/// single-precision number: far below every other.
pub const EXCLUDED_LOGIT: u32 = 0xc61c_4000;

/// The branch a run of a question came from: its place in the first or in the
/// second pass.
#[derive(Debug, Clone, Copy, PartialEq, Eq, Structural)]
pub enum Source {
    First(usize),
    Second(usize),
}

/// The runs that count for a question, and for every slot of its primary
/// branch the `(run, slot)` pairs that speak for the option there. An option
/// without a vote was never asked; the others get the mean over their votes.
#[derive(Debug)]
pub struct Fold {
    pub runs: Vec<Source>,
    pub votes: Vec<Vec<(usize, usize)>>,
}

/// One fold per question, in request order, beside the primary branches.
#[derive(Debug)]
pub struct Folded {
    pub branches: Vec<RenderedBranch>,
    pub folds: Vec<Fold>,
}

/// The places of question `id`'s branches among the first `n`.
pub open spec fn places(bs: Seq<BranchView>, id: Seq<char>, n: nat) -> Seq<usize>
    decreases n,
{
    if n == 0 {
        Seq::empty()
    } else {
        let r = places(bs, id, (n - 1) as nat);
        if bs[n - 1].id == id {
            r.push((n - 1) as usize)
        } else {
            r
        }
    }
}

/// The runs of a question: its first-pass branches, unless those only chose
/// the finalists, then its second-pass branches.
pub open spec fn runs_view(
    first: Seq<BranchView>,
    second: Seq<BranchView>,
    grouped: bool,
    id: Seq<char>,
) -> Seq<Source> {
    (if grouped {
        Seq::empty()
    } else {
        places(first, id, first.len()).map_values(|j: usize| Source::First(j))
    }) + places(second, id, second.len()).map_values(|j: usize| Source::Second(j))
}

/// The option order a run asked.
pub open spec fn run_order(
    first: Seq<BranchView>,
    second: Seq<BranchView>,
    s: Source,
) -> Seq<usize> {
    match s {
        Source::First(j) => first[j as int].order,
        Source::Second(j) => second[j as int].order,
    }
}

/// The slots among the first `n` that hold option `o`, as votes of run `r`.
pub open spec fn slots_holding(order: Seq<usize>, o: usize, r: usize, n: nat) -> Seq<
    (usize, usize),
>
    decreases n,
{
    if n == 0 {
        Seq::empty()
    } else {
        let v = slots_holding(order, o, r, (n - 1) as nat);
        if order[n - 1] == o {
            v.push((r, (n - 1) as usize))
        } else {
            v
        }
    }
}

/// The votes for option `o` in the first `n` runs.
pub open spec fn votes_for(
    first: Seq<BranchView>,
    second: Seq<BranchView>,
    runs: Seq<Source>,
    o: usize,
    n: nat,
) -> Seq<(usize, usize)>
    decreases n,
{
    if n == 0 {
        Seq::empty()
    } else {
        let order = run_order(first, second, runs[n - 1]);
        votes_for(first, second, runs, o, (n - 1) as nat) + slots_holding(
            order,
            o,
            (n - 1) as usize,
            order.len(),
        )
    }
}

/// The lists of votes of a fold.
pub open spec fn vote_lists(v: Seq<Vec<(usize, usize)>>) -> Seq<Seq<(usize, usize)>> {
    v.map_values(|l: Vec<(usize, usize)>| l@)
}

/// A question's fold.
pub open spec fn fold_is(
    f: Fold,
    first: Seq<BranchView>,
    second: Seq<BranchView>,
    grouped: bool,
    primary: BranchView,
) -> bool {
    let runs = runs_view(first, second, grouped, primary.id);
    &&& f.runs@ == runs
    &&& vote_lists(f.votes@) == primary.order.map_values(
        |o: usize| votes_for(first, second, runs, o, runs.len()),
    )
}

/// Every branch of `bs` belongs to a question of `primaries` and asks options
/// of it.
pub open spec fn belong(bs: Seq<BranchView>, primaries: Seq<BranchView>) -> bool {
    forall|j: int| 0 <= j < bs.len() ==> belongs(#[trigger] bs[j], primaries)
}

/// A branch belongs to a question of `primaries` and asks options of it.
pub open spec fn belongs(b: BranchView, primaries: Seq<BranchView>) -> bool {
    exists|i: int|
        0 <= i < primaries.len() && (#[trigger] primaries[i]).id == b.id
            && order_fits(b.order, primaries[i].order.len())
}

fn fitting(order: &Vec<usize>, k: usize) -> (r: bool)
    ensures
        r == order_fits(order@, k as nat),
{
    let mut i: usize = 0;
    while i < order.len()
        invariant
            0 <= i <= order@.len(),
            forall|j: int| 0 <= j < i ==> (#[trigger] order@[j]) < k,
        decreases order@.len() - i,
    {
        if order[i] >= k {
            assert(!(order@[i as int] < k));
            return false;
        }
        i += 1;
    }
    true
}

fn belonging(b: &RenderedBranch, primaries: &Vec<RenderedBranch>) -> (r: bool)
    ensures
        r == belongs(b@, branches_of(primaries@)),
{
    let ghost ps = branches_of(primaries@);
    let mut i: usize = 0;
    while i < primaries.len()
        invariant
            0 <= i <= primaries@.len(),
            ps == branches_of(primaries@),
            forall|j: int|
                0 <= j < i ==> !((#[trigger] ps[j]).id == b@.id && order_fits(
                    b@.order,
                    ps[j].order.len(),
                )),
        decreases primaries@.len() - i,
    {
        assert(ps[i as int] == primaries@[i as int]@);
        if same(primaries[i].id.as_str(), b.id.as_str()) && fitting(
            &b.order,
            primaries[i].order.len(),
        ) {
            assert(ps[i as int].id == b@.id);
            return true;
        }
        i += 1;
    }
    false
}

fn all_belong(bs: &Vec<RenderedBranch>, primaries: &Vec<RenderedBranch>) -> (r: bool)
    ensures
        r == belong(branches_of(bs@), branches_of(primaries@)),
{
    let ghost vs = branches_of(bs@);
    let ghost ps = branches_of(primaries@);
    let mut j: usize = 0;
    while j < bs.len()
        invariant
            0 <= j <= bs@.len(),
            vs == branches_of(bs@),
            ps == branches_of(primaries@),
            forall|k: int| 0 <= k < j ==> belongs(#[trigger] vs[k], ps),
        decreases bs@.len() - j,
    {
        assert(vs[j as int] == bs@[j as int]@);
        if !belonging(&bs[j], primaries) {
            assert(!belongs(vs[j as int], ps));
            return false;
        }
        j += 1;
    }
    true
}

fn collect_places(bs: &Vec<RenderedBranch>, id: &str) -> (r: Vec<usize>)
    ensures
        r@ == places(branches_of(bs@), id@, bs@.len()),
        forall|i: int| 0 <= i < r@.len() ==> (#[trigger] r@[i]) < bs@.len(),
{
    let ghost views = branches_of(bs@);
    let mut out: Vec<usize> = Vec::new();
    let mut j: usize = 0;
    while j < bs.len()
        invariant
            0 <= j <= bs@.len(),
            views == branches_of(bs@),
            out@ == places(views, id@, j as nat),
            forall|i: int| 0 <= i < out@.len() ==> (#[trigger] out@[i]) < bs@.len(),
        decreases bs@.len() - j,
    {
        assert(views[j as int] == bs@[j as int]@);
        if same(bs[j].id.as_str(), id) {
            out.push(j);
        }
        j += 1;
    }
    out
}

fn push_slots(order: &Vec<usize>, o: usize, r: usize, out: &mut Vec<(usize, usize)>)
    ensures
        final(out)@ == old(out)@ + slots_holding(order@, o, r, order@.len()),
{
    let ghost before = out@;
    let mut s: usize = 0;
    assert(out@ =~= before + slots_holding(order@, o, r, 0));
    while s < order.len()
        invariant
            0 <= s <= order@.len(),
            out@ == before + slots_holding(order@, o, r, s as nat),
        decreases order@.len() - s,
    {
        if order[s] == o {
            out.push((r, s));
        }
        s += 1;
        assert(out@ =~= before + slots_holding(order@, o, r, s as nat));
    }
}

impl Plan {
    fn fold_question(&self, second: &Vec<RenderedBranch>, i: usize) -> (r: Fold)
        requires
            i < self.rendered.branches@.len(),
        ensures
            fold_is(
                r,
                branches_of(self.first@),
                branches_of(second@),
                self.grouped@.contains(i),
                self.rendered.branches@[i as int]@,
            ),
    {
        let ghost fv = branches_of(self.first@);
        let ghost sv = branches_of(second@);
        let primary = &self.rendered.branches[i];
        let ghost want = runs_view(fv, sv, self.grouped@.contains(i), primary.id@);
        let mut runs: Vec<Source> = Vec::new();
        if !holds(&self.grouped, i) {
            let at = collect_places(&self.first, primary.id.as_str());
            let mut j: usize = 0;
            while j < at.len()
                invariant
                    0 <= j <= at@.len(),
                    runs@ == at@.take(j as int).map_values(|j: usize| Source::First(j)),
                decreases at@.len() - j,
            {
                runs.push(Source::First(at[j]));
                j += 1;
                assert(runs@ =~= at@.take(j as int).map_values(|j: usize| Source::First(j)));
            }
            assert(at@.take(j as int) =~= at@);
            assert(fv.len() == self.first@.len());
        }
        let ghost head = runs@;
        let at = collect_places(second, primary.id.as_str());
        assert(sv.len() == second@.len());
        let mut j: usize = 0;
        assert(runs@ =~= head + at@.take(0).map_values(|j: usize| Source::Second(j)));
        while j < at.len()
            invariant
                0 <= j <= at@.len(),
                runs@ == head + at@.take(j as int).map_values(|j: usize| Source::Second(j)),
            decreases at@.len() - j,
        {
            runs.push(Source::Second(at[j]));
            j += 1;
            assert(runs@ =~= head + at@.take(j as int).map_values(|j: usize| Source::Second(j)));
        }
        assert(at@.take(j as int) =~= at@);
        assert(runs@ =~= want);
        let n_first: usize = self.first.len();
        let n_second: usize = second.len();
        proof {
            assert(fv.len() == n_first && sv.len() == n_second);
            runs_exist(fv, sv, self.grouped@.contains(i), primary.id@);
        }
        let mut votes: Vec<Vec<(usize, usize)>> = Vec::new();
        let mut p: usize = 0;
        while p < primary.order.len()
            invariant
                0 <= p <= primary.order@.len(),
                fv == branches_of(self.first@),
                sv == branches_of(second@),
                runs@ == want,
                forall|x: int|
                    0 <= x < want.len() ==> match #[trigger] want[x] {
                        Source::First(j) => j < fv.len(),
                        Source::Second(j) => j < sv.len(),
                    },
                votes@.len() == p,
                forall|x: int|
                    0 <= x < p ==> (#[trigger] votes@[x])@ == votes_for(
                        fv,
                        sv,
                        want,
                        primary.order@[x],
                        want.len(),
                    ),
            decreases primary.order@.len() - p,
        {
            let o: usize = primary.order[p];
            let mut list: Vec<(usize, usize)> = Vec::new();
            let mut r: usize = 0;
            while r < runs.len()
                invariant
                    0 <= r <= runs@.len(),
                    runs@ == want,
                    fv == branches_of(self.first@),
                    sv == branches_of(second@),
                    forall|x: int|
                        0 <= x < want.len() ==> match #[trigger] want[x] {
                            Source::First(j) => j < fv.len(),
                            Source::Second(j) => j < sv.len(),
                        },
                    list@ == votes_for(fv, sv, want, o, r as nat),
                decreases runs@.len() - r,
            {
                assert(fv.len() == self.first@.len());
                assert(sv.len() == second@.len());
                match runs[r] {
                    Source::First(j) => {
                        assert(want[r as int] == Source::First(j));
                        assert(fv[j as int] == self.first@[j as int]@);
                        push_slots(&self.first[j].order, o, r, &mut list);
                    },
                    Source::Second(j) => {
                        assert(want[r as int] == Source::Second(j));
                        assert(sv[j as int] == second@[j as int]@);
                        push_slots(&second[j].order, o, r, &mut list);
                    },
                }
                r += 1;
            }
            votes.push(list);
            p += 1;
        }
        assert(vote_lists(votes@) =~= primary.order@.map_values(
            |o: usize| votes_for(fv, sv, want, o, want.len()),
        ));
        Fold { runs, votes }
    }

    /// Whether the branches of both passes belong to the plan's questions.
    pub fn owns(&self, second: &Vec<RenderedBranch>) -> (r: bool)
        ensures
            r == (belong(branches_of(self.first@), branches_of(self.rendered.branches@)) && belong(
                branches_of(second@),
                branches_of(self.rendered.branches@),
            )),
    {
        all_belong(&self.first, &self.rendered.branches) && all_belong(
            second,
            &self.rendered.branches,
        )
    }

    /// Folds every question's branches into one vote list per slot of its
    /// primary branch: over the orders it was asked in, or over the second
    /// pass for a Choice that was asked in groups. `second` holds the branches
    /// [`Plan::second`] returned.
    pub fn fold(self, second: Vec<RenderedBranch>) -> (r: Folded)
        requires
            belong(branches_of(self.first@), branches_of(self.rendered.branches@)),
            belong(branches_of(second@), branches_of(self.rendered.branches@)),
        ensures
            r.branches@ == self.rendered.branches@,
            r.folds@.len() == r.branches@.len(),
            forall|i: int|
                0 <= i < r.folds@.len() ==> fold_is(
                    #[trigger] r.folds@[i],
                    branches_of(self.first@),
                    branches_of(second@),
                    self.grouped@.contains(i as usize),
                    self.rendered.branches@[i]@,
                ),
    {
        let mut folds: Vec<Fold> = Vec::new();
        let mut i: usize = 0;
        while i < self.rendered.branches.len()
            invariant
                0 <= i <= self.rendered.branches@.len(),
                folds@.len() == i,
                forall|j: int|
                    0 <= j < i ==> fold_is(
                        #[trigger] folds@[j],
                        branches_of(self.first@),
                        branches_of(second@),
                        self.grouped@.contains(j as usize),
                        self.rendered.branches@[j]@,
                    ),
            decreases self.rendered.branches@.len() - i,
        {
            folds.push(self.fold_question(&second, i));
            i += 1;
        }
        Folded { branches: self.rendered.branches, folds }
    }
}

/// Every given order asks all the options of its question.
pub open spec fn orders_whole(
    qs: Seq<(Seq<char>, QuestionView)>,
    orders: Seq<(Seq<char>, Seq<usize>)>,
) -> bool {
    forall|i: int|
        0 <= i < qs.len() ==> order_for(orders, (#[trigger] qs[i]).0, qs[i].1).len()
            == option_texts(qs[i].1).len()
}

proof fn both_belong(a: Seq<BranchView>, b: Seq<BranchView>, ps: Seq<BranchView>)
    requires
        belong(a, ps),
        belong(b, ps),
    ensures
        belong(a + b, ps),
{
    assert forall|j: int| 0 <= j < (a + b).len() implies belongs(#[trigger] (a + b)[j], ps) by {
        if j < a.len() {
            assert((a + b)[j] == a[j]);
        } else {
            assert((a + b)[j] == b[j - a.len()]);
        }
    }
}

proof fn orders_belong(
    layout: LayoutView,
    id: Seq<char>,
    q: QuestionView,
    slots: Seq<Seq<usize>>,
    ps: Seq<BranchView>,
    i: int,
)
    requires
        0 <= i < ps.len(),
        ps[i].id == id,
        forall|j: int| 0 <= j < slots.len() ==> order_fits(#[trigger] slots[j], ps[i].order.len()),
    ensures
        belong(branches_under(layout, id, q, slots), ps),
{
    let bs = branches_under(layout, id, q, slots);
    assert forall|j: int| 0 <= j < bs.len() implies belongs(#[trigger] bs[j], ps) by {
        assert(bs[j] == branch_view(layout, id, q, slots[j]));
        assert(ps[i].id == bs[j].id && order_fits(bs[j].order, ps[i].order.len()));
    }
}

proof fn first_belong(
    plan: Plan,
    layout: LayoutView,
    req: Request,
    os: Seq<(Seq<char>, Seq<usize>)>,
    n: nat,
    m: int,
)
    requires
        plan.planned_with(layout, req, os),
        orders_whole(questions_of(req.questions), os),
        0 <= m <= questions_of(req.questions).len(),
    ensures
        belong(
            first_branches(layout, questions_of(req.questions).take(m), os, plan.cap, n),
            branches_of(plan.rendered.branches@),
        ),
    decreases m,
{
    let qs = questions_of(req.questions);
    let ps = branches_of(plan.rendered.branches@);
    if m > 0 {
        first_belong(plan, layout, req, os, n, m - 1);
        plan.primary_facts(layout, req, os, m - 1);
        let e = qs[m - 1];
        let order = order_for(os, e.0, e.1);
        let k = option_texts(e.1).len();
        assert(ps[m - 1] == plan.rendered.branches@[m - 1]@);
        assert(qs.take(m).drop_last() =~= qs.take(m - 1));
        assert(qs.take(m).last() == e);
        assert(order.len() == k);
        if over_cap(order.len(), plan.cap) {
            chunks_fit(order, group_size(order.len(), plan.cap->0 as nat), k);
        } else {
            reordered_fit(order, orders_for_view(kind_of(e.1), n), k);
        }
        let slots = first_slots(kind_of(e.1), order, plan.cap, n);
        orders_belong(layout, e.0, e.1, slots, ps, m - 1);
        both_belong(
            first_branches(layout, qs.take(m - 1), os, plan.cap, n),
            branches_under(layout, e.0, e.1, slots),
            ps,
        );
    }
}

/// The branches of a plan's first pass belong to its questions, where every
/// given order asks all the options.
pub proof fn the_first_pass_belongs(
    plan: Plan,
    layout: LayoutView,
    req: Request,
    os: Seq<(Seq<char>, Seq<usize>)>,
)
    requires
        plan.planned_with(layout, req, os),
        orders_whole(questions_of(req.questions), os),
    ensures
        belong(branches_of(plan.first@), branches_of(plan.rendered.branches@)),
{
    let qs = questions_of(req.questions);
    let n = first_orders(plan.orders as nat, plan.recheck);
    first_belong(plan, layout, req, os, n, qs.len() as int);
    assert(qs.take(qs.len() as int) =~= qs);
}

proof fn rechecked_belong(
    plan: Plan,
    layout: LayoutView,
    req: Request,
    os: Seq<(Seq<char>, Seq<usize>)>,
    confident: Seq<bool>,
    n: nat,
)
    requires
        plan.planned_with(layout, req, os),
        orders_whole(questions_of(req.questions), os),
        n <= questions_of(req.questions).len(),
    ensures
        belong(
            plan.rechecked_branches(layout, questions_of(req.questions), confident, n),
            branches_of(plan.rendered.branches@),
        ),
    decreases n,
{
    let qs = questions_of(req.questions);
    let ps = branches_of(plan.rendered.branches@);
    if n > 0 {
        rechecked_belong(plan, layout, req, os, confident, (n - 1) as nat);
        plan.primary_facts(layout, req, os, n - 1);
        let e = qs[n - 1];
        let order = plan.primary(n - 1);
        let k = option_texts(e.1).len();
        assert(order.len() == k);
        assert(ps[n - 1] == plan.rendered.branches@[n - 1]@);
        reordered_fit(order, plan.orders as nat, k);
        let all = reordered(order, plan.orders as nat);
        assert forall|j: int| 0 <= j < all.skip(1).len() implies order_fits(
            #[trigger] all.skip(1)[j],
            k,
        ) by {
            assert(all.skip(1)[j] == all[j + 1]);
        }
        if plan.rechecks(e, confident, n - 1) {
            orders_belong(layout, e.0, e.1, all.skip(1), ps, n - 1);
            both_belong(
                plan.rechecked_branches(layout, qs, confident, (n - 1) as nat),
                branches_under(layout, e.0, e.1, all.skip(1)),
                ps,
            );
        }
    }
}

proof fn finals_belong(
    plan: Plan,
    layout: LayoutView,
    req: Request,
    os: Seq<(Seq<char>, Seq<usize>)>,
    probs: Seq<Seq<u64>>,
    n: nat,
)
    requires
        plan.planned_with(layout, req, os),
        orders_whole(questions_of(req.questions), os),
        ids_differ(questions_of(req.questions)),
        questions_of(req.questions).len() <= usize::MAX,
        probs.len() == plan.first@.len(),
        forall|j: int|
            0 <= j < probs.len() ==> (#[trigger] probs[j]).len() == plan.first@[j].order@.len(),
        forall|g: int|
            0 <= g < plan.grouped@.len() ==> plan.primary(#[trigger] plan.grouped@[g] as int).len()
                <= plan.cap->0 * plan.cap->0,
        n <= plan.grouped@.len(),
    ensures
        belong(
            plan.final_branches(layout, questions_of(req.questions), probs, n),
            branches_of(plan.rendered.branches@),
        ),
    decreases n,
{
    let qs = questions_of(req.questions);
    let ps = branches_of(plan.rendered.branches@);
    if n > 0 {
        finals_belong(plan, layout, req, os, probs, (n - 1) as nat);
        grouped_are_questions(qs, os, plan.cap);
        let i = plan.grouped@[n - 1] as int;
        plan.primary_facts(layout, req, os, i);
        plan.some_finalist(layout, req, os, probs, i);
        let e = qs[i];
        let order = plan.primary(i);
        let k = option_texts(e.1).len();
        assert(order.len() == k);
        assert(ps[i] == plan.rendered.branches@[i]@);
        let kept = plan.finalists_at(qs, probs, n - 1);
        let asked = orders_for_view(kind_of(e.1), plan.orders as nat);
        reordered_fit(kept, asked, k);
        orders_belong(layout, e.0, e.1, reordered(kept, asked), ps, i);
        both_belong(
            plan.final_branches(layout, qs, probs, (n - 1) as nat),
            branches_under(layout, e.0, e.1, reordered(kept, asked)),
            ps,
        );
    }
}

/// The branches of a plan's second pass belong to its questions, where every
/// given order asks all the options: what the second pass asks can be folded.
pub proof fn the_second_pass_belongs(
    plan: Plan,
    layout: LayoutView,
    req: Request,
    os: Seq<(Seq<char>, Seq<usize>)>,
    confident: Seq<bool>,
    probs: Seq<Seq<u64>>,
)
    requires
        plan.planned_with(layout, req, os),
        orders_whole(questions_of(req.questions), os),
        ids_differ(questions_of(req.questions)),
        questions_of(req.questions).len() <= usize::MAX,
        probs.len() == plan.first@.len(),
        forall|j: int|
            0 <= j < probs.len() ==> (#[trigger] probs[j]).len() == plan.first@[j].order@.len(),
        forall|g: int|
            0 <= g < plan.grouped@.len() ==> plan.primary(#[trigger] plan.grouped@[g] as int).len()
                <= plan.cap->0 * plan.cap->0,
    ensures
        ({
            let qs = questions_of(req.questions);
            belong(
                plan.rechecked_branches(layout, qs, confident, qs.len()) + plan.final_branches(
                    layout,
                    qs,
                    probs,
                    plan.grouped@.len(),
                ),
                branches_of(plan.rendered.branches@),
            )
        }),
{
    let qs = questions_of(req.questions);
    rechecked_belong(plan, layout, req, os, confident, qs.len());
    finals_belong(plan, layout, req, os, probs, plan.grouped@.len());
    both_belong(
        plan.rechecked_branches(layout, qs, confident, qs.len()),
        plan.final_branches(layout, qs, probs, plan.grouped@.len()),
        branches_of(plan.rendered.branches@),
    );
}

proof fn places_exist(bs: Seq<BranchView>, id: Seq<char>, n: nat)
    requires
        n <= bs.len() <= usize::MAX,
    ensures
        forall|x: int|
            0 <= x < places(bs, id, n).len() ==> (#[trigger] places(bs, id, n)[x]) < n && bs[places(
                bs,
                id,
                n,
            )[x] as int].id == id,
    decreases n,
{
    if n > 0 {
        places_exist(bs, id, (n - 1) as nat);
    }
}

/// Every run of a question is one of its branches.
pub proof fn runs_exist(
    first: Seq<BranchView>,
    second: Seq<BranchView>,
    grouped: bool,
    id: Seq<char>,
)
    requires
        first.len() <= usize::MAX,
        second.len() <= usize::MAX,
    ensures
        forall|x: int|
            0 <= x < runs_view(first, second, grouped, id).len() ==> match #[trigger] runs_view(
                first,
                second,
                grouped,
                id,
            )[x] {
                Source::First(j) => j < first.len() && first[j as int].id == id && !grouped,
                Source::Second(j) => j < second.len() && second[j as int].id == id,
            },
{
    places_exist(first, id, first.len());
    places_exist(second, id, second.len());
    let a = places(first, id, first.len());
    let b = places(second, id, second.len());
    let runs = runs_view(first, second, grouped, id);
    let na = if grouped {
        0
    } else {
        a.len()
    };
    assert forall|x: int| 0 <= x < runs.len() implies match #[trigger] runs[x] {
        Source::First(j) => j < first.len() && first[j as int].id == id && !grouped,
        Source::Second(j) => j < second.len() && second[j as int].id == id,
    } by {
        if x < na {
            assert(runs[x] == Source::First(a[x]));
        } else {
            assert(runs[x] == Source::Second(b[x - na]));
        }
    }
}

/// A run asks a reordering of `order`.
pub open spec fn reorders(run: Seq<usize>, order: Seq<usize>) -> bool {
    run.no_duplicates() && forall|o: usize| #[trigger] run.contains(o) <==> order.contains(o)
}

/// Where every run asks all of a question's options once, every option gets
/// exactly one vote from each run.
pub proof fn every_run_votes_once(
    first: Seq<BranchView>,
    second: Seq<BranchView>,
    runs: Seq<Source>,
    order: Seq<usize>,
    o: usize,
)
    requires
        forall|x: int|
            0 <= x < runs.len() ==> reorders(
                run_order(first, second, #[trigger] runs[x]),
                order,
            ),
        order.contains(o),
        runs.len() <= usize::MAX,
    ensures
        votes_for(first, second, runs, o, runs.len()).len() == runs.len(),
        forall|x: int|
            0 <= x < runs.len() ==> (#[trigger] votes_for(first, second, runs, o, runs.len())[x]).0
                == x,
{
    votes_once(first, second, runs, order, o, runs.len());
}

proof fn votes_once(
    first: Seq<BranchView>,
    second: Seq<BranchView>,
    runs: Seq<Source>,
    order: Seq<usize>,
    o: usize,
    n: nat,
)
    requires
        forall|x: int|
            0 <= x < runs.len() ==> reorders(
                run_order(first, second, #[trigger] runs[x]),
                order,
            ),
        order.contains(o),
        n <= runs.len() <= usize::MAX,
    ensures
        votes_for(first, second, runs, o, n).len() == n,
        forall|x: int|
            0 <= x < n ==> (#[trigger] votes_for(first, second, runs, o, n)[x]).0 == x,
    decreases n,
{
    if n > 0 {
        votes_once(first, second, runs, order, o, (n - 1) as nat);
        let run = run_order(first, second, runs[n - 1]);
        assert(reorders(run, order));
        assert(run.contains(o));
        assert(run.take(run.len() as int) =~= run);
        one_slot(run, o, (n - 1) as usize, run.len());
    }
}

proof fn one_slot(run: Seq<usize>, o: usize, r: usize, n: nat)
    requires
        run.no_duplicates(),
        n <= run.len(),
    ensures
        slots_holding(run, o, r, n).len() == (if run.take(n as int).contains(o) {
            1nat
        } else {
            0nat
        }),
        forall|x: int|
            0 <= x < slots_holding(run, o, r, n).len() ==> (#[trigger] slots_holding(run, o, r, n)[x]).0
                == r,
    decreases n,
{
    if n > 0 {
        one_slot(run, o, r, (n - 1) as nat);
        let t = run.take(n as int);
        let u = run.take(n - 1);
        if run[n - 1] == o {
            assert(t[n - 1] == o);
            if u.contains(o) {
                let y = choose|y: int| 0 <= y < u.len() && u[y] == o;
                assert(run[y] == run[n - 1]);
            }
        } else if u.contains(o) {
            let y = choose|y: int| 0 <= y < u.len() && u[y] == o;
            assert(t[y] == o);
        } else if t.contains(o) {
            let y = choose|y: int| 0 <= y < t.len() && t[y] == o;
            assert(u[y] == o);
        }
    }
}

/// Every reordering of a question's options asks each of them once.
pub proof fn reorderings_hold_every_option(order: Seq<usize>, n: nat, r: int)
    requires
        order.no_duplicates(),
        0 < order.len() <= usize::MAX,
        0 <= r < reordered(order, n).len(),
    ensures
        reorders(reordered(order, n)[r], order),
{
    let k = order.len();
    crate::math::orders_are_permutations(k, r);
    let slots = crate::math::order_at(k, r);
    let run = reordered(order, n)[r];
    assert(run == at_slots(order, slots));
    assert forall|a: int, b: int| 0 <= a < run.len() && 0 <= b < run.len() && a != b implies run[a]
        != run[b] by {
        assert(slots[a] != slots[b]);
        assert(slots[a] < k && slots[b] < k);
    }
    assert forall|o: usize| #[trigger] run.contains(o) <==> order.contains(o) by {
        if run.contains(o) {
            let x = choose|x: int| 0 <= x < run.len() && run[x] == o;
            assert(slots[x] < k);
            assert(order[slots[x] as int] == o);
        }
        if order.contains(o) {
            let y = choose|y: int| 0 <= y < order.len() && order[y] == o;
            assert(slots.contains(y as usize));
            let x = choose|x: int| 0 <= x < slots.len() && slots[x] == y as usize;
            assert(run[x] == o);
        }
    }
}

/// An option that a run asks gets exactly one vote from it, and one that it
/// does not ask gets none: an option that did not reach the last pass counts
/// for nothing.
pub proof fn runs_vote_for_what_they_ask(
    first: Seq<BranchView>,
    second: Seq<BranchView>,
    runs: Seq<Source>,
    o: usize,
    x: int,
)
    requires
        forall|y: int|
            0 <= y < runs.len() ==> run_order(
                first,
                second,
                #[trigger] runs[y],
            ).no_duplicates(),
        runs.len() <= usize::MAX,
        0 <= x < runs.len(),
    ensures
        votes_from(votes_for(first, second, runs, o, runs.len()), x as usize) == (if run_order(
            first,
            second,
            runs[x],
        ).contains(o) {
            1nat
        } else {
            0nat
        }),
{
    votes_from_run(first, second, runs, o, x, runs.len());
}

/// How many of the votes are run `r`'s.
pub open spec fn votes_from(votes: Seq<(usize, usize)>, r: usize) -> nat {
    votes.filter(|v: (usize, usize)| v.0 == r).len()
}

proof fn votes_from_run(
    first: Seq<BranchView>,
    second: Seq<BranchView>,
    runs: Seq<Source>,
    o: usize,
    x: int,
    n: nat,
)
    requires
        forall|y: int|
            0 <= y < runs.len() ==> run_order(
                first,
                second,
                #[trigger] runs[y],
            ).no_duplicates(),
        n <= runs.len() <= usize::MAX,
        0 <= x < runs.len(),
    ensures
        votes_from(votes_for(first, second, runs, o, n), x as usize) == (if x < n && run_order(
            first,
            second,
            runs[x],
        ).contains(o) {
            1nat
        } else {
            0nat
        }),
    decreases n,
{
    let own = |v: (usize, usize)| v.0 == x as usize;
    reveal(Seq::filter);
    if n > 0 {
        votes_from_run(first, second, runs, o, x, (n - 1) as nat);
        let before = votes_for(first, second, runs, o, (n - 1) as nat);
        let run = run_order(first, second, runs[n - 1]);
        let added = slots_holding(run, o, (n - 1) as usize, run.len());
        assert(run.take(run.len() as int) =~= run);
        one_slot(run, o, (n - 1) as usize, run.len());
        if added.len() == 0 {
            assert(before + added =~= before);
        } else {
            let all = before + added;
            assert(added.len() == 1);
            assert(all.drop_last() =~= before);
            assert(all.last() == added[0]);
            assert(own(all.last()) == (x == n - 1));
        }
    }
}

/// A question's places are exactly those of the branches that bear its id, in
/// order.
pub proof fn places_bear_the_id(bs: Seq<BranchView>, id: Seq<char>, n: nat, i: int)
    requires
        n <= bs.len() <= usize::MAX,
        0 <= i < n,
    ensures
        bs[i].id == id <==> places(bs, id, n).contains(i as usize),
        forall|k: int| 0 <= k < places(bs, id, n).len() ==> (#[trigger] places(bs, id, n)[k]) < n,
        forall|x: int, y: int|
            0 <= x < y < places(bs, id, n).len() ==> #[trigger] places(bs, id, n)[x]
                < #[trigger] places(bs, id, n)[y],
    decreases n,
{
    let all = places(bs, id, n);
    let rest = places(bs, id, (n - 1) as nat);
    if n > 1 {
        places_bear_the_id(bs, id, (n - 1) as nat, if i < n - 1 { i } else { 0 });
    }
    assert(places(bs, id, 0).len() == 0);
    if bs[n - 1].id == id {
        assert(all[rest.len() as int] == (n - 1) as usize);
        if rest.contains(i as usize) {
            let k = rest.index_of(i as usize);
            assert(all[k] == i as usize);
        }
    }
}

/// The runs of a question are its branches of the second pass and, unless its
/// options were asked in groups, those of the first before them.
pub proof fn runs_are_the_questions_own(
    first: Seq<BranchView>,
    second: Seq<BranchView>,
    grouped: bool,
    id: Seq<char>,
    i: int,
)
    requires
        first.len() <= usize::MAX,
        second.len() <= usize::MAX,
        0 <= i,
    ensures
        i < second.len() ==> (second[i].id == id <==> runs_view(first, second, grouped, id).contains(
            Source::Second(i as usize),
        )),
        i < first.len() ==> (first[i].id == id && !grouped <==> runs_view(
            first,
            second,
            grouped,
            id,
        ).contains(Source::First(i as usize))),
{
    let a = places(first, id, first.len());
    let b = places(second, id, second.len());
    let x = if grouped {
        Seq::<Source>::empty()
    } else {
        a.map_values(|j: usize| Source::First(j))
    };
    let y = b.map_values(|j: usize| Source::Second(j));
    let all = runs_view(first, second, grouped, id);
    assert(all == x + y);
    if i < second.len() {
        places_bear_the_id(second, id, second.len(), i);
        if b.contains(i as usize) {
            let k = b.index_of(i as usize);
            assert(all[x.len() + k] == Source::Second(i as usize));
        }
        if all.contains(Source::Second(i as usize)) {
            let k = all.index_of(Source::Second(i as usize));
            assert(k >= x.len());
            assert(b[k - x.len()] == i as usize);
        }
    }
    if i < first.len() {
        places_bear_the_id(first, id, first.len(), i);
        if !grouped && a.contains(i as usize) {
            let k = a.index_of(i as usize);
            assert(all[k] == Source::First(i as usize));
        }
        if all.contains(Source::First(i as usize)) {
            let k = all.index_of(Source::First(i as usize));
            assert(k < x.len());
            assert(a[k] == i as usize);
        }
    }
}

proof fn slots_hold_the_option(order: Seq<usize>, o: usize, r: usize, n: nat, k: int)
    requires
        n <= order.len() <= usize::MAX,
        0 <= k < slots_holding(order, o, r, n).len(),
    ensures
        slots_holding(order, o, r, n)[k].0 == r,
        slots_holding(order, o, r, n)[k].1 < n,
        order[slots_holding(order, o, r, n)[k].1 as int] == o,
    decreases n,
{
    if n > 0 {
        if k < slots_holding(order, o, r, (n - 1) as nat).len() {
            slots_hold_the_option(order, o, r, (n - 1) as nat, k);
        }
    }
}

/// Every vote for an option is cast by a slot that holds the option: vote
/// `(r, s)` is slot `s` of run `r`, and the run has the option there.
pub proof fn votes_are_cast_where_the_option_stands(
    first: Seq<BranchView>,
    second: Seq<BranchView>,
    runs: Seq<Source>,
    o: usize,
    n: nat,
    k: int,
)
    requires
        n <= runs.len() <= usize::MAX,
        forall|y: int|
            0 <= y < runs.len() ==> run_order(first, second, #[trigger] runs[y]).len() <= usize::MAX,
        0 <= k < votes_for(first, second, runs, o, n).len(),
    ensures
        ({
            let (r, s) = votes_for(first, second, runs, o, n)[k];
            &&& r < n
            &&& s < run_order(first, second, runs[r as int]).len()
            &&& run_order(first, second, runs[r as int])[s as int] == o
        }),
    decreases n,
{
    if n > 0 {
        let before = votes_for(first, second, runs, o, (n - 1) as nat);
        let order = run_order(first, second, runs[n - 1]);
        if k < before.len() {
            votes_are_cast_where_the_option_stands(first, second, runs, o, (n - 1) as nat, k);
        } else {
            slots_hold_the_option(order, o, (n - 1) as usize, order.len(), k - before.len());
        }
    }
}

} // verus!

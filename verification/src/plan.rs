//! Which branches to evaluate for a request and how to fold what comes back
//! into one distribution per question.
//!
//! Three things make a request need more than one branch per question:
//!
//! - **Order averaging.** A Choice or Noul is asked under several option
//!   orders ([`crate::math::option_orders`]) and the option logits are
//!   averaged, which removes position bias. Score levels are ordered and
//!   never permuted.
//! - **Two-stage Choice.** With a label readout at most `cap` options can be
//!   lettered. A larger Choice is asked in groups of at most `cap` in the
//!   first pass; the top options of every group — as many as fit under `cap`
//!   together — are asked once more against each other in a second pass.
//! - **Gated re-read.** With `recheck` set, the first pass asks each question
//!   once, and only the questions whose answer was not confident enough are
//!   re-asked under the remaining orders in the second pass.

use indexmap::IndexMap;
use vstd::prelude::*;
use vstd::string::StringExecFns;

use crate::api::{
    criteria_path, criteria_path_of, request_fault, state_block, QuestionView, Request,
};
use crate::error::{Error, ErrorView};
use crate::map::{
    add_key_list, find, key_lists_of, no_key_lists, orders_of, question_entries, questions_of,
};
use crate::math::{lists, option_orders, orders_view};
use crate::render::{
    branch_view, branch_views, branches_of, kind_of, option_texts, order_fits, order_for,
    prefix_view, seg_views, BranchView, Kind, LayoutView, Rendered, RenderedBranch, Renderer,
};
use crate::readout::{standing, standing_among, total_rank_view, Distribution};
use crate::text::{decimal, push_decimal, same, texts};

verus! {

/// A request's branches, and what it takes to decide on the second pass.
#[derive(Debug)]
pub struct Plan {
    /// The prefix and one branch per question in the caller's option order.
    /// Every folded distribution is over that branch's slots.
    pub rendered: Rendered,
    /// Branches of the first pass, each carrying its question's id.
    pub first: Vec<RenderedBranch>,
    /// Questions (index into `rendered.branches`) that went in as groups.
    pub grouped: Vec<usize>,
    pub cap: Option<usize>,
    pub orders: usize,
    /// Re-ask a question under the other orders only when its first read's
    /// confidence is below this number, given as its bit pattern.
    pub recheck: Option<u64>,
}

/// How many orders a question of this kind is asked under.
pub open spec fn orders_for_view(kind: Kind, n: nat) -> nat {
    match kind {
        Kind::Score => 1,
        _ => n,
    }
}

/// How many orders a question of this kind is asked under: levels of a Score
/// are never permuted.
pub fn orders_for(kind: Kind, n: usize) -> (r: usize)
    ensures
        r == orders_for_view(kind, n as nat),
{
    match kind {
        Kind::Choice => n,
        Kind::Noul => n,
        Kind::Score => 1,
    }
}

/// `a` divided by `b`, rounded up.
pub open spec fn ceil_div(a: nat, b: nat) -> nat
    recommends
        b > 0,
{
    if a == 0 {
        0
    } else {
        ((a - 1) / (b as int) + 1) as nat
    }
}

pub(crate) fn div_ceil(a: usize, b: usize) -> (r: usize)
    requires
        b > 0,
    ensures
        r == ceil_div(a as nat, b as nat),
        a > 0 ==> r > 0,
        r <= a,
{
    if a == 0 {
        0
    } else {
        proof {
            vstd::arithmetic::div_mod::lemma_div_is_ordered_by_denominator(
                (a - 1) as int,
                1,
                b as int,
            );
        }
        (a - 1) / b + 1
    }
}

/// `s` cut into runs of `n`, the last one possibly shorter.
pub open spec fn chunks<T>(s: Seq<T>, n: nat) -> Seq<Seq<T>>
    decreases s.len(),
{
    if s.len() == 0 || n == 0 {
        Seq::empty()
    } else if s.len() <= n {
        seq![s]
    } else {
        seq![s.take(n as int)] + chunks(s.skip(n as int), n)
    }
}

/// The size of the groups that `k` options are split into under `cap`: as
/// even as the number of groups allows.
pub open spec fn group_size(k: nat, cap: nat) -> nat {
    ceil_div(k, ceil_div(k, cap))
}

/// The options of `order` at the slots `o`.
pub open spec fn at_slots(order: Seq<usize>, o: Seq<usize>) -> Seq<usize> {
    o.map_values(|s: usize| order[s as int])
}

/// `order` under each of the first `n` slot orders.
pub open spec fn reordered(order: Seq<usize>, n: nat) -> Seq<Seq<usize>> {
    orders_view(order.len(), n).map_values(|o: Seq<usize>| at_slots(order, o))
}

/// A question has more options than can be lettered.
pub open spec fn over_cap(k: nat, cap: Option<usize>) -> bool {
    match cap {
        Some(c) => k > c,
        None => false,
    }
}

/// The option orders the first pass asks a question under: its groups when it
/// has more options than can be lettered, else the first `n` reorderings.
pub open spec fn first_slots(
    kind: Kind,
    order: Seq<usize>,
    cap: Option<usize>,
    n: nat,
) -> Seq<Seq<usize>> {
    if over_cap(order.len(), cap) {
        chunks(order, group_size(order.len(), cap->0 as nat))
    } else {
        reordered(order, orders_for_view(kind, n))
    }
}

/// One branch of a question per option order.
pub open spec fn branches_under(
    layout: LayoutView,
    id: Seq<char>,
    q: QuestionView,
    slots: Seq<Seq<usize>>,
) -> Seq<BranchView> {
    slots.map_values(|o: Seq<usize>| branch_view(layout, id, q, o))
}

/// The branches of the first pass, question by question.
pub open spec fn first_branches(
    layout: LayoutView,
    qs: Seq<(Seq<char>, QuestionView)>,
    orders: Seq<(Seq<char>, Seq<usize>)>,
    cap: Option<usize>,
    n: nat,
) -> Seq<BranchView>
    decreases qs.len(),
{
    if qs.len() == 0 {
        Seq::empty()
    } else {
        let (id, q) = qs.last();
        first_branches(layout, qs.drop_last(), orders, cap, n) + branches_under(
            layout,
            id,
            q,
            first_slots(kind_of(q), order_for(orders, id, q), cap, n),
        )
    }
}

/// Whether question `i` is asked in groups.
pub open spec fn is_grouped(
    qs: Seq<(Seq<char>, QuestionView)>,
    orders: Seq<(Seq<char>, Seq<usize>)>,
    cap: Option<usize>,
    i: int,
) -> bool {
    over_cap(order_for(orders, qs[i].0, qs[i].1).len(), cap)
}

/// The questions that are asked in groups, in order.
pub open spec fn grouped_questions(
    qs: Seq<(Seq<char>, QuestionView)>,
    orders: Seq<(Seq<char>, Seq<usize>)>,
    cap: Option<usize>,
) -> Seq<usize>
    decreases qs.len(),
{
    if qs.len() == 0 {
        Seq::empty()
    } else {
        let r = grouped_questions(qs.drop_last(), orders, cap);
        if is_grouped(qs, orders, cap, qs.len() - 1) {
            r.push((qs.len() - 1) as usize)
        } else {
            r
        }
    }
}

/// The error of a question with too many levels to letter.
pub open spec fn cap_fault(
    orders: Seq<(Seq<char>, Seq<usize>)>,
    e: (Seq<char>, QuestionView),
    cap: Option<usize>,
) -> Option<ErrorView> {
    if over_cap(order_for(orders, e.0, e.1).len(), cap) && kind_of(e.1) != Kind::Choice {
        Some(
            ErrorView::Invalid {
                path: criteria_path(e.0),
                message: "label readout supports at most "@ + decimal(cap->0 as nat) + " levels"@,
            },
        )
    } else {
        None
    }
}

/// The first question with too many levels to letter.
pub open spec fn cap_faults(
    qs: Seq<(Seq<char>, QuestionView)>,
    orders: Seq<(Seq<char>, Seq<usize>)>,
    cap: Option<usize>,
) -> Option<ErrorView>
    decreases qs.len(),
{
    if qs.len() == 0 {
        None
    } else {
        match cap_faults(qs.drop_last(), orders, cap) {
            Some(e) => Some(e),
            None => cap_fault(orders, qs.last(), cap),
        }
    }
}

/// Why a request cannot be planned, if it cannot.
pub open spec fn plan_fault(
    req: Request,
    orders: Seq<(Seq<char>, Seq<usize>)>,
    cap: Option<usize>,
) -> Option<ErrorView> {
    match request_fault(req.state@, questions_of(req.questions)) {
        Some(e) => Some(e),
        None => cap_faults(questions_of(req.questions), orders, cap),
    }
}

/// How many orders the first pass asks: one when the rest is gated.
pub open spec fn first_orders(n: nat, recheck: Option<u64>) -> nat {
    if recheck is Some || n == 0 {
        1
    } else {
        n
    }
}

/// Every given order is a nonempty choice of its question's options.
pub open spec fn orders_usable(
    qs: Seq<(Seq<char>, QuestionView)>,
    orders: Seq<(Seq<char>, Seq<usize>)>,
) -> bool {
    forall|i: int|
        0 <= i < qs.len() ==> match find(orders, (#[trigger] qs[i]).0) {
            Some(o) => order_fits(o, option_texts(qs[i].1).len()) && 0 < o.len() && 2 * o.len()
                <= usize::MAX,
            None => true,
        }
}

impl Plan {
    /// The plan of `req`: its rendering, its first pass and its grouped
    /// questions.
    pub open spec fn plans(
        self,
        layout: LayoutView,
        req: Request,
        orders: Seq<(Seq<char>, Seq<usize>)>,
        cap: Option<usize>,
        n: nat,
        recheck: Option<u64>,
    ) -> bool {
        let qs = questions_of(req.questions);
        &&& seg_views(self.rendered.prefix@) == prefix_view(layout, state_block(req.state@))
        &&& branches_of(self.rendered.branches@) == branch_views(layout, qs, orders)
        &&& branches_of(self.first@) == first_branches(
            layout,
            qs,
            orders,
            cap,
            first_orders(n, recheck),
        )
        &&& self.grouped@ == grouped_questions(qs, orders, cap)
        &&& self.cap == cap
        &&& self.orders == (if n == 0 {
            1
        } else {
            n
        })
        &&& self.recheck == recheck
    }
}

fn levels_message(cap: usize) -> (r: String)
    ensures
        r@ == "label readout supports at most "@ + decimal(cap as nat) + " levels"@,
{
    let mut s: String = "label readout supports at most ".to_owned();
    push_decimal(&mut s, cap as u64);
    s.append(" levels");
    s
}

/// The runs of `n` of a list, each as a list of its own.
fn chunk_lists(s: &Vec<usize>, n: usize) -> (r: Vec<Vec<usize>>)
    requires
        n > 0,
    ensures
        lists(r@) == chunks(s@, n as nat),
{
    let mut out: Vec<Vec<usize>> = Vec::new();
    let mut at: usize = 0;
    assert(s@.skip(0) =~= s@);
    assert(lists(out@) + chunks(s@.skip(0), n as nat) =~= chunks(s@, n as nat));
    while at < s.len()
        invariant
            0 <= at <= s@.len(),
            n > 0,
            lists(out@) + chunks(s@.skip(at as int), n as nat) == chunks(s@, n as nat),
        decreases s@.len() - at,
    {
        let end: usize = if s.len() - at <= n {
            s.len()
        } else {
            at + n
        };
        let ghost before = lists(out@);
        let ghost rest = s@.skip(at as int);
        let part = vstd::slice::slice_to_vec(vstd::slice::slice_subrange(s.as_slice(), at, end));
        assert(part@ =~= s@.subrange(at as int, end as int));
        out.push(part);
        assert(lists(out@) =~= before.push(part@));
        proof {
            assert(s@.skip(end as int).len() == s@.len() - end);
            if rest.len() <= n {
                assert(part@ =~= rest);
                assert(lists(out@) + chunks(s@.skip(end as int), n as nat) =~= before
                    + seq![rest]);
            } else {
                assert(part@ =~= rest.take(n as int));
                assert(rest.skip(n as int) =~= s@.skip(end as int));
                assert(lists(out@) + chunks(s@.skip(end as int), n as nat) =~= before + (seq![
                    part@,
                ] + chunks(rest.skip(n as int), n as nat)));
            }
        }
        at = end;
    }
    assert(lists(out@) + chunks(s@.skip(at as int), n as nat) =~= lists(out@));
    out
}

fn pick(order: &Vec<usize>, o: &Vec<usize>) -> (r: Vec<usize>)
    requires
        order_fits(o@, order@.len()),
    ensures
        r@ == at_slots(order@, o@),
{
    let mut out: Vec<usize> = Vec::new();
    let mut i: usize = 0;
    while i < o.len()
        invariant
            0 <= i <= o@.len(),
            order_fits(o@, order@.len()),
            out@ == at_slots(order@, o@).take(i as int),
        decreases o@.len() - i,
    {
        out.push(order[o[i]]);
        i += 1;
        assert(out@ =~= at_slots(order@, o@).take(i as int));
    }
    assert(out@ =~= at_slots(order@, o@));
    out
}

/// `order` under each of the first `n` slot orders.
fn reorder(order: &Vec<usize>, n: usize) -> (r: Vec<Vec<usize>>)
    requires
        0 < order@.len(),
        2 * order@.len() <= usize::MAX,
    ensures
        lists(r@) == reordered(order@, n as nat),
{
    let slots = option_orders(order.len(), n);
    let ghost k = order@.len();
    let ghost want = reordered(order@, n as nat);
    assert(lists(slots@).len() == slots@.len());
    let mut out: Vec<Vec<usize>> = Vec::new();
    let mut i: usize = 0;
    while i < slots.len()
        invariant
            0 <= i <= slots@.len(),
            0 < k <= usize::MAX,
            k == order@.len(),
            lists(slots@) == orders_view(k, n as nat),
            slots@.len() == lists(slots@).len(),
            want == reordered(order@, n as nat),
            out@.len() == i,
            forall|j: int| 0 <= j < i ==> (#[trigger] out@[j])@ == want[j],
        decreases slots@.len() - i,
    {
        proof {
            assert(lists(slots@)[i as int] == slots@[i as int]@);
            crate::math::orders_are_permutations(k, i as int);
        }
        out.push(pick(order, &slots[i]));
        i += 1;
    }
    assert(lists(out@) =~= want);
    out
}

/// The pieces of a list that fits, fit.
pub(crate) proof fn chunks_fit(s: Seq<usize>, n: nat, k: nat)
    requires
        order_fits(s, k),
    ensures
        forall|i: int| 0 <= i < chunks(s, n).len() ==> order_fits(#[trigger] chunks(s, n)[i], k),
    decreases s.len(),
{
    if s.len() == 0 || n == 0 || s.len() <= n {
    } else {
        chunks_fit(s.skip(n as int), n, k);
        let c = chunks(s, n);
        assert forall|i: int| 0 <= i < c.len() implies order_fits(#[trigger] c[i], k) by {
            if i == 0 {
                assert(c[0] == s.take(n as int));
            } else {
                assert(c[i] == chunks(s.skip(n as int), n)[i - 1]);
            }
        }
    }
}

/// The reorderings of a list that fits, fit.
pub(crate) proof fn reordered_fit(order: Seq<usize>, n: nat, k: nat)
    requires
        order_fits(order, k),
        0 < order.len() <= usize::MAX,
    ensures
        forall|i: int|
            0 <= i < reordered(order, n).len() ==> order_fits(#[trigger] reordered(order, n)[i], k),
{
    let r = reordered(order, n);
    assert forall|i: int| 0 <= i < r.len() implies order_fits(#[trigger] r[i], k) by {
        crate::math::orders_are_permutations(order.len(), i);
        assert(r[i] == at_slots(order, crate::math::order_at(order.len(), i)));
    }
}

/// Appends one branch of a question per option order.
fn push_branches(
    renderer: &Renderer,
    id: &str,
    q: &crate::api::Question,
    slots: &Vec<Vec<usize>>,
    out: &mut Vec<RenderedBranch>,
)
    requires
        forall|i: int|
            0 <= i < slots@.len() ==> order_fits(
                (#[trigger] slots@[i])@,
                option_texts(q@).len(),
            ),
    ensures
        branches_of(final(out)@) == branches_of(old(out)@) + branches_under(
            renderer@,
            id@,
            q@,
            lists(slots@),
        ),
{
    let ghost before = branches_of(out@);
    let ghost more = branches_under(renderer@, id@, q@, lists(slots@));
    let mut i: usize = 0;
    assert(branches_of(out@) =~= before + more.take(0));
    while i < slots.len()
        invariant
            0 <= i <= slots@.len(),
            forall|j: int|
                0 <= j < slots@.len() ==> order_fits(
                    (#[trigger] slots@[j])@,
                    option_texts(q@).len(),
                ),
            more == branches_under(renderer@, id@, q@, lists(slots@)),
            branches_of(out@) == before + more.take(i as int),
        decreases slots@.len() - i,
    {
        let ghost sofar = out@;
        assert(order_fits(slots@[i as int]@, option_texts(q@).len()));
        let b = renderer.branch(id, q, Some(slots[i].as_slice()));
        assert(b@ == more[i as int]);
        out.push(b);
        assert(branches_of(out@) =~= branches_of(sofar).push(b@));
        i += 1;
        assert(branches_of(out@) =~= before + more.take(i as int));
    }
    assert(more.take(i as int) =~= more);
}

/// A valid question has at least one option and at most the larger of the
/// two limits.
proof fn valid_option_count(id: Seq<char>, q: QuestionView)
    requires
        crate::api::question_fault(id, q) is None,
    ensures
        0 < option_texts(q).len() <= crate::api::MAX_CHOICE,
{
}

/// Without a fault in the list there is none at any place.
proof fn no_fault_at(qs: Seq<(Seq<char>, QuestionView)>, i: int)
    requires
        crate::api::questions_fault(qs) is None,
        0 <= i < qs.len(),
    ensures
        crate::api::question_fault(qs[i].0, qs[i].1) is None,
    decreases qs.len(),
{
    if i > 0 {
        no_fault_at(qs.drop_first(), i - 1);
        assert(qs.drop_first()[i - 1] == qs[i]);
    }
}

proof fn cap_faults_prefix(
    qs: Seq<(Seq<char>, QuestionView)>,
    orders: Seq<(Seq<char>, Seq<usize>)>,
    cap: Option<usize>,
    i: int,
)
    requires
        0 <= i <= qs.len(),
        cap_faults(qs.take(i), orders, cap) is Some,
    ensures
        cap_faults(qs, orders, cap) == cap_faults(qs.take(i), orders, cap),
    decreases qs.len() - i,
{
    if i < qs.len() {
        assert(qs.take(i + 1).drop_last() =~= qs.take(i));
        cap_faults_prefix(qs, orders, cap, i + 1);
    } else {
        assert(qs.take(i) =~= qs);
    }
}

impl Plan {
    /// `cap` is the label readout's option limit (`None` for the pointer
    /// readout); `n_orders` how many option orders to average (1 = off);
    /// `recheck` gates the extra orders on the first read's confidence being
    /// below the value.
    pub fn new(
        renderer: &Renderer,
        req: &Request,
        orders: &IndexMap<String, Vec<usize>>,
        cap: Option<usize>,
        n_orders: usize,
        recheck: Option<u64>,
    ) -> (r: Result<Plan, Error>)
        requires
            request_fault(req.state@, questions_of(req.questions)) is None ==> orders_usable(
                questions_of(req.questions),
                orders_of(*orders),
            ),
            cap is Some ==> cap->0 > 0,
        ensures
            match r {
                Ok(p) => plan_fault(*req, orders_of(*orders), cap) is None && p.plans(
                    renderer@,
                    *req,
                    orders_of(*orders),
                    cap,
                    n_orders as nat,
                    recheck,
                ),
                Err(e) => plan_fault(*req, orders_of(*orders), cap) == Some(e@),
            },
    {
        match req.validate() {
            Ok(_) => {},
            Err(e) => {
                return Err(e);
            },
        }
        let ghost qs = questions_of(req.questions);
        let ghost os = orders_of(*orders);
        let rendered = renderer.render_with(req, orders);
        let n: usize = if n_orders == 0 {
            1
        } else {
            n_orders
        };
        let n_first: usize = if recheck.is_some() && n > 1 {
            1
        } else {
            n
        };
        let entries = question_entries(&req.questions);
        let mut first: Vec<RenderedBranch> = Vec::new();
        let mut grouped: Vec<usize> = Vec::new();
        assert(branches_of(rendered.branches@).len() == rendered.branches@.len());
        assert(branches_of(first@) =~= first_branches(renderer@, qs.take(0), os, cap, n_first as nat));
        assert(grouped@ =~= grouped_questions(qs.take(0), os, cap));
        let mut i: usize = 0;
        while i < entries.len()
            invariant
                0 <= i <= entries@.len(),
                entries@.len() == qs.len(),
                qs == questions_of(req.questions),
                os == orders_of(*orders),
                forall|j: int|
                    #![trigger entries@[j]]
                    0 <= j < entries@.len() ==> entries@[j].0@ == qs[j].0 && entries@[j].1@
                        == qs[j].1,
                orders_usable(qs, os),
                cap is Some ==> cap->0 > 0,
                request_fault(req.state@, qs) is None,
                branches_of(rendered.branches@) == branch_views(renderer@, qs, os),
                rendered.branches@.len() == qs.len(),
                branches_of(first@) == first_branches(
                    renderer@,
                    qs.take(i as int),
                    os,
                    cap,
                    n_first as nat,
                ),
                grouped@ == grouped_questions(qs.take(i as int), os, cap),
                cap_faults(qs.take(i as int), os, cap) is None,
            decreases entries@.len() - i,
        {
            let (id, q) = entries[i];
            let primary = &rendered.branches[i];
            let ghost order = order_for(os, id@, q@);
            proof {
                no_fault_at(qs, i as int);
                valid_option_count(qs[i as int].0, qs[i as int].1);
                assert(branches_of(rendered.branches@)[i as int] == primary@);
                assert(primary@ == branch_view(renderer@, id@, q@, order));
                assert(qs.take(i as int + 1).drop_last() =~= qs.take(i as int));
                assert(qs.take(i as int + 1).last() == qs[i as int]);
                assert(order_fits(order, option_texts(q@).len()));
            }
            let k: usize = primary.order.len();
            let slots: Vec<Vec<usize>>;
            match cap {
                Some(c) if k > c => {
                    if primary.kind != Kind::Choice {
                        let e = Error::invalid(
                            criteria_path_of(id.as_str()).as_str(),
                            levels_message(c).as_str(),
                        );
                        proof {
                            cap_faults_prefix(qs, os, cap, i as int + 1);
                        }
                        return Err(e);
                    }
                    let groups: usize = div_ceil(k, c);
                    slots = chunk_lists(&primary.order, div_ceil(k, groups));
                    grouped.push(i);
                    proof {
                        chunks_fit(order, group_size(k as nat, c as nat), option_texts(q@).len());
                    }
                },
                _ => {
                    slots = reorder(&primary.order, orders_for(primary.kind, n_first));
                    proof {
                        reordered_fit(
                            order,
                            orders_for_view(primary.kind, n_first as nat),
                            option_texts(q@).len(),
                        );
                    }
                },
            }
            assert(lists(slots@) == first_slots(kind_of(q@), order, cap, n_first as nat));
            assert forall|j: int| 0 <= j < slots@.len() implies order_fits(
                (#[trigger] slots@[j])@,
                option_texts(q@).len(),
            ) by {
                assert(lists(slots@)[j] == slots@[j]@);
            }
            push_branches(renderer, id.as_str(), q, &slots, &mut first);
            i += 1;
        }
        assert(qs.take(i as int) =~= qs);
        Ok(Plan { rendered, first, grouped, cap, orders: n, recheck })
    }
}

/// How many of the branches belong to question `id`.
pub open spec fn count_with(bs: Seq<BranchView>, id: Seq<char>) -> nat
    decreases bs.len(),
{
    if bs.len() == 0 {
        0
    } else {
        count_with(bs.drop_last(), id) + (if bs.last().id == id {
            1nat
        } else {
            0nat
        })
    }
}

/// The first of the branches that belongs to question `id`.
pub open spec fn first_with(bs: Seq<BranchView>, id: Seq<char>) -> int
    decreases bs.len(),
{
    if bs.len() == 0 {
        0
    } else if bs[0].id == id {
        0
    } else {
        1 + first_with(bs.drop_first(), id)
    }
}

/// The probabilities of a list of distributions.
pub open spec fn probs_of(ds: Seq<Distribution>) -> Seq<Seq<u64>> {
    ds.map_values(|d: Distribution| d.probs@)
}

/// The options of the first `s` slots of a branch that are among its best `n`.
pub open spec fn winners_in(order: Seq<usize>, probs: Seq<u64>, n: nat, s: nat) -> Seq<usize>
    decreases s,
{
    if s == 0 {
        Seq::empty()
    } else {
        let r = winners_in(order, probs, n, (s - 1) as nat);
        if standing(probs, s - 1) < n {
            r.push(order[s - 1])
        } else {
            r
        }
    }
}

/// The best `n` of every group of question `id` among the first `j` branches:
/// one option for each winning slot.
pub open spec fn winners(
    first: Seq<BranchView>,
    probs: Seq<Seq<u64>>,
    id: Seq<char>,
    n: nat,
    j: nat,
) -> Seq<usize>
    decreases j,
{
    if j == 0 {
        Seq::empty()
    } else {
        let r = winners(first, probs, id, n, (j - 1) as nat);
        if first[j - 1].id == id {
            r + winners_in(first[j - 1].order, probs[j - 1], n, first[j - 1].order.len())
        } else {
            r
        }
    }
}

/// An option as often as a list holds it.
pub open spec fn copies(list: Seq<usize>, o: usize) -> Seq<usize>
    decreases list.len(),
{
    if list.len() == 0 {
        Seq::empty()
    } else if list.last() == o {
        copies(list.drop_last(), o).push(o)
    } else {
        copies(list.drop_last(), o)
    }
}

/// A list sorted by where its options first come in `order`, of which the
/// first `k` slots count.
pub open spec fn placed(order: Seq<usize>, list: Seq<usize>, k: nat) -> Seq<usize>
    decreases k,
{
    if k == 0 {
        Seq::empty()
    } else {
        let r = placed(order, list, (k - 1) as nat);
        if order.take(k - 1).contains(order[k - 1]) {
            r
        } else {
            r + copies(list, order[k - 1])
        }
    }
}

/// The options of a grouped question that are asked against each other, in
/// the caller's order: of every group as many as fit under `cap` together.
pub open spec fn finalists(
    order: Seq<usize>,
    first: Seq<BranchView>,
    probs: Seq<Seq<u64>>,
    id: Seq<char>,
    cap: nat,
) -> Seq<usize> {
    placed(
        order,
        winners(first, probs, id, cap / count_with(first, id), first.len()),
        order.len(),
    )
}

impl Plan {
    /// A plan of `req` under `layout` and some option orders.
    pub open spec fn planned(self, layout: LayoutView, req: Request) -> bool {
        exists|os: Seq<(Seq<char>, Seq<usize>)>| self.planned_with(layout, req, os)
    }

    /// A plan of `req` under `layout` and the option orders `os`.
    pub open spec fn planned_with(
        self,
        layout: LayoutView,
        req: Request,
        os: Seq<(Seq<char>, Seq<usize>)>,
    ) -> bool {
        &&& orders_usable(questions_of(req.questions), os)
        &&& plan_fault(req, os, self.cap) is None
        &&& self.plans(layout, req, os, self.cap, self.orders as nat, self.recheck)
        &&& self.cap is Some ==> self.cap->0 > 0
    }

    /// The option order of question `i` in its primary branch.
    pub open spec fn primary(self, i: int) -> Seq<usize> {
        self.rendered.branches@[i].order@
    }

    /// Question `i` is re-asked: its first read was not confident, and there
    /// are other orders to ask it under.
    pub open spec fn rechecks(
        self,
        e: (Seq<char>, QuestionView),
        confident: Seq<bool>,
        i: int,
    ) -> bool {
        &&& self.recheck is Some
        &&& !self.grouped@.contains(i as usize)
        &&& orders_for_view(kind_of(e.1), self.orders as nat) >= 2
        &&& !confident[first_with(branches_of(self.first@), e.0)]
    }

    /// The re-asked questions among the first `n`.
    pub open spec fn rechecked_ids(
        self,
        qs: Seq<(Seq<char>, QuestionView)>,
        confident: Seq<bool>,
        n: nat,
    ) -> Seq<Seq<char>>
        decreases n,
    {
        if n == 0 {
            Seq::empty()
        } else {
            let r = self.rechecked_ids(qs, confident, (n - 1) as nat);
            if self.rechecks(qs[n - 1], confident, n - 1) {
                r.push(qs[n - 1].0)
            } else {
                r
            }
        }
    }

    /// The branches of the re-asked questions among the first `n`: every
    /// order but the one that was asked.
    pub open spec fn rechecked_branches(
        self,
        layout: LayoutView,
        qs: Seq<(Seq<char>, QuestionView)>,
        confident: Seq<bool>,
        n: nat,
    ) -> Seq<BranchView>
        decreases n,
    {
        if n == 0 {
            Seq::empty()
        } else {
            let r = self.rechecked_branches(layout, qs, confident, (n - 1) as nat);
            if self.rechecks(qs[n - 1], confident, n - 1) {
                r + branches_under(
                    layout,
                    qs[n - 1].0,
                    qs[n - 1].1,
                    reordered(self.primary(n - 1), self.orders as nat).skip(1),
                )
            } else {
                r
            }
        }
    }

    /// The finalists of the `g`-th grouped question.
    pub open spec fn finalists_at(
        self,
        qs: Seq<(Seq<char>, QuestionView)>,
        probs: Seq<Seq<u64>>,
        g: int,
    ) -> Seq<usize> {
        let i = self.grouped@[g] as int;
        finalists(
            self.primary(i),
            branches_of(self.first@),
            probs,
            qs[i].0,
            self.cap->0 as nat,
        )
    }

    /// The finalist branches of the first `n` grouped questions.
    pub open spec fn final_branches(
        self,
        layout: LayoutView,
        qs: Seq<(Seq<char>, QuestionView)>,
        probs: Seq<Seq<u64>>,
        n: nat,
    ) -> Seq<BranchView>
        decreases n,
    {
        if n == 0 {
            Seq::empty()
        } else {
            let e = qs[self.grouped@[n - 1] as int];
            self.final_branches(layout, qs, probs, (n - 1) as nat) + branches_under(
                layout,
                e.0,
                e.1,
                reordered(
                    self.finalists_at(qs, probs, n - 1),
                    orders_for_view(kind_of(e.1), self.orders as nat),
                ),
            )
        }
    }

    /// The finalists' keys, one entry per grouped question.
    pub open spec fn finalist_keys(
        self,
        qs: Seq<(Seq<char>, QuestionView)>,
        probs: Seq<Seq<u64>>,
    ) -> Seq<(Seq<char>, Seq<Seq<char>>)> {
        Seq::new(
            self.grouped@.len(),
            |g: int|
                {
                    let e = qs[self.grouped@[g] as int];
                    (
                        e.0,
                        self.finalists_at(qs, probs, g).map_values(
                            |o: usize| option_texts(e.1)[o as int].0,
                        ),
                    )
                },
        )
    }
}

proof fn count_concat(a: Seq<BranchView>, b: Seq<BranchView>, id: Seq<char>)
    ensures
        count_with(a + b, id) == count_with(a, id) + count_with(b, id),
    decreases b.len(),
{
    if b.len() == 0 {
        assert(a + b =~= a);
    } else {
        count_concat(a, b.drop_last(), id);
        assert((a + b).drop_last() =~= a + b.drop_last());
    }
}

proof fn count_under(
    layout: LayoutView,
    own: Seq<char>,
    q: QuestionView,
    slots: Seq<Seq<usize>>,
    id: Seq<char>,
)
    ensures
        count_with(branches_under(layout, own, q, slots), id) == (if own == id {
            slots.len()
        } else {
            0
        }),
    decreases slots.len(),
{
    let bs = branches_under(layout, own, q, slots);
    if slots.len() > 0 {
        count_under(layout, own, q, slots.drop_last(), id);
        assert(bs.drop_last() =~= branches_under(layout, own, q, slots.drop_last()));
    }
}

/// The first pass asks a question exactly once per order of `first_slots`.
proof fn count_first(
    layout: LayoutView,
    qs: Seq<(Seq<char>, QuestionView)>,
    os: Seq<(Seq<char>, Seq<usize>)>,
    cap: Option<usize>,
    n: nat,
    id: Seq<char>,
)
    requires
        forall|i: int, j: int| 0 <= i < j < qs.len() ==> (#[trigger] qs[i]).0 != (#[trigger] qs[j]).0,
    ensures
        forall|i: int|
            0 <= i < qs.len() && (#[trigger] qs[i]).0 == id ==> count_with(
                first_branches(layout, qs, os, cap, n),
                id,
            ) == first_slots(kind_of(qs[i].1), order_for(os, qs[i].0, qs[i].1), cap, n).len(),
        (forall|i: int| 0 <= i < qs.len() ==> (#[trigger] qs[i]).0 != id) ==> count_with(
            first_branches(layout, qs, os, cap, n),
            id,
        ) == 0,
    decreases qs.len(),
{
    if qs.len() > 0 {
        let (own, q) = qs.last();
        let rest = qs.drop_last();
        let slots = first_slots(kind_of(q), order_for(os, own, q), cap, n);
        assert forall|i: int, j: int| 0 <= i < j < rest.len() implies (#[trigger] rest[i]).0 != (
        #[trigger] rest[j]).0 by {
            assert(rest[i] == qs[i] && rest[j] == qs[j]);
        }
        count_first(layout, rest, os, cap, n, id);
        count_under(layout, own, q, slots, id);
        count_concat(
            first_branches(layout, rest, os, cap, n),
            branches_under(layout, own, q, slots),
            id,
        );
        assert forall|i: int| 0 <= i < rest.len() implies (#[trigger] rest[i]) == qs[i] by {}
        if own == id {
            assert forall|i: int| 0 <= i < rest.len() implies (#[trigger] rest[i]).0 != id by {
                assert(qs[i].0 != qs[qs.len() - 1].0);
            }
        }
        assert forall|i: int| 0 <= i < qs.len() && (#[trigger] qs[i]).0 == id implies count_with(
            first_branches(layout, qs, os, cap, n),
            id,
        ) == first_slots(kind_of(qs[i].1), order_for(os, qs[i].0, qs[i].1), cap, n).len() by {
            if i < rest.len() {
                assert(rest[i] == qs[i]);
                assert(qs[i].0 != qs[qs.len() - 1].0);
            }
        }
        if forall|i: int| 0 <= i < qs.len() ==> (#[trigger] qs[i]).0 != id {
            assert(qs[qs.len() - 1].0 != id);
            assert forall|i: int| 0 <= i < rest.len() implies (#[trigger] rest[i]).0 != id by {
                assert(qs[i].0 != id);
            }
        }
    }
}

/// A first-pass branch of a question is asked under one of its `first_slots`.
proof fn first_is_of_its_question(
    layout: LayoutView,
    qs: Seq<(Seq<char>, QuestionView)>,
    os: Seq<(Seq<char>, Seq<usize>)>,
    cap: Option<usize>,
    n: nat,
    j: int,
    i: int,
)
    requires
        forall|i: int, j: int| 0 <= i < j < qs.len() ==> (#[trigger] qs[i]).0 != (#[trigger] qs[j]).0,
        0 <= i < qs.len(),
        0 <= j < first_branches(layout, qs, os, cap, n).len(),
        first_branches(layout, qs, os, cap, n)[j].id == qs[i].0,
    ensures
        ({
            let slots = first_slots(kind_of(qs[i].1), order_for(os, qs[i].0, qs[i].1), cap, n);
            exists|c: int|
                0 <= c < slots.len() && first_branches(layout, qs, os, cap, n)[j] == branch_view(
                    layout,
                    qs[i].0,
                    qs[i].1,
                    #[trigger] slots[c],
                )
        }),
    decreases qs.len(),
{
    let (own, q) = qs.last();
    let rest = qs.drop_last();
    let before = first_branches(layout, rest, os, cap, n);
    let own_slots = first_slots(kind_of(q), order_for(os, own, q), cap, n);
    assert forall|i: int, j: int| 0 <= i < j < rest.len() implies (#[trigger] rest[i]).0 != (
    #[trigger] rest[j]).0 by {
        assert(rest[i] == qs[i] && rest[j] == qs[j]);
    }
    if j >= before.len() {
        let c = j - before.len();
        assert(first_branches(layout, qs, os, cap, n)[j] == branches_under(
            layout,
            own,
            q,
            own_slots,
        )[c]);
        if i < rest.len() {
            assert(qs[i].0 != qs[qs.len() - 1].0);
        }
        assert(own_slots[c] == own_slots[c]);
    } else {
        assert(first_branches(layout, qs, os, cap, n)[j] == before[j]);
        if i < rest.len() {
            assert(rest[i] == qs[i]);
            first_is_of_its_question(layout, rest, os, cap, n, j, i);
        } else {
            count_first(layout, rest, os, cap, n, own);
            assert forall|x: int| 0 <= x < rest.len() implies (#[trigger] rest[x]).0 != own by {
                assert(qs[x].0 != qs[qs.len() - 1].0);
            }
            count_at(before, own, j);
        }
    }
}

/// A branch that belongs to a question counts for it.
proof fn count_at(bs: Seq<BranchView>, id: Seq<char>, j: int)
    requires
        0 <= j < bs.len(),
        bs[j].id == id,
    ensures
        count_with(bs, id) > 0,
    decreases bs.len(),
{
    if j < bs.len() - 1 {
        count_at(bs.drop_last(), id, j);
    }
}

/// Where some branch belongs to a question, [`first_with`] is the first one.
pub proof fn first_with_is_first(bs: Seq<BranchView>, id: Seq<char>)
    requires
        count_with(bs, id) > 0,
    ensures
        0 <= first_with(bs, id) < bs.len(),
        bs[first_with(bs, id)].id == id,
        forall|j: int| 0 <= j < first_with(bs, id) ==> (#[trigger] bs[j]).id != id,
    decreases bs.len(),
{
    if bs.len() > 0 && bs[0].id != id {
        let rest = bs.drop_first();
        count_concat(seq![bs[0]], rest, id);
        assert(seq![bs[0]] + rest =~= bs);
        assert(seq![bs[0]].drop_last() =~= Seq::<BranchView>::empty());
        reveal_with_fuel(count_with, 2);
        assert(count_with(seq![bs[0]], id) == 0);
        first_with_is_first(rest, id);
        assert forall|j: int| 0 <= j < first_with(bs, id) implies (#[trigger] bs[j]).id != id by {
            if j > 0 {
                assert(rest[j - 1] == bs[j]);
            }
        }
    }
}

proof fn ceil_covers(a: nat, b: nat)
    requires
        b > 0,
    ensures
        b * ceil_div(a, b) >= a,
{
    if a > 0 {
        vstd::arithmetic::div_mod::lemma_fundamental_div_mod(a - 1, b as int);
        let q = (a - 1) / (b as int);
        assert(b * (q + 1) == b * q + b) by (nonlinear_arith);
    }
}

proof fn ceil_at_most(a: nat, b: nat, q: nat)
    requires
        b > 0,
        a <= b * q,
    ensures
        ceil_div(a, b) <= q,
{
    if a > 0 {
        vstd::arithmetic::div_mod::lemma_fundamental_div_mod(a - 1, b as int);
        let d = (a - 1) / (b as int);
        if d >= q {
            assert(b * d >= b * q) by (nonlinear_arith)
                requires
                    d >= q,
                    b > 0,
            ;
        }
    }
}

proof fn chunk_count(s: Seq<usize>, n: nat)
    requires
        n > 0,
    ensures
        chunks(s, n).len() == ceil_div(s.len(), n),
        forall|i: int|
            0 <= i < chunks(s, n).len() ==> 0 < (#[trigger] chunks(s, n)[i]).len() <= n,
    decreases s.len(),
{
    let c = chunks(s, n);
    if s.len() == 0 {
    } else if s.len() <= n {
        vstd::arithmetic::div_mod::lemma_basic_div(s.len() - 1, n as int);
    } else {
        chunk_count(s.skip(n as int), n);
        vstd::arithmetic::div_mod::lemma_div_minus_one(s.len() - 1, n as int);
        assert forall|i: int| 0 <= i < c.len() implies 0 < (#[trigger] c[i]).len() <= n by {
            if i > 0 {
                assert(c[i] == chunks(s.skip(n as int), n)[i - 1]);
            }
        }
    }
}

/// Every option of a chunk is an option of the whole.
proof fn chunk_members(s: Seq<usize>, n: nat, c: int, x: int)
    requires
        0 <= c < chunks(s, n).len(),
        0 <= x < chunks(s, n)[c].len(),
    ensures
        s.contains(chunks(s, n)[c][x]),
    decreases s.len(),
{
    if s.len() <= n {
        assert(s[x] == chunks(s, n)[c][x]);
    } else if c == 0 {
        assert(s[x] == chunks(s, n)[c][x]);
    } else {
        let rest = s.skip(n as int);
        assert(chunks(s, n)[c] == chunks(rest, n)[c - 1]);
        chunk_members(rest, n, c - 1, x);
        let y = choose|y: int| 0 <= y < rest.len() && rest[y] == chunks(s, n)[c][x];
        assert(s[y + n] == chunks(s, n)[c][x]);
    }
}

/// The groups of a Choice are as many as fit under the cap when the options
/// are at most its square.
proof fn groups_fit(k: nat, cap: nat)
    requires
        0 < cap < k <= cap * cap,
    ensures
        group_size(k, cap) > 0,
        0 < ceil_div(k, group_size(k, cap)) <= cap,
{
    let g = ceil_div(k, cap);
    ceil_at_most(k, cap, cap);
    let z = ceil_div(k, g);
    ceil_covers(k, g);
    assert(z * g == g * z) by (nonlinear_arith);
    ceil_at_most(k, z, g);
}

/// The place that is first from high to low, among the first `n`.
proof fn best_among(probs: Seq<u64>, n: nat) -> (s: int)
    requires
        0 < n <= probs.len(),
    ensures
        0 <= s < n,
        standing_among(probs, s, n) == 0,
        forall|j: int|
            0 <= j < n ==> total_rank_view(#[trigger] probs[j]) < total_rank_view(probs[s]) || (
            total_rank_view(probs[j]) == total_rank_view(probs[s]) && s <= j),
    decreases n,
{
    if n == 1 {
        assert(standing_among(probs, 0, 0) == 0);
        0
    } else {
        let s = best_among(probs, (n - 1) as nat);
        if total_rank_view(probs[n - 1]) > total_rank_view(probs[s]) {
            none_before(probs, n - 1, n);
            n - 1
        } else {
            s
        }
    }
}

proof fn none_before(probs: Seq<u64>, s: int, n: nat)
    requires
        0 <= s < probs.len(),
        n <= probs.len(),
        forall|j: int|
            0 <= j < n ==> total_rank_view(#[trigger] probs[j]) < total_rank_view(probs[s]) || (
            total_rank_view(probs[j]) == total_rank_view(probs[s]) && s <= j),
    ensures
        standing_among(probs, s, n) == 0,
    decreases n,
{
    if n > 0 {
        none_before(probs, s, (n - 1) as nat);
    }
}

pub(crate) proof fn grouped_are_questions(
    qs: Seq<(Seq<char>, QuestionView)>,
    os: Seq<(Seq<char>, Seq<usize>)>,
    cap: Option<usize>,
)
    requires
        qs.len() <= usize::MAX,
    ensures
        ({
            let g = grouped_questions(qs, os, cap);
            &&& forall|a: int|
                0 <= a < g.len() ==> (#[trigger] g[a]) < qs.len() && is_grouped(
                    qs,
                    os,
                    cap,
                    g[a] as int,
                )
            &&& forall|a: int, b: int|
                0 <= a < b < g.len() ==> (#[trigger] g[a]) < (#[trigger] g[b])
        }),
    decreases qs.len(),
{
    if qs.len() > 0 {
        let rest = qs.drop_last();
        grouped_are_questions(rest, os, cap);
        let r = grouped_questions(rest, os, cap);
        assert forall|a: int| 0 <= a < r.len() implies is_grouped(qs, os, cap, #[trigger] r[a] as int) by {
            assert(is_grouped(rest, os, cap, r[a] as int));
            assert(rest[r[a] as int] == qs[r[a] as int]);
        }
    }
}

pub(crate) proof fn find_none<T>(entries: Seq<(Seq<char>, T)>, key: Seq<char>)
    requires
        forall|i: int| 0 <= i < entries.len() ==> (#[trigger] entries[i]).0 != key,
    ensures
        find(entries, key) is None,
    decreases entries.len(),
{
    if entries.len() > 0 {
        assert forall|i: int| 0 <= i < entries.drop_first().len() implies (
        #[trigger] entries.drop_first()[i]).0 != key by {
            assert(entries.drop_first()[i] == entries[i + 1]);
        }
        find_none(entries.drop_first(), key);
    }
}

proof fn copies_hold(list: Seq<usize>, o: usize)
    ensures
        copies(list, o).len() <= list.len(),
        forall|x: int| 0 <= x < copies(list, o).len() ==> #[trigger] copies(list, o)[x] == o,
        copies(list, o).len() > 0 <==> list.contains(o),
        list.no_duplicates() ==> copies(list, o).len() <= 1,
    decreases list.len(),
{
    if list.len() > 0 {
        let rest = list.drop_last();
        copies_hold(rest, o);
        assert forall|i: int| 0 <= i < rest.len() implies rest[i] == list[i] by {}
        if list.contains(o) && list.last() != o {
            let i = choose|i: int| 0 <= i < list.len() && list[i] == o;
            assert(rest[i] == o);
        }
        if rest.contains(o) {
            let i = choose|i: int| 0 <= i < rest.len() && rest[i] == o;
            assert(list[i] == o);
        }
        if list.no_duplicates() && list.last() == o && rest.contains(o) {
            let i = choose|i: int| 0 <= i < rest.len() && rest[i] == o;
            assert(list[i] == list[list.len() - 1]);
        }
        if list.last() == o {
            assert(list[list.len() - 1] == o);
        }
    }
}

/// How many entries of a list are among some options.
spec fn held(list: Seq<usize>, some: Seq<usize>) -> nat
    decreases list.len(),
{
    if list.len() == 0 {
        0
    } else {
        held(list.drop_last(), some) + (if some.contains(list.last()) {
            1nat
        } else {
            0nat
        })
    }
}

proof fn held_grows(list: Seq<usize>, some: Seq<usize>, o: usize)
    ensures
        held(list, some.push(o)) == held(list, some) + (if some.contains(o) {
            0
        } else {
            copies(list, o).len()
        }),
        held(list, some) <= list.len(),
    decreases list.len(),
{
    if list.len() > 0 {
        let l = list.last();
        held_grows(list.drop_last(), some, o);
        let more = some.push(o);
        if some.contains(l) {
            let i = choose|i: int| 0 <= i < some.len() && some[i] == l;
            assert(more[i] == l);
        }
        if more.contains(l) && l != o {
            let i = choose|i: int| 0 <= i < more.len() && more[i] == l;
            assert(some[i] == l);
        }
        if l == o {
            assert(more[some.len() as int] == o);
        }
    }
}

/// A placed list holds exactly the entries that the order holds.
proof fn placed_hold(order: Seq<usize>, list: Seq<usize>, k: nat)
    requires
        k <= order.len(),
    ensures
        placed(order, list, k).len() == held(list, order.take(k as int)),
        placed(order, list, k).len() <= list.len(),
        forall|x: usize| #[trigger]
            placed(order, list, k).contains(x) <==> list.contains(x) && order.take(
                k as int,
            ).contains(x),
        list.no_duplicates() ==> placed(order, list, k).no_duplicates(),
    decreases k,
{
    let some = order.take(k as int);
    let r = placed(order, list, k);
    held_grows(list, some, 0);
    if k == 0 {
        held_of_none(list, some);
    } else {
        let o = order[k - 1];
        let before = order.take(k - 1);
        let rest = placed(order, list, (k - 1) as nat);
        placed_hold(order, list, (k - 1) as nat);
        assert(some =~= before.push(o));
        held_grows(list, before, o);
        copies_hold(list, o);
        assert forall|x: usize| #[trigger] r.contains(x) <==> list.contains(x) && some.contains(
            x,
        ) by {
            if before.contains(x) {
                let i = choose|i: int| 0 <= i < before.len() && before[i] == x;
                assert(some[i] == x);
            }
            if some.contains(x) && x != o {
                let i = choose|i: int| 0 <= i < some.len() && some[i] == x;
                assert(before[i] == x);
            }
            assert(some[k - 1] == o);
            if rest.contains(x) {
                let i = choose|i: int| 0 <= i < rest.len() && rest[i] == x;
                assert(r[i] == x);
            }
            if r.contains(x) && !before.contains(o) {
                let i = choose|i: int| 0 <= i < r.len() && r[i] == x;
                if i < rest.len() {
                    assert(rest[i] == x);
                } else {
                    assert(copies(list, o)[i - rest.len()] == x);
                }
            }
            if !before.contains(o) && list.contains(o) && x == o {
                assert(r[rest.len() as int] == copies(list, o)[0]);
            }
        }
        if list.no_duplicates() && !before.contains(o) {
            assert forall|a: int, b: int| 0 <= a < b < r.len() implies r[a] != r[b] by {
                if b < rest.len() {
                    assert(rest[a] != rest[b]);
                } else {
                    assert(r[b] == copies(list, o)[b - rest.len()]);
                    assert(rest.contains(rest[a]));
                }
            }
        }
    }
}

proof fn held_of_none(list: Seq<usize>, some: Seq<usize>)
    requires
        some.len() == 0,
    ensures
        held(list, some) == 0,
    decreases list.len(),
{
    if list.len() > 0 {
        held_of_none(list.drop_last(), some);
    }
}

/// The options of a branch's winning slots, in the order of the slots.
fn best_of(b: &RenderedBranch, probs: &Vec<u64>, n: usize, out: &mut Vec<usize>)
    requires
        b.order@.len() == probs@.len(),
    ensures
        final(out)@ == old(out)@ + winners_in(b.order@, probs@, n as nat, b.order@.len()),
{
    let ghost before = out@;
    let mut s: usize = 0;
    assert(out@ =~= before + winners_in(b.order@, probs@, n as nat, 0));
    while s < b.order.len()
        invariant
            0 <= s <= b.order@.len(),
            b.order@.len() == probs@.len(),
            out@ == before + winners_in(b.order@, probs@, n as nat, s as nat),
        decreases b.order@.len() - s,
    {
        if crate::readout::place(probs, s) < n {
            out.push(b.order[s]);
        }
        s += 1;
        assert(out@ =~= before + winners_in(b.order@, probs@, n as nat, s as nat));
    }
}

/// Adds an option as often as a list holds it, each time with its key.
fn push_copies(list: &Vec<usize>, o: usize, key: &String, out: &mut Vec<usize>, keys: &mut Vec<String>)
    ensures
        final(out)@ == old(out)@ + copies(list@, o),
        final(keys)@.len() == old(keys)@.len() + copies(list@, o).len(),
        forall|j: int| 0 <= j < old(keys)@.len() ==> #[trigger] final(keys)@[j] == old(keys)@[j],
        forall|j: int|
            old(keys)@.len() <= j < final(keys)@.len() ==> (#[trigger] final(keys)@[j])@ == key@,
{
    let ghost before = out@;
    let ghost had = keys@;
    let mut i: usize = 0;
    assert(list@.take(0) =~= Seq::<usize>::empty());
    assert(out@ =~= before + copies(list@.take(0), o));
    while i < list.len()
        invariant
            0 <= i <= list@.len(),
            out@ == before + copies(list@.take(i as int), o),
            keys@.len() == had.len() + copies(list@.take(i as int), o).len(),
            forall|j: int| 0 <= j < had.len() ==> #[trigger] keys@[j] == had[j],
            forall|j: int| had.len() <= j < keys@.len() ==> (#[trigger] keys@[j])@ == key@,
        decreases list@.len() - i,
    {
        assert(list@.take(i as int + 1).drop_last() =~= list@.take(i as int));
        if list[i] == o {
            out.push(o);
            keys.push(key.clone());
        }
        i += 1;
        assert(out@ =~= before + copies(list@.take(i as int), o));
    }
    assert(list@.take(i as int) =~= list@);
}

/// Whether the option at a slot comes at an earlier one too.
fn came_before(order: &Vec<usize>, slot: usize) -> (r: bool)
    requires
        slot < order@.len(),
    ensures
        r == order@.take(slot as int).contains(order@[slot as int]),
{
    let ghost before = order@.take(slot as int);
    let mut i: usize = 0;
    while i < slot
        invariant
            0 <= i <= slot < order@.len(),
            before == order@.take(slot as int),
            forall|j: int| 0 <= j < i ==> #[trigger] before[j] != order@[slot as int],
        decreases slot - i,
    {
        if order[i] == order[slot] {
            assert(before[i as int] == order@[slot as int]);
            return true;
        }
        i += 1;
    }
    false
}

impl Plan {
    /// How many of the first-pass branches belong to question `id`.
    fn count_of(&self, id: &str) -> (r: usize)
        ensures
            r == count_with(branches_of(self.first@), id@),
    {
        let ghost bs = branches_of(self.first@);
        let mut n: usize = 0;
        let mut j: usize = 0;
        while j < self.first.len()
            invariant
                0 <= j <= self.first@.len(),
                bs == branches_of(self.first@),
                n <= j,
                n == count_with(bs.take(j as int), id@),
            decreases self.first@.len() - j,
        {
            assert(bs.take(j as int + 1).drop_last() =~= bs.take(j as int));
            assert(bs[j as int] == self.first@[j as int]@);
            if same(self.first[j].id.as_str(), id) {
                n += 1;
            }
            j += 1;
        }
        assert(bs.take(j as int) =~= bs);
        n
    }

    /// The best `n` of every group of question `id`.
    fn winners_of(&self, first: &Vec<Distribution>, id: &str, n: usize) -> (r: Vec<usize>)
        requires
            first@.len() == self.first@.len(),
            forall|j: int|
                0 <= j < first@.len() ==> (#[trigger] first@[j]).probs@.len()
                    == self.first@[j].order@.len(),
        ensures
            r@ == winners(
                branches_of(self.first@),
                probs_of(first@),
                id@,
                n as nat,
                self.first@.len(),
            ),
    {
        let ghost bs = branches_of(self.first@);
        let ghost ps = probs_of(first@);
        let mut out: Vec<usize> = Vec::new();
        let mut j: usize = 0;
        assert(out@ =~= winners(bs, ps, id@, n as nat, 0));
        while j < self.first.len()
            invariant
                0 <= j <= self.first@.len(),
                first@.len() == self.first@.len(),
                bs == branches_of(self.first@),
                ps == probs_of(first@),
                forall|j: int|
                    0 <= j < first@.len() ==> (#[trigger] first@[j]).probs@.len()
                        == self.first@[j].order@.len(),
                out@ == winners(bs, ps, id@, n as nat, j as nat),
            decreases self.first@.len() - j,
        {
            assert(bs[j as int] == self.first@[j as int]@);
            assert(ps[j as int] == first@[j as int].probs@);
            if same(self.first[j].id.as_str(), id) {
                best_of(&self.first[j], &first[j].probs, n, &mut out);
            }
            j += 1;
        }
        out
    }

    /// The first of the first-pass branches that belongs to question `id`.
    fn first_of(&self, id: &str) -> (r: usize)
        requires
            count_with(branches_of(self.first@), id@) > 0,
        ensures
            r == first_with(branches_of(self.first@), id@),
            r < self.first@.len(),
    {
        let ghost bs = branches_of(self.first@);
        proof {
            first_with_is_first(bs, id@);
        }
        let n: usize = self.first.len();
        let mut j: usize = 0;
        while !same(self.first[j].id.as_str(), id)
            invariant
                0 <= j <= first_with(bs, id@) < n,
                n == self.first@.len(),
                bs == branches_of(self.first@),
                bs[first_with(bs, id@)].id == id@,
                forall|t: int| 0 <= t < first_with(bs, id@) ==> (#[trigger] bs[t]).id != id@,
            decreases self.first@.len() - j,
        {
            assert(bs[j as int] == self.first@[j as int]@);
            j += 1;
        }
        assert(bs[j as int] == self.first@[j as int]@);
        j
    }
}

impl Plan {
    /// The option order of question `i` is usable, and every first-pass
    /// branch of a grouped question asks some of those options.
    pub(crate) proof fn primary_facts(
        self,
        layout: LayoutView,
        req: Request,
        os: Seq<(Seq<char>, Seq<usize>)>,
        i: int,
    )
        requires
            self.planned_with(layout, req, os),
            0 <= i < questions_of(req.questions).len(),
        ensures
            self.rendered.branches@.len() == questions_of(req.questions).len(),
            ({
                let e = questions_of(req.questions)[i];
                &&& self.rendered.branches@[i]@ == branch_view(
                    layout,
                    e.0,
                    e.1,
                    order_for(os, e.0, e.1),
                )
                &&& self.primary(i) == order_for(os, e.0, e.1)
                &&& order_fits(self.primary(i), option_texts(e.1).len())
                &&& 0 < self.primary(i).len()
                &&& 2 * self.primary(i).len() <= usize::MAX
                &&& self.rendered.branches@[i].kind == kind_of(e.1)
                &&& self.rendered.branches@[i].keys@.len() == self.primary(i).len()
                &&& forall|p: int|
                    0 <= p < self.primary(i).len() ==> (
                    #[trigger] self.rendered.branches@[i].keys@[p])@ == option_texts(
                        e.1,
                    )[self.primary(i)[p] as int].0
            }),
    {
        let qs = questions_of(req.questions);
        let e = qs[i];
        let b = self.rendered.branches@[i];
        assert(branches_of(self.rendered.branches@).len() == self.rendered.branches@.len());
        assert(branches_of(self.rendered.branches@)[i] == b@);
        no_fault_at(qs, i);
        valid_option_count(e.0, e.1);
        assert(texts(b.keys@).len() == b.keys@.len());
        assert forall|p: int| 0 <= p < self.primary(i).len() implies (#[trigger] b.keys@[p])@
            == option_texts(e.1)[self.primary(i)[p] as int].0 by {
            assert(texts(b.keys@)[p] == b.keys@[p]@);
        }
    }

    /// A grouped question has a winner among its options.
    pub(crate) proof fn some_finalist(
        self,
        layout: LayoutView,
        req: Request,
        os: Seq<(Seq<char>, Seq<usize>)>,
        probs: Seq<Seq<u64>>,
        i: int,
    )
        requires
            self.planned_with(layout, req, os),
            0 <= i < questions_of(req.questions).len(),
            forall|a: int, b: int|
                0 <= a < b < questions_of(req.questions).len() ==> (#[trigger] questions_of(
                    req.questions,
                )[a]).0 != (#[trigger] questions_of(req.questions)[b]).0,
            is_grouped(questions_of(req.questions), os, self.cap, i),
            self.primary(i).len() <= self.cap->0 * self.cap->0,
            probs.len() == self.first@.len(),
            forall|j: int|
                0 <= j < probs.len() ==> (#[trigger] probs[j]).len() == self.first@[j].order@.len(),
        ensures
            count_with(branches_of(self.first@), questions_of(req.questions)[i].0) > 0,
            finalists(
                self.primary(i),
                branches_of(self.first@),
                probs,
                questions_of(req.questions)[i].0,
                self.cap->0 as nat,
            ).len() > 0,
            finalists(
                self.primary(i),
                branches_of(self.first@),
                probs,
                questions_of(req.questions)[i].0,
                self.cap->0 as nat,
            ).len() <= self.cap->0,
            order_fits(
                finalists(
                    self.primary(i),
                    branches_of(self.first@),
                    probs,
                    questions_of(req.questions)[i].0,
                    self.cap->0 as nat,
                ),
                option_texts(questions_of(req.questions)[i].1).len(),
            ),
    {
        let qs = questions_of(req.questions);
        let (id, q) = qs[i];
        let cap = self.cap->0 as nat;
        let order = self.primary(i);
        let bs = branches_of(self.first@);
        let n = first_orders(self.orders as nat, self.recheck);
        let size = group_size(order.len(), cap);
        self.primary_facts(layout, req, os, i);
        count_first(layout, qs, os, self.cap, n, id);
        assert(qs[i].0 == id);
        groups_fit(order.len(), cap);
        chunk_count(order, size);
        let per = cap / count_with(bs, id);
        assert(per >= 1) by {
            vstd::arithmetic::div_mod::lemma_div_is_ordered(
                count_with(bs, id) as int,
                cap as int,
                count_with(bs, id) as int,
            );
            vstd::arithmetic::div_mod::lemma_div_by_self(count_with(bs, id) as int);
        }
        first_with_is_first(bs, id);
        let j = first_with(bs, id);
        first_is_of_its_question(layout, qs, os, self.cap, n, j, i);
        let slots = first_slots(kind_of(q), order, self.cap, n);
        let c = choose|c: int|
            0 <= c < slots.len() && bs[j] == branch_view(layout, id, q, #[trigger] slots[c]);
        assert(bs[j] == self.first@[j]@);
        assert(bs[j].order == chunks(order, size)[c]);
        let s = best_among(probs[j], probs[j].len());
        let o = bs[j].order[s];
        assert(standing(probs[j], s) < per);
        winners_in_hold(bs[j].order, probs[j], per, bs[j].order.len(), s);
        winners_hold(bs, probs, id, per, bs.len(), j, o);
        chunk_members(order, size, c, s);
        let w = winners(bs, probs, id, per, bs.len());
        placed_hold(order, w, order.len());
        assert(order.take(order.len() as int) =~= order);
        assert(placed(order, w, order.len()).contains(o));
        finalists_fit_under_the_cap(order, bs, probs, id, cap);
        let f = finalists(order, bs, probs, id, cap);
        assert forall|x: int| 0 <= x < f.len() implies (#[trigger] f[x]) < option_texts(
            q,
        ).len() by {
            assert(f.contains(f[x]));
            let y = choose|y: int| 0 <= y < order.len() && order[y] == f[x];
            assert(order[y] < option_texts(q).len());
        }
    }

    /// The second pass, given one distribution per `first` branch and whether
    /// its confidence reaches the threshold: the finalist branches of every
    /// grouped Choice (none when nothing was grouped) and, per such question,
    /// the finalists' keys; plus, with `recheck`, the remaining orders of
    /// every question whose first read was not confident enough, and those
    /// questions' ids.
    pub fn second(
        &self,
        renderer: &Renderer,
        req: &Request,
        first: &Vec<Distribution>,
        confident: &Vec<bool>,
    ) -> (r: (Vec<RenderedBranch>, IndexMap<String, Vec<String>>, Vec<String>))
        requires
            self.planned(renderer@, *req),
            first@.len() == self.first@.len(),
            confident@.len() == self.first@.len(),
            forall|j: int|
                0 <= j < first@.len() ==> (#[trigger] first@[j]).probs@.len()
                    == self.first@[j].order@.len(),
            forall|g: int|
                0 <= g < self.grouped@.len() ==> self.primary(
                    #[trigger] self.grouped@[g] as int,
                ).len() <= self.cap->0 * self.cap->0,
        ensures
            ({
                let qs = questions_of(req.questions);
                let probs = probs_of(first@);
                &&& branches_of(r.0@) == self.rechecked_branches(
                    renderer@,
                    qs,
                    confident@,
                    qs.len(),
                ) + self.final_branches(renderer@, qs, probs, self.grouped@.len())
                &&& key_lists_of(r.1) == self.finalist_keys(qs, probs)
                &&& texts(r.2@) == self.rechecked_ids(qs, confident@, qs.len())
            }),
    {
        let entries = question_entries(&req.questions);
        let ghost qs = questions_of(req.questions);
        let ghost os = choose|os: Seq<(Seq<char>, Seq<usize>)>|
            self.planned_with(renderer@, *req, os);
        let ghost bs = branches_of(self.first@);
        let ghost probs = probs_of(first@);
        let ghost layout = renderer@;
        let total: usize = entries.len();
        proof {
            assert(qs.len() == total);
            assert forall|a: int, b: int| 0 <= a < b < qs.len() implies (#[trigger] qs[a]).0 != (
            #[trigger] qs[b]).0 by {
                assert(entries@[a].0@ != entries@[b].0@);
            }
            grouped_are_questions(qs, os, self.cap);
            assert(bs.len() == self.first@.len());
            assert(probs.len() == first@.len());
            assert forall|j: int| 0 <= j < probs.len() implies (#[trigger] probs[j]).len()
                == self.first@[j].order@.len() by {
                assert(probs[j] == first@[j].probs@);
            }
        }
        let mut branches: Vec<RenderedBranch> = Vec::new();
        let mut rechecked: Vec<String> = Vec::new();
        if self.recheck.is_some() && self.orders > 1 {
            let mut i: usize = 0;
            assert(branches_of(branches@) =~= self.rechecked_branches(layout, qs, confident@, 0));
            assert(texts(rechecked@) =~= self.rechecked_ids(qs, confident@, 0));
            while i < entries.len()
                invariant
                    0 <= i <= entries@.len(),
                    entries@.len() == qs.len(),
                    qs == questions_of(req.questions),
                    layout == renderer@,
                    forall|j: int|
                        #![trigger entries@[j]]
                        0 <= j < entries@.len() ==> entries@[j].0@ == qs[j].0 && entries@[j].1@
                            == qs[j].1,
                    forall|a: int, b: int|
                        0 <= a < b < qs.len() ==> (#[trigger] qs[a]).0 != (#[trigger] qs[b]).0,
                    self.planned_with(layout, *req, os),
                    self.recheck is Some,
                    confident@.len() == self.first@.len(),
                    bs == branches_of(self.first@),
                    branches_of(branches@) == self.rechecked_branches(
                        layout,
                        qs,
                        confident@,
                        i as nat,
                    ),
                    texts(rechecked@) == self.rechecked_ids(qs, confident@, i as nat),
                decreases entries@.len() - i,
            {
                let (id, q) = entries[i];
                proof {
                    self.primary_facts(layout, *req, os, i as int);
                    assert(qs[i as int].0 == id@);
                }
                let primary = &self.rendered.branches[i];
                if !holds(&self.grouped, i) && orders_for(primary.kind, self.orders) >= 2 {
                    proof {
                        let n = first_orders(self.orders as nat, self.recheck);
                        count_first(layout, qs, os, self.cap, n, id@);
                        let slots = first_slots(
                            kind_of(q@),
                            order_for(os, id@, q@),
                            self.cap,
                            n,
                        );
                        if over_cap(self.primary(i as int).len(), self.cap) {
                            is_in_grouped(qs, os, self.cap, i as int);
                        }
                        assert(slots.len() >= 1);
                    }
                    let f: usize = self.first_of(id.as_str());
                    if !confident[f] {
                        let ghost ids = texts(rechecked@);
                        rechecked.push(id.clone());
                        assert(texts(rechecked@) =~= ids.push(id@));
                        let slots = reorder(&primary.order, self.orders);
                        assert(lists(slots@).len() == slots@.len());
                        let rest = tail(&slots);
                        assert(lists(rest@).len() == rest@.len());
                        proof {
                            reordered_fit(
                                primary.order@,
                                self.orders as nat,
                                option_texts(q@).len(),
                            );
                            assert forall|j: int| 0 <= j < rest@.len() implies order_fits(
                                (#[trigger] rest@[j])@,
                                option_texts(q@).len(),
                            ) by {
                                assert(lists(rest@)[j] == rest@[j]@);
                                assert(lists(slots@)[j + 1] == lists(rest@)[j]);
                            }
                        }
                        push_branches(renderer, id.as_str(), q, &rest, &mut branches);
                    }
                }
                i += 1;
            }
        } else {
            proof {
                self.nothing_rechecked(layout, qs, confident@, qs.len());
                assert(branches_of(branches@) =~= Seq::<BranchView>::empty());
                assert(texts(rechecked@) =~= Seq::<Seq<char>>::empty());
            }
        }
        let ghost again = branches_of(branches@);
        let mut finalists_of = no_key_lists();
        let mut g: usize = 0;
        assert(again + self.final_branches(layout, qs, probs, 0) =~= again);
        assert(key_lists_of(finalists_of) =~= self.finalist_keys(qs, probs).take(0));
        while g < self.grouped.len()
            invariant
                0 <= g <= self.grouped@.len(),
                entries@.len() == qs.len(),
                qs == questions_of(req.questions),
                layout == renderer@,
                forall|j: int|
                    #![trigger entries@[j]]
                    0 <= j < entries@.len() ==> entries@[j].0@ == qs[j].0 && entries@[j].1@
                        == qs[j].1,
                forall|a: int, b: int|
                    0 <= a < b < qs.len() ==> (#[trigger] qs[a]).0 != (#[trigger] qs[b]).0,
                self.planned_with(layout, *req, os),
                forall|a: int|
                    0 <= a < self.grouped@.len() ==> (#[trigger] self.grouped@[a]) < qs.len()
                        && is_grouped(qs, os, self.cap, self.grouped@[a] as int),
                forall|a: int, b: int|
                    0 <= a < b < self.grouped@.len() ==> (#[trigger] self.grouped@[a]) < (
                    #[trigger] self.grouped@[b]),
                forall|j: int|
                    0 <= j < self.grouped@.len() ==> self.primary(
                        #[trigger] self.grouped@[j] as int,
                    ).len() <= self.cap->0 * self.cap->0,
                first@.len() == self.first@.len(),
                forall|j: int|
                    0 <= j < first@.len() ==> (#[trigger] first@[j]).probs@.len()
                        == self.first@[j].order@.len(),
                bs == branches_of(self.first@),
                probs == probs_of(first@),
                probs.len() == self.first@.len(),
                forall|j: int|
                    0 <= j < probs.len() ==> (#[trigger] probs[j]).len()
                        == self.first@[j].order@.len(),
                branches_of(branches@) == again + self.final_branches(layout, qs, probs, g as nat),
                key_lists_of(finalists_of) == self.finalist_keys(qs, probs).take(g as int),
            decreases self.grouped@.len() - g,
        {
            let qi: usize = self.grouped[g];
            let (id, q) = entries[qi];
            proof {
                self.primary_facts(layout, *req, os, qi as int);
                self.some_finalist(layout, *req, os, probs, qi as int);
                assert(is_grouped(qs, os, self.cap, qi as int));
                assert(self.cap is Some);
            }
            let primary = &self.rendered.branches[qi];
            let cap: usize = match self.cap {
                Some(c) => c,
                None => 0,
            };
            let groups: usize = self.count_of(id.as_str());
            let per_group: usize = cap / groups;
            let won = self.winners_of(first, id.as_str(), per_group);
            let mut chosen: Vec<usize> = Vec::new();
            let mut keys: Vec<String> = Vec::new();
            let mut slot: usize = 0;
            assert(chosen@ =~= placed(primary.order@, won@, 0));
            while slot < primary.order.len()
                invariant
                    0 <= slot <= primary.order@.len(),
                    primary.keys@.len() == primary.order@.len(),
                    forall|j: int|
                        0 <= j < primary.order@.len() ==> (#[trigger] primary.keys@[j])@
                            == option_texts(q@)[primary.order@[j] as int].0,
                    chosen@ == placed(primary.order@, won@, slot as nat),
                    keys@.len() == chosen@.len(),
                    forall|j: int|
                        0 <= j < keys@.len() ==> (#[trigger] keys@[j])@ == option_texts(
                            q@,
                        )[chosen@[j] as int].0,
                decreases primary.order@.len() - slot,
            {
                if !came_before(&primary.order, slot) {
                    let o: usize = primary.order[slot];
                    let ghost had = chosen@;
                    proof {
                        copies_hold(won@, o);
                    }
                    push_copies(&won, o, &primary.keys[slot], &mut chosen, &mut keys);
                    assert forall|j: int| 0 <= j < keys@.len() implies (#[trigger] keys@[j])@
                        == option_texts(q@)[chosen@[j] as int].0 by {
                        if j < had.len() {
                            assert(chosen@[j] == had[j]);
                        } else {
                            assert(chosen@[j] == copies(won@, o)[j - had.len()]);
                        }
                    }
                }
                slot += 1;
            }
            assert(chosen@ == self.finalists_at(qs, probs, g as int));
            let slots = reorder(&chosen, orders_for(primary.kind, self.orders));
            proof {
                reordered_fit(
                    chosen@,
                    orders_for_view(primary.kind, self.orders as nat),
                    option_texts(q@).len(),
                );
                assert forall|j: int| 0 <= j < slots@.len() implies order_fits(
                    (#[trigger] slots@[j])@,
                    option_texts(q@).len(),
                ) by {
                    assert(lists(slots@)[j] == slots@[j]@);
                }
                let sofar = key_lists_of(finalists_of);
                assert forall|j: int| 0 <= j < sofar.len() implies (#[trigger] sofar[j]).0
                    != id@ by {
                    assert(self.grouped@[j] < self.grouped@[g as int]);
                    assert(qs[self.grouped@[j] as int].0 != qs[qi as int].0);
                }
                find_none(sofar, id@);
                assert(texts(keys@) =~= self.finalists_at(qs, probs, g as int).map_values(
                    |o: usize| option_texts(q@)[o as int].0,
                ));
            }
            add_key_list(&mut finalists_of, id.clone(), keys);
            push_branches(renderer, id.as_str(), q, &slots, &mut branches);
            g += 1;
            proof {
                let keys_view = self.finalist_keys(qs, probs);
                assert(keys_view.take(g as int) =~= keys_view.take(g - 1).push(keys_view[g - 1]));
                assert(branches_of(branches@) =~= again + self.final_branches(
                    layout,
                    qs,
                    probs,
                    g as nat,
                ));
            }
        }
        assert(self.finalist_keys(qs, probs).take(g as int) =~= self.finalist_keys(qs, probs));
        (branches, finalists_of, rechecked)
    }

    proof fn nothing_rechecked(
        self,
        layout: LayoutView,
        qs: Seq<(Seq<char>, QuestionView)>,
        confident: Seq<bool>,
        n: nat,
    )
        requires
            self.recheck is None || self.orders <= 1,
        ensures
            self.rechecked_branches(layout, qs, confident, n) == Seq::<BranchView>::empty(),
            self.rechecked_ids(qs, confident, n) == Seq::<Seq<char>>::empty(),
        decreases n,
    {
        if n > 0 {
            self.nothing_rechecked(layout, qs, confident, (n - 1) as nat);
        }
    }
}

/// A question over the cap is among the grouped ones.
proof fn is_in_grouped(
    qs: Seq<(Seq<char>, QuestionView)>,
    os: Seq<(Seq<char>, Seq<usize>)>,
    cap: Option<usize>,
    i: int,
)
    requires
        0 <= i < qs.len(),
        is_grouped(qs, os, cap, i),
    ensures
        grouped_questions(qs, os, cap).contains(i as usize),
    decreases qs.len(),
{
    let rest = qs.drop_last();
    let r = grouped_questions(rest, os, cap);
    let all = grouped_questions(qs, os, cap);
    if i == qs.len() - 1 {
        assert(all[all.len() - 1] == i as usize);
    } else {
        assert(rest[i] == qs[i]);
        is_in_grouped(rest, os, cap, i);
        let x = choose|x: int| 0 <= x < r.len() && r[x] == i as usize;
        assert(all[x] == i as usize);
    }
}

/// Whether a list holds a number.
pub(crate) fn holds(v: &Vec<usize>, x: usize) -> (r: bool)
    ensures
        r == v@.contains(x),
{
    let mut i: usize = 0;
    while i < v.len()
        invariant
            0 <= i <= v@.len(),
            forall|j: int| 0 <= j < i ==> (#[trigger] v@[j]) != x,
        decreases v@.len() - i,
    {
        if v[i] == x {
            assert(v@[i as int] == x);
            return true;
        }
        i += 1;
    }
    false
}

/// All lists but the first.
fn tail(v: &Vec<Vec<usize>>) -> (r: Vec<Vec<usize>>)
    requires
        v@.len() > 0,
    ensures
        lists(r@) == lists(v@).skip(1),
{
    let mut out: Vec<Vec<usize>> = Vec::new();
    let mut i: usize = 1;
    while i < v.len()
        invariant
            1 <= i <= v@.len(),
            out@.len() == i - 1,
            forall|j: int| 0 <= j < out@.len() ==> (#[trigger] out@[j])@ == v@[j + 1]@,
        decreases v@.len() - i,
    {
        out.push(v[i].clone());
        i += 1;
    }
    assert(lists(out@) =~= lists(v@).skip(1));
    out
}

/// The groups of a Choice with more options than can be lettered hold every
/// option once, in the caller's order, and each fits under the cap.
pub proof fn groups_partition_the_options(order: Seq<usize>, cap: nat)
    requires
        0 < cap < order.len(),
    ensures
        chunks(order, group_size(order.len(), cap)).flatten() == order,
        forall|i: int|
            0 <= i < chunks(order, group_size(order.len(), cap)).len() ==> 0 < (#[trigger] chunks(
                order,
                group_size(order.len(), cap),
            )[i]).len() <= cap,
{
    let g = ceil_div(order.len(), cap);
    let z = group_size(order.len(), cap);
    ceil_covers(order.len(), cap);
    assert(g * cap == cap * g) by (nonlinear_arith);
    assert(g > 0);
    ceil_covers(order.len(), g);
    ceil_at_most(order.len(), g, cap);
    assert(z > 0);
    chunk_count(order, z);
    chunks_flatten(order, z);
}

proof fn chunks_flatten(s: Seq<usize>, n: nat)
    requires
        n > 0,
    ensures
        chunks(s, n).flatten() == s,
    decreases s.len(),
{
    if s.len() == 0 {
        assert(chunks(s, n).flatten() =~= s);
    } else if s.len() <= n {
        seq![s].lemma_flatten_one_element();
    } else {
        let rest = chunks(s.skip(n as int), n);
        chunks_flatten(s.skip(n as int), n);
        seq![s.take(n as int)].lemma_flatten_one_element();
        vstd::seq_lib::lemma_flatten_concat(seq![s.take(n as int)], rest);
        assert(s.take(n as int) + s.skip(n as int) =~= s);
    }
}

/// Every question of a planned request is asked at least once in the first
/// pass.
pub proof fn every_question_is_asked(
    plan: Plan,
    layout: LayoutView,
    req: Request,
    os: Seq<(Seq<char>, Seq<usize>)>,
    i: int,
)
    requires
        plan.planned_with(layout, req, os),
        0 <= i < questions_of(req.questions).len(),
        ids_differ(questions_of(req.questions)),
    ensures
        count_with(branches_of(plan.first@), questions_of(req.questions)[i].0) >= 1,
{
    let qs = questions_of(req.questions);
    let n = first_orders(plan.orders as nat, plan.recheck);
    plan.primary_facts(layout, req, os, i);
    count_first(layout, qs, os, plan.cap, n, qs[i].0);
    let order = plan.primary(i);
    if over_cap(order.len(), plan.cap) {
        let cap = plan.cap->0 as nat;
        groups_partition_the_options(order, cap);
        let c = chunks(order, group_size(order.len(), cap));
        if c.len() == 0 {
            assert(c.flatten() =~= Seq::<usize>::empty());
        }
    }
}

/// Every question has an id of its own.
pub open spec fn ids_differ(qs: Seq<(Seq<char>, QuestionView)>) -> bool {
    forall|a: int, b: int|
        0 <= a < b < qs.len() ==> (#[trigger] qs[a]).0 != (#[trigger] qs[b]).0
}

/// The one reordering is the order itself.
proof fn reordered_once(order: Seq<usize>)
    requires
        0 < order.len() <= usize::MAX,
    ensures
        reordered(order, 1) == seq![order],
{
    let k = order.len();
    crate::math::the_first_order_is_the_identity(k);
    assert(crate::math::orders_view(k, 1).len() == 1);
    assert(reordered(order, 1).len() == 1);
    assert(reordered(order, 1)[0] == at_slots(order, crate::math::order_at(k, 0)));
    assert(reordered(order, 1)[0] =~= order);
    assert(reordered(order, 1) =~= seq![order]);
}

/// Without a fault in the list no question has too many levels.
proof fn no_cap_fault_at(
    qs: Seq<(Seq<char>, QuestionView)>,
    os: Seq<(Seq<char>, Seq<usize>)>,
    cap: Option<usize>,
    i: int,
)
    requires
        cap_faults(qs, os, cap) is None,
        0 <= i < qs.len(),
    ensures
        cap_fault(os, qs[i], cap) is None,
    decreases qs.len(),
{
    if i < qs.len() - 1 {
        no_cap_fault_at(qs.drop_last(), os, cap, i);
        assert(qs.drop_last()[i] == qs[i]);
    }
}

/// With the re-asking gated, a question that is not grouped is first asked
/// exactly once, in its own order.
pub proof fn gated_questions_are_first_asked_once(
    plan: Plan,
    layout: LayoutView,
    req: Request,
    os: Seq<(Seq<char>, Seq<usize>)>,
    i: int,
)
    requires
        plan.planned_with(layout, req, os),
        ids_differ(questions_of(req.questions)),
        0 <= i < questions_of(req.questions).len() <= usize::MAX,
        !plan.grouped@.contains(i as usize),
        plan.recheck is Some,
    ensures
        ({
            let id = questions_of(req.questions)[i].0;
            let first = branches_of(plan.first@);
            &&& count_with(first, id) == 1
            &&& first[first_with(first, id)].order == plan.primary(i)
        }),
{
    plan.first_asked_once(layout, req, os, i);
}

/// The levels of a Score question are never permuted: it is never grouped,
/// its one first-pass branch asks it in its own order, and it is never asked
/// again.
pub proof fn scores_keep_their_order(
    plan: Plan,
    layout: LayoutView,
    req: Request,
    os: Seq<(Seq<char>, Seq<usize>)>,
    confident: Seq<bool>,
    i: int,
)
    requires
        plan.planned_with(layout, req, os),
        ids_differ(questions_of(req.questions)),
        0 <= i < questions_of(req.questions).len() <= usize::MAX,
        kind_of(questions_of(req.questions)[i].1) == Kind::Score,
    ensures
        ({
            let e = questions_of(req.questions)[i];
            let first = branches_of(plan.first@);
            &&& !plan.grouped@.contains(i as usize)
            &&& count_with(first, e.0) == 1
            &&& first[first_with(first, e.0)].order == plan.primary(i)
            &&& !plan.rechecks(e, confident, i)
        }),
{
    let qs = questions_of(req.questions);
    grouped_are_questions(qs, os, plan.cap);
    no_cap_fault_at(qs, os, plan.cap, i);
    if plan.grouped@.contains(i as usize) {
        let a = choose|a: int| 0 <= a < plan.grouped@.len() && plan.grouped@[a] == i as usize;
        assert(is_grouped(qs, os, plan.cap, plan.grouped@[a] as int));
    }
    plan.first_asked_once(layout, req, os, i);
}

impl Plan {
    /// A question that is not grouped and has one order to be asked under is
    /// asked once, in its own order.
    proof fn first_asked_once(
        self,
        layout: LayoutView,
        req: Request,
        os: Seq<(Seq<char>, Seq<usize>)>,
        i: int,
    )
        requires
            self.planned_with(layout, req, os),
            ids_differ(questions_of(req.questions)),
            0 <= i < questions_of(req.questions).len() <= usize::MAX,
            !self.grouped@.contains(i as usize),
            orders_for_view(
                kind_of(questions_of(req.questions)[i].1),
                first_orders(self.orders as nat, self.recheck),
            ) == 1,
        ensures
            ({
                let id = questions_of(req.questions)[i].0;
                let first = branches_of(self.first@);
                &&& count_with(first, id) == 1
                &&& first[first_with(first, id)].order == self.primary(i)
            }),
    {
        let qs = questions_of(req.questions);
        let id = qs[i].0;
        let n = first_orders(self.orders as nat, self.recheck);
        let first = branches_of(self.first@);
        self.primary_facts(layout, req, os, i);
        if is_grouped(qs, os, self.cap, i) {
            is_in_grouped(qs, os, self.cap, i);
        }
        reordered_once(self.primary(i));
        count_first(layout, qs, os, self.cap, n, id);
        first_with_is_first(first, id);
        first_is_of_its_question(layout, qs, os, self.cap, n, first_with(first, id), i);
    }

    proof fn count_rechecked(
        self,
        layout: LayoutView,
        qs: Seq<(Seq<char>, QuestionView)>,
        confident: Seq<bool>,
        n: nat,
        i: int,
    )
        requires
            ids_differ(qs),
            n <= qs.len(),
            0 <= i < qs.len(),
        ensures
            count_with(self.rechecked_branches(layout, qs, confident, n), qs[i].0) == (if i < n
                && self.rechecks(qs[i], confident, i) {
                reordered(self.primary(i), self.orders as nat).skip(1).len()
            } else {
                0
            }),
        decreases n,
    {
        if n > 0 {
            let e = qs[n - 1];
            self.count_rechecked(layout, qs, confident, (n - 1) as nat, i);
            if self.rechecks(e, confident, n - 1) {
                let slots = reordered(self.primary(n - 1), self.orders as nat).skip(1);
                count_under(layout, e.0, e.1, slots, qs[i].0);
                count_concat(
                    self.rechecked_branches(layout, qs, confident, (n - 1) as nat),
                    branches_under(layout, e.0, e.1, slots),
                    qs[i].0,
                );
            }
            if i < n - 1 {
                assert(qs[i].0 != qs[n - 1].0);
            } else if i > n - 1 {
                assert(qs[n - 1].0 != qs[i].0);
            }
        }
    }
}

/// Only a question whose first read was not confident is asked again: then
/// once under each order but the one it was asked under, else not at all.
pub proof fn only_unsure_questions_are_asked_again(
    plan: Plan,
    layout: LayoutView,
    qs: Seq<(Seq<char>, QuestionView)>,
    confident: Seq<bool>,
    i: int,
)
    requires
        ids_differ(qs),
        0 <= i < qs.len(),
        0 < plan.primary(i).len(),
        0 < plan.orders,
    ensures
        count_with(plan.rechecked_branches(layout, qs, confident, qs.len()), qs[i].0) == (
        if plan.rechecks(qs[i], confident, i) {
            crate::math::orders_view(plan.primary(i).len(), plan.orders as nat).len() - 1
        } else {
            0
        }),
{
    plan.count_rechecked(layout, qs, confident, qs.len(), i);
    assert(crate::math::orders_view(plan.primary(i).len(), plan.orders as nat).len() >= 1);
}

/// Entry `a` comes before entry `b` from high to low.
spec fn before(probs: Seq<u64>, a: int, b: int) -> bool {
    total_rank_view(probs[a]) > total_rank_view(probs[b]) || (total_rank_view(probs[a])
        == total_rank_view(probs[b]) && a < b)
}

proof fn standing_is_ordered(probs: Seq<u64>, a: int, b: int, n: nat)
    requires
        0 <= a < probs.len(),
        0 <= b < probs.len(),
        n <= probs.len(),
        before(probs, a, b),
    ensures
        standing_among(probs, a, n) + (if a < n {
            1nat
        } else {
            0nat
        }) <= standing_among(probs, b, n),
    decreases n,
{
    if n > 0 {
        standing_is_ordered(probs, a, b, (n - 1) as nat);
    }
}

/// The entries with a place below `m`.
spec fn top_places(probs: Seq<u64>, m: nat) -> Set<int> {
    Set::new(|s: int| 0 <= s < probs.len() && standing(probs, s) < m)
}

proof fn top_places_count(probs: Seq<u64>, m: nat)
    ensures
        top_places(probs, m).finite(),
        top_places(probs, m).len() <= m,
{
    let t = top_places(probs, m);
    let all = vstd::set_lib::set_int_range(0, probs.len() as int);
    vstd::set_lib::lemma_int_range(0, probs.len() as int);
    assert(t.subset_of(all));
    vstd::set_lib::lemma_len_subset(t, all);
    let f = |s: int| standing(probs, s) as int;
    let image = t.map(f);
    let range = vstd::set_lib::set_int_range(0, m as int);
    vstd::set_lib::lemma_int_range(0, m as int);
    assert(vstd::relations::injective_on(f, t)) by {
        assert forall|a: int, b: int|
            #![trigger f(a), f(b)]
            t.contains(a) && t.contains(b) && f(a) == f(b) implies a == b by {
            if a != b {
                if before(probs, a, b) {
                    standing_is_ordered(probs, a, b, probs.len());
                } else {
                    standing_is_ordered(probs, b, a, probs.len());
                }
            }
        }
    }
    vstd::set_lib::lemma_map_size(t, image, f);
    assert(image.subset_of(range));
    vstd::set_lib::lemma_len_subset(image, range);
}

/// The entries before `s` with a place below `m`.
spec fn top_before(probs: Seq<u64>, m: nat, s: nat) -> Set<int> {
    Set::new(|t: int| 0 <= t < s && standing(probs, t) < m)
}

proof fn winners_in_count(order: Seq<usize>, probs: Seq<u64>, m: nat, s: nat)
    requires
        s <= probs.len(),
    ensures
        top_before(probs, m, s).finite(),
        winners_in(order, probs, m, s).len() == top_before(probs, m, s).len(),
    decreases s,
{
    let now = top_before(probs, m, s);
    if s == 0 {
        assert(now =~= Set::empty());
    } else {
        let before = top_before(probs, m, (s - 1) as nat);
        winners_in_count(order, probs, m, (s - 1) as nat);
        if standing(probs, s - 1) < m {
            assert(now =~= before.insert(s - 1));
        } else {
            assert(now =~= before);
        }
    }
}

/// A winning slot gives its option.
proof fn winners_in_hold(order: Seq<usize>, probs: Seq<u64>, m: nat, s: nat, t: int)
    requires
        0 <= t < s <= order.len(),
        standing(probs, t) < m,
    ensures
        winners_in(order, probs, m, s).contains(order[t]),
    decreases s,
{
    let w = winners_in(order, probs, m, s);
    if t == s - 1 {
        assert(w[w.len() - 1] == order[t]);
    } else {
        let r = winners_in(order, probs, m, (s - 1) as nat);
        winners_in_hold(order, probs, m, (s - 1) as nat, t);
        let i = choose|i: int| 0 <= i < r.len() && r[i] == order[t];
        assert(w[i] == order[t]);
    }
}

/// Winning options are options of the branch.
proof fn winners_in_come(order: Seq<usize>, probs: Seq<u64>, m: nat, s: nat)
    requires
        s <= order.len(),
    ensures
        forall|x: usize| #[trigger]
            winners_in(order, probs, m, s).contains(x) ==> order.take(s as int).contains(x),
        order.no_duplicates() ==> winners_in(order, probs, m, s).no_duplicates(),
    decreases s,
{
    if s > 0 {
        let w = winners_in(order, probs, m, s);
        let r = winners_in(order, probs, m, (s - 1) as nat);
        winners_in_come(order, probs, m, (s - 1) as nat);
        assert forall|x: usize| #[trigger] w.contains(x) implies order.take(s as int).contains(
            x,
        ) by {
            let i = choose|i: int| 0 <= i < w.len() && w[i] == x;
            if i < r.len() {
                assert(r[i] == x);
                assert(r.contains(x));
                let early = order.take(s - 1);
                let y = choose|y: int| 0 <= y < early.len() && early[y] == x;
                assert(order.take(s as int)[y] == x);
            } else {
                assert(order.take(s as int)[s - 1] == x);
            }
        }
        if order.no_duplicates() {
            assert forall|a: int, b: int| 0 <= a < b < w.len() implies w[a] != w[b] by {
                if b < r.len() {
                    assert(r[a] != r[b]);
                } else {
                    assert(r.contains(r[a]));
                    let early = order.take(s - 1);
                    let y = choose|y: int| 0 <= y < early.len() && early[y] == r[a];
                    assert(order[y] != order[s - 1]);
                }
            }
        }
    }
}

/// The winners of a group are among those of all.
proof fn winners_hold(
    first: Seq<BranchView>,
    probs: Seq<Seq<u64>>,
    id: Seq<char>,
    m: nat,
    n: nat,
    j: int,
    o: usize,
)
    requires
        0 <= j < n <= first.len(),
        first[j].id == id,
        winners_in(first[j].order, probs[j], m, first[j].order.len()).contains(o),
    ensures
        winners(first, probs, id, m, n).contains(o),
    decreases n,
{
    let w = winners(first, probs, id, m, n);
    let r = winners(first, probs, id, m, (n - 1) as nat);
    if j == n - 1 {
        let own = winners_in(first[j].order, probs[j], m, first[j].order.len());
        let i = choose|i: int| 0 <= i < own.len() && own[i] == o;
        assert(w[r.len() + i] == o);
    } else {
        winners_hold(first, probs, id, m, (n - 1) as nat, j, o);
        let i = choose|i: int| 0 <= i < r.len() && r[i] == o;
        assert(w[i] == o);
    }
}

proof fn winners_count(first: Seq<BranchView>, probs: Seq<Seq<u64>>, id: Seq<char>, m: nat, n: nat)
    requires
        n <= first.len(),
        probs.len() == first.len(),
        forall|j: int|
            0 <= j < probs.len() ==> (#[trigger] probs[j]).len() == first[j].order.len(),
    ensures
        winners(first, probs, id, m, n).len() <= m * count_with(first.take(n as int), id),
    decreases n,
{
    if n > 0 {
        let k = (n - 1) as nat;
        winners_count(first, probs, id, m, k);
        assert(first.take(n as int).drop_last() =~= first.take(k as int));
        let c = count_with(first.take(k as int), id);
        let b = first[n - 1];
        top_places_count(probs[n - 1], m);
        winners_in_count(b.order, probs[n - 1], m, b.order.len());
        assert(top_before(probs[n - 1], m, b.order.len()) =~= top_places(probs[n - 1], m));
        assert(m * (c + 1) == m * c + m) by (nonlinear_arith);
    } else {
        assert(first.take(0) =~= Seq::<BranchView>::empty());
    }
}

/// The groups of question `id` ask every option once.
pub open spec fn groups_apart(first: Seq<BranchView>, id: Seq<char>) -> bool {
    &&& forall|j: int|
        0 <= j < first.len() && (#[trigger] first[j]).id == id ==> first[j].order.no_duplicates()
    &&& forall|j: int, k: int, x: usize|
        0 <= j < k < first.len() && first[j].id == id && first[k].id == id
            && #[trigger] first[j].order.contains(x) ==> !#[trigger] first[k].order.contains(x)
}

proof fn winners_apart(first: Seq<BranchView>, probs: Seq<Seq<u64>>, id: Seq<char>, m: nat, n: nat)
    requires
        n <= first.len(),
        groups_apart(first, id),
    ensures
        winners(first, probs, id, m, n).no_duplicates(),
        forall|x: usize| #[trigger]
            winners(first, probs, id, m, n).contains(x) ==> exists|j: int|
                0 <= j < n && first[j].id == id && #[trigger] first[j].order.contains(x),
    decreases n,
{
    if n > 0 {
        let w = winners(first, probs, id, m, n);
        let r = winners(first, probs, id, m, (n - 1) as nat);
        let b = first[n - 1];
        winners_apart(first, probs, id, m, (n - 1) as nat);
        if b.id == id {
            let own = winners_in(b.order, probs[n - 1], m, b.order.len());
            winners_in_come(b.order, probs[n - 1], m, b.order.len());
            assert(b.order.take(b.order.len() as int) =~= b.order);
            assert forall|x: usize| #[trigger] w.contains(x) implies exists|j: int|
                0 <= j < n && first[j].id == id && #[trigger] first[j].order.contains(x) by {
                let i = choose|i: int| 0 <= i < w.len() && w[i] == x;
                if i < r.len() {
                    assert(r[i] == x);
                    assert(r.contains(x));
                } else {
                    assert(own[i - r.len()] == x);
                    assert(own.contains(x));
                    assert(first[n - 1].order.contains(x));
                }
            }
            assert forall|x: int, y: int| 0 <= x < y < w.len() implies w[x] != w[y] by {
                if y < r.len() {
                    assert(r[x] != r[y]);
                } else {
                    assert(own[y - r.len()] == w[y]);
                    assert(own.contains(w[y]));
                    if x < r.len() {
                        assert(r[x] == w[x]);
                        assert(r.contains(w[x]));
                        let j = choose|j: int|
                            0 <= j < n - 1 && first[j].id == id
                                && #[trigger] first[j].order.contains(w[x]);
                        assert(first[j].order.contains(w[x]));
                        assert(!first[n - 1].order.contains(w[x]));
                    } else {
                        assert(own[x - r.len()] != own[y - r.len()]);
                    }
                }
            }
        }
    }
}

proof fn chunks_apart(s: Seq<usize>, n: nat, c: int, d: int)
    requires
        s.no_duplicates(),
        0 <= c < chunks(s, n).len(),
        0 <= d < chunks(s, n).len(),
    ensures
        chunks(s, n)[c].no_duplicates(),
        c < d ==> forall|x: usize| #[trigger]
            chunks(s, n)[c].contains(x) ==> !chunks(s, n)[d].contains(x),
    decreases s.len(),
{
    let cs = chunks(s, n);
    if s.len() > n {
        let rest = s.skip(n as int);
        let more = chunks(rest, n);
        assert forall|a: int, b: int| 0 <= a < b < rest.len() implies rest[a] != rest[b] by {
            assert(s[a + n] != s[b + n]);
        }
        if c > 0 {
            assert(cs[c] == more[c - 1]);
            if d > 0 {
                assert(cs[d] == more[d - 1]);
                chunks_apart(rest, n, c - 1, d - 1);
            } else {
                chunks_apart(rest, n, c - 1, c - 1);
            }
        } else if d > 0 {
            assert(cs[d] == more[d - 1]);
            assert forall|x: usize| #[trigger] cs[c].contains(x) implies !cs[d].contains(x) by {
                if cs[d].contains(x) {
                    let y = choose|y: int| 0 <= y < cs[d].len() && cs[d][y] == x;
                    chunk_members(rest, n, d - 1, y);
                    let z = choose|z: int| 0 <= z < rest.len() && rest[z] == x;
                    let w = choose|w: int| 0 <= w < cs[c].len() && cs[c][w] == x;
                    assert(s[w] != s[z + n]);
                }
            }
        }
    }
}

/// A grouped question whose order names no option twice is asked about every
/// option in one group only.
pub proof fn groups_ask_every_option_once(
    layout: LayoutView,
    qs: Seq<(Seq<char>, QuestionView)>,
    os: Seq<(Seq<char>, Seq<usize>)>,
    cap: Option<usize>,
    n: nat,
    i: int,
)
    requires
        forall|i: int, j: int| 0 <= i < j < qs.len() ==> (#[trigger] qs[i]).0 != (#[trigger] qs[j]).0,
        0 <= i < qs.len(),
        is_grouped(qs, os, cap, i),
        order_for(os, qs[i].0, qs[i].1).no_duplicates(),
    ensures
        groups_apart(first_branches(layout, qs, os, cap, n), qs[i].0),
    decreases qs.len(),
{
    let (own, q) = qs.last();
    let id = qs[i].0;
    let rest = qs.drop_last();
    let before = first_branches(layout, rest, os, cap, n);
    let all = first_branches(layout, qs, os, cap, n);
    let order = order_for(os, own, q);
    let slots = first_slots(kind_of(q), order, cap, n);
    assert forall|i: int, j: int| 0 <= i < j < rest.len() implies (#[trigger] rest[i]).0 != (
    #[trigger] rest[j]).0 by {
        assert(rest[i] == qs[i] && rest[j] == qs[j]);
    }
    assert forall|j: int| 0 <= j < all.len() implies #[trigger] all[j] == (if j < before.len() {
        before[j]
    } else {
        branch_view(layout, own, q, slots[j - before.len()])
    }) by {}
    if i < rest.len() {
        assert(rest[i] == qs[i]);
        assert(qs[i].0 != qs[qs.len() - 1].0);
        groups_ask_every_option_once(layout, rest, os, cap, n, i);
        assert forall|j: int, k: int, x: usize|
            0 <= j < k < all.len() && all[j].id == id && all[k].id == id
                && #[trigger] all[j].order.contains(x) implies !#[trigger] all[k].order.contains(
            x,
        ) by {
            assert(before[j].order.contains(x));
            assert(!before[k].order.contains(x));
        }
    } else {
        count_first(layout, rest, os, cap, n, own);
        assert forall|x: int| 0 <= x < rest.len() implies (#[trigger] rest[x]).0 != own by {
            assert(qs[x].0 != qs[qs.len() - 1].0);
        }
        assert forall|j: int| 0 <= j < before.len() implies (#[trigger] before[j]).id != own by {
            if before[j].id == own {
                count_at(before, own, j);
            }
        }
        let size = group_size(order.len(), cap->0 as nat);
        assert(slots == chunks(order, size));
        assert forall|j: int| 0 <= j < all.len() && (#[trigger] all[j]).id == id implies
            all[j].order.no_duplicates() by {
            chunks_apart(order, size, j - before.len(), j - before.len());
        }
        assert forall|j: int, k: int, x: usize|
            0 <= j < k < all.len() && all[j].id == id && all[k].id == id
                && #[trigger] all[j].order.contains(x) implies !#[trigger] all[k].order.contains(
            x,
        ) by {
            chunks_apart(order, size, j - before.len(), k - before.len());
        }
    }
}

/// The finalists of a question fit under the cap and are options of it. Where
/// its groups ask every option once, no option is asked twice among them.
pub proof fn finalists_fit_under_the_cap(
    order: Seq<usize>,
    first: Seq<BranchView>,
    probs: Seq<Seq<u64>>,
    id: Seq<char>,
    cap: nat,
)
    requires
        count_with(first, id) > 0,
        probs.len() == first.len(),
        forall|j: int|
            0 <= j < probs.len() ==> (#[trigger] probs[j]).len() == first[j].order.len(),
    ensures
        finalists(order, first, probs, id, cap).len() <= cap,
        groups_apart(first, id) ==> finalists(order, first, probs, id, cap).no_duplicates(),
        forall|o: usize|
            #[trigger] finalists(order, first, probs, id, cap).contains(o) ==> order.contains(o),
{
    let c = count_with(first, id);
    let m = cap / c;
    let w = winners(first, probs, id, m, first.len());
    placed_hold(order, w, order.len());
    assert(order.take(order.len() as int) =~= order);
    winners_count(first, probs, id, m, first.len());
    assert(first.take(first.len() as int) =~= first);
    assert(m * c <= cap) by {
        vstd::arithmetic::div_mod::lemma_fundamental_div_mod(cap as int, c as int);
        assert(m * c == c * m) by (nonlinear_arith);
    }
    if groups_apart(first, id) {
        winners_apart(first, probs, id, m, first.len());
    }
}

proof fn standing_slots_win(order: Seq<usize>, probs: Seq<u64>, n: nat, s: nat, x: int)
    requires
        0 <= x < s <= order.len(),
    ensures
        standing(probs, x) < n ==> winners_in(order, probs, n, s).contains(order[x]),
    decreases s,
{
    let all = winners_in(order, probs, n, s);
    let rest = winners_in(order, probs, n, (s - 1) as nat);
    if standing(probs, x) < n {
        if x < s - 1 {
            standing_slots_win(order, probs, n, (s - 1) as nat, x);
            let k = rest.index_of(order[x]);
            assert(all[k] == order[x]);
        } else {
            assert(all[all.len() - 1] == order[x]);
        }
    }
}

proof fn winners_stand(order: Seq<usize>, probs: Seq<u64>, n: nat, s: nat, k: int) -> (x: int)
    requires
        s <= order.len(),
        0 <= k < winners_in(order, probs, n, s).len(),
    ensures
        0 <= x < s,
        standing(probs, x) < n,
        winners_in(order, probs, n, s)[k] == order[x],
    decreases s,
{
    let rest = winners_in(order, probs, n, (s - 1) as nat);
    if s > 0 && k < rest.len() {
        winners_stand(order, probs, n, (s - 1) as nat, k)
    } else {
        s - 1
    }
}

/// The best of every group win: an option that stands among the first `n` of
/// its group is a winner.
pub proof fn the_best_of_a_group_win(
    first: Seq<BranchView>,
    probs: Seq<Seq<u64>>,
    id: Seq<char>,
    n: nat,
    j: nat,
    b: int,
    x: int,
)
    requires
        0 <= b < j <= first.len(),
        first[b].id == id,
        0 <= x < first[b].order.len(),
        standing(probs[b], x) < n,
    ensures
        winners(first, probs, id, n, j).contains(first[b].order[x]),
    decreases j,
{
    let o = first[b].order[x];
    let all = winners(first, probs, id, n, j);
    let rest = winners(first, probs, id, n, (j - 1) as nat);
    if b < j - 1 {
        the_best_of_a_group_win(first, probs, id, n, (j - 1) as nat, b, x);
        let k = rest.index_of(o);
        assert(all[k] == o);
    } else {
        let own = winners_in(first[b].order, probs[b], n, first[b].order.len());
        standing_slots_win(first[b].order, probs[b], n, first[b].order.len(), x);
        let k = own.index_of(o);
        assert(all[rest.len() + k] == o);
    }
}

/// Only the best of a group win: a winner stands among the first `n` of a group
/// that asks the question.
pub proof fn only_the_best_of_a_group_win(
    first: Seq<BranchView>,
    probs: Seq<Seq<u64>>,
    id: Seq<char>,
    n: nat,
    j: nat,
    k: int,
) -> (w: (int, int))
    requires
        j <= first.len(),
        0 <= k < winners(first, probs, id, n, j).len(),
    ensures
        0 <= w.0 < j,
        first[w.0].id == id,
        0 <= w.1 < first[w.0].order.len(),
        standing(probs[w.0], w.1) < n,
        winners(first, probs, id, n, j)[k] == first[w.0].order[w.1],
    decreases j,
{
    if j == 0 {
        (0, 0)
    } else {
        let rest = winners(first, probs, id, n, (j - 1) as nat);
        if k < rest.len() {
            only_the_best_of_a_group_win(first, probs, id, n, (j - 1) as nat, k)
        } else {
            let b = first[j - 1];
            let x = winners_stand(b.order, probs[j - 1], n, b.order.len(), k - rest.len());
            (j - 1, x)
        }
    }
}

proof fn copies_are_held(list: Seq<usize>, o: usize, k: int)
    requires
        0 <= k,
    ensures
        k < copies(list, o).len() ==> copies(list, o)[k] == o && list.contains(o),
        list.contains(o) ==> copies(list, o).len() > 0,
    decreases list.len(),
{
    if list.len() > 0 {
        let rest = list.drop_last();
        copies_are_held(rest, o, k);
        copies_are_held(rest, o, 0);
        if rest.contains(o) {
            let x = rest.index_of(o);
            assert(list[x] == o);
        }
        if list.last() == o {
            assert(list[list.len() - 1] == o);
        } else if list.contains(o) {
            let x = list.index_of(o);
            assert(rest[x] == o);
        }
    }
}

/// Finalists stand in the caller's order: those among the caller's first `k`
/// options come first, and they are exactly the ones of these that are listed.
pub proof fn finalists_stand_in_the_callers_order(
    order: Seq<usize>,
    list: Seq<usize>,
    k: nat,
    n: nat,
    i: int,
)
    requires
        k <= n <= order.len(),
        order.no_duplicates(),
        0 <= i < k,
    ensures
        placed(order, list, k).len() <= placed(order, list, n).len(),
        placed(order, list, n).take(placed(order, list, k).len() as int) == placed(order, list, k),
        placed(order, list, k).contains(order[i]) <==> list.contains(order[i]),
        forall|x: int|
            0 <= x < placed(order, list, k).len() ==> order.take(k as int).contains(
                #[trigger] placed(order, list, k)[x],
            ),
    decreases n - k, k,
{
    let now = placed(order, list, k);
    if k < n {
        finalists_stand_in_the_callers_order(order, list, (k + 1) as nat, n, i);
        let next = placed(order, list, (k + 1) as nat);
        let all = placed(order, list, n);
        assert(next.take(now.len() as int) =~= now);
        assert(all.take(now.len() as int) =~= all.take(next.len() as int).take(now.len() as int));
    } else {
        assert(now.take(now.len() as int) =~= now);
    }
    placed_are_listed(order, list, k, i);
}

proof fn placed_are_listed(order: Seq<usize>, list: Seq<usize>, k: nat, i: int)
    requires
        k <= order.len(),
        order.no_duplicates(),
        0 <= i < k,
    ensures
        placed(order, list, k).contains(order[i]) <==> list.contains(order[i]),
        forall|x: int|
            0 <= x < placed(order, list, k).len() ==> order.take(k as int).contains(
                #[trigger] placed(order, list, k)[x],
            ),
    decreases k,
{
    let all = placed(order, list, k);
    let rest = placed(order, list, (k - 1) as nat);
    let o = order[k - 1];
    let own = copies(list, o);
    if order.take(k - 1).contains(o) {
        let y = order.take(k - 1).index_of(o);
        assert(order[y] == order[k - 1]);
    }
    assert(all == rest + own);
    if k > 1 {
        placed_are_listed(order, list, (k - 1) as nat, if i < k - 1 { i } else { 0 });
    } else {
        assert(placed(order, list, 0).len() == 0);
    }
    assert forall|x: int| 0 <= x < all.len() implies order.take(k as int).contains(
        #[trigger] all[x],
    ) by {
        if x < rest.len() {
            assert(order.take(k - 1).contains(rest[x]));
            let y = order.take(k - 1).index_of(rest[x]);
            assert(order.take(k as int)[y] == all[x]);
        } else {
            copies_are_held(list, o, x - rest.len());
            assert(order.take(k as int)[k - 1] == all[x]);
        }
    }
    copies_are_held(list, o, 0);
    if i == k - 1 {
        if list.contains(o) {
            assert(all[rest.len() as int] == o);
        }
        if all.contains(o) {
            let x = all.index_of(o);
            if x < rest.len() {
                assert(order.take(k - 1).contains(rest[x]));
            } else {
                copies_are_held(list, o, x - rest.len());
            }
        }
    } else {
        if rest.contains(order[i]) {
            let x = rest.index_of(order[i]);
            assert(all[x] == order[i]);
        }
        if all.contains(order[i]) && !rest.contains(order[i]) {
            let x = all.index_of(order[i]);
            if x < rest.len() {
                assert(rest[x] == order[i]);
            }
            copies_are_held(list, o, x - rest.len());
            assert(order[i] == order[k - 1]);
        }
    }
}

/// A question is asked in groups exactly where it has more options than the cap;
/// a readout without a cap groups none.
pub proof fn questions_over_the_cap_are_grouped(
    qs: Seq<(Seq<char>, QuestionView)>,
    orders: Seq<(Seq<char>, Seq<usize>)>,
    cap: Option<usize>,
    i: int,
)
    requires
        0 <= i < qs.len() <= usize::MAX,
    ensures
        grouped_questions(qs, orders, cap).contains(i as usize) <==> cap is Some && order_for(
            orders,
            qs[i].0,
            qs[i].1,
        ).len() > cap->0,
        cap is None ==> grouped_questions(qs, orders, cap).len() == 0,
        forall|k: int|
            0 <= k < grouped_questions(qs, orders, cap).len() ==> (#[trigger] grouped_questions(
                qs,
                orders,
                cap,
            )[k]) < qs.len(),
    decreases qs.len(),
{
    let all = grouped_questions(qs, orders, cap);
    let before = qs.drop_last();
    let rest = grouped_questions(before, orders, cap);
    let n = qs.len();
    if n > 1 {
        questions_over_the_cap_are_grouped(before, orders, cap, if i < n - 1 { i } else { 0 });
        assert(i < n - 1 ==> before[i] == qs[i]);
    } else {
        assert(before =~= Seq::empty());
        assert(rest.len() == 0);
    }
    if rest.contains(i as usize) {
        let k = rest.index_of(i as usize);
        assert(all[k] == i as usize);
    }
    if all.len() > rest.len() {
        assert(all[rest.len() as int] == (n - 1) as usize);
    }
}

/// The questions that are asked again are those that qualify, and no others.
pub proof fn the_unsure_are_asked_again(
    p: Plan,
    qs: Seq<(Seq<char>, QuestionView)>,
    confident: Seq<bool>,
    n: nat,
    x: Seq<char>,
)
    requires
        n <= qs.len(),
    ensures
        p.rechecked_ids(qs, confident, n).contains(x) <==> exists|i: int|
            0 <= i < n && p.rechecks(#[trigger] qs[i], confident, i) && qs[i].0 == x,
    decreases n,
{
    if n > 0 {
        the_unsure_are_asked_again(p, qs, confident, (n - 1) as nat, x);
        let r = p.rechecked_ids(qs, confident, (n - 1) as nat);
        let s = p.rechecked_ids(qs, confident, n);
        if s.contains(x) {
            let k = choose|k: int| 0 <= k < s.len() && s[k] == x;
            if k < r.len() {
                assert(r[k] == x);
                let i = choose|i: int|
                    0 <= i < n - 1 && p.rechecks(#[trigger] qs[i], confident, i) && qs[i].0 == x;
                assert(p.rechecks(qs[i], confident, i) && qs[i].0 == x);
            } else {
                assert(p.rechecks(qs[n - 1], confident, n - 1) && qs[n - 1].0 == x);
            }
        }
        if exists|i: int|
            0 <= i < n && p.rechecks(#[trigger] qs[i], confident, i) && qs[i].0 == x {
            let i = choose|i: int|
                0 <= i < n && p.rechecks(#[trigger] qs[i], confident, i) && qs[i].0 == x;
            if i == n - 1 {
                assert(s.last() == x);
            } else {
                assert(r.contains(x));
                let k = choose|k: int| 0 <= k < r.len() && r[k] == x;
                assert(s[k] == x);
            }
        }
    }
}

/// Finalists are reported under their question, each by the key of the option
/// that it is.
pub proof fn finalists_go_by_their_keys(
    p: Plan,
    qs: Seq<(Seq<char>, QuestionView)>,
    probs: Seq<Seq<u64>>,
    g: int,
    j: int,
)
    requires
        0 <= g < p.grouped@.len(),
        0 <= j < p.finalists_at(qs, probs, g).len(),
    ensures
        p.finalist_keys(qs, probs).len() == p.grouped@.len(),
        ({
            let e = qs[p.grouped@[g] as int];
            let f = p.finalist_keys(qs, probs)[g];
            &&& f.0 == e.0
            &&& f.1.len() == p.finalists_at(qs, probs, g).len()
            &&& e.1 matches QuestionView::Choice { instructions, criteria } ==> ({
                let o = p.finalists_at(qs, probs, g)[j] as int;
                0 <= o < criteria.len() ==> f.1[j] == criteria[o].0
            })
        }),
{
}

/// A question is asked again only where rechecking is on, its first answer
/// was not confident, it was not asked in groups, and it has another order
/// to be asked in; and then it is.
pub proof fn sure_answers_stand(
    p: Plan,
    e: (Seq<char>, QuestionView),
    confident: Seq<bool>,
    i: int,
)
    requires
        0 <= i <= usize::MAX,
    ensures
        p.recheck is None ==> !p.rechecks(e, confident, i),
        confident[first_with(branches_of(p.first@), e.0)] ==> !p.rechecks(e, confident, i),
        p.grouped@.contains(i as usize) ==> !p.rechecks(e, confident, i),
        orders_for_view(kind_of(e.1), p.orders as nat) < 2 ==> !p.rechecks(e, confident, i),
        p.recheck is Some && !confident[first_with(branches_of(p.first@), e.0)]
            && !p.grouped@.contains(i as usize) && orders_for_view(
            kind_of(e.1),
            p.orders as nat,
        ) >= 2 ==> p.rechecks(e, confident, i),
{
}

} // verus!

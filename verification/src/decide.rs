//! From requests to sequences for the decision-head encoder, and from its
//! outputs back to requests.

use indexmap::IndexMap;
use vstd::prelude::*;
use vstd::string::StringExecFns;

use crate::api::{request_fault, Question, QuestionView, Request};
use crate::bert::{start_of, Sequence};
use crate::engine::{
    count_sum, count_sum_grows, pass_lists, passes, plan_passes, Cost, Diagnostics, Limits, Usage,
};
use crate::error::{error_text, LoadError};
use crate::json::JsonView;
use crate::laya::LayaConfig;
use crate::laya_pass::first_row;
use crate::map::{
    criteria_entries, criteria_of, find, key_lists_of, no_key_lists, order_of, orders_of,
    question_entries, questions_of,
};
use crate::prompt::{
    build_sequence, built, head_tokens, indices_of, laid_out, markers_fit, natural, option_texts,
    option_tokens, prefix_markers, question_message, state_ids, state_of, unmasked,
};
use crate::render::{kind_of, seg_views, BranchView, Kind, Mark, RenderedBranch, Segment};
use crate::text::{
    concat3, decimal, list_text, number_text, push_decimal, push_list, quote, starts_in, texts,
};
use crate::tokenize::Tokenize;

verus! {

/// A question's option keys, in request order: `true` before `false`.
pub open spec fn keys_in(q: QuestionView) -> Seq<Seq<char>> {
    match q {
        QuestionView::Choice { instructions, criteria } => criteria.map_values(
            |e: (Seq<char>, Option<JsonView>)| e.0,
        ),
        QuestionView::Score { instructions, criteria } => Seq::new(
            criteria.len(),
            |i: int| decimal(i as nat),
        ),
        QuestionView::Noul { instructions, criteria } => seq!["true"@, "false"@],
    }
}

/// The encoder's index of the option with index `i` in request order: the
/// encoder lists `false` before `true`.
pub open spec fn encoder_index(q: QuestionView, i: usize) -> usize {
    match q {
        QuestionView::Noul { instructions, criteria } => if i == 0 {
            1
        } else {
            0
        },
        _ => i,
    }
}

/// A question's kind, its option keys in request order, and the encoder's
/// index of each.
pub fn keys_of(q: &Question) -> (r: (Kind, Vec<String>, Vec<usize>))
    ensures
        r.0 == kind_of(q@),
        texts(r.1@) == keys_in(q@),
        r.2@ == Seq::new(keys_in(q@).len(), |i: int| encoder_index(q@, i as usize)),
{
    let mut keys: Vec<String> = Vec::new();
    let mut at: Vec<usize> = Vec::new();
    match q {
        Question::Choice { instructions, criteria } => {
            let entries = criteria_entries(criteria);
            let ghost cv = criteria_of(*criteria);
            let mut i: usize = 0;
            while i < entries.len()
                invariant
                    0 <= i <= entries@.len(),
                    cv == criteria_of(*criteria),
                    entries@.len() == cv.len(),
                    forall|j: int|
                        #![trigger entries@[j]]
                        0 <= j < entries@.len() ==> entries@[j].0@ == cv[j].0,
                    keys@.len() == i,
                    forall|j: int| 0 <= j < i ==> (#[trigger] keys@[j])@ == cv[j].0,
                    at@ == Seq::new(i as nat, |j: int| j as usize),
                decreases entries@.len() - i,
            {
                keys.push(entries[i].0.clone());
                at.push(i);
                i += 1;
                assert(at@ =~= Seq::new(i as nat, |j: int| j as usize));
            }
            assert(texts(keys@) =~= keys_in(q@));
            assert(at@ =~= Seq::new(keys_in(q@).len(), |i: int| encoder_index(q@, i as usize)));
            (Kind::Choice, keys, at)
        },
        Question::Score { instructions, criteria } => {
            let mut i: usize = 0;
            while i < criteria.len()
                invariant
                    0 <= i <= criteria@.len(),
                    keys@.len() == i,
                    forall|j: int| 0 <= j < i ==> (#[trigger] keys@[j])@ == decimal(j as nat),
                    at@ == Seq::new(i as nat, |j: int| j as usize),
                decreases criteria@.len() - i,
            {
                keys.push(number_text(i));
                at.push(i);
                i += 1;
                assert(at@ =~= Seq::new(i as nat, |j: int| j as usize));
            }
            assert(texts(keys@) =~= keys_in(q@));
            assert(at@ =~= Seq::new(keys_in(q@).len(), |i: int| encoder_index(q@, i as usize)));
            (Kind::Score, keys, at)
        },
        Question::Noul { instructions, criteria } => {
            keys.push("true".to_owned());
            keys.push("false".to_owned());
            at.push(1);
            at.push(0);
            assert(texts(keys@) =~= keys_in(q@));
            assert(at@ =~= Seq::new(keys_in(q@).len(), |i: int| encoder_index(q@, i as usize)));
            (Kind::Noul, keys, at)
        },
    }
}

/// An order that lists as many options as there are, each of them one.
pub open spec fn is_order(o: Seq<usize>, n: nat) -> bool {
    o.len() == n && indices_of(o, n)
}

/// What is wrong with the order given for question `id`, if anything.
pub open spec fn order_fault(
    orders: Seq<(Seq<char>, Seq<usize>)>,
    id: Seq<char>,
    n: nat,
) -> Option<Seq<char>> {
    match find(orders, id) {
        None => None,
        Some(o) => if is_order(o, n) {
            None
        } else {
            Some(
                question_message(id, "order "@ + list_text(o) + " for "@ + decimal(n)
                    + " options"@),
            )
        },
    }
}

/// The order of question `id`: the one given, or the natural one.
pub open spec fn order_in(
    orders: Seq<(Seq<char>, Seq<usize>)>,
    id: Seq<char>,
    n: nat,
) -> Seq<usize> {
    match find(orders, id) {
        Some(o) => o,
        None => natural(n),
    }
}

/// The order of question `id`, checked.
pub fn checked_order(orders: &IndexMap<String, Vec<usize>>, id: &str, n: usize) -> (r: Result<
    Vec<usize>,
    LoadError,
>)
    ensures
        match r {
            Ok(o) => order_fault(orders_of(*orders), id@, n as nat) is None && o@ == order_in(
                orders_of(*orders),
                id@,
                n as nat,
            ) && is_order(o@, n as nat),
            Err(e) => order_fault(orders_of(*orders), id@, n as nat) == Some(e@),
        },
{
    match order_of(orders, id) {
        Some(o) => {
            let mut fits: bool = o.len() == n;
            let mut i: usize = 0;
            while i < o.len()
                invariant
                    0 <= i <= o@.len(),
                    fits == (o@.len() == n && forall|j: int| 0 <= j < i ==> (#[trigger] o@[j]) < n),
                decreases o@.len() - i,
            {
                if o[i] >= n {
                    fits = false;
                }
                i += 1;
            }
            if !fits {
                let mut m: String = concat3("question ", quote(id).as_str(), ": ");
                let ghost head = m@;
                m.append("order ");
                push_list(&mut m, o);
                m.append(" for ");
                push_decimal(&mut m, n as u64);
                m.append(" options");
                assert(m@ =~= question_message(
                    id@,
                    "order "@ + list_text(o@) + " for "@ + decimal(n as nat) + " options"@,
                ));
                return Err(LoadError::new(m));
            }
            Ok(o.clone())
        },
        None => {
            let mut out: Vec<usize> = Vec::new();
            let mut i: usize = 0;
            while i < n
                invariant
                    0 <= i <= n,
                    out@ == natural(i as nat),
                decreases n - i,
            {
                out.push(i);
                i += 1;
                assert(out@ =~= natural(i as nat));
            }
            Ok(out)
        },
    }
}

/// A question's branch without a prompt of its own: its keys in the order
/// they are laid out.
pub open spec fn bare_branch(id: Seq<char>, q: QuestionView, order: Seq<usize>) -> BranchView {
    BranchView {
        id,
        kind: kind_of(q),
        keys: order.map_values(|i: usize| keys_in(q)[i as int]),
        order,
        segments: Seq::empty(),
        marks: Seq::empty(),
    }
}

pub(crate) fn make_branch(id: &str, q: &Question, kind: Kind, keys: &Vec<String>, order: Vec<usize>) -> (r:
    RenderedBranch)
    requires
        kind == kind_of(q@),
        texts(keys@) == keys_in(q@),
        indices_of(order@, keys@.len()),
    ensures
        r@ == bare_branch(id@, q@, order@),
{
    let mut laid: Vec<String> = Vec::new();
    let mut i: usize = 0;
    while i < order.len()
        invariant
            0 <= i <= order@.len(),
            texts(keys@) == keys_in(q@),
            indices_of(order@, keys@.len()),
            laid@.len() == i,
            forall|j: int|
                0 <= j < i ==> (#[trigger] laid@[j])@ == keys_in(q@)[order@[j] as int],
        decreases order@.len() - i,
    {
        let k: usize = order[i];
        assert(texts(keys@)[k as int] == keys@[k as int]@);
        laid.push(keys[k].clone());
        i += 1;
    }
    let segments: Vec<Segment> = Vec::new();
    let marks: Vec<(usize, Mark)> = Vec::new();
    assert(seg_views(segments@) =~= Seq::empty());
    assert(texts(laid@) =~= order@.map_values(|i: usize| keys_in(q@)[i as int]));
    RenderedBranch { id: id.to_owned(), kind, keys: laid, order, segments, marks }
}

/// An order as the encoder's indices.
pub open spec fn encoder_order(q: QuestionView, order: Seq<usize>) -> Seq<usize> {
    order.map_values(|i: usize| encoder_index(q, i))
}

/// What is wrong with one question, if anything: its order, or more options
/// than the budget holds.
pub open spec fn question_step_fault<T: Tokenize>(
    tok: &T,
    c: LayaConfig,
    orders: Seq<(Seq<char>, Seq<usize>)>,
    id: Seq<char>,
    q: QuestionView,
) -> Option<Seq<char>> {
    let n = keys_in(q).len();
    let opts = laid_out(tok, c, q, encoder_order(q, order_in(orders, id, n)));
    if order_fault(orders, id, n) is Some {
        order_fault(orders, id, n)
    } else if markers_fit(c, prefix_markers(c, head_tokens(tok, c, q), opts)) {
        None
    } else {
        Some(question_message(id, "too many options for the token budget"@))
    }
}

/// The fault of the first of the first `n` questions that has one.
pub open spec fn question_steps_fault<T: Tokenize>(
    tok: &T,
    c: LayaConfig,
    orders: Seq<(Seq<char>, Seq<usize>)>,
    qs: Seq<(Seq<char>, QuestionView)>,
    n: nat,
) -> Option<Seq<char>>
    decreases n,
{
    if n == 0 {
        None
    } else {
        match question_steps_fault(tok, c, orders, qs, (n - 1) as nat) {
            Some(e) => Some(e),
            None => question_step_fault(tok, c, orders, qs[n - 1].0, qs[n - 1].1),
        }
    }
}

proof fn question_steps_stay<T: Tokenize>(
    tok: &T,
    c: LayaConfig,
    orders: Seq<(Seq<char>, Seq<usize>)>,
    qs: Seq<(Seq<char>, QuestionView)>,
    i: nat,
    n: nat,
)
    requires
        i <= n,
        question_steps_fault(tok, c, orders, qs, i) is Some,
    ensures
        question_steps_fault(tok, c, orders, qs, n) == question_steps_fault(tok, c, orders, qs, i),
    decreases n - i,
{
    if i < n {
        question_steps_stay(tok, c, orders, qs, i + 1, n);
    }
}

/// A request's sequences, one per question, its branches, and the state's
/// token count.
#[derive(Debug)]
pub struct Built {
    pub sequences: Vec<Sequence>,
    pub branches: Vec<RenderedBranch>,
    pub state_tokens: usize,
}

/// Why a request cannot be laid out, if it cannot.
pub open spec fn sequences_error<T: Tokenize>(
    tok: &T,
    c: LayaConfig,
    state: JsonView,
    qs: Seq<(Seq<char>, QuestionView)>,
    orders: Seq<(Seq<char>, Seq<usize>)>,
) -> Option<Seq<char>> {
    match request_fault(state, qs) {
        Some(e) => Some(error_text(e)),
        None => question_steps_fault(tok, c, orders, qs, qs.len()),
    }
}

proof fn keys_are_options(q: QuestionView)
    ensures
        keys_in(q).len() == option_texts(q).len(),
{
}

/// One sequence and one branch per question, options in the given order where
/// there is one.
pub fn sequences<T: Tokenize>(
    c: &LayaConfig,
    tok: &T,
    req: &Request,
    orders: &IndexMap<String, Vec<usize>>,
) -> (r: Result<Built, LoadError>)
    ensures
        ({
            let qs = questions_of(req.questions);
            let os = orders_of(*orders);
            let state = tok.ids(unmasked(*c, state_of(req.state@)));
            match r {
                Ok(b) => {
                    &&& sequences_error(tok, *c, req.state@, qs, os) is None
                    &&& b.state_tokens == state.len()
                    &&& b.sequences@.len() == qs.len()
                    &&& b.branches@.len() == qs.len()
                    &&& forall|i: int|
                        0 <= i < qs.len() ==> built(
                            tok,
                            *c,
                            state,
                            qs[i].1,
                            Some(
                                encoder_order(
                                    qs[i].1,
                                    order_in(os, qs[i].0, keys_in(qs[i].1).len()),
                                ),
                            ),
                            Ok(#[trigger] b.sequences@[i]),
                        )
                    &&& forall|i: int|
                        0 <= i < qs.len() ==> (#[trigger] b.branches@[i])@ == bare_branch(
                            qs[i].0,
                            qs[i].1,
                            order_in(os, qs[i].0, keys_in(qs[i].1).len()),
                        )
                },
                Err(e) => sequences_error(tok, *c, req.state@, qs, os) == Some(e@),
            }
        }),
{
    match req.validate() {
        Ok(_) => {},
        Err(e) => {
            return Err(LoadError::new(e.text()));
        },
    }
    let ghost qs = questions_of(req.questions);
    let ghost os = orders_of(*orders);
    let state = state_ids(tok, c, &req.state);
    let ghost sv = tok.ids(unmasked(*c, state_of(req.state@)));
    let entries = question_entries(&req.questions);
    let mut seqs: Vec<Sequence> = Vec::new();
    let mut branches: Vec<RenderedBranch> = Vec::new();
    let mut i: usize = 0;
    while i < entries.len()
        invariant
            0 <= i <= entries@.len(),
            qs == questions_of(req.questions),
            os == orders_of(*orders),
            sv == tok.ids(unmasked(*c, state_of(req.state@))),
            state@ == sv,
            request_fault(req.state@, qs) is None,
            entries@.len() == qs.len(),
            forall|j: int|
                #![trigger entries@[j]]
                0 <= j < entries@.len() ==> entries@[j].0@ == qs[j].0 && entries@[j].1@ == qs[j].1,
            question_steps_fault(tok, *c, os, qs, i as nat) is None,
            seqs@.len() == i,
            branches@.len() == i,
            forall|j: int|
                0 <= j < i ==> built(
                    tok,
                    *c,
                    sv,
                    qs[j].1,
                    Some(
                        encoder_order(qs[j].1, order_in(os, qs[j].0, keys_in(qs[j].1).len())),
                    ),
                    Ok(#[trigger] seqs@[j]),
                ),
            forall|j: int|
                0 <= j < i ==> (#[trigger] branches@[j])@ == bare_branch(
                    qs[j].0,
                    qs[j].1,
                    order_in(os, qs[j].0, keys_in(qs[j].1).len()),
                ),
        decreases entries@.len() - i,
    {
        let (id, q) = entries[i];
        let (kind, keys, at) = keys_of(q);
        proof {
            keys_are_options(q@);
            assert(texts(keys@).len() == keys@.len());
            if question_steps_fault(tok, *c, os, qs, (i + 1) as nat) is Some {
                question_steps_stay(tok, *c, os, qs, (i + 1) as nat, qs.len());
            }
        }
        let order = match checked_order(orders, id.as_str(), keys.len()) {
            Ok(o) => o,
            Err(e) => {
                return Err(e);
            },
        };
        let enc = place(&order, &at);
        assert(enc@ =~= encoder_order(q@, order@));
        assert(indices_of(enc@, option_texts(q@).len()));
        match build_sequence(tok, c, &state, q, Some(&enc)) {
            Ok(s) => {
                seqs.push(s);
            },
            Err(e) => {
                let mut m: String = concat3("question ", quote(id.as_str()).as_str(), ": ");
                m.append(e.message.as_str());
                return Err(LoadError::new(m));
            },
        }
        branches.push(make_branch(id.as_str(), q, kind, &keys, order));
        i += 1;
    }
    Ok(Built { sequences: seqs, branches, state_tokens: state.len() })
}

/// `at[i]` for every `i` of an order.
fn place(order: &Vec<usize>, at: &Vec<usize>) -> (r: Vec<usize>)
    requires
        indices_of(order@, at@.len()),
    ensures
        r@ == order@.map_values(|i: usize| at@[i as int]),
{
    let mut out: Vec<usize> = Vec::new();
    let mut i: usize = 0;
    while i < order.len()
        invariant
            0 <= i <= order@.len(),
            indices_of(order@, at@.len()),
            out@.len() == i,
            forall|j: int| 0 <= j < i ==> #[trigger] out@[j] == at@[order@[j] as int],
        decreases order@.len() - i,
    {
        out.push(at[order[i]]);
        i += 1;
    }
    assert(out@ =~= order@.map_values(|i: usize| at@[i as int]));
    out
}

/// The token counts of sequences.
pub open spec fn lengths(seqs: Seq<Sequence>) -> Seq<usize> {
    seqs.map_values(|s: Sequence| s.ids@.len() as usize)
}

/// What a request reports of its evaluation, in company of `batch` requests.
pub fn sequence_diagnostics(seqs: &Vec<Sequence>, state_tokens: usize, batch: usize) -> (r:
    Diagnostics)
    ensures
        r.prefix_tokens == state_tokens,
        r.branch_tokens@ == lengths(seqs@),
        r.passes == 1,
        r.prefix_source is None,
        r.orders == 1,
        key_lists_of(r.two_stage) == Seq::<(Seq<char>, Seq<Seq<char>>)>::empty(),
        r.batch == batch,
        r.rechecked@.len() == 0,
{
    let mut branch_tokens: Vec<usize> = Vec::new();
    let mut i: usize = 0;
    while i < seqs.len()
        invariant
            0 <= i <= seqs@.len(),
            branch_tokens@ == lengths(seqs@.take(i as int)),
        decreases seqs@.len() - i,
    {
        let n: usize = seqs[i].ids.len();
        branch_tokens.push(n);
        i += 1;
        assert(branch_tokens@ =~= lengths(seqs@.take(i as int)));
    }
    assert(seqs@.take(i as int) =~= seqs@);
    Diagnostics {
        prefix_tokens: state_tokens,
        branch_tokens,
        passes: 1,
        prefix_source: None,
        orders: 1,
        two_stage: no_key_lists(),
        batch,
        rechecked: Vec::new(),
    }
}

/// The usage of a request of the decision-head encoder: the state stands in
/// every sequence, so only the sequences count.
pub fn sequence_usage(d: &Diagnostics) -> (r: Usage)
    requires
        count_sum(d.branch_tokens@, d.branch_tokens@.len()) <= usize::MAX,
    ensures
        r.input_tokens == count_sum(d.branch_tokens@, d.branch_tokens@.len()),
        r.output_tokens == 0,
{
    let mut n: usize = 0;
    let mut i: usize = 0;
    while i < d.branch_tokens.len()
        invariant
            0 <= i <= d.branch_tokens@.len(),
            count_sum(d.branch_tokens@, d.branch_tokens@.len()) <= usize::MAX,
            n == count_sum(d.branch_tokens@, i as nat),
        decreases d.branch_tokens@.len() - i,
    {
        proof {
            count_sum_grows(d.branch_tokens@, (i + 1) as nat, d.branch_tokens@.len());
        }
        n += d.branch_tokens[i];
        i += 1;
    }
    Usage { input_tokens: n as u64, output_tokens: 0 }
}

/// The requests of the first `n` that can be evaluated, by index.
pub open spec fn kept(v: Seq<Option<Cost>>, n: nat) -> Seq<usize>
    decreases n,
{
    if n == 0 {
        Seq::empty()
    } else if v[n - 1] is Some {
        kept(v, (n - 1) as nat).push((n - 1) as usize)
    } else {
        kept(v, (n - 1) as nat)
    }
}

/// What they cost.
pub open spec fn kept_costs(v: Seq<Option<Cost>>, n: nat) -> Seq<Cost>
    decreases n,
{
    if n == 0 {
        Seq::empty()
    } else if v[n - 1] is Some {
        kept_costs(v, (n - 1) as nat).push(v[n - 1]->0)
    } else {
        kept_costs(v, (n - 1) as nat)
    }
}

/// The requests that can be evaluated in passes within the limits, in order.
pub open spec fn request_passes(v: Seq<Option<Cost>>, limits: Limits) -> Seq<Seq<usize>> {
    let costs = kept_costs(v, v.len());
    passes(costs, limits, costs.len()).map_values(
        |p: Seq<usize>| p.map_values(|k: usize| kept(v, v.len())[k as int]),
    )
}

proof fn kept_lengths(v: Seq<Option<Cost>>, n: nat)
    requires
        n <= v.len(),
    ensures
        kept(v, n).len() == kept_costs(v, n).len(),
        kept(v, n).len() <= n,
    decreases n,
{
    if n > 0 {
        kept_lengths(v, (n - 1) as nat);
    }
}

proof fn passes_in_range(costs: Seq<Cost>, limits: Limits, n: nat, p: int, k: int)
    requires
        n <= costs.len() <= usize::MAX,
        0 <= p < passes(costs, limits, n).len(),
        0 <= k < passes(costs, limits, n)[p].len(),
    ensures
        passes(costs, limits, n)[p][k] < n,
    decreases n,
{
    if n > 0 {
        let q = passes(costs, limits, (n - 1) as nat);
        let r = passes(costs, limits, n);
        if p < q.len() && k < q[p].len() {
            passes_in_range(costs, limits, (n - 1) as nat, p, k);
        }
    }
}

/// Requests in as few passes as going through them in order allows, each
/// entry the cost of a request or nothing for one that cannot be evaluated.
pub fn plan_requests(v: &Vec<Option<Cost>>, limits: Limits) -> (r: Vec<Vec<usize>>)
    ensures
        pass_lists(r@) == request_passes(v@, limits),
{
    let mut index: Vec<usize> = Vec::new();
    let mut costs: Vec<Cost> = Vec::new();
    let len: usize = v.len();
    let mut i: usize = 0;
    assert(index@ =~= kept(v@, 0));
    assert(costs@ =~= kept_costs(v@, 0));
    while i < v.len()
        invariant
            0 <= i <= v@.len(),
            index@ == kept(v@, i as nat),
            costs@ == kept_costs(v@, i as nat),
        decreases v@.len() - i,
    {
        match v[i] {
            Some(c) => {
                index.push(i);
                costs.push(c);
            },
            None => {},
        }
        i += 1;
    }
    proof {
        kept_lengths(v@, v@.len());
    }
    let plan = plan_passes(&costs, limits);
    let ghost ps = passes(costs@, limits, costs@.len());
    let ghost want = request_passes(v@, limits);
    assert(pass_lists(plan@).len() == plan@.len());
    let mut out: Vec<Vec<usize>> = Vec::new();
    let mut p: usize = 0;
    while p < plan.len()
        invariant
            0 <= p <= plan@.len(),
            len == v@.len(),
            costs@.len() <= len,
            index@ == kept(v@, v@.len()),
            index@.len() == costs@.len(),
            costs@ == kept_costs(v@, v@.len()),
            ps == passes(costs@, limits, costs@.len()),
            pass_lists(plan@) == ps,
            plan@.len() == ps.len(),
            out@.len() == p,
            forall|j: int|
                0 <= j < p ==> (#[trigger] out@[j])@ == ps[j].map_values(
                    |k: usize| index@[k as int],
                ),
        decreases plan@.len() - p,
    {
        assert(ps[p as int] == plan@[p as int]@);
        proof {
            assert forall|k: int| 0 <= k < plan@[p as int]@.len() implies (#[trigger] plan@[p as int]@[k])
                < index@.len() by {
                passes_in_range(costs@, limits, costs@.len(), p as int, k);
            }
        }
        out.push(place(&plan[p], &index));
        p += 1;
    }
    assert(pass_lists(out@) =~= want);
    out
}

/// What a request's sequences cost a pass, its own number of sequences
/// included.
pub fn cost_of(seqs: &Vec<Sequence>) -> (r: Cost)
    requires
        start_of(seqs@, seqs@.len()) <= usize::MAX,
        first_row(seqs@, seqs@.len()) <= usize::MAX,
    ensures
        r.tokens == start_of(seqs@, seqs@.len()),
        r.rows == first_row(seqs@, seqs@.len()),
        r.sequences == seqs@.len(),
{
    let mut tokens: usize = 0;
    let mut rows: usize = 0;
    let mut i: usize = 0;
    while i < seqs.len()
        invariant
            0 <= i <= seqs@.len(),
            start_of(seqs@, seqs@.len()) <= usize::MAX,
            first_row(seqs@, seqs@.len()) <= usize::MAX,
            tokens == start_of(seqs@, i as nat),
            rows == first_row(seqs@, i as nat),
        decreases seqs@.len() - i,
    {
        proof {
            sums_grow(seqs@, (i + 1) as nat, seqs@.len());
        }
        tokens += seqs[i].ids.len();
        rows += seqs[i].markers.len() + 1;
        i += 1;
    }
    Cost { tokens, sequences: seqs.len(), rows }
}

proof fn sums_grow(seqs: Seq<Sequence>, i: nat, n: nat)
    requires
        i <= n <= seqs.len(),
    ensures
        start_of(seqs, i) <= start_of(seqs, n),
        first_row(seqs, i) <= first_row(seqs, n),
    decreases n - i,
{
    if i < n {
        sums_grow(seqs, i + 1, n);
    }
}

/// Where each request's share of a list starts and ends, the shares following
/// one another.
pub fn shares(counts: &Vec<usize>) -> (r: Vec<(usize, usize)>)
    requires
        count_sum(counts@, counts@.len()) <= usize::MAX,
    ensures
        r@.len() == counts@.len(),
        forall|i: int|
            0 <= i < counts@.len() ==> (#[trigger] r@[i]).0 == count_sum(counts@, i as nat) && r@[i].1
                == count_sum(counts@, (i + 1) as nat),
{
    let mut out: Vec<(usize, usize)> = Vec::new();
    let mut at: usize = 0;
    let mut i: usize = 0;
    while i < counts.len()
        invariant
            0 <= i <= counts@.len(),
            count_sum(counts@, counts@.len()) <= usize::MAX,
            at == count_sum(counts@, i as nat),
            out@.len() == i,
            forall|j: int|
                0 <= j < i ==> (#[trigger] out@[j]).0 == count_sum(counts@, j as nat) && out@[j].1
                    == count_sum(counts@, (j + 1) as nat),
        decreases counts@.len() - i,
    {
        proof {
            count_sum_grows(counts@, (i + 1) as nat, counts@.len());
        }
        let end: usize = at + counts[i];
        out.push((at, end));
        at = end;
        i += 1;
    }
    out
}

/// Laying options out in an order and reading them back by it loses nothing:
/// slot `j` of a branch holds the key of option `order[j]`, and its sequence
/// lays the very option out there.
pub proof fn branches_and_sequences_agree<T: Tokenize>(
    tok: &T,
    c: LayaConfig,
    id: Seq<char>,
    q: QuestionView,
    order: Seq<usize>,
    j: int,
)
    requires
        is_order(order, keys_in(q).len()),
        0 <= j < order.len(),
    ensures
        bare_branch(id, q, order).keys[j] == keys_in(q)[order[j] as int],
        laid_out(tok, c, q, encoder_order(q, order))[j] == option_tokens(
            tok,
            c,
            option_texts(q)[encoder_index(q, order[j]) as int],
        ),
        encoder_index(q, order[j]) < option_texts(q).len(),
{
}

/// The options of a question go by the keys that its answer reports them by,
/// and the encoder reads every option by a text that begins with its key, a
/// level's after the word for it.
pub proof fn options_go_by_their_keys(q: QuestionView, i: int)
    requires
        0 <= i < keys_in(q).len(),
        keys_in(q).len() <= usize::MAX,
    ensures
        keys_in(q).len() == crate::render::option_texts(q).len(),
        keys_in(q).len() == option_texts(q).len(),
        keys_in(q)[i] == crate::render::option_texts(q)[i].0,
        encoder_index(q, i as usize) < option_texts(q).len(),
        !(q is Score) ==> starts_in(
            option_texts(q)[encoder_index(q, i as usize) as int],
            keys_in(q)[i],
        ),
        q is Score ==> starts_in(
            option_texts(q)[encoder_index(q, i as usize) as int],
            "level "@ + keys_in(q)[i],
        ),
        q is Choice ==> kind_of(q) is Choice,
        q is Score ==> kind_of(q) is Score,
        q is Noul ==> kind_of(q) is Noul,
{
    let key = keys_in(q)[i];
    let e = encoder_index(q, i as usize) as int;
    let text = option_texts(q)[e];
    if q is Score {
        let head = "level "@ + key;
        assert(text.take(head.len() as int) =~= head);
    } else {
        assert(text.take(key.len() as int) =~= key);
    }
}

/// The encoder's places of a question's options are all places, no two the
/// same.
pub proof fn every_option_has_a_place(q: QuestionView, i: usize, j: usize)
    requires
        i < j < keys_in(q).len(),
    ensures
        encoder_index(q, i) != encoder_index(q, j),
        !(q is Noul) ==> encoder_index(q, i) == i,
{
}

/// An order that is given is taken exactly where it has as many entries as the
/// question options and each is an option; where none is given the options
/// stand in their own order.
pub proof fn orders_are_taken_exactly_when_sound(
    orders: Seq<(Seq<char>, Seq<usize>)>,
    id: Seq<char>,
    n: nat,
    o: Seq<usize>,
    i: int,
)
    requires
        n <= usize::MAX,
        0 <= i < n,
    ensures
        find(orders, id) == Some(o) ==> order_in(orders, id, n) == o,
        find(orders, id) == Some(o) ==> (order_fault(orders, id, n) is None <==> o.len() == n
            && forall|k: int| 0 <= k < o.len() ==> (#[trigger] o[k]) < n),
        find(orders, id) is None ==> order_fault(orders, id, n) is None && order_in(
            orders,
            id,
            n,
        ).len() == n && order_in(orders, id, n)[i] == i,
{
}

/// The requests that are evaluated are those that have a cost, each with its
/// own, in order.
pub proof fn requests_with_a_cost_are_kept(v: Seq<Option<Cost>>, n: nat, i: int)
    requires
        n <= v.len() <= usize::MAX,
        0 <= i < n,
    ensures
        kept(v, n).len() == kept_costs(v, n).len(),
        v[i] is Some <==> kept(v, n).contains(i as usize),
        forall|k: int|
            0 <= k < kept(v, n).len() ==> (#[trigger] kept(v, n)[k]) < n && v[kept(v, n)[k] as int]
                == Some(kept_costs(v, n)[k]),
        forall|a: int, b: int|
            0 <= a < b < kept(v, n).len() ==> #[trigger] kept(v, n)[a] < #[trigger] kept(v, n)[b],
    decreases n,
{
    kept_lengths(v, n);
    kept_lengths(v, (n - 1) as nat);
    let all = kept(v, n);
    let rest = kept(v, (n - 1) as nat);
    if n > 1 {
        requests_with_a_cost_are_kept(v, (n - 1) as nat, if i < n - 1 { i } else { 0 });
    }
    assert(kept(v, 0).len() == 0);
    if v[n - 1] is Some {
        assert(all[rest.len() as int] == (n - 1) as usize);
        if rest.contains(i as usize) {
            let a = rest.index_of(i as usize);
            assert(all[a] == i as usize);
        }
    }
}

/// A request's questions become sequences exactly where each question's order
/// is sound and its options, so ordered, leave no marker beyond the budget.
pub proof fn questions_fit_exactly_when_each_does<T: Tokenize>(
    tok: &T,
    c: LayaConfig,
    orders: Seq<(Seq<char>, Seq<usize>)>,
    qs: Seq<(Seq<char>, QuestionView)>,
    n: nat,
)
    requires
        n <= qs.len(),
    ensures
        question_steps_fault(tok, c, orders, qs, n) is None <==> forall|i: int|
            0 <= i < n ==> ({
                let q = (#[trigger] qs[i]).1;
                let k = keys_in(q).len();
                &&& order_fault(orders, qs[i].0, k) is None
                &&& markers_fit(
                    c,
                    prefix_markers(
                        c,
                        head_tokens(tok, c, q),
                        laid_out(tok, c, q, encoder_order(q, order_in(orders, qs[i].0, k))),
                    ),
                )
            }),
    decreases n,
{
    if n > 0 {
        questions_fit_exactly_when_each_does(tok, c, orders, qs, (n - 1) as nat);
        if question_steps_fault(tok, c, orders, qs, n) is Some {
            assert(qs[n - 1] == qs[n - 1]);
        }
    }
}

} // verus!

//! From requests to texts for the sentence embedder, and from vectors and
//! logits back to requests: what is encoded, what comes from the cache, and in
//! how many passes.

use indexmap::IndexMap;
use vstd::prelude::*;
use vstd::string::StringExecFns;

use crate::api::{request_fault, Question, QuestionView, Request};
use crate::decide::{
    bare_branch, checked_order, keys_in, keys_of, make_branch, order_fault, order_in,
};
use crate::e5::E5Config;
use crate::e5_pass::text_start;
use crate::engine::{
    count_sum, count_sum_grows, pass_lists, passes, plan_passes, Cost, Diagnostics, Limits,
};
use crate::error::{error_text, LoadError};
use crate::json::{Json, JsonView};
use crate::map::{
    criteria_entries, criteria_of, criterion, find, key_lists_of, no_key_lists, opt_json,
    orders_of, question_entries, questions_of,
};
use crate::prompt::indices_of;
use crate::pyjson::{py_json, py_value};
use crate::render::RenderedBranch;
use crate::text::{
    concat2, concat3, decimal, join, join_texts, number_text, push_decimal, same, texts,
};
use crate::tokenize::Tokenize;

verus! {

/// A field of a state: its key and its value, a string as it is and anything
/// else as JSON.
pub open spec fn field_text(e: (Seq<char>, JsonView)) -> Seq<char> {
    e.0 + ": "@ + (match e.1 {
        JsonView::Str(s) => s,
        v => py_value(v, false),
    })
}

/// The state as one line: the fields of an object joined by spaces, a string
/// as it is, anything else as JSON.
pub open spec fn state_line(state: JsonView) -> Seq<char> {
    match state {
        JsonView::Object(m) => join(m.map_values(|e: (Seq<char>, JsonView)| field_text(e)), " "@),
        JsonView::Str(s) => s,
        _ => py_value(state, false),
    }
}

fn plain_or_json(v: &Json) -> (r: String)
    ensures
        r@ == (match v@ {
            JsonView::Str(s) => s,
            w => py_value(w, false),
        }),
{
    match v {
        Json::Str(s) => s.clone(),
        _ => py_json(v, false),
    }
}

/// The state as one line of text.
pub fn state_text(state: &Json) -> (r: String)
    ensures
        r@ == state_line(state@),
{
    match state {
        Json::Object(m) => {
            let ghost mv = state@->Object_0;
            let mut parts: Vec<String> = Vec::new();
            let mut i: usize = 0;
            while i < m.len()
                invariant
                    0 <= i <= m@.len(),
                    mv.len() == m@.len(),
                    *state == Json::Object(*m),
                    state@ == JsonView::Object(mv),
                    parts@.len() == i,
                    forall|j: int| 0 <= j < i ==> (#[trigger] parts@[j])@ == field_text(mv[j]),
                decreases m@.len() - i,
            {
                let (k, v) = &m[i];
                parts.push(concat3(k.as_str(), ": ", plain_or_json(v).as_str()));
                i += 1;
            }
            assert(texts(parts@) =~= mv.map_values(|e: (Seq<char>, JsonView)| field_text(e)));
            join_texts(&parts, " ")
        },
        _ => plain_or_json(state),
    }
}

/// An option's text: its description, or its key where it has none.
pub open spec fn described(key: Seq<char>, desc: Option<JsonView>) -> Seq<char> {
    match desc {
        None => key,
        Some(JsonView::Null) => key,
        Some(JsonView::Str(s)) => s,
        Some(v) => py_value(v, false),
    }
}

/// The texts of a question's options, in request order.
pub open spec fn described_options(q: QuestionView) -> Seq<Seq<char>> {
    match q {
        QuestionView::Choice { instructions, criteria } => criteria.map_values(
            |e: (Seq<char>, Option<JsonView>)| described(e.0, e.1),
        ),
        QuestionView::Score { instructions, criteria } => Seq::new(
            criteria.len(),
            |i: int| described(decimal(i as nat), Some(criteria[i])),
        ),
        QuestionView::Noul { instructions, criteria } => seq![
            described_side(criteria, "true"@),
            described_side(criteria, "false"@),
        ],
    }
}

/// The text of a side of a yes/no question.
pub open spec fn described_side(
    criteria: Option<Seq<(Seq<char>, Option<JsonView>)>>,
    key: Seq<char>,
) -> Seq<char> {
    described(
        key,
        match criteria {
            None => None,
            Some(c) => match find(c, key) {
                Some(v) => v,
                None => None,
            },
        },
    )
}

fn describe(key: &str, desc: &Option<Json>) -> (r: String)
    ensures
        r@ == described(key@, opt_json(*desc)),
{
    match desc {
        None => key.to_owned(),
        Some(Json::Null) => key.to_owned(),
        Some(v) => plain_or_json(v),
    }
}

fn describe_side(criteria: &Option<IndexMap<String, Option<Json>>>, key: &str) -> (r: String)
    ensures
        r@ == described_side(
            match *criteria {
                Some(c) => Some(criteria_of(c)),
                None => None,
            },
            key@,
        ),
{
    match criteria {
        None => key.to_owned(),
        Some(c) => match criterion(c, key) {
            Some(v) => describe(key, v),
            None => key.to_owned(),
        },
    }
}

/// The texts of a question's options, in request order.
pub fn describe_options(q: &Question) -> (r: Vec<String>)
    ensures
        texts(r@) == described_options(q@),
{
    let mut out: Vec<String> = Vec::new();
    match q {
        Question::Choice { instructions, criteria } => {
            let entries = criteria_entries(criteria);
            let ghost cv = criteria_of(*criteria);
            let mut i: usize = 0;
            while i < entries.len()
                invariant
                    0 <= i <= entries@.len(),
                    cv == criteria_of(*criteria),
                    entries@.len() == cv.len(),
                    forall|j: int|
                        #![trigger entries@[j]]
                        0 <= j < entries@.len() ==> entries@[j].0@ == cv[j].0 && opt_json(
                            *entries@[j].1,
                        ) == cv[j].1,
                    out@.len() == i,
                    forall|j: int|
                        0 <= j < i ==> (#[trigger] out@[j])@ == described(cv[j].0, cv[j].1),
                decreases entries@.len() - i,
            {
                let (k, v) = entries[i];
                out.push(describe(k.as_str(), v));
                i += 1;
            }
            assert(texts(out@) =~= described_options(q@));
        },
        Question::Score { instructions, criteria } => {
            let ghost cv = criteria@.map_values(|j: Json| j@);
            let mut i: usize = 0;
            while i < criteria.len()
                invariant
                    0 <= i <= criteria@.len(),
                    cv == criteria@.map_values(|j: Json| j@),
                    out@.len() == i,
                    forall|j: int|
                        0 <= j < i ==> (#[trigger] out@[j])@ == described(
                            decimal(j as nat),
                            Some(cv[j]),
                        ),
                decreases criteria@.len() - i,
            {
                let text: String = match &criteria[i] {
                    Json::Null => number_text(i),
                    v => plain_or_json(v),
                };
                out.push(text);
                i += 1;
            }
            assert(texts(out@) =~= described_options(q@));
        },
        Question::Noul { instructions, criteria } => {
            out.push(describe_side(criteria, "true"));
            out.push(describe_side(criteria, "false"));
            assert(texts(out@) =~= described_options(q@));
        },
    }
    out
}

/// One built request: the state's text first, then every option's in question
/// order, with each question's branch and its span in the list of texts.
#[derive(Debug)]
pub struct Built {
    pub texts: Vec<String>,
    pub branches: Vec<RenderedBranch>,
    /// Per question: where its options start in the texts, and how many there
    /// are.
    pub spans: Vec<(usize, usize)>,
}

/// The order of question `i`.
pub open spec fn order_at(
    qs: Seq<(Seq<char>, QuestionView)>,
    orders: Seq<(Seq<char>, Seq<usize>)>,
    i: int,
) -> Seq<usize> {
    order_in(orders, qs[i].0, keys_in(qs[i].1).len())
}

/// The texts of a request: the state's, and those of the first `n` questions'
/// options in their orders.
pub open spec fn request_texts(
    state: JsonView,
    qs: Seq<(Seq<char>, QuestionView)>,
    orders: Seq<(Seq<char>, Seq<usize>)>,
    n: nat,
) -> Seq<Seq<char>>
    decreases n,
{
    if n == 0 {
        seq![state_line(state)]
    } else {
        let q = qs[n - 1].1;
        request_texts(state, qs, orders, (n - 1) as nat) + order_at(qs, orders, n - 1).map_values(
            |i: usize| described_options(q)[i as int],
        )
    }
}

/// The first of the first `n` questions that is given no order of its
/// options.
pub open spec fn orders_fault(
    qs: Seq<(Seq<char>, QuestionView)>,
    orders: Seq<(Seq<char>, Seq<usize>)>,
    n: nat,
) -> Option<Seq<char>>
    decreases n,
{
    if n == 0 {
        None
    } else {
        match orders_fault(qs, orders, (n - 1) as nat) {
            Some(e) => Some(e),
            None => order_fault(orders, qs[n - 1].0, keys_in(qs[n - 1].1).len()),
        }
    }
}

proof fn orders_fault_stays(
    qs: Seq<(Seq<char>, QuestionView)>,
    orders: Seq<(Seq<char>, Seq<usize>)>,
    i: nat,
    n: nat,
)
    requires
        i <= n,
        orders_fault(qs, orders, i) is Some,
    ensures
        orders_fault(qs, orders, n) == orders_fault(qs, orders, i),
    decreases n - i,
{
    if i < n {
        orders_fault_stays(qs, orders, i + 1, n);
    }
}

/// Why a request cannot be built, if it cannot.
pub open spec fn build_fault(
    state: JsonView,
    qs: Seq<(Seq<char>, QuestionView)>,
    orders: Seq<(Seq<char>, Seq<usize>)>,
) -> Option<Seq<char>> {
    match request_fault(state, qs) {
        Some(e) => Some(error_text(e)),
        None => orders_fault(qs, orders, qs.len()),
    }
}

proof fn keys_are_described(q: QuestionView)
    ensures
        keys_in(q).len() == described_options(q).len(),
{
}

/// A request as texts and branches, options in the given order where there is
/// one.
pub fn build(req: &Request, orders: &IndexMap<String, Vec<usize>>) -> (r: Result<Built, LoadError>)
    ensures
        ({
            let qs = questions_of(req.questions);
            let os = orders_of(*orders);
            match r {
                Ok(b) => {
                    &&& build_fault(req.state@, qs, os) is None
                    &&& texts(b.texts@) == request_texts(req.state@, qs, os, qs.len())
                    &&& b.branches@.len() == qs.len()
                    &&& b.spans@.len() == qs.len()
                    &&& forall|i: int|
                        0 <= i < qs.len() ==> (#[trigger] b.branches@[i])@ == bare_branch(
                            qs[i].0,
                            qs[i].1,
                            order_at(qs, os, i),
                        )
                    &&& forall|i: int|
                        0 <= i < qs.len() ==> (#[trigger] b.spans@[i]).0 == request_texts(
                            req.state@,
                            qs,
                            os,
                            i as nat,
                        ).len() && b.spans@[i].1 == keys_in(qs[i].1).len()
                },
                Err(e) => build_fault(req.state@, qs, os) == Some(e@),
            }
        }),
{
    match req.validate() {
        Ok(_) => {},
        Err(e) => {
            return Err(LoadError::new(e.text()));
        },
    }
    let ghost qs = questions_of(req.questions);
    let ghost os = orders_of(*orders);
    let entries = question_entries(&req.questions);
    let mut out: Vec<String> = Vec::new();
    out.push(state_text(&req.state));
    assert(texts(out@) =~= request_texts(req.state@, qs, os, 0));
    let mut branches: Vec<RenderedBranch> = Vec::new();
    let mut spans: Vec<(usize, usize)> = Vec::new();
    let mut i: usize = 0;
    while i < entries.len()
        invariant
            0 <= i <= entries@.len(),
            qs == questions_of(req.questions),
            os == orders_of(*orders),
            request_fault(req.state@, qs) is None,
            entries@.len() == qs.len(),
            forall|j: int|
                #![trigger entries@[j]]
                0 <= j < entries@.len() ==> entries@[j].0@ == qs[j].0 && entries@[j].1@ == qs[j].1,
            orders_fault(qs, os, i as nat) is None,
            texts(out@) == request_texts(req.state@, qs, os, i as nat),
            branches@.len() == i,
            spans@.len() == i,
            forall|j: int|
                0 <= j < i ==> (#[trigger] branches@[j])@ == bare_branch(
                    qs[j].0,
                    qs[j].1,
                    order_at(qs, os, j),
                ),
            forall|j: int|
                0 <= j < i ==> (#[trigger] spans@[j]).0 == request_texts(
                    req.state@,
                    qs,
                    os,
                    j as nat,
                ).len() && spans@[j].1 == keys_in(qs[j].1).len(),
        decreases entries@.len() - i,
    {
        let (id, q) = entries[i];
        let (kind, keys, _at) = keys_of(q);
        let opts = describe_options(q);
        proof {
            keys_are_described(q@);
            assert(texts(keys@).len() == keys@.len());
            assert(texts(opts@).len() == opts@.len());
            assert(texts(out@).len() == out@.len());
            if orders_fault(qs, os, (i + 1) as nat) is Some {
                orders_fault_stays(qs, os, (i + 1) as nat, qs.len());
            }
        }
        let order = match checked_order(orders, id.as_str(), keys.len()) {
            Ok(o) => o,
            Err(e) => {
                return Err(e);
            },
        };
        spans.push((out.len(), keys.len()));
        let ghost before = texts(out@);
        let ghost laid = order@.map_values(|k: usize| described_options(q@)[k as int]);
        let mut j: usize = 0;
        assert(texts(out@) =~= before + laid.take(0));
        while j < order.len()
            invariant
                0 <= j <= order@.len(),
                texts(opts@) == described_options(q@),
                indices_of(order@, opts@.len()),
                laid == order@.map_values(|k: usize| described_options(q@)[k as int]),
                texts(out@) == before + laid.take(j as int),
            decreases order@.len() - j,
        {
            let k: usize = order[j];
            assert(texts(opts@)[k as int] == opts@[k as int]@);
            let ghost prev = out@;
            let text: String = opts[k].clone();
            out.push(text);
            assert(texts(out@) =~= texts(prev).push(text@));
            assert(laid[j as int] == text@);
            j += 1;
            assert(laid.take(j as int) =~= laid.take(j as int - 1).push(laid[j as int - 1]));
            assert(texts(out@) =~= before + laid.take(j as int));
        }
        assert(laid.take(j as int) =~= laid);
        branches.push(make_branch(id.as_str(), q, kind, &keys, order));
        i += 1;
    }
    Ok(Built { texts: out, branches, spans })
}

/// The pairs of the first `n` spans: the state's text against every option's.
pub open spec fn pairs_upto(spans: Seq<(usize, usize)>, n: nat) -> Seq<(usize, usize)>
    decreases n,
{
    if n == 0 {
        Seq::empty()
    } else {
        pairs_upto(spans, (n - 1) as nat) + Seq::new(
            spans[n - 1].1 as nat,
            |i: int| (0usize, (spans[n - 1].0 + i) as usize),
        )
    }
}

/// The (state, option) pairs of a built request.
pub fn pairs_of(built: &Built) -> (r: Vec<(usize, usize)>)
    requires
        forall|i: int|
            0 <= i < built.spans@.len() ==> (#[trigger] built.spans@[i]).0 + built.spans@[i].1
                <= usize::MAX,
    ensures
        r@ == pairs_upto(built.spans@, built.spans@.len()),
{
    let mut out: Vec<(usize, usize)> = Vec::new();
    let mut i: usize = 0;
    assert(out@ =~= pairs_upto(built.spans@, 0));
    while i < built.spans.len()
        invariant
            0 <= i <= built.spans@.len(),
            forall|j: int|
                0 <= j < built.spans@.len() ==> (#[trigger] built.spans@[j]).0 + built.spans@[j].1
                    <= usize::MAX,
            out@ == pairs_upto(built.spans@, i as nat),
        decreases built.spans@.len() - i,
    {
        let (start, k) = built.spans[i];
        let ghost before = out@;
        let mut j: usize = 0;
        assert(out@ =~= before + Seq::new(0nat, |x: int| (0usize, (start + x) as usize)));
        while j < k
            invariant
                0 <= j <= k,
                start + k <= usize::MAX,
                out@ == before + Seq::new(j as nat, |x: int| (0usize, (start + x) as usize)),
            decreases k - j,
        {
            out.push((0, start + j));
            j += 1;
            assert(out@ =~= before + Seq::new(j as nat, |x: int| (0usize, (start + x) as usize)));
        }
        i += 1;
    }
    out
}

proof fn request_texts_grow(
    state: JsonView,
    qs: Seq<(Seq<char>, QuestionView)>,
    orders: Seq<(Seq<char>, Seq<usize>)>,
    n: nat,
)
    ensures
        request_texts(state, qs, orders, n).len() >= 1,
    decreases n,
{
    if n > 0 {
        request_texts_grow(state, qs, orders, (n - 1) as nat);
    }
}

proof fn orders_are_checked(
    qs: Seq<(Seq<char>, QuestionView)>,
    orders: Seq<(Seq<char>, Seq<usize>)>,
    i: int,
    n: nat,
)
    requires
        0 <= i < n <= qs.len(),
        orders_fault(qs, orders, n) is None,
    ensures
        order_at(qs, orders, i).len() == keys_in(qs[i].1).len(),
    decreases n,
{
    if i < n - 1 {
        orders_are_checked(qs, orders, i, (n - 1) as nat);
    }
}

/// Every option is scored once, in the order of the texts: the pairs of a
/// built request pair its state, which is text 0, with every other text.
pub proof fn every_option_is_paired(
    state: JsonView,
    qs: Seq<(Seq<char>, QuestionView)>,
    orders: Seq<(Seq<char>, Seq<usize>)>,
    spans: Seq<(usize, usize)>,
    n: nat,
)
    requires
        build_fault(state, qs, orders) is None,
        n <= qs.len(),
        spans.len() == qs.len(),
        forall|i: int|
            0 <= i < qs.len() ==> (#[trigger] spans[i]).0 == request_texts(
                state,
                qs,
                orders,
                i as nat,
            ).len() && spans[i].1 == keys_in(qs[i].1).len(),
        request_texts(state, qs, orders, n).len() <= usize::MAX,
    ensures
        pairs_upto(spans, n) == Seq::new(
            (request_texts(state, qs, orders, n).len() - 1) as nat,
            |i: int| (0usize, (i + 1) as usize),
        ),
    decreases n,
{
    request_texts_grow(state, qs, orders, n);
    if n > 0 {
        orders_are_checked(qs, orders, n - 1, qs.len());
        request_texts_grow(state, qs, orders, (n - 1) as nat);
        every_option_is_paired(state, qs, orders, spans, (n - 1) as nat);
        assert(spans[n - 1].0 == request_texts(state, qs, orders, (n - 1) as nat).len());
    }
    assert(pairs_upto(spans, n) =~= Seq::new(
        (request_texts(state, qs, orders, n).len() - 1) as nat,
        |i: int| (0usize, (i + 1) as usize),
    ));
}

/// A text's tokens as the encoder reads them: the start, the prefix and the
/// text cut to `max_len`, the end.
pub open spec fn framed(c: E5Config, body: Seq<u32>) -> Seq<u32> {
    seq![c.cls] + (if body.len() <= c.max_len - 2 {
        body
    } else {
        body.take(c.max_len - 2)
    }) + seq![c.sep]
}

/// Frames a text's tokens.
pub fn frame(c: &E5Config, body: &Vec<u32>) -> (r: Vec<u32>)
    requires
        c.max_len >= 2,
    ensures
        r@ == framed(*c, body@),
        r@.len() <= c.max_len,
{
    let mut ids: Vec<u32> = Vec::new();
    ids.push(c.cls);
    let most: usize = c.max_len - 2;
    let mut i: usize = 0;
    assert(ids@ =~= seq![c.cls] + body@.take(0));
    while i < body.len() && i < most
        invariant
            0 <= i <= body@.len(),
            i <= most,
            ids@ == seq![c.cls] + body@.take(i as int),
        decreases body@.len() - i,
    {
        ids.push(body[i]);
        i += 1;
        assert(ids@ =~= seq![c.cls] + body@.take(i as int));
    }
    ids.push(c.sep);
    assert(ids@ =~= framed(*c, body@));
    ids
}

/// A text as one sequence, the configured prefix in front of it.
pub fn sequence<T: Tokenize>(c: &E5Config, tok: &T, text: &str) -> (r: Vec<u32>)
    requires
        c.max_len >= 2,
    ensures
        r@ == framed(*c, tok.ids(c.prefix@ + text@)),
        r@.len() <= c.max_len,
{
    let body = tok.encode(concat2(c.prefix.as_str(), text).as_str());
    frame(c, &body)
}

/// Most option vectors kept across requests before the cache is cleared.
pub const CACHE_MAX: usize = 8192;

/// A vector kept under its text, with the text's token count.
#[derive(Debug)]
pub struct Cached {
    pub text: String,
    /// Bit patterns of single-precision numbers.
    pub vector: Vec<u32>,
    pub tokens: usize,
}

/// What is kept of a text.
pub type Kept = (Seq<u32>, usize);

/// A kept vector as text and contents.
pub open spec fn cached_view(c: Cached) -> (Seq<char>, Kept) {
    (c.text@, (c.vector@, c.tokens))
}

/// The views of kept vectors.
pub open spec fn cached_views(v: Seq<Cached>) -> Seq<(Seq<char>, Kept)> {
    v.map_values(|c: Cached| cached_view(c))
}

/// Option vectors kept across requests: no text occurs twice.
#[derive(Debug)]
pub struct VectorCache {
    pub entries: Vec<Cached>,
}

/// No text occurs twice.
pub open spec fn distinct_texts(v: Seq<(Seq<char>, Kept)>) -> bool {
    forall|i: int, j: int|
        #![trigger v[i], v[j]]
        0 <= i < j < v.len() ==> v[i].0 != v[j].0
}

impl VectorCache {
    /// The kept vectors by text.
    pub open spec fn entries_view(self) -> Seq<(Seq<char>, Kept)> {
        cached_views(self.entries@)
    }

    /// No text occurs twice.
    pub open spec fn wf(self) -> bool {
        distinct_texts(self.entries_view())
    }

    pub fn new() -> (r: VectorCache)
        ensures
            r.wf(),
            r.entries_view() == Seq::<(Seq<char>, Kept)>::empty(),
    {
        let r = VectorCache { entries: Vec::new() };
        assert(r.entries_view() =~= Seq::<(Seq<char>, Kept)>::empty());
        r
    }

    /// Where the vector of a text stands.
    fn place(&self, text: &str) -> (r: Option<usize>)
        ensures
            match r {
                Some(i) => i < self.entries@.len() && self.entries@[i as int].text@ == text@
                    && find(self.entries_view(), text@) == Some(
                    cached_view(self.entries@[i as int]).1,
                ),
                None => find(self.entries_view(), text@) is None && forall|j: int|
                    0 <= j < self.entries@.len() ==> (#[trigger] self.entries@[j]).text@ != text@,
            },
    {
        let ghost ev = self.entries_view();
        let mut i: usize = 0;
        assert(ev.skip(0) =~= ev);
        while i < self.entries.len()
            invariant
                0 <= i <= self.entries@.len(),
                ev == self.entries_view(),
                find(ev, text@) == find(ev.skip(i as int), text@),
                forall|j: int| 0 <= j < i ==> (#[trigger] self.entries@[j]).text@ != text@,
            decreases self.entries@.len() - i,
        {
            proof {
                assert(ev[i as int] == cached_view(self.entries@[i as int]));
                assert(ev.skip(i as int)[0] == ev[i as int]);
                assert(ev.skip(i as int).drop_first() =~= ev.skip(i as int + 1));
            }
            if same(self.entries[i].text.as_str(), text) {
                return Some(i);
            }
            i += 1;
        }
        assert(ev.skip(i as int).len() == 0);
        None
    }

    /// The vector and the token count kept for a text.
    pub fn get(&self, text: &str) -> (r: Option<(Vec<u32>, usize)>)
        ensures
            match r {
                Some(k) => find(self.entries_view(), text@) == Some((k.0@, k.1)),
                None => find(self.entries_view(), text@) is None,
            },
    {
        match self.place(text) {
            Some(i) => Some((self.entries[i].vector.clone(), self.entries[i].tokens)),
            None => None,
        }
    }
}

/// What is kept after one more text: its vector in place of an earlier one,
/// else behind the others.
pub open spec fn with_kept(v: Seq<(Seq<char>, Kept)>, text: Seq<char>, k: Kept) -> Seq<
    (Seq<char>, Kept),
>
    decreases v.len(),
{
    if v.len() == 0 {
        seq![(text, k)]
    } else if v[0].0 == text {
        seq![(text, k)] + v.drop_first()
    } else {
        seq![v[0]] + with_kept(v.drop_first(), text, k)
    }
}

proof fn with_kept_at(v: Seq<(Seq<char>, Kept)>, text: Seq<char>, k: Kept, i: int)
    requires
        0 <= i < v.len(),
        v[i].0 == text,
        forall|j: int| 0 <= j < i ==> (#[trigger] v[j]).0 != text,
    ensures
        with_kept(v, text, k) == v.update(i, (text, k)),
    decreases v.len(),
{
    if i == 0 {
        assert(seq![(text, k)] + v.drop_first() =~= v.update(0, (text, k)));
    } else {
        assert(v[0].0 != text);
        assert forall|j: int| 0 <= j < i - 1 implies (#[trigger] v.drop_first()[j]).0 != text by {
            assert(v[j + 1].0 != text);
        }
        with_kept_at(v.drop_first(), text, k, i - 1);
        assert(seq![v[0]] + v.drop_first().update(i - 1, (text, k)) =~= v.update(i, (text, k)));
    }
}

proof fn with_kept_new(v: Seq<(Seq<char>, Kept)>, text: Seq<char>, k: Kept)
    requires
        forall|j: int| 0 <= j < v.len() ==> (#[trigger] v[j]).0 != text,
    ensures
        with_kept(v, text, k) == v.push((text, k)),
    decreases v.len(),
{
    if v.len() > 0 {
        assert(v[0].0 != text);
        assert forall|j: int| 0 <= j < v.drop_first().len() implies (
        #[trigger] v.drop_first()[j]).0 != text by {
            assert(v[j + 1].0 != text);
        }
        with_kept_new(v.drop_first(), text, k);
        assert(seq![v[0]] + v.drop_first().push((text, k)) =~= v.push((text, k)));
    } else {
        assert(seq![(text, k)] =~= v.push((text, k)));
    }
}

impl VectorCache {
    /// Keeps the vector of a text.
    pub fn insert(&mut self, text: &str, vector: Vec<u32>, tokens: usize)
        requires
            old(self).wf(),
        ensures
            final(self).wf(),
            final(self).entries_view() == with_kept(
                old(self).entries_view(),
                text@,
                (vector@, tokens),
            ),
    {
        let ghost before = self.entries_view();
        let ghost k = (vector@, tokens);
        match self.place(text) {
            Some(i) => {
                proof {
                    assert forall|j: int| 0 <= j < i implies (#[trigger] before[j]).0 != text@ by {
                        assert(before[i as int].0 == text@);
                        assert(before[j].0 != before[i as int].0);
                    }
                    with_kept_at(before, text@, k, i as int);
                }
                self.entries.set(i, Cached { text: text.to_owned(), vector, tokens });
                assert(self.entries_view() =~= before.update(i as int, (text@, k)));
            },
            None => {
                proof {
                    assert forall|j: int| 0 <= j < before.len() implies (#[trigger] before[j]).0
                        != text@ by {
                        assert(self.entries@[j].text@ != text@);
                    }
                    with_kept_new(before, text@, k);
                }
                self.entries.push(Cached { text: text.to_owned(), vector, tokens });
                assert(self.entries_view() =~= before.push((text@, k)));
            },
        }
        proof {
            let after = self.entries_view();
            assert forall|a: int, b: int|
                #![trigger after[a], after[b]]
                0 <= a < b < after.len() implies after[a].0 != after[b].0 by {
                if b < before.len() {
                    assert(before[a].0 != before[b].0);
                } else {
                    assert(self.entries@[a].text@ == before[a].0);
                }
            }
        }
    }
}

/// What is kept of the first `n` fresh vectors whose texts may be kept.
pub open spec fn kept_after(
    v: Seq<(Seq<char>, Kept)>,
    texts: Seq<Seq<char>>,
    cacheable: Seq<bool>,
    fresh: Seq<(usize, Vec<u32>)>,
    tokens: Seq<usize>,
    n: nat,
) -> Seq<(Seq<char>, Kept)>
    decreases n,
{
    if n == 0 {
        v
    } else {
        let before = kept_after(v, texts, cacheable, fresh, tokens, (n - 1) as nat);
        let i = fresh[n - 1].0 as int;
        if cacheable[i] {
            with_kept(before, texts[i], (fresh[n - 1].1@, tokens[i]))
        } else {
            before
        }
    }
}

impl VectorCache {
    /// Keeps fresh vectors after a request; a cache that would hold too many
    /// is cleared first.
    pub fn store(
        &mut self,
        list: &Vec<String>,
        cacheable: &Vec<bool>,
        fresh: &Vec<(usize, Vec<u32>)>,
        tokens: &Vec<usize>,
    )
        requires
            old(self).wf(),
            cacheable@.len() == list@.len(),
            tokens@.len() == list@.len(),
            forall|i: int| 0 <= i < fresh@.len() ==> (#[trigger] fresh@[i]).0 < list@.len(),
        ensures
            final(self).wf(),
            final(self).entries_view() == kept_after(
                if old(self).entries@.len() + fresh@.len() > CACHE_MAX {
                    Seq::empty()
                } else {
                    old(self).entries_view()
                },
                texts(list@),
                cacheable@,
                fresh@,
                tokens@,
                fresh@.len(),
            ),
    {
        let ghost before = self.entries_view();
        let have: usize = self.entries.len();
        if have > CACHE_MAX || fresh.len() > CACHE_MAX - have {
            self.entries = Vec::new();
            assert(self.entries_view() =~= Seq::empty());
        }
        let ghost start = self.entries_view();
        let mut i: usize = 0;
        while i < fresh.len()
            invariant
                0 <= i <= fresh@.len(),
                self.wf(),
                cacheable@.len() == list@.len(),
                tokens@.len() == list@.len(),
                forall|j: int| 0 <= j < fresh@.len() ==> (#[trigger] fresh@[j]).0 < list@.len(),
                self.entries_view() == kept_after(
                    start,
                    texts(list@),
                    cacheable@,
                    fresh@,
                    tokens@,
                    i as nat,
                ),
            decreases fresh@.len() - i,
        {
            let (k, v) = &fresh[i];
            assert(fresh@[i as int].0 < list@.len());
            assert(texts(list@)[*k as int] == list@[*k as int]@);
            if cacheable[*k] {
                self.insert(list[*k].as_str(), v.clone(), tokens[*k]);
            }
            i += 1;
        }
    }
}

/// Which texts are kept.
pub open spec fn known(cache: Seq<(Seq<char>, Kept)>, text: Seq<char>) -> bool {
    find(cache, text) is Some
}

/// The first text that is the same as text `i`.
pub open spec fn first_same(list: Seq<Seq<char>>, i: int, n: nat) -> int
    decreases n,
{
    if n == 0 {
        i
    } else {
        let f = first_same(list, i, (n - 1) as nat);
        if f < n - 1 {
            f
        } else if list[n - 1] == list[i] {
            n - 1
        } else {
            i
        }
    }
}

/// Of the first `n` texts, those that are kept.
pub open spec fn kept_texts(
    list: Seq<Seq<char>>,
    cache: Seq<(Seq<char>, Kept)>,
    n: nat,
) -> Seq<usize>
    decreases n,
{
    if n == 0 {
        Seq::empty()
    } else if known(cache, list[n - 1]) {
        kept_texts(list, cache, (n - 1) as nat).push((n - 1) as usize)
    } else {
        kept_texts(list, cache, (n - 1) as nat)
    }
}

/// Of the first `n` texts, those to encode: not kept, and not met before.
pub open spec fn new_texts(
    list: Seq<Seq<char>>,
    cache: Seq<(Seq<char>, Kept)>,
    n: nat,
) -> Seq<usize>
    decreases n,
{
    if n == 0 {
        Seq::empty()
    } else if !known(cache, list[n - 1]) && first_same(list, n - 1, (n - 1) as nat) == n - 1 {
        new_texts(list, cache, (n - 1) as nat).push((n - 1) as usize)
    } else {
        new_texts(list, cache, (n - 1) as nat)
    }
}

/// Of the first `n` texts, those met before and not kept, each with where it
/// was met first.
pub open spec fn repeated_texts(
    list: Seq<Seq<char>>,
    cache: Seq<(Seq<char>, Kept)>,
    n: nat,
) -> Seq<(usize, usize)>
    decreases n,
{
    if n == 0 {
        Seq::empty()
    } else {
        let f = first_same(list, n - 1, (n - 1) as nat);
        if !known(cache, list[n - 1]) && f < n - 1 {
            repeated_texts(list, cache, (n - 1) as nat).push(((n - 1) as usize, f as usize))
        } else {
            repeated_texts(list, cache, (n - 1) as nat)
        }
    }
}

/// How the texts of an evaluation get their vectors.
#[derive(Debug)]
pub struct Sources {
    /// Kept: taken from the cache.
    pub kept: Vec<usize>,
    /// Encoded.
    pub unique: Vec<usize>,
    /// Copied from another text of the evaluation.
    pub alias: Vec<(usize, usize)>,
}

fn met_before(list: &Vec<String>, i: usize) -> (r: usize)
    requires
        i < list@.len(),
    ensures
        r == first_same(texts(list@), i as int, i as nat),
        r <= i,
{
    let ghost tv = texts(list@);
    let mut j: usize = 0;
    while j < i
        invariant
            0 <= j <= i < list@.len(),
            tv == texts(list@),
            first_same(tv, i as int, j as nat) == i,
        decreases i - j,
    {
        assert(tv[j as int] == list@[j as int]@ && tv[i as int] == list@[i as int]@);
        if same(list[j].as_str(), list[i].as_str()) {
            proof {
                first_same_stays(tv, i as int, (j + 1) as nat, i as nat);
            }
            return j;
        }
        j += 1;
    }
    i
}

proof fn first_same_stays(list: Seq<Seq<char>>, i: int, a: nat, n: nat)
    requires
        a <= n <= i,
        first_same(list, i, a) < a,
    ensures
        first_same(list, i, n) == first_same(list, i, a),
    decreases n - a,
{
    if a < n {
        first_same_stays(list, i, a + 1, n);
    }
}

/// Sorts the texts of an evaluation: those kept, those to encode, and those
/// that repeat another.
pub fn sort_texts(list: &Vec<String>, cache: &VectorCache) -> (r: Sources)
    ensures
        r.kept@ == kept_texts(texts(list@), cache.entries_view(), list@.len()),
        r.unique@ == new_texts(texts(list@), cache.entries_view(), list@.len()),
        r.alias@ == repeated_texts(texts(list@), cache.entries_view(), list@.len()),
{
    let ghost tv = texts(list@);
    let ghost cv = cache.entries_view();
    let mut kept: Vec<usize> = Vec::new();
    let mut unique: Vec<usize> = Vec::new();
    let mut alias: Vec<(usize, usize)> = Vec::new();
    let mut i: usize = 0;
    assert(kept@ =~= kept_texts(tv, cv, 0));
    assert(unique@ =~= new_texts(tv, cv, 0));
    assert(alias@ =~= repeated_texts(tv, cv, 0));
    while i < list.len()
        invariant
            0 <= i <= list@.len(),
            tv == texts(list@),
            cv == cache.entries_view(),
            kept@ == kept_texts(tv, cv, i as nat),
            unique@ == new_texts(tv, cv, i as nat),
            alias@ == repeated_texts(tv, cv, i as nat),
        decreases list@.len() - i,
    {
        assert(tv[i as int] == list@[i as int]@);
        let j: usize = met_before(list, i);
        match cache.place(list[i].as_str()) {
            Some(_) => {
                kept.push(i);
            },
            None => {
                if j < i {
                    alias.push((i, j));
                } else {
                    unique.push(i);
                }
            },
        }
        i += 1;
    }
    Sources { kept, unique, alias }
}

/// Why an evaluation is too large, if it is.
pub open spec fn size_fault(texts: nat, pairs: nat, max_seqs: nat) -> Option<Seq<char>> {
    if texts > max_seqs || pairs > max_seqs {
        Some(
            decimal(texts) + " texts / "@ + decimal(pairs) + " pairs exceed the engine's "@
                + decimal(max_seqs) + " per pass"@,
        )
    } else {
        None
    }
}

/// Checks how large an evaluation is.
pub fn check_size(texts: usize, pairs: usize, max_seqs: usize) -> (r: Result<(), LoadError>)
    ensures
        match r {
            Ok(_) => size_fault(texts as nat, pairs as nat, max_seqs as nat) is None,
            Err(e) => size_fault(texts as nat, pairs as nat, max_seqs as nat) == Some(e@),
        },
{
    if texts > max_seqs || pairs > max_seqs {
        let mut m: String = String::new();
        push_decimal(&mut m, texts as u64);
        m.append(" texts / ");
        push_decimal(&mut m, pairs as u64);
        m.append(" pairs exceed the engine's ");
        push_decimal(&mut m, max_seqs as u64);
        m.append(" per pass");
        assert(m@ =~= size_fault(texts as nat, pairs as nat, max_seqs as nat)->0);
        return Err(LoadError::new(m));
    }
    Ok(())
}

/// What encoding a text costs a pass.
pub open spec fn text_costs(seqs: Seq<Vec<u32>>) -> Seq<Cost> {
    seqs.map_values(|s: Vec<u32>| Cost { tokens: s@.len() as usize, sequences: 0, rows: 0 })
}

/// A pass holds `capacity` tokens.
pub open spec fn token_limit(capacity: usize) -> Limits {
    Limits { tokens: capacity, sequences: usize::MAX, rows: usize::MAX }
}

/// Everything goes in one pass: it fits, and no text repeats another.
pub open spec fn in_one_pass(seqs: Seq<Vec<u32>>, alias: nat, capacity: nat) -> bool {
    text_start(seqs, seqs.len()) <= capacity && alias == 0
}

/// The passes that encode the texts, when they do not go in one with the
/// pairs: as many texts a pass as its capacity holds, in order; a text longer
/// than that goes alone.
pub fn encode_passes(seqs: &Vec<Vec<u32>>, alias: usize, capacity: usize) -> (r: Option<
    Vec<Vec<usize>>,
>)
    ensures
        match r {
            None => in_one_pass(seqs@, alias as nat, capacity as nat),
            Some(p) => !in_one_pass(seqs@, alias as nat, capacity as nat) && pass_lists(p@)
                == passes(text_costs(seqs@), token_limit(capacity), seqs@.len()),
        },
{
    let mut costs: Vec<Cost> = Vec::new();
    let mut left: usize = capacity;
    let mut fits: bool = true;
    let mut i: usize = 0;
    while i < seqs.len()
        invariant
            0 <= i <= seqs@.len(),
            costs@ == text_costs(seqs@.take(i as int)),
            fits ==> left == capacity - text_start(seqs@, i as nat),
            !fits ==> text_start(seqs@, i as nat) > capacity,
        decreases seqs@.len() - i,
    {
        let n: usize = seqs[i].len();
        costs.push(Cost { tokens: n, sequences: 0, rows: 0 });
        if fits {
            if n <= left {
                left -= n;
            } else {
                fits = false;
            }
        }
        i += 1;
        assert(costs@ =~= text_costs(seqs@.take(i as int)));
    }
    assert(seqs@.take(i as int) =~= seqs@);
    if fits && alias == 0 {
        return None;
    }
    let limits = Limits { tokens: capacity, sequences: usize::MAX, rows: usize::MAX };
    Some(plan_passes(&costs, limits))
}

/// The fresh vector of text `j`.
pub open spec fn fresh_of(fresh: Seq<(usize, Vec<u32>)>, j: usize) -> Option<Seq<u32>>
    decreases fresh.len(),
{
    if fresh.len() == 0 {
        None
    } else if fresh[0].0 == j {
        Some(fresh[0].1@)
    } else {
        fresh_of(fresh.drop_first(), j)
    }
}

/// Vectors by slot, as sequences.
pub open spec fn upload_views(v: Seq<(u32, Vec<u32>)>) -> Seq<(u32, Seq<u32>)> {
    v.map_values(|u: (u32, Vec<u32>)| (u.0, u.1@))
}

/// Fresh vectors by slot.
pub open spec fn fresh_uploads(fresh: Seq<(usize, Vec<u32>)>) -> Seq<(u32, Seq<u32>)> {
    fresh.map_values(|f: (usize, Vec<u32>)| (f.0 as u32, f.1@))
}

/// The vectors of repeated texts by slot: copies of the fresh ones.
pub open spec fn alias_uploads(alias: Seq<(usize, usize)>, fresh: Seq<(usize, Vec<u32>)>) -> Seq<
    (u32, Seq<u32>),
> {
    alias.map_values(|a: (usize, usize)| (a.0 as u32, fresh_of(fresh, a.1)->0))
}

fn fresh_at(fresh: &Vec<(usize, Vec<u32>)>, j: usize) -> (r: Vec<u32>)
    requires
        fresh_of(fresh@, j) is Some,
    ensures
        Some(r@) == fresh_of(fresh@, j),
{
    let ghost fv = fresh@;
    let mut i: usize = 0;
    assert(fv.skip(0) =~= fv);
    while i < fresh.len()
        invariant
            0 <= i <= fresh@.len(),
            fv == fresh@,
            fresh_of(fv, j) is Some,
            fresh_of(fv, j) == fresh_of(fv.skip(i as int), j),
        decreases fresh@.len() - i,
    {
        assert(fv.skip(i as int)[0] == fv[i as int]);
        assert(fv.skip(i as int).drop_first() =~= fv.skip(i as int + 1));
        if fresh[i].0 == j {
            return fresh[i].1.clone();
        }
        i += 1;
    }
    assert(fv.skip(i as int).len() == 0);
    Vec::new()
}

/// Every vector of an evaluation by slot, for the pass that scores the pairs:
/// the kept ones, the fresh ones, and the copies for repeated texts.
pub fn all_uploads(
    kept: Vec<(u32, Vec<u32>)>,
    fresh: &Vec<(usize, Vec<u32>)>,
    alias: &Vec<(usize, usize)>,
) -> (r: Vec<(u32, Vec<u32>)>)
    requires
        forall|i: int|
            0 <= i < alias@.len() ==> fresh_of(fresh@, (#[trigger] alias@[i]).1) is Some,
    ensures
        upload_views(r@) == upload_views(kept@) + fresh_uploads(fresh@) + alias_uploads(
            alias@,
            fresh@,
        ),
{
    let mut out: Vec<(u32, Vec<u32>)> = kept;
    let ghost before = upload_views(out@);
    let mut i: usize = 0;
    assert(upload_views(out@) =~= before + fresh_uploads(fresh@).take(0));
    while i < fresh.len()
        invariant
            0 <= i <= fresh@.len(),
            upload_views(out@) == before + fresh_uploads(fresh@).take(i as int),
        decreases fresh@.len() - i,
    {
        let ghost prev = out@;
        let u: (u32, Vec<u32>) = (fresh[i].0 as u32, fresh[i].1.clone());
        out.push(u);
        assert(upload_views(out@) =~= upload_views(prev).push((u.0, u.1@)));
        i += 1;
        assert(upload_views(out@) =~= before + fresh_uploads(fresh@).take(i as int));
    }
    assert(fresh_uploads(fresh@).take(i as int) =~= fresh_uploads(fresh@));
    let ghost mid = upload_views(out@);
    let ghost av = alias_uploads(alias@, fresh@);
    let mut i: usize = 0;
    assert(upload_views(out@) =~= mid + av.take(0));
    while i < alias.len()
        invariant
            0 <= i <= alias@.len(),
            av == alias_uploads(alias@, fresh@),
            forall|j: int|
                0 <= j < alias@.len() ==> fresh_of(fresh@, (#[trigger] alias@[j]).1) is Some,
            upload_views(out@) == mid + av.take(i as int),
        decreases alias@.len() - i,
    {
        let (slot, j) = alias[i];
        let ghost prev = out@;
        let u: (u32, Vec<u32>) = (slot as u32, fresh_at(fresh, j));
        out.push(u);
        assert(upload_views(out@) =~= upload_views(prev).push((u.0, u.1@)));
        i += 1;
        assert(upload_views(out@) =~= mid + av.take(i as int));
    }
    assert(av.take(i as int) =~= av);
    out
}

proof fn first_same_is_first(list: Seq<Seq<char>>, i: int, n: nat)
    requires
        0 <= n <= i < list.len(),
    ensures
        ({
            let f = first_same(list, i, n);
            &&& 0 <= f <= i
            &&& list[f] == list[i]
            &&& f < i ==> f < n
            &&& forall|j: int| 0 <= j < n && j < f ==> (#[trigger] list[j]) != list[i]
        }),
    decreases n,
{
    if n > 0 {
        first_same_is_first(list, i, (n - 1) as nat);
    }
}

proof fn first_of_first(list: Seq<Seq<char>>, i: int)
    requires
        0 <= i < list.len(),
    ensures
        ({
            let f = first_same(list, i, i as nat);
            first_same(list, f, f as nat) == f
        }),
{
    let f = first_same(list, i, i as nat);
    first_same_is_first(list, i, i as nat);
    first_same_is_first(list, f, f as nat);
    let g = first_same(list, f, f as nat);
    if g < f {
        assert(list[g] == list[i]);
    }
}

proof fn new_texts_hold(list: Seq<Seq<char>>, cache: Seq<(Seq<char>, Kept)>, i: int, n: nat)
    requires
        0 <= i < n <= list.len() <= usize::MAX,
    ensures
        new_texts(list, cache, n).contains(i as usize) <==> (!known(cache, list[i]) && first_same(
            list,
            i,
            i as nat,
        ) == i),
        kept_texts(list, cache, n).contains(i as usize) <==> known(cache, list[i]),
    decreases n,
{
    let a = new_texts(list, cache, (n - 1) as nat);
    let b = kept_texts(list, cache, (n - 1) as nat);
    new_texts_below(list, cache, (n - 1) as nat);
    let last = (n - 1) as usize;
    if i < n - 1 {
        new_texts_hold(list, cache, i, (n - 1) as nat);
        assert(a.contains(i as usize) ==> a.push(last).contains(i as usize)) by {
            if a.contains(i as usize) {
                let k = choose|k: int| 0 <= k < a.len() && a[k] == i as usize;
                assert(a.push(last)[k] == i as usize);
            }
        }
        assert(a.push(last).contains(i as usize) ==> a.contains(i as usize));
        assert(b.contains(i as usize) ==> b.push(last).contains(i as usize)) by {
            if b.contains(i as usize) {
                let k = choose|k: int| 0 <= k < b.len() && b[k] == i as usize;
                assert(b.push(last)[k] == i as usize);
            }
        }
        assert(b.push(last).contains(i as usize) ==> b.contains(i as usize));
    } else {
        assert(a.push(last)[a.len() as int] == last);
        assert(b.push(last)[b.len() as int] == last);
        assert(!a.contains(last) && !b.contains(last));
    }
}

proof fn new_texts_below(list: Seq<Seq<char>>, cache: Seq<(Seq<char>, Kept)>, n: nat)
    requires
        n <= list.len() <= usize::MAX,
    ensures
        forall|k: int|
            0 <= k < new_texts(list, cache, n).len() ==> (#[trigger] new_texts(
                list,
                cache,
                n,
            )[k]) < n,
        forall|k: int|
            0 <= k < kept_texts(list, cache, n).len() ==> (#[trigger] kept_texts(
                list,
                cache,
                n,
            )[k]) < n,
    decreases n,
{
    if n > 0 {
        new_texts_below(list, cache, (n - 1) as nat);
        let a = new_texts(list, cache, (n - 1) as nat);
        let b = kept_texts(list, cache, (n - 1) as nat);
        assert forall|k: int| 0 <= k < new_texts(list, cache, n).len() implies (#[trigger] new_texts(
            list,
            cache,
            n,
        )[k]) < n by {
            if k < a.len() {
                assert(a[k] < n - 1);
            }
        }
        assert forall|k: int| 0 <= k < kept_texts(list, cache, n).len() implies (
        #[trigger] kept_texts(list, cache, n)[k]) < n by {
            if k < b.len() {
                assert(b[k] < n - 1);
            }
        }
    }
}

/// Every text gets a vector: it is kept, or it is encoded, or the same text
/// met first is encoded and its vector copied.
pub proof fn every_text_gets_a_vector(
    list: Seq<Seq<char>>,
    cache: Seq<(Seq<char>, Kept)>,
    i: int,
)
    requires
        0 <= i < list.len() <= usize::MAX,
    ensures
        ({
            let f = first_same(list, i, i as nat);
            let kept = kept_texts(list, cache, list.len());
            let unique = new_texts(list, cache, list.len());
            &&& list[f] == list[i]
            &&& known(cache, list[i]) ==> kept.contains(i as usize) && !unique.contains(i as usize)
            &&& !known(cache, list[i]) ==> unique.contains(f as usize) && (f == i
                || !unique.contains(i as usize)) && !kept.contains(i as usize)
        }),
{
    let f = first_same(list, i, i as nat);
    first_same_is_first(list, i, i as nat);
    first_of_first(list, i);
    new_texts_hold(list, cache, i, list.len());
    new_texts_hold(list, cache, f, list.len());
}

/// A text that repeats another is copied from one that is encoded and the
/// same.
pub proof fn copies_are_of_encoded_texts(
    list: Seq<Seq<char>>,
    cache: Seq<(Seq<char>, Kept)>,
    n: nat,
    k: int,
)
    requires
        n <= list.len() <= usize::MAX,
        0 <= k < repeated_texts(list, cache, n).len(),
    ensures
        ({
            let (i, j) = repeated_texts(list, cache, n)[k];
            &&& j < i < n
            &&& list[i as int] == list[j as int]
            &&& new_texts(list, cache, list.len()).contains(j)
        }),
    decreases n,
{
    if k < repeated_texts(list, cache, (n - 1) as nat).len() {
        copies_are_of_encoded_texts(list, cache, (n - 1) as nat, k);
    } else {
        let i = n - 1;
        first_same_is_first(list, i, i as nat);
        every_text_gets_a_vector(list, cache, i);
    }
}

/// `r` with `vals[k]` at `at[k]`, for the first `n` of them.
pub open spec fn set_upto(r: Seq<usize>, at: Seq<usize>, vals: Seq<usize>, n: nat) -> Seq<usize>
    decreases n,
{
    if n == 0 {
        r
    } else {
        set_upto(r, at, vals, (n - 1) as nat).update(at[n - 1] as int, vals[n - 1])
    }
}

/// `r` with the count of its original at every one of the first `n` repeated
/// texts.
pub open spec fn copy_upto(r: Seq<usize>, alias: Seq<(usize, usize)>, n: nat) -> Seq<usize>
    decreases n,
{
    if n == 0 {
        r
    } else {
        let before = copy_upto(r, alias, (n - 1) as nat);
        before.update(alias[n - 1].0 as int, before[alias[n - 1].1 as int])
    }
}

/// The token counts of `n` texts, given those of the kept ones and those of
/// the encoded ones; a repeated text has its original's.
pub open spec fn text_counts(
    n: nat,
    s: Sources,
    kept_counts: Seq<usize>,
    lengths: Seq<usize>,
) -> Seq<usize> {
    let zeros = Seq::new(n, |i: int| 0usize);
    let known = set_upto(zeros, s.kept@, kept_counts, s.kept@.len());
    let encoded = set_upto(known, s.unique@, lengths, s.unique@.len());
    copy_upto(encoded, s.alias@, s.alias@.len())
}

/// Every index is one of `n` texts.
pub open spec fn sources_fit(s: Sources, n: nat) -> bool {
    &&& indices_of(s.kept@, n)
    &&& indices_of(s.unique@, n)
    &&& forall|k: int|
        0 <= k < s.alias@.len() ==> (#[trigger] s.alias@[k]).0 < n && s.alias@[k].1 < n
}

fn set_all(r: &mut Vec<usize>, at: &Vec<usize>, vals: &Vec<usize>)
    requires
        indices_of(at@, old(r)@.len()),
        at@.len() == vals@.len(),
    ensures
        final(r)@ == set_upto(old(r)@, at@, vals@, at@.len()),
        final(r)@.len() == old(r)@.len(),
{
    let ghost before = r@;
    let mut i: usize = 0;
    while i < at.len()
        invariant
            0 <= i <= at@.len(),
            at@.len() == vals@.len(),
            indices_of(at@, before.len()),
            r@.len() == before.len(),
            r@ == set_upto(before, at@, vals@, i as nat),
        decreases at@.len() - i,
    {
        r.set(at[i], vals[i]);
        i += 1;
    }
}

/// The token counts of the texts of an evaluation.
pub fn count_texts(n: usize, s: &Sources, kept_counts: &Vec<usize>, lengths: &Vec<usize>) -> (r: Vec<
    usize,
>)
    requires
        sources_fit(*s, n as nat),
        kept_counts@.len() == s.kept@.len(),
        lengths@.len() == s.unique@.len(),
    ensures
        r@ == text_counts(n as nat, *s, kept_counts@, lengths@),
{
    let mut out: Vec<usize> = Vec::new();
    let mut i: usize = 0;
    while i < n
        invariant
            0 <= i <= n,
            out@ == Seq::new(i as nat, |j: int| 0usize),
        decreases n - i,
    {
        out.push(0);
        i += 1;
        assert(out@ =~= Seq::new(i as nat, |j: int| 0usize));
    }
    set_all(&mut out, &s.kept, kept_counts);
    set_all(&mut out, &s.unique, lengths);
    let ghost before = out@;
    let mut k: usize = 0;
    while k < s.alias.len()
        invariant
            0 <= k <= s.alias@.len(),
            sources_fit(*s, n as nat),
            out@.len() == n,
            out@ == copy_upto(before, s.alias@, k as nat),
        decreases s.alias@.len() - k,
    {
        let (i, j) = s.alias[k];
        assert(s.alias@[k as int].0 < n && s.alias@[k as int].1 < n);
        let v: usize = out[j];
        out.set(i, v);
        k += 1;
    }
    out
}

/// The logits a question's options got, out of those of a request: the state
/// is text 0, so the option at text `i` is pair `i - 1`.
pub open spec fn question_logits(logits: Seq<u32>, span: (usize, usize)) -> Seq<u32> {
    logits.subrange(span.0 - 1, span.0 - 1 + span.1)
}

/// A question's options stand among `n` texts, behind the state's.
pub open spec fn span_fits(span: (usize, usize), n: nat) -> bool {
    1 <= span.0 && span.0 + span.1 <= n
}

/// The logits of every question.
pub fn split_logits(logits: &Vec<u32>, spans: &Vec<(usize, usize)>) -> (r: Vec<Vec<u32>>)
    requires
        forall|i: int|
            0 <= i < spans@.len() ==> span_fits(#[trigger] spans@[i], (logits@.len() + 1) as nat),
    ensures
        r@.len() == spans@.len(),
        forall|i: int|
            0 <= i < spans@.len() ==> (#[trigger] r@[i])@ == question_logits(logits@, spans@[i]),
{
    let mut out: Vec<Vec<u32>> = Vec::new();
    let mut i: usize = 0;
    while i < spans.len()
        invariant
            0 <= i <= spans@.len(),
            forall|j: int|
                0 <= j < spans@.len() ==> span_fits(
                    #[trigger] spans@[j],
                    (logits@.len() + 1) as nat,
                ),
            out@.len() == i,
            forall|j: int|
                0 <= j < i ==> (#[trigger] out@[j])@ == question_logits(logits@, spans@[j]),
        decreases spans@.len() - i,
    {
        let (start, k) = spans[i];
        let len: usize = logits.len();
        assert(span_fits(spans@[i as int], (logits@.len() + 1) as nat));
        assert(start - 1 + k <= len);
        let v = vstd::slice::slice_to_vec(
            vstd::slice::slice_subrange(logits.as_slice(), start - 1, start - 1 + k),
        );
        assert(v@ =~= question_logits(logits@, spans@[i as int]));
        out.push(v);
        i += 1;
    }
    out
}

/// The tokens of a question's options.
pub open spec fn span_tokens(tokens: Seq<usize>, span: (usize, usize)) -> nat {
    let s = tokens.subrange(span.0 as int, span.0 + span.1);
    count_sum(s, s.len())
}

/// What a request reports of its evaluation, given the token count of every
/// one of its texts.
pub fn text_diagnostics(tokens: &Vec<usize>, spans: &Vec<(usize, usize)>, batch: usize) -> (r:
    Diagnostics)
    requires
        tokens@.len() > 0,
        forall|i: int| 0 <= i < spans@.len() ==> span_fits(#[trigger] spans@[i], tokens@.len()),
        forall|i: int|
            0 <= i < spans@.len() ==> span_tokens(tokens@, #[trigger] spans@[i]) <= usize::MAX,
    ensures
        r.prefix_tokens == tokens@[0],
        r.branch_tokens@.len() == spans@.len(),
        forall|i: int|
            0 <= i < spans@.len() ==> (#[trigger] r.branch_tokens@[i]) == span_tokens(
                tokens@,
                spans@[i],
            ),
        r.passes == 1,
        r.prefix_source is None,
        r.orders == 1,
        key_lists_of(r.two_stage) == Seq::<(Seq<char>, Seq<Seq<char>>)>::empty(),
        r.batch == batch,
        r.rechecked@.len() == 0,
{
    let mut branch_tokens: Vec<usize> = Vec::new();
    let mut i: usize = 0;
    while i < spans.len()
        invariant
            0 <= i <= spans@.len(),
            forall|j: int|
                0 <= j < spans@.len() ==> span_fits(#[trigger] spans@[j], tokens@.len()),
            forall|j: int|
                0 <= j < spans@.len() ==> span_tokens(tokens@, #[trigger] spans@[j]) <= usize::MAX,
            branch_tokens@.len() == i,
            forall|j: int|
                0 <= j < i ==> (#[trigger] branch_tokens@[j]) == span_tokens(tokens@, spans@[j]),
        decreases spans@.len() - i,
    {
        let (start, k) = spans[i];
        let ghost part = tokens@.subrange(start as int, start + k);
        assert(span_fits(spans@[i as int], tokens@.len()));
        assert(span_tokens(tokens@, spans@[i as int]) == count_sum(part, part.len()));
        let len: usize = tokens.len();
        let mut n: usize = 0;
        let mut j: usize = 0;
        while j < k
            invariant
                0 <= j <= k,
                start + k <= len,
                len == tokens@.len(),
                part == tokens@.subrange(start as int, start + k),
                count_sum(part, part.len()) <= usize::MAX,
                n == count_sum(part, j as nat),
            decreases k - j,
        {
            proof {
                count_sum_grows(part, (j + 1) as nat, part.len());
                assert(part[j as int] == tokens@[start + j]);
            }
            n += tokens[start + j];
            j += 1;
        }
        branch_tokens.push(n);
        i += 1;
    }
    Diagnostics {
        prefix_tokens: tokens[0],
        branch_tokens,
        passes: 1,
        prefix_source: None,
        orders: 1,
        two_stage: no_key_lists(),
        batch,
        rechecked: Vec::new(),
    }
}

/// Several built requests as one evaluation.
#[derive(Debug)]
pub struct Merged {
    pub texts: Vec<String>,
    /// Whether a text's vector may be kept: an option's may, a state's not.
    pub cacheable: Vec<bool>,
    pub pairs: Vec<(usize, usize)>,
    /// Per request: where its texts and its pairs start.
    pub starts: Vec<(usize, usize)>,
}

/// The texts of the first `n` requests; one that was not built has none.
pub open spec fn merged_texts(bs: Seq<Option<Built>>, n: nat) -> Seq<Seq<char>>
    decreases n,
{
    if n == 0 {
        Seq::empty()
    } else {
        merged_texts(bs, (n - 1) as nat) + (match bs[n - 1] {
            Some(b) => texts(b.texts@),
            None => Seq::empty(),
        })
    }
}

/// Which of them may be kept.
pub open spec fn merged_cacheable(bs: Seq<Option<Built>>, n: nat) -> Seq<bool>
    decreases n,
{
    if n == 0 {
        Seq::empty()
    } else {
        merged_cacheable(bs, (n - 1) as nat) + (match bs[n - 1] {
            Some(b) => Seq::new(b.texts@.len(), |i: int| i > 0),
            None => Seq::empty(),
        })
    }
}

/// Pairs of texts that stand `base` further on.
pub open spec fn shifted(pairs: Seq<(usize, usize)>, base: nat) -> Seq<(usize, usize)> {
    pairs.map_values(|p: (usize, usize)| ((base + p.0) as usize, (base + p.1) as usize))
}

/// The pairs of the first `n` requests.
pub open spec fn merged_pairs(bs: Seq<Option<Built>>, n: nat) -> Seq<(usize, usize)>
    decreases n,
{
    if n == 0 {
        Seq::empty()
    } else {
        merged_pairs(bs, (n - 1) as nat) + (match bs[n - 1] {
            Some(b) => shifted(
                pairs_upto(b.spans@, b.spans@.len()),
                merged_texts(bs, (n - 1) as nat).len(),
            ),
            None => Seq::empty(),
        })
    }
}

/// Every span of a built request stands among its texts.
pub open spec fn spans_fit(b: Built) -> bool {
    forall|i: int| 0 <= i < b.spans@.len() ==> span_fits(#[trigger] b.spans@[i], b.texts@.len())
}

proof fn pairs_stay_in(spans: Seq<(usize, usize)>, n: nat, most: nat, k: int)
    requires
        n <= spans.len(),
        most <= usize::MAX,
        forall|i: int| 0 <= i < spans.len() ==> span_fits(#[trigger] spans[i], most),
        0 <= k < pairs_upto(spans, n).len(),
    ensures
        pairs_upto(spans, n)[k].0 == 0,
        pairs_upto(spans, n)[k].1 < most,
    decreases n,
{
    let before = pairs_upto(spans, (n - 1) as nat);
    if k < before.len() {
        pairs_stay_in(spans, (n - 1) as nat, most, k);
    } else {
        assert(span_fits(spans[n - 1], most));
    }
}

/// Puts several built requests together, so that one evaluation serves them
/// all.
pub fn merge(bs: &Vec<Option<Built>>) -> (r: Merged)
    requires
        forall|i: int|
            0 <= i < bs@.len() ==> ((#[trigger] bs@[i]) is Some ==> spans_fit(bs@[i]->0)),
    ensures
        texts(r.texts@) == merged_texts(bs@, bs@.len()),
        r.cacheable@ == merged_cacheable(bs@, bs@.len()),
        r.pairs@ == merged_pairs(bs@, bs@.len()),
        r.starts@.len() == bs@.len(),
        forall|i: int|
            0 <= i < bs@.len() ==> (#[trigger] r.starts@[i]).0 == merged_texts(bs@, i as nat).len()
                && r.starts@[i].1 == merged_pairs(bs@, i as nat).len(),
{
    let mut list: Vec<String> = Vec::new();
    let mut cacheable: Vec<bool> = Vec::new();
    let mut pairs: Vec<(usize, usize)> = Vec::new();
    let mut starts: Vec<(usize, usize)> = Vec::new();
    let mut i: usize = 0;
    assert(texts(list@) =~= merged_texts(bs@, 0));
    assert(cacheable@ =~= merged_cacheable(bs@, 0));
    assert(pairs@ =~= merged_pairs(bs@, 0));
    while i < bs.len()
        invariant
            0 <= i <= bs@.len(),
            forall|j: int|
                0 <= j < bs@.len() ==> ((#[trigger] bs@[j]) is Some ==> spans_fit(bs@[j]->0)),
            texts(list@) == merged_texts(bs@, i as nat),
            cacheable@ == merged_cacheable(bs@, i as nat),
            pairs@ == merged_pairs(bs@, i as nat),
            starts@.len() == i,
            forall|j: int|
                0 <= j < i ==> (#[trigger] starts@[j]).0 == merged_texts(bs@, j as nat).len()
                    && starts@[j].1 == merged_pairs(bs@, j as nat).len(),
        decreases bs@.len() - i,
    {
        assert(texts(list@).len() == list@.len());
        starts.push((list.len(), pairs.len()));
        match &bs[i] {
            Some(b) => {
                add_built(b, &mut list, &mut cacheable, &mut pairs);
            },
            None => {
                assert(texts(list@) =~= merged_texts(bs@, i as nat + 1));
                assert(cacheable@ =~= merged_cacheable(bs@, i as nat + 1));
                assert(pairs@ =~= merged_pairs(bs@, i as nat + 1));
            },
        }
        i += 1;
    }
    Merged { texts: list, cacheable, pairs, starts }
}

fn add_built(
    b: &Built,
    list: &mut Vec<String>,
    cacheable: &mut Vec<bool>,
    pairs: &mut Vec<(usize, usize)>,
)
    requires
        spans_fit(*b),
    ensures
        texts(final(list)@) == texts(old(list)@) + texts(b.texts@),
        final(cacheable)@ == old(cacheable)@ + Seq::new(b.texts@.len(), |i: int| i > 0),
        final(pairs)@ == old(pairs)@ + shifted(
            pairs_upto(b.spans@, b.spans@.len()),
            texts(old(list)@).len(),
        ),
{
    let ghost l0 = texts(list@);
    let ghost c0 = cacheable@;
    let ghost p0 = pairs@;
    let base: usize = list.len();
    assert(l0.len() == base);
    let n: usize = b.texts.len();
    let mut i: usize = 0;
    assert(texts(list@) =~= l0 + texts(b.texts@).take(0));
    assert(cacheable@ =~= c0 + Seq::new(0nat, |i: int| i > 0));
    while i < n
        invariant
            0 <= i <= n,
            n == b.texts@.len(),
            l0.len() == base,
            list@.len() == base + i,
            texts(list@) == l0 + texts(b.texts@).take(i as int),
            cacheable@ == c0 + Seq::new(i as nat, |i: int| i > 0),
        decreases n - i,
    {
        let ghost prev = list@;
        let text: String = b.texts[i].clone();
        list.push(text);
        assert(texts(list@) =~= texts(prev).push(text@));
        cacheable.push(i > 0);
        i += 1;
        assert(texts(list@) =~= l0 + texts(b.texts@).take(i as int));
        assert(cacheable@ =~= c0 + Seq::new(i as nat, |i: int| i > 0));
    }
    assert(texts(b.texts@).take(i as int) =~= texts(b.texts@));
    let end: usize = list.len();
    assert(end == base + n);
    proof {
        assert forall|j: int| 0 <= j < b.spans@.len() implies (#[trigger] b.spans@[j]).0
            + b.spans@[j].1 <= usize::MAX by {
            assert(span_fits(b.spans@[j], b.texts@.len()));
        }
    }
    let own = pairs_of(b);
    let ghost sv = shifted(own@, base as nat);
    let mut k: usize = 0;
    assert(pairs@ =~= p0 + sv.take(0));
    while k < own.len()
        invariant
            0 <= k <= own@.len(),
            end == base + n,
            n == b.texts@.len(),
            spans_fit(*b),
            own@ == pairs_upto(b.spans@, b.spans@.len()),
            sv == shifted(own@, base as nat),
            pairs@ == p0 + sv.take(k as int),
        decreases own@.len() - k,
    {
        proof {
            pairs_stay_in(b.spans@, b.spans@.len(), b.texts@.len(), k as int);
        }
        let (a, o) = own[k];
        pairs.push((base + a, base + o));
        k += 1;
        assert(pairs@ =~= p0 + sv.take(k as int));
    }
    assert(sv.take(k as int) =~= sv);
}

/// What the embedder compares the state with is what the request says of an
/// option: its description where it has one, a text as it is, and its key only
/// where it has none. This holds of every option of every kind of question.
pub proof fn options_are_read_by_their_descriptions(q: QuestionView, i: int, s: Seq<char>)
    requires
        0 <= i < described_options(q).len(),
    ensures
        described_options(q).len() == keys_in(q).len(),
        match q {
            QuestionView::Choice { criteria, .. } => {
                &&& described_options(q).len() == criteria.len()
                &&& keys_in(q)[i] == criteria[i].0
                &&& criteria[i].1 == Some(JsonView::Str(s)) ==> described_options(q)[i] == s
                &&& (criteria[i].1 is None || criteria[i].1 == Some(JsonView::Null))
                    ==> described_options(q)[i] == criteria[i].0
            },
            QuestionView::Score { criteria, .. } => {
                &&& described_options(q).len() == criteria.len()
                &&& keys_in(q)[i] == decimal(i as nat)
                &&& criteria[i] == JsonView::Str(s) ==> described_options(q)[i] == s
                &&& criteria[i] is Null ==> described_options(q)[i] == decimal(i as nat)
                &&& !(criteria[i] is Str || criteria[i] is Null) ==> described_options(q)[i]
                    == py_value(criteria[i], false)
            },
            QuestionView::Noul { criteria, .. } => {
                &&& described_options(q).len() == 2
                &&& keys_in(q)[0] == "true"@ && keys_in(q)[1] == "false"@
                &&& criteria is None ==> described_options(q)[i] == keys_in(q)[i]
                &&& (criteria is Some && find(criteria->0, keys_in(q)[i]) is None)
                    ==> described_options(q)[i] == keys_in(q)[i]
                &&& (criteria is Some && find(criteria->0, keys_in(q)[i]) == Some(
                    Some(JsonView::Str(s)),
                )) ==> described_options(q)[i] == s
            },
        },
{
}

/// Two Scores that differ in the text of a level differ in that level's text.
pub proof fn levels_are_told_apart(
    a: QuestionView,
    b: QuestionView,
    i: int,
    x: Seq<char>,
    y: Seq<char>,
)
    requires
        a is Score,
        b is Score,
        0 <= i < a->Score_criteria.len(),
        i < b->Score_criteria.len(),
        a->Score_criteria[i] == JsonView::Str(x),
        b->Score_criteria[i] == JsonView::Str(y),
        x != y,
    ensures
        described_options(a)[i] != described_options(b)[i],
{
    options_are_read_by_their_descriptions(a, i, x);
    options_are_read_by_their_descriptions(b, i, y);
}

/// A text state is read as it is, and an object as its fields in order, each
/// with its key, a text as it is, and a space between neighbours.
pub proof fn a_state_is_read_as_one_line(m: Seq<(Seq<char>, JsonView)>, s: Seq<char>)
    requires
        forall|i: int| 0 <= i < m.len() ==> (#[trigger] m[i]).1 is Str,
    ensures
        state_line(JsonView::Str(s)) == s,
        state_line(JsonView::Object(m)) == join(
            Seq::new(m.len(), |i: int| m[i].0 + ": "@ + m[i].1->Str_0),
            " "@,
        ),
{
    let parts = m.map_values(|e: (Seq<char>, JsonView)| field_text(e));
    let want = Seq::new(m.len(), |i: int| m[i].0 + ": "@ + m[i].1->Str_0);
    assert forall|i: int| 0 <= i < m.len() implies parts[i] == want[i] by {
        assert(m[i].1 is Str);
    }
    assert(parts =~= want);
}

/// A field of a state that is no text is read as its JSON behind its key.
pub proof fn other_fields_are_read_as_json(k: Seq<char>, v: JsonView)
    requires
        !(v is Str),
    ensures
        state_line(JsonView::Object(seq![(k, v)])) == k + ": "@ + py_value(v, false),
        !(v is Object) ==> state_line(v) == py_value(v, false),
{
    let m = seq![(k, v)];
    let parts = m.map_values(|e: (Seq<char>, JsonView)| field_text(e));
    assert(parts =~= seq![k + ": "@ + py_value(v, false)]);
}

proof fn texts_are_kept(
    state: JsonView,
    qs: Seq<(Seq<char>, QuestionView)>,
    orders: Seq<(Seq<char>, Seq<usize>)>,
    i: nat,
    n: nat,
    x: int,
)
    requires
        i <= n,
        0 <= x < request_texts(state, qs, orders, i).len(),
    ensures
        x < request_texts(state, qs, orders, n).len(),
        request_texts(state, qs, orders, n)[x] == request_texts(state, qs, orders, i)[x],
    decreases n - i,
{
    if i < n {
        texts_are_kept(state, qs, orders, i, (n - 1) as nat, x);
    }
}

/// A built request holds the state's text first, and in every slot of a
/// question the text of the option whose key the question's branch has in that
/// slot.
pub proof fn slots_hold_the_text_of_their_key(
    state: JsonView,
    qs: Seq<(Seq<char>, QuestionView)>,
    orders: Seq<(Seq<char>, Seq<usize>)>,
    i: int,
    s: int,
)
    requires
        build_fault(state, qs, orders) is None,
        0 <= i < qs.len(),
        0 <= s < order_at(qs, orders, i).len(),
    ensures
        ({
            let all = request_texts(state, qs, orders, qs.len());
            let start = request_texts(state, qs, orders, i as nat).len();
            let order = order_at(qs, orders, i);
            let branch = bare_branch(qs[i].0, qs[i].1, order);
            &&& all[0] == state_line(state)
            &&& start + s < all.len()
            &&& all[start + s] == described_options(qs[i].1)[order[s] as int]
            &&& branch.id == qs[i].0
            &&& branch.keys[s] == keys_in(qs[i].1)[order[s] as int]
            &&& branch.order == order
            &&& order.len() == keys_in(qs[i].1).len()
        }),
{
    let before = request_texts(state, qs, orders, i as nat);
    let after = request_texts(state, qs, orders, (i + 1) as nat);
    let order = order_at(qs, orders, i);
    orders_are_checked(qs, orders, i, qs.len());
    request_texts_grow(state, qs, orders, i as nat);
    let x = before.len() + s;
    assert(after[x] == described_options(qs[i].1)[order[s] as int]);
    texts_are_kept(state, qs, orders, (i + 1) as nat, qs.len(), x);
    texts_are_kept(state, qs, orders, 0, qs.len(), 0);
}

/// A sequence starts with the start token and ends with the end token; between
/// them stand the text's tokens, all of them where they fit, else as many from
/// the front as the encoder takes.
pub proof fn frames_hold_the_text(c: E5Config, body: Seq<u32>, i: int)
    requires
        c.max_len >= 2,
        0 <= i < body.len(),
    ensures
        ({
            let f = framed(c, body);
            &&& f.len() <= c.max_len
            &&& f.len() == body.len() + 2 || f.len() == c.max_len
            &&& f[0] == c.cls
            &&& f.last() == c.sep
            &&& i + 2 < f.len() ==> f[i + 1] == body[i]
            &&& body.len() + 2 <= c.max_len ==> f.len() == body.len() + 2 && f[i + 1] == body[i]
        }),
{
}

/// Every option gets the logit of its own pair: the logit of slot `s` of a
/// question is that of the pair of the state and the text in that slot.
pub proof fn options_get_the_logit_of_their_pair(
    state: JsonView,
    qs: Seq<(Seq<char>, QuestionView)>,
    orders: Seq<(Seq<char>, Seq<usize>)>,
    spans: Seq<(usize, usize)>,
    logits: Seq<u32>,
    i: int,
    s: int,
)
    requires
        build_fault(state, qs, orders) is None,
        spans.len() == qs.len(),
        forall|j: int|
            0 <= j < qs.len() ==> (#[trigger] spans[j]).0 == request_texts(
                state,
                qs,
                orders,
                j as nat,
            ).len() && spans[j].1 == keys_in(qs[j].1).len(),
        request_texts(state, qs, orders, qs.len()).len() <= usize::MAX,
        logits.len() == pairs_upto(spans, spans.len()).len(),
        0 <= i < qs.len(),
        0 <= s < spans[i].1,
    ensures
        ({
            let k = spans[i].0 - 1 + s;
            &&& 0 <= k < logits.len()
            &&& pairs_upto(spans, spans.len())[k].0 == 0
            &&& pairs_upto(spans, spans.len())[k].1 == spans[i].0 + s
            &&& question_logits(logits, spans[i]).len() == spans[i].1
            &&& question_logits(logits, spans[i])[s] == logits[k]
        }),
{
    every_option_is_paired(state, qs, orders, spans, qs.len());
    let all = request_texts(state, qs, orders, qs.len());
    let start = request_texts(state, qs, orders, i as nat).len();
    orders_are_checked(qs, orders, i, qs.len());
    request_texts_grow(state, qs, orders, i as nat);
    let last = spans[i].1 - 1;
    slots_hold_the_text_of_their_key(state, qs, orders, i, last);
    slots_hold_the_text_of_their_key(state, qs, orders, i, s);
    assert(logits.len() == all.len() - 1);
}

proof fn merged_are_kept(bs: Seq<Option<Built>>, i: nat, n: nat, x: int)
    requires
        i <= n <= bs.len(),
        0 <= x < merged_texts(bs, i).len(),
    ensures
        x < merged_texts(bs, n).len(),
        merged_texts(bs, n)[x] == merged_texts(bs, i)[x],
    decreases n - i,
{
    if i < n {
        merged_are_kept(bs, i, (n - 1) as nat, x);
    }
}

/// Requests that are evaluated together keep their texts: text `t` of request
/// `i` stands behind the texts of the requests before it, and is kept across
/// requests exactly where it is an option's.
pub proof fn merged_requests_keep_their_texts(bs: Seq<Option<Built>>, i: int, t: int)
    requires
        0 <= i < bs.len(),
        bs[i] is Some,
        0 <= t < bs[i]->0.texts@.len(),
    ensures
        merged_texts(bs, i as nat).len() + t < merged_texts(bs, bs.len()).len(),
        merged_texts(bs, bs.len())[merged_texts(bs, i as nat).len() + t] == bs[i]->0.texts@[t]@,
        merged_cacheable(bs, (i + 1) as nat).len() == merged_texts(bs, (i + 1) as nat).len(),
        merged_cacheable(bs, (i + 1) as nat)[merged_texts(bs, i as nat).len() + t] == (t != 0),
{
    let x = merged_texts(bs, i as nat).len() + t;
    merged_lengths(bs, i as nat);
    merged_lengths(bs, (i + 1) as nat);
    assert(texts(bs[i]->0.texts@)[t] == bs[i]->0.texts@[t]@);
    assert(merged_texts(bs, (i + 1) as nat)[x] == bs[i]->0.texts@[t]@);
    merged_are_kept(bs, (i + 1) as nat, bs.len(), x);
}

proof fn merged_lengths(bs: Seq<Option<Built>>, n: nat)
    requires
        n <= bs.len(),
    ensures
        merged_cacheable(bs, n).len() == merged_texts(bs, n).len(),
    decreases n,
{
    if n > 0 {
        merged_lengths(bs, (n - 1) as nat);
    }
}

/// A repeated text has its original's vector, a fresh one its own.
pub proof fn uploads_are_of_their_text(
    alias: Seq<(usize, usize)>,
    fresh: Seq<(usize, Vec<u32>)>,
    a: int,
    f: int,
)
    requires
        0 <= a < alias.len(),
        0 <= f < fresh.len(),
        alias[a].1 == fresh[f].0,
        alias[a].0 <= u32::MAX,
        fresh[f].0 <= u32::MAX,
        forall|i: int, j: int|
            0 <= i < j < fresh.len() ==> (#[trigger] fresh[i]).0 != (#[trigger] fresh[j]).0,
    ensures
        fresh_uploads(fresh)[f].0 == fresh[f].0,
        fresh_uploads(fresh)[f].1 == fresh[f].1@,
        alias_uploads(alias, fresh)[a].0 == alias[a].0,
        alias_uploads(alias, fresh)[a].1 == fresh[f].1@,
{
    fresh_is_found(fresh, f);
}

proof fn fresh_is_found(fresh: Seq<(usize, Vec<u32>)>, f: int)
    requires
        0 <= f < fresh.len(),
        forall|i: int, j: int|
            0 <= i < j < fresh.len() ==> (#[trigger] fresh[i]).0 != (#[trigger] fresh[j]).0,
    ensures
        fresh_of(fresh, fresh[f].0) == Some(fresh[f].1@),
    decreases fresh.len(),
{
    if f > 0 {
        assert(fresh[0].0 != fresh[f].0);
        let rest = fresh.drop_first();
        assert forall|i: int, j: int| 0 <= i < j < rest.len() implies (#[trigger] rest[i]).0 != (
        #[trigger] rest[j]).0 by {
            assert(fresh[i + 1].0 != fresh[j + 1].0);
        }
        fresh_is_found(rest, f - 1);
        assert(rest[f - 1] == fresh[f]);
    }
}

/// A vector that was kept is found with its token count, and every other text's
/// as before.
pub proof fn kept_vectors_are_found(
    v: Seq<(Seq<char>, Kept)>,
    text: Seq<char>,
    k: Kept,
    other: Seq<char>,
)
    ensures
        find(with_kept(v, text, k), text) == Some(k),
        other != text ==> find(with_kept(v, text, k), other) == find(v, other),
    decreases v.len(),
{
    let w = with_kept(v, text, k);
    if v.len() == 0 {
        assert(find(w.drop_first(), other) is None);
    } else {
        let rest = v.drop_first();
        kept_vectors_are_found(rest, text, k, other);
        if v[0].0 == text {
            assert(w.drop_first() =~= rest);
        } else {
            assert(w.drop_first() =~= with_kept(rest, text, k));
        }
    }
}

/// After an evaluation the last encoded text is known with its vector and its
/// token count where it may be kept, and nothing is kept of it where it may
/// not.
pub proof fn only_what_may_be_kept_is_kept(
    v: Seq<(Seq<char>, Kept)>,
    list: Seq<Seq<char>>,
    cacheable: Seq<bool>,
    fresh: Seq<(usize, Vec<u32>)>,
    tokens: Seq<usize>,
    n: nat,
    other: Seq<char>,
)
    requires
        0 < n <= fresh.len(),
    ensures
        ({
            let i = fresh[n - 1].0 as int;
            let after = kept_after(v, list, cacheable, fresh, tokens, n);
            let before = kept_after(v, list, cacheable, fresh, tokens, (n - 1) as nat);
            &&& cacheable[i] ==> find(after, list[i]) == Some((fresh[n - 1].1@, tokens[i]))
            &&& !cacheable[i] ==> after == before
            &&& other != list[i] ==> find(after, other) == find(before, other)
        }),
{
    let i = fresh[n - 1].0 as int;
    let before = kept_after(v, list, cacheable, fresh, tokens, (n - 1) as nat);
    kept_vectors_are_found(before, list[i], (fresh[n - 1].1@, tokens[i]), other);
}

/// The pairs of a request that is evaluated with others are its own, moved
/// behind the texts of the requests before it.
pub proof fn merged_requests_keep_their_pairs(bs: Seq<Option<Built>>, i: int, k: int)
    requires
        0 <= i < bs.len(),
        bs[i] is Some,
        0 <= k < pairs_upto(bs[i]->0.spans@, bs[i]->0.spans@.len()).len(),
        forall|j: int|
            0 <= j < pairs_upto(bs[i]->0.spans@, bs[i]->0.spans@.len()).len() ==> {
                let p = #[trigger] pairs_upto(bs[i]->0.spans@, bs[i]->0.spans@.len())[j];
                &&& p.0 + merged_texts(bs, i as nat).len() <= usize::MAX
                &&& p.1 + merged_texts(bs, i as nat).len() <= usize::MAX
            },
    ensures
        ({
            let own = pairs_upto(bs[i]->0.spans@, bs[i]->0.spans@.len())[k];
            let all = merged_pairs(bs, (i + 1) as nat);
            let at = merged_pairs(bs, i as nat).len() + k;
            let start = merged_texts(bs, i as nat).len();
            &&& at < all.len()
            &&& all[at].0 == own.0 + start
            &&& all[at].1 == own.1 + start
        }),
{
    let own = pairs_upto(bs[i]->0.spans@, bs[i]->0.spans@.len())[k];
}

/// The tokens of a question are those of its own texts alone, summed.
pub proof fn questions_count_their_own_texts(tokens: Seq<usize>, start: usize, n: usize)
    requires
        start + n + 1 <= tokens.len() <= usize::MAX,
    ensures
        span_tokens(tokens, (start, 0)) == 0,
        span_tokens(tokens, (start, (n + 1) as usize)) == span_tokens(tokens, (start, n))
            + tokens[start + n],
{
    let a = tokens.subrange(start as int, start + n);
    let b = tokens.subrange(start as int, start + n + 1);
    assert(b.drop_last() =~= a);
    counts_agree(a, b, n as nat);
}

proof fn counts_agree(a: Seq<usize>, b: Seq<usize>, n: nat)
    requires
        n <= a.len(),
        n <= b.len(),
        forall|i: int| 0 <= i < n ==> #[trigger] a[i] == b[i],
    ensures
        count_sum(a, n) == count_sum(b, n),
    decreases n,
{
    if n > 0 {
        counts_agree(a, b, (n - 1) as nat);
        assert(a[n - 1] == b[n - 1]);
    }
}

} // verus!

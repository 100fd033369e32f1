//! What the HTTP server decides: who may ask, which models it answers for,
//! what it says on an error, and which queued requests share a pass.

use vstd::prelude::*;
use vstd::string::StringExecFns;

use crate::api::{Question, QuestionView, Request};
use crate::backend::PrefixSource;
use crate::engine::{count_sum, count_sum_grows, Diagnostics, Mode};
use crate::error::{Error, ErrorView};
use crate::json::{
    array_of, as_unsigned, at, field_views, object_of, text_value, views, Json, JsonView,
};
use crate::map::{
    criteria_entries, entry_keys, find, key_list_names, key_lists_of, question_at,
    questions_of,
};
use crate::math::{lists, option_orders, orders_view};
use crate::suite::text_or;
use crate::text::{concat2, decimal, join, join_texts, number_text, push_decimal, quote, quoted, same, texts};

verus! {

/// The names under which the served model answers besides its own.
pub const ALIASES: [&'static str; 3] = ["grande-latest", "jev-latest", "jev-preview"];

/// The release date that the model list gives.
pub const RELEASED: &'static str = "2026-09-19";

/// A reply other than an answer: its status and its body.
#[derive(Debug, PartialEq, Eq)]
pub struct Reply {
    pub status: u16,
    pub body: Json,
}

/// A body with a detail.
pub open spec fn detail_view(v: JsonView) -> JsonView {
    JsonView::Object(seq![("detail"@, v)])
}

/// A body that names a field of the request and what is wrong with it.
pub open spec fn value_error_view(loc: Seq<char>, msg: Seq<char>) -> JsonView {
    detail_view(
        JsonView::Array(
            seq![
                JsonView::Object(
                    seq![
                        (
                            "loc"@,
                            JsonView::Array(seq![JsonView::Str("body"@), JsonView::Str(loc)]),
                        ),
                        ("msg"@, JsonView::Str(msg)),
                        ("type"@, JsonView::Str("value_error"@)),
                    ],
                ),
            ],
        ),
    )
}

fn field(key: &str, v: Json) -> (r: (String, Json))
    ensures
        r.0@ == key@,
        r.1@ == v@,
{
    (key.to_owned(), v)
}

fn detail(v: Json) -> (r: Json)
    ensures
        r@ == detail_view(v@),
{
    let fields: Vec<(String, Json)> = vec![field("detail", v)];
    assert(field_views(fields@) =~= seq![("detail"@, v@)]);
    object_of(fields)
}

fn value_error(loc: &str, msg: &str) -> (r: Json)
    ensures
        r@ == value_error_view(loc@, msg@),
{
    let place: Vec<Json> = vec![text_value("body"), text_value(loc)];
    assert(views(place@) =~= seq![JsonView::Str("body"@), JsonView::Str(loc@)]);
    let fields: Vec<(String, Json)> = vec![
        field("loc", array_of(place)),
        field("msg", text_value(msg)),
        field("type", text_value("value_error")),
    ];
    let ghost want = seq![
        ("loc"@, JsonView::Array(seq![JsonView::Str("body"@), JsonView::Str(loc@)])),
        ("msg"@, JsonView::Str(msg@)),
        ("type"@, JsonView::Str("value_error"@)),
    ];
    assert(field_views(fields@) =~= want);
    let list: Vec<Json> = vec![object_of(fields)];
    assert(views(list@) =~= seq![JsonView::Object(want)]);
    detail(array_of(list))
}

/// The reply when the engine's thread is gone.
pub fn engine_gone() -> (r: Reply)
    ensures
        r.status == 500,
        r.body@ == detail_view(JsonView::Str("engine thread gone"@)),
{
    Reply { status: 500, body: detail(text_value("engine thread gone")) }
}

/// The status of the reply to an error.
pub open spec fn error_status(e: ErrorView) -> u16 {
    match e {
        ErrorView::Backend(m) => 502,
        _ => 422,
    }
}

/// The body of the reply to an error.
pub open spec fn error_body(e: ErrorView) -> JsonView {
    match e {
        ErrorView::Invalid { path, message } => value_error_view(path, message),
        ErrorView::LabelNotSingleToken(l) => value_error_view(
            "questions"@,
            "label "@ + quoted(l) + " is not a single token"@,
        ),
        ErrorView::Backend(m) => detail_view(JsonView::Str(m)),
    }
}

/// The reply to an error of the engine.
pub fn map_err(e: &Error) -> (r: Reply)
    ensures
        r.status == error_status(e@),
        r.body@ == error_body(e@),
{
    match e {
        Error::Invalid { path, message } => Reply {
            status: 422,
            body: value_error(path.as_str(), message.as_str()),
        },
        Error::LabelNotSingleToken(l) => {
            let mut msg: String = concat2("label ", quote(l.as_str()).as_str());
            msg.append(" is not a single token");
            Reply { status: 422, body: value_error("questions", msg.as_str()) }
        },
        Error::Backend(m) => Reply { status: 502, body: detail(text_value(m.as_str())) },
    }
}

/// The server has no key, or the authorization header carries it.
pub open spec fn authorized(key: Option<Seq<char>>, header: Option<Seq<char>>) -> bool {
    match key {
        None => true,
        Some(k) => header == Some("Bearer "@ + k),
    }
}

/// The view of optional text.
pub open spec fn opt_text(s: Option<&str>) -> Option<Seq<char>> {
    match s {
        Some(t) => Some(t@),
        None => None,
    }
}

/// Lets a caller through, or says why not.
pub fn authorize(api_key: Option<&str>, authorization: Option<&str>) -> (r: Result<(), Reply>)
    ensures
        match r {
            Ok(_) => authorized(opt_text(api_key), opt_text(authorization)),
            Err(reply) => {
                &&& !authorized(opt_text(api_key), opt_text(authorization))
                &&& reply.status == 401
                &&& reply.body@ == detail_view(JsonView::Str("invalid or missing API key"@))
            },
        },
{
    match api_key {
        None => Ok(()),
        Some(key) => {
            let ok: bool = match authorization {
                Some(h) => same(h, concat2("Bearer ", key).as_str()),
                None => false,
            };
            if ok {
                Ok(())
            } else {
                Err(Reply { status: 401, body: detail(text_value("invalid or missing API key")) })
            }
        },
    }
}

/// A name that stands for the served model, whatever that is.
pub open spec fn is_alias_view(name: Seq<char>) -> bool {
    name == "grande-latest"@ || name == "jev-latest"@ || name == "jev-preview"@
}

/// A name is one of [`ALIASES`].
pub fn is_alias(name: &str) -> (r: bool)
    ensures
        r == is_alias_view(name@),
{
    let mut i: usize = 0;
    while i < 3
        invariant
            0 <= i <= 3,
            forall|j: int| 0 <= j < i ==> name@ != (#[trigger] ALIASES@[j])@,
        decreases 3 - i,
    {
        if same(name, ALIASES[i]) {
            assert(name@ == ALIASES@[i as int]@);
            assert(ALIASES@[0]@ == "grande-latest"@ && ALIASES@[1]@ == "jev-latest"@
                && ALIASES@[2]@ == "jev-preview"@);
            return true;
        }
        i += 1;
    }
    assert(ALIASES@[0]@ == "grande-latest"@ && ALIASES@[1]@ == "jev-latest"@ && ALIASES@[2]@
        == "jev-preview"@);
    false
}

/// The server takes a request under the name.
pub open spec fn model_known(id: Seq<char>, model: Seq<char>) -> bool {
    is_alias_view(model) || model == id
}

/// The name under which a request is answered.
pub open spec fn model_named(id: Seq<char>, model: Seq<char>) -> Seq<char> {
    if is_alias_view(model) {
        id
    } else {
        model
    }
}

/// A request names the served model or an alias of it, or is told so.
pub fn check_model(model_id: &str, model: &str) -> (r: Result<(), Reply>)
    ensures
        r is Ok <==> model_known(model_id@, model@),
        match r {
            Ok(_) => is_alias_view(model@) || model@ == model_id@,
            Err(reply) => {
                &&& !is_alias_view(model@) && model@ != model_id@
                &&& reply.status == 422
                &&& reply.body@ == value_error_view(
                    "model"@,
                    "unknown model; see GET /v1/models"@,
                )
            },
        },
{
    if is_alias(model) || same(model, model_id) {
        Ok(())
    } else {
        Err(Reply { status: 422, body: value_error("model", "unknown model; see GET /v1/models") })
    }
}

/// The model that a response names: the served one where the request came
/// under an alias.
pub fn response_model(model_id: &str, model: &str) -> (r: String)
    ensures
        r@ == model_named(model_id@, model@),
        r@ == (if is_alias_view(model@) {
            model_id@
        } else {
            model@
        }),
{
    if is_alias(model) {
        model_id.to_owned()
    } else {
        model.to_owned()
    }
}

/// The body of a health check.
pub fn health(model_id: &str) -> (r: Json)
    ensures
        r@ == JsonView::Object(
            seq![("status"@, JsonView::Str("ok"@)), ("model"@, JsonView::Str(model_id@))],
        ),
{
    let fields: Vec<(String, Json)> = vec![
        field("status", text_value("ok")),
        field("model", text_value(model_id)),
    ];
    assert(field_views(fields@) =~= seq![
        ("status"@, JsonView::Str("ok"@)),
        ("model"@, JsonView::Str(model_id@)),
    ]);
    object_of(fields)
}

/// One entry of the model list.
pub open spec fn model_entry_view(name: Seq<char>, description: Seq<char>) -> JsonView {
    JsonView::Object(
        seq![
            ("name"@, JsonView::Str(name)),
            ("description"@, JsonView::Str(description)),
            ("release_date"@, JsonView::Str("2026-09-19"@)),
        ],
    )
}

fn model_entry(name: &str, description: &str) -> (r: Json)
    ensures
        r@ == model_entry_view(name@, description@),
{
    let fields: Vec<(String, Json)> = vec![
        field("name", text_value(name)),
        field("description", text_value(description)),
        field("release_date", text_value(RELEASED)),
    ];
    assert(field_views(fields@) =~= seq![
        ("name"@, JsonView::Str(name@)),
        ("description"@, JsonView::Str(description@)),
        ("release_date"@, JsonView::Str("2026-09-19"@)),
    ]);
    object_of(fields)
}

/// The body of the model list: every alias, then the served model.
pub fn models(model_id: &str) -> (r: Json)
    ensures
        r@ == JsonView::Object(
            seq![
                (
                    "models"@,
                    JsonView::Array(
                        seq![
                            model_entry_view("grande-latest"@, "alias of "@ + model_id@),
                            model_entry_view("jev-latest"@, "alias of "@ + model_id@),
                            model_entry_view("jev-preview"@, "alias of "@ + model_id@),
                            model_entry_view(model_id@, "local grande model"@),
                        ],
                    ),
                ),
            ],
        ),
{
    let about: String = concat2("alias of ", model_id);
    let list: Vec<Json> = vec![
        model_entry(ALIASES[0], about.as_str()),
        model_entry(ALIASES[1], about.as_str()),
        model_entry(ALIASES[2], about.as_str()),
        model_entry(model_id, "local grande model"),
    ];
    let ghost want = seq![
        model_entry_view("grande-latest"@, "alias of "@ + model_id@),
        model_entry_view("jev-latest"@, "alias of "@ + model_id@),
        model_entry_view("jev-preview"@, "alias of "@ + model_id@),
        model_entry_view(model_id@, "local grande model"@),
    ];
    assert(views(list@) =~= want);
    let fields: Vec<(String, Json)> = vec![field("models", array_of(list))];
    assert(field_views(fields@) =~= seq![("models"@, JsonView::Array(want))]);
    object_of(fields)
}

/// Headers as text.
pub open spec fn header_views(h: Seq<(String, String)>) -> Seq<(Seq<char>, Seq<char>)> {
    h.map_values(|e: (String, String)| (e.0@, e.1@))
}

/// A header that is sent where its condition holds.
pub open spec fn header_if(on: bool, name: Seq<char>, value: Seq<char>) -> Seq<
    (Seq<char>, Seq<char>),
> {
    if on {
        seq![(name, value)]
    } else {
        Seq::empty()
    }
}

/// The text of where a state came from.
pub open spec fn source_text(s: Option<PrefixSource>) -> Seq<char> {
    match s {
        Some(PrefixSource::Resident) => "resident"@,
        Some(PrefixSource::Ram) => "ram"@,
        Some(PrefixSource::Disk) => "disk"@,
        Some(PrefixSource::Decoded) => "decoded"@,
        None => Seq::empty(),
    }
}

/// What is reported of a pass besides its diagnostics, in the texts that the
/// numbers print as.
#[derive(Debug)]
pub struct Measured {
    /// The answers were calibrated against a content-free state.
    pub calibrated: bool,
    /// The largest difference between two orders, where one was taken.
    pub order_spread_max: Option<String>,
    /// The smallest probability mass on the candidates, where it is known.
    pub candidate_mass_min: Option<String>,
    pub latency_ms: u64,
}

/// Optional text, empty where there is none.
pub open spec fn text_in(s: Option<String>) -> Seq<char> {
    match s {
        Some(t) => t@,
        None => Seq::empty(),
    }
}

/// The headers of an answer, in the order in which they are set.
pub open spec fn diag_header_view(d: Diagnostics, model: Seq<char>, m: Measured) -> Seq<
    (Seq<char>, Seq<char>),
> {
    let stages = entry_keys(key_lists_of(d.two_stage));
    let rechecked = texts(d.rechecked@);
    seq![
        ("x-grande-backend"@, model),
        ("x-grande-prefix-tokens"@, decimal(d.prefix_tokens as nat)),
        (
            "x-grande-branch-tokens"@,
            decimal(count_sum(d.branch_tokens@, d.branch_tokens@.len())),
        ),
        ("x-grande-passes"@, decimal(d.passes as nat)),
    ] + header_if(m.calibrated, "x-grande-calibrated"@, "contextual"@) + header_if(
        d.prefix_source is Some,
        "x-grande-state"@,
        source_text(d.prefix_source),
    ) + header_if(d.orders > 1, "x-grande-orders"@, decimal(d.orders as nat)) + header_if(
        d.orders > 1 && m.order_spread_max is Some,
        "x-grande-order-spread-max"@,
        text_in(m.order_spread_max),
    ) + header_if(stages.len() > 0, "x-grande-two-stage"@, join(stages, ","@)) + seq![
        (
            "x-grande-batch"@,
            decimal(
                if d.batch == 0 {
                    1
                } else {
                    d.batch as nat
                },
            ),
        ),
    ] + header_if(rechecked.len() > 0, "x-grande-rechecked"@, join(rechecked, ","@)) + seq![
        ("x-grande-latency-ms"@, decimal(m.latency_ms as nat)),
    ] + header_if(
        m.candidate_mass_min is Some,
        "x-grande-candidate-mass-min"@,
        text_in(m.candidate_mass_min),
    )
}

fn put(h: &mut Vec<(String, String)>, name: &str, value: String)
    ensures
        header_views(final(h)@) == header_views(old(h)@) + seq![(name@, value@)],
{
    h.push((name.to_owned(), value));
    assert(header_views(h@) =~= header_views(old(h)@) + seq![(name@, value@)]);
}

fn put_if(h: &mut Vec<(String, String)>, on: bool, name: &str, value: &str)
    ensures
        header_views(final(h)@) == header_views(old(h)@) + header_if(on, name@, value@),
{
    if on {
        put(h, name, value.to_owned());
    } else {
        assert(header_views(h@) =~= header_views(old(h)@) + header_if(on, name@, value@));
    }
}

fn put_some(h: &mut Vec<(String, String)>, on: bool, name: &str, value: &Option<String>)
    ensures
        header_views(final(h)@) == header_views(old(h)@) + header_if(
            on && value is Some,
            name@,
            text_in(*value),
        ),
{
    match value {
        Some(v) => put_if(h, on, name, v.as_str()),
        None => put_if(h, false, name, ""),
    }
}

/// The tokens of every branch together.
fn branch_total(d: &Diagnostics) -> (n: usize)
    requires
        count_sum(d.branch_tokens@, d.branch_tokens@.len()) <= usize::MAX,
    ensures
        n == count_sum(d.branch_tokens@, d.branch_tokens@.len()),
{
    let mut n: usize = 0;
    let mut i: usize = 0;
    while i < d.branch_tokens.len()
        invariant
            0 <= i <= d.branch_tokens@.len(),
            count_sum(d.branch_tokens@, d.branch_tokens@.len()) <= usize::MAX,
            n == count_sum(d.branch_tokens@, i as nat),
        decreases d.branch_tokens@.len() - i,
    {
        proof {
            count_sum_grows(d.branch_tokens@, (i + 1) as nat, d.branch_tokens@.len());
        }
        n += d.branch_tokens[i];
        i += 1;
    }
    n
}

/// The headers that carry an answer's diagnostics.
pub fn diag_headers(d: &Diagnostics, model: &str, m: &Measured) -> (r: Vec<(String, String)>)
    requires
        count_sum(d.branch_tokens@, d.branch_tokens@.len()) <= usize::MAX,
    ensures
        header_views(r@) == diag_header_view(*d, model@, *m),
{
    let mut h: Vec<(String, String)> = Vec::new();
    put(&mut h, "x-grande-backend", model.to_owned());
    put(&mut h, "x-grande-prefix-tokens", number_text(d.prefix_tokens));
    put(&mut h, "x-grande-branch-tokens", number_text(branch_total(d)));
    put(&mut h, "x-grande-passes", number_text(d.passes));
    assert(header_views(h@) =~= seq![
        ("x-grande-backend"@, model@),
        ("x-grande-prefix-tokens"@, decimal(d.prefix_tokens as nat)),
        (
            "x-grande-branch-tokens"@,
            decimal(count_sum(d.branch_tokens@, d.branch_tokens@.len())),
        ),
        ("x-grande-passes"@, decimal(d.passes as nat)),
    ]);
    put_if(&mut h, m.calibrated, "x-grande-calibrated", "contextual");
    match d.prefix_source {
        Some(s) => put_if(&mut h, true, "x-grande-state", s.as_str()),
        None => put_if(&mut h, false, "x-grande-state", ""),
    }
    put_if(&mut h, d.orders > 1, "x-grande-orders", number_text(d.orders).as_str());
    put_some(&mut h, d.orders > 1, "x-grande-order-spread-max", &m.order_spread_max);
    let stages: Vec<String> = key_list_names(&d.two_stage);
    put_if(&mut h, stages.len() > 0, "x-grande-two-stage", join_texts(&stages, ",").as_str());
    let batch: usize = if d.batch == 0 {
        1
    } else {
        d.batch
    };
    put(&mut h, "x-grande-batch", number_text(batch));
    put_if(
        &mut h,
        d.rechecked.len() > 0,
        "x-grande-rechecked",
        join_texts(&d.rechecked, ",").as_str(),
    );
    let mut ms: String = String::new();
    push_decimal(&mut ms, m.latency_ms);
    assert(ms@ =~= decimal(m.latency_ms as nat));
    put(&mut h, "x-grande-latency-ms", ms);
    put_some(&mut h, true, "x-grande-candidate-mass-min", &m.candidate_mass_min);
    h
}

/// A question is a Choice of the request; how many options it has.
pub open spec fn choice_size(req: Request, id: Seq<char>) -> Option<nat> {
    match find(questions_of(req.questions), id) {
        Some(QuestionView::Choice { instructions, criteria }) => Some(criteria.len()),
        _ => None,
    }
}

/// How many orders a probe of option positions asks for: four where it does
/// not say.
pub open spec fn probe_orders(body: JsonView) -> usize {
    match as_unsigned(at(body, "orders"@)) {
        Some(n) => n as usize,
        None => 4,
    }
}

/// What a probe of option positions asks: the question it names, and the
/// orders under which its options are read. An error where the body names no
/// Choice of the request.
pub fn permute(body: &Json, req: &Request) -> (r: Result<(String, Vec<Vec<usize>>), Reply>)
    requires
        ({
            let k = choice_size(*req, text_or(at(body@, "question"@), ""@));
            k is Some ==> 2 * k->0 <= usize::MAX
        }),
    ensures
        ({
            let id = text_or(at(body@, "question"@), ""@);
            match r {
                Ok((q, orders)) => {
                    &&& choice_size(*req, id) is Some
                    &&& q@ == id
                    &&& lists(orders@) == orders_view(
                        choice_size(*req, id)->0,
                        probe_orders(body@) as nat,
                    )
                },
                Err(reply) => {
                    &&& choice_size(*req, id) is None
                    &&& reply.status == 422
                    &&& reply.body@ == detail_view(JsonView::Str("question must name a choice"@))
                },
            }
        }),
{
    let id: String = match body.text_at("question") {
        Some(s) => s.clone(),
        None => "".to_owned(),
    };
    let n: usize = match body.unsigned_at("orders") {
        Some(n) => n as usize,
        None => 4,
    };
    match question_at(&req.questions, id.as_str()) {
        Some(q) => match q {
            Question::Choice { instructions: _, criteria } => {
                let k: usize = criteria_entries(criteria).len();
                return Ok((id, option_orders(k, n)));
            },
            _ => {},
        },
        None => {},
    }
    Err(Reply { status: 422, body: detail(text_value("question must name a choice")) })
}

/// What one order of a probe gave: the order, and every option's probability
/// under its key. Probabilities are bit patterns of doubles.
pub open spec fn probe_result_view(order: Seq<usize>, keys: Seq<Seq<char>>, probs: Seq<u64>) -> JsonView {
    JsonView::Object(
        seq![
            (
                "order"@,
                JsonView::Array(
                    Seq::new(order.len(), |i: int| JsonView::Uint(order[i] as u64)),
                ),
            ),
            (
                "probabilities"@,
                JsonView::Object(
                    Seq::new(keys.len(), |i: int| (keys[i], JsonView::Float(probs[i]))),
                ),
            ),
        ],
    )
}

/// What one order of a probe gave, as JSON.
pub fn probe_result(order: &Vec<usize>, keys: &Vec<String>, probs: &Vec<u64>) -> (r: Json)
    requires
        keys@.len() == probs@.len(),
    ensures
        r@ == probe_result_view(order@, texts(keys@), probs@),
{
    let mut places: Vec<Json> = Vec::new();
    let mut i: usize = 0;
    while i < order.len()
        invariant
            0 <= i <= order@.len(),
            places@.len() == i,
            forall|j: int|
                0 <= j < i ==> (#[trigger] places@[j])@ == JsonView::Uint(order@[j] as u64),
        decreases order@.len() - i,
    {
        places.push(Json::Uint(order[i] as u64));
        i += 1;
    }
    let mut shares: Vec<(String, Json)> = Vec::new();
    let mut i: usize = 0;
    while i < keys.len()
        invariant
            0 <= i <= keys@.len(),
            keys@.len() == probs@.len(),
            shares@.len() == i,
            forall|j: int|
                0 <= j < i ==> (#[trigger] shares@[j]).0@ == keys@[j]@ && shares@[j].1@
                    == JsonView::Float(probs@[j]),
        decreases keys@.len() - i,
    {
        shares.push((keys[i].clone(), Json::Float(probs[i])));
        i += 1;
    }
    let ghost want_places = Seq::new(order@.len(), |i: int| JsonView::Uint(order@[i] as u64));
    let ghost want_shares = Seq::new(
        texts(keys@).len(),
        |i: int| (texts(keys@)[i], JsonView::Float(probs@[i])),
    );
    assert(views(places@) =~= want_places);
    assert(field_views(shares@) =~= want_shares);
    let fields: Vec<(String, Json)> = vec![
        field("order", array_of(places)),
        field("probabilities", object_of(shares)),
    ];
    assert(field_views(fields@) =~= seq![
        ("order"@, JsonView::Array(want_places)),
        ("probabilities"@, JsonView::Object(want_shares)),
    ]);
    object_of(fields)
}

/// The body of the reply to a probe.
pub fn probe_body(question: &str, results: Vec<Json>) -> (r: Json)
    ensures
        r@ == JsonView::Object(
            seq![
                ("question"@, JsonView::Str(question@)),
                ("results"@, JsonView::Array(views(results@))),
            ],
        ),
{
    let ghost rv = views(results@);
    let fields: Vec<(String, Json)> = vec![
        field("question", text_value(question)),
        field("results", array_of(results)),
    ];
    assert(field_views(fields@) =~= seq![
        ("question"@, JsonView::Str(question@)),
        ("results"@, JsonView::Array(rv)),
    ]);
    object_of(fields)
}

/// More of the queue is taken for the coming pass: at least one request, and
/// no more than `max_batch`.
pub fn takes_more(queued: usize, max_batch: usize) -> (r: bool)
    ensures
        r == (queued < max_batch || queued < 1),
{
    queued < max_batch || queued < 1
}

/// What a queued call asks of the engine.
#[derive(Debug, Clone, Copy, PartialEq, Eq, Structural)]
pub enum Service {
    /// An answer in this mode.
    Answer(Mode),
    /// Distributions under given option orders.
    Distributions,
}

/// The places of the calls that share a pass, or of those that do not.
pub open spec fn served(calls: Seq<Service>, together: bool, n: nat) -> Seq<usize>
    decreases n,
{
    if n == 0 {
        Seq::empty()
    } else if (calls[n - 1] == Service::Answer(Mode::Packed)) == together {
        served(calls, together, (n - 1) as nat).push((n - 1) as usize)
    } else {
        served(calls, together, (n - 1) as nat)
    }
}

/// Sorts queued calls: those that are served one by one, in order, and those
/// that then share a pass.
pub fn sort_queue(calls: &Vec<Service>) -> (r: (Vec<usize>, Vec<usize>))
    ensures
        r.0@ == served(calls@, false, calls@.len()),
        r.1@ == served(calls@, true, calls@.len()),
{
    let mut alone: Vec<usize> = Vec::new();
    let mut together: Vec<usize> = Vec::new();
    let mut i: usize = 0;
    while i < calls.len()
        invariant
            0 <= i <= calls@.len(),
            alone@ == served(calls@, false, i as nat),
            together@ == served(calls@, true, i as nat),
        decreases calls@.len() - i,
    {
        if calls[i] == Service::Answer(Mode::Packed) {
            together.push(i);
        } else {
            alone.push(i);
        }
        i += 1;
    }
    (alone, together)
}

/// Every queued call is served, on exactly one of the two ways.
pub proof fn every_call_is_served(calls: Seq<Service>, n: nat, i: int)
    requires
        n <= calls.len() <= usize::MAX,
        0 <= i < n,
    ensures
        served(calls, true, n).contains(i as usize) <==> calls[i] == Service::Answer(Mode::Packed),
        served(calls, false, n).contains(i as usize) <==> calls[i] != Service::Answer(Mode::Packed),
        served(calls, true, n).len() + served(calls, false, n).len() == n,
    decreases n,
{
    let m = (n - 1) as nat;
    served_bound(calls, true, m);
    served_bound(calls, false, m);
    let on = calls[n - 1] == Service::Answer(Mode::Packed);
    let before = served(calls, on, m);
    let grown = served(calls, on, n);
    assert(grown == before.push(m as usize));
    assert(grown[before.len() as int] == m as usize);
    if i < n - 1 {
        every_call_is_served(calls, m, i);
        if before.contains(i as usize) {
            let k = choose|k: int| 0 <= k < before.len() && before[k] == i as usize;
            assert(grown[k] == i as usize);
        }
        if grown.contains(i as usize) {
            let k = choose|k: int| 0 <= k < grown.len() && grown[k] == i as usize;
            assert(before[k] == i as usize);
        }
    } else {
        assert(!served(calls, !on, m).contains(m as usize));
        if n > 1 {
            every_call_is_served(calls, m, 0);
        }
    }
}

proof fn served_bound(calls: Seq<Service>, together: bool, n: nat)
    requires
        n <= calls.len() <= usize::MAX,
    ensures
        forall|k: int|
            0 <= k < served(calls, together, n).len() ==> #[trigger] served(calls, together, n)[k]
                < n,
    decreases n,
{
    if n > 0 {
        let m = (n - 1) as nat;
        served_bound(calls, together, m);
        let before = served(calls, together, m);
        assert forall|k: int| 0 <= k < served(calls, together, n).len() implies #[trigger] served(
            calls,
            together,
            n,
        )[k] < n by {
            if k < before.len() {
                assert(before[k] < m);
            }
        }
    }
}

/// A caller's fault is answered with where it lies and what it is, a backend's
/// with what the backend says; they have statuses of their own.
pub proof fn errors_say_what_is_wrong(e: ErrorView)
    ensures
        e is Invalid ==> error_status(e) == 422 && at(error_body(e), "detail"@) is Array && at(
            error_body(e),
            "detail"@,
        )->Array_0.len() == 1 && ({
            let d = at(error_body(e), "detail"@)->Array_0[0];
            &&& at(d, "loc"@) == JsonView::Array(
                seq![JsonView::Str("body"@), JsonView::Str(e->Invalid_path)],
            )
            &&& at(d, "msg"@) == JsonView::Str(e->Invalid_message)
            &&& at(d, "type"@) == JsonView::Str("value_error"@)
        }),
        e is Backend ==> error_status(e) == 502 && at(error_body(e), "detail"@) == JsonView::Str(
            e->Backend_0,
        ),
        e is LabelNotSingleToken ==> error_status(e) == 422,
{
    reveal_strlit("loc");
    reveal_strlit("msg");
    reveal_strlit("type");
    assert("loc"@[0] != "msg"@[0] && "type"@.len() == 4 && "loc"@.len() == 3 && "msg"@.len() == 3);
    reveal_with_fuel(find, 4);
    if e is Invalid {
        let d = at(error_body(e), "detail"@)->Array_0[0];
        let es = d->Object_0;
        assert(es.drop_first()[0] == es[1]);
        assert(es.drop_first().drop_first()[0] == es[2]);
    }
}

/// Without a key everyone may ask; with one, exactly the header that bears it
/// lets in, so that a header lets in under one key at most.
pub proof fn the_key_alone_lets_in(k: Seq<char>, j: Seq<char>, h: Option<Seq<char>>)
    ensures
        authorized(None, h),
        !authorized(Some(k), None),
        authorized(Some(k), Some("Bearer "@ + k)),
        authorized(Some(k), h) && authorized(Some(j), h) ==> k == j,
{
    if authorized(Some(k), h) && authorized(Some(j), h) {
        let lead = "Bearer "@;
        assert(k =~= (lead + k).skip(lead.len() as int));
        assert(j =~= (lead + j).skip(lead.len() as int));
    }
}

/// The served model answers under the names that are listed, and no others.
pub proof fn aliases_are_the_listed_names(name: Seq<char>, i: int)
    requires
        0 <= i < 3,
    ensures
        is_alias_view(ALIASES@[i]@),
        is_alias_view(name) ==> name == ALIASES@[0]@ || name == ALIASES@[1]@ || name
            == ALIASES@[2]@,
{
}

/// The headers report the run: the model, the tokens of the prefix and of the
/// branches, the passes, the company and the time always; the rest exactly
/// where there is something to report.
#[verifier::rlimit(60)]
pub proof fn headers_report_the_run(d: Diagnostics, model: Seq<char>, m: Measured)
    ensures
        ({
            let h = diag_header_view(d, model, m);
            let stages = entry_keys(key_lists_of(d.two_stage));
            let tokens = count_sum(d.branch_tokens@, d.branch_tokens@.len());
            let one = |b: bool|
                if b {
                    1int
                } else {
                    0int
                };
            &&& h.contains(("x-grande-backend"@, model))
            &&& h.contains(("x-grande-prefix-tokens"@, decimal(d.prefix_tokens as nat)))
            &&& h.contains(("x-grande-branch-tokens"@, decimal(tokens)))
            &&& h.contains(("x-grande-passes"@, decimal(d.passes as nat)))
            &&& h.contains(("x-grande-latency-ms"@, decimal(m.latency_ms as nat)))
            &&& d.batch > 0 ==> h.contains(("x-grande-batch"@, decimal(d.batch as nat)))
            &&& d.batch == 0 ==> h.contains(("x-grande-batch"@, decimal(1)))
            &&& m.calibrated ==> h.contains(("x-grande-calibrated"@, "contextual"@))
            &&& d.prefix_source == Some(PrefixSource::Ram) ==> h.contains(("x-grande-state"@, "ram"@))
            &&& d.prefix_source == Some(PrefixSource::Disk) ==> h.contains(
                ("x-grande-state"@, "disk"@),
            )
            &&& d.prefix_source == Some(PrefixSource::Resident) ==> h.contains(
                ("x-grande-state"@, "resident"@),
            )
            &&& d.prefix_source == Some(PrefixSource::Decoded) ==> h.contains(
                ("x-grande-state"@, "decoded"@),
            )
            &&& d.orders > 1 ==> h.contains(("x-grande-orders"@, decimal(d.orders as nat)))
            &&& d.orders > 1 && m.order_spread_max is Some ==> h.contains(
                ("x-grande-order-spread-max"@, m.order_spread_max->0@),
            )
            &&& stages.len() > 0 ==> h.contains(("x-grande-two-stage"@, join(stages, ","@)))
            &&& d.rechecked@.len() > 0 ==> h.contains(
                ("x-grande-rechecked"@, join(texts(d.rechecked@), ","@)),
            )
            &&& m.candidate_mass_min is Some ==> h.contains(
                ("x-grande-candidate-mass-min"@, m.candidate_mass_min->0@),
            )
            &&& h.len() == 6 + one(m.calibrated) + one(d.prefix_source is Some) + one(d.orders > 1)
                + one(d.orders > 1 && m.order_spread_max is Some) + one(stages.len() > 0) + one(
                d.rechecked@.len() > 0,
            ) + one(m.candidate_mass_min is Some)
        }),
{
    let stages = entry_keys(key_lists_of(d.two_stage));
    let rechecked = texts(d.rechecked@);
    let tokens = count_sum(d.branch_tokens@, d.branch_tokens@.len());
    let p0 = seq![
        ("x-grande-backend"@, model),
        ("x-grande-prefix-tokens"@, decimal(d.prefix_tokens as nat)),
        ("x-grande-branch-tokens"@, decimal(tokens)),
        ("x-grande-passes"@, decimal(d.passes as nat)),
    ];
    let p1 = header_if(m.calibrated, "x-grande-calibrated"@, "contextual"@);
    let p2 = header_if(d.prefix_source is Some, "x-grande-state"@, source_text(d.prefix_source));
    let p3 = header_if(d.orders > 1, "x-grande-orders"@, decimal(d.orders as nat));
    let p4 = header_if(
        d.orders > 1 && m.order_spread_max is Some,
        "x-grande-order-spread-max"@,
        text_in(m.order_spread_max),
    );
    let p5 = header_if(stages.len() > 0, "x-grande-two-stage"@, join(stages, ","@));
    let p6 = seq![
        (
            "x-grande-batch"@,
            decimal(
                if d.batch == 0 {
                    1
                } else {
                    d.batch as nat
                },
            ),
        ),
    ];
    let p7 = header_if(rechecked.len() > 0, "x-grande-rechecked"@, join(rechecked, ","@));
    let p8 = seq![("x-grande-latency-ms"@, decimal(m.latency_ms as nat))];
    let p9 = header_if(
        m.candidate_mass_min is Some,
        "x-grande-candidate-mass-min"@,
        text_in(m.candidate_mass_min),
    );
    let s1 = p0 + p1;
    let s2 = s1 + p2;
    let s3 = s2 + p3;
    let s4 = s3 + p4;
    let s5 = s4 + p5;
    let s6 = s5 + p6;
    let s7 = s6 + p7;
    let s8 = s7 + p8;
    assert(diag_header_view(d, model, m) == s8 + p9);
    both_are_held(p0, p1);
    both_are_held(s1, p2);
    both_are_held(s2, p3);
    both_are_held(s3, p4);
    both_are_held(s4, p5);
    both_are_held(s5, p6);
    both_are_held(s6, p7);
    both_are_held(s7, p8);
    both_are_held(s8, p9);
    assert(p0.contains(p0[0]) && p0.contains(p0[1]) && p0.contains(p0[2]) && p0.contains(p0[3]));
    assert(m.calibrated ==> p1.contains(p1[0]));
    assert(d.prefix_source is Some ==> p2.contains(p2[0]));
    assert(d.orders > 1 ==> p3.contains(p3[0]));
    assert(d.orders > 1 && m.order_spread_max is Some ==> p4.contains(p4[0]));
    assert(stages.len() > 0 ==> p5.contains(p5[0]));
    assert(p6.contains(p6[0]));
    assert(rechecked.len() > 0 ==> p7.contains(p7[0]));
    assert(p8.contains(p8[0]));
    assert(m.candidate_mass_min is Some ==> p9.contains(p9[0]));
}

proof fn both_are_held(a: Seq<(Seq<char>, Seq<char>)>, b: Seq<(Seq<char>, Seq<char>)>)
    ensures
        forall|x: (Seq<char>, Seq<char>)|
            a.contains(x) || b.contains(x) ==> #[trigger] (a + b).contains(x),
        (a + b).len() == a.len() + b.len(),
{
    assert forall|x: (Seq<char>, Seq<char>)| a.contains(x) || b.contains(x) implies #[trigger] (a
        + b).contains(x) by {
        if a.contains(x) {
            let i = a.index_of(x);
            assert((a + b)[i] == x);
        } else {
            let i = b.index_of(x);
            assert((a + b)[a.len() + i] == x);
        }
    }
}

/// A probe reports its order, and every option's probability under the option's
/// own key.
pub proof fn probes_report_every_option(
    order: Seq<usize>,
    keys: Seq<Seq<char>>,
    probs: Seq<u64>,
    i: int,
)
    requires
        keys.len() == probs.len(),
        0 <= i < keys.len(),
        keys.no_duplicates(),
    ensures
        at(at(probe_result_view(order, keys, probs), "probabilities"@), keys[i]) == JsonView::Float(
            probs[i],
        ),
        at(probe_result_view(order, keys, probs), "order"@) is Array,
        at(probe_result_view(order, keys, probs), "order"@)->Array_0.len() == order.len(),
        i < order.len() ==> at(probe_result_view(order, keys, probs), "order"@)->Array_0[i]
            == JsonView::Uint(order[i] as u64),
{
    reveal_strlit("order");
    reveal_strlit("probabilities");
    assert("order"@.len() != "probabilities"@.len());
    reveal_with_fuel(find, 3);
    let es = probe_result_view(order, keys, probs)->Object_0;
    assert(es.drop_first()[0] == es[1]);
    let ps = Seq::new(keys.len(), |k: int| (keys[k], JsonView::Float(probs[k])));
    found_by_key(ps, i);
}

proof fn found_by_key(ps: Seq<(Seq<char>, JsonView)>, i: int)
    requires
        0 <= i < ps.len(),
        forall|a: int, b: int| 0 <= a < b < ps.len() ==> (#[trigger] ps[a]).0 != (#[trigger] ps[b]).0,
    ensures
        find(ps, ps[i].0) == Some(ps[i].1),
    decreases ps.len(),
{
    if i > 0 {
        assert(ps[0].0 != ps[i].0);
        let rest = ps.drop_first();
        assert forall|a: int, b: int| 0 <= a < b < rest.len() implies (#[trigger] rest[a]).0 != (
        #[trigger] rest[b]).0 by {
            assert(ps[a + 1].0 != ps[b + 1].0);
        }
        found_by_key(rest, i - 1);
    }
}

/// The served model answers to its own name and to every alias, and whatever
/// name it was asked by, the response names the served model.
pub proof fn responses_name_the_served_model(id: Seq<char>, asked: Seq<char>)
    ensures
        model_known(id, id),
        is_alias_view(asked) ==> model_known(id, asked),
        model_known(id, asked) ==> model_named(id, asked) == id,
        !model_known(id, asked) ==> asked != id && !is_alias_view(asked),
{
}

/// A probe asks in as many orders as it says, and in four where it does not.
pub proof fn probes_ask_in_the_orders_they_say(body: JsonView, n: u64)
    requires
        n <= usize::MAX,
    ensures
        at(body, "orders"@) == JsonView::Uint(n) ==> probe_orders(body) == n,
        at(body, "orders"@) is Null ==> probe_orders(body) == 4,
{
}

/// A question asks to choose among as many options as it describes; a
/// question that is not asked, or asks for something else, among none.
pub proof fn choices_are_as_large_as_their_criteria(req: Request, id: Seq<char>)
    ensures
        match find(questions_of(req.questions), id) {
            Some(q) => (choice_size(req, id) is Some <==> q is Choice) && (q is Choice
                ==> choice_size(req, id) == Some(q->Choice_criteria.len())),
            None => choice_size(req, id) is None,
        },
{
}

} // verus!

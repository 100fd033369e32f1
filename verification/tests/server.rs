use grande::api::{Question, Request};
use grande::backend::PrefixSource;
use grande::engine::{Diagnostics, Mode};
use grande::error::Error;
use grande::json::Json;
use grande::server::{
    authorize, check_model, diag_headers, engine_gone, health, is_alias, map_err, models, permute,
    probe_body, probe_result, response_model, sort_queue, takes_more, Measured, Service,
};
use indexmap::IndexMap;

fn text(s: &str) -> Json {
    Json::Str(s.to_string())
}

fn object(fields: Vec<(&str, Json)>) -> Json {
    Json::Object(fields.into_iter().map(|(k, v)| (k.to_string(), v)).collect())
}

fn detail(v: Json) -> Json {
    object(vec![("detail", v)])
}

fn value_error(loc: &str, msg: &str) -> Json {
    detail(Json::Array(vec![object(vec![
        ("loc", Json::Array(vec![text("body"), text(loc)])),
        ("msg", text(msg)),
        ("type", text("value_error")),
    ])]))
}

#[test]
fn errors_are_answered_with_their_status() {
    let r = map_err(&Error::invalid("questions.q", "bad"));
    assert_eq!((r.status, r.body), (422, value_error("questions.q", "bad")));
    let r = map_err(&Error::LabelNotSingleToken("A".to_string()));
    assert_eq!(
        (r.status, r.body),
        (422, value_error("questions", "label \"A\" is not a single token"))
    );
    let r = map_err(&Error::Backend("out of memory".to_string()));
    assert_eq!((r.status, r.body), (502, detail(text("out of memory"))));
    let r = engine_gone();
    assert_eq!((r.status, r.body), (500, detail(text("engine thread gone"))));
}

#[test]
fn a_key_is_asked_for_where_there_is_one() {
    assert!(authorize(None, None).is_ok());
    assert!(authorize(None, Some("Bearer x")).is_ok());
    assert!(authorize(Some("k"), Some("Bearer k")).is_ok());
    for header in [None, Some("k"), Some("Bearer "), Some("Bearer kk"), Some("bearer k")] {
        let r = authorize(Some("k"), header).unwrap_err();
        assert_eq!((r.status, r.body), (401, detail(text("invalid or missing API key"))));
    }
}

#[test]
fn the_model_answers_to_its_aliases() {
    for name in ["grande-latest", "jev-latest", "jev-preview"] {
        assert!(is_alias(name));
        assert!(check_model("e2b", name).is_ok());
        assert_eq!(response_model("e2b", name), "e2b");
    }
    assert!(check_model("e2b", "e2b").is_ok());
    assert_eq!(response_model("e2b", "e2b"), "e2b");
    let r = check_model("e2b", "gpt").unwrap_err();
    assert_eq!(
        (r.status, r.body),
        (422, value_error("model", "unknown model; see GET /v1/models"))
    );
}

#[test]
fn the_model_list_ends_with_the_model() {
    assert_eq!(
        health("e2b"),
        object(vec![("status", text("ok")), ("model", text("e2b"))])
    );
    let list = models("e2b");
    let Some(all) = list.list_at("models") else { panic!() };
    assert_eq!(all.len(), 4);
    assert_eq!(
        all[0],
        object(vec![
            ("name", text("grande-latest")),
            ("description", text("alias of e2b")),
            ("release_date", text("2026-09-19")),
        ])
    );
    assert_eq!(all[3].text_at("name").unwrap(), "e2b");
    assert_eq!(all[3].text_at("description").unwrap(), "local grande model");
}

fn diag() -> Diagnostics {
    Diagnostics {
        prefix_tokens: 12,
        branch_tokens: vec![3, 4],
        passes: 1,
        prefix_source: None,
        orders: 1,
        two_stage: IndexMap::new(),
        batch: 0,
        rechecked: Vec::new(),
    }
}

fn shown(h: Vec<(String, String)>) -> Vec<String> {
    h.into_iter().map(|(k, v)| format!("{k}={v}")).collect()
}

#[test]
fn plain_answers_have_plain_headers() {
    let m = Measured {
        calibrated: false,
        order_spread_max: Some("0.5000".to_string()),
        candidate_mass_min: None,
        latency_ms: 20,
    };
    assert_eq!(
        shown(diag_headers(&diag(), "e2b", &m)),
        vec![
            "x-grande-backend=e2b",
            "x-grande-prefix-tokens=12",
            "x-grande-branch-tokens=7",
            "x-grande-passes=1",
            "x-grande-batch=1",
            "x-grande-latency-ms=20",
        ]
    );
}

#[test]
fn headers_tell_how_an_answer_came_about() {
    let mut d = diag();
    d.prefix_source = Some(PrefixSource::Disk);
    d.orders = 3;
    d.batch = 4;
    d.rechecked = vec!["a".to_string(), "b".to_string()];
    d.two_stage.insert("big".to_string(), vec!["x".to_string()]);
    d.two_stage.insert("huge".to_string(), vec![]);
    let m = Measured {
        calibrated: true,
        order_spread_max: Some("0.1250".to_string()),
        candidate_mass_min: Some("0.9900".to_string()),
        latency_ms: 0,
    };
    assert_eq!(
        shown(diag_headers(&d, "e2b", &m))[4..],
        [
            "x-grande-calibrated=contextual",
            "x-grande-state=disk",
            "x-grande-orders=3",
            "x-grande-order-spread-max=0.1250",
            "x-grande-two-stage=big,huge",
            "x-grande-batch=4",
            "x-grande-rechecked=a,b",
            "x-grande-latency-ms=0",
            "x-grande-candidate-mass-min=0.9900",
        ]
    );
}

fn probe_request() -> Request {
    let mut criteria = IndexMap::new();
    criteria.insert("x".to_string(), None);
    criteria.insert("y".to_string(), None);
    let mut questions = IndexMap::new();
    questions.insert("pick".to_string(), Question::Choice { instructions: None, criteria });
    questions.insert(
        "yes".to_string(),
        Question::Noul { instructions: Some(text("?")), criteria: None },
    );
    Request { model: "e2b".to_string(), state: text("s"), questions }
}

#[test]
fn a_probe_reads_a_choice_under_several_orders() {
    let req = probe_request();
    let body = object(vec![("question", text("pick"))]);
    let (id, orders) = permute(&body, &req).unwrap();
    assert_eq!(id, "pick");
    assert_eq!(orders, vec![vec![0, 1], vec![1, 0]]);
    let body = object(vec![("question", text("pick")), ("orders", Json::Uint(1))]);
    assert_eq!(permute(&body, &req).unwrap().1, vec![vec![0, 1]]);
    for name in ["yes", "none"] {
        let r = permute(&object(vec![("question", text(name))]), &req).unwrap_err();
        assert_eq!((r.status, r.body), (422, detail(text("question must name a choice"))));
    }
    assert!(permute(&Json::Null, &req).is_err());
}

#[test]
fn a_probe_reports_each_order() {
    let one = probe_result(
        &vec![1, 0],
        &vec!["y".to_string(), "x".to_string()],
        &vec![0.75f64.to_bits(), 0.25f64.to_bits()],
    );
    assert_eq!(
        one,
        object(vec![
            ("order", Json::Array(vec![Json::Uint(1), Json::Uint(0)])),
            (
                "probabilities",
                object(vec![
                    ("y", Json::Float(0.75f64.to_bits())),
                    ("x", Json::Float(0.25f64.to_bits())),
                ])
            ),
        ])
    );
    assert_eq!(
        probe_body("pick", vec![Json::Null]),
        object(vec![("question", text("pick")), ("results", Json::Array(vec![Json::Null]))])
    );
}

#[test]
fn queued_requests_share_a_pass() {
    assert!(takes_more(0, 0));
    assert!(!takes_more(1, 0));
    assert!(takes_more(31, 32));
    assert!(!takes_more(32, 32));
    let calls = vec![
        Service::Answer(Mode::Packed),
        Service::Distributions,
        Service::Answer(Mode::Separate),
        Service::Answer(Mode::Packed),
    ];
    assert_eq!(sort_queue(&calls), (vec![1, 2], vec![0, 3]));
    assert_eq!(sort_queue(&vec![]), (vec![], vec![]));
}

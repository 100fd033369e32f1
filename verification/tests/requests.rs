use grande::api::{content_text, default_model, state_text, Question, Request};
use grande::error::{backend_err, Error, LoadError};
use grande::json::{read_json, Json};
use indexmap::IndexMap;

fn text(s: &str) -> Json {
    Json::Str(s.to_string())
}

fn object(fields: Vec<(&str, Json)>) -> Json {
    Json::Object(fields.into_iter().map(|(k, v)| (k.to_string(), v)).collect())
}

fn request(state: Json, questions: Vec<(&str, Question)>) -> Request {
    Request {
        model: default_model(),
        state,
        questions: questions.into_iter().map(|(k, q)| (k.to_string(), q)).collect(),
    }
}

fn fault(r: Result<(), Error>) -> (String, String) {
    match r {
        Err(Error::Invalid { path, message }) => (path, message),
        other => panic!("{other:?}"),
    }
}

fn noul(about: &str) -> Question {
    Question::Noul { instructions: Some(text(about)), criteria: None }
}

fn choice(n: usize) -> Question {
    Question::Choice {
        instructions: None,
        criteria: (0..n).map(|i| (format!("k{i}"), None)).collect(),
    }
}

fn score(n: usize) -> Question {
    Question::Score { instructions: None, criteria: vec![text("level"); n] }
}

#[test]
fn a_state_is_text_or_structure() {
    let ask = || vec![("q", noul("is it so"))];
    assert!(request(text("s"), ask()).validate().is_ok());
    assert!(request(object(vec![]), ask()).validate().is_ok());
    assert!(request(Json::Array(vec![]), ask()).validate().is_ok());
    for state in [Json::Null, Json::Bool(true), Json::Uint(1), Json::Int(-1)] {
        assert_eq!(
            fault(request(state, ask()).validate()),
            ("state".to_string(), "expected string, object or array".to_string())
        );
    }
}

#[test]
fn a_request_asks_something() {
    assert_eq!(
        fault(request(text("s"), vec![]).validate()),
        ("questions".to_string(), "expected a nonempty question map".to_string())
    );
    assert_eq!(default_model(), "grande-latest");
}

#[test]
fn a_choice_has_one_to_255_options() {
    for (n, ok) in [(0, false), (1, true), (255, true), (256, false)] {
        let r = request(text("s"), vec![("fine", noul("x")), ("pick", choice(n))]).validate();
        if ok {
            assert!(r.is_ok());
        } else {
            assert_eq!(
                fault(r),
                (
                    "questions.pick.criteria".to_string(),
                    "choice requires 1..255 options".to_string()
                )
            );
        }
    }
}

#[test]
fn a_score_has_two_to_ten_levels() {
    for (n, ok) in [(1, false), (2, true), (10, true), (11, false)] {
        let r = request(text("s"), vec![("rate", score(n))]).validate();
        if ok {
            assert!(r.is_ok());
        } else {
            assert_eq!(
                fault(r),
                (
                    "questions.rate.criteria".to_string(),
                    "score requires 2..10 ordered levels".to_string()
                )
            );
        }
    }
}

#[test]
fn a_noul_says_what_it_asks() {
    let bare = Question::Noul { instructions: None, criteria: None };
    assert_eq!(
        fault(request(text("s"), vec![("q", bare)]).validate()),
        ("questions.q".to_string(), "noul requires instructions or criteria".to_string())
    );
    let empty = Question::Noul { instructions: None, criteria: Some(IndexMap::new()) };
    assert_eq!(
        fault(request(text("s"), vec![("q", empty)]).validate()).1,
        "noul requires instructions or criteria"
    );
    let mut only_true = IndexMap::new();
    only_true.insert("true".to_string(), Some(text("it holds")));
    let fine = Question::Noul { instructions: None, criteria: Some(only_true) };
    assert!(request(text("s"), vec![("q", fine)]).validate().is_ok());
    let mut odd = IndexMap::new();
    odd.insert("maybe".to_string(), None);
    let odd = Question::Noul { instructions: Some(text("x")), criteria: Some(odd) };
    assert_eq!(
        fault(request(text("s"), vec![("q", odd)]).validate()),
        (
            "questions.q.criteria".to_string(),
            "only true and false keys are allowed".to_string()
        )
    );
}

#[test]
fn the_first_fault_is_the_error() {
    let r = request(text("s"), vec![("a", score(1)), ("b", choice(0))]).validate();
    assert_eq!(fault(r).0, "questions.a.criteria");
}

#[test]
fn content_is_text_or_compact_json() {
    assert_eq!(content_text(&text("as it is")), "as it is");
    assert_eq!(content_text(&Json::Null), "");
    assert_eq!(content_text(&Json::Int(-3)), "-3");
    assert_eq!(content_text(&Json::Float(1.5f64.to_bits())), "1.5");
    assert_eq!(
        content_text(&object(vec![
            ("b", Json::Array(vec![Json::Uint(1), Json::Null])),
            ("a", text("日本")),
        ])),
        "{\"b\":[1,null],\"a\":\"日本\"}"
    );
}

#[test]
fn a_state_reads_as_path_lines() {
    let state = object(vec![
        (
            "ticket",
            object(vec![
                ("id", Json::Uint(7)),
                (
                    "messages",
                    Json::Array(vec![
                        object(vec![("text", text("hello"))]),
                        object(vec![("text", text("bye")), ("seen", Json::Bool(false))]),
                    ]),
                ),
                ("tags", Json::Array(vec![])),
            ]),
        ),
        ("note", Json::Null),
    ]);
    assert_eq!(
        state_text(&state),
        "ticket.id: 7\nticket.messages[0].text: hello\nticket.messages[1].text: bye\nticket.messages[1].seen: false\nticket.tags: []\nnote: "
    );
    assert_eq!(state_text(&object(vec![])), "");
    assert_eq!(state_text(&text("plain")), "plain");
    assert_eq!(state_text(&Json::Array(vec![Json::Uint(1)])), "[1]");
}

#[test]
fn errors_say_what_is_wrong() {
    assert_eq!(
        Error::invalid("state", "bad").text(),
        "invalid request at state: bad"
    );
    assert_eq!(Error::Backend("gone".to_string()).text(), "backend: gone");
    assert_eq!(
        Error::LabelNotSingleToken("a\"b\n".to_string()).text(),
        "label \"a\\\"b\\n\" is not a single token"
    );
    assert_eq!(
        backend_err(LoadError::new("lost".to_string())),
        Error::Backend("lost".to_string())
    );
}

#[test]
fn json_text_is_read() {
    let v = read_json(b"{\"n\": -1, \"u\": 18446744073709551615, \"x\": 0.5, \"a\": [true, null]}", "x")
        .unwrap();
    assert_eq!(
        v,
        object(vec![
            ("n", Json::Int(-1)),
            ("u", Json::Uint(u64::MAX)),
            ("x", Json::Float(0.5f64.to_bits())),
            ("a", Json::Array(vec![Json::Bool(true), Json::Null])),
        ])
    );
    assert_eq!(v.unsigned_at("u"), Some(u64::MAX));
    assert_eq!(v.unsigned_at("n"), None);
    assert_eq!(v.double_at("n"), Some((-1.0f64).to_bits()));
    assert_eq!(v.double_at("a"), None);
    assert!(v.get("absent").is_none());
    assert_eq!(
        read_json(b"{", "config.json").unwrap_err().message,
        "config.json: EOF while parsing an object at line 1 column 1"
    );
}

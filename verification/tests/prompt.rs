use grande::api::Question;
use grande::json::Json;
use grande::prompt::render_options;
use grande::pyjson::py_json;
use grande::tokenize::neutralize_specials;
use indexmap::IndexMap;

fn text(s: &str) -> Json {
    Json::Str(s.to_string())
}

fn float(x: f64) -> Json {
    Json::Float(x.to_bits())
}

#[test]
fn python_json_separators_and_escapes() {
    let v = Json::Object(vec![
        ("a".to_string(), Json::Uint(1)),
        (
            "b".to_string(),
            Json::Array(vec![float(1.5), text("x\"y"), Json::Null, Json::Bool(true)]),
        ),
        ("日本".to_string(), text("語\n")),
    ]);
    assert_eq!(
        py_json(&v, false),
        "{\"a\": 1, \"b\": [1.5, \"x\\\"y\", null, true], \"日本\": \"語\\n\"}"
    );
    assert_eq!(py_json(&text("日"), true), "\"\\u65e5\"");
    assert_eq!(py_json(&float(2.0), false), "2.0");
    assert_eq!(py_json(&float(1e16), false), "1e+16");
    assert_eq!(py_json(&float(1e-7), false), "1e-07");
}

#[test]
fn options_render_like_upstream() {
    let mut criteria = IndexMap::new();
    criteria.insert("a".to_string(), Some(text("desc")));
    criteria.insert("b".to_string(), None);
    criteria.insert("c".to_string(), Some(text("")));
    criteria.insert(
        "d".to_string(),
        Some(Json::Object(vec![("k".to_string(), Json::Uint(1))])),
    );
    let q = Question::Choice { instructions: Some(text("i")), criteria };
    assert_eq!(render_options(&q), vec!["a: desc", "b", "c", "d: {\"k\": 1}"]);
    let q = Question::Noul { instructions: Some(text("i")), criteria: None };
    assert_eq!(
        render_options(&q),
        vec![
            "false: no, the statement does not hold",
            "true: yes, the statement holds"
        ]
    );
    let q = Question::Score {
        instructions: Some(text("i")),
        criteria: vec![text("low"), text("high")],
    };
    assert_eq!(render_options(&q), vec!["level 0: low", "level 1: high"]);
}

#[test]
fn specials_in_user_text_are_broken_up() {
    assert_eq!(neutralize_specials("a <unused0> b"), "a <\u{200c}unused0> b");
    assert_eq!(neutralize_specials("x < 3"), "x < 3");
    assert_eq!(neutralize_specials("<start_of_turn>"), "<\u{200c}start_of_turn>");
}

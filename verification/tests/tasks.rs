use grande::api::{Question, Request};
use grande::jglue::{item, items, pick_rows, shots, with_shots, Task, REVISION};
use grande::json::{json_rows, Json};
use grande::suite::{bare_question, gold, record, task};
use indexmap::IndexMap;

fn text(s: &str) -> Json {
    Json::Str(s.to_string())
}

fn object(fields: Vec<(&str, Json)>) -> Json {
    Json::Object(fields.into_iter().map(|(k, v)| (k.to_string(), v)).collect())
}

fn jnli(id: &str, label: &str) -> Json {
    object(vec![
        ("sentence_pair_id", text(id)),
        ("sentence1", text("犬が走る")),
        ("sentence2", text("動物が動く")),
        ("label", text(label)),
    ])
}

fn jcqa(label: u64) -> Json {
    object(vec![
        ("q_id", Json::Uint(12)),
        ("question", text("空の色は？")),
        ("choice0", text("青")),
        ("choice1", text("赤")),
        ("choice2", text("緑")),
        ("choice3", text("白")),
        ("choice4", text("黒")),
        ("label", Json::Uint(label)),
    ])
}

fn jsts(label: f64) -> Json {
    object(vec![
        ("sentence_pair_id", text("s1")),
        ("sentence1", text("犬が走る")),
        ("sentence2", text("犬が走っている")),
        ("label", Json::Float(label.to_bits())),
    ])
}

#[test]
fn tasks_have_names_and_places() {
    assert_eq!(Task::Jnli.name(), "jnli");
    assert_eq!(Task::Jcqa.name(), "jcommonsenseqa");
    assert_eq!(Task::Jsts.name(), "jsts");
    assert_eq!(
        Task::Jsts.url("valid"),
        format!("https://raw.githubusercontent.com/yahoojapan/JGLUE/{REVISION}/datasets/jsts-v1.3/valid-v1.3.json")
    );
}

#[test]
fn inference_records_ask_for_a_label() {
    let it = item(Task::Jnli, &jnli("7", "contradiction")).unwrap();
    assert_eq!(it.id, "7");
    assert_eq!(it.gold, 1);
    let Question::Choice { criteria, .. } = &it.request.questions["answer"] else { panic!() };
    assert_eq!(
        criteria.keys().map(String::as_str).collect::<Vec<_>>(),
        vec!["entailment", "contradiction", "neutral"]
    );
    assert!(it.request.validate().is_ok());
    assert!(item(Task::Jnli, &jnli("7", "unsure")).is_err());
    assert!(item(Task::Jnli, &object(vec![("label", text("neutral"))])).is_err());
}

#[test]
fn commonsense_records_ask_for_one_of_five() {
    let it = item(Task::Jcqa, &jcqa(3)).unwrap();
    assert_eq!(it.gold, 3);
    let Question::Choice { criteria, .. } = &it.request.questions["answer"] else { panic!() };
    assert_eq!(criteria.len(), 5);
    assert_eq!(criteria["3"], Some(text("白")));
}

#[test]
fn similarity_is_rounded_to_a_level() {
    for (x, level) in [(0.0, 0), (0.49, 0), (0.5, 1), (2.4, 2), (4.5, 5), (5.0, 5)] {
        let it = item(Task::Jsts, &jsts(x)).unwrap();
        assert_eq!(it.gold, level, "{x}");
        let Question::Score { criteria, .. } = &it.request.questions["answer"] else { panic!() };
        assert_eq!(criteria.len(), 6);
    }
}

#[test]
fn examples_are_balanced_over_labels_and_drawn_once() {
    let rows: Vec<Json> = (0..30)
        .map(|i| jnli(&format!("{i}"), ["entailment", "contradiction", "neutral"][i % 3]))
        .collect();
    let picked = pick_rows(Task::Jnli, &rows, 6, 0);
    assert_eq!(picked.len(), 6);
    let mut distinct = picked.clone();
    distinct.sort();
    distinct.dedup();
    assert_eq!(distinct.len(), 6);
    for k in 0..3 {
        assert_eq!(picked.iter().filter(|&&i| i % 3 == k).count(), 2);
    }
    assert_eq!(picked.iter().map(|i| i % 3).collect::<Vec<_>>(), vec![0, 1, 2, 0, 1, 2]);
    assert_eq!(picked, pick_rows(Task::Jnli, &rows, 6, 0));
    assert_ne!(picked, pick_rows(Task::Jnli, &rows, 6, 1));
}

#[test]
fn examples_stand_in_front_of_every_state() {
    let rows = vec![jnli("0", "entailment"), jnli("1", "neutral")];
    let block = shots(Task::Jnli, &rows, 2, 3);
    assert!(block.contains("犬が走る"));
    let mut items = vec![item(Task::Jnli, &jnli("2", "neutral")).unwrap()];
    with_shots(&mut items, &block);
    let Json::Object(fields) = &items[0].request.state else { panic!() };
    assert_eq!(fields[0], ("例".to_string(), Json::Str(block)));
    assert_eq!(fields.len(), 3);
}

fn suite_record() -> Json {
    object(vec![
        (
            "_meta",
            object(vec![
                ("source", text("agnews")),
                ("variant", text("noisy")),
                ("row", Json::Uint(41)),
            ]),
        ),
        ("state", text("news")),
        (
            "questions",
            object(vec![
                (
                    "topic",
                    object(vec![
                        ("type", text("choice")),
                        ("label", text("b")),
                        ("criteria", object(vec![("a", Json::Null), ("b", Json::Null)])),
                        ("src", text("x")),
                    ]),
                ),
                ("yes", object(vec![("type", text("noul")), ("label", Json::Bool(false))])),
                ("rate", object(vec![("type", text("score")), ("label", Json::Uint(2))])),
            ]),
        ),
    ])
}

fn suite_questions() -> IndexMap<String, Question> {
    let mut criteria = IndexMap::new();
    criteria.insert("a".to_string(), None);
    criteria.insert("b".to_string(), None);
    let mut q = IndexMap::new();
    q.insert("topic".to_string(), Question::Choice { instructions: None, criteria });
    q.insert(
        "yes".to_string(),
        Question::Noul { instructions: Some(text("is it")), criteria: None },
    );
    q.insert(
        "rate".to_string(),
        Question::Score { instructions: None, criteria: vec![text("l"), text("m"), text("h")] },
    );
    q
}

#[test]
fn suite_records_carry_their_gold_answers() {
    let r = record(&suite_record(), suite_questions()).unwrap();
    assert_eq!(r.id, "41");
    assert_eq!(r.source, "agnews");
    assert_eq!(r.variant, "noisy");
    assert_eq!(r.gold, vec![Some(1), Some(1), Some(2)]);
    assert_eq!(r.tasks, vec!["agnews", "agnews_yn", "agnews"]);
    assert_eq!(r.request.state, text("news"));
    assert_eq!(r.request.model, "grande-latest");
}

#[test]
fn suite_records_have_defaults_and_need_questions() {
    let bare = object(vec![("questions", object(vec![]))]);
    let r = record(&bare, IndexMap::new()).unwrap();
    assert_eq!((r.id.as_str(), r.source.as_str(), r.variant.as_str()), ("null", "unknown", "clean"));
    assert_eq!(r.request.state, Json::Null);
    let named = object(vec![
        ("_meta", object(vec![("id", text("n1"))])),
        ("questions", object(vec![])),
    ]);
    assert_eq!(record(&named, IndexMap::new()).unwrap().id, "n1");
    assert_eq!(
        record(&object(vec![]), IndexMap::new()).unwrap_err().message,
        "questions"
    );
}

#[test]
fn labels_that_do_not_fit_give_no_gold() {
    let q = suite_questions();
    assert_eq!(gold(&q["topic"], &text("c")), None);
    assert_eq!(gold(&q["topic"], &Json::Uint(0)), None);
    assert_eq!(gold(&q["yes"], &Json::Bool(true)), Some(0));
    assert_eq!(gold(&q["yes"], &text("true")), None);
    assert_eq!(gold(&q["rate"], &Json::Null), None);
    assert_eq!(task(&q["yes"], "yelp"), "yelp_yn");
    assert_eq!(task(&q["yes"], "boolq"), "boolq");
    assert_eq!(task(&q["rate"], "yelp"), "yelp");
}

#[test]
fn questions_are_asked_without_their_labels() {
    let q = object(vec![("label", text("b")), ("type", text("noul")), ("src", text("x"))]);
    assert_eq!(bare_question(&q), object(vec![("type", text("noul"))]));
    assert_eq!(bare_question(&Json::Uint(3)), Json::Uint(3));
}

#[test]
fn a_record_is_a_request() {
    let r: Request = record(&suite_record(), suite_questions()).unwrap().request;
    assert!(r.validate().is_ok());
}

fn line(id: &str, label: &str) -> String {
    format!(
        "{{\"sentence_pair_id\":\"{id}\",\"sentence1\":\"犬が走る\",\"sentence2\":\"動物が動く\",\"label\":\"{label}\"}}"
    )
}

#[test]
fn data_sets_are_read_line_by_line() {
    let text = format!("{}\n\n{}\r\n", line("7", "neutral"), line("8", "entailment"));
    let got = items(Task::Jnli, &text).unwrap();
    let ids: Vec<(&str, usize)> = got.iter().map(|i| (i.id.as_str(), i.gold)).collect();
    assert_eq!(ids, vec![("7", 2), ("8", 0)]);
    assert!(items(Task::Jnli, "\n \n").unwrap().is_empty());
    let broken = format!("{}\n\nno json\n", line("7", "neutral"));
    assert_eq!(items(Task::Jnli, &broken).unwrap_err().message, "line 3: expected ident at line 1 column 2");
    let unknown = format!("{}\n{}\nno json\n", line("7", "neutral"), line("8", "unsure"));
    assert_eq!(items(Task::Jnli, &unknown).unwrap_err().message, "line 2: label unsure");
}

#[test]
fn rows_come_with_their_line_numbers() {
    let got = json_rows("1\n\n\"犬\"\n").unwrap();
    assert_eq!(got, vec![(1, Json::Uint(1)), (3, text("犬"))]);
    assert_eq!(json_rows("1\n\n{\n2").unwrap_err().message, "line 3: EOF while parsing an object at line 1 column 1");
    assert_eq!(json_rows("").unwrap(), vec![]);
}

use grande::api::{Question, Request};
use grande::bert::{pack_sequences, total_length, Sequence};
use grande::decide::{
    checked_order, cost_of, keys_of, plan_requests, sequence_diagnostics, sequence_usage,
    sequences, shares,
};
use grande::e5::{is_sane, E5Config};
use grande::e5_decide::{
    all_uploads, build, check_size, count_texts, describe_options, encode_passes, frame, merge,
    pairs_of, sequence, sort_texts, split_logits, state_text, text_diagnostics, VectorCache,
};
use grande::engine::{Cost, Limits};
use grande::json::Json;
use grande::laya::{config_from_export, is_host_tensor, is_sane as laya_is_sane, LayaConfig};
use grande::prompt::{build_request, qtype, serialize_state, state_ids};
use grande::pyjson::{py_repr_of, py_string};
use grande::render::Kind;
use grande::tokenize::Tokenize;
use grande::web::laya_settings;
use indexmap::IndexMap;

fn text(s: &str) -> Json {
    Json::Str(s.to_string())
}

fn object(fields: Vec<(&str, Json)>) -> Json {
    Json::Object(fields.into_iter().map(|(k, v)| (k.to_string(), v)).collect())
}

fn float(x: f64) -> Json {
    Json::Float(x.to_bits())
}

/// One id per word: its number of characters, from 100.
struct Words;

impl Tokenize for Words {
    fn encode(&self, text: &str) -> Vec<u32> {
        text.split_whitespace().map(|w| 100 + w.chars().count() as u32).collect()
    }
}

fn encoder() -> Vec<(&'static str, Json)> {
    vec![
        ("model_type", text("modernbert")),
        ("num_hidden_layers", Json::Uint(4)),
        ("hidden_size", Json::Uint(128)),
        ("num_attention_heads", Json::Uint(2)),
        ("vocab_size", Json::Uint(1000)),
        ("intermediate_size", Json::Uint(256)),
    ]
}

fn agent() -> Json {
    object(vec![
        ("max_len", Json::Uint(40)),
        ("head_max_len", Json::Uint(24)),
        ("head_layers", Json::Uint(1)),
        ("temperature", Json::Array(vec![float(2.0), float(0.5), Json::Uint(1)])),
        ("temperature_by_options", object(vec![("choice:3-5", float(3.0))])),
        ("act_costs", object(vec![("a", Json::Uint(1)), ("b", Json::Uint(2))])),
    ])
}

fn tokens() -> Json {
    object(vec![
        ("mask_token", object(vec![("content", text("[MASK]"))])),
        ("cls_token", text("[CLS]")),
        ("sep_token", text("[SEP]")),
        ("pad_token", text("[PAD]")),
    ])
}

fn ids() -> Vec<(String, u32)> {
    [("[CLS]", 1), ("[SEP]", 2), ("[MASK]", 3), ("[PAD]", 0)]
        .iter()
        .map(|(s, i)| (s.to_string(), *i))
        .collect()
}

fn laya() -> LayaConfig {
    LayaConfig::from_json(&object(encoder()), &agent(), &tokens(), &ids()).unwrap()
}

fn laya_fault(encoder: Json, agent: Json, tokens: Json) -> String {
    assert!(laya_is_sane(&encoder));
    LayaConfig::from_json(&encoder, &agent, &tokens, &ids()).unwrap_err().message
}

fn with(mut fields: Vec<(&'static str, Json)>, key: &'static str, v: Json) -> Json {
    fields.retain(|(k, _)| *k != key);
    fields.push((key, v));
    object(fields)
}

fn without(mut fields: Vec<(&'static str, Json)>, key: &'static str) -> Json {
    fields.retain(|(k, _)| *k != key);
    object(fields)
}

#[test]
fn a_laya_checkpoint_is_described() {
    let c = laya();
    assert_eq!(c.sliding, vec![false, true, true, false]);
    assert_eq!(c.window, 64);
    assert_eq!(f64::from_bits(c.theta_global), 160000.0);
    assert_eq!(f64::from_bits(c.theta_local), 10000.0);
    assert_eq!(f64::from_bits(c.eps), 1e-5);
    assert_eq!((c.head_layers, c.type_emb, c.act_out), (1, true, 3));
    assert_eq!((c.cls, c.sep, c.mask, c.pad), (1, 2, 3, 0));
    assert_eq!(c.mask_text, "[MASK]");
    assert_eq!(c.head_dim(), 64);
    assert_eq!(c.temperature_for(0, 2), 2.0f64.to_bits());
    assert_eq!(c.temperature_for(0, 4), 3.0f64.to_bits());
    assert_eq!(c.temperature_for(0, 6), 2.0f64.to_bits());
    assert_eq!(c.temperature_for(1, 4), 0.5f64.to_bits());
    assert_eq!(c.temperature_for(2, 2), 1.0f64.to_bits());
    let settings = laya_settings(&c);
    assert_eq!(settings.unsigned_at("head_max_len"), Some(24));
    assert_eq!(settings.unsigned_at("mask"), Some(3));
}

#[test]
fn a_laya_checkpoint_that_cannot_run_is_refused() {
    let enc = encoder;
    assert_eq!(
        laya_fault(with(enc(), "model_type", text("bert")), agent(), tokens()),
        "encoder model_type String(\"bert\") is not modernbert"
    );
    assert_eq!(
        laya_fault(with(enc(), "hidden_activation", text("relu")), agent(), tokens()),
        "encoder hidden_activation relu is not gelu"
    );
    assert_eq!(
        laya_fault(without(enc(), "vocab_size"), agent(), tokens()),
        "encoder/config.json: missing vocab_size"
    );
    assert_eq!(
        laya_fault(with(enc(), "layer_types", Json::Array(vec![])), agent(), tokens()),
        "layer_types has 0 entries for 4 layers"
    );
    assert_eq!(
        laya_fault(object(enc()), agent(), object(vec![])),
        "tokenizer_config.json: missing mask_token"
    );
    assert_eq!(
        laya_fault(object(enc()), agent(), object(vec![("mask_token", text("[M]"))])),
        "tokenizer has no [M]"
    );
    let hot = |t: Json| object(vec![("temperature", t)]);
    assert_eq!(
        laya_fault(object(enc()), hot(Json::Array(vec![float(1.0)])), tokens()),
        "rl_agent_config.json: temperature has 1 entries"
    );
    for t in [0.0, -1.0, 1e300] {
        assert_eq!(
            laya_fault(
                object(enc()),
                hot(Json::Array(vec![float(1.0), float(t), float(1.0)])),
                tokens()
            ),
            "calibration temperatures must be finite and positive"
        );
    }
    assert_eq!(
        laya_fault(object(enc()), object(vec![("head_max_len", Json::Uint(4))]), tokens()),
        "expected 4 < head_max_len 4 < max_len 512"
    );
    assert_eq!(
        laya_fault(with(enc(), "num_attention_heads", Json::Uint(3)), agent(), tokens()),
        "hidden_size 128 / heads 3"
    );
    assert_eq!(
        laya_fault(with(enc(), "num_attention_heads", Json::Uint(4)), agent(), tokens()),
        "head_dim 32 must be a multiple of 64"
    );
    assert_eq!(
        laya_fault(with(enc(), "intermediate_size", Json::Uint(100)), agent(), tokens()),
        "hidden_size and intermediate_size must be multiples of 32"
    );
}

#[test]
fn an_exported_laya_carries_its_agent() {
    let mut all = encoder();
    all.push(("laya_agent", agent()));
    assert_eq!(
        config_from_export(&object(all.clone()), &ids()).unwrap_err().message,
        "config.json: missing laya_tokens"
    );
    all.push(("laya_tokens", tokens()));
    assert_eq!(config_from_export(&object(all), &ids()).unwrap().max_len, 40);
    assert_eq!(
        config_from_export(&object(encoder()), &ids()).unwrap_err().message,
        "config.json: missing laya_agent"
    );
    assert!(is_host_tensor("scorer.l1"));
    assert!(is_host_tensor("act.out"));
    assert!(!is_host_tensor("enc.0.qkv"));
}

#[test]
fn a_laya_checkpoint_lists_its_tensors() {
    let names: Vec<(String, Vec<usize>)> =
        laya().tensors().into_iter().map(|t| (t.name, t.shape)).collect();
    assert_eq!(names[0], ("embed".to_string(), vec![1000, 128]));
    assert_eq!(names[3], ("type_emb".to_string(), vec![3, 128]));
    assert_eq!(names[4], ("enc.0.qkv".to_string(), vec![384, 128]));
    assert!(names.iter().all(|(n, _)| n != "enc.0.attn_norm"));
    assert!(names.contains(&("enc.1.attn_norm".to_string(), vec![128])));
    assert!(names.contains(&("head.0.l1".to_string(), vec![512, 128])));
    assert!(names.contains(&("scorer.l2".to_string(), vec![1, 128])));
}

fn request(questions: Vec<(&str, Question)>) -> Request {
    Request {
        model: "grande-latest".to_string(),
        state: text("one two three [MASK] five"),
        questions: questions.into_iter().map(|(k, q)| (k.to_string(), q)).collect(),
    }
}

fn choice(about: &str, keys: &[&str]) -> Question {
    Question::Choice {
        instructions: Some(text(about)),
        criteria: keys.iter().map(|k| (k.to_string(), None)).collect(),
    }
}

fn noul(about: &str) -> Question {
    Question::Noul { instructions: Some(text(about)), criteria: None }
}

#[test]
fn a_laya_sequence_is_laid_out_in_order() {
    let c = laya();
    let req = request(vec![("q", choice("pick [MASK] one", &["aa", "bbb"]))]);
    let seqs = build_request(&Words, &c, &req).unwrap();
    assert_eq!(seqs.len(), 1);
    assert_eq!(
        seqs[0].ids,
        vec![
            1, // [CLS]
            106, 109, 104, 103, // choice question: pick one
            2, 3, 102, 3, 103, 2, // [SEP] [MASK] aa [MASK] bbb [SEP]
            103, 103, 105, 104, 2, // the state, its mask gone, [SEP]
        ]
    );
    assert_eq!(seqs[0].markers, vec![6, 8]);
    assert_eq!(seqs[0].qtype, 0);
    assert_eq!(state_ids(&Words, &c, &req.state), vec![103, 103, 105, 104]);
    assert_eq!(qtype(&noul("x")), 2);
    assert_eq!(serialize_state(&object(vec![("k", Json::Uint(1))])), "{\"k\": 1}");
}

#[test]
fn options_share_the_question_budget() {
    let c = laya();
    let long = vec!["w w w w w w w w w w w w"; 3].join(" ");
    let keys = [long.as_str(), "b"];
    let req = request(vec![("q", choice("a b c d e f g h i j k l m n o p", &keys))]);
    let s = &build_request(&Words, &c, &req).unwrap()[0];
    // 24 - 16 = 8 left for two options: 4 tokens each, and the rest for the
    // instructions.
    assert_eq!(s.markers[1] - s.markers[0], 4);
    assert!(s.ids.len() <= c.max_len);
    let many: Vec<String> = (0..200).map(|i| format!("k{i}")).collect();
    let many: Vec<&str> = many.iter().map(String::as_str).collect();
    let req = request(vec![("q", choice("x", &many))]);
    assert_eq!(
        build_request(&Words, &c, &req).unwrap_err().message,
        "question \"q\": too many options for the token budget"
    );
}

#[test]
fn branches_and_sequences_go_together() {
    let c = laya();
    let req = request(vec![("yes", noul("is it")), ("pick", choice("which", &["a", "b", "c"]))]);
    let mut orders = IndexMap::new();
    orders.insert("pick".to_string(), vec![2, 0, 1]);
    let built = sequences(&c, &Words, &req, &orders).unwrap();
    assert_eq!(built.state_tokens, 4);
    assert_eq!(built.branches[0].keys, vec!["true", "false"]);
    assert_eq!(built.branches[0].kind, Kind::Noul);
    assert_eq!(built.branches[1].keys, vec!["c", "a", "b"]);
    assert_eq!(built.branches[1].order, vec![2, 0, 1]);
    assert_eq!(built.sequences[1].markers.len(), 3);
    let (_, keys, laya_of) = keys_of(&noul("x"));
    assert_eq!((keys, laya_of), (vec!["true".to_string(), "false".to_string()], vec![1, 0]));
    orders.insert("pick".to_string(), vec![3, 0, 1]);
    assert_eq!(
        sequences(&c, &Words, &req, &orders).err().unwrap().message,
        "question \"pick\": order [3, 0, 1] for 3 options"
    );
    assert_eq!(checked_order(&orders, "yes", 2).unwrap(), vec![0, 1]);
    let diag = sequence_diagnostics(&built.sequences, built.state_tokens, 2);
    assert_eq!(diag.prefix_tokens, 4);
    assert_eq!(diag.batch, 2);
    assert_eq!(
        sequence_usage(&diag).input_tokens as usize,
        total_length(&built.sequences)
    );
    let cost = cost_of(&built.sequences);
    assert_eq!(cost.tokens, total_length(&built.sequences));
    assert_eq!(cost.rows, 2 + 3 + 2);
}

#[test]
fn requests_are_spread_over_passes() {
    let cost = |t: usize| Some(Cost { tokens: t, sequences: 1, rows: 1 });
    let limits = Limits { tokens: 10, sequences: 9, rows: 9 };
    assert_eq!(
        plan_requests(&vec![cost(6), None, cost(4), cost(1), cost(20)], limits),
        vec![vec![0, 2], vec![3], vec![4]]
    );
    assert_eq!(shares(&vec![2, 0, 3]), vec![(0, 2), (2, 2), (2, 5)]);
}

#[test]
fn sequences_are_packed_side_by_side() {
    let seqs = vec![
        Sequence { ids: vec![1, 5, 2], markers: vec![1], qtype: 0 },
        Sequence { ids: vec![1, 2], markers: vec![0, 1], qtype: 2 },
    ];
    let b = pack_sequences(&seqs, 8, 10).unwrap();
    assert_eq!(b.ids, vec![1, 5, 2, 1, 2]);
    assert_eq!(b.qtypes, vec![0, 0, 0, 2, 2]);
    assert!(pack_sequences(&seqs, 2, 10).is_err());
    assert!(pack_sequences(&seqs, 8, 5).is_err());
}

fn e5_fields() -> Vec<(&'static str, Json)> {
    vec![
        ("model_type", text("bert")),
        ("hidden_size", Json::Uint(128)),
        ("max_position_embeddings", Json::Uint(512)),
        ("num_hidden_layers", Json::Uint(2)),
        ("vocab_size", Json::Uint(500)),
        ("num_attention_heads", Json::Uint(2)),
        ("intermediate_size", Json::Uint(256)),
        (
            "grande_e5",
            object(vec![
                ("head_hidden", Json::Uint(64)),
                ("cls", Json::Uint(1)),
                ("sep", Json::Uint(2)),
                ("pad", Json::Uint(0)),
                ("max_len", Json::Uint(6)),
            ]),
        ),
    ]
}

fn e5() -> E5Config {
    E5Config::from_json(&object(e5_fields())).unwrap()
}

#[test]
fn an_e5_export_is_described() {
    let c = e5();
    assert_eq!((c.head_in, c.head_hidden, c.max_len), (512, 64, 6));
    assert_eq!((c.prefix.as_str(), c.name.as_str()), ("query: ", "e5"));
    assert_eq!(f64::from_bits(c.eps), 1e-12);
    assert!(c.norm_bias);
    assert_eq!(c.sliding, vec![false, false]);
    let names: Vec<String> = c.tensors().into_iter().map(|t| t.name).collect();
    assert_eq!(names[..5], ["embed", "pos_embed", "type_embed", "embed_norm_w", "embed_norm_b"]);
    let fault = |v: Json| {
        assert!(is_sane(&v));
        E5Config::from_json(&v).unwrap_err().message
    };
    assert_eq!(
        fault(with(e5_fields(), "model_type", text("t5"))),
        "model_type Some(\"t5\") is not bert or modernbert"
    );
    assert_eq!(
        fault(without(e5_fields(), "model_type")),
        "model_type None is not bert or modernbert"
    );
    assert_eq!(
        fault(with(e5_fields(), "hidden_act", text("relu"))),
        "hidden_act relu is not gelu"
    );
    assert_eq!(
        fault(with(e5_fields(), "position_embedding_type", text("relative"))),
        "position_embedding_type relative is not absolute"
    );
    assert_eq!(fault(without(e5_fields(), "grande_e5")), "config.json: missing grande_e5");
    assert_eq!(fault(without(e5_fields(), "vocab_size")), "config.json: missing vocab_size");
    assert_eq!(
        fault(with(e5_fields(), "grande_e5", object(vec![]))),
        "config.json: missing grande_e5.head_hidden"
    );
}

#[test]
fn e5_reads_the_state_as_one_line() {
    let state = object(vec![("a", text("x y")), ("n", Json::Array(vec![Json::Uint(1), Json::Null]))]);
    assert_eq!(state_text(&state), "a: x y n: [1, null]");
    assert_eq!(state_text(&text("plain")), "plain");
    assert_eq!(state_text(&Json::Uint(3)), "3");
    let mut criteria = IndexMap::new();
    criteria.insert("a".to_string(), Some(text("first")));
    criteria.insert("b".to_string(), None);
    let q = Question::Choice { instructions: None, criteria };
    assert_eq!(describe_options(&q), vec!["first", "b"]);
    assert_eq!(describe_options(&noul("x")), vec!["true", "false"]);
}

#[test]
fn every_option_is_paired_with_the_state() {
    let req = request(vec![("yes", noul("is it")), ("pick", choice("which", &["a", "b"]))]);
    let built = build(&req, &IndexMap::new()).unwrap();
    assert_eq!(
        built.texts,
        vec!["one two three [MASK] five", "true", "false", "a", "b"]
    );
    assert_eq!(built.spans, vec![(1, 2), (3, 2)]);
    assert_eq!(pairs_of(&built), vec![(0, 1), (0, 2), (0, 3), (0, 4)]);
    assert_eq!(
        split_logits(&vec![10, 11, 12, 13], &built.spans),
        vec![vec![10, 11], vec![12, 13]]
    );
    let diag = text_diagnostics(&vec![5, 1, 2, 3, 4], &built.spans, 1);
    assert_eq!((diag.prefix_tokens, diag.branch_tokens), (5, vec![3, 7]));
}

#[test]
fn texts_are_framed_and_cut() {
    let c = e5();
    assert_eq!(frame(&c, &vec![7, 8]), vec![1, 7, 8, 2]);
    assert_eq!(frame(&c, &vec![3, 4, 5, 6, 7, 8]), vec![1, 3, 4, 5, 6, 2]);
    assert_eq!(sequence(&c, &Words, "ab cde"), vec![1, 106, 102, 103, 2]);
}

#[test]
fn vectors_are_kept_and_shared() {
    let list: Vec<String> = ["s", "a", "b", "a"].iter().map(|s| s.to_string()).collect();
    let mut cache = VectorCache::new();
    cache.insert("b", vec![9, 9], 4);
    assert_eq!(cache.get("b"), Some((vec![9, 9], 4)));
    let s = sort_texts(&list, &cache);
    assert_eq!((s.kept.clone(), s.unique.clone(), s.alias.clone()), (vec![2], vec![0, 1], vec![(3, 1)]));
    assert_eq!(count_texts(4, &s, &vec![4], &vec![10, 3]), vec![10, 3, 4, 3]);
    let fresh = vec![(0, vec![1, 1]), (1, vec![2, 2])];
    assert_eq!(
        all_uploads(vec![(2, vec![9, 9])], &fresh, &s.alias),
        vec![(2, vec![9, 9]), (0, vec![1, 1]), (1, vec![2, 2]), (3, vec![2, 2])]
    );
    cache.store(&list, &vec![false, true, true, true], &fresh, &vec![10, 3, 4, 3]);
    assert_eq!(cache.get("a"), Some((vec![2, 2], 3)));
    assert_eq!(cache.get("s"), None);
    assert!(check_size(4, 3, 8).is_ok());
    assert!(check_size(9, 3, 8).is_err());
    assert!(encode_passes(&vec![vec![1; 4], vec![2; 4]], 0, 100).is_none());
    assert_eq!(
        encode_passes(&vec![vec![1; 4], vec![2; 4], vec![3; 2]], 0, 6),
        Some(vec![vec![0], vec![1, 2]])
    );
}

#[test]
fn built_requests_are_merged() {
    let one = build(&request(vec![("yes", noul("is it"))]), &IndexMap::new()).unwrap();
    let two = build(&request(vec![("pick", choice("w", &["a", "b"]))]), &IndexMap::new()).unwrap();
    let m = merge(&vec![Some(one), None, Some(two)]);
    assert_eq!(m.texts.len(), 6);
    assert_eq!(m.texts[1], "true");
    assert_eq!(m.pairs, vec![(0, 1), (0, 2), (3, 4), (3, 5)]);
    assert_eq!(m.cacheable.len(), 6);
    assert!(!m.cacheable[0] && m.cacheable[1]);
}

#[test]
fn python_text_is_escaped() {
    assert_eq!(py_string("a\u{1}\u{7f}😀", true), "\"a\\u0001\\u007f\\ud83d\\ude00\"");
    assert_eq!(py_string("😀\t", false), "\"😀\\t\"");
    assert_eq!(py_repr_of("1.5e-7"), "1.5e-07");
    assert_eq!(py_repr_of("2.0e100"), "2e+100");
    assert_eq!(py_repr_of("0.25"), "0.25");
}

#[test]
fn a_period_is_asked_of_the_encoders_that_read_one() {
    let zero = |fields: Vec<(&'static str, Json)>| {
        with(fields, "global_attn_every_n_layers", Json::Uint(0))
    };
    let bert = zero(e5_fields());
    assert!(is_sane(&bert));
    assert_eq!(E5Config::from_json(&bert).unwrap().sliding, vec![false, false]);
    let mut modern = e5_fields();
    modern.retain(|(k, _)| *k != "model_type");
    modern.push(("model_type", text("modernbert")));
    assert!(!is_sane(&zero(modern.clone())));
    modern.retain(|(k, _)| *k != "grande_e5");
    let headless = zero(modern);
    assert!(is_sane(&headless));
    assert_eq!(
        E5Config::from_json(&headless).unwrap_err().message,
        "config.json: missing grande_e5"
    );
    let mut other = encoder();
    other.retain(|(k, _)| *k != "layer_types");
    assert!(!laya_is_sane(&zero(other.clone())));
    other.retain(|(k, _)| *k != "model_type");
    other.push(("model_type", text("bert")));
    assert_eq!(
        laya_fault(zero(other), agent(), tokens()),
        "encoder model_type String(\"bert\") is not modernbert"
    );
}

use grande::charsmap::table;
use grande::json::{read_json, Json};
use grande::laya::{config_from_export, laya_config_of, laya_export_of, special_ids, LayaConfig};
use grande::tokenize::{encode_or_nothing, read_tokenizer, UNREADABLE};
use grande::tokenizer_file::{
    compilable_part, named_once, readable_model, readable_normalizer, readable_value,
};
use tokenizers::Tokenizer;

fn model() -> String {
    "{\"type\":\"WordLevel\",\"vocab\":{\"a\":0,\"b\":1,\"[UNK]\":2},\"unk_token\":\"[UNK]\"}".to_string()
}

fn file(added: &str, normalizer: &str, pre_tokenizer: &str, decoder: &str, model: &str) -> String {
    format!(
        "{{\"version\":\"1.0\",\"truncation\":null,\"padding\":null,\"added_tokens\":[{added}],\"normalizer\":{normalizer},\"pre_tokenizer\":{pre_tokenizer},\"post_processor\":null,\"decoder\":{decoder},\"model\":{model}}}"
    )
}

fn with_model(model: &str) -> String {
    file("", "null", "null", "null", model)
}

fn with_normalizer(normalizer: &str) -> String {
    file("", normalizer, "null", "null", &model())
}

fn fault(text: &str) -> String {
    read_tokenizer(text.as_bytes()).err().unwrap().message
}

fn refused(text: &str) {
    assert_eq!(fault(text), UNREADABLE, "{}", text);
}

fn json(text: &str) -> Json {
    read_json(text.as_bytes(), "text").unwrap()
}

const SPLIT: &str = "{\"type\":\"WhitespaceSplit\"}";

#[test]
fn a_tokenizer_is_read_from_its_file() {
    let text = file("", "{\"type\":\"Lowercase\"}", SPLIT, "null", &model());
    let t = read_tokenizer(text.as_bytes()).unwrap();
    assert_eq!(encode_or_nothing(&t, "B A z"), vec![1, 0, 2]);
    let same = Tokenizer::from_bytes(text.as_bytes()).unwrap();
    assert_eq!(encode_or_nothing(&same, "B A z"), vec![1, 0, 2]);
}

#[test]
fn a_file_that_is_no_tokenizer_is_an_error() {
    assert_eq!(fault("{"), "tokenizer.json: EOF while parsing an object at line 1 column 1");
    let broken = "{\"version\":\"1.0\",\"decoder\":{\"type\":";
    assert_eq!(fault(broken), "tokenizer.json: EOF while parsing a value at line 1 column 35");
    let old = with_model(&model()).replace("\"1.0\"", "\"2.0\"");
    assert!(fault(&old).starts_with("tokenizer.json: Unknown tokenizer version '2.0'"));
    assert!(fault("{}").starts_with("tokenizer.json: "));
    assert_ne!(fault("{}"), UNREADABLE);
    assert_ne!(fault("[]"), UNREADABLE);
}

#[test]
fn a_part_named_twice_is_refused() {
    assert!(named_once(b"{\"model\":{\"model\":1,\"decoder\":2},\"decoder\":[\"model\"]}"));
    assert!(!named_once(b"{\"model\":1,\"decoder\":{\"x\":\"}\"},\"model\":2}"));
    assert!(!named_once(b"{\"mod\\u0065l\":1}"));
    assert!(named_once(b"{\"version\":1,\"version\":2}"));
    assert!(named_once(b"{\"a\":{\"\\\"model\":1},\"model\":1}"));
    assert!(named_once(b""));
    let twice = with_normalizer("null").replace("\"decoder\":null", "\"normalizer\":null");
    refused(&twice);
}

fn bpe(vocab: &str, merges: &str, more: &str) -> String {
    format!("{{\"type\":\"BPE\",\"vocab\":{vocab},\"merges\":{merges}{more}}}")
}

#[test]
fn merges_that_cannot_be_made_are_refused() {
    let vocab = "{\"a\":0,\"b\":1,\"ab\":2}";
    for merges in ["[[\"a\",\"b\"]]", "[\"a b\"]", "[\"#version: 0.2 long\",\"a b\"]", "[]"] {
        let t = read_tokenizer(with_model(&bpe(vocab, merges, "")).as_bytes()).unwrap();
        let want = if merges == "[]" { vec![0, 1] } else { vec![2] };
        assert_eq!(encode_or_nothing(&t, "ab"), want, "{}", merges);
    }
    refused(&with_model(&bpe(vocab, "[[\"ab\",\"b\"]]", "")));
    refused(&with_model(&bpe(vocab, "[\"ab ab\"]", "")));
    let prefix = ",\"continuing_subword_prefix\":\"##\"";
    refused(&with_model(&bpe(vocab, "[[\"a\",\"b\"]]", prefix)));
    refused(&with_model(&bpe("{\"a\":0,\"é\":1,\"abcd\":2}", "[[\"a\",\"é\"]]", ",\"continuing_subword_prefix\":\"#\"")));
    let marked = bpe("{\"a\":0,\"##b\":1,\"ab\":2,\"b\":3}", "[[\"a\",\"##b\"]]", prefix);
    let t = read_tokenizer(with_model(&marked).as_bytes()).unwrap();
    assert_eq!(encode_or_nothing(&t, "ab"), vec![2]);
    let unknown = fault(&with_model(&bpe(vocab, "[[\"x\",\"b\"]]", "")));
    assert!(unknown.contains("out of vocabulary"), "{}", unknown);
    assert!(readable_model(&json("{}")));
    assert!(readable_model(&json("{\"vocab\":{},\"merges\":[1,[2],[\"a\"]]}")));
}

#[test]
fn a_piece_of_great_length_is_refused() {
    let unigram = |n: usize| {
        format!(
            "{{\"type\":\"Unigram\",\"unk_id\":0,\"vocab\":[[\"[UNK]\",0.0],[\"a\",-1.0],[\"{}\",-2.0]]}}",
            "x".repeat(n)
        )
    };
    let t = read_tokenizer(with_model(&unigram(1024)).as_bytes()).unwrap();
    assert_eq!(encode_or_nothing(&t, &format!("a{}", "x".repeat(1024))), vec![1, 2]);
    refused(&with_model(&unigram(1025)));
    assert!(readable_model(&json("{\"vocab\":[[],1,[2]]}")));
}

fn base64(bytes: &[u8]) -> String {
    let digits: Vec<char> =
        "ABCDEFGHIJKLMNOPQRSTUVWXYZabcdefghijklmnopqrstuvwxyz0123456789+/".chars().collect();
    let mut out = String::new();
    for c in bytes.chunks(3) {
        let n = (c[0] as usize) << 16
            | (*c.get(1).unwrap_or(&0) as usize) << 8
            | *c.get(2).unwrap_or(&0) as usize;
        out.push(digits[n >> 18]);
        out.push(digits[n >> 12 & 63]);
        out.push(if c.len() > 1 { digits[n >> 6 & 63] } else { '=' });
        out.push(if c.len() > 2 { digits[n & 63] } else { '=' });
    }
    out
}

fn charsmap(text: &str) -> String {
    format!("{{\"type\":\"Precompiled\",\"precompiled_charsmap\":\"{text}\"}}")
}

fn normalized(content: &str) -> String {
    format!(
        "{{\"id\":3,\"content\":\"{content}\",\"single_word\":false,\"lstrip\":false,\"rstrip\":false,\"normalized\":true,\"special\":false}}"
    )
}

#[test]
fn a_character_table_that_does_not_unpack_is_refused() {
    let unpacked: Vec<u8> = vec![4, 0, 0, 0, 0, 0, 0, 0, b'b', 0];
    assert!(table(&unpacked));
    assert!(read_tokenizer(with_normalizer(&charsmap(&base64(&unpacked))).as_bytes()).is_ok());
    assert!(table(&vec![0, 0, 0, 0]));
    for bad in [vec![], vec![0, 0, 0], vec![4, 0, 0, 0, 0, 0, 0], vec![0, 0, 0, 0, 0xff]] {
        assert!(!table(&bad));
        refused(&with_normalizer(&charsmap(&base64(&bad))));
    }
    refused(&with_normalizer(&charsmap("AAAA!")));
    refused(&with_normalizer(&charsmap("AAAAAB==")));
    refused(&with_normalizer("{\"type\":\"Precompiled\"}"));
    let nested = format!(
        "{{\"type\":\"Sequence\",\"normalizers\":[{{\"type\":\"NFC\"}},{}]}}",
        charsmap("AAA=")
    );
    refused(&with_normalizer(&nested));
    refused(&with_normalizer("[]"));
}

#[test]
fn a_normalizer_must_stand_the_added_tokens() {
    let insert = "{\"type\":\"Replace\",\"pattern\":{\"Regex\":\"x*\"},\"content\":\"b\"}";
    assert!(read_tokenizer(with_normalizer(insert).as_bytes()).is_ok());
    refused(&file(&normalized("<s>"), insert, "null", "null", &model()));
    let prepend = "{\"type\":\"Prepend\",\"prepend\":\"\"}";
    assert!(read_tokenizer(with_normalizer(prepend).as_bytes()).is_ok());
    refused(&file(&normalized("<s>"), prepend, "null", "null", &model()));
    let leaving = charsmap(&base64(&[4, 0, 0, 0, 0, 0, 0, 0, b'b', 0]));
    refused(&file(&normalized("<s>"), &leaving, "null", "null", &model()));
    let lower = "{\"type\":\"Lowercase\"}";
    let text = file(&normalized("<S>"), lower, SPLIT, "null", &model());
    let t = read_tokenizer(text.as_bytes()).unwrap();
    assert_eq!(encode_or_nothing(&t, "a <S> b"), vec![0, 3, 1]);
    assert!(readable_normalizer(&Json::Null, true, 0));
}

#[test]
fn a_pattern_that_is_not_plain_is_refused() {
    let split = |p: &str| {
        format!(
            "{{\"type\":\"Split\",\"pattern\":{{\"Regex\":\"{p}\"}},\"behavior\":\"Removed\",\"invert\":false}}"
        )
    };
    let t = read_tokenizer(file("", "null", &split("x+"), "null", &model()).as_bytes()).unwrap();
    assert_eq!(encode_or_nothing(&t, "axxb"), vec![0, 1]);
    refused(&file("", "null", &split("a\\\\Kb"), "null", &model()));
    refused(&file("", "null", &split("(a)\\\\1"), "null", &model()));
    let replace = "{\"type\":\"Replace\",\"pattern\":{\"Regex\":\"\\\\Ga\"},\"content\":\"b\"}";
    refused(&with_normalizer(replace));
    refused(&file("", "null", "null", replace, &model()));
    assert!(compilable_part(&json("{\"Regex\":1,\"x\":[{\"Regex\":\"a\"}]}"), 3));
    assert!(!compilable_part(&json("{\"Regex\":1,\"x\":[{\"Regex\":\"a\"}]}"), 2));
    assert!(readable_value(&Json::Null));
}

fn special_file() -> Tokenizer {
    let vocab =
        "{\"[CLS]\":7,\"[SEP]\":8,\"[MASK]\":9,\"[PAD]\":0,\"[UNK]\":1}";
    let model = format!("{{\"type\":\"WordLevel\",\"vocab\":{vocab},\"unk_token\":\"[UNK]\"}}");
    read_tokenizer(with_model(&model).as_bytes()).unwrap()
}

const ENCODER: &str = "\"model_type\":\"modernbert\",\"vocab_size\":16,\"hidden_size\":128,\"num_hidden_layers\":2,\"num_attention_heads\":2,\"intermediate_size\":64";
const TOKENS: &str = "{\"mask_token\":{\"content\":\"[MASK]\"},\"cls_token\":\"[CLS]\",\"sep_token\":\"[SEP]\",\"pad_token\":\"[PAD]\"}";

fn ids(c: &LayaConfig) -> (u32, u32, u32, u32, &str) {
    (c.cls, c.sep, c.mask, c.pad, c.mask_text.as_str())
}

#[test]
fn special_tokens_are_resolved_by_the_tokenizer() {
    let t = special_file();
    let encoder = json(&format!("{{{ENCODER}}}"));
    let agent = json("{}");
    let c = laya_config_of(&encoder, &agent, &json(TOKENS), &t).unwrap();
    assert_eq!(ids(&c), (7, 8, 9, 0, "[MASK]"));
    let lost = json(&TOKENS.replace("[SEP]", "</s>"));
    assert_eq!(
        laya_config_of(&encoder, &agent, &lost, &t).unwrap_err().message,
        "tokenizer has no </s>"
    );
    assert_eq!(
        laya_config_of(&encoder, &agent, &json("{}"), &t).unwrap_err().message,
        "tokenizer_config.json: missing mask_token"
    );
    let export = json(&format!("{{{ENCODER},\"laya_agent\":{{}},\"laya_tokens\":{TOKENS}}}"));
    let c = laya_export_of(&export, &t).unwrap();
    assert_eq!(ids(&c), (7, 8, 9, 0, "[MASK]"));
    assert_eq!(
        laya_export_of(&encoder, &t).unwrap_err().message,
        "config.json: missing laya_agent"
    );
}

#[test]
fn a_page_hands_over_its_special_ids() {
    let got = special_ids(b"{\"[MASK]\":3,\"[CLS]\":1,\"[SEP]\":2,\"[PAD]\":0,\"[PAD]\":4}").unwrap();
    let mut sorted = got.clone();
    sorted.sort();
    let want: Vec<(String, u32)> = [("[CLS]", 1), ("[MASK]", 3), ("[PAD]", 4), ("[SEP]", 2)]
        .iter()
        .map(|(s, i)| (s.to_string(), *i))
        .collect();
    assert_eq!(sorted, want);
    let export = json(&format!("{{{ENCODER},\"laya_agent\":{{}},\"laya_tokens\":{TOKENS}}}"));
    assert_eq!(ids(&config_from_export(&export, &got).unwrap()), (1, 2, 3, 4, "[MASK]"));
    assert!(special_ids(b"{}").unwrap().is_empty());
    let fault = |text: &str| special_ids(text.as_bytes()).unwrap_err().message;
    assert_eq!(fault("[1]"), "specials: no object");
    assert_eq!(fault("{\"a\":1,\"b\":-1}"), "specials: b has no token id");
    assert_eq!(fault("{\"a\":4294967296}"), "specials: a has no token id");
    assert_eq!(fault("{\"a\":1.0}"), "specials: a has no token id");
    assert_eq!(fault("{"), "specials: EOF while parsing an object at line 1 column 1");
}

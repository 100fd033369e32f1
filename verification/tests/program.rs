use grande::api::Question;
use grande::backend::{
    Backend, BranchOutput, BranchTokens, Group, GroupOutput, PrefixSource, Token, Want,
};
use grande::engine::Limits;
use grande::error::Error;
use grande::features::{
    gold_slot, header_text, lay_out_file, number_bytes, option_count, pointer_rows, write_file,
    Feature, Shuffler,
};
use grande::json::Json;
use grande::render::{Kind, Mark, RenderedBranch, Segment};
use grande::setup::{
    bench_sequences, cache_bytes, distractor, feature_renderer, flash_choice, is_e5_dir,
    is_laya_dir, label_renderer, laya_name, model_name, renderer_for, takes_distractor, with_distractor,
    HeadInfo,
};
use grande::tensor::{SafeTensors, Values};
use grande::web::{
    check_rows, check_second, content_free_state, export_name, label_cap, labels, want_of,
};

fn text(s: &str) -> Json {
    Json::Str(s.to_string())
}

fn object(fields: Vec<(&str, Json)>) -> Json {
    Json::Object(fields.into_iter().map(|(k, v)| (k.to_string(), v)).collect())
}

fn choice(keys: &[&str]) -> Question {
    Question::Choice {
        instructions: Some(text("pick")),
        criteria: keys.iter().map(|k| (k.to_string(), None)).collect(),
    }
}

struct Vocabulary(Vec<&'static str>);

impl Backend for Vocabulary {
    fn tokenize(&self, _: &str) -> Result<Vec<Token>, Error> {
        Ok(Vec::new())
    }
    fn special(&self, name: &str) -> Result<Token, Error> {
        match self.0.iter().position(|s| *s == name) {
            Some(i) => Ok(Token(i as i32)),
            None => Err(Error::Backend("no such token".to_string())),
        }
    }
    fn bos(&self) -> Token {
        Token(0)
    }
    fn n_embd(&self) -> usize {
        4
    }
    fn n_vocab(&self) -> usize {
        8
    }
    fn evaluate(
        &mut self,
        _: &[Token],
        _: &[BranchTokens],
        _: Want,
    ) -> Result<Vec<BranchOutput>, Error> {
        Ok(Vec::new())
    }
    fn evaluate_many(
        &mut self,
        _: &Vec<Group<'_>>,
        _: Want,
    ) -> Result<Vec<GroupOutput>, Error> {
        Ok(Vec::new())
    }
    fn limits(&self) -> Limits {
        Limits::default()
    }
    fn prefix_source(&self) -> Option<PrefixSource> {
        None
    }
}

#[test]
fn the_vocabulary_picks_the_chat_layout() {
    for (specials, name) in [
        (vec!["<|turn>", "<|im_start|>"], "gemma_label"),
        (vec!["<|im_start|>"], "qwen_label"),
        (vec!["<｜User｜>"], "deepseek_label"),
        (vec![], "gemma_label"),
    ] {
        assert_eq!(label_renderer(&Vocabulary(specials)).layout_name(), name);
    }
    let fallback = label_renderer(&Vocabulary(vec![])).prefix("s");
    assert_eq!(fallback[1], Segment::Special("<start_of_turn>".to_string()));
}

#[test]
fn a_head_picks_the_layout_it_was_trained_on() {
    let b = Vocabulary(vec!["<|im_start|>"]);
    let head = |layout: Option<&str>| HeadInfo { d: 4, layout: layout.map(str::to_string) };
    assert_eq!(renderer_for(&b, 4, None).unwrap().layout_name(), "qwen_label");
    let chat = head(Some("gemma_label_pointer"));
    assert_eq!(renderer_for(&b, 4, Some(&chat)).unwrap().layout_name(), "qwen_label_pointer");
    for layout in [None, Some("gemma_pointer")] {
        let h = head(layout);
        assert_eq!(renderer_for(&b, 4, Some(&h)).unwrap().layout_name(), "gemma_pointer");
    }
    assert_eq!(
        renderer_for(&b, 5, Some(&chat)).unwrap_err().message,
        "head d=4 but model n_embd=5"
    );
    assert_eq!(feature_renderer(&b, "label").unwrap().layout_name(), "qwen_label_pointer");
    assert_eq!(feature_renderer(&b, "delimiter").unwrap().layout_name(), "gemma_pointer");
    assert_eq!(
        feature_renderer(&b, "chat").unwrap_err().message,
        "--layout chat: expected label or delimiter"
    );
}

#[test]
fn directories_are_told_apart() {
    let laya = object(vec![("laya_agent", Json::Null)]);
    let e5 = object(vec![("grande_e5", object(vec![]))]);
    assert!(is_laya_dir(true, true, false, None));
    assert!(!is_laya_dir(true, false, false, Some(&laya)));
    assert!(is_laya_dir(false, false, true, Some(&laya)));
    assert!(!is_laya_dir(false, false, true, Some(&e5)));
    assert!(!is_laya_dir(false, true, true, None));
    assert!(is_e5_dir(true, Some(&e5)));
    assert!(!is_e5_dir(false, Some(&e5)));
    assert!(!is_e5_dir(true, Some(&laya)));
    assert_eq!(laya_name(Some("laya-small")), "laya-small");
    assert_eq!(laya_name(None), "laya");
    assert_eq!(laya_name(Some("0123456789abcdefABCDEF0123456789")), "laya");
    assert_eq!(
        laya_name(Some("0123456789abcdefABCDEF012345678g")),
        "0123456789abcdefabcdef012345678g"
    );
    assert_eq!(laya_name(Some("abc123")), "abc123");
    assert_eq!(laya_name(Some("Laya-Ä")), "laya-ä");
    assert_eq!(model_name(Some("Gemma-3-4B")), "gemma-3-4b");
    assert_eq!(model_name(None), "model");
}

#[test]
fn settings_come_from_the_command_line() {
    assert_eq!(flash_choice("on"), Some(true));
    assert_eq!(flash_choice("off"), Some(false));
    assert_eq!(flash_choice("auto"), None);
    assert_eq!(bench_sequences(12, 0), 13);
    assert_eq!(bench_sequences(12, 3), 39);
    assert_eq!(bench_sequences(0, 1), 2);
    assert_eq!(cache_bytes(512, false), 512 << 20);
    assert_eq!(cache_bytes(512, true), 0);
}

#[test]
fn an_irrelevant_option_is_added() {
    let (name, about) = distractor(5, false);
    assert_eq!((name, about), ("purple", "The colour purple"));
    assert_eq!(distractor(3, true), ("税金", "無関係：四半期の税務申告"));
    let q = choice(&["a", "b", "c"]);
    let Some(Question::Choice { instructions, criteria }) = with_distractor(&q, name, about) else {
        panic!()
    };
    assert_eq!(instructions, Some(text("pick")));
    assert_eq!(
        criteria.keys().map(String::as_str).collect::<Vec<_>>(),
        vec!["a", "b", "c", "purple"]
    );
    assert_eq!(criteria["purple"], Some(text("The colour purple")));
    let Some(Question::Choice { criteria, .. }) =
        with_distractor(&choice(&["0", "1", "+2"]), name, about)
    else {
        panic!()
    };
    assert_eq!(criteria.keys().last().unwrap(), "3");
    assert!(with_distractor(&choice(&["a", "purple"]), name, about).is_none());
    assert!(with_distractor(&choice(&["3", "0", "1"]), name, about).is_none());
    let odd = with_distractor(&choice(&["18446744073709551616", "-1"]), name, about);
    assert!(matches!(odd, Some(Question::Choice { criteria, .. }) if criteria.contains_key("purple")));
    assert!(!takes_distractor(&choice(&["a", "b"])));
    assert!(takes_distractor(&choice(&["a", "b", "c"])));
    assert!(!takes_distractor(&Question::Noul { instructions: None, criteria: None }));
}

#[test]
fn drawn_orders_hold_every_option() {
    let mut s = Shuffler::new(0);
    assert_eq!(s.order(4, 0), vec![0, 1, 2, 3]);
    assert_eq!(s.state, 0x2545_f491_4f6c_dd1d);
    let mut x = s.state;
    let mut want: Vec<usize> = (0..4).collect();
    for j in (1..4).rev() {
        x ^= x << 13;
        x ^= x >> 7;
        x ^= x << 17;
        let r = (x % (j as u64 + 1)) as usize;
        want.swap(j, r);
    }
    assert_eq!(s.order(4, 1), want);
    assert_eq!(s.state, x);
    for o in 1..20 {
        let mut order = s.order(7, o);
        order.sort();
        assert_eq!(order, (0..7).collect::<Vec<_>>());
    }
    assert_eq!(s.order(0, 3), Vec::<usize>::new());
}

#[test]
fn training_rows_are_found_by_their_marks() {
    let marks = vec![(0, Mark::OptEnd(0)), (1, Mark::OptEnd(1)), (2, Mark::Decide)];
    assert_eq!(pointer_rows(&marks, 3, 2).unwrap(), (2, vec![0, 1]));
    assert_eq!(pointer_rows(&marks, 2, 2).unwrap_err().message, "no decide row");
    assert_eq!(
        pointer_rows(&marks, 3, 3).unwrap_err().message,
        "expected 3 option rows, got 2"
    );
    assert_eq!(gold_slot(&vec![2, 0, 1], 0), Some(1));
    assert_eq!(gold_slot(&vec![2, 0, 1], 5), None);
    assert_eq!(option_count(&choice(&["a", "b", "c"])), 3);
    assert_eq!(option_count(&Question::Noul { instructions: None, criteria: None }), 2);
}

#[test]
fn a_feature_file_is_read_back() {
    let ts = vec![
        Feature {
            name: "decide".to_string(),
            dtype: "F16".to_string(),
            shape: vec![2, 2],
            bytes: number_bytes(&vec![0x3c00, 0x4000, 0, 1], 2),
        },
        Feature {
            name: "gold".to_string(),
            dtype: "I32".to_string(),
            shape: vec![2],
            bytes: number_bytes(&vec![7, 300], 4),
        },
    ];
    let meta = vec![("layout".to_string(), "gemma_label_pointer".to_string())];
    let (header, body) = lay_out_file(&ts, &meta);
    assert_eq!(body, vec![0, 0x3c, 0, 0x40, 0, 0, 1, 0, 7, 0, 0, 0, 44, 1, 0, 0]);
    let text = header_text(&header);
    assert_eq!(
        text,
        "{\"__metadata__\":{\"layout\":\"gemma_label_pointer\"},\"decide\":{\"dtype\":\"F16\",\"shape\":[2,2],\"data_offsets\":[0,8]},\"gold\":{\"dtype\":\"I32\",\"shape\":[2],\"data_offsets\":[8,16]}}"
    );
    let file = write_file(&text, &body);
    assert_eq!((file.len() - body.len()) % 8, 0);
    let st = SafeTensors::parse(&file).unwrap();
    let t = st.tensor("decide").unwrap();
    assert_eq!(t.shape, vec![2, 2]);
    assert_eq!(t.runs.len(), 1);
    assert!(matches!(&t.runs[0], Values::Half(v) if *v == vec![0x3c00, 0x4000, 0, 1]));
    assert_eq!(st.tensor("gold").unwrap_err().message, "gold: unsupported dtype I32");
}

fn branch(id: &str, keys: &[&str]) -> RenderedBranch {
    RenderedBranch {
        id: id.to_string(),
        kind: Kind::Choice,
        keys: keys.iter().map(|k| k.to_string()).collect(),
        order: (0..keys.len()).collect(),
        segments: Vec::new(),
        marks: Vec::new(),
    }
}

#[test]
fn rows_from_a_page_are_checked() {
    let bs = vec![branch("a", &["x", "y"]), branch("b", &["x", "y", "z"])];
    assert!(check_rows(&bs, &vec![2, 3], None, "rows").is_ok());
    assert!(check_rows(&bs, &vec![2, 3], Some(&vec![2, 3]), "rows").is_ok());
    let fault = |rows: Vec<usize>, base: Option<Vec<usize>>, what: &str| {
        check_rows(&bs, &rows, base.as_ref(), what).unwrap_err().message
    };
    assert_eq!(fault(vec![2], None, "rows2"), "1 rows2 for 2 branches");
    assert_eq!(fault(vec![2, 3], Some(vec![]), "rows"), "0 baseline rows for 2 branches");
    assert_eq!(fault(vec![2, 2], None, "rows"), "branch b: 2 logits for 3 options");
    assert_eq!(
        fault(vec![2, 2], Some(vec![1, 3]), "rows"),
        "branch a: 1 baseline logits for 2 options"
    );
    assert!(check_second(0, false).is_ok());
    assert!(check_second(4, true).is_ok());
    assert_eq!(
        check_second(4, false).unwrap_err().message,
        "4 second-pass branches need rows2"
    );
}

#[test]
fn a_page_is_told_the_constants() {
    assert_eq!(labels(), "ABCDEFGHIJKLMNOPQRSTUVWXYZabcdefghijklmnopqrstuvwxyz");
    assert_eq!(content_free_state(), "N/A");
    assert_eq!(label_cap(0), None);
    assert_eq!(label_cap(52), Some(52));
    assert_eq!(want_of("logits"), Want::Logits);
    assert_eq!(want_of("rows"), Want::Hidden);
    assert_eq!(export_name(&object(vec![("laya_name", text("laya-m"))])), "laya-m");
    assert_eq!(export_name(&Json::Null), "laya");
}

use grande::api::{Question, Request};
use grande::json::Json;
use grande::render::{default_family, Kind, Mark, RenderedBranch, Renderer, Segment};
use indexmap::IndexMap;

fn text(s: &str) -> Json {
    Json::Str(s.to_string())
}

fn req() -> Request {
    let mut questions = IndexMap::new();
    questions.insert(
        "refund".to_string(),
        Question::Noul { instructions: Some(text("返金を要求しているか")), criteria: None },
    );
    let mut departments = IndexMap::new();
    departments.insert("billing".to_string(), Some(text("請求・返金")));
    departments.insert("technical".to_string(), None);
    questions.insert(
        "dept".to_string(),
        Question::Choice { instructions: Some(text("担当部署は？")), criteria: departments },
    );
    questions.insert(
        "urgency".to_string(),
        Question::Score {
            instructions: Some(text("緊急度は？")),
            criteria: vec![text("通常"), text("早め"), text("即時")],
        },
    );
    Request {
        model: "grande-latest".to_string(),
        state: Json::Object(vec![(
            "ticket".to_string(),
            text("二重請求です。返金してください。"),
        )]),
        questions,
    }
}

fn special(s: &str) -> Segment {
    Segment::Special(s.to_string())
}

fn plain(s: &str) -> Segment {
    Segment::Text(s.to_string())
}

#[test]
fn label_layout_marks_last_token_and_letters_options() {
    let r = Renderer::gemma_label().render(&req());
    assert_eq!(r.branches.len(), 3);
    let dept = &r.branches[1];
    assert_eq!(dept.keys, vec!["billing", "technical"]);
    assert_eq!(dept.marks, vec![(dept.segments.len() - 1, Mark::Last)]);
    let Segment::Text(t) = &dept.segments[0] else { panic!() };
    assert!(t.contains("A: billing — 請求・返金\nB: technical\n"));
    let Segment::Text(p) = &r.prefix[2] else { panic!() };
    assert!(p.contains("ticket: 二重請求です。返金してください。"));
}

#[test]
fn label_pointer_layout_keeps_the_prompt_and_marks_option_ends() {
    let plain = Renderer::gemma_label().render(&req());
    let r = Renderer::gemma_label().pointer(true).render(&req());
    let dept = &r.branches[1];
    let text = |b: &RenderedBranch| {
        b.segments
            .iter()
            .map(|s| match s {
                Segment::Text(t) => t.clone(),
                Segment::Special(t) => t.clone(),
                Segment::Bos => String::new(),
            })
            .collect::<String>()
    };
    assert_eq!(text(dept), text(&plain.branches[1]));
    assert_eq!(
        dept.marks,
        vec![
            (0, Mark::OptEnd(0)),
            (1, Mark::OptEnd(1)),
            (dept.segments.len() - 1, Mark::Decide)
        ]
    );
    let Segment::Text(t) = &dept.segments[0] else { panic!() };
    assert!(t.ends_with("A: billing — 請求・返金"));
    let Segment::Text(t) = &dept.segments[1] else { panic!() };
    assert_eq!(t, "\nB: technical");
    assert_eq!(Renderer::gemma_label().pointer(true).layout_name(), "gemma_label_pointer");
}

#[test]
fn gemma_prefix_is_one_text_after_the_opener() {
    let r = Renderer::gemma_label().render(&req());
    assert_eq!(r.prefix.len(), 3);
    assert_eq!(r.prefix[0], Segment::Bos);
    assert_eq!(r.prefix[1], special("<|turn>"));
    let Segment::Text(p) = &r.prefix[2] else { panic!() };
    assert!(p.starts_with("user\nState:\nticket: "));
    let dept = &r.branches[1];
    let n = dept.segments.len();
    assert_eq!(
        &dept.segments[n - 4..],
        &[special("<turn|>"), plain("\n"), special("<|turn>"), plain("model\n")]
    );
}

#[test]
fn qwen_layout_has_no_bos_and_prefills_an_empty_thinking_block() {
    let r = Renderer::qwen_label().render(&req());
    assert_eq!(r.prefix[0], special("<|im_start|>"));
    assert!(matches!(&r.prefix[1], Segment::Text(t) if t.starts_with("user\nState:\n")));
    let dept = &r.branches[1];
    let n = dept.segments.len();
    assert_eq!(dept.marks, vec![(n - 1, Mark::Last)]);
    assert_eq!(
        &dept.segments[n - 8..],
        &[
            special("<|im_end|>"),
            plain("\n"),
            special("<|im_start|>"),
            plain("assistant\n"),
            special("<think>"),
            plain("\n\n"),
            special("</think>"),
            plain("\n\n"),
        ]
    );
    assert_eq!(Renderer::qwen_label().layout_name(), "qwen_label");
    assert_eq!(Renderer::qwen_label().terse(true).layout_name(), "qwen_label_terse");
}

#[test]
fn deepseek_layout_has_bos_and_no_role_lines() {
    let r = Renderer::deepseek_label().render(&req());
    assert_eq!(r.prefix[0], Segment::Bos);
    assert_eq!(r.prefix[1], special("<｜User｜>"));
    assert!(matches!(&r.prefix[2], Segment::Text(t) if t.starts_with("State:\n")));
    let dept = &r.branches[1];
    let n = dept.segments.len();
    assert_eq!(dept.marks, vec![(n - 1, Mark::Last)]);
    assert_eq!(dept.segments[n - 5], special("<｜Assistant｜>"));
    assert_eq!(dept.segments[n - 4], special("<think>"));
    assert_eq!(Renderer::deepseek_label().layout_name(), "deepseek_label");
    assert_eq!(
        Renderer::deepseek_label().pointer(true).layout_name(),
        "deepseek_label_pointer"
    );
}

#[test]
fn label_layout_json_defaults_to_the_gemma_family() {
    let j = Renderer::Label {
        family: default_family(),
        user_open: vec![Segment::Bos, special("<|turn>"), plain("user\n")],
        model_open: vec![special("<turn|>"), plain("\n"), special("<|turn>"), plain("model\n")],
        terse: false,
        pointer: false,
    };
    assert_eq!(j.layout_name(), "gemma_label");
    let a = Renderer::gemma_label().render(&req());
    let b = j.render(&req());
    assert_eq!(a.prefix, b.prefix);
    assert_eq!(a.branches[1].segments, b.branches[1].segments);
}

#[test]
fn pointer_layout_marks_every_option_and_decide() {
    let r = Renderer::gemma_pointer().render(&req());
    let urgency = &r.branches[2];
    assert_eq!(urgency.keys, vec!["0", "1", "2"]);
    let kinds: Vec<Mark> = urgency.marks.iter().map(|(_, m)| *m).collect();
    assert_eq!(
        kinds,
        vec![Mark::OptEnd(0), Mark::OptEnd(1), Mark::OptEnd(2), Mark::Decide]
    );
    assert!(matches!(urgency.segments.last(), Some(Segment::Special(s)) if s == "<unused4>"));
}

#[test]
fn permutation_reorders_keys_and_keeps_origin() {
    let mut orders = IndexMap::new();
    orders.insert("dept".to_string(), vec![1, 0]);
    let r = Renderer::gemma_label().render_with(&req(), &orders);
    assert_eq!(r.branches[1].keys, vec!["technical", "billing"]);
    assert_eq!(r.branches[1].order, vec![1, 0]);
}

#[test]
fn noul_renders_true_false() {
    let r = Renderer::gemma_pointer().render(&req());
    assert_eq!(r.branches[0].keys, vec!["true", "false"]);
    assert_eq!(r.branches[0].kind, Kind::Noul);
}

#[test]
fn a_delimited_question_reads_exactly_so() {
    let r = Renderer::gemma_pointer().render(&req());
    assert_eq!(
        r.prefix,
        vec![
            Segment::Bos,
            special("<unused0>"),
            plain("ticket: 二重請求です。返金してください。"),
        ]
    );
    let dept = &r.branches[1];
    let shown: Vec<String> = dept
        .segments
        .iter()
        .map(|s| match s {
            Segment::Bos => "<bos>".to_string(),
            Segment::Special(t) => t.clone(),
            Segment::Text(t) => format!("[{t}]"),
        })
        .collect();
    assert_eq!(
        shown.join(""),
        "<unused1>[担当部署は？]<unused2>[billing — 請求・返金]<unused3><unused2>[technical]<unused3><unused4>"
    );
    assert_eq!(
        dept.marks,
        vec![(4, Mark::OptEnd(0)), (7, Mark::OptEnd(1)), (8, Mark::Decide)]
    );
}

#[test]
fn a_gemma3_prompt_uses_its_own_turn_markers() {
    let r = Renderer::gemma3_label().render(&req());
    assert_eq!(r.prefix[1], special("<start_of_turn>"));
    let seg = &r.branches[0].segments;
    assert!(seg.contains(&special("<end_of_turn>")));
    assert_eq!(Renderer::gemma3_label().layout_name(), "gemma_label");
}

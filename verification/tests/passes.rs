use grande::bert::Sequence;
use grande::e5::E5Config;
use grande::e5_pass::{
    e5_launches, e5_pack, e5_param_slots, e5_push, e5_wiring, e5_workspace_sizes, split_outputs,
};
use grande::gpu::{
    check_expected, check_upload, shader_text, variant, variant_label, Block, Buf, Dispatch, Wire,
    Work, GELU_ERF, K,
};
use grande::json::Json;
use grande::laya::LayaConfig;
use grande::laya_pass::{
    laya_launches, laya_param_slots, laya_push, laya_wiring, laya_workspace_sizes, pack_hidden,
    split_hidden, Destination,
};
use grande::laya_weights::{sources, Part};
use grande::model::TensorSpec;
use grande::tensor::{Dtype, QTensor};

fn text(s: &str) -> Json {
    Json::Str(s.to_string())
}

fn object(fields: Vec<(&str, Json)>) -> Json {
    Json::Object(fields.into_iter().map(|(k, v)| (k.to_string(), v)).collect())
}

fn laya() -> LayaConfig {
    let encoder = object(vec![
        ("model_type", text("modernbert")),
        ("num_hidden_layers", Json::Uint(2)),
        ("hidden_size", Json::Uint(128)),
        ("num_attention_heads", Json::Uint(2)),
        ("vocab_size", Json::Uint(1000)),
        ("intermediate_size", Json::Uint(256)),
        ("local_attention", Json::Uint(16)),
    ]);
    let agent = object(vec![
        ("max_len", Json::Uint(40)),
        ("head_max_len", Json::Uint(24)),
        ("head_layers", Json::Uint(2)),
    ]);
    let tokens = object(vec![
        ("mask_token", text("[MASK]")),
        ("cls_token", text("[CLS]")),
        ("sep_token", text("[SEP]")),
        ("pad_token", text("[PAD]")),
    ]);
    let ids: Vec<(String, u32)> = [("[CLS]", 1), ("[SEP]", 2), ("[MASK]", 3), ("[PAD]", 0)]
        .iter()
        .map(|(s, i)| (s.to_string(), *i))
        .collect();
    LayaConfig::from_json(&encoder, &agent, &tokens, &ids).unwrap()
}

fn e5(kind: &str) -> E5Config {
    E5Config::from_json(&object(vec![
        ("model_type", text(kind)),
        ("hidden_size", Json::Uint(128)),
        ("max_position_embeddings", Json::Uint(512)),
        ("num_hidden_layers", Json::Uint(2)),
        ("vocab_size", Json::Uint(500)),
        ("num_attention_heads", Json::Uint(2)),
        ("intermediate_size", Json::Uint(256)),
        (
            "grande_e5",
            object(vec![
                ("head_hidden", Json::Uint(64)),
                ("cls", Json::Uint(1)),
                ("sep", Json::Uint(2)),
                ("pad", Json::Uint(0)),
                ("max_len", Json::Uint(6)),
            ]),
        ),
    ]))
    .unwrap()
}

fn labels(wires: &[Wire]) -> Vec<&str> {
    wires.iter().map(|w| w.label.as_str()).collect()
}

fn data(name: &str) -> Buf {
    Buf::Data(name.to_string())
}

fn kernels() -> Vec<K> {
    vec![
        K::Embed, K::Norm, K::Matmul, K::MatmulGated, K::Logits, K::Qk, K::Attention,
        K::PlCombine, K::PlGate, K::LayerNorm, K::PlainNorm, K::BiasAct, K::AttentionBi,
        K::RopeBi, K::Pool, K::PairFeats,
    ]
}

#[test]
fn kernels_have_names_of_their_own() {
    let ks = kernels();
    for (i, a) in ks.iter().enumerate() {
        assert_eq!(a.source(), format!("shaders/{}.wgsl", a.name()));
        assert!(a.bindings().iter().any(|w| *w), "{} writes nothing", a.name());
        for b in &ks[..i] {
            assert_ne!(a.name(), b.name());
        }
    }
    assert_eq!(K::Matmul.bindings(), vec![false, false, false, true]);
    assert_eq!(K::PlGate.bindings(), vec![false, true]);
}

#[test]
fn variants_are_shared_where_the_kernel_does_not_tell_them_apart() {
    assert_eq!(variant(K::Norm, 256, 2), (0, 0));
    assert_eq!(variant(K::Attention, 256, 2), (256, 0));
    assert_eq!(variant(K::Matmul, 256, 2), (0, 2));
    assert_eq!(variant_label(K::Attention, 64, 1), "attention/64/0");
    assert_eq!(variant_label(K::Logits, 64, 1), "logits/0/1");
}

#[test]
fn shaders_are_specialized_to_their_variant() {
    let source = "const HD: u32 = 256u;\nconst ROWS: u32 = 8u;\nconst KB: u32 = 16u;\n";
    assert_eq!(
        shader_text(K::Attention, 512, "shared", source),
        "const HD: u32 = 512u;\nconst ROWS: u32 = 16u;\nconst KB: u32 = 8u;\n"
    );
    assert_eq!(shader_text(K::Attention, 64, "shared", source), source);
    assert_eq!(shader_text(K::Matmul, 512, "shared", "fn main() {}"), "shared\nfn main() {}");
}

#[test]
fn a_laya_pass_is_wired_layer_by_layer() {
    let c = laya();
    let dtypes = vec![
        ("enc.0.qkv".to_string(), Dtype::Q8),
        ("enc.0.wi_val".to_string(), Dtype::Q4),
        ("enc.0.wi_gate".to_string(), Dtype::Q4),
    ];
    let wires = laya_wiring(&c, &dtypes).unwrap();
    let types = usize::from(c.type_emb);
    assert_eq!(wires.len(), 2 + 2 * 8 + types + 10 + 9);
    assert_eq!(
        labels(&wires[..10]),
        [
            "embed", "embed_norm", "mm_qkv", "rope", "attention", "mm_o", "add_o_norm", "mm_wi",
            "mm_wo", "add_wo_norm",
        ]
    );
    assert_eq!(wires[2].quant, Dtype::Q8.code());
    assert_eq!(
        wires[2].bufs[1..3],
        [data("enc.0.qkv"), Buf::Scales("enc.0.qkv".to_string())]
    );
    assert_eq!(wires[3].hd, 64);
    assert_eq!(wires[7].quant, Dtype::Q4.code() + GELU_ERF);
    // The first layer's closing norm is the second's opening one; the last
    // layer's is written over the residual stream.
    assert_eq!(wires[9].bufs[1], data("enc.1.attn_norm"));
    assert_eq!(wires[9].bufs[5], Buf::Work(Work::H));
    assert_eq!(wires[17].bufs[1], data("final_norm"));
    assert_eq!(wires[17].bufs[5], Buf::DummyRw);
    assert_eq!(wires.last().unwrap().label, "add_l2");
    for w in &wires {
        assert_eq!(w.bufs.len(), w.kernel.bindings().len(), "{}", w.label);
    }
}

#[test]
fn halves_of_a_laya_projection_share_a_storage_type() {
    let c = laya();
    let dtypes = vec![("enc.1.wi_val".to_string(), Dtype::Q8)];
    let e = laya_wiring(&c, &dtypes).unwrap_err();
    assert!(e.message.contains("layer 1"), "{}", e.message);
}

#[test]
fn a_laya_pass_launches_what_is_wired() {
    let c = laya();
    let ds = laya_launches(&c, 5);
    assert_eq!(ds.len(), laya_wiring(&c, &vec![]).unwrap().len());
    assert_eq!(
        ds[2],
        Dispatch { block: Block::Matmul { m: 5, n: 384, k: 128 }, wg: (3, 1) }
    );
    // Layer 0 attends everywhere, layer 1 within its window.
    let window = |d: &Dispatch| match d.block {
        Block::AttnBi { window, .. } => window,
        _ => panic!("not attention"),
    };
    assert!(!c.sliding[0] && c.sliding[1]);
    assert_eq!(window(&ds[4]), 0);
    assert_eq!(window(&ds[12]), c.window as u32);
    assert!(ds.len() <= laya_param_slots(2, 2));
    assert_eq!(laya_param_slots(2, 2), 10 + 20 + 22);
}

#[test]
fn a_laya_workspace_holds_the_capacity() {
    let c = laya();
    let sizes = laya_workspace_sizes(&c, 10, 3);
    let of = |w: Work| sizes.iter().find(|(k, _)| *k == w).unwrap().1;
    assert_eq!(of(Work::Ids), 40);
    assert_eq!(of(Work::Qkv), 10 * 384 * 4);
    assert_eq!(of(Work::Act), 10 * 512 * 4);
    assert_eq!(of(Work::Staging), 3 * 128 * 4);
    assert_eq!(of(Work::Params), 256 * 52);
}

fn sequence(ids: &[u32], markers: &[usize], qtype: usize) -> Sequence {
    Sequence { ids: ids.to_vec(), markers: markers.to_vec(), qtype }
}

#[test]
fn hidden_rows_come_back_per_sequence() {
    let c = laya();
    let seqs = vec![sequence(&[1, 3, 3, 2], &[1, 2], 0), sequence(&[1, 7, 3], &[2], 1)];
    let b = pack_hidden(&c, &seqs, 7, 5).unwrap();
    assert_eq!(b.ids, [1, 3, 3, 2, 1, 7, 3]);
    assert_eq!(b.qtypes, [0, 0, 0, 0, 1, 1, 1]);
    assert_eq!(
        b.wanted.iter().map(|w| w.2).collect::<Vec<_>>(),
        vec![0, 1, 2, 4, 6]
    );
    let data: Vec<u32> = (0..10).collect();
    let rows = split_hidden(&data, 2, &seqs);
    assert_eq!(rows, vec![vec![vec![0, 1], vec![2, 3], vec![4, 5]], vec![vec![6, 7], vec![8, 9]]]);
}

#[test]
fn a_laya_pass_that_does_not_fit_is_refused() {
    let c = laya();
    let seqs = vec![sequence(&[1, 3, 3, 2], &[1, 2], 0)];
    let of = |s: &Vec<Sequence>, cap: usize, rows: usize| {
        pack_hidden(&c, s, cap, rows).unwrap_err().message
    };
    assert_eq!(of(&vec![], 4, 4), "empty request");
    assert_eq!(of(&seqs, 3, 4), "4 tokens exceed the engine capacity 3");
    assert_eq!(of(&seqs, 4, 2), "3 rows requested, engine reads back at most 2");
    assert!(pack_hidden(&c, &vec![sequence(&[1000], &[], 0)], 4, 4).is_err());
}

fn flat(dtype: Dtype, shape: Vec<usize>, bytes: usize) -> QTensor {
    QTensor { dtype, shape, data: vec![0; bytes], scales: vec![] }
}

#[test]
fn laya_tensors_are_checked_on_arrival() {
    let c = laya();
    let expected = c.tensors();
    let one = |name: &str| expected.iter().find(|t| t.name == name).unwrap();
    let scorer: &TensorSpec =
        expected.iter().find(|t| t.name.starts_with("scorer")).unwrap();
    let embed = one("embed");
    let t = flat(Dtype::F16, embed.shape.clone(), 2 * embed.shape.iter().product::<usize>());
    assert_eq!(laya_push(&expected, "embed", &t).unwrap(), Destination::Device);
    assert!(check_expected(&expected, "embed", &t).is_ok());
    assert!(check_upload("embed", &t).is_ok());
    let s = flat(Dtype::F16, scorer.shape.clone(), 2 * scorer.shape.iter().product::<usize>());
    assert_eq!(laya_push(&expected, &scorer.name, &s).unwrap(), Destination::Host);
    assert_eq!(
        laya_push(&expected, "nope", &t).unwrap_err().message,
        check_expected(&expected, "nope", &t).unwrap_err().message
    );
    let wrong = flat(Dtype::F16, vec![1, 2], 4);
    assert!(laya_push(&expected, "embed", &wrong).is_err());
}

#[test]
fn laya_weights_come_from_their_checkpoint_names() {
    let ss = sources(2, 1);
    let part = |name: &str| &ss.iter().find(|s| s.name == name).unwrap().part;
    assert!(matches!(part("enc.1.wi_val"), Part::Value(_)));
    assert!(matches!(part("enc.1.wi_gate"), Part::Gate(_)));
    assert!(matches!(part("enc.1.qkv"), Part::Whole));
    // The first layer has no attention norm of its own.
    assert!(ss.iter().all(|s| s.name != "enc.0.attn_norm"));
    assert!(ss.iter().any(|s| s.name == "enc.1.attn_norm"));
}

#[test]
fn an_e5_pass_is_wired_for_its_encoder() {
    let (enc, head) = e5_wiring(&e5("bert"), &vec![]).unwrap();
    assert_eq!(enc.len(), 4 + 2 * 11 + 1);
    assert_eq!(
        labels(&enc[..9]),
        ["embed", "pos_embed", "embed_add", "embed_norm", "mm_qkv", "bias_qkv", "attention",
            "mm_o", "add_o"]
    );
    assert_eq!(
        labels(&head),
        ["pair_feats", "head_l1", "head_gelu", "head_l2", "head_bias"]
    );
    let (modern, _) = e5_wiring(&e5("modernbert"), &vec![]).unwrap();
    assert_eq!(modern.len(), 2 + 9 + 10 + 2);
    assert_eq!(labels(&modern[modern.len() - 2..]), ["final_norm", "pool"]);
    for w in enc.iter().chain(&head).chain(&modern) {
        assert_eq!(w.bufs.len(), w.kernel.bindings().len(), "{}", w.label);
    }
}

#[test]
fn an_e5_pass_launches_what_is_wired() {
    for kind in ["bert", "modernbert"] {
        let c = e5(kind);
        let (enc, head) = e5_wiring(&c, &vec![]).unwrap();
        let (a, b) = e5_launches(&c, 6, 2, 3);
        assert_eq!((a.len(), b.len()), (enc.len(), head.len()));
        assert!(a.len() + b.len() <= e5_param_slots(c.layers));
        assert_eq!(
            a.last().unwrap(),
            &Dispatch { block: Block::Count { n: 2, d: 128 }, wg: (2, 1) }
        );
        assert!(e5_launches(&c, 0, 0, 3).0.is_empty());
        assert!(e5_launches(&c, 6, 2, 0).1.is_empty());
    }
    assert_eq!(e5_param_slots(2), 34);
}

#[test]
fn an_e5_workspace_holds_the_capacity() {
    let c = e5("bert");
    let sizes = e5_workspace_sizes(&c, 8, 4);
    let of = |w: Work| sizes.iter().find(|(k, _)| *k == w).unwrap().1;
    assert_eq!(of(Work::Spans), 48);
    assert_eq!(of(Work::Vectors), 4 * 128 * 4);
    assert_eq!(of(Work::Staging), 4 * 129 * 4);
    assert_eq!(of(Work::Act), 8 * 256 * 4);
}

#[test]
fn texts_and_pairs_are_packed_into_a_pass() {
    let c = e5("bert");
    let seqs = vec![vec![1, 5, 2], vec![1, 6, 7, 2]];
    let b = e5_pack(&c, &seqs, &vec![0, 2], &vec![(1, 128)], &vec![(0, 1), (0, 2)], 7, 3).unwrap();
    assert_eq!(b.ids, [1, 5, 2, 1, 6, 7, 2]);
    assert_eq!(b.positions, [0, 1, 2, 0, 1, 2, 3]);
    assert_eq!(b.spans, [0, 3, 0, 3, 7, 2]);
    assert_eq!(b.pairs, [0, 1, 0, 2]);
    assert_eq!(b.meta.len(), 4 * 7);
    let data: Vec<u32> = (0..8).collect();
    let (vectors, logits) = split_outputs(&data, 3, 2);
    assert_eq!(vectors, vec![vec![0, 1, 2], vec![3, 4, 5]]);
    assert_eq!(logits, vec![6, 7]);
}

#[test]
fn an_e5_pass_that_does_not_fit_is_refused() {
    let c = e5("bert");
    let of = |seqs: Vec<Vec<u32>>, slots: Vec<u32>, up: Vec<(u32, usize)>, pairs: Vec<(u32, u32)>| {
        e5_pack(&c, &seqs, &slots, &up, &pairs, 4, 2).unwrap_err().message
    };
    assert_eq!(
        of(vec![vec![1, 2, 3, 4, 5]], vec![0], vec![], vec![]),
        "5 tokens exceed the engine capacity 4"
    );
    assert_eq!(of(vec![vec![1]], vec![], vec![], vec![]), "1 sequences for 0 slots");
    assert_eq!(
        of(vec![vec![1]], vec![2], vec![], vec![]),
        "3 vector slots / 0 pairs exceed the engine's 2 per pass"
    );
    assert!(!of(vec![vec![500]], vec![0], vec![], vec![]).is_empty());
    assert!(!of(vec![], vec![], vec![(0, 3)], vec![]).is_empty());
}

#[test]
fn e5_tensors_are_checked_on_arrival() {
    let expected = vec![TensorSpec { name: "head.l2_b".to_string(), shape: vec![1] }];
    let t = flat(Dtype::F16, vec![1], 2);
    assert!(e5_push(&expected, "head.l2_b", &t).is_ok());
    assert!(e5_push(&expected, "head.l1_b", &t).is_err());
    assert!(e5_push(&expected, "head.l2_b", &flat(Dtype::F16, vec![2], 4)).is_err());
}

use grande::backend::{BranchTokens, Token, Want};
use grande::features::{header_text, lay_out_file, number_bytes, write_file, Feature};
use grande::gemma::{
    kv_size, launches, launches_of_first, pack_stream, param_slots, push, set_per_layer_table,
    split_rows, steps_of_first, widest, wiring, workspace_sizes, Placement,
};
use grande::gpu::{
    attn_tile, attn_workgroup_bytes, check_adapter, check_complete, missing, pad_words,
    stored_dtype, Adapter, Block, K,
};
use grande::json::Json;
use grande::model::{Arch, Config, QueryScale, Scalar};
use grande::tensor::{
    can_stack, concat_rows, decode, elements, read_le, Dtype, Element, ManifestEntry, QTensor, RawTensor,
    SafeTensors, Values,
};
use grande::web::config_text;
use grande::weights::{check_embed, check_single_head, load_steps, RawWeights, Weights};

fn text(s: &str) -> Json {
    Json::Str(s.to_string())
}

fn object(fields: Vec<(&str, Json)>) -> Json {
    Json::Object(fields.into_iter().map(|(k, v)| (k.to_string(), v)).collect())
}

fn fields() -> Vec<(&'static str, Json)> {
    vec![
        ("num_hidden_layers", Json::Uint(2)),
        ("head_dim", Json::Uint(256)),
        ("intermediate_size", Json::Uint(32)),
        ("vocab_size", Json::Uint(3)),
        ("hidden_size", Json::Uint(32)),
        ("num_attention_heads", Json::Uint(2)),
        ("num_key_value_heads", Json::Uint(1)),
    ]
}

fn with(key: &'static str, v: Json) -> Json {
    let mut f = fields();
    f.retain(|(k, _)| *k != key);
    f.push((key, v));
    object(f)
}

fn read(v: &Json) -> Result<Config, String> {
    assert!(Config::is_sane(v));
    let (dims, parts) = Config::rotary(v);
    let part = |hd: usize, bits: u64| (hd as f64 * f64::from_bits(bits)) as usize;
    Config::from_json(v, (part(dims.0, parts.0), part(dims.1, parts.1))).map_err(|e| e.message)
}

fn config() -> Config {
    read(&object(fields())).unwrap()
}

#[test]
fn a_gemma3_checkpoint_is_described() {
    let c = config();
    assert_eq!(c.arch, Arch::Gemma3);
    assert_eq!(c.sliding, vec![true, true]);
    assert_eq!(c.kv_source, vec![0, 1]);
    assert_eq!(c.rope_dims, vec![256, 256]);
    assert_eq!(c.ff, vec![32, 32]);
    assert_eq!((c.window, c.bos), (512, 2));
    assert_eq!(f64::from_bits(c.eps), 1e-6);
    assert_eq!(f64::from_bits(c.theta_global), 1e6);
    assert_eq!(f64::from_bits(c.theta_local), 1e4);
    assert_eq!(f64::from_bits(c.norm_offset), 1.0);
    assert_eq!(c.query_scale, QueryScale::InverseRoot(Scalar::Whole(256)));
    assert!(!c.v_norm);
    assert!(c.validate().is_ok());
    assert!(c.widths_are_sizes());
    assert_eq!(c.qkv_width(0), 4 * 256);
    assert_eq!(c.max_head_dim(), 256);
    assert_eq!(
        config_text(&c),
        "{\"d\":32,\"vocab\":3,\"bos\":2,\"per_layer_dim\":0,\"layers\":2}"
    );
}

#[test]
fn a_gemma4_checkpoint_shares_keys_and_values() {
    let types = ["sliding_attention", "full_attention", "sliding_attention", "full_attention"];
    let mut f = fields();
    f.retain(|(k, _)| *k != "num_hidden_layers");
    f.extend(vec![
        ("num_hidden_layers", Json::Uint(4)),
        ("model_type", text("gemma4_text")),
        ("layer_types", Json::Array(types.iter().map(|t| text(t)).collect())),
        ("global_head_dim", Json::Uint(512)),
        ("num_kv_shared_layers", Json::Uint(2)),
        ("use_double_wide_mlp", Json::Bool(true)),
        ("hidden_size_per_layer_input", Json::Uint(32)),
        (
            "rope_parameters",
            object(vec![(
                "full_attention",
                object(vec![
                    ("partial_rotary_factor", Json::Float(0.25f64.to_bits())),
                    ("rope_theta", Json::Uint(5)),
                ]),
            )]),
        ),
    ]);
    let c = read(&object(vec![("text_config", object(f))])).unwrap();
    assert_eq!(c.arch, Arch::Gemma4);
    assert_eq!(c.kv_source, vec![0, 1, 0, 1]);
    assert_eq!(c.head_dim, vec![256, 512, 256, 512]);
    assert_eq!(c.rope_dims, vec![256, 128, 256, 128]);
    assert_eq!(c.ff, vec![32, 32, 64, 64]);
    assert_eq!(f64::from_bits(c.theta_global), 5.0);
    assert_eq!(c.query_scale, QueryScale::One);
    assert!(c.v_norm && c.validate().is_ok());
    assert!(!c.has_kv(2) && c.has_kv(1));
    assert_eq!(c.qkv_width(2), 512);
    let names: Vec<String> = c.tensors().into_iter().map(|t| t.name).collect();
    assert!(names.contains(&"blk.1.k_norm".to_string()));
    assert!(!names.contains(&"blk.2.k_norm".to_string()));
    assert!(names.contains(&"blk.3.out_scale".to_string()));
    let table = QTensor::from_f16(vec![3, 128], &vec![0; 384]);
    assert!(set_per_layer_table(&c, &table).is_ok());
    assert_eq!(
        set_per_layer_table(&c, &QTensor::from_f16(vec![3, 1], &vec![0; 3])).unwrap_err().message,
        "per-layer table: shape [3, 1], expected [3, 128]"
    );
}

#[test]
fn a_configuration_that_cannot_be_read_is_refused() {
    let mut f = fields();
    f.remove(0);
    assert_eq!(read(&object(f)).unwrap_err(), "config.json: missing num_hidden_layers");
    assert_eq!(
        read(&with("layer_types", Json::Array(vec![text("x")]))).unwrap_err(),
        "config.json: layer_types has 1 entries for 2 layers"
    );
    assert_eq!(
        read(&with("num_kv_shared_layers", Json::Uint(2))).unwrap_err(),
        "num_kv_shared_layers 2 >= 2 layers"
    );
    assert_eq!(
        read(&with("intermediate_size", text("x"))).unwrap_err(),
        "config.json: missing intermediate_size"
    );
    assert_eq!(
        read(&with("intermediate_size", Json::Array(vec![Json::Uint(32)]))).unwrap_err(),
        "config.json: intermediate_size has 1 entries for 2 layers"
    );
}

#[test]
fn a_configuration_that_cannot_run_is_refused() {
    let fault = |key: &'static str, v: u64| {
        read(&with(key, Json::Uint(v))).unwrap().validate().unwrap_err().message
    };
    assert_eq!(
        fault("num_key_value_heads", 3),
        "num_key_value_heads 3 must divide num_attention_heads 2"
    );
    assert_eq!(
        fault("num_attention_heads", 3),
        "query heads per KV head must divide 16 (got 3 / 1)"
    );
    assert_eq!(fault("head_dim", 128), "layer 0: head_dim must be 256 or 512 (got 128)");
    assert_eq!(
        fault("hidden_size", 33),
        "hidden_size and intermediate_size must be multiples of 32"
    );
    assert_eq!(
        fault("hidden_size_per_layer_input", 5),
        "hidden_size_per_layer_input must be a multiple of 32"
    );
}

#[test]
fn one_head_engines_take_few_checkpoints() {
    assert!(check_single_head(1, 256, 4, 32, 64).is_ok());
    let fault = |a, b, c, d, e| check_single_head(a, b, c, d, e).unwrap_err().message;
    assert_eq!(fault(2, 256, 4, 32, 64), "only one KV head is supported (got 2)");
    assert_eq!(fault(1, 128, 4, 32, 64), "head_dim must be 256 (got 128)");
    assert_eq!(fault(1, 256, 3, 32, 64), "num_attention_heads must divide 16 (got 3)");
    assert_eq!(
        fault(1, 256, 4, 32, 65),
        "hidden_size and intermediate_size must be multiples of 16"
    );
    assert!(check_embed(&vec![3, 32], 3, 32).is_ok());
    assert_eq!(
        check_embed(&vec![3], 3, 32).unwrap_err().message,
        "embed_tokens is [3], config says [3, 32]"
    );
}

#[test]
fn storage_types_have_sizes() {
    assert_eq!(Dtype::parse("q8").unwrap(), Dtype::Q8);
    assert!(Dtype::parse("f64").is_err());
    assert_eq!(
        [Dtype::F16.code(), Dtype::Q8.code(), Dtype::Q4.code()],
        [0, 1, 2]
    );
    assert_eq!(
        [Dtype::F16.payload_bytes(64), Dtype::Q8.payload_bytes(64), Dtype::Q4.payload_bytes(64)],
        [128, 64, 32]
    );
    assert_eq!(elements(&vec![3, 4]), Some(12));
    assert_eq!(elements(&vec![]), Some(1));
    assert_eq!(elements(&vec![usize::MAX, 2]), None);
    let t = QTensor::from_raw(Dtype::Q8, vec![2, 32], vec![0; 64], vec![0; 4]).unwrap();
    assert_eq!(t.numel(), 64);
    assert!(QTensor::from_raw(Dtype::Q8, vec![2, 32], vec![0; 63], vec![0; 4]).is_err());
    assert!(QTensor::from_raw(Dtype::Q8, vec![2, 32], vec![0; 64], vec![0; 2]).is_err());
    let h = QTensor::from_f16(vec![2], &vec![0x3c00, 0x1234]);
    assert_eq!(h.data, vec![0x00, 0x3c, 0x34, 0x12]);
}

#[test]
fn numbers_are_decoded() {
    assert_eq!(read_le(&[1, 2, 3, 4], 1, 2), 0x0302);
    assert!(matches!(decode("F16", &[0, 0x3c, 9]), Some(Values::Half(v)) if v == vec![0x3c00]));
    assert!(matches!(decode("F32", &[0, 0, 128, 63]), Some(Values::Single(v)) if v == vec![0x3f80_0000]));
    assert!(matches!(decode("BF16", &[128, 63]), Some(Values::Single(v)) if v == vec![0x3f80_0000]));
    assert!(decode("I8", &[0]).is_none());
}

fn feature(name: &str, shape: Vec<usize>) -> Feature {
    let n: usize = shape.iter().product();
    Feature {
        name: name.to_string(),
        dtype: "F16".to_string(),
        shape,
        bytes: number_bytes(&(0..n as u64).map(|i| i % 7).collect(), 2),
    }
}

fn file(ts: &Vec<Feature>) -> Vec<u8> {
    let (header, body) = lay_out_file(ts, &Vec::new());
    write_file(&header_text(&header), &body)
}

fn gemma_file(prefix: &str) -> Vec<u8> {
    let mut ts = vec![
        feature(&format!("{prefix}embed_tokens.weight"), vec![3, 32]),
        feature(&format!("{prefix}norm.weight"), vec![32]),
    ];
    for l in 0..2 {
        for (name, shape) in [
            ("input_layernorm.weight", vec![32]),
            ("self_attn.q_proj.weight", vec![512, 32]),
            ("self_attn.k_proj.weight", vec![256, 32]),
            ("self_attn.v_proj.weight", vec![256, 32]),
            ("self_attn.q_norm.weight", vec![256]),
            ("self_attn.k_norm.weight", vec![256]),
            ("self_attn.o_proj.weight", vec![32, 512]),
            ("post_attention_layernorm.weight", vec![32]),
            ("pre_feedforward_layernorm.weight", vec![32]),
            ("mlp.gate_proj.weight", vec![32, 32]),
            ("mlp.up_proj.weight", vec![32, 32]),
            ("mlp.down_proj.weight", vec![32, 32]),
            ("post_feedforward_layernorm.weight", vec![32]),
        ] {
            ts.push(feature(&format!("{prefix}layers.{l}.{name}"), shape));
        }
    }
    file(&ts)
}

#[test]
fn a_checkpoint_is_loaded_under_the_engines_names() {
    for prefix in ["", "model."] {
        let w = RawWeights::load(config(), &gemma_file(prefix)).unwrap();
        let want: Vec<String> = config().tensors().into_iter().map(|t| t.name).collect();
        let mut have: Vec<String> = w.tensors.iter().map(|(n, _)| n.clone()).collect();
        assert_eq!(have.len(), want.len());
        have.sort();
        for name in &want {
            assert!(have.contains(name), "{name}");
        }
        let (_, qkv) = w.tensors.iter().find(|(n, _)| n == "blk.1.qkv").unwrap();
        assert_eq!(qkv.shape, vec![1024, 32]);
        assert_eq!(qkv.runs.len(), 3);
    }
    assert_eq!(load_steps("m.", 1)[2].parts, vec!["m.layers.0.input_layernorm.weight"]);
}

#[test]
fn a_file_that_lacks_a_tensor_is_refused() {
    let small = file(&vec![feature("norm.weight", vec![32])]);
    assert_eq!(
        RawWeights::load(config(), &small).err().unwrap().message,
        "safetensors: missing embed_tokens.weight"
    );
    assert_eq!(SafeTensors::parse(&[1, 2]).err().unwrap().message, "safetensors: too short");
    assert_eq!(
        SafeTensors::parse(&[255, 0, 0, 0, 0, 0, 0, 0]).err().unwrap().message,
        "safetensors: header out of range"
    );
    assert_eq!(
        SafeTensors::parse(&[1, 0, 0, 0, 0, 0, 0, 0, b'{']).err().unwrap().message,
        "safetensors header: EOF while parsing an object at line 1 column 1"
    );
    let short = file(&vec![Feature {
        name: "t".to_string(),
        dtype: "F16".to_string(),
        shape: vec![3],
        bytes: vec![0; 4],
    }]);
    let st = SafeTensors::parse(&short).unwrap();
    assert!(st.lists("t") && !st.lists("u"));
    assert_eq!(st.tensor("t").unwrap_err().message, "t: 2 values for shape [3]");
}

#[test]
fn rows_are_stacked() {
    let part = |rows: usize, cols: usize| RawTensor {
        shape: vec![rows, cols],
        runs: vec![Values::Half(vec![rows as u16; rows * cols])],
    };
    let parts = vec![part(1, 2), part(2, 2)];
    assert!(can_stack(&parts));
    let all = concat_rows(&parts);
    assert_eq!(all.shape, vec![3, 2]);
    assert_eq!(all.runs.len(), 2);
    assert!(!can_stack(&vec![part(1, 2), part(1, 3)]));
}

#[test]
fn an_exported_tensor_is_cut_out_of_its_file() {
    let e = ManifestEntry {
        name: "t".to_string(),
        dtype: "q8".to_string(),
        shape: vec![1, 32],
        offset: 2,
        nbytes: 32,
        scales_offset: 34,
        scales_nbytes: 2,
        path: None,
    };
    let bytes: Vec<u8> = (0..36).collect();
    let t = e.tensor(&bytes).unwrap();
    assert_eq!((t.data[0], t.data[31], t.scales.clone()), (2, 33, vec![34, 35]));
    assert!(e.tensor(&bytes[..35]).is_err());
    let huge = ManifestEntry { shape: vec![usize::MAX / 2 + 1], ..e };
    assert_eq!(
        huge.tensor(&bytes).unwrap_err().message,
        "Q8 tensor [9223372036854775808]: 32 payload bytes, expected 9223372036854775808"
    );
}

#[test]
fn a_shared_layer_needs_an_earlier_one_of_its_type() {
    let layered = |types: &[&str], shared: u64| {
        let mut f = fields();
        f.retain(|(k, _)| *k != "num_hidden_layers");
        f.extend(vec![
            ("num_hidden_layers", Json::Uint(types.len() as u64)),
            ("layer_types", Json::Array(types.iter().map(|t| text(t)).collect())),
            ("num_kv_shared_layers", Json::Uint(shared)),
        ]);
        read(&object(f))
    };
    let (s, g) = ("sliding_attention", "full_attention");
    assert_eq!(
        layered(&[s, s, s, g], 2).unwrap_err(),
        "layer 3 has no earlier K/V layer of its type to share"
    );
    assert_eq!(layered(&[s, g, s, s, g], 2).unwrap().kv_source, vec![0, 1, 2, 2, 1]);
}

#[test]
fn held_tensors_are_checked_against_the_catalogue() {
    let tensors: Vec<(String, QTensor)> = config()
        .tensors()
        .into_iter()
        .map(|t| {
            let n = t.shape.iter().product::<usize>();
            (t.name, QTensor::from_f16(t.shape, &vec![0; n]))
        })
        .collect();
    let mut w = Weights { config: config(), tensors, per_layer_table: None };
    assert!(w.check().is_ok());
    assert_eq!(w.get("embed").unwrap().shape, vec![3, 32]);
    assert_eq!(w.get("none").unwrap_err().message, "missing tensor none");
    w.tensors[0].1.shape = vec![3, 31];
    assert_eq!(w.check().unwrap_err().message, "embed: shape [3, 31], expected [3, 32]");
}

#[test]
fn the_wiring_has_a_kernel_per_launch() {
    let c = config();
    let dtypes: Vec<(String, Dtype)> =
        c.tensors().into_iter().map(|t| (t.name, Dtype::F16)).collect();
    let wires = wiring(&c, &dtypes).unwrap();
    let logits = launches(&c, 5, 2, Want::Logits);
    let hidden = launches(&c, 5, 2, Want::Hidden);
    assert_eq!(wires.len(), logits.len());
    assert_eq!(hidden.len() + 1, logits.len());
    assert_eq!(wires[0].kernel, K::Embed);
    assert!(param_slots(2) >= wires.len());
    assert_eq!(stored_dtype(&vec![("a".to_string(), Dtype::Q4)], "a"), Dtype::Q4);
    let w = widest(&c);
    assert_eq!((w.qkv, w.attn, w.act), (1024, 512, 32));
    assert!(!workspace_sizes(&c, 16, 4, w).is_empty());
    assert_eq!(kv_size(&c, 16, 0), Some(16 * 2 * 256 * 4));
    assert_eq!(K::Matmul.source(), "shaders/matmul.wgsl");
    assert!(K::Matmul.reads_weights() && K::Attention.uses_head_dim());
}

fn taken(k: K, b: Block) -> bool {
    match b {
        Block::Embed { .. } => k == K::Embed,
        Block::Norm { .. } => k == K::Norm,
        Block::Matmul { .. } => k == K::Matmul || k == K::MatmulGated || k == K::Logits,
        Block::Qk { .. } => k == K::Qk,
        Block::Attn { .. } => k == K::Attention,
        _ => false,
    }
}

#[test]
fn the_first_layers_run_alone() {
    let c = config();
    let wires = wiring(&c, &vec![]).unwrap();
    for want in [Want::Logits, Want::Hidden] {
        let all = launches(&c, 5, 2, want);
        for n in 0..4 {
            let ds = launches_of_first(&c, 5, 2, want, n);
            let steps = steps_of_first(&c, n, want);
            assert_eq!(ds.len(), steps.len());
            for (d, &i) in ds.iter().zip(&steps) {
                assert_eq!(d, &all[i]);
                assert!(taken(wires[i].kernel, d.block), "{:?} {:?}", wires[i].kernel, d);
            }
        }
        assert_eq!(launches_of_first(&c, 5, 2, want, 2), all);
        assert_eq!(launches_of_first(&c, 5, 2, want, usize::MAX), all);
    }
    assert_eq!(steps_of_first(&c, 0, Want::Logits), vec![0, 21, 22]);
    assert_eq!(steps_of_first(&c, 0, Want::Hidden), vec![0, 21]);
    let one: Vec<usize> = (0..11).chain([21, 22]).collect();
    assert_eq!(steps_of_first(&c, 1, Want::Logits), one);
}

#[test]
fn numbers_come_back_from_their_blocks() {
    let codes: Vec<i8> = (0..64).map(|i| (i * 7 % 16) as i8 - 8).collect();
    let scales = vec![0x3c00, 0xb800];
    let q4 = QTensor::from_codes(Dtype::Q4, vec![2, 32], &codes, &scales).unwrap();
    assert_eq!((q4.data.len(), q4.scales.clone()), (32, vec![0x00, 0x3c, 0x00, 0xb8]));
    assert_eq!(q4.data[0], (codes[0] + 8) as u8 | ((codes[16] + 8) as u8) << 4);
    let wide: Vec<i8> = (0..64).map(|i| (i * 4 - 128) as i8).collect();
    let q8 = QTensor::from_codes(Dtype::Q8, vec![64], &wide, &scales).unwrap();
    assert_eq!((q8.data[0], q8.data[1], q8.data[63]), (128, 132, 124));
    for i in 0..64 {
        assert_eq!(q4.get(i), Element::Scaled(codes[i], scales[i / 32]));
        assert_eq!(q8.get(i), Element::Scaled(wide[i], scales[i / 32]));
    }
    let f16 = QTensor::from_f16(vec![3], &vec![0x3c00, 0x1234, 0xffff]);
    assert_eq!(f16.get(0), Element::Half(0x3c00));
    assert_eq!(f16.get(1), Element::Half(0x1234));
    assert_eq!(f16.get(2), Element::Half(0xffff));
    let short = |t| QTensor::from_codes(t, vec![33], &vec![0; 33], &vec![0]).unwrap_err().message;
    assert_eq!(short(Dtype::Q8), "q8: 33 values is not a multiple of 32");
    assert_eq!(short(Dtype::Q4), "q4: 33 values is not a multiple of 32");
}

#[test]
fn branches_are_packed_behind_the_prefix() {
    let branch = |v: &[i32], want: &[usize]| BranchTokens {
        tokens: v.iter().map(|&t| Token(t)).collect(),
        want: want.to_vec(),
    };
    let bs = vec![branch(&[5, 6], &[1]), branch(&[7], &[0])];
    let s = pack_stream(&vec![1, 2], &bs, 16, 4, 10).unwrap();
    assert_eq!(s.ids, vec![1, 2, 5, 6, 7]);
    assert_eq!(s.meta, vec![0, 0, 1, 0, 2, 1, 3, 1, 2, 2]);
    assert_eq!(s.wanted, vec![(0, 0, 3), (1, 0, 4)]);
    let sees = |ids: &[u32], meta: &[i32], x: usize| -> Vec<(u32, i32)> {
        (0..ids.len())
            .filter(|&y| {
                let own = meta[2 * y + 1] == 0 || meta[2 * y + 1] == meta[2 * x + 1];
                own && meta[2 * y] <= meta[2 * x]
            })
            .map(|y| (ids[y], meta[2 * y]))
            .collect()
    };
    let alone = pack_stream(&vec![1, 2], &vec![branch(&[7], &[0])], 16, 4, 10).unwrap();
    assert_eq!(sees(&s.ids, &s.meta, 4), vec![(1, 0), (2, 1), (7, 2)]);
    assert_eq!(sees(&s.ids, &s.meta, 4), sees(&alone.ids, &alone.meta, 2));
    let fault = |prefix: Vec<u32>, bs: &Vec<BranchTokens>, capacity, rows| {
        pack_stream(&prefix, bs, capacity, rows, 10).unwrap_err().message
    };
    assert_eq!(fault(vec![1], &bs, 3, 4), "4 tokens exceed the engine capacity 3");
    assert_eq!(fault(vec![], &vec![], 3, 4), "empty request");
    assert_eq!(
        fault(vec![1], &bs, 9, 1),
        "2 rows requested, engine reads back at most 1"
    );
    assert!(pack_stream(&vec![10], &bs, 9, 4, 10).is_err());
    assert!(pack_stream(&vec![1], &vec![branch(&[5], &[1])], 9, 4, 10).is_err());
    let rows = split_rows(&vec![1, 2, 3, 4], 2, &bs);
    assert_eq!(rows[0].rows, vec![vec![1, 2]]);
    assert_eq!(rows[1].rows, vec![vec![3, 4]]);
}

#[test]
fn what_is_uploaded_is_checked() {
    let expected = config().tensors();
    let embed = QTensor::from_f16(vec![3, 32], &vec![0; 96]);
    assert!(matches!(push(&expected, "embed", &embed), Ok(Placement::Device)));
    assert!(push(&expected, "embedding", &embed).is_err());
    let have: Vec<String> = expected[1..].iter().map(|t| t.name.clone()).collect();
    assert_eq!(missing(&expected, &have), vec!["embed"]);
    assert!(check_complete(&expected, &have).is_err());
    assert_eq!(pad_words(&vec![1, 2, 3, 4, 5]), vec![1, 2, 3, 4, 5, 0, 0, 0]);
    assert_eq!(attn_tile(256), (8, 16));
    assert_eq!(attn_tile(512), (16, 8));
    assert_eq!(attn_workgroup_bytes(256), 12996);
    let a = Adapter { storage_buffers: 8, workgroup_memory: 16384, binding_size: 1 << 20 };
    assert!(check_adapter(a, 256, 12996, 4096).is_ok());
    assert_eq!(
        check_adapter(Adapter { storage_buffers: 4, ..a }, 256, 12996, 4096).unwrap_err().message,
        "adapter allows 4 storage buffers per stage; the kernels need 6"
    );
    assert_eq!(
        check_adapter(a, 512, 20000, 4096).unwrap_err().message,
        "attention at head_dim 512 needs 20000 bytes of workgroup memory; adapter allows 16384"
    );
    assert_eq!(
        check_adapter(a, 256, 12996, 1 << 21).unwrap_err().message,
        "embedding table needs a 2097152-byte storage binding; adapter allows 1048576"
    );
}

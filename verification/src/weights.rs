//! Host copies of checkpoints: loading a safetensors file under the names the
//! engine uses, and checking a set of tensors against the catalogue.

use vstd::prelude::*;
use vstd::string::StringExecFns;

use crate::error::LoadError;
use crate::json::{has_field, JsonView};
use crate::map::find;
use crate::model::{
    catalogue, layer_name, layer_tensors, own_kv, ratio_covered, shaped, widths_fit, Arch, Config, NamedShape, TensorSpec,
};
use crate::model::{block_name, spec_views};
use crate::tensor::{
    can_stack, concat_rows, raw_views, stackable, stacked, tensor_at, tensor_fault, QTensor,
    RawTensor, RawView, SafeTensors,
};
use crate::text::{
    concat2, decimal, ends_in, list_text, push_decimal, push_list, same, starts_in, texts,
};

verus! {

/// The first tensor of `want` that `have` lacks or holds in another shape.
pub open spec fn shapes_fault(have: Seq<NamedShape>, want: Seq<NamedShape>) -> Option<Seq<char>>
    decreases want.len(),
{
    if want.len() == 0 {
        None
    } else {
        let (name, shape) = want[0];
        match find(have, name) {
            None => Some("missing tensor "@ + name),
            Some(s) => if s != shape {
                Some(name + ": shape "@ + list_text(s) + ", expected "@ + list_text(shape))
            } else {
                shapes_fault(have, want.drop_first())
            },
        }
    }
}

/// Whether two lists of numbers are the same.
pub(crate) fn same_sizes(a: &Vec<usize>, b: &Vec<usize>) -> (r: bool)
    ensures
        r == (a@ == b@),
{
    if a.len() != b.len() {
        return false;
    }
    let mut i: usize = 0;
    while i < a.len()
        invariant
            0 <= i <= a@.len(),
            a@.len() == b@.len(),
            forall|j: int| 0 <= j < i ==> #[trigger] a@[j] == b@[j],
        decreases a@.len() - i,
    {
        if a[i] != b[i] {
            return false;
        }
        i += 1;
    }
    assert(a@ =~= b@);
    true
}

fn shape_text(name: &str, got: &Vec<usize>, want: &Vec<usize>) -> (r: String)
    ensures
        r@ == name@ + ": shape "@ + list_text(got@) + ", expected "@ + list_text(want@),
{
    let mut m: String = concat2(name, ": shape ");
    push_list(&mut m, got);
    m.append(", expected ");
    push_list(&mut m, want);
    m
}

/// Checks tensors, given by name and shape, against what is wanted.
pub(crate) fn check_shapes(have: &Vec<TensorSpec>, want: &Vec<TensorSpec>) -> (r: Result<
    (),
    LoadError,
>)
    ensures
        match r {
            Ok(_) => shapes_fault(spec_views(have@), spec_views(want@)) is None,
            Err(e) => shapes_fault(spec_views(have@), spec_views(want@)) == Some(e@),
        },
{
    let ghost hv = spec_views(have@);
    let ghost wv = spec_views(want@);
    let mut i: usize = 0;
    assert(wv.skip(0) =~= wv);
    while i < want.len()
        invariant
            0 <= i <= want@.len(),
            hv == spec_views(have@),
            wv == spec_views(want@),
            shapes_fault(hv, wv) == shapes_fault(hv, wv.skip(i as int)),
        decreases want@.len() - i,
    {
        let w = &want[i];
        proof {
            assert(wv.skip(i as int)[0] == w@);
            assert(wv.skip(i as int).drop_first() =~= wv.skip(i as int + 1));
        }
        match place_of(have, w.name.as_str()) {
            None => {
                return Err(LoadError::new(concat2("missing tensor ", w.name.as_str())));
            },
            Some(j) => {
                if !same_sizes(&have[j].shape, &w.shape) {
                    return Err(
                        LoadError::new(shape_text(w.name.as_str(), &have[j].shape, &w.shape)),
                    );
                }
            },
        }
        i += 1;
    }
    assert(wv.skip(i as int).len() == 0);
    Ok(())
}

fn place_of(have: &Vec<TensorSpec>, name: &str) -> (r: Option<usize>)
    ensures
        match r {
            Some(j) => j < have@.len() && find(spec_views(have@), name@) == Some(
                have@[j as int].shape@,
            ),
            None => find(spec_views(have@), name@) is None,
        },
{
    let ghost hv = spec_views(have@);
    let mut i: usize = 0;
    assert(hv.skip(0) =~= hv);
    while i < have.len()
        invariant
            0 <= i <= have@.len(),
            hv == spec_views(have@),
            find(hv, name@) == find(hv.skip(i as int), name@),
        decreases have@.len() - i,
    {
        proof {
            assert(hv.skip(i as int)[0] == have@[i as int]@);
            assert(hv.skip(i as int).drop_first() =~= hv.skip(i as int + 1));
        }
        if same(have[i].name.as_str(), name) {
            return Some(i);
        }
        i += 1;
    }
    assert(hv.skip(i as int).len() == 0);
    None
}

/// One tensor of the engine and the file's tensors it is made of: one as it
/// is, several stacked.
#[derive(Debug)]
pub struct Step {
    pub name: String,
    pub parts: Vec<String>,
}

/// A step as text.
pub type StepView = (Seq<char>, Seq<Seq<char>>);

impl View for Step {
    type V = StepView;

    open spec fn view(&self) -> StepView {
        (self.name@, texts(self.parts@))
    }
}

/// The views of a list of steps.
pub open spec fn step_views(v: Seq<Step>) -> Seq<StepView> {
    v.map_values(|s: Step| s@)
}

/// The file's name of a tensor of layer `l`.
pub open spec fn file_name(prefix: Seq<char>, l: int, s: Seq<char>) -> Seq<char> {
    prefix + "layers."@ + decimal(l as nat) + "."@ + s
}

/// The steps of layer `l`.
pub open spec fn layer_steps(prefix: Seq<char>, l: int) -> Seq<StepView> {
    seq![
        (layer_name(l, "attn_norm"@), seq![file_name(prefix, l, "input_layernorm.weight"@)]),
        (
            layer_name(l, "qkv"@),
            seq![
                file_name(prefix, l, "self_attn.q_proj.weight"@),
                file_name(prefix, l, "self_attn.k_proj.weight"@),
                file_name(prefix, l, "self_attn.v_proj.weight"@),
            ],
        ),
        (layer_name(l, "q_norm"@), seq![file_name(prefix, l, "self_attn.q_norm.weight"@)]),
        (layer_name(l, "k_norm"@), seq![file_name(prefix, l, "self_attn.k_norm.weight"@)]),
        (layer_name(l, "o"@), seq![file_name(prefix, l, "self_attn.o_proj.weight"@)]),
        (
            layer_name(l, "post_attn_norm"@),
            seq![file_name(prefix, l, "post_attention_layernorm.weight"@)],
        ),
        (
            layer_name(l, "ffn_norm"@),
            seq![file_name(prefix, l, "pre_feedforward_layernorm.weight"@)],
        ),
        (layer_name(l, "gate"@), seq![file_name(prefix, l, "mlp.gate_proj.weight"@)]),
        (layer_name(l, "up"@), seq![file_name(prefix, l, "mlp.up_proj.weight"@)]),
        (layer_name(l, "down"@), seq![file_name(prefix, l, "mlp.down_proj.weight"@)]),
        (
            layer_name(l, "post_ffn_norm"@),
            seq![file_name(prefix, l, "post_feedforward_layernorm.weight"@)],
        ),
    ]
}

/// The steps of a checkpoint with `n` layers.
pub open spec fn steps_of(prefix: Seq<char>, n: nat) -> Seq<StepView>
    decreases n,
{
    if n == 0 {
        seq![
            ("embed"@, seq![prefix + "embed_tokens.weight"@]),
            ("final_norm"@, seq![prefix + "norm.weight"@]),
        ]
    } else {
        steps_of(prefix, (n - 1) as nat) + layer_steps(prefix, n - 1)
    }
}

fn push_step(out: &mut Vec<Step>, name: &str, part: String)
    ensures
        step_views(final(out)@) == step_views(old(out)@).push((name@, seq![part@])),
{
    let ghost before = out@;
    let mut parts: Vec<String> = Vec::new();
    parts.push(part);
    assert(texts(parts@) =~= seq![part@]);
    out.push(Step { name: name.to_owned(), parts });
    assert(step_views(out@) =~= step_views(before).push((name@, seq![part@])));
}

fn file_text(prefix: &str, l: usize, s: &str) -> (r: String)
    ensures
        r@ == file_name(prefix@, l as int, s@),
{
    let mut n: String = concat2(prefix, "layers.");
    push_decimal(&mut n, l as u64);
    n.append(".");
    n.append(s);
    n
}

fn push_layer_steps(out: &mut Vec<Step>, prefix: &str, l: usize)
    ensures
        step_views(final(out)@) == step_views(old(out)@) + layer_steps(prefix@, l as int),
{
    let ghost before = step_views(out@);
    let n = block_name(l, "attn_norm");
    push_step(out, n.as_str(), file_text(prefix, l, "input_layernorm.weight"));
    let mut parts: Vec<String> = Vec::new();
    parts.push(file_text(prefix, l, "self_attn.q_proj.weight"));
    parts.push(file_text(prefix, l, "self_attn.k_proj.weight"));
    parts.push(file_text(prefix, l, "self_attn.v_proj.weight"));
    let ghost pv = seq![
        file_name(prefix@, l as int, "self_attn.q_proj.weight"@),
        file_name(prefix@, l as int, "self_attn.k_proj.weight"@),
        file_name(prefix@, l as int, "self_attn.v_proj.weight"@),
    ];
    assert(texts(parts@) =~= pv);
    let ghost mid = out@;
    out.push(Step { name: block_name(l, "qkv"), parts });
    assert(step_views(out@) =~= step_views(mid).push((layer_name(l as int, "qkv"@), pv)));
    push_step(out, block_name(l, "q_norm").as_str(), file_text(prefix, l, "self_attn.q_norm.weight"));
    push_step(out, block_name(l, "k_norm").as_str(), file_text(prefix, l, "self_attn.k_norm.weight"));
    push_step(out, block_name(l, "o").as_str(), file_text(prefix, l, "self_attn.o_proj.weight"));
    push_step(
        out,
        block_name(l, "post_attn_norm").as_str(),
        file_text(prefix, l, "post_attention_layernorm.weight"),
    );
    push_step(
        out,
        block_name(l, "ffn_norm").as_str(),
        file_text(prefix, l, "pre_feedforward_layernorm.weight"),
    );
    push_step(out, block_name(l, "gate").as_str(), file_text(prefix, l, "mlp.gate_proj.weight"));
    push_step(out, block_name(l, "up").as_str(), file_text(prefix, l, "mlp.up_proj.weight"));
    push_step(out, block_name(l, "down").as_str(), file_text(prefix, l, "mlp.down_proj.weight"));
    push_step(
        out,
        block_name(l, "post_ffn_norm").as_str(),
        file_text(prefix, l, "post_feedforward_layernorm.weight"),
    );
    assert(step_views(out@) =~= before + layer_steps(prefix@, l as int));
}

/// What the engine's tensors of a Gemma 3 checkpoint are read from.
pub fn load_steps(prefix: &str, layers: usize) -> (r: Vec<Step>)
    ensures
        step_views(r@) == steps_of(prefix@, layers as nat),
{
    let mut out: Vec<Step> = Vec::new();
    push_step(&mut out, "embed", concat2(prefix, "embed_tokens.weight"));
    push_step(&mut out, "final_norm", concat2(prefix, "norm.weight"));
    assert(step_views(out@) =~= steps_of(prefix@, 0));
    let mut l: usize = 0;
    while l < layers
        invariant
            0 <= l <= layers,
            step_views(out@) == steps_of(prefix@, l as nat),
        decreases layers - l,
    {
        push_layer_steps(&mut out, prefix, l);
        l += 1;
    }
    out
}

/// The tensors a step reads.
pub open spec fn parts_of(header: JsonView, data: Seq<u8>, names: Seq<Seq<char>>) -> Seq<RawView> {
    names.map_values(|n: Seq<char>| tensor_at(header, data, n))
}

/// The fault of the first of the tensors that cannot be read.
pub open spec fn parts_fault(header: JsonView, data: Seq<u8>, names: Seq<Seq<char>>) -> Option<
    Seq<char>,
>
    decreases names.len(),
{
    if names.len() == 0 {
        None
    } else {
        match parts_fault(header, data, names.drop_last()) {
            Some(e) => Some(e),
            None => tensor_fault(header, data, names.last()),
        }
    }
}

/// Why a step cannot be done, if it cannot.
pub open spec fn step_fault(header: JsonView, data: Seq<u8>, s: StepView) -> Option<Seq<char>> {
    match parts_fault(header, data, s.1) {
        Some(e) => Some(e),
        None => if s.1.len() != 1 && !stackable(parts_of(header, data, s.1)) {
            Some(s.0 + ": parts do not stack"@)
        } else {
            None
        },
    }
}

/// What a step makes.
pub open spec fn step_result(header: JsonView, data: Seq<u8>, s: StepView) -> RawView {
    let parts = parts_of(header, data, s.1);
    if parts.len() == 1 {
        parts[0]
    } else {
        stacked(parts)
    }
}

proof fn parts_fault_prefix(header: JsonView, data: Seq<u8>, names: Seq<Seq<char>>, i: int)
    requires
        0 <= i <= names.len(),
        parts_fault(header, data, names.take(i)) is Some,
    ensures
        parts_fault(header, data, names) == parts_fault(header, data, names.take(i)),
    decreases names.len() - i,
{
    if i < names.len() {
        assert(names.take(i + 1).drop_last() =~= names.take(i));
        parts_fault_prefix(header, data, names, i + 1);
    } else {
        assert(names.take(i) =~= names);
    }
}

fn run_step<'a>(st: &SafeTensors<'a>, s: &Step) -> (r: Result<RawTensor, LoadError>)
    ensures
        match r {
            Ok(t) => step_fault(st.header@, st.data@, s@) is None && t@ == step_result(
                st.header@,
                st.data@,
                s@,
            ),
            Err(e) => step_fault(st.header@, st.data@, s@) == Some(e@),
        },
{
    let ghost h = st.header@;
    let ghost d = st.data@;
    let ghost names = texts(s.parts@);
    let mut parts: Vec<RawTensor> = Vec::new();
    let mut i: usize = 0;
    assert(names.take(0) =~= Seq::<Seq<char>>::empty());
    while i < s.parts.len()
        invariant
            0 <= i <= s.parts@.len(),
            h == st.header@,
            d == st.data@,
            names == texts(s.parts@),
            parts_fault(h, d, names.take(i as int)) is None,
            parts@.len() == i,
            forall|j: int| 0 <= j < i ==> (#[trigger] parts@[j])@ == tensor_at(h, d, names[j]),
        decreases s.parts@.len() - i,
    {
        proof {
            assert(names[i as int] == s.parts@[i as int]@);
            assert(names.take(i as int + 1).drop_last() =~= names.take(i as int));
            if tensor_fault(h, d, names[i as int]) is Some {
                parts_fault_prefix(h, d, names, i as int + 1);
            }
        }
        match st.tensor(s.parts[i].as_str()) {
            Ok(t) => {
                parts.push(t);
            },
            Err(e) => {
                return Err(e);
            },
        }
        i += 1;
    }
    assert(names.take(i as int) =~= names);
    assert(raw_views(parts@) =~= parts_of(h, d, names));
    if parts.len() == 1 {
        assert(parts@[0]@ == parts_of(h, d, names)[0]);
        Ok(parts.remove(0))
    } else if !can_stack(&parts) {
        Err(LoadError::new(concat2(s.name.as_str(), ": parts do not stack")))
    } else {
        Ok(concat_rows(&parts))
    }
}

/// A checkpoint as its file holds it: every tensor under the engine's name,
/// its numbers still to be narrowed to half precision.
#[derive(Debug)]
pub struct RawWeights {
    pub config: Config,
    pub tensors: Vec<(String, RawTensor)>,
}

/// The names and contents of loaded tensors.
pub open spec fn loaded_views(v: Seq<(String, RawTensor)>) -> Seq<(Seq<char>, RawView)> {
    v.map_values(|e: (String, RawTensor)| (e.0@, e.1@))
}

/// The names and shapes of loaded tensors.
pub open spec fn loaded_shapes(v: Seq<(Seq<char>, RawView)>) -> Seq<NamedShape> {
    v.map_values(|e: (Seq<char>, RawView)| (e.0, e.1.shape))
}

/// The header of a safetensors file.
pub open spec fn header_of(bytes: Seq<u8>) -> JsonView {
    crate::json::parsed(bytes.subrange(8, 8 + crate::tensor::le(bytes.take(8)) as int))->0
}

/// The data of a safetensors file.
pub open spec fn data_of(bytes: Seq<u8>) -> Seq<u8> {
    bytes.skip(8 + crate::tensor::le(bytes.take(8)) as int)
}

/// Checkpoints may or may not carry the `model.` prefix.
pub open spec fn prefix_of(header: JsonView) -> Seq<char> {
    if crate::json::has_field(header, "model.embed_tokens.weight"@) {
        "model."@
    } else {
        ""@
    }
}

/// The fault of the first of the steps that cannot be done.
pub open spec fn steps_fault(header: JsonView, data: Seq<u8>, steps: Seq<StepView>) -> Option<
    Seq<char>,
>
    decreases steps.len(),
{
    if steps.len() == 0 {
        None
    } else {
        match steps_fault(header, data, steps.drop_last()) {
            Some(e) => Some(e),
            None => step_fault(header, data, steps.last()),
        }
    }
}

/// What steps make.
pub open spec fn steps_results(header: JsonView, data: Seq<u8>, steps: Seq<StepView>) -> Seq<
    (Seq<char>, RawView),
> {
    steps.map_values(|s: StepView| (s.0, step_result(header, data, s)))
}

/// Why a Gemma 3 checkpoint cannot be loaded, if it cannot.
pub open spec fn load_fault(c: Config, bytes: Seq<u8>) -> Option<Seq<char>> {
    let header = header_of(bytes);
    let data = data_of(bytes);
    let steps = steps_of(prefix_of(header), c.layers as nat);
    let embed = step_result(header, data, steps[0]);
    if crate::model::validate_fault(c) is Some {
        crate::model::validate_fault(c)
    } else if c.arch != Arch::Gemma3 {
        Some(
            "safetensors loading is for Gemma 3 checkpoints; export Gemma 4 with tools/export_wgpu_gguf.py"@,
        )
    } else if crate::tensor::safetensors_fault(bytes) is Some {
        crate::tensor::safetensors_fault(bytes)
    } else if step_fault(header, data, steps[0]) is Some {
        step_fault(header, data, steps[0])
    } else if embed.shape != seq![c.vocab, c.d] {
        Some(
            "embed_tokens is "@ + list_text(embed.shape) + ", config says "@ + list_text(
                seq![c.vocab, c.d],
            ),
        )
    } else if steps_fault(header, data, steps) is Some {
        steps_fault(header, data, steps)
    } else if shapes_fault(
        loaded_shapes(steps_results(header, data, steps)),
        catalogue(c, c.layers as nat),
    ) is Some {
        shapes_fault(
            loaded_shapes(steps_results(header, data, steps)),
            catalogue(c, c.layers as nat),
        )
    } else if c.per_layer_dim > 0 {
        Some("missing per-layer token table"@)
    } else {
        None
    }
}

proof fn steps_fault_prefix(header: JsonView, data: Seq<u8>, steps: Seq<StepView>, i: int)
    requires
        0 <= i <= steps.len(),
        steps_fault(header, data, steps.take(i)) is Some,
    ensures
        steps_fault(header, data, steps) == steps_fault(header, data, steps.take(i)),
    decreases steps.len() - i,
{
    if i < steps.len() {
        assert(steps.take(i + 1).drop_last() =~= steps.take(i));
        steps_fault_prefix(header, data, steps, i + 1);
    } else {
        assert(steps.take(i) =~= steps);
    }
}

proof fn steps_start(prefix: Seq<char>, n: nat)
    ensures
        steps_of(prefix, n).len() >= 2,
        steps_of(prefix, n)[0] == steps_of(prefix, 0)[0],
    decreases n,
{
    if n > 0 {
        steps_start(prefix, (n - 1) as nat);
    }
}

pub(crate) fn shapes_of(v: &Vec<(String, RawTensor)>) -> (r: Vec<TensorSpec>)
    ensures
        spec_views(r@) == loaded_shapes(loaded_views(v@)),
{
    let mut out: Vec<TensorSpec> = Vec::new();
    let mut i: usize = 0;
    while i < v.len()
        invariant
            0 <= i <= v@.len(),
            out@.len() == i,
            forall|j: int|
                0 <= j < i ==> (#[trigger] out@[j])@ == (v@[j].0@, v@[j].1.shape@),
        decreases v@.len() - i,
    {
        out.push(TensorSpec::new(v[i].0.as_str(), v[i].1.shape.clone()));
        i += 1;
    }
    assert(spec_views(out@) =~= loaded_shapes(loaded_views(v@)));
    out
}

impl RawWeights {
    /// Loads a Gemma 3 checkpoint from its `model.safetensors`.
    pub fn load(config: Config, safetensors: &[u8]) -> (r: Result<RawWeights, LoadError>)
        requires
            shaped(config),
            widths_fit(config),
        ensures
            match r {
                Ok(w) => load_fault(config, safetensors@) is None && w.config == config
                    && loaded_views(w.tensors@) == steps_results(
                    header_of(safetensors@),
                    data_of(safetensors@),
                    steps_of(prefix_of(header_of(safetensors@)), config.layers as nat),
                ),
                Err(e) => load_fault(config, safetensors@) == Some(e@),
            },
    {
        match config.validate() {
            Ok(_) => {},
            Err(e) => {
                return Err(e);
            },
        }
        match config.arch {
            Arch::Gemma3 => {},
            Arch::Gemma4 => {
                return Err(
                    LoadError::of(
                        "safetensors loading is for Gemma 3 checkpoints; export Gemma 4 with tools/export_wgpu_gguf.py",
                    ),
                );
            },
        }
        let st = match SafeTensors::parse(safetensors) {
            Ok(st) => st,
            Err(e) => {
                return Err(e);
            },
        };
        let ghost h = header_of(safetensors@);
        let ghost d = data_of(safetensors@);
        assert(st.header@ == h && st.data@ == d);
        let prefix: &str = if st.lists("model.embed_tokens.weight") {
            "model."
        } else {
            ""
        };
        assert(prefix@ == prefix_of(h));
        let steps = load_steps(prefix, config.layers);
        let ghost sv = step_views(steps@);
        proof {
            steps_start(prefix@, config.layers as nat);
            assert(sv.len() == steps@.len());
        }
        let mut tensors: Vec<(String, RawTensor)> = Vec::new();
        let mut i: usize = 0;
        assert(sv.take(0) =~= Seq::<StepView>::empty());
        while i < steps.len()
            invariant
                0 <= i <= steps@.len(),
                steps@.len() >= 2,
                sv == step_views(steps@),
                sv == steps_of(prefix_of(h), config.layers as nat),
                h == header_of(safetensors@),
                d == data_of(safetensors@),
                st.header@ == h,
                st.data@ == d,
                crate::model::validate_fault(config) is None,
                config.arch == Arch::Gemma3,
                crate::tensor::safetensors_fault(safetensors@) is None,
                i > 0 ==> step_fault(h, d, sv[0]) is None && step_result(h, d, sv[0]).shape
                    == seq![config.vocab, config.d],
                steps_fault(h, d, sv.take(i as int)) is None,
                tensors@.len() == i,
                forall|j: int|
                    0 <= j < i ==> (#[trigger] tensors@[j]).0@ == sv[j].0 && tensors@[j].1@
                        == step_result(h, d, sv[j]),
            decreases steps@.len() - i,
        {
            proof {
                assert(sv[i as int] == steps@[i as int]@);
                assert(sv.take(i as int + 1).drop_last() =~= sv.take(i as int));
                if step_fault(h, d, sv[i as int]) is Some {
                    steps_fault_prefix(h, d, sv, i as int + 1);
                }
            }
            let t = match run_step(&st, &steps[i]) {
                Ok(t) => t,
                Err(e) => {
                    return Err(e);
                },
            };
            if i == 0 {
                let mut want: Vec<usize> = Vec::new();
                want.push(config.vocab);
                want.push(config.d);
                assert(want@ =~= seq![config.vocab, config.d]);
                if !same_sizes(&t.shape, &want) {
                    let mut m: String = "embed_tokens is ".to_owned();
                    push_list(&mut m, &t.shape);
                    m.append(", config says ");
                    push_list(&mut m, &want);
                    return Err(LoadError::new(m));
                }
            }
            tensors.push((steps[i].name.clone(), t));
            i += 1;
        }
        assert(sv.take(i as int) =~= sv);
        assert(loaded_views(tensors@) =~= steps_results(h, d, sv));
        match check_shapes(&shapes_of(&tensors), &config.tensors()) {
            Ok(_) => {},
            Err(e) => {
                return Err(e);
            },
        }
        if config.per_layer_dim > 0 {
            return Err(LoadError::of("missing per-layer token table"));
        }
        Ok(RawWeights { config, tensors })
    }
}

/// Host copy of a whole checkpoint: every tensor of [`Config::tensors`] by
/// name, plus the optional per-layer token table.
#[derive(Debug)]
pub struct Weights {
    pub config: Config,
    pub tensors: Vec<(String, QTensor)>,
    /// `[vocab, per_layer_dim * layers]`, gathered on the host per request.
    pub per_layer_table: Option<QTensor>,
}

/// The names and shapes of encoded tensors.
pub open spec fn held_shapes(v: Seq<(String, QTensor)>) -> Seq<NamedShape> {
    v.map_values(|e: (String, QTensor)| (e.0@, e.1.shape@))
}

/// What a set of tensors lacks of its configuration, if anything.
pub open spec fn check_fault(w: Weights) -> Option<Seq<char>> {
    let c = w.config;
    if shapes_fault(held_shapes(w.tensors@), catalogue(c, c.layers as nat)) is Some {
        shapes_fault(held_shapes(w.tensors@), catalogue(c, c.layers as nat))
    } else if c.per_layer_dim > 0 {
        let want = seq![c.vocab, (c.per_layer_dim * c.layers) as usize];
        match w.per_layer_table {
            None => Some("missing per-layer token table"@),
            Some(t) => if t.shape@ != want {
                Some(
                    "per-layer table: shape "@ + list_text(t.shape@) + ", expected "@ + list_text(
                        want,
                    ),
                )
            } else {
                None
            },
        }
    } else {
        None
    }
}

/// `t` is the first tensor under `name`.
pub open spec fn first_named(v: Seq<(String, QTensor)>, name: Seq<char>, t: QTensor) -> bool {
    exists|i: int|
        0 <= i < v.len() && (#[trigger] v[i]).1 == t && v[i].0@ == name && forall|j: int|
            0 <= j < i ==> (#[trigger] v[j]).0@ != name
}

pub(crate) fn tensor_named<'a>(v: &'a Vec<(String, QTensor)>, name: &str) -> (r: Result<
    &'a QTensor,
    LoadError,
>)
    ensures
        match r {
            Ok(t) => find(held_shapes(v@), name@) == Some(t.shape@) && first_named(v@, name@, *t),
            Err(e) => find(held_shapes(v@), name@) is None && e@ == "missing tensor "@ + name@,
        },
{
    let ghost hv = held_shapes(v@);
    let mut i: usize = 0;
    assert(hv.skip(0) =~= hv);
    while i < v.len()
        invariant
            0 <= i <= v@.len(),
            hv == held_shapes(v@),
            find(hv, name@) == find(hv.skip(i as int), name@),
            forall|j: int| 0 <= j < i ==> (#[trigger] v@[j]).0@ != name@,
        decreases v@.len() - i,
    {
        let (n, t) = &v[i];
        proof {
            assert(hv[i as int] == (n@, t.shape@));
            assert(hv.skip(i as int)[0] == hv[i as int]);
            assert(hv.skip(i as int).drop_first() =~= hv.skip(i as int + 1));
        }
        if same(n.as_str(), name) {
            assert(v@[i as int].1 == *t);
            return Ok(t);
        }
        i += 1;
    }
    assert(hv.skip(i as int).len() == 0);
    Err(LoadError::new(concat2("missing tensor ", name)))
}

pub(crate) fn held_specs(v: &Vec<(String, QTensor)>) -> (r: Vec<TensorSpec>)
    ensures
        spec_views(r@) == held_shapes(v@),
{
    let mut have: Vec<TensorSpec> = Vec::new();
    let mut i: usize = 0;
    while i < v.len()
        invariant
            0 <= i <= v@.len(),
            have@.len() == i,
            forall|j: int| 0 <= j < i ==> (#[trigger] have@[j])@ == (v@[j].0@, v@[j].1.shape@),
        decreases v@.len() - i,
    {
        have.push(TensorSpec::new(v[i].0.as_str(), v[i].1.shape.clone()));
        i += 1;
    }
    assert(spec_views(have@) =~= held_shapes(v@));
    have
}

impl Weights {
    /// The first tensor under `name`.
    pub fn get(&self, name: &str) -> (r: Result<&QTensor, LoadError>)
        ensures
            match r {
                Ok(t) => find(held_shapes(self.tensors@), name@) == Some(t.shape@) && first_named(
                    self.tensors@,
                    name@,
                    *t,
                ),
                Err(e) => find(held_shapes(self.tensors@), name@) is None && e@
                    == "missing tensor "@ + name@,
            },
    {
        tensor_named(&self.tensors, name)
    }

    /// Every catalogued tensor present with the right shape.
    pub fn check(&self) -> (r: Result<(), LoadError>)
        requires
            shaped(self.config),
            widths_fit(self.config),
        ensures
            match r {
                Ok(_) => check_fault(*self) is None,
                Err(e) => check_fault(*self) == Some(e@),
            },
    {
        let have = held_specs(&self.tensors);
        match check_shapes(&have, &self.config.tensors()) {
            Ok(_) => {},
            Err(e) => {
                return Err(e);
            },
        }
        if self.config.per_layer_dim > 0 {
            let mut want: Vec<usize> = Vec::new();
            want.push(self.config.vocab);
            want.push(self.config.per_layer_dim * self.config.layers);
            assert(want@ =~= seq![
                self.config.vocab,
                (self.config.per_layer_dim * self.config.layers) as usize,
            ]);
            match &self.per_layer_table {
                None => {
                    return Err(LoadError::of("missing per-layer token table"));
                },
                Some(t) => {
                    if !same_sizes(&t.shape, &want) {
                        let mut m: String = "per-layer table: shape ".to_owned();
                        push_list(&mut m, &t.shape);
                        m.append(", expected ");
                        push_list(&mut m, &want);
                        return Err(LoadError::new(m));
                    }
                },
            }
        }
        Ok(())
    }
}

/// What keeps an engine that has one KV head and head dimension 256 from
/// running a checkpoint, if anything does.
pub open spec fn single_head_fault(
    kv_heads: usize,
    head_dim: usize,
    heads: usize,
    d: usize,
    ff: usize,
) -> Option<Seq<char>> {
    if kv_heads != 1 {
        Some("only one KV head is supported (got "@ + decimal(kv_heads as nat) + ")"@)
    } else if head_dim != 256 {
        Some("head_dim must be 256 (got "@ + decimal(head_dim as nat) + ")"@)
    } else if !ratio_covered(heads as nat) {
        Some("num_attention_heads must divide 16 (got "@ + decimal(heads as nat) + ")"@)
    } else if d % 16 != 0 || ff % 16 != 0 {
        Some("hidden_size and intermediate_size must be multiples of 16"@)
    } else {
        None
    }
}

fn number_message(before: &str, n: usize, after: &str) -> (r: String)
    ensures
        r@ == before@ + decimal(n as nat) + after@,
{
    let mut m: String = before.to_owned();
    push_decimal(&mut m, n as u64);
    m.append(after);
    m
}

/// Whether an engine that has one KV head and head dimension 256 can run a
/// checkpoint.
pub fn check_single_head(kv_heads: usize, head_dim: usize, heads: usize, d: usize, ff: usize) -> (r:
    Result<(), LoadError>)
    ensures
        match r {
            Ok(_) => single_head_fault(kv_heads, head_dim, heads, d, ff) is None,
            Err(e) => single_head_fault(kv_heads, head_dim, heads, d, ff) == Some(e@),
        },
{
    if kv_heads != 1 {
        return Err(
            LoadError::new(number_message("only one KV head is supported (got ", kv_heads, ")")),
        );
    }
    if head_dim != 256 {
        return Err(LoadError::new(number_message("head_dim must be 256 (got ", head_dim, ")")));
    }
    if heads != 1 && heads != 2 && heads != 4 && heads != 8 && heads != 16 {
        return Err(
            LoadError::new(
                number_message("num_attention_heads must divide 16 (got ", heads, ")"),
            ),
        );
    }
    if d % 16 != 0 || ff % 16 != 0 {
        return Err(
            LoadError::of("hidden_size and intermediate_size must be multiples of 16"),
        );
    }
    Ok(())
}

/// The token table does not have the shape that the configuration says.
pub open spec fn embed_fault(shape: Seq<usize>, vocab: usize, d: usize) -> Option<Seq<char>> {
    if shape == seq![vocab, d] {
        None
    } else {
        Some(
            "embed_tokens is "@ + list_text(shape) + ", config says ["@ + decimal(vocab as nat)
                + ", "@ + decimal(d as nat) + "]"@,
        )
    }
}

/// Checks the shape of the token table.
pub fn check_embed(shape: &Vec<usize>, vocab: usize, d: usize) -> (r: Result<(), LoadError>)
    ensures
        match r {
            Ok(_) => embed_fault(shape@, vocab, d) is None,
            Err(e) => embed_fault(shape@, vocab, d) == Some(e@),
        },
{
    let want: Vec<usize> = vec![vocab, d];
    assert(want@ =~= seq![vocab, d]);
    if same_sizes(shape, &want) {
        return Ok(());
    }
    let mut m: String = "embed_tokens is ".to_owned();
    push_list(&mut m, shape);
    m.append(", config says [");
    push_decimal(&mut m, vocab as u64);
    m.append(", ");
    push_decimal(&mut m, d as u64);
    m.append("]");
    Err(LoadError::new(m))
}

proof fn shapes_stay_found(have: Seq<NamedShape>, want: Seq<NamedShape>, i: int)
    requires
        shapes_fault(have, want) is None,
        0 <= i < want.len(),
    ensures
        find(have, want[i].0) == Some(want[i].1),
    decreases want.len(),
{
    if i > 0 {
        shapes_stay_found(have, want.drop_first(), i - 1);
        assert(want.drop_first()[i - 1] == want[i]);
    }
}

proof fn found_shapes_pass(have: Seq<NamedShape>, want: Seq<NamedShape>)
    requires
        forall|i: int|
            0 <= i < want.len() ==> find(have, (#[trigger] want[i]).0) == Some(want[i].1),
    ensures
        shapes_fault(have, want) is None,
    decreases want.len(),
{
    if want.len() > 0 {
        assert(find(have, want[0].0) == Some(want[0].1));
        let rest = want.drop_first();
        assert forall|i: int| 0 <= i < rest.len() implies find(have, (#[trigger] rest[i]).0) == Some(
            rest[i].1,
        ) by {
            assert(rest[i] == want[i + 1]);
        }
        found_shapes_pass(have, rest);
    }
}

/// Tensors are accepted exactly when every one that is wanted is there under
/// its name with its shape.
pub proof fn shapes_pass_exactly_when_all_are_found(have: Seq<NamedShape>, want: Seq<NamedShape>)
    ensures
        shapes_fault(have, want) is None <==> forall|i: int|
            0 <= i < want.len() ==> find(have, (#[trigger] want[i]).0) == Some(want[i].1),
{
    if shapes_fault(have, want) is None {
        assert forall|i: int| 0 <= i < want.len() implies find(have, (#[trigger] want[i]).0)
            == Some(want[i].1) by {
            shapes_stay_found(have, want, i);
        }
    }
    if forall|i: int|
        0 <= i < want.len() ==> find(have, (#[trigger] want[i]).0) == Some(want[i].1) {
        found_shapes_pass(have, want);
    }
}

/// A checkpoint's layer is loaded into the tensors that the catalogue lists for
/// a layer with its own K/V and no per-layer inputs, every one and in order,
/// from files of that layer.
pub proof fn layers_load_what_the_catalogue_lists(c: Config, prefix: Seq<char>, l: int, i: int)
    requires
        own_kv(c, l),
        c.per_layer_dim == 0,
        0 <= i < layer_steps(prefix, l).len(),
    ensures
        layer_steps(prefix, l).len() == layer_tensors(c, l).len(),
        layer_steps(prefix, l)[i].0 == layer_tensors(c, l)[i].0,
        forall|k: int|
            0 <= k < layer_steps(prefix, l)[i].1.len() ==> starts_in(
                #[trigger] layer_steps(prefix, l)[i].1[k],
                prefix + "layers."@ + decimal(l as nat) + "."@,
            ) && ends_in(layer_steps(prefix, l)[i].1[k], ".weight"@),
{
    let step = layer_steps(prefix, l)[i];
    let lead = prefix + "layers."@ + decimal(l as nat) + "."@;
    reveal_strlit(".weight");
    reveal_strlit("input_layernorm.weight");
    reveal_strlit("self_attn.q_proj.weight");
    reveal_strlit("self_attn.k_proj.weight");
    reveal_strlit("self_attn.v_proj.weight");
    reveal_strlit("self_attn.q_norm.weight");
    reveal_strlit("self_attn.k_norm.weight");
    reveal_strlit("self_attn.o_proj.weight");
    reveal_strlit("post_attention_layernorm.weight");
    reveal_strlit("pre_feedforward_layernorm.weight");
    reveal_strlit("mlp.gate_proj.weight");
    reveal_strlit("mlp.up_proj.weight");
    reveal_strlit("mlp.down_proj.weight");
    reveal_strlit("post_feedforward_layernorm.weight");
    assert forall|k: int| 0 <= k < step.1.len() implies starts_in(#[trigger] step.1[k], lead)
        && ends_in(step.1[k], ".weight"@) by {
        let f = step.1[k];
        assert(f.take(lead.len() as int) =~= lead);
        assert(f.skip(f.len() - 7) =~= ".weight"@);
    }
}

/// A projection is loaded from the file of its own name; the fused one stacks
/// queries, keys and values in this order.
pub proof fn projections_load_from_their_own_file(prefix: Seq<char>, l: int)
    ensures
        ({
            let steps = layer_steps(prefix, l);
            let of = |name: Seq<char>, file: Seq<char>| (
                "blk."@ + decimal(l as nat) + "."@ + name,
                seq![prefix + "layers."@ + decimal(l as nat) + "."@ + file],
            );
            &&& steps.contains(of("o"@, "self_attn.o_proj.weight"@))
            &&& steps.contains(of("gate"@, "mlp.gate_proj.weight"@))
            &&& steps.contains(of("up"@, "mlp.up_proj.weight"@))
            &&& steps.contains(of("down"@, "mlp.down_proj.weight"@))
            &&& steps.contains(of("q_norm"@, "self_attn.q_norm.weight"@))
            &&& steps.contains(of("k_norm"@, "self_attn.k_norm.weight"@))
            &&& steps.contains(of("attn_norm"@, "input_layernorm.weight"@))
            &&& steps.contains(of("post_attn_norm"@, "post_attention_layernorm.weight"@))
            &&& steps.contains(of("ffn_norm"@, "pre_feedforward_layernorm.weight"@))
            &&& steps.contains(of("post_ffn_norm"@, "post_feedforward_layernorm.weight"@))
            &&& steps[1].0 == "blk."@ + decimal(l as nat) + ".qkv"@
            &&& steps[1].1.len() == 3
            &&& ends_in(steps[1].1[0], "q_proj.weight"@)
            &&& ends_in(steps[1].1[1], "k_proj.weight"@)
            &&& ends_in(steps[1].1[2], "v_proj.weight"@)
        }),
{
    let steps = layer_steps(prefix, l);
    let of = |name: Seq<char>, file: Seq<char>| (
        "blk."@ + decimal(l as nat) + "."@ + name,
        seq![prefix + "layers."@ + decimal(l as nat) + "."@ + file],
    );
    assert(steps[0] == of("attn_norm"@, "input_layernorm.weight"@));
    assert(steps[2] == of("q_norm"@, "self_attn.q_norm.weight"@));
    assert(steps[3] == of("k_norm"@, "self_attn.k_norm.weight"@));
    assert(steps[4] == of("o"@, "self_attn.o_proj.weight"@));
    assert(steps[5] == of("post_attn_norm"@, "post_attention_layernorm.weight"@));
    assert(steps[6] == of("ffn_norm"@, "pre_feedforward_layernorm.weight"@));
    assert(steps[7] == of("gate"@, "mlp.gate_proj.weight"@));
    assert(steps[8] == of("up"@, "mlp.up_proj.weight"@));
    assert(steps[9] == of("down"@, "mlp.down_proj.weight"@));
    assert(steps[10] == of("post_ffn_norm"@, "post_feedforward_layernorm.weight"@));
    reveal_strlit(".");
    reveal_strlit("qkv");
    reveal_strlit(".qkv");
    assert("."@ + "qkv"@ =~= ".qkv"@);
    assert(steps[1].0 =~= "blk."@ + decimal(l as nat) + ".qkv"@);
    reveal_strlit("q_proj.weight");
    reveal_strlit("k_proj.weight");
    reveal_strlit("v_proj.weight");
    reveal_strlit("self_attn.q_proj.weight");
    reveal_strlit("self_attn.k_proj.weight");
    reveal_strlit("self_attn.v_proj.weight");
    let (q, k, v) = (steps[1].1[0], steps[1].1[1], steps[1].1[2]);
    assert(q.skip(q.len() - 13) =~= "q_proj.weight"@);
    assert(k.skip(k.len() - 13) =~= "k_proj.weight"@);
    assert(v.skip(v.len() - 13) =~= "v_proj.weight"@);
}

/// The token table and the final norm are loaded first, from their own files;
/// names stand under `model.` exactly where the checkpoint's do.
pub proof fn top_tensors_load_from_their_own_file(prefix: Seq<char>, header: JsonView, n: nat)
    ensures
        steps_of(prefix, n).len() == 2 + 11 * n,
        steps_of(prefix, n)[0] == ("embed"@, seq![prefix + "embed_tokens.weight"@]),
        steps_of(prefix, n)[1] == ("final_norm"@, seq![prefix + "norm.weight"@]),
        has_field(header, "model.embed_tokens.weight"@) ==> prefix_of(header) == "model."@,
        !has_field(header, "model.embed_tokens.weight"@) ==> prefix_of(header).len() == 0,
    decreases n,
{
    reveal_strlit("");
    if n > 0 {
        top_tensors_load_from_their_own_file(prefix, header, (n - 1) as nat);
    }
}

/// The single key and value head that the kernels address is taken exactly
/// where there is one, of width 256, its query heads divide a tile, and the
/// widths of the stream are whole tiles.
pub proof fn one_head_is_taken_exactly_when_it_fits(
    kv_heads: usize,
    head_dim: usize,
    heads: usize,
    d: usize,
    ff: usize,
)
    ensures
        single_head_fault(kv_heads, head_dim, heads, d, ff) is None <==> kv_heads == 1 && head_dim
            == 256 && heads > 0 && 16int % (heads as int) == 0 && d % 16 == 0 && ff % 16 == 0,
{
    if heads > 16 {
        assert(16int % (heads as int) == 16) by (nonlinear_arith)
            requires
                heads > 16,
        ;
    }
    assert(heads == 1 ==> 16int % (heads as int) == 0);
    assert(heads == 2 ==> 16int % (heads as int) == 0);
    assert(heads == 3 ==> 16int % (heads as int) == 1);
    assert(heads == 4 ==> 16int % (heads as int) == 0);
    assert(heads == 5 ==> 16int % (heads as int) == 1);
    assert(heads == 6 ==> 16int % (heads as int) == 4);
    assert(heads == 7 ==> 16int % (heads as int) == 2);
    assert(heads == 8 ==> 16int % (heads as int) == 0);
    assert(heads == 9 ==> 16int % (heads as int) == 7);
    assert(heads == 10 ==> 16int % (heads as int) == 6);
    assert(heads == 11 ==> 16int % (heads as int) == 5);
    assert(heads == 12 ==> 16int % (heads as int) == 4);
    assert(heads == 13 ==> 16int % (heads as int) == 3);
    assert(heads == 14 ==> 16int % (heads as int) == 2);
    assert(heads == 15 ==> 16int % (heads as int) == 1);
    assert(heads == 16 ==> 16int % (heads as int) == 0);
}

/// Weights are taken exactly where every tensor of the catalogue is held in
/// its shape, and a model with per-layer embeddings has a table with a row
/// for every token and a column for every number of every layer.
pub proof fn weights_are_taken_exactly_when_complete(w: Weights)
    ensures
        ({
            let c = w.config;
            check_fault(w) is None <==> {
                &&& shapes_fault(held_shapes(w.tensors@), catalogue(c, c.layers as nat)) is None
                &&& c.per_layer_dim > 0 ==> w.per_layer_table is Some
                    && w.per_layer_table->0.shape@.len() == 2 && w.per_layer_table->0.shape@[0]
                    == c.vocab && w.per_layer_table->0.shape@[1] == (c.per_layer_dim
                    * c.layers) as usize
            }
        }),
{
    let c = w.config;
    if c.per_layer_dim > 0 && w.per_layer_table is Some {
        let s = w.per_layer_table->0.shape@;
        let want = seq![c.vocab, (c.per_layer_dim * c.layers) as usize];
        if s.len() == 2 && s[0] == want[0] && s[1] == want[1] {
            assert(s =~= want);
        }
    }
}

/// A checkpoint is loaded exactly where the kernels can run the configuration
/// of a Gemma 3 model without per-layer embeddings, the file has a header,
/// every tensor is read, the embedding has the configured size, and the
/// loaded tensors are those of the catalogue.
pub proof fn checkpoints_load_exactly_when_complete(c: Config, bytes: Seq<u8>)
    ensures
        ({
            let header = header_of(bytes);
            let data = data_of(bytes);
            let steps = steps_of(prefix_of(header), c.layers as nat);
            load_fault(c, bytes) is None <==> {
                &&& crate::model::validate_fault(c) is None
                &&& c.arch == Arch::Gemma3
                &&& c.per_layer_dim == 0
                &&& crate::tensor::safetensors_fault(bytes) is None
                &&& step_fault(header, data, steps[0]) is None
                &&& step_result(header, data, steps[0]).shape == seq![c.vocab, c.d]
                &&& steps_fault(header, data, steps) is None
                &&& shapes_fault(
                    loaded_shapes(steps_results(header, data, steps)),
                    catalogue(c, c.layers as nat),
                ) is None
            }
        }),
{
}

/// The tensors of the steps are read exactly where every part of each step is
/// in the file, and the parts of a step stack.
pub proof fn steps_pass_exactly_when_each_does(
    header: JsonView,
    data: Seq<u8>,
    steps: Seq<StepView>,
)
    ensures
        steps_fault(header, data, steps) is None <==> forall|i: int|
            0 <= i < steps.len() ==> step_fault(header, data, #[trigger] steps[i]) is None,
    decreases steps.len(),
{
    if steps.len() > 0 {
        let d = steps.drop_last();
        steps_pass_exactly_when_each_does(header, data, d);
        assert(forall|i: int| 0 <= i < d.len() ==> #[trigger] d[i] == steps[i]);
        assert(steps.last() == steps[steps.len() - 1]);
        if forall|i: int|
            0 <= i < steps.len() ==> step_fault(header, data, #[trigger] steps[i]) is None {
            assert forall|i: int| 0 <= i < d.len() implies step_fault(
                header,
                data,
                #[trigger] d[i],
            ) is None by {
                assert(d[i] == steps[i]);
            }
        }
        if steps_fault(header, data, steps) is None {
            assert forall|i: int| 0 <= i < steps.len() implies step_fault(
                header,
                data,
                #[trigger] steps[i],
            ) is None by {
                if i < d.len() {
                    assert(d[i] == steps[i]);
                }
            }
        }
    }
}

/// The parts of a step are read exactly where each of them is in the file.
pub proof fn parts_pass_exactly_when_each_does(
    header: JsonView,
    data: Seq<u8>,
    names: Seq<Seq<char>>,
)
    ensures
        parts_fault(header, data, names) is None <==> forall|i: int|
            0 <= i < names.len() ==> tensor_fault(header, data, #[trigger] names[i]) is None,
    decreases names.len(),
{
    if names.len() > 0 {
        let d = names.drop_last();
        parts_pass_exactly_when_each_does(header, data, d);
        assert(names.last() == names[names.len() - 1]);
        if forall|i: int|
            0 <= i < names.len() ==> tensor_fault(header, data, #[trigger] names[i]) is None {
            assert forall|i: int| 0 <= i < d.len() implies tensor_fault(
                header,
                data,
                #[trigger] d[i],
            ) is None by {
                assert(d[i] == names[i]);
            }
        }
        if parts_fault(header, data, names) is None {
            assert forall|i: int| 0 <= i < names.len() implies tensor_fault(
                header,
                data,
                #[trigger] names[i],
            ) is None by {
                if i < d.len() {
                    assert(d[i] == names[i]);
                }
            }
        }
    }
}

} // verus!

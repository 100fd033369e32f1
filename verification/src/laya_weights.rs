//! Host copies of decision-head checkpoints: loading a safetensors file, under
//! either of the two sets of names such files use, as the engine's tensors.

use vstd::prelude::*;
use vstd::string::StringExecFns;

use crate::error::LoadError;
use crate::json::JsonView;
use crate::laya::{
    encoder_tensors, head_tensors, laya_tensors, laya_widths_fit, part_name, part_text,
    scorer_tensors, LayaConfig,
};
use crate::map::find;
use crate::tensor::{
    count_of, product, tensor_at, tensor_fault, QTensor, RawTensor, RawView, SafeTensors, Values,
    ValuesView,
};
use crate::text::{concat2, decimal, ends_in, list_text, push_decimal, push_list, starts_in};
use crate::weights::{
    check_shapes, data_of, first_named, header_of, held_shapes, held_specs, loaded_shapes,
    loaded_views, same_sizes, shapes_fault, shapes_of, tensor_named,
};

verus! {

/// How a tensor of the file becomes one of the engine.
#[derive(Debug, Clone, Copy, PartialEq, Eq, Structural)]
pub enum Part {
    Whole,
    /// As it is, once its shape is that of the token table.
    Table,
    /// The first half of the rows of a layer's fused projection.
    Value(usize),
    /// The second half.
    Gate(usize),
}

/// One tensor of the engine: the file's name of what it is read from, another
/// name for it, and what to take of it.
#[derive(Debug)]
pub struct Source {
    pub name: String,
    pub from: String,
    pub or: Option<String>,
    pub part: Part,
}

/// A source as text.
pub struct SourceView {
    pub name: Seq<char>,
    pub from: Seq<char>,
    pub or: Option<Seq<char>>,
    pub part: Part,
}

impl View for Source {
    type V = SourceView;

    open spec fn view(&self) -> SourceView {
        SourceView {
            name: self.name@,
            from: self.from@,
            or: match self.or {
                Some(s) => Some(s@),
                None => None,
            },
            part: self.part,
        }
    }
}

/// The views of a list of sources.
pub open spec fn source_views(v: Seq<Source>) -> Seq<SourceView> {
    v.map_values(|s: Source| s@)
}

/// A tensor read under one name, as it is.
pub open spec fn whole(name: Seq<char>, from: Seq<char>) -> SourceView {
    SourceView { name, from, or: None, part: Part::Whole }
}

/// A tensor read under either of two names.
pub open spec fn either(name: Seq<char>, from: Seq<char>, or: Seq<char>) -> SourceView {
    SourceView { name, from, or: Some(or), part: Part::Whole }
}

/// The sources of encoder layer `l`.
pub open spec fn encoder_sources(l: int) -> Seq<SourceView> {
    let n = |s: Seq<char>| part_name("enc."@, l, s);
    let f = |s: Seq<char>| part_name("encoder.layers."@, l, s);
    (if l > 0 {
        seq![whole(n("attn_norm"@), f("attn_norm.weight"@))]
    } else {
        Seq::empty()
    }) + seq![
        whole(n("qkv"@), f("attn.Wqkv.weight"@)),
        whole(n("o"@), f("attn.Wo.weight"@)),
        whole(n("mlp_norm"@), f("mlp_norm.weight"@)),
        SourceView {
            name: n("wi_val"@),
            from: f("mlp.Wi.weight"@),
            or: None,
            part: Part::Value(l as usize),
        },
        SourceView {
            name: n("wi_gate"@),
            from: f("mlp.Wi.weight"@),
            or: None,
            part: Part::Gate(l as usize),
        },
        whole(n("wo"@), f("mlp.Wo.weight"@)),
    ]
}

/// The sources of decision-head layer `h`.
pub open spec fn head_sources(h: int) -> Seq<SourceView> {
    let n = |s: Seq<char>| part_name("head."@, h, s);
    let f = |s: Seq<char>| part_name("head.layers."@, h, s);
    seq![
        whole(n("norm1_w"@), f("norm1.weight"@)),
        whole(n("norm1_b"@), f("norm1.bias"@)),
        either(n("in_proj"@), f("self_attn.in_proj.weight"@), f("self_attn.in_proj_weight"@)),
        either(n("in_proj_b"@), f("self_attn.in_proj.bias"@), f("self_attn.in_proj_bias"@)),
        whole(n("out_proj"@), f("self_attn.out_proj.weight"@)),
        whole(n("out_proj_b"@), f("self_attn.out_proj.bias"@)),
        whole(n("norm2_w"@), f("norm2.weight"@)),
        whole(n("norm2_b"@), f("norm2.bias"@)),
        whole(n("l1"@), f("linear1.weight"@)),
        whole(n("l1_b"@), f("linear1.bias"@)),
        whole(n("l2"@), f("linear2.weight"@)),
        whole(n("l2_b"@), f("linear2.bias"@)),
    ]
}

/// A tensor of entry `i` of a sequential part, with or without `layers.`.
pub open spec fn sequential(
    name: Seq<char>,
    part: Seq<char>,
    i: int,
    s: Seq<char>,
) -> SourceView {
    either(name, part_name(part + ".layers."@, i, s), part_name(part + "."@, i, s))
}

/// The sources of the scorer (a norm, a linear, an activation, a linear) and
/// of the act head (a linear, an activation, a linear).
pub open spec fn scorer_sources() -> Seq<SourceView> {
    seq![
        sequential("scorer.norm_w"@, "scorer"@, 0, "weight"@),
        sequential("scorer.norm_b"@, "scorer"@, 0, "bias"@),
        sequential("scorer.l1"@, "scorer"@, 1, "weight"@),
        sequential("scorer.l1_b"@, "scorer"@, 1, "bias"@),
        sequential("scorer.l2"@, "scorer"@, 3, "weight"@),
        sequential("scorer.l2_b"@, "scorer"@, 3, "bias"@),
        sequential("act.l1"@, "act_head"@, 0, "weight"@),
        sequential("act.l1_b"@, "act_head"@, 0, "bias"@),
        sequential("act.l2"@, "act_head"@, 2, "weight"@),
        sequential("act.l2_b"@, "act_head"@, 2, "bias"@),
    ]
}

/// The sources before the layers.
pub open spec fn first_sources() -> Seq<SourceView> {
    seq![
        SourceView {
            name: "embed"@,
            from: "encoder.embeddings.tok_embeddings.weight"@,
            or: None,
            part: Part::Table,
        },
        whole("embed_norm"@, "encoder.embeddings.norm.weight"@),
        whole("final_norm"@, "encoder.final_norm.weight"@),
        whole("type_emb"@, "type_emb.weight"@),
    ]
}

/// The sources before the layers and those of the first `n` encoder layers.
pub open spec fn encoder_sources_upto(n: nat) -> Seq<SourceView>
    decreases n,
{
    if n == 0 {
        first_sources()
    } else {
        encoder_sources_upto((n - 1) as nat) + encoder_sources(n - 1)
    }
}

/// Those of the encoder and of the first `n` head layers.
pub open spec fn head_sources_upto(layers: nat, n: nat) -> Seq<SourceView>
    decreases n,
{
    if n == 0 {
        encoder_sources_upto(layers)
    } else {
        head_sources_upto(layers, (n - 1) as nat) + head_sources(n - 1)
    }
}

/// Everything a checkpoint is read from, in order.
pub open spec fn all_sources(layers: nat, head_layers: nat) -> Seq<SourceView> {
    head_sources_upto(layers, head_layers) + scorer_sources()
}

fn push_whole(out: &mut Vec<Source>, name: &str, from: &str)
    ensures
        source_views(final(out)@) == source_views(old(out)@).push(whole(name@, from@)),
{
    let ghost before = out@;
    out.push(Source { name: name.to_owned(), from: from.to_owned(), or: None, part: Part::Whole });
    assert(source_views(out@) =~= source_views(before).push(whole(name@, from@)));
}

fn push_either(out: &mut Vec<Source>, name: &str, from: &str, or: &str)
    ensures
        source_views(final(out)@) == source_views(old(out)@).push(either(name@, from@, or@)),
{
    let ghost before = out@;
    out.push(
        Source {
            name: name.to_owned(),
            from: from.to_owned(),
            or: Some(or.to_owned()),
            part: Part::Whole,
        },
    );
    assert(source_views(out@) =~= source_views(before).push(either(name@, from@, or@)));
}

fn push_part(out: &mut Vec<Source>, name: &str, from: &str, part: Part)
    ensures
        source_views(final(out)@) == source_views(old(out)@).push(
            (SourceView { name: name@, from: from@, or: None, part }),
        ),
{
    let ghost before = out@;
    out.push(Source { name: name.to_owned(), from: from.to_owned(), or: None, part });
    assert(source_views(out@) =~= source_views(before).push(
        (SourceView { name: name@, from: from@, or: None, part }),
    ));
}

/// A tensor of encoder layer `l`.
fn push_encoder(out: &mut Vec<Source>, l: usize, name: &str, from: &str)
    ensures
        source_views(final(out)@) == source_views(old(out)@).push(
            whole(
                part_name("enc."@, l as int, name@),
                part_name("encoder.layers."@, l as int, from@),
            ),
        ),
{
    let n = part_text("enc.", l, name);
    let f = part_text("encoder.layers.", l, from);
    push_whole(out, n.as_str(), f.as_str());
}

fn push_encoder_sources(out: &mut Vec<Source>, l: usize)
    ensures
        source_views(final(out)@) == source_views(old(out)@) + encoder_sources(l as int),
{
    let ghost before = source_views(out@);
    if l > 0 {
        push_encoder(out, l, "attn_norm", "attn_norm.weight");
    }
    push_encoder(out, l, "qkv", "attn.Wqkv.weight");
    push_encoder(out, l, "o", "attn.Wo.weight");
    push_encoder(out, l, "mlp_norm", "mlp_norm.weight");
    let wi = part_text("encoder.layers.", l, "mlp.Wi.weight");
    let n = part_text("enc.", l, "wi_val");
    push_part(out, n.as_str(), wi.as_str(), Part::Value(l));
    let n = part_text("enc.", l, "wi_gate");
    push_part(out, n.as_str(), wi.as_str(), Part::Gate(l));
    push_encoder(out, l, "wo", "mlp.Wo.weight");
    assert(source_views(out@) =~= before + encoder_sources(l as int));
}

/// A tensor of head layer `h`.
fn push_head(out: &mut Vec<Source>, h: usize, name: &str, from: &str)
    ensures
        source_views(final(out)@) == source_views(old(out)@).push(
            whole(
                part_name("head."@, h as int, name@),
                part_name("head.layers."@, h as int, from@),
            ),
        ),
{
    let n = part_text("head.", h, name);
    let f = part_text("head.layers.", h, from);
    push_whole(out, n.as_str(), f.as_str());
}

/// A tensor of head layer `h` under either of two names.
fn push_head_either(out: &mut Vec<Source>, h: usize, name: &str, from: &str, or: &str)
    ensures
        source_views(final(out)@) == source_views(old(out)@).push(
            either(
                part_name("head."@, h as int, name@),
                part_name("head.layers."@, h as int, from@),
                part_name("head.layers."@, h as int, or@),
            ),
        ),
{
    let n = part_text("head.", h, name);
    let f = part_text("head.layers.", h, from);
    let o = part_text("head.layers.", h, or);
    push_either(out, n.as_str(), f.as_str(), o.as_str());
}

fn push_head_sources(out: &mut Vec<Source>, h: usize)
    ensures
        source_views(final(out)@) == source_views(old(out)@) + head_sources(h as int),
{
    let ghost before = source_views(out@);
    push_head(out, h, "norm1_w", "norm1.weight");
    push_head(out, h, "norm1_b", "norm1.bias");
    push_head_either(out, h, "in_proj", "self_attn.in_proj.weight", "self_attn.in_proj_weight");
    push_head_either(out, h, "in_proj_b", "self_attn.in_proj.bias", "self_attn.in_proj_bias");
    push_head(out, h, "out_proj", "self_attn.out_proj.weight");
    push_head(out, h, "out_proj_b", "self_attn.out_proj.bias");
    push_head(out, h, "norm2_w", "norm2.weight");
    push_head(out, h, "norm2_b", "norm2.bias");
    push_head(out, h, "l1", "linear1.weight");
    push_head(out, h, "l1_b", "linear1.bias");
    push_head(out, h, "l2", "linear2.weight");
    push_head(out, h, "l2_b", "linear2.bias");
    assert(source_views(out@) =~= before + head_sources(h as int));
}

fn push_sequential(out: &mut Vec<Source>, name: &str, part: &str, i: usize, s: &str)
    ensures
        source_views(final(out)@) == source_views(old(out)@).push(
            sequential(name@, part@, i as int, s@),
        ),
{
    let f = part_text(concat2(part, ".layers.").as_str(), i, s);
    let o = part_text(concat2(part, ".").as_str(), i, s);
    push_either(out, name, f.as_str(), o.as_str());
}

/// What the engine's tensors of a checkpoint are read from.
pub fn sources(layers: usize, head_layers: usize) -> (r: Vec<Source>)
    ensures
        source_views(r@) == all_sources(layers as nat, head_layers as nat),
{
    let mut out: Vec<Source> = Vec::new();
    push_part(&mut out, "embed", "encoder.embeddings.tok_embeddings.weight", Part::Table);
    push_whole(&mut out, "embed_norm", "encoder.embeddings.norm.weight");
    push_whole(&mut out, "final_norm", "encoder.final_norm.weight");
    push_whole(&mut out, "type_emb", "type_emb.weight");
    assert(source_views(out@) =~= first_sources());
    let mut l: usize = 0;
    while l < layers
        invariant
            0 <= l <= layers,
            source_views(out@) == encoder_sources_upto(l as nat),
        decreases layers - l,
    {
        push_encoder_sources(&mut out, l);
        l += 1;
    }
    let mut h: usize = 0;
    while h < head_layers
        invariant
            0 <= h <= head_layers,
            source_views(out@) == head_sources_upto(layers as nat, h as nat),
        decreases head_layers - h,
    {
        push_head_sources(&mut out, h);
        h += 1;
    }
    let ghost before = source_views(out@);
    push_sequential(&mut out, "scorer.norm_w", "scorer", 0, "weight");
    push_sequential(&mut out, "scorer.norm_b", "scorer", 0, "bias");
    push_sequential(&mut out, "scorer.l1", "scorer", 1, "weight");
    push_sequential(&mut out, "scorer.l1_b", "scorer", 1, "bias");
    push_sequential(&mut out, "scorer.l2", "scorer", 3, "weight");
    push_sequential(&mut out, "scorer.l2_b", "scorer", 3, "bias");
    push_sequential(&mut out, "act.l1", "act_head", 0, "weight");
    push_sequential(&mut out, "act.l1_b", "act_head", 0, "bias");
    push_sequential(&mut out, "act.l2", "act_head", 2, "weight");
    push_sequential(&mut out, "act.l2_b", "act_head", 2, "bias");
    assert(source_views(out@) =~= before + scorer_sources());
    out
}

/// Why a source cannot be read, if it cannot: the other name is tried where
/// the first fails.
pub open spec fn read_fault(header: JsonView, data: Seq<u8>, s: SourceView) -> Option<Seq<char>> {
    match (tensor_fault(header, data, s.from), s.or) {
        (None, _) => None,
        (Some(e), None) => Some(e),
        (Some(_), Some(or)) => tensor_fault(header, data, or),
    }
}

/// The tensor a source is read from.
pub open spec fn read_at(header: JsonView, data: Seq<u8>, s: SourceView) -> RawView {
    if tensor_fault(header, data, s.from) is None {
        tensor_at(header, data, s.from)
    } else {
        tensor_at(header, data, s.or->0)
    }
}

/// Why a source cannot be used, if it cannot.
pub open spec fn source_fault(
    c: LayaConfig,
    header: JsonView,
    data: Seq<u8>,
    s: SourceView,
) -> Option<Seq<char>> {
    let shape = read_at(header, data, s).shape;
    if read_fault(header, data, s) is Some {
        read_fault(header, data, s)
    } else {
        match s.part {
            Part::Whole => None,
            Part::Table => if shape != seq![c.vocab, c.d] {
                Some(
                    "tok_embeddings is "@ + list_text(shape) + ", config says "@ + list_text(
                        seq![c.vocab, c.d],
                    ),
                )
            } else {
                None
            },
            Part::Value(l) | Part::Gate(l) => if shape != seq![(2 * c.ff) as usize, c.d] {
                Some(
                    "layer "@ + decimal(l as nat) + ": mlp.Wi is "@ + list_text(shape)
                        + ", expected "@ + list_text(seq![(2 * c.ff) as usize, c.d]),
                )
            } else {
                None
            },
        }
    }
}

/// The first `k` of the numbers.
pub open spec fn first_of(v: ValuesView, k: int) -> ValuesView {
    match v {
        ValuesView::Half(s) => ValuesView::Half(s.take(k)),
        ValuesView::Single(s) => ValuesView::Single(s.take(k)),
    }
}

/// The numbers after the first `k`.
pub open spec fn rest_of(v: ValuesView, k: int) -> ValuesView {
    match v {
        ValuesView::Half(s) => ValuesView::Half(s.skip(k)),
        ValuesView::Single(s) => ValuesView::Single(s.skip(k)),
    }
}

/// The engine's tensor that a source gives.
pub open spec fn source_result(
    c: LayaConfig,
    header: JsonView,
    data: Seq<u8>,
    s: SourceView,
) -> RawView {
    let t = read_at(header, data, s);
    match s.part {
        Part::Whole | Part::Table => t,
        Part::Value(_) => RawView {
            shape: seq![c.ff, c.d],
            runs: seq![first_of(t.runs[0], c.ff * c.d)],
        },
        Part::Gate(_) => RawView {
            shape: seq![c.ff, c.d],
            runs: seq![rest_of(t.runs[0], c.ff * c.d)],
        },
    }
}

fn slice16(v: &Vec<u16>, a: usize, b: usize) -> (r: Vec<u16>)
    requires
        a <= b <= v@.len(),
    ensures
        r@ == v@.subrange(a as int, b as int),
{
    let mut out: Vec<u16> = Vec::new();
    let mut i: usize = a;
    while i < b
        invariant
            a <= i <= b <= v@.len(),
            out@ == v@.subrange(a as int, i as int),
        decreases b - i,
    {
        out.push(v[i]);
        i += 1;
        assert(out@ =~= v@.subrange(a as int, i as int));
    }
    out
}

fn slice32(v: &Vec<u32>, a: usize, b: usize) -> (r: Vec<u32>)
    requires
        a <= b <= v@.len(),
    ensures
        r@ == v@.subrange(a as int, b as int),
{
    let mut out: Vec<u32> = Vec::new();
    let mut i: usize = a;
    while i < b
        invariant
            a <= i <= b <= v@.len(),
            out@ == v@.subrange(a as int, i as int),
        decreases b - i,
    {
        out.push(v[i]);
        i += 1;
        assert(out@ =~= v@.subrange(a as int, i as int));
    }
    out
}

/// One half of the numbers: the first `k`, or the rest.
fn half_of(v: &Values, k: usize, rest: bool) -> (r: Values)
    requires
        k <= count_of(v@),
    ensures
        r@ == (if rest {
            rest_of(v@, k as int)
        } else {
            first_of(v@, k as int)
        }),
{
    match v {
        Values::Half(s) => {
            if rest {
                let out = slice16(s, k, s.len());
                assert(out@ =~= s@.skip(k as int));
                Values::Half(out)
            } else {
                let out = slice16(s, 0, k);
                assert(out@ =~= s@.take(k as int));
                Values::Half(out)
            }
        },
        Values::Single(s) => {
            if rest {
                let out = slice32(s, k, s.len());
                assert(out@ =~= s@.skip(k as int));
                Values::Single(out)
            } else {
                let out = slice32(s, 0, k);
                assert(out@ =~= s@.take(k as int));
                Values::Single(out)
            }
        },
    }
}

fn read_source<'a>(st: &SafeTensors<'a>, s: &Source) -> (r: Result<RawTensor, LoadError>)
    ensures
        match r {
            Ok(t) => read_fault(st.header@, st.data@, s@) is None && t@ == read_at(
                st.header@,
                st.data@,
                s@,
            ),
            Err(e) => read_fault(st.header@, st.data@, s@) == Some(e@),
        },
{
    match st.tensor(s.from.as_str()) {
        Ok(t) => Ok(t),
        Err(e) => match &s.or {
            None => Err(e),
            Some(or) => st.tensor(or.as_str()),
        },
    }
}

proof fn two_dims(a: usize, b: usize)
    ensures
        product(seq![a, b]) == a * b,
{
    reveal_with_fuel(product, 3);
    let s = seq![a, b];
    assert(s.drop_last() =~= seq![a]);
    assert(seq![a].drop_last().len() == 0);
    assert(product(seq![a]) == 1 * a);
}

fn use_source<'a>(c: &LayaConfig, st: &SafeTensors<'a>, s: &Source) -> (r: Result<
    RawTensor,
    LoadError,
>)
    requires
        2 * c.ff <= usize::MAX,
    ensures
        match r {
            Ok(t) => source_fault(*c, st.header@, st.data@, s@) is None && t@ == source_result(
                *c,
                st.header@,
                st.data@,
                s@,
            ),
            Err(e) => source_fault(*c, st.header@, st.data@, s@) == Some(e@),
        },
{
    let t = match read_source(st, s) {
        Ok(t) => t,
        Err(e) => {
            return Err(e);
        },
    };
    let (layer, rest) = match s.part {
        Part::Whole => {
            return Ok(t);
        },
        Part::Table => {
            let mut want: Vec<usize> = Vec::new();
            want.push(c.vocab);
            want.push(c.d);
            assert(want@ =~= seq![c.vocab, c.d]);
            if !same_sizes(&t.shape, &want) {
                let mut m: String = "tok_embeddings is ".to_owned();
                push_list(&mut m, &t.shape);
                m.append(", config says ");
                push_list(&mut m, &want);
                return Err(LoadError::new(m));
            }
            return Ok(t);
        },
        Part::Value(l) => (l, false),
        Part::Gate(l) => (l, true),
    };
    let mut want: Vec<usize> = Vec::new();
    want.push(2 * c.ff);
    want.push(c.d);
    assert(want@ =~= seq![(2 * c.ff) as usize, c.d]);
    if !same_sizes(&t.shape, &want) {
        let mut m: String = "layer ".to_owned();
        push_decimal(&mut m, layer as u64);
        m.append(": mlp.Wi is ");
        push_list(&mut m, &t.shape);
        m.append(", expected ");
        push_list(&mut m, &want);
        return Err(LoadError::new(m));
    }
    proof {
        two_dims((2 * c.ff) as usize, c.d);
        assert((2 * c.ff) * c.d == 2 * (c.ff * c.d)) by (nonlinear_arith);
        assert(0 <= c.ff * c.d) by (nonlinear_arith);
        assert(t@.runs.len() == 1);
        assert(t@.runs[0] == t.runs@[0]@);
    }
    let n: usize = match &t.runs[0] {
        Values::Half(v) => v.len(),
        Values::Single(v) => v.len(),
    };
    let half: usize = n / 2;
    assert(half == c.ff * c.d);
    let mut runs: Vec<Values> = Vec::new();
    runs.push(half_of(&t.runs[0], half, rest));
    let mut shape: Vec<usize> = Vec::new();
    shape.push(c.ff);
    shape.push(c.d);
    let out = RawTensor { shape, runs };
    assert(out@ =~= source_result(*c, st.header@, st.data@, s@));
    Ok(out)
}

/// The fault of the first of the sources that cannot be used.
pub open spec fn sources_fault(
    c: LayaConfig,
    header: JsonView,
    data: Seq<u8>,
    s: Seq<SourceView>,
) -> Option<Seq<char>>
    decreases s.len(),
{
    if s.len() == 0 {
        None
    } else {
        match sources_fault(c, header, data, s.drop_last()) {
            Some(e) => Some(e),
            None => source_fault(c, header, data, s.last()),
        }
    }
}

proof fn sources_fault_prefix(
    c: LayaConfig,
    header: JsonView,
    data: Seq<u8>,
    s: Seq<SourceView>,
    i: int,
)
    requires
        0 <= i <= s.len(),
        sources_fault(c, header, data, s.take(i)) is Some,
    ensures
        sources_fault(c, header, data, s) == sources_fault(c, header, data, s.take(i)),
    decreases s.len() - i,
{
    if i < s.len() {
        assert(s.take(i + 1).drop_last() =~= s.take(i));
        sources_fault_prefix(c, header, data, s, i + 1);
    } else {
        assert(s.take(i) =~= s);
    }
}

/// The engine's tensors of a checkpoint, by name.
pub open spec fn laya_results(c: LayaConfig, bytes: Seq<u8>) -> Seq<(Seq<char>, RawView)> {
    all_sources(c.layers as nat, c.head_layers as nat).map_values(
        |s: SourceView| (s.name, source_result(c, header_of(bytes), data_of(bytes), s)),
    )
}

/// Why a checkpoint cannot be loaded, if it cannot.
pub open spec fn laya_load_fault(c: LayaConfig, bytes: Seq<u8>) -> Option<Seq<char>> {
    let s = all_sources(c.layers as nat, c.head_layers as nat);
    if crate::tensor::safetensors_fault(bytes) is Some {
        crate::tensor::safetensors_fault(bytes)
    } else if sources_fault(c, header_of(bytes), data_of(bytes), s) is Some {
        sources_fault(c, header_of(bytes), data_of(bytes), s)
    } else {
        shapes_fault(loaded_shapes(laya_results(c, bytes)), laya_tensors(c))
    }
}

/// A checkpoint as its file holds it: every tensor under the engine's name,
/// its numbers still to be narrowed to half precision.
#[derive(Debug)]
pub struct RawLayaWeights {
    pub config: LayaConfig,
    pub tensors: Vec<(String, RawTensor)>,
}

impl RawLayaWeights {
    /// Loads a checkpoint from its `model.safetensors`.
    pub fn load(config: LayaConfig, safetensors: &[u8]) -> (r: Result<RawLayaWeights, LoadError>)
        requires
            laya_widths_fit(config),
            2 * config.ff <= usize::MAX,
        ensures
            match r {
                Ok(w) => laya_load_fault(config, safetensors@) is None && w.config == config
                    && loaded_views(w.tensors@) == laya_results(config, safetensors@),
                Err(e) => laya_load_fault(config, safetensors@) == Some(e@),
            },
    {
        let st = match SafeTensors::parse(safetensors) {
            Ok(st) => st,
            Err(e) => {
                return Err(e);
            },
        };
        let ghost h = header_of(safetensors@);
        let ghost d = data_of(safetensors@);
        assert(st.header@ == h && st.data@ == d);
        let list = sources(config.layers, config.head_layers);
        let ghost sv = source_views(list@);
        let mut tensors: Vec<(String, RawTensor)> = Vec::new();
        let mut i: usize = 0;
        assert(sv.take(0) =~= Seq::<SourceView>::empty());
        while i < list.len()
            invariant
                0 <= i <= list@.len(),
                2 * config.ff <= usize::MAX,
                sv == source_views(list@),
                sv == all_sources(config.layers as nat, config.head_layers as nat),
                h == header_of(safetensors@),
                d == data_of(safetensors@),
                st.header@ == h,
                st.data@ == d,
                crate::tensor::safetensors_fault(safetensors@) is None,
                sources_fault(config, h, d, sv.take(i as int)) is None,
                tensors@.len() == i,
                forall|j: int|
                    0 <= j < i ==> (#[trigger] tensors@[j]).0@ == sv[j].name && tensors@[j].1@
                        == source_result(config, h, d, sv[j]),
            decreases list@.len() - i,
        {
            proof {
                assert(sv[i as int] == list@[i as int]@);
                assert(sv.take(i as int + 1).drop_last() =~= sv.take(i as int));
                if source_fault(config, h, d, sv[i as int]) is Some {
                    sources_fault_prefix(config, h, d, sv, i as int + 1);
                }
            }
            let t = match use_source(&config, &st, &list[i]) {
                Ok(t) => t,
                Err(e) => {
                    return Err(e);
                },
            };
            tensors.push((list[i].name.clone(), t));
            i += 1;
        }
        assert(sv.take(i as int) =~= sv);
        assert(loaded_views(tensors@) =~= laya_results(config, safetensors@));
        match check_shapes(&shapes_of(&tensors), &config.tensors()) {
            Ok(_) => Ok(RawLayaWeights { config, tensors }),
            Err(e) => Err(e),
        }
    }
}

/// Host copy of a checkpoint: every tensor of [`LayaConfig::tensors`].
#[derive(Debug)]
pub struct LayaWeights {
    pub config: LayaConfig,
    pub tensors: Vec<(String, QTensor)>,
}

impl LayaWeights {
    /// The first tensor under `name`.
    pub fn get(&self, name: &str) -> (r: Result<&QTensor, LoadError>)
        ensures
            match r {
                Ok(t) => find(held_shapes(self.tensors@), name@) == Some(t.shape@) && first_named(
                    self.tensors@,
                    name@,
                    *t,
                ),
                Err(e) => find(held_shapes(self.tensors@), name@) is None && e@
                    == "missing tensor "@ + name@,
            },
    {
        tensor_named(&self.tensors, name)
    }

    /// Every catalogued tensor present with the right shape.
    pub fn check(&self) -> (r: Result<(), LoadError>)
        requires
            laya_widths_fit(self.config),
        ensures
            match r {
                Ok(_) => shapes_fault(held_shapes(self.tensors@), laya_tensors(self.config)) is None,
                Err(e) => shapes_fault(held_shapes(self.tensors@), laya_tensors(self.config))
                    == Some(e@),
            },
    {
        check_shapes(&held_specs(&self.tensors), &self.config.tensors())
    }
}

/// The two halves of a fused projection, put together, are the projection.
pub proof fn halves_make_the_whole(v: ValuesView, k: int)
    requires
        0 <= k <= count_of(v),
    ensures
        match (first_of(v, k), rest_of(v, k)) {
            (ValuesView::Half(a), ValuesView::Half(b)) => v == ValuesView::Half(a + b),
            (ValuesView::Single(a), ValuesView::Single(b)) => v == ValuesView::Single(a + b),
            _ => false,
        },
{
    match v {
        ValuesView::Half(s) => {
            assert(s.take(k) + s.skip(k) =~= s);
        },
        ValuesView::Single(s) => {
            assert(s.take(k) + s.skip(k) =~= s);
        },
    }
}

/// What is loaded into a layer of the encoder is what the engine expects of it:
/// every tensor, in order, under its name, from the checkpoint's layer of the
/// same number.
pub proof fn encoder_layers_load_what_is_expected(c: LayaConfig, l: int, i: int)
    requires
        0 <= l <= usize::MAX,
        0 <= i < encoder_sources(l).len(),
    ensures
        encoder_sources(l).len() == encoder_tensors(c, l).len(),
        encoder_sources(l)[i].name == encoder_tensors(c, l)[i].0,
        starts_in(
            encoder_sources(l)[i].from,
            "encoder.layers."@ + decimal(l as nat) + "."@,
        ),
        ends_in(encoder_sources(l)[i].from, ".weight"@),
        encoder_sources(l)[i].or is None,
{
    let s = encoder_sources(l)[i];
    let lead = "encoder.layers."@ + decimal(l as nat) + "."@;
    reveal_strlit(".weight");
    reveal_strlit("attn_norm.weight");
    reveal_strlit("attn.Wqkv.weight");
    reveal_strlit("attn.Wo.weight");
    reveal_strlit("mlp_norm.weight");
    reveal_strlit("mlp.Wi.weight");
    reveal_strlit("mlp.Wo.weight");
    assert(s.from.take(lead.len() as int) =~= lead);
    assert(s.from.skip(s.from.len() - 7) =~= ".weight"@);
}

/// A layer's own tensors come from the files of their own: the attention's from
/// the attention's, the halves of the fused projection from its first rows and
/// from the others.
pub proof fn encoder_tensors_load_from_their_own_file(l: int)
    requires
        0 <= l <= usize::MAX,
    ensures
        ({
            let k: int = if l > 0 {
                1
            } else {
                0
            };
            let ss = encoder_sources(l);
            &&& l > 0 ==> ends_in(ss[0].name, "attn_norm"@) && ends_in(ss[0].from, "attn_norm.weight"@)
            &&& ends_in(ss[k].name, "qkv"@) && ends_in(ss[k].from, "attn.Wqkv.weight"@)
            &&& ends_in(ss[k + 1].name, ".o"@) && ends_in(ss[k + 1].from, "attn.Wo.weight"@)
            &&& ends_in(ss[k + 2].name, "mlp_norm"@) && ends_in(ss[k + 2].from, "mlp_norm.weight"@)
            &&& ends_in(ss[k + 3].name, "wi_val"@) && ss[k + 3].part is Value
            &&& ends_in(ss[k + 4].name, "wi_gate"@) && ss[k + 4].part is Gate
            &&& ss[k + 3].from == ss[k + 4].from && ends_in(ss[k + 3].from, "mlp.Wi.weight"@)
            &&& ends_in(ss[k + 5].name, "wo"@) && ends_in(ss[k + 5].from, "mlp.Wo.weight"@)
            &&& ss[k].part is Whole && ss[k + 1].part is Whole && ss[k + 2].part is Whole
                && ss[k + 5].part is Whole
        }),
{
    let k: int = if l > 0 {
        1
    } else {
        0
    };
    let ss = encoder_sources(l);
    reveal_strlit(".");
    reveal_strlit("o");
    reveal_strlit(".o");
    assert(ss[0].from.len() > 0);
    if l > 0 {
        assert(ss[0].name.skip(ss[0].name.len() - "attn_norm"@.len()) =~= "attn_norm"@);
        assert(ss[0].from.skip(ss[0].from.len() - "attn_norm.weight"@.len())
            =~= "attn_norm.weight"@);
    }
    assert(ss[k].name.skip(ss[k].name.len() - "qkv"@.len()) =~= "qkv"@);
    assert(ss[k].from.skip(ss[k].from.len() - "attn.Wqkv.weight"@.len()) =~= "attn.Wqkv.weight"@);
    assert(ss[k + 1].name.skip(ss[k + 1].name.len() - 2) =~= ".o"@);
    assert(ss[k + 1].from.skip(ss[k + 1].from.len() - "attn.Wo.weight"@.len())
        =~= "attn.Wo.weight"@);
    assert(ss[k + 2].name.skip(ss[k + 2].name.len() - "mlp_norm"@.len()) =~= "mlp_norm"@);
    assert(ss[k + 2].from.skip(ss[k + 2].from.len() - "mlp_norm.weight"@.len())
        =~= "mlp_norm.weight"@);
    assert(ss[k + 3].name.skip(ss[k + 3].name.len() - "wi_val"@.len()) =~= "wi_val"@);
    assert(ss[k + 3].from.skip(ss[k + 3].from.len() - "mlp.Wi.weight"@.len())
        =~= "mlp.Wi.weight"@);
    assert(ss[k + 4].name.skip(ss[k + 4].name.len() - "wi_gate"@.len()) =~= "wi_gate"@);
    assert(ss[k + 5].name.skip(ss[k + 5].name.len() - "wo"@.len()) =~= "wo"@);
    assert(ss[k + 5].from.skip(ss[k + 5].from.len() - "mlp.Wo.weight"@.len())
        =~= "mlp.Wo.weight"@);
}

/// What is loaded into a layer of the decision head is what the engine expects
/// of it, every tensor in order; weights come from weights and biases from
/// biases, of the checkpoint's layer of the same number.
pub proof fn head_layers_load_what_is_expected(c: LayaConfig, h: int, i: int)
    requires
        0 <= h,
        0 <= i < head_sources(h).len(),
    ensures
        head_sources(h).len() == head_tensors(c, h).len(),
        head_sources(h)[i].name == head_tensors(c, h)[i].0,
        head_sources(h)[i].part is Whole,
        starts_in(head_sources(h)[i].from, "head.layers."@ + decimal(h as nat) + "."@),
        ends_in(head_sources(h)[i].name, "_b"@) <==> ends_in(head_sources(h)[i].from, "bias"@),
        !ends_in(head_sources(h)[i].name, "_b"@) <==> ends_in(head_sources(h)[i].from, "weight"@),
{
    let s = head_sources(h)[i];
    let lead = "head.layers."@ + decimal(h as nat) + "."@;
    assert(s.from.take(lead.len() as int) =~= lead);
    reveal_strlit("_b");
    reveal_strlit("bias");
    reveal_strlit("weight");
    reveal_strlit("norm1_w");
    reveal_strlit("norm1_b");
    reveal_strlit("in_proj");
    reveal_strlit("in_proj_b");
    reveal_strlit("out_proj");
    reveal_strlit("out_proj_b");
    reveal_strlit("norm2_w");
    reveal_strlit("norm2_b");
    reveal_strlit("l1");
    reveal_strlit("l1_b");
    reveal_strlit("l2");
    reveal_strlit("l2_b");
    reveal_strlit("norm1.weight");
    reveal_strlit("norm1.bias");
    reveal_strlit("self_attn.in_proj.weight");
    reveal_strlit("self_attn.in_proj.bias");
    reveal_strlit("self_attn.out_proj.weight");
    reveal_strlit("self_attn.out_proj.bias");
    reveal_strlit("norm2.weight");
    reveal_strlit("norm2.bias");
    reveal_strlit("linear1.weight");
    reveal_strlit("linear1.bias");
    reveal_strlit("linear2.weight");
    reveal_strlit("linear2.bias");
    let (n, f) = (s.name, s.from);
    if i % 2 == 1 {
        assert(n.skip(n.len() - 2) =~= "_b"@);
        assert(f.skip(f.len() - 4) =~= "bias"@);
        assert(f.last() == 's');
        assert(f.skip(f.len() - 6).last() == 's');
        assert("weight"@.last() == 't');
    } else {
        assert(f.skip(f.len() - 6) =~= "weight"@);
        assert(n.last() != 'b');
        assert(n.skip(n.len() - 2).last() == n.last());
        assert("_b"@.last() == 'b');
        assert(f.skip(f.len() - 4).last() == 't');
        assert("bias"@.last() == 's');
    }
}

/// What the scorer and the act head are loaded from is what the engine expects
/// of them, in order; a tensor stands under either of the two names that a
/// checkpoint gives the layers of a sequence.
pub proof fn scorers_load_what_is_expected(c: LayaConfig, i: int)
    requires
        0 <= i < scorer_tensors(c).len(),
    ensures
        scorer_tensors(c).len() <= scorer_sources().len(),
        scorer_sources()[i].name == scorer_tensors(c)[i].0,
        scorer_sources()[i].or is Some,
        scorer_sources()[i].part is Whole,
{
}

/// A tensor is read from its first name where that can be read, and from its
/// second name only where it cannot.
pub proof fn the_first_name_is_read_first(header: JsonView, data: Seq<u8>, s: SourceView)
    ensures
        tensor_fault(header, data, s.from) is None ==> read_fault(header, data, s) is None
            && read_at(header, data, s) == tensor_at(header, data, s.from),
        tensor_fault(header, data, s.from) is Some && s.or is Some && tensor_fault(
            header,
            data,
            s.or->0,
        ) is None ==> read_fault(header, data, s) is None && read_at(header, data, s) == tensor_at(
            header,
            data,
            s.or->0,
        ),
        tensor_fault(header, data, s.from) is Some && s.or is None ==> read_fault(header, data, s)
            == tensor_fault(header, data, s.from),
{
}

/// The first rows of a fused projection are its value half, the others its
/// gating half; both have the width of the MLP.
pub proof fn halves_are_the_first_and_the_other_rows(
    c: LayaConfig,
    header: JsonView,
    data: Seq<u8>,
    s: SourceView,
    i: int,
)
    requires
        s.part is Value || s.part is Gate,
        source_fault(c, header, data, s) is None,
        read_at(header, data, s).runs.len() == 1,
        read_at(header, data, s).runs[0] is Single,
        read_at(header, data, s).runs[0]->Single_0.len() == 2 * (c.ff * c.d),
        0 <= i < c.ff * c.d,
    ensures
        source_result(c, header, data, s).shape == seq![c.ff, c.d],
        read_at(header, data, s).shape == seq![(2 * c.ff) as usize, c.d],
        s.part is Value ==> source_result(c, header, data, s).runs[0]->Single_0[i] == read_at(
            header,
            data,
            s,
        ).runs[0]->Single_0[i],
        s.part is Gate ==> source_result(c, header, data, s).runs[0]->Single_0[i] == read_at(
            header,
            data,
            s,
        ).runs[0]->Single_0[c.ff * c.d + i],
{
}

/// An encoder's checkpoint is loaded exactly where the file has a header,
/// every tensor has a source in it, and the loaded tensors are those expected.
pub proof fn encoders_load_exactly_when_complete(c: LayaConfig, bytes: Seq<u8>)
    ensures
        laya_load_fault(c, bytes) is None <==> {
            &&& crate::tensor::safetensors_fault(bytes) is None
            &&& forall|i: int|
                0 <= i < all_sources(c.layers as nat, c.head_layers as nat).len() ==> source_fault(
                    c,
                    header_of(bytes),
                    data_of(bytes),
                    #[trigger] all_sources(c.layers as nat, c.head_layers as nat)[i],
                ) is None
            &&& shapes_fault(loaded_shapes(laya_results(c, bytes)), laya_tensors(c)) is None
        },
{
    sources_pass_exactly_when_each_does(
        c,
        header_of(bytes),
        data_of(bytes),
        all_sources(c.layers as nat, c.head_layers as nat),
    );
}

proof fn sources_pass_exactly_when_each_does(
    c: LayaConfig,
    header: JsonView,
    data: Seq<u8>,
    s: Seq<SourceView>,
)
    ensures
        sources_fault(c, header, data, s) is None <==> forall|i: int|
            0 <= i < s.len() ==> source_fault(c, header, data, #[trigger] s[i]) is None,
    decreases s.len(),
{
    if s.len() > 0 {
        let d = s.drop_last();
        sources_pass_exactly_when_each_does(c, header, data, d);
        assert(s.last() == s[s.len() - 1]);
        if forall|i: int|
            0 <= i < s.len() ==> source_fault(c, header, data, #[trigger] s[i]) is None {
            assert forall|i: int| 0 <= i < d.len() implies source_fault(
                c,
                header,
                data,
                #[trigger] d[i],
            ) is None by {
                assert(d[i] == s[i]);
            }
        }
        if sources_fault(c, header, data, s) is None {
            assert forall|i: int| 0 <= i < s.len() implies source_fault(
                c,
                header,
                data,
                #[trigger] s[i],
            ) is None by {
                if i < d.len() {
                    assert(d[i] == s[i]);
                }
            }
        }
    }
}

} // verus!

//! The forward pass of the decision-head encoder: how its dispatches are wired
//! and launched, how sequences are packed, and how hidden rows come back.

use vstd::prelude::*;
use vstd::string::StringExecFns;

use crate::bert::{
    batch_ids, batch_meta, batch_qtypes, batch_wanted, pack_sequences, runnable,
    sequences_are_taken_exactly_when_runnable, sequences_fault, start_of,
    total_length, Batch, Sequence,
};
use crate::error::LoadError;
use crate::gemma::{at_least_one, bytes_at, bytes_of, names_of, rows_have_room, row_of, size_views, sizes_fit, words};
use crate::gpu::{
    all_fit, all_suit, feeds, fits_kernel, fits_together, suits, weights_in, weights_of_next,
    weights_read, joined_side_by_side, side_by_side, attn_tile, buf_views, check_expected, check_upload,
    data_buf, dtype_views, expected_fault, gated_wire, group_count, groups, groups_cover_the_work, middle_wire,
    plain_wire, push_gated, push_middle, push_plain, push_weight, push_wire, stored, stored_dtype,
    tile_of, upload_fault, weight_wire, wire_views, wired, Block, Buf, BufView, Dispatch, Wire,
    WireView, Work, GELU_ERF, K,
};
use crate::laya::{encoder_tensors, first_tensors, head_tensors, host_tensor, is_host_tensor, laya_widths_fit, part_name, part_text, LayaConfig};
use crate::model::{spec_views, NamedShape, TensorSpec};
use crate::tensor::{Dtype, QTensor};
use crate::text::{decimal, push_decimal};

verus! {

/// A norm of a row, after adding another row to it: the added row, the norm's
/// weight and bias, the added row's bias, the row, and where the norm goes.
pub open spec fn norm_wire(
    label: Seq<char>,
    added: BufView,
    weight: BufView,
    bias: BufView,
    added_bias: BufView,
    row: Work,
    dst: BufView,
) -> WireView {
    wired(
        label,
        K::LayerNorm,
        0,
        0,
        seq![added, weight, bias, added_bias, BufView::Work(row), dst],
    )
}

pub(crate) fn push_norm(
    out: &mut Vec<Wire>,
    label: &str,
    added: Buf,
    weight: Buf,
    bias: Buf,
    added_bias: Buf,
    row: Work,
    dst: Buf,
)
    ensures
        wire_views(final(out)@) == wire_views(old(out)@).push(
            norm_wire(label@, added@, weight@, bias@, added_bias@, row, dst@),
        ),
{
    let ghost want = seq![added@, weight@, bias@, added_bias@, BufView::Work(row), dst@];
    let mut bufs: Vec<Buf> = Vec::new();
    bufs.push(added);
    bufs.push(weight);
    bufs.push(bias);
    bufs.push(added_bias);
    bufs.push(Buf::Work(row));
    bufs.push(dst);
    assert(buf_views(bufs@) =~= want);
    push_wire(out, label, K::LayerNorm, 0, 0, bufs);
}

/// The dispatches of encoder layer `l`, in the order in which they run. The
/// residual additions ride in the norm that follows them; the last layer
/// normalizes the residual stream in place with the final norm.
pub open spec fn encoder_wires(c: LayaConfig, dtypes: Seq<(Seq<char>, Dtype)>, l: int) -> Seq<
    WireView,
> {
    let hd = (c.d as nat / c.heads as nat) as usize;
    let n = |s: Seq<char>| part_name("enc."@, l, s);
    seq![
        weight_wire(
            "mm_qkv"@,
            K::Matmul,
            if l > 0 {
                Work::H
            } else {
                Work::X
            },
            n("qkv"@),
            Work::Qkv,
            dtypes,
        ),
        plain_wire("rope"@, K::RopeBi, hd, seq![Work::Meta, Work::Qkv]),
        plain_wire("attention"@, K::AttentionBi, hd, seq![Work::Qkv, Work::Meta, Work::Attn]),
        weight_wire("mm_o"@, K::Matmul, Work::Attn, n("o"@), Work::A, dtypes),
        norm_wire(
            "add_o_norm"@,
            BufView::Work(Work::A),
            BufView::Data(n("mlp_norm"@)),
            BufView::Dummy,
            BufView::Dummy,
            Work::X,
            BufView::Work(Work::H),
        ),
        gated_wire("mm_wi"@, Work::H, n("wi_val"@), n("wi_gate"@), Work::Act, GELU_ERF, dtypes),
        weight_wire("mm_wo"@, K::Matmul, Work::Act, n("wo"@), Work::A, dtypes),
        if l + 1 == c.layers {
            norm_wire(
                "add_wo_norm"@,
                BufView::Work(Work::A),
                BufView::Data("final_norm"@),
                BufView::Dummy,
                BufView::Dummy,
                Work::X,
                BufView::DummyRw,
            )
        } else {
            norm_wire(
                "add_wo_norm"@,
                BufView::Work(Work::A),
                BufView::Data(part_name("enc."@, l + 1, "attn_norm"@)),
                BufView::Dummy,
                BufView::Dummy,
                Work::X,
                BufView::Work(Work::H),
            )
        },
    ]
}

/// The dispatches of decision-head layer `h`. Only the first normalizes its
/// input itself; the others' norm rides in the previous layer's last addition,
/// and the last layer's addition is a plain one.
pub open spec fn head_wires(c: LayaConfig, dtypes: Seq<(Seq<char>, Dtype)>, h: int) -> Seq<
    WireView,
> {
    let hd = (c.d as nat / c.heads as nat) as usize;
    let n = |s: Seq<char>| part_name("head."@, h, s);
    let w = |s: Seq<char>| BufView::Data(part_name("head."@, h, s));
    (if h == 0 {
        seq![
            norm_wire(
                "norm1"@,
                BufView::Dummy,
                w("norm1_w"@),
                w("norm1_b"@),
                BufView::Dummy,
                Work::X,
                BufView::Work(Work::H),
            ),
        ]
    } else {
        Seq::empty()
    }) + seq![
        weight_wire("mm_in"@, K::Matmul, Work::H, n("in_proj"@), Work::Qkv, dtypes),
        middle_wire("bias_in"@, K::BiasAct, BufView::Dummy, w("in_proj_b"@), Work::Qkv),
        plain_wire("head_attention"@, K::AttentionBi, hd, seq![Work::Qkv, Work::Meta, Work::Attn]),
        weight_wire("mm_out"@, K::Matmul, Work::Attn, n("out_proj"@), Work::A, dtypes),
        norm_wire(
            "add_out_norm2"@,
            BufView::Work(Work::A),
            w("norm2_w"@),
            w("norm2_b"@),
            w("out_proj_b"@),
            Work::X,
            BufView::Work(Work::H),
        ),
        weight_wire("mm_l1"@, K::Matmul, Work::H, n("l1"@), Work::Act, dtypes),
        middle_wire("relu_l1"@, K::BiasAct, BufView::Dummy, w("l1_b"@), Work::Act),
        weight_wire("mm_l2"@, K::Matmul, Work::Act, n("l2"@), Work::A, dtypes),
        if h + 1 == c.head_layers {
            middle_wire("add_l2"@, K::BiasAct, BufView::Work(Work::A), w("l2_b"@), Work::X)
        } else {
            norm_wire(
                "add_l2_norm1"@,
                BufView::Work(Work::A),
                BufView::Data(part_name("head."@, h + 1, "norm1_w"@)),
                BufView::Data(part_name("head."@, h + 1, "norm1_b"@)),
                w("l2_b"@),
                Work::X,
                BufView::Work(Work::H),
            )
        },
    ]
}

/// The dispatches before the layers: embedding rows, and their norm into the
/// residual stream.
pub open spec fn first_wires(dtypes: Seq<(Seq<char>, Dtype)>) -> Seq<WireView> {
    seq![
        weight_wire("embed"@, K::Embed, Work::Ids, "embed"@, Work::H, dtypes),
        norm_wire(
            "embed_norm"@,
            BufView::Dummy,
            BufView::Data("embed_norm"@),
            BufView::Dummy,
            BufView::Dummy,
            Work::H,
            BufView::Work(Work::X),
        ),
    ]
}

/// The opening and the first `n` encoder layers.
pub open spec fn encoder_wires_upto(
    c: LayaConfig,
    dtypes: Seq<(Seq<char>, Dtype)>,
    n: nat,
) -> Seq<WireView>
    decreases n,
{
    if n == 0 {
        first_wires(dtypes)
    } else {
        encoder_wires_upto(c, dtypes, (n - 1) as nat) + encoder_wires(c, dtypes, n - 1)
    }
}

/// The question-type embedding, where there is one.
pub open spec fn type_wires(c: LayaConfig, dtypes: Seq<(Seq<char>, Dtype)>) -> Seq<WireView> {
    if c.type_emb {
        seq![weight_wire("type_emb"@, K::Embed, Work::Qtypes, "type_emb"@, Work::X, dtypes)]
    } else {
        Seq::empty()
    }
}

/// The encoder, the question-type embedding and the first `n` head layers.
pub open spec fn head_wires_upto(
    c: LayaConfig,
    dtypes: Seq<(Seq<char>, Dtype)>,
    n: nat,
) -> Seq<WireView>
    decreases n,
{
    if n == 0 {
        encoder_wires_upto(c, dtypes, c.layers as nat) + type_wires(c, dtypes)
    } else {
        head_wires_upto(c, dtypes, (n - 1) as nat) + head_wires(c, dtypes, n - 1)
    }
}

/// Every dispatch of a pass, in the order in which they run.
pub open spec fn laya_wires(c: LayaConfig, dtypes: Seq<(Seq<char>, Dtype)>) -> Seq<WireView> {
    head_wires_upto(c, dtypes, c.head_layers as nat)
}

/// The first layer whose fused projection's halves do not share a storage
/// type.
pub open spec fn halves_fault(dtypes: Seq<(Seq<char>, Dtype)>, n: nat) -> Option<Seq<char>>
    decreases n,
{
    if n == 0 {
        None
    } else {
        match halves_fault(dtypes, (n - 1) as nat) {
            Some(e) => Some(e),
            None => if stored(dtypes, part_name("enc."@, n - 1, "wi_val"@)) != stored(
                dtypes,
                part_name("enc."@, n - 1, "wi_gate"@),
            ) {
                Some(
                    "layer "@ + decimal((n - 1) as nat)
                        + ": Wi halves must share a storage type"@,
                )
            } else {
                None
            },
        }
    }
}

proof fn halves_fault_stays(dtypes: Seq<(Seq<char>, Dtype)>, i: nat, n: nat)
    requires
        i <= n,
        halves_fault(dtypes, i) is Some,
    ensures
        halves_fault(dtypes, n) == halves_fault(dtypes, i),
    decreases n - i,
{
    if i < n {
        halves_fault_stays(dtypes, i + 1, n);
    }
}

fn enc_buf(l: usize, s: &str) -> (r: Buf)
    ensures
        r@ == BufView::Data(part_name("enc."@, l as int, s@)),
{
    Buf::Data(part_text("enc.", l, s))
}

fn head_buf(l: usize, s: &str) -> (r: Buf)
    ensures
        r@ == BufView::Data(part_name("head."@, l as int, s@)),
{
    Buf::Data(part_text("head.", l, s))
}

fn attention_bufs() -> (r: Vec<Work>)
    ensures
        r@ == seq![Work::Qkv, Work::Meta, Work::Attn],
{
    let mut v: Vec<Work> = Vec::new();
    v.push(Work::Qkv);
    v.push(Work::Meta);
    v.push(Work::Attn);
    assert(v@ =~= seq![Work::Qkv, Work::Meta, Work::Attn]);
    v
}

fn push_encoder_wires(c: &LayaConfig, dtypes: &Vec<(String, Dtype)>, l: usize, out: &mut Vec<Wire>)
    requires
        c.heads > 0,
        l < c.layers,
    ensures
        wire_views(final(out)@) == wire_views(old(out)@) + encoder_wires(
            *c,
            dtype_views(dtypes@),
            l as int,
        ),
{
    let ghost before = wire_views(out@);
    let ghost dv = dtype_views(dtypes@);
    let hd: usize = c.head_dim();
    let src = if l > 0 {
        Work::H
    } else {
        Work::X
    };
    push_weight(
        out,
        "mm_qkv",
        K::Matmul,
        src,
        part_text("enc.", l, "qkv").as_str(),
        Work::Qkv,
        dtypes,
    );
    let mut works: Vec<Work> = Vec::new();
    works.push(Work::Meta);
    works.push(Work::Qkv);
    assert(works@ =~= seq![Work::Meta, Work::Qkv]);
    push_plain(out, "rope", K::RopeBi, hd, &works);
    push_plain(out, "attention", K::AttentionBi, hd, &attention_bufs());
    push_weight(
        out,
        "mm_o",
        K::Matmul,
        Work::Attn,
        part_text("enc.", l, "o").as_str(),
        Work::A,
        dtypes,
    );
    push_norm(
        out,
        "add_o_norm",
        Buf::Work(Work::A),
        enc_buf(l, "mlp_norm"),
        Buf::Dummy,
        Buf::Dummy,
        Work::X,
        Buf::Work(Work::H),
    );
    push_gated(
        out,
        "mm_wi",
        Work::H,
        part_text("enc.", l, "wi_val").as_str(),
        part_text("enc.", l, "wi_gate").as_str(),
        Work::Act,
        GELU_ERF,
        dtypes,
    );
    push_weight(
        out,
        "mm_wo",
        K::Matmul,
        Work::Act,
        part_text("enc.", l, "wo").as_str(),
        Work::A,
        dtypes,
    );
    if l + 1 == c.layers {
        push_norm(
            out,
            "add_wo_norm",
            Buf::Work(Work::A),
            data_buf("final_norm"),
            Buf::Dummy,
            Buf::Dummy,
            Work::X,
            Buf::DummyRw,
        );
    } else {
        push_norm(
            out,
            "add_wo_norm",
            Buf::Work(Work::A),
            enc_buf(l + 1, "attn_norm"),
            Buf::Dummy,
            Buf::Dummy,
            Work::X,
            Buf::Work(Work::H),
        );
    }
    assert(wire_views(out@) =~= before + encoder_wires(*c, dv, l as int));
}

fn push_head_wires(c: &LayaConfig, dtypes: &Vec<(String, Dtype)>, h: usize, out: &mut Vec<Wire>)
    requires
        c.heads > 0,
        h < c.head_layers,
    ensures
        wire_views(final(out)@) == wire_views(old(out)@) + head_wires(
            *c,
            dtype_views(dtypes@),
            h as int,
        ),
{
    let ghost before = wire_views(out@);
    let ghost dv = dtype_views(dtypes@);
    let hd: usize = c.head_dim();
    if h == 0 {
        push_norm(
            out,
            "norm1",
            Buf::Dummy,
            head_buf(h, "norm1_w"),
            head_buf(h, "norm1_b"),
            Buf::Dummy,
            Work::X,
            Buf::Work(Work::H),
        );
    }
    push_weight(
        out,
        "mm_in",
        K::Matmul,
        Work::H,
        part_text("head.", h, "in_proj").as_str(),
        Work::Qkv,
        dtypes,
    );
    push_middle(out, "bias_in", K::BiasAct, Buf::Dummy, head_buf(h, "in_proj_b"), Work::Qkv);
    push_plain(out, "head_attention", K::AttentionBi, hd, &attention_bufs());
    push_weight(
        out,
        "mm_out",
        K::Matmul,
        Work::Attn,
        part_text("head.", h, "out_proj").as_str(),
        Work::A,
        dtypes,
    );
    push_norm(
        out,
        "add_out_norm2",
        Buf::Work(Work::A),
        head_buf(h, "norm2_w"),
        head_buf(h, "norm2_b"),
        head_buf(h, "out_proj_b"),
        Work::X,
        Buf::Work(Work::H),
    );
    push_weight(
        out,
        "mm_l1",
        K::Matmul,
        Work::H,
        part_text("head.", h, "l1").as_str(),
        Work::Act,
        dtypes,
    );
    push_middle(out, "relu_l1", K::BiasAct, Buf::Dummy, head_buf(h, "l1_b"), Work::Act);
    push_weight(
        out,
        "mm_l2",
        K::Matmul,
        Work::Act,
        part_text("head.", h, "l2").as_str(),
        Work::A,
        dtypes,
    );
    if h + 1 == c.head_layers {
        push_middle(
            out,
            "add_l2",
            K::BiasAct,
            Buf::Work(Work::A),
            head_buf(h, "l2_b"),
            Work::X,
        );
    } else {
        push_norm(
            out,
            "add_l2_norm1",
            Buf::Work(Work::A),
            head_buf(h + 1, "norm1_w"),
            head_buf(h + 1, "norm1_b"),
            head_buf(h, "l2_b"),
            Work::X,
            Buf::Work(Work::H),
        );
    }
    assert(wire_views(out@) =~= before + head_wires(*c, dv, h as int));
}

/// Wires every dispatch of the checkpoint, given the storage types of its
/// uploaded weights.
pub fn laya_wiring(c: &LayaConfig, dtypes: &Vec<(String, Dtype)>) -> (r: Result<
    Vec<Wire>,
    LoadError,
>)
    requires
        c.heads > 0,
    ensures
        match r {
            Ok(w) => halves_fault(dtype_views(dtypes@), c.layers as nat) is None && wire_views(w@)
                == laya_wires(*c, dtype_views(dtypes@)),
            Err(e) => halves_fault(dtype_views(dtypes@), c.layers as nat) == Some(e@),
        },
{
    let ghost dv = dtype_views(dtypes@);
    let mut out: Vec<Wire> = Vec::new();
    push_weight(&mut out, "embed", K::Embed, Work::Ids, "embed", Work::H, dtypes);
    push_norm(
        &mut out,
        "embed_norm",
        Buf::Dummy,
        data_buf("embed_norm"),
        Buf::Dummy,
        Buf::Dummy,
        Work::H,
        Buf::Work(Work::X),
    );
    assert(wire_views(out@) =~= first_wires(dv));
    let mut l: usize = 0;
    while l < c.layers
        invariant
            0 <= l <= c.layers,
            c.heads > 0,
            dv == dtype_views(dtypes@),
            wire_views(out@) == encoder_wires_upto(*c, dv, l as nat),
            halves_fault(dv, l as nat) is None,
        decreases c.layers - l,
    {
        proof {
            if halves_fault(dv, (l + 1) as nat) is Some {
                halves_fault_stays(dv, (l + 1) as nat, c.layers as nat);
            }
        }
        let val = stored_dtype(dtypes, part_text("enc.", l, "wi_val").as_str());
        let gate = stored_dtype(dtypes, part_text("enc.", l, "wi_gate").as_str());
        if val != gate {
            let mut m: String = "layer ".to_owned();
            push_decimal(&mut m, l as u64);
            m.append(": Wi halves must share a storage type");
            return Err(LoadError::new(m));
        }
        push_encoder_wires(c, dtypes, l, &mut out);
        l += 1;
    }
    let ghost before = wire_views(out@);
    if c.type_emb {
        push_weight(&mut out, "type_emb", K::Embed, Work::Qtypes, "type_emb", Work::X, dtypes);
    }
    assert(wire_views(out@) =~= before + type_wires(*c, dv));
    let mut h: usize = 0;
    while h < c.head_layers
        invariant
            0 <= h <= c.head_layers,
            c.heads > 0,
            dv == dtype_views(dtypes@),
            wire_views(out@) == head_wires_upto(*c, dv, h as nat),
        decreases c.head_layers - h,
    {
        push_head_wires(c, dtypes, h, &mut out);
        h += 1;
    }
    Ok(out)
}

/// A matmul over `t` rows: 32 rows by 128 columns a workgroup.
pub open spec fn small_matmul(t: nat, n: nat, k: nat) -> Dispatch {
    Dispatch {
        block: Block::Matmul { m: t as u32, n: n as u32, k: k as u32 },
        wg: (groups(n, 128), groups(t, 32)),
    }
}

/// A flag of a parameter block.
pub open spec fn flag(b: bool) -> u32 {
    if b {
        1
    } else {
        0
    }
}

/// A norm: one workgroup a row.
pub open spec fn layer_norm(
    t: nat,
    d: nat,
    bias: bool,
    residual: bool,
    added_bias: bool,
    in_place: bool,
) -> Dispatch {
    Dispatch {
        block: Block::LayerNorm {
            t: t as u32,
            d: d as u32,
            has_bias: flag(bias),
            residual: flag(residual),
            has_rbias: flag(added_bias),
            in_place: flag(in_place),
        },
        wg: (t as u32, 1),
    }
}

/// A bias, and an activation where `mode` says so, over `n` columns.
pub open spec fn bias_act(t: nat, n: nat, mode: u32, in_place: bool, residual: bool) -> Dispatch {
    Dispatch {
        block: Block::Bias {
            t: t as u32,
            n: n as u32,
            mode,
            has_bias: 1,
            in_place: flag(in_place),
            residual: flag(residual),
        },
        wg: (groups(t * n, 256), 1),
    }
}

/// Attention over the fused projection, within `window` where it is not 0.
pub open spec fn attention(t: nat, d: nat, heads: nat, window: nat) -> Dispatch {
    Dispatch {
        block: Block::AttnBi {
            t: t as u32,
            heads: heads as u32,
            window: window as u32,
            stride: (3 * d) as u32,
            k_off: d as u32,
            v_off: (2 * d) as u32,
        },
        wg: (groups(t, tile_of(d / heads).0), heads as u32),
    }
}

/// The rotation of queries and keys.
pub open spec fn rotation(t: nat, d: nat, heads: nat, sliding: bool) -> Dispatch {
    Dispatch {
        block: Block::Rope {
            t: t as u32,
            heads: heads as u32,
            stride: (3 * d) as u32,
            k_off: d as u32,
            sliding,
        },
        wg: (groups(t * d / 2, 256), 1),
    }
}

/// An embedding lookup.
pub open spec fn lookup(t: nat, d: nat, residual: u32) -> Dispatch {
    Dispatch {
        block: Block::Embed { t: t as u32, d: d as u32, residual },
        wg: (groups(t * d / 4, 256), 1),
    }
}

/// What encoder layer `l` launches over `t` tokens.
pub open spec fn encoder_launches(c: LayaConfig, t: nat, l: int) -> Seq<Dispatch> {
    let d = c.d as nat;
    let heads = c.heads as nat;
    let ff = c.ff as nat;
    let sliding = c.sliding@[l];
    seq![
        small_matmul(t, 3 * d, d),
        rotation(t, d, heads, sliding),
        attention(
            t,
            d,
            heads,
            if sliding {
                c.window as nat
            } else {
                0
            },
        ),
        small_matmul(t, d, d),
        layer_norm(t, d, false, true, false, false),
        small_matmul(t, ff, d),
        small_matmul(t, d, ff),
        layer_norm(t, d, false, true, false, l + 1 == c.layers),
    ]
}

/// What decision-head layer `h` launches over `t` tokens.
pub open spec fn head_launches(c: LayaConfig, t: nat, h: int) -> Seq<Dispatch> {
    let d = c.d as nat;
    (if h == 0 {
        seq![layer_norm(t, d, true, false, false, false)]
    } else {
        Seq::empty()
    }) + seq![
        small_matmul(t, 3 * d, d),
        bias_act(t, 3 * d, 0, true, false),
        attention(t, d, c.heads as nat, 0),
        small_matmul(t, d, d),
        layer_norm(t, d, true, true, true, false),
        small_matmul(t, 4 * d, d),
        bias_act(t, 4 * d, 1, true, false),
        small_matmul(t, d, 4 * d),
        if h + 1 == c.head_layers {
            bias_act(t, d, 0, false, true)
        } else {
            layer_norm(t, d, true, true, true, false)
        },
    ]
}

/// The opening and the first `n` encoder layers.
pub open spec fn encoder_launches_upto(c: LayaConfig, t: nat, n: nat) -> Seq<Dispatch>
    decreases n,
{
    if n == 0 {
        seq![lookup(t, c.d as nat, 0), layer_norm(t, c.d as nat, false, false, false, false)]
    } else {
        encoder_launches_upto(c, t, (n - 1) as nat) + encoder_launches(c, t, n - 1)
    }
}

/// The encoder, the question-type embedding and the first `n` head layers.
pub open spec fn head_launches_upto(c: LayaConfig, t: nat, n: nat) -> Seq<Dispatch>
    decreases n,
{
    if n == 0 {
        encoder_launches_upto(c, t, c.layers as nat) + (if c.type_emb {
            seq![lookup(t, c.d as nat, 1)]
        } else {
            Seq::empty()
        })
    } else {
        head_launches_upto(c, t, (n - 1) as nat) + head_launches(c, t, n - 1)
    }
}

/// Everything a pass over `t` tokens launches, in order.
pub open spec fn laya_all_launches(c: LayaConfig, t: nat) -> Seq<Dispatch> {
    head_launches_upto(c, t, c.head_layers as nat)
}

pub(crate) fn small_matmul_of(t: usize, n: usize, k: usize) -> (r: Dispatch)
    ensures
        r == small_matmul(t as nat, n as nat, k as nat),
{
    Dispatch {
        block: Block::Matmul { m: t as u32, n: n as u32, k: k as u32 },
        wg: (group_count(n, 128), group_count(t, 32)),
    }
}

fn flag_of(b: bool) -> (r: u32)
    ensures
        r == flag(b),
{
    if b {
        1
    } else {
        0
    }
}

pub(crate) fn layer_norm_of(
    t: usize,
    d: usize,
    bias: bool,
    residual: bool,
    added_bias: bool,
    in_place: bool,
) -> (r: Dispatch)
    ensures
        r == layer_norm(t as nat, d as nat, bias, residual, added_bias, in_place),
{
    Dispatch {
        block: Block::LayerNorm {
            t: t as u32,
            d: d as u32,
            has_bias: flag_of(bias),
            residual: flag_of(residual),
            has_rbias: flag_of(added_bias),
            in_place: flag_of(in_place),
        },
        wg: (t as u32, 1),
    }
}

pub(crate) fn bias_act_of(t: usize, n: usize, mode: u32, in_place: bool, residual: bool) -> (r: Dispatch)
    requires
        t * n <= usize::MAX,
    ensures
        r == bias_act(t as nat, n as nat, mode, in_place, residual),
{
    Dispatch {
        block: Block::Bias {
            t: t as u32,
            n: n as u32,
            mode,
            has_bias: 1,
            in_place: flag_of(in_place),
            residual: flag_of(residual),
        },
        wg: (group_count(t * n, 256), 1),
    }
}

pub(crate) fn attention_of(t: usize, d: usize, heads: usize, window: usize) -> (r: Dispatch)
    requires
        heads > 0,
        3 * d <= usize::MAX,
    ensures
        r == attention(t as nat, d as nat, heads as nat, window as nat),
{
    let (rows, _kb) = attn_tile(d / heads);
    Dispatch {
        block: Block::AttnBi {
            t: t as u32,
            heads: heads as u32,
            window: window as u32,
            stride: (3 * d) as u32,
            k_off: d as u32,
            v_off: (2 * d) as u32,
        },
        wg: (group_count(t, rows), heads as u32),
    }
}

pub(crate) fn rotation_of(t: usize, d: usize, heads: usize, sliding: bool) -> (r: Dispatch)
    requires
        3 * d <= usize::MAX,
        t * d <= usize::MAX,
    ensures
        r == rotation(t as nat, d as nat, heads as nat, sliding),
{
    Dispatch {
        block: Block::Rope {
            t: t as u32,
            heads: heads as u32,
            stride: (3 * d) as u32,
            k_off: d as u32,
            sliding,
        },
        wg: (group_count(t * d / 2, 256), 1),
    }
}

pub(crate) fn lookup_of(t: usize, d: usize, residual: u32) -> (r: Dispatch)
    requires
        t * d <= usize::MAX,
    ensures
        r == lookup(t as nat, d as nat, residual),
{
    Dispatch {
        block: Block::Embed { t: t as u32, d: d as u32, residual },
        wg: (group_count(t * d / 4, 256), 1),
    }
}

/// The products of a pass over `t` tokens are sizes.
pub open spec fn laya_pass_fits(c: LayaConfig, t: nat) -> bool {
    &&& c.heads > 0
    &&& 4 * c.d <= usize::MAX
    &&& t * (4 * c.d) <= usize::MAX
    &&& c.sliding@.len() == c.layers
}

fn push_encoder_launches(c: &LayaConfig, t: usize, l: usize, out: &mut Vec<Dispatch>)
    requires
        laya_pass_fits(*c, t as nat),
        l < c.layers,
    ensures
        final(out)@ == old(out)@ + encoder_launches(*c, t as nat, l as int),
{
    let ghost before = out@;
    let d: usize = c.d;
    let sliding: bool = c.sliding[l];
    proof {
        assert(t * d <= t * (4 * d)) by (nonlinear_arith);
    }
    let window: usize = if sliding {
        c.window
    } else {
        0
    };
    out.push(small_matmul_of(t, 3 * d, d));
    out.push(rotation_of(t, d, c.heads, sliding));
    out.push(attention_of(t, d, c.heads, window));
    out.push(small_matmul_of(t, d, d));
    out.push(layer_norm_of(t, d, false, true, false, false));
    out.push(small_matmul_of(t, c.ff, d));
    out.push(small_matmul_of(t, d, c.ff));
    out.push(layer_norm_of(t, d, false, true, false, l + 1 == c.layers));
    assert(out@ =~= before + encoder_launches(*c, t as nat, l as int));
}

fn push_head_launches(c: &LayaConfig, t: usize, h: usize, out: &mut Vec<Dispatch>)
    requires
        laya_pass_fits(*c, t as nat),
        h < c.head_layers,
    ensures
        final(out)@ == old(out)@ + head_launches(*c, t as nat, h as int),
{
    let ghost before = out@;
    let d: usize = c.d;
    proof {
        assert(t * d <= t * (4 * d)) by (nonlinear_arith);
        assert(t * (3 * d) <= t * (4 * d)) by (nonlinear_arith);
    }
    if h == 0 {
        out.push(layer_norm_of(t, d, true, false, false, false));
    }
    out.push(small_matmul_of(t, 3 * d, d));
    out.push(bias_act_of(t, 3 * d, 0, true, false));
    out.push(attention_of(t, d, c.heads, 0));
    out.push(small_matmul_of(t, d, d));
    out.push(layer_norm_of(t, d, true, true, true, false));
    out.push(small_matmul_of(t, 4 * d, d));
    out.push(bias_act_of(t, 4 * d, 1, true, false));
    out.push(small_matmul_of(t, d, 4 * d));
    if h + 1 == c.head_layers {
        out.push(bias_act_of(t, d, 0, false, true));
    } else {
        out.push(layer_norm_of(t, d, true, true, true, false));
    }
    assert(out@ =~= before + head_launches(*c, t as nat, h as int));
}

/// Everything a pass over `t` tokens launches.
pub fn laya_launches(c: &LayaConfig, t: usize) -> (r: Vec<Dispatch>)
    requires
        laya_pass_fits(*c, t as nat),
    ensures
        r@ == laya_all_launches(*c, t as nat),
{
    let d: usize = c.d;
    proof {
        assert(t * d <= t * (4 * d)) by (nonlinear_arith);
    }
    let mut out: Vec<Dispatch> = Vec::new();
    out.push(lookup_of(t, d, 0));
    out.push(layer_norm_of(t, d, false, false, false, false));
    assert(out@ =~= encoder_launches_upto(*c, t as nat, 0));
    let mut l: usize = 0;
    while l < c.layers
        invariant
            0 <= l <= c.layers,
            laya_pass_fits(*c, t as nat),
            out@ == encoder_launches_upto(*c, t as nat, l as nat),
        decreases c.layers - l,
    {
        push_encoder_launches(c, t, l, &mut out);
        l += 1;
    }
    if c.type_emb {
        out.push(lookup_of(t, d, 1));
    }
    assert(out@ =~= head_launches_upto(*c, t as nat, 0));
    let mut h: usize = 0;
    while h < c.head_layers
        invariant
            0 <= h <= c.head_layers,
            laya_pass_fits(*c, t as nat),
            out@ == head_launches_upto(*c, t as nat, h as nat),
        decreases c.head_layers - h,
    {
        push_head_launches(c, t, h, &mut out);
        h += 1;
    }
    out
}

/// Parameter slots for every dispatch of one request.
pub open spec fn laya_slots(layers: nat, head_layers: nat) -> nat {
    10 + layers * 10 + head_layers * 11
}

/// Parameter slots for every dispatch of one request.
pub fn laya_param_slots(layers: usize, head_layers: usize) -> (r: usize)
    requires
        laya_slots(layers as nat, head_layers as nat) <= usize::MAX,
    ensures
        r == laya_slots(layers as nat, head_layers as nat),
{
    10 + layers * 10 + head_layers * 11
}

/// A pass launches one for one what is wired, each launch hands its kernel a
/// block that the kernel takes, and the parameter slots suffice.
pub proof fn laya_launches_follow_the_wiring(
    c: LayaConfig,
    dtypes: Seq<(Seq<char>, Dtype)>,
    t: nat,
)
    ensures
        side_by_side(laya_all_launches(c, t), laya_wires(c, dtypes)),
        laya_all_launches(c, t).len() <= laya_slots(c.layers as nat, c.head_layers as nat),
{
    head_beside_wires(c, dtypes, t, c.head_layers as nat);
}

proof fn encoder_beside_wires(c: LayaConfig, dtypes: Seq<(Seq<char>, Dtype)>, t: nat, n: nat)
    ensures
        side_by_side(encoder_launches_upto(c, t, n), encoder_wires_upto(c, dtypes, n)),
        encoder_launches_upto(c, t, n).len() == 2 + n * 8,
    decreases n,
{
    if n > 0 {
        let m = (n - 1) as nat;
        encoder_beside_wires(c, dtypes, t, m);
        let ds = encoder_launches(c, t, m as int);
        let ws = encoder_wires(c, dtypes, m as int);
        assert(side_by_side(ds, ws));
        joined_side_by_side(
            encoder_launches_upto(c, t, m),
            encoder_wires_upto(c, dtypes, m),
            ds,
            ws,
        );
    }
}

proof fn head_layer_beside_wires(c: LayaConfig, dtypes: Seq<(Seq<char>, Dtype)>, t: nat, h: int)
    ensures
        side_by_side(head_launches(c, t, h), head_wires(c, dtypes, h)),
        head_launches(c, t, h).len() == (if h == 0 {
            10int
        } else {
            9
        }),
{
}

proof fn head_beside_wires(c: LayaConfig, dtypes: Seq<(Seq<char>, Dtype)>, t: nat, n: nat)
    ensures
        side_by_side(head_launches_upto(c, t, n), head_wires_upto(c, dtypes, n)),
        head_launches_upto(c, t, n).len() <= 3 + c.layers * 8 + (if n == 0 {
            0
        } else {
            1 + n * 9
        }),
    decreases n,
{
    encoder_beside_wires(c, dtypes, t, c.layers as nat);
    if n > 0 {
        let m = (n - 1) as nat;
        head_beside_wires(c, dtypes, t, m);
        head_layer_beside_wires(c, dtypes, t, m as int);
        joined_side_by_side(
            head_launches_upto(c, t, m),
            head_wires_upto(c, dtypes, m),
            head_launches(c, t, m as int),
            head_wires(c, dtypes, m as int),
        );
    } else {
        let ds = if c.type_emb {
            seq![lookup(t, c.d as nat, 1)]
        } else {
            Seq::empty()
        };
        assert(side_by_side(ds, type_wires(c, dtypes)));
        joined_side_by_side(
            encoder_launches_upto(c, t, c.layers as nat),
            encoder_wires_upto(c, dtypes, c.layers as nat),
            ds,
            type_wires(c, dtypes),
        );
    }
}

/// The bytes of the workspace buffers for `capacity` tokens and `max_rows`
/// rows.
pub open spec fn laya_workspace(c: LayaConfig, capacity: nat, max_rows: nat) -> Seq<(Work, nat)> {
    let d = c.d as nat;
    let act = if c.ff < 4 * c.d {
        4 * d
    } else {
        c.ff as nat
    };
    seq![
        (Work::Ids, at_least_one(capacity) * 4),
        (Work::Qtypes, at_least_one(capacity) * 4),
        (Work::Meta, at_least_one(capacity * 4) * 4),
        (Work::X, at_least_one(capacity * d) * 4),
        (Work::H, at_least_one(capacity * d) * 4),
        (Work::Qkv, at_least_one(capacity * (3 * d)) * 4),
        (Work::Attn, at_least_one(capacity * d) * 4),
        (Work::A, at_least_one(capacity * d) * 4),
        (Work::Act, at_least_one(capacity * act) * 4),
        (Work::Rows, at_least_one(max_rows * d) * 4),
        (Work::Staging, max_rows * d * 4),
        (Work::Params, 256 * laya_slots(c.layers as nat, c.head_layers as nat)),
    ]
}

/// The workspace buffers and their sizes in bytes.
pub fn laya_workspace_sizes(c: &LayaConfig, capacity: usize, max_rows: usize) -> (r: Vec<
    (Work, u64),
>)
    requires
        laya_widths_fit(*c),
        sizes_fit(laya_workspace(*c, capacity as nat, max_rows as nat)),
    ensures
        size_views(r@) == laya_workspace(*c, capacity as nat, max_rows as nat),
{
    let ghost ws = laya_workspace(*c, capacity as nat, max_rows as nat);
    proof {
        assert(ws[0].1 <= usize::MAX && ws[1].1 <= usize::MAX && ws[2].1 <= usize::MAX);
        assert(ws[3].1 <= usize::MAX && ws[4].1 <= usize::MAX && ws[5].1 <= usize::MAX);
        assert(ws[6].1 <= usize::MAX && ws[7].1 <= usize::MAX && ws[8].1 <= usize::MAX);
        assert(ws[9].1 <= usize::MAX && ws[10].1 <= usize::MAX && ws[11].1 <= usize::MAX);
    }
    let d: usize = c.d;
    let act: usize = if c.ff < 4 * d {
        4 * d
    } else {
        c.ff
    };
    let mut out: Vec<(Work, u64)> = Vec::new();
    out.push((Work::Ids, words(capacity, 1)));
    out.push((Work::Qtypes, words(capacity, 1)));
    out.push((Work::Meta, words(capacity, 4)));
    out.push((Work::X, words(capacity, d)));
    out.push((Work::H, words(capacity, d)));
    out.push((Work::Qkv, words(capacity, 3 * d)));
    out.push((Work::Attn, words(capacity, d)));
    out.push((Work::A, words(capacity, d)));
    out.push((Work::Act, words(capacity, act)));
    out.push((Work::Rows, words(max_rows, d)));
    out.push((Work::Staging, (max_rows * d * 4) as u64));
    out.push((Work::Params, 256 * laya_param_slots(c.layers, c.head_layers) as u64));
    assert(size_views(out@) =~= ws);
    out
}

/// Where an incoming tensor goes.
#[derive(Debug, Clone, Copy, PartialEq, Eq, Structural)]
pub enum Destination {
    /// Kept on the host.
    Host,
    /// Uploaded.
    Device,
}

/// Why a tensor cannot be taken, if it cannot.
pub open spec fn laya_push_fault(expected: Seq<NamedShape>, name: Seq<char>, t: QTensor) -> Option<
    Seq<char>,
> {
    match expected_fault(expected, name, t.shape@) {
        Some(e) => Some(e),
        None => if host_tensor(name) {
            None
        } else {
            upload_fault(name, t.shape@, t.dtype)
        },
    }
}

/// Checks one incoming tensor and says where it goes.
pub fn laya_push(expected: &Vec<TensorSpec>, name: &str, t: &QTensor) -> (r: Result<
    Destination,
    LoadError,
>)
    ensures
        match r {
            Ok(p) => laya_push_fault(spec_views(expected@), name@, *t) is None && (p
                == Destination::Host <==> host_tensor(name@)),
            Err(e) => laya_push_fault(spec_views(expected@), name@, *t) == Some(e@),
        },
{
    match check_expected(expected, name, t) {
        Ok(_) => {},
        Err(e) => {
            return Err(e);
        },
    }
    if is_host_tensor(name) {
        return Ok(Destination::Host);
    }
    match check_upload(name, t) {
        Ok(_) => Ok(Destination::Device),
        Err(e) => Err(e),
    }
}

/// Why sequences cannot be run in one pass, if they cannot.
pub open spec fn hidden_fault(
    c: LayaConfig,
    seqs: Seq<Sequence>,
    capacity: nat,
    max_rows: nat,
) -> Option<Seq<char>> {
    let total = start_of(seqs, seqs.len());
    let rows = batch_wanted(seqs, seqs.len()).len();
    if total == 0 {
        Some("empty request"@)
    } else if total > capacity {
        Some(decimal(total) + " tokens exceed the engine capacity "@ + decimal(capacity))
    } else if sequences_fault(seqs, c.max_len as nat, c.vocab as nat, seqs.len()) is Some {
        sequences_fault(seqs, c.max_len as nat, c.vocab as nat, seqs.len())
    } else if rows > max_rows {
        Some(
            decimal(rows) + " rows requested, engine reads back at most "@ + decimal(max_rows),
        )
    } else {
        None
    }
}

/// Packs the sequences of a pass, and says which rows to read back: the first
/// of every sequence, then its markers.
pub fn pack_hidden(
    c: &LayaConfig,
    seqs: &Vec<Sequence>,
    capacity: usize,
    max_rows: usize,
) -> (r: Result<Batch, LoadError>)
    requires
        start_of(seqs@, seqs@.len()) <= usize::MAX,
    ensures
        match r {
            Ok(b) => hidden_fault(*c, seqs@, capacity as nat, max_rows as nat) is None && b.ids@
                == batch_ids(seqs@, seqs@.len()) && b.qtypes@ == batch_qtypes(seqs@, seqs@.len())
                && b.meta@ == batch_meta(seqs@, seqs@.len()) && b.wanted@ == batch_wanted(
                seqs@,
                seqs@.len(),
            ),
            Err(e) => hidden_fault(*c, seqs@, capacity as nat, max_rows as nat) == Some(e@),
        },
{
    let total: usize = total_length(seqs);
    if total == 0 {
        return Err(LoadError::of("empty request"));
    }
    if total > capacity {
        let mut m: String = String::new();
        push_decimal(&mut m, total as u64);
        m.append(" tokens exceed the engine capacity ");
        push_decimal(&mut m, capacity as u64);
        assert(m@ =~= decimal(total as nat) + " tokens exceed the engine capacity "@ + decimal(
            capacity as nat,
        ));
        return Err(LoadError::new(m));
    }
    let b = match pack_sequences(seqs, c.max_len, c.vocab) {
        Ok(b) => b,
        Err(e) => {
            return Err(e);
        },
    };
    if b.wanted.len() > max_rows {
        let mut m: String = String::new();
        push_decimal(&mut m, b.wanted.len() as u64);
        m.append(" rows requested, engine reads back at most ");
        push_decimal(&mut m, max_rows as u64);
        assert(m@ =~= decimal(b.wanted@.len()) + " rows requested, engine reads back at most "@
            + decimal(max_rows as nat));
        return Err(LoadError::new(m));
    }
    Ok(b)
}

/// Where the rows of sequence `n` start.
pub open spec fn first_row(seqs: Seq<Sequence>, n: nat) -> nat
    decreases n,
{
    if n == 0 {
        0
    } else {
        first_row(seqs, (n - 1) as nat) + seqs[n - 1].markers@.len() + 1
    }
}

/// The hidden rows of every sequence, out of the rows of a pass.
pub open spec fn hidden_split(
    outs: Seq<Vec<Vec<u32>>>,
    data: Seq<u32>,
    d: nat,
    seqs: Seq<Sequence>,
) -> bool {
    &&& outs.len() == seqs.len()
    &&& forall|s: int|
        0 <= s < seqs.len() ==> (#[trigger] outs[s])@.len() == seqs[s].markers@.len() + 1
    &&& forall|s: int, j: int|
        0 <= s < seqs.len() && 0 <= j <= seqs[s].markers@.len() ==> (#[trigger] outs[s]@[j])@
            == row_of(data, d, first_row(seqs, s as nat) + j as nat)
}

proof fn first_row_grows(seqs: Seq<Sequence>, i: nat, n: nat)
    requires
        i <= n <= seqs.len(),
    ensures
        first_row(seqs, i) <= first_row(seqs, n),
    decreases n - i,
{
    if i < n {
        first_row_grows(seqs, i + 1, n);
    }
}

/// Hands the rows of a pass back to their sequences, as bit patterns.
pub fn split_hidden(data: &Vec<u32>, d: usize, seqs: &Vec<Sequence>) -> (r: Vec<Vec<Vec<u32>>>)
    requires
        d > 0,
        first_row(seqs@, seqs@.len()) * d <= data@.len(),
    ensures
        hidden_split(r@, data@, d as nat, seqs@),
{
    let ghost ss = seqs@;
    let len: usize = data.len();
    let mut outs: Vec<Vec<Vec<u32>>> = Vec::new();
    let mut at: usize = 0;
    let mut si: usize = 0;
    assert(0 * d == 0) by (nonlinear_arith);
    while si < seqs.len()
        invariant
            0 <= si <= ss.len(),
            ss == seqs@,
            len == data@.len(),
            d > 0,
            first_row(ss, ss.len()) * d <= len,
            at == first_row(ss, si as nat) * d,
            outs@.len() == si,
            forall|s: int|
                0 <= s < si ==> (#[trigger] outs@[s])@.len() == ss[s].markers@.len() + 1,
            forall|s: int, j: int|
                0 <= s < si && 0 <= j <= ss[s].markers@.len() ==> (#[trigger] outs@[s]@[j])@
                    == row_of(data@, d as nat, first_row(ss, s as nat) + j as nat),
        decreases ss.len() - si,
    {
        let n: usize = seqs[si].markers.len();
        let mut rows: Vec<Vec<u32>> = Vec::new();
        let mut j: usize = 0;
        let ghost base = first_row(ss, si as nat);
        proof {
            first_row_grows(ss, (si + 1) as nat, ss.len());
            let all = first_row(ss, ss.len());
            assert(all <= all * d) by (nonlinear_arith)
                requires
                    d > 0,
            ;
        }
        while j <= n
            invariant
                0 <= j <= n + 1 <= len,
                si < ss.len(),
                ss == seqs@,
                n == ss[si as int].markers@.len(),
                len == data@.len(),
                first_row(ss, ss.len()) * d <= len,
                base == first_row(ss, si as nat),
                rows@.len() == j,
                at == (base + j) * d,
                forall|x: int|
                    0 <= x < j ==> (#[trigger] rows@[x])@ == row_of(
                        data@,
                        d as nat,
                        base + x as nat,
                    ),
            decreases n + 1 - j,
        {
            proof {
                first_row_grows(ss, (si + 1) as nat, ss.len());
                let r = (base + j) as nat;
                let all = first_row(ss, ss.len());
                assert(r + 1 <= all);
                assert(r * d + d <= all * d) by (nonlinear_arith)
                    requires
                        r + 1 <= all,
                ;
                assert((r + 1) * d == r * d + d) by (nonlinear_arith);
            }
            let end: usize = at + d;
            let row = vstd::slice::slice_to_vec(
                vstd::slice::slice_subrange(data.as_slice(), at, end),
            );
            assert(row@ =~= row_of(data@, d as nat, (base + j) as nat));
            rows.push(row);
            at = end;
            j += 1;
        }
        outs.push(rows);
        si += 1;
    }
    outs
}

proof fn wanted_keeps(seqs: Seq<Sequence>, i: nat, n: nat, x: int)
    requires
        i <= n <= seqs.len(),
        0 <= x < first_row(seqs, i),
    ensures
        batch_wanted(seqs, n)[x] == batch_wanted(seqs, i)[x],
    decreases n - i,
{
    wanted_length(seqs, i);
    if i < n {
        wanted_keeps(seqs, i + 1, n, x);
    }
}

proof fn wanted_length(seqs: Seq<Sequence>, n: nat)
    requires
        n <= seqs.len(),
    ensures
        batch_wanted(seqs, n).len() == first_row(seqs, n),
    decreases n,
{
    if n > 0 {
        wanted_length(seqs, (n - 1) as nat);
    }
}

/// A pass reads back what its sequences get: row `first_row(s) + j` is the
/// one wanted for slot `j` of sequence `s`, the first token for slot 0 and
/// marker `j - 1` for the others.
pub proof fn rows_come_back_in_order(seqs: Seq<Sequence>, s: int, j: int)
    requires
        0 <= s < seqs.len(),
        0 <= j <= seqs[s].markers@.len(),
    ensures
        batch_wanted(seqs, seqs.len()).len() == first_row(seqs, seqs.len()),
        first_row(seqs, s as nat) + j < first_row(seqs, seqs.len()),
        batch_wanted(seqs, seqs.len())[first_row(seqs, s as nat) + j] == (
            s as usize,
            j as usize,
            (start_of(seqs, s as nat) + (if j == 0 {
                0
            } else {
                seqs[s].markers@[j - 1] as int
            })) as usize,
        ),
{
    let n = (s + 1) as nat;
    let x = first_row(seqs, s as nat) + j;
    wanted_length(seqs, s as nat);
    wanted_length(seqs, seqs.len());
    first_row_grows(seqs, n, seqs.len());
    wanted_keeps(seqs, n, seqs.len(), x);
}

proof fn encoder_fits(c: LayaConfig, dtypes: Seq<(Seq<char>, Dtype)>, l: int)
    ensures
        all_fit(encoder_wires(c, dtypes, l)),
{
    let ws = encoder_wires(c, dtypes, l);
    assert(fits_kernel(ws[0]) && fits_kernel(ws[1]) && fits_kernel(ws[2]) && fits_kernel(ws[3]));
    assert(fits_kernel(ws[4]) && fits_kernel(ws[5]) && fits_kernel(ws[6]) && fits_kernel(ws[7]));
}

proof fn encoder_fits_upto(c: LayaConfig, dtypes: Seq<(Seq<char>, Dtype)>, n: nat)
    ensures
        all_fit(encoder_wires_upto(c, dtypes, n)),
    decreases n,
{
    if n == 0 {
        let ws = first_wires(dtypes);
        assert(fits_kernel(ws[0]) && fits_kernel(ws[1]));
    } else {
        encoder_fits_upto(c, dtypes, (n - 1) as nat);
        encoder_fits(c, dtypes, n - 1);
        fits_together(
            encoder_wires_upto(c, dtypes, (n - 1) as nat),
            encoder_wires(c, dtypes, n - 1),
        );
    }
}

proof fn head_fits(c: LayaConfig, dtypes: Seq<(Seq<char>, Dtype)>, h: int)
    ensures
        all_fit(head_wires(c, dtypes, h)),
{
    let ws = head_wires(c, dtypes, h);
    assert(fits_kernel(ws[0]) && fits_kernel(ws[1]) && fits_kernel(ws[2]) && fits_kernel(ws[3]));
    assert(fits_kernel(ws[4]) && fits_kernel(ws[5]) && fits_kernel(ws[6]) && fits_kernel(ws[7]));
    assert(fits_kernel(ws[8]));
    if h == 0 {
        assert(fits_kernel(ws[9]));
    }
}

proof fn head_fits_upto(c: LayaConfig, dtypes: Seq<(Seq<char>, Dtype)>, n: nat)
    ensures
        all_fit(head_wires_upto(c, dtypes, n)),
    decreases n,
{
    if n == 0 {
        encoder_fits_upto(c, dtypes, c.layers as nat);
        let types = type_wires(c, dtypes);
        assert(c.type_emb ==> fits_kernel(types[0]));
        fits_together(encoder_wires_upto(c, dtypes, c.layers as nat), types);
    } else {
        head_fits_upto(c, dtypes, (n - 1) as nat);
        head_fits(c, dtypes, n - 1);
        fits_together(head_wires_upto(c, dtypes, (n - 1) as nat), head_wires(c, dtypes, n - 1));
    }
}

/// Every dispatch of a pass binds as many buffers as its kernel takes.
pub proof fn laya_wires_fit_their_kernels(c: LayaConfig, dtypes: Seq<(Seq<char>, Dtype)>)
    ensures
        all_fit(laya_wires(c, dtypes)),
{
    head_fits_upto(c, dtypes, c.head_layers as nat);
}

proof fn encoder_suits(c: LayaConfig, dtypes: Seq<(Seq<char>, Dtype)>, t: nat, l: int)
    requires
        laya_widths_fit(c),
        0 <= l < c.layers,
        stored(dtypes, part_name("enc."@, l, "wi_val"@)) == stored(
            dtypes,
            part_name("enc."@, l, "wi_gate"@),
        ),
    ensures
        all_suit(
            first_tensors(c) + encoder_tensors(c, l) + encoder_tensors(c, l + 1),
            encoder_launches(c, t, l),
            encoder_wires(c, dtypes, l),
        ),
{
    let ts = first_tensors(c) + encoder_tensors(c, l) + encoder_tensors(c, l + 1);
    let ds = encoder_launches(c, t, l);
    let ws = encoder_wires(c, dtypes, l);
    let f = first_tensors(c).len() as int;
    let k: int = if l > 0 {
        f + 1
    } else {
        f
    };
    let n = |s: Seq<char>| part_name("enc."@, l, s);
    assert(ts[2].0 == "final_norm"@ && ts[2].1 =~= seq![c.d]);
    assert(ts[k] == encoder_tensors(c, l)[k - f]);
    assert(ts[k].0 == n("qkv"@) && ts[k].1 =~= seq![(3 * c.d) as usize, c.d]);
    assert(ts[k + 1].0 == n("o"@) && ts[k + 1].1 =~= seq![c.d, c.d]);
    assert(ts[k + 2].0 == n("mlp_norm"@) && ts[k + 2].1 =~= seq![c.d]);
    assert(ts[k + 3].0 == n("wi_val"@) && ts[k + 3].1 =~= seq![c.ff, c.d]);
    assert(ts[k + 4].0 == n("wi_gate"@) && ts[k + 4].1 =~= seq![c.ff, c.d]);
    assert(ts[k + 5].0 == n("wo"@) && ts[k + 5].1 =~= seq![c.d, c.ff]);
    assert(ts[k + 6] == encoder_tensors(c, l + 1)[0]);
    assert(ts[k + 6].0 == part_name("enc."@, l + 1, "attn_norm"@) && ts[k + 6].1 =~= seq![c.d]);
    reveal_strlit("wi_val");
    reveal_strlit("wi_gate");
    assert(n("wi_val"@).len() != n("wi_gate"@).len());
    assert(suits(ts, ds[0], ws[0]));
    assert(suits(ts, ds[1], ws[1]));
    assert(suits(ts, ds[2], ws[2]));
    assert(suits(ts, ds[3], ws[3]));
    assert(suits(ts, ds[4], ws[4]));
    assert(suits(ts, ds[5], ws[5]));
    assert(suits(ts, ds[6], ws[6]));
    assert(suits(ts, ds[7], ws[7]));
}

proof fn head_suits(c: LayaConfig, dtypes: Seq<(Seq<char>, Dtype)>, t: nat, h: int)
    requires
        laya_widths_fit(c),
        0 <= h < c.head_layers,
    ensures
        all_suit(
            head_tensors(c, h) + head_tensors(c, h + 1),
            head_launches(c, t, h),
            head_wires(c, dtypes, h),
        ),
{
    let ts = head_tensors(c, h) + head_tensors(c, h + 1);
    let ds = head_launches(c, t, h);
    let ws = head_wires(c, dtypes, h);
    let k: int = if h == 0 {
        1
    } else {
        0
    };
    let n = |s: Seq<char>| part_name("head."@, h, s);
    assert(ts[0].0 == n("norm1_w"@) && ts[0].1 =~= seq![c.d]);
    assert(ts[1].0 == n("norm1_b"@) && ts[1].1 =~= seq![c.d]);
    assert(ts[2].0 == n("in_proj"@) && ts[2].1 =~= seq![(3 * c.d) as usize, c.d]);
    assert(ts[3].0 == n("in_proj_b"@) && ts[3].1 =~= seq![(3 * c.d) as usize]);
    assert(ts[4].0 == n("out_proj"@) && ts[4].1 =~= seq![c.d, c.d]);
    assert(ts[5].0 == n("out_proj_b"@) && ts[5].1 =~= seq![c.d]);
    assert(ts[6].0 == n("norm2_w"@) && ts[6].1 =~= seq![c.d]);
    assert(ts[7].0 == n("norm2_b"@) && ts[7].1 =~= seq![c.d]);
    assert(ts[8].0 == n("l1"@) && ts[8].1 =~= seq![(4 * c.d) as usize, c.d]);
    assert(ts[9].0 == n("l1_b"@) && ts[9].1 =~= seq![(4 * c.d) as usize]);
    assert(ts[10].0 == n("l2"@) && ts[10].1 =~= seq![c.d, (4 * c.d) as usize]);
    assert(ts[11].0 == n("l2_b"@) && ts[11].1 =~= seq![c.d]);
    assert(ts[12].0 == part_name("head."@, h + 1, "norm1_w"@) && ts[12].1 =~= seq![c.d]);
    assert(ts[13].0 == part_name("head."@, h + 1, "norm1_b"@) && ts[13].1 =~= seq![c.d]);
    if h == 0 {
        assert(suits(ts, ds[0], ws[0]));
    }
    assert(suits(ts, ds[k], ws[k]));
    assert(suits(ts, ds[k + 1], ws[k + 1]));
    assert(suits(ts, ds[k + 2], ws[k + 2]));
    assert(suits(ts, ds[k + 3], ws[k + 3]));
    assert(suits(ts, ds[k + 4], ws[k + 4]));
    assert(suits(ts, ds[k + 5], ws[k + 5]));
    assert(suits(ts, ds[k + 6], ws[k + 6]));
    assert(suits(ts, ds[k + 7], ws[k + 7]));
    assert(suits(ts, ds[k + 8], ws[k + 8]));
}

/// Every launch of the encoder's layer `l` tells the truth about what its wire
/// binds, by the tensors that the engine expects: widths and depths are those
/// of the bound weights, and a row or a bias is added exactly where one is
/// bound.
pub proof fn encoder_launches_suit_the_wiring(
    c: LayaConfig,
    dtypes: Seq<(Seq<char>, Dtype)>,
    t: nat,
    l: int,
)
    requires
        laya_widths_fit(c),
        0 <= l < c.layers,
        halves_fault(dtypes, c.layers as nat) is None,
    ensures
        all_suit(
            first_tensors(c) + encoder_tensors(c, l) + encoder_tensors(c, l + 1),
            encoder_launches(c, t, l),
            encoder_wires(c, dtypes, l),
        ),
{
    if halves_fault(dtypes, (l + 1) as nat) is Some {
        halves_fault_stays(dtypes, (l + 1) as nat, c.layers as nat);
    }
    encoder_suits(c, dtypes, t, l);
}

/// As [`encoder_launches_suit_the_wiring`], of layer `h` of the decision head.
pub proof fn head_launches_suit_the_wiring(
    c: LayaConfig,
    dtypes: Seq<(Seq<char>, Dtype)>,
    t: nat,
    h: int,
)
    requires
        laya_widths_fit(c),
        0 <= h < c.head_layers,
    ensures
        all_suit(
            head_tensors(c, h) + head_tensors(c, h + 1),
            head_launches(c, t, h),
            head_wires(c, dtypes, h),
        ),
{
    head_suits(c, dtypes, t, h);
}

/// As [`encoder_launches_suit_the_wiring`], of the dispatches outside the
/// layers: tokens are looked up into a fresh row, question types are added to
/// the stream.
pub proof fn lookups_suit_the_wiring(c: LayaConfig, dtypes: Seq<(Seq<char>, Dtype)>, t: nat)
    ensures
        all_suit(
            first_tensors(c),
            encoder_launches_upto(c, t, 0),
            encoder_wires_upto(c, dtypes, 0),
        ),
        all_suit(
            first_tensors(c),
            if c.type_emb {
                seq![lookup(t, c.d as nat, 1)]
            } else {
                Seq::empty()
            },
            type_wires(c, dtypes),
        ),
        c.type_emb ==> type_wires(c, dtypes)[0].bufs[0] == BufView::Work(Work::Qtypes)
            && type_wires(c, dtypes)[0].bufs[3] == BufView::Work(Work::X),
        first_wires(dtypes)[0].bufs[0] == BufView::Work(Work::Ids),
        first_wires(dtypes)[0].bufs[3] == first_wires(dtypes)[1].bufs[4],
        first_wires(dtypes)[1].bufs[5] == BufView::Work(Work::X),
{
    let ts = first_tensors(c);
    let ds = encoder_launches_upto(c, t, 0);
    let ws = encoder_wires_upto(c, dtypes, 0);
    assert(ts[0].0 == "embed"@ && ts[0].1 =~= seq![c.vocab, c.d]);
    assert(ts[1].0 == "embed_norm"@ && ts[1].1 =~= seq![c.d]);
    assert(suits(ts, ds[0], ws[0]));
    assert(suits(ts, ds[1], ws[1]));
    if c.type_emb {
        assert(ts[3].0 == "type_emb"@ && ts[3].1 =~= seq![3, c.d]);
        assert(suits(ts, lookup(t, c.d as nat, 1), type_wires(c, dtypes)[0]));
    }
}

/// Within a layer of the encoder every dispatch reads what the one before it
/// wrote; the first reads what the layer before left for it.
pub proof fn an_encoder_layer_is_a_chain(
    c: LayaConfig,
    dtypes: Seq<(Seq<char>, Dtype)>,
    l: int,
    i: int,
)
    requires
        0 <= l < c.layers,
        0 <= i < 7,
    ensures
        ({
            let ws = encoder_wires(c, dtypes, l);
            &&& ws.len() == 8
            &&& feeds(ws[i], ws[i + 1])
            &&& l > 0 ==> encoder_wires(c, dtypes, l - 1)[7].bufs[5] == ws[0].bufs[0]
            &&& l == 0 ==> first_wires(dtypes)[1].bufs[5] == ws[0].bufs[0]
            &&& ws[4].bufs[4] == BufView::Work(Work::X) && ws[7].bufs[4] == BufView::Work(Work::X)
        }),
{
    let ws = encoder_wires(c, dtypes, l);
    if i == 0 {
        assert(ws[0].bufs[3] == ws[1].bufs[1]);
    } else if i == 1 {
        assert(ws[1].bufs[1] == ws[2].bufs[0]);
    } else if i == 2 {
        assert(ws[2].bufs[2] == ws[3].bufs[0]);
    } else if i == 3 {
        assert(ws[3].bufs[3] == ws[4].bufs[0]);
    } else if i == 4 {
        assert(ws[4].bufs[5] == ws[5].bufs[0]);
    } else if i == 5 {
        assert(ws[5].bufs[5] == ws[6].bufs[0]);
    } else {
        assert(ws[6].bufs[3] == ws[7].bufs[0]);
    }
}

/// Within a layer of the decision head every dispatch reads what the one before
/// it wrote.
pub proof fn a_head_layer_is_a_chain(
    c: LayaConfig,
    dtypes: Seq<(Seq<char>, Dtype)>,
    h: int,
    i: int,
)
    requires
        0 <= h < c.head_layers,
        0 <= i < head_wires(c, dtypes, h).len() - 1,
    ensures
        feeds(head_wires(c, dtypes, h)[i], head_wires(c, dtypes, h)[i + 1]),
        h > 0 ==> feeds(head_wires(c, dtypes, h - 1).last(), head_wires(c, dtypes, h)[0]),
        h + 1 == c.head_layers ==> head_wires(c, dtypes, h).last().bufs.last() == BufView::Work(
            Work::X,
        ),
{
    let ws = head_wires(c, dtypes, h);
    let j = if h == 0 {
        i
    } else {
        i + 1
    };
    if h > 0 {
        let last = head_wires(c, dtypes, h - 1).last();
        assert(last.bufs[5] == ws[0].bufs[0]);
    }
    if j == 0 {
        assert(ws[i].bufs[5] == ws[i + 1].bufs[0]);
    } else if j == 1 {
        assert(ws[i].bufs[3] == ws[i + 1].bufs[2]);
    } else if j == 2 {
        assert(ws[i].bufs[2] == ws[i + 1].bufs[0]);
    } else if j == 3 {
        assert(ws[i].bufs[2] == ws[i + 1].bufs[0]);
    } else if j == 4 {
        assert(ws[i].bufs[3] == ws[i + 1].bufs[0]);
    } else if j == 5 {
        assert(ws[i].bufs[5] == ws[i + 1].bufs[0]);
    } else if j == 6 {
        assert(ws[i].bufs[3] == ws[i + 1].bufs[2]);
    } else if j == 7 {
        assert(ws[i].bufs[2] == ws[i + 1].bufs[0]);
    } else {
        assert(ws[i].bufs[3] == ws[i + 1].bufs[0]);
    }
}

/// The encoder reads its weights, every one once and in the order in which the
/// tensors are listed: a layer's own, then the norm that the next begins with,
/// or the final norm.
pub proof fn an_encoder_layer_reads_its_weights_in_order(
    c: LayaConfig,
    dtypes: Seq<(Seq<char>, Dtype)>,
    l: int,
)
    requires
        0 <= l < c.layers,
    ensures
        ({
            let own = names_of(encoder_tensors(c, l));
            let rest = if l > 0 {
                own.drop_first()
            } else {
                own
            };
            weights_read(encoder_wires(c, dtypes, l)) == rest.push(
                if l + 1 == c.layers {
                    "final_norm"@
                } else {
                    names_of(encoder_tensors(c, l + 1))[0]
                },
            )
        }),
{
    let ws = encoder_wires(c, dtypes, l);
    let n = |s: Seq<char>| part_name("enc."@, l, s);
    weights_of_next(ws, 0);
    weights_of_next(ws, 1);
    weights_of_next(ws, 2);
    weights_of_next(ws, 3);
    weights_of_next(ws, 4);
    weights_of_next(ws, 5);
    weights_of_next(ws, 6);
    weights_of_next(ws, 7);
    reveal_with_fuel(weights_in, 7);
    assert(weights_in(ws[0].bufs) =~= seq![n("qkv"@)]);
    assert(weights_in(ws[1].bufs) =~= seq![]);
    assert(weights_in(ws[2].bufs) =~= seq![]);
    assert(weights_in(ws[3].bufs) =~= seq![n("o"@)]);
    assert(weights_in(ws[4].bufs) =~= seq![n("mlp_norm"@)]);
    assert(weights_in(ws[5].bufs) =~= seq![n("wi_val"@), n("wi_gate"@)]);
    assert(weights_in(ws[6].bufs) =~= seq![n("wo"@)]);
    assert(weights_in(ws[7].bufs).len() == 1);
    assert(ws.take(0) =~= seq![]);
    assert(ws.take(8) =~= ws);
    let own = names_of(encoder_tensors(c, l));
    let rest = if l > 0 {
        own.drop_first()
    } else {
        own
    };
    assert(weights_read(ws.take(7)) =~= rest);
    assert(weights_read(ws) =~= rest.push(weights_in(ws[7].bufs)[0]));
}

/// A projection of the decision head is followed by its own bias, and a norm's
/// weight stands beside its own bias: names differ in their ending alone.
pub proof fn biases_follow_their_projection(
    c: LayaConfig,
    dtypes: Seq<(Seq<char>, Dtype)>,
    h: int,
    i: int,
)
    requires
        0 <= h < c.head_layers,
        0 <= i < head_wires(c, dtypes, h).len(),
    ensures
        ({
            let ws = head_wires(c, dtypes, h);
            let w = ws[i];
            &&& w.kernel is Matmul && ws[i + 1].kernel is BiasAct ==> ws[i + 1].bufs[1]
                == BufView::Data(w.bufs[1]->Data_0 + "_b"@)
            &&& w.kernel is Matmul && ws[i + 1].kernel is LayerNorm ==> ws[i + 1].bufs[3]
                == BufView::Data(w.bufs[1]->Data_0 + "_b"@)
            &&& w.kernel is LayerNorm ==> exists|base: Seq<char>|
                w.bufs[1] == BufView::Data(#[trigger] (base + "_w"@)) && w.bufs[2]
                    == BufView::Data(base + "_b"@)
        }),
{
    let ws = head_wires(c, dtypes, h);
    let w = ws[i];
    reveal_strlit("in_proj");
    reveal_strlit("in_proj_b");
    reveal_strlit("out_proj");
    reveal_strlit("out_proj_b");
    reveal_strlit("l1");
    reveal_strlit("l1_b");
    reveal_strlit("l2");
    reveal_strlit("l2_b");
    reveal_strlit("_b");
    reveal_strlit("_w");
    reveal_strlit("norm1");
    reveal_strlit("norm1_w");
    reveal_strlit("norm1_b");
    reveal_strlit("norm2");
    reveal_strlit("norm2_w");
    reveal_strlit("norm2_b");
    let n = |s: Seq<char>| part_name("head."@, h, s);
    assert(n("in_proj"@) + "_b"@ =~= n("in_proj_b"@));
    assert(n("out_proj"@) + "_b"@ =~= n("out_proj_b"@));
    assert(n("l1"@) + "_b"@ =~= n("l1_b"@));
    assert(n("l2"@) + "_b"@ =~= n("l2_b"@));
    if w.kernel is LayerNorm {
        let next = part_name("head."@, h + 1, "norm1"@);
        assert(n("norm1"@) + "_w"@ =~= n("norm1_w"@));
        assert(n("norm1"@) + "_b"@ =~= n("norm1_b"@));
        assert(n("norm2"@) + "_w"@ =~= n("norm2_w"@));
        assert(n("norm2"@) + "_b"@ =~= n("norm2_b"@));
        assert(next + "_w"@ =~= part_name("head."@, h + 1, "norm1_w"@));
        assert(next + "_b"@ =~= part_name("head."@, h + 1, "norm1_b"@));
    }
}

/// The rows of a fused projection hold queries, keys and values side by side,
/// each as wide as the model; rotation and attention address them so, over
/// heads that fill a row. The window is the configuration's exactly in a
/// sliding layer of the encoder, and the decision head attends to everything.
pub proof fn attention_addresses_the_fused_rows(
    c: LayaConfig,
    dtypes: Seq<(Seq<char>, Dtype)>,
    t: nat,
    l: int,
    h: int,
)
    requires
        0 <= l < c.layers,
        0 <= h < c.head_layers,
        c.heads > 0,
        laya_widths_fit(c),
        3 * c.d <= u32::MAX,
    ensures
        ({
            let e = encoder_launches(c, t, l);
            let x = head_launches(c, t, h);
            let k: int = if h == 0 {
                1
            } else {
                0
            };
            let (rope, attn, fused) = (e[1].block, e[2].block, e[0].block->Matmul_n);
            let (head_attn, head_fused) = (x[k + 2].block, x[k].block->Matmul_n);
            &&& fused == 3 * c.d && head_fused == 3 * c.d
            &&& rope->Rope_stride == fused && attn->AttnBi_stride == fused
            &&& head_attn->AttnBi_stride == head_fused
            &&& rope->Rope_k_off == c.d && attn->AttnBi_k_off == c.d && head_attn->AttnBi_k_off
                == c.d
            &&& attn->v_off == attn->AttnBi_k_off + c.d
            &&& head_attn->v_off == head_attn->AttnBi_k_off + c.d
            &&& rope->Rope_heads == c.heads as u32 && attn->AttnBi_heads == c.heads as u32
            &&& head_attn->AttnBi_heads == c.heads as u32
            &&& rope->Rope_sliding == c.sliding@[l]
            &&& attn->AttnBi_window == (if c.sliding@[l] {
                c.window as u32
            } else {
                0u32
            })
            &&& head_attn->AttnBi_window == 0
            &&& x[k + 6].block->mode == 1
            &&& encoder_wires(c, dtypes, l)[1].hd == c.d as nat / c.heads as nat
            &&& encoder_wires(c, dtypes, l)[2].hd == c.d as nat / c.heads as nat
            &&& head_wires(c, dtypes, h)[k + 2].hd == c.d as nat / c.heads as nat
            &&& encoder_wires(c, dtypes, l)[5].quant >= GELU_ERF
        }),
{
    assert(0 <= c.d as nat / c.heads as nat <= c.d) by (nonlinear_arith)
        requires
            c.heads > 0,
    ;
}

/// Every workspace buffer has room for what a pass over as many tokens as it is
/// made for writes to it: four bytes for every column of every row.
pub proof fn laya_buffers_hold_what_is_written(
    c: LayaConfig,
    capacity: nat,
    max_rows: nat,
    t: nat,
    rows: nat,
)
    requires
        t <= capacity,
        rows <= max_rows,
    ensures
        ({
            let s = laya_workspace(c, capacity, max_rows);
            let d = c.d as nat;
            &&& bytes_of(s, Work::Ids) >= 4 * t
            &&& bytes_of(s, Work::Qtypes) >= 4 * t
            &&& bytes_of(s, Work::Meta) >= 16 * t
            &&& bytes_of(s, Work::X) >= 4 * (t * d)
            &&& bytes_of(s, Work::H) >= 4 * (t * d)
            &&& bytes_of(s, Work::A) >= 4 * (t * d)
            &&& bytes_of(s, Work::Attn) >= 4 * (t * d)
            &&& bytes_of(s, Work::Qkv) >= 4 * (t * (3 * d))
            &&& bytes_of(s, Work::Act) >= 4 * (t * c.ff as nat)
            &&& bytes_of(s, Work::Act) >= 4 * (t * (4 * d))
            &&& bytes_of(s, Work::Rows) >= 4 * (rows * d)
            &&& bytes_of(s, Work::Staging) >= 4 * (rows * d)
            &&& bytes_of(s, Work::Params) == 256 * laya_slots(
                c.layers as nat,
                c.head_layers as nat,
            )
        }),
{
    let s = laya_workspace(c, capacity, max_rows);
    let d = c.d as nat;
    let act = if c.ff < 4 * c.d {
        4 * d
    } else {
        c.ff as nat
    };
    bytes_at(s, 0);
    bytes_at(s, 1);
    bytes_at(s, 2);
    bytes_at(s, 3);
    bytes_at(s, 4);
    bytes_at(s, 5);
    bytes_at(s, 6);
    bytes_at(s, 7);
    bytes_at(s, 8);
    bytes_at(s, 9);
    bytes_at(s, 10);
    bytes_at(s, 11);
    rows_have_room(t, d, capacity, d);
    rows_have_room(t, 3 * d, capacity, 3 * d);
    rows_have_room(t, c.ff as nat, capacity, act);
    rows_have_room(t, 4 * d, capacity, act);
    rows_have_room(rows, d, max_rows, d);
    assert(rows * d <= max_rows * d) by (nonlinear_arith)
        requires
            rows <= max_rows,
    ;
}

/// A launch of the small matmul covers its result: along the first axis every
/// column, along the second every row, with no workgroup that has nothing to
/// do.
pub proof fn small_launches_cover_their_result(t: nat, n: nat, k: nat)
    requires
        0 < t <= u32::MAX,
        0 < n <= u32::MAX,
        k <= u32::MAX,
    ensures
        ({
            let m = small_matmul(t, n, k);
            &&& m.block == (Block::Matmul { m: t as u32, n: n as u32, k: k as u32 })
            &&& (m.wg.0 - 1) * 128 < n <= m.wg.0 * 128
            &&& (m.wg.1 - 1) * 32 < t <= m.wg.1 * 32
        }),
{
    groups_cover_the_work(n, 128);
    groups_cover_the_work(t, 32);
}

/// A batch is taken exactly where it has a token, the engine has room for its
/// tokens and rows, and the encoder can run over every sequence of it.
pub proof fn batches_are_taken_exactly_when_they_fit(
    c: LayaConfig,
    seqs: Seq<Sequence>,
    capacity: nat,
    max_rows: nat,
)
    ensures
        hidden_fault(c, seqs, capacity, max_rows) is None <==> {
            &&& 0 < start_of(seqs, seqs.len()) <= capacity
            &&& batch_wanted(seqs, seqs.len()).len() <= max_rows
            &&& forall|k: int|
                0 <= k < seqs.len() ==> runnable(#[trigger] seqs[k], c.max_len as nat, c.vocab as nat)
        },
{
    sequences_are_taken_exactly_when_runnable(
        seqs,
        c.max_len as nat,
        c.vocab as nat,
        seqs.len(),
    );
}

} // verus!

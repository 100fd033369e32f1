//! The Gemma forward pass: how its dispatches are wired and launched, how a
//! request is packed into one token stream, and how its rows come back.

use vstd::prelude::*;
use vstd::string::StringExecFns;

use crate::backend::{BranchOutput, BranchTokens, Token, Want};
use crate::error::LoadError;
use crate::gpu::{
    all_fit, all_still_suit, all_suit, feeds, joined_suit, listed, listed_next, suits, weights_in,
    weights_of_next, weights_read, fits_kernel, joined_side_by_side, side_by_side, takes_block, fits_together, dtype_views, gated_wire, group_count, groups, groups_cover_the_work, middle_wire,
    plain_wire, push_gated, push_middle, push_plain, push_weight, push_wire, stored, stored_dtype,
    tile_of, weight_wire, wire_views, wired, attn_tile, buf_views, check_expected, check_upload,
    data_buf, expected_fault, upload_fault, Block, Buf, BufView, Dispatch, Wire, WireView, Work, K,
};
use crate::model::{
    block_name, catalogue, layer_name, layer_tensors, own_kv, qkv_of, top_tensors, shaped, spec_views, widths_fit, Config, NamedShape,
    TensorSpec,
};
use crate::tensor::{Dtype, QTensor};
use crate::text::{decimal, ends_in, ends_with, push_decimal, push_list, list_text};
use crate::weights::same_sizes;

verus! {

/// The dispatches of layer `l`, in the order in which they run.
pub open spec fn layer_wires(c: Config, dtypes: Seq<(Seq<char>, Dtype)>, l: int) -> Seq<WireView> {
    let hd = c.head_dim@[l];
    let kv = BufView::Kv(c.kv_source@[l]);
    let w = |s: Seq<char>| BufView::Data(layer_name(l, s));
    let work = |b: Work| BufView::Work(b);
    seq![
        middle_wire("norm_in"@, K::Norm, work(Work::X), w("attn_norm"@), Work::H),
        weight_wire("mm_qkv"@, K::Matmul, Work::H, layer_name(l, "qkv"@), Work::Qkv, dtypes),
        wired(
            "qk_prep"@,
            K::Qk,
            hd,
            0,
            seq![
                work(Work::Qkv),
                w("q_norm"@),
                if own_kv(c, l) {
                    w("k_norm"@)
                } else {
                    BufView::Dummy
                },
                work(Work::Meta),
                kv,
            ],
        ),
        wired(
            "attention"@,
            K::Attention,
            hd,
            0,
            seq![work(Work::Qkv), kv, work(Work::Meta), work(Work::Attn)],
        ),
        weight_wire("mm_o"@, K::Matmul, Work::Attn, layer_name(l, "o"@), Work::A, dtypes),
        middle_wire("norm_post_attn"@, K::Norm, work(Work::A), w("post_attn_norm"@), Work::X),
        middle_wire("norm_pre_ff"@, K::Norm, work(Work::X), w("ffn_norm"@), Work::H),
        gated_wire(
            "mm_gate_up"@,
            Work::H,
            layer_name(l, "gate"@),
            layer_name(l, "up"@),
            Work::Act,
            0,
            dtypes,
        ),
        weight_wire("mm_down"@, K::Matmul, Work::Act, layer_name(l, "down"@), Work::A, dtypes),
        middle_wire("norm_post_ff"@, K::Norm, work(Work::A), w("post_ffn_norm"@), Work::X),
    ] + (if c.per_layer_dim > 0 {
        seq![
            weight_wire(
                "pl_mm_gate"@,
                K::Matmul,
                Work::X,
                layer_name(l, "pl_gate"@),
                Work::Attn,
                dtypes,
            ),
            plain_wire("pl_gate"@, K::PlGate, 0, seq![Work::Pli, Work::Attn]),
            weight_wire(
                "pl_mm_proj"@,
                K::Matmul,
                Work::Attn,
                layer_name(l, "pl_proj"@),
                Work::A,
                dtypes,
            ),
            middle_wire("pl_norm"@, K::Norm, work(Work::A), w("pl_norm"@), Work::X),
        ]
    } else {
        seq![]
    })
}

/// The dispatches before the layers: the embedding lookup, and the per-layer
/// inputs where the model has them.
pub open spec fn opening_wires(c: Config, dtypes: Seq<(Seq<char>, Dtype)>) -> Seq<WireView> {
    seq![weight_wire("embed"@, K::Embed, Work::Ids, "embed"@, Work::X, dtypes)] + (
    if c.per_layer_dim > 0 {
        seq![
            weight_wire(
                "pl_model_proj"@,
                K::Matmul,
                Work::X,
                "pl_model_proj"@,
                Work::Act,
                dtypes,
            ),
            wired(
                "pl_combine"@,
                K::PlCombine,
                0,
                0,
                seq![
                    BufView::Work(Work::Act),
                    BufView::Data("pl_proj_norm"@),
                    BufView::Work(Work::Plg),
                    BufView::Work(Work::Pli),
                ],
            ),
        ]
    } else {
        seq![]
    })
}

/// The opening and the first `n` layers.
pub open spec fn wires_upto(c: Config, dtypes: Seq<(Seq<char>, Dtype)>, n: nat) -> Seq<WireView>
    decreases n,
{
    if n == 0 {
        opening_wires(c, dtypes)
    } else {
        wires_upto(c, dtypes, (n - 1) as nat) + layer_wires(c, dtypes, n - 1)
    }
}

/// Every dispatch of a pass, in the order in which they run: the layers, the
/// final norm, and the logits projection over the gathered rows.
pub open spec fn all_wires(c: Config, dtypes: Seq<(Seq<char>, Dtype)>) -> Seq<WireView> {
    wires_upto(c, dtypes, c.layers as nat) + closing_wires(dtypes)
}

/// The first layer whose gate and up projections do not share a storage type
/// or whose K/V source has no buffer of its own.
pub open spec fn wiring_fault(c: Config, dtypes: Seq<(Seq<char>, Dtype)>, n: nat) -> Option<
    Seq<char>,
>
    decreases n,
{
    if n == 0 {
        None
    } else {
        match wiring_fault(c, dtypes, (n - 1) as nat) {
            Some(e) => Some(e),
            None => {
                let l = n - 1;
                if !own_kv(c, c.kv_source@[l] as int) {
                    Some("layer "@ + decimal(l as nat) + ": K/V source has no buffer"@)
                } else if stored(dtypes, layer_name(l, "gate"@)) != stored(
                    dtypes,
                    layer_name(l, "up"@),
                ) {
                    Some(
                        "layer "@ + decimal(l as nat)
                            + ": gate and up projections must share a storage type"@,
                    )
                } else {
                    None
                }
            },
        }
    }
}

proof fn wiring_fault_stays(c: Config, dtypes: Seq<(Seq<char>, Dtype)>, i: nat, n: nat)
    requires
        i <= n,
        wiring_fault(c, dtypes, i) is Some,
    ensures
        wiring_fault(c, dtypes, n) == wiring_fault(c, dtypes, i),
    decreases n - i,
{
    if i < n {
        wiring_fault_stays(c, dtypes, i + 1, n);
    }
}

fn layer_buf(l: usize, s: &str) -> (r: Buf)
    ensures
        r@ == BufView::Data(layer_name(l as int, s@)),
{
    Buf::Data(block_name(l, s))
}

fn push_layer_wires(c: &Config, dtypes: &Vec<(String, Dtype)>, l: usize, out: &mut Vec<Wire>)
    requires
        shaped(*c),
        l < c.layers,
    ensures
        wire_views(final(out)@) == wire_views(old(out)@) + layer_wires(
            *c,
            dtype_views(dtypes@),
            l as int,
        ),
{
    let ghost before = wire_views(out@);
    let ghost dv = dtype_views(dtypes@);
    let hd: usize = c.head_dim[l];
    let kv: usize = c.kv_source[l];
    push_middle(out, "norm_in", K::Norm, Buf::Work(Work::X), layer_buf(l, "attn_norm"), Work::H);
    push_weight(
        out,
        "mm_qkv",
        K::Matmul,
        Work::H,
        block_name(l, "qkv").as_str(),
        Work::Qkv,
        dtypes,
    );
    let k_norm = if c.has_kv(l) {
        layer_buf(l, "k_norm")
    } else {
        Buf::Dummy
    };
    let mut bufs: Vec<Buf> = Vec::new();
    bufs.push(Buf::Work(Work::Qkv));
    bufs.push(layer_buf(l, "q_norm"));
    bufs.push(k_norm);
    bufs.push(Buf::Work(Work::Meta));
    bufs.push(Buf::Kv(kv));
    let ghost qk = seq![
        BufView::Work(Work::Qkv),
        BufView::Data(layer_name(l as int, "q_norm"@)),
        if own_kv(*c, l as int) {
            BufView::Data(layer_name(l as int, "k_norm"@))
        } else {
            BufView::Dummy
        },
        BufView::Work(Work::Meta),
        BufView::Kv(kv),
    ];
    assert(buf_views(bufs@) =~= qk);
    push_wire(out, "qk_prep", K::Qk, hd, 0, bufs);
    let mut bufs: Vec<Buf> = Vec::new();
    bufs.push(Buf::Work(Work::Qkv));
    bufs.push(Buf::Kv(kv));
    bufs.push(Buf::Work(Work::Meta));
    bufs.push(Buf::Work(Work::Attn));
    assert(buf_views(bufs@) =~= seq![
        BufView::Work(Work::Qkv),
        BufView::Kv(kv),
        BufView::Work(Work::Meta),
        BufView::Work(Work::Attn),
    ]);
    push_wire(out, "attention", K::Attention, hd, 0, bufs);
    push_weight(
        out,
        "mm_o",
        K::Matmul,
        Work::Attn,
        block_name(l, "o").as_str(),
        Work::A,
        dtypes,
    );
    push_middle(
        out,
        "norm_post_attn",
        K::Norm,
        Buf::Work(Work::A),
        layer_buf(l, "post_attn_norm"),
        Work::X,
    );
    push_middle(
        out,
        "norm_pre_ff",
        K::Norm,
        Buf::Work(Work::X),
        layer_buf(l, "ffn_norm"),
        Work::H,
    );
    push_gated(
        out,
        "mm_gate_up",
        Work::H,
        block_name(l, "gate").as_str(),
        block_name(l, "up").as_str(),
        Work::Act,
        0,
        dtypes,
    );
    push_weight(
        out,
        "mm_down",
        K::Matmul,
        Work::Act,
        block_name(l, "down").as_str(),
        Work::A,
        dtypes,
    );
    push_middle(
        out,
        "norm_post_ff",
        K::Norm,
        Buf::Work(Work::A),
        layer_buf(l, "post_ffn_norm"),
        Work::X,
    );
    if c.per_layer_dim > 0 {
        push_weight(
            out,
            "pl_mm_gate",
            K::Matmul,
            Work::X,
            block_name(l, "pl_gate").as_str(),
            Work::Attn,
            dtypes,
        );
        let mut works: Vec<Work> = Vec::new();
        works.push(Work::Pli);
        works.push(Work::Attn);
        assert(works@ =~= seq![Work::Pli, Work::Attn]);
        push_plain(out, "pl_gate", K::PlGate, 0, &works);
        push_weight(
            out,
            "pl_mm_proj",
            K::Matmul,
            Work::Attn,
            block_name(l, "pl_proj").as_str(),
            Work::A,
            dtypes,
        );
        push_middle(
            out,
            "pl_norm",
            K::Norm,
            Buf::Work(Work::A),
            layer_buf(l, "pl_norm"),
            Work::X,
        );
    }
    assert(wire_views(out@) =~= before + layer_wires(*c, dv, l as int));
}

/// Wires every dispatch of the checkpoint, given the storage types of its
/// uploaded weights.
pub fn wiring(c: &Config, dtypes: &Vec<(String, Dtype)>) -> (r: Result<Vec<Wire>, LoadError>)
    requires
        shaped(*c),
    ensures
        match r {
            Ok(w) => wiring_fault(*c, dtype_views(dtypes@), c.layers as nat) is None && wire_views(
                w@,
            ) == all_wires(*c, dtype_views(dtypes@)),
            Err(e) => wiring_fault(*c, dtype_views(dtypes@), c.layers as nat) == Some(e@),
        },
{
    let ghost dv = dtype_views(dtypes@);
    let mut out: Vec<Wire> = Vec::new();
    push_weight(&mut out, "embed", K::Embed, Work::Ids, "embed", Work::X, dtypes);
    if c.per_layer_dim > 0 {
        push_weight(
            &mut out,
            "pl_model_proj",
            K::Matmul,
            Work::X,
            "pl_model_proj",
            Work::Act,
            dtypes,
        );
        let mut bufs: Vec<Buf> = Vec::new();
        bufs.push(Buf::Work(Work::Act));
        bufs.push(data_buf("pl_proj_norm"));
        bufs.push(Buf::Work(Work::Plg));
        bufs.push(Buf::Work(Work::Pli));
        assert(buf_views(bufs@) =~= seq![
            BufView::Work(Work::Act),
            BufView::Data("pl_proj_norm"@),
            BufView::Work(Work::Plg),
            BufView::Work(Work::Pli),
        ]);
        push_wire(&mut out, "pl_combine", K::PlCombine, 0, 0, bufs);
    }
    assert(wire_views(out@) =~= opening_wires(*c, dv));
    let mut l: usize = 0;
    while l < c.layers
        invariant
            0 <= l <= c.layers,
            shaped(*c),
            dv == dtype_views(dtypes@),
            wire_views(out@) == wires_upto(*c, dv, l as nat),
            wiring_fault(*c, dv, l as nat) is None,
        decreases c.layers - l,
    {
        proof {
            assert(c.kv_source@[l as int] < c.layers);
            if wiring_fault(*c, dv, (l + 1) as nat) is Some {
                wiring_fault_stays(*c, dv, (l + 1) as nat, c.layers as nat);
            }
        }
        if !c.has_kv(c.kv_source[l]) {
            let mut m: String = "layer ".to_owned();
            push_decimal(&mut m, l as u64);
            m.append(": K/V source has no buffer");
            return Err(LoadError::new(m));
        }
        let gate = stored_dtype(dtypes, block_name(l, "gate").as_str());
        let up = stored_dtype(dtypes, block_name(l, "up").as_str());
        if gate != up {
            let mut m: String = "layer ".to_owned();
            push_decimal(&mut m, l as u64);
            m.append(": gate and up projections must share a storage type");
            return Err(LoadError::new(m));
        }
        push_layer_wires(c, dtypes, l, &mut out);
        l += 1;
    }
    let ghost before = wire_views(out@);
    push_middle(
        &mut out,
        "final_norm",
        K::Norm,
        Buf::Work(Work::X),
        data_buf("final_norm"),
        Work::H,
    );
    push_weight(&mut out, "logits", K::Logits, Work::Rows, "embed", Work::Logits, dtypes);
    assert(wire_views(out@) =~= all_wires(*c, dv));
    Ok(out)
}

/// A matmul over `t` rows: 64 rows by 128 columns a workgroup.
pub open spec fn matmul(t: nat, n: nat, k: nat) -> Dispatch {
    Dispatch {
        block: Block::Matmul { m: t as u32, n: n as u32, k: k as u32 },
        wg: (groups(n, 128), groups(t, 64)),
    }
}

/// A gated matmul over `t` rows: 64 rows by 64 columns a workgroup.
pub open spec fn gated(t: nat, n: nat, k: nat) -> Dispatch {
    Dispatch {
        block: Block::Matmul { m: t as u32, n: n as u32, k: k as u32 },
        wg: (groups(n, 64), groups(t, 64)),
    }
}

/// A norm: one workgroup a row.
pub open spec fn norm(c: Config, t: nat, residual: u32, scaled: bool) -> Dispatch {
    Dispatch {
        block: Block::Norm { t: t as u32, d: c.d as u32, residual, scaled },
        wg: (t as u32, 1),
    }
}

/// What layer `l` launches over `t` tokens.
pub open spec fn layer_launches(c: Config, t: nat, l: int) -> Seq<Dispatch> {
    let hd = c.head_dim@[l] as nat;
    let qkv = qkv_of(c, l);
    let d = c.d as nat;
    let ff = c.ff@[l] as nat;
    let p = c.per_layer_dim as nat;
    let sliding = c.sliding@[l];
    seq![
        norm(c, t, 0, false),
        matmul(t, qkv, d),
        Dispatch {
            block: Block::Qk {
                t: t as u32,
                heads: c.heads as u32,
                sliding,
                rope_dims: c.rope_dims@[l] as u32,
                has_kv: if own_kv(c, l) {
                    1
                } else {
                    0
                },
                v_norm: if c.v_norm {
                    1
                } else {
                    0
                },
                q_stride: qkv as u32,
                kv_heads: c.kv_heads as u32,
            },
            wg: (t as u32, 1),
        },
        Dispatch {
            block: Block::Attn {
                t: t as u32,
                heads: c.heads as u32,
                window: if sliding {
                    c.window as u32
                } else {
                    0
                },
                q_stride: qkv as u32,
                kv_heads: c.kv_heads as u32,
            },
            wg: (groups(t * (c.heads / c.kv_heads) as nat, tile_of(hd).0), c.kv_heads as u32),
        },
        matmul(t, d, (c.heads * hd) as nat),
        norm(c, t, 1, false),
        norm(c, t, 0, false),
        gated(t, ff, d),
        matmul(t, d, ff),
        norm(c, t, 1, p == 0),
    ] + (if p > 0 {
        seq![
            matmul(t, p, d),
            Dispatch {
                block: Block::PlGate {
                    t: t as u32,
                    p: p as u32,
                    layers: c.layers as u32,
                    layer: l as u32,
                },
                wg: (groups(t * p, 256), 1),
            },
            matmul(t, d, p),
            norm(c, t, 1, true),
        ]
    } else {
        seq![]
    })
}

/// What a pass over `t` tokens launches before the layers.
pub open spec fn opening_launches(c: Config, t: nat) -> Seq<Dispatch> {
    seq![
        Dispatch {
            block: Block::Embed { t: t as u32, d: c.d as u32, residual: 0 },
            wg: (groups(t * c.d as nat / 4, 256), 1),
        },
    ] + (if c.per_layer_dim > 0 {
        seq![
            matmul(t, (c.per_layer_dim * c.layers) as nat, c.d as nat),
            Dispatch {
                block: Block::PlCombine {
                    t: t as u32,
                    p: c.per_layer_dim as u32,
                    layers: c.layers as u32,
                },
                wg: ((t * c.layers as nat) as u32, 1),
            },
        ]
    } else {
        seq![]
    })
}

/// The opening and the first `n` layers.
pub open spec fn launches_upto(c: Config, t: nat, n: nat) -> Seq<Dispatch>
    decreases n,
{
    if n == 0 {
        opening_launches(c, t)
    } else {
        launches_upto(c, t, (n - 1) as nat) + layer_launches(c, t, n - 1)
    }
}

/// What a pass launches behind the layers: the final norm, and the logits
/// projection over `rows` rows only where logits are wanted.
pub open spec fn closing_launches(c: Config, t: nat, rows: nat, want: Want) -> Seq<Dispatch> {
    seq![norm(c, t, 0, false)] + (if want == Want::Logits {
        seq![
            Dispatch {
                block: Block::Matmul { m: rows as u32, n: c.vocab as u32, k: c.d as u32 },
                wg: (groups(c.vocab as nat, 256), 1),
            },
        ]
    } else {
        seq![]
    })
}

/// Everything a pass over `t` tokens launches that runs the first `n` layers,
/// in order.
pub open spec fn first_launches(c: Config, t: nat, rows: nat, want: Want, n: nat) -> Seq<Dispatch> {
    launches_upto(c, t, n) + closing_launches(c, t, rows, want)
}

/// Everything a pass over `t` tokens launches, in order.
pub open spec fn all_launches(c: Config, t: nat, rows: nat, want: Want) -> Seq<Dispatch> {
    first_launches(c, t, rows, want, c.layers as nat)
}

/// The products of a pass over `t` tokens are sizes.
pub open spec fn pass_fits(c: Config, t: nat) -> bool {
    &&& t * c.d <= usize::MAX
    &&& t * c.layers <= usize::MAX
    &&& t * c.heads <= usize::MAX
    &&& t * c.per_layer_dim <= usize::MAX
    &&& c.kv_heads > 0
}

fn matmul_of(t: usize, n: usize, k: usize) -> (r: Dispatch)
    ensures
        r == matmul(t as nat, n as nat, k as nat),
{
    Dispatch {
        block: Block::Matmul { m: t as u32, n: n as u32, k: k as u32 },
        wg: (group_count(n, 128), group_count(t, 64)),
    }
}

fn norm_of(c: &Config, t: usize, residual: u32, scaled: bool) -> (r: Dispatch)
    ensures
        r == norm(*c, t as nat, residual, scaled),
{
    Dispatch { block: Block::Norm { t: t as u32, d: c.d as u32, residual, scaled }, wg: (t as u32, 1) }
}

fn push_layer_launches(c: &Config, t: usize, l: usize, out: &mut Vec<Dispatch>)
    requires
        shaped(*c),
        widths_fit(*c),
        pass_fits(*c, t as nat),
        l < c.layers,
    ensures
        final(out)@ == old(out)@ + layer_launches(*c, t as nat, l as int),
{
    let ghost before = out@;
    let d: usize = c.d;
    let hd: usize = c.head_dim[l];
    let qkv: usize = c.qkv_width(l);
    let ff: usize = c.ff[l];
    let sliding: bool = c.sliding[l];
    out.push(norm_of(c, t, 0, false));
    out.push(matmul_of(t, qkv, d));
    let has_kv: u32 = if c.has_kv(l) {
        1
    } else {
        0
    };
    let v_norm: u32 = if c.v_norm {
        1
    } else {
        0
    };
    out.push(
        Dispatch {
            block: Block::Qk {
                t: t as u32,
                heads: c.heads as u32,
                sliding,
                rope_dims: c.rope_dims[l] as u32,
                has_kv,
                v_norm,
                q_stride: qkv as u32,
                kv_heads: c.kv_heads as u32,
            },
            wg: (t as u32, 1),
        },
    );
    let window: u32 = if sliding {
        c.window as u32
    } else {
        0
    };
    let (rows, _kb) = attn_tile(hd);
    let hpg: usize = c.heads / c.kv_heads;
    proof {
        vstd::arithmetic::div_mod::lemma_div_is_ordered_by_denominator(
            c.heads as int,
            1,
            c.kv_heads as int,
        );
        assert(t * hpg <= t * c.heads) by (nonlinear_arith)
            requires
                hpg <= c.heads,
        ;
        assert(c.head_dim@[l as int] == hd);
        assert(c.heads * hd <= (c.heads + 2 * c.kv_heads) * hd) by (nonlinear_arith);
    }
    out.push(
        Dispatch {
            block: Block::Attn {
                t: t as u32,
                heads: c.heads as u32,
                window,
                q_stride: qkv as u32,
                kv_heads: c.kv_heads as u32,
            },
            wg: (group_count(t * hpg, rows), c.kv_heads as u32),
        },
    );
    out.push(matmul_of(t, d, c.heads * hd));
    out.push(norm_of(c, t, 1, false));
    out.push(norm_of(c, t, 0, false));
    out.push(
        Dispatch {
            block: Block::Matmul { m: t as u32, n: ff as u32, k: d as u32 },
            wg: (group_count(ff, 64), group_count(t, 64)),
        },
    );
    out.push(matmul_of(t, d, ff));
    let p: usize = c.per_layer_dim;
    out.push(norm_of(c, t, 1, p == 0));
    if p > 0 {
        out.push(matmul_of(t, p, d));
        out.push(
            Dispatch {
                block: Block::PlGate {
                    t: t as u32,
                    p: p as u32,
                    layers: c.layers as u32,
                    layer: l as u32,
                },
                wg: (group_count(t * p, 256), 1),
            },
        );
        out.push(matmul_of(t, d, p));
        out.push(norm_of(c, t, 1, true));
    }
    assert(out@ =~= before + layer_launches(*c, t as nat, l as int));
}

/// Everything a pass over `t` tokens with `rows` wanted rows launches.
pub fn launches(c: &Config, t: usize, rows: usize, want: Want) -> (r: Vec<Dispatch>)
    requires
        shaped(*c),
        widths_fit(*c),
        pass_fits(*c, t as nat),
    ensures
        r@ == all_launches(*c, t as nat, rows as nat, want),
{
    launches_of_first(c, t, rows, want, c.layers)
}

/// How many layers run where the first `n` are asked for.
pub open spec fn layers_run(c: Config, n: nat) -> nat {
    if n < c.layers {
        n
    } else {
        c.layers as nat
    }
}

/// What a pass launches that runs the first `n` layers alone, all of them
/// where there are no more.
pub fn launches_of_first(c: &Config, t: usize, rows: usize, want: Want, n: usize) -> (r: Vec<
    Dispatch,
>)
    requires
        shaped(*c),
        widths_fit(*c),
        pass_fits(*c, t as nat),
    ensures
        r@ == first_launches(*c, t as nat, rows as nat, want, layers_run(*c, n as nat)),
{
    let last: usize = if n < c.layers {
        n
    } else {
        c.layers
    };
    let mut out: Vec<Dispatch> = Vec::new();
    out.push(
        Dispatch {
            block: Block::Embed { t: t as u32, d: c.d as u32, residual: 0 },
            wg: (group_count(t * c.d / 4, 256), 1),
        },
    );
    if c.per_layer_dim > 0 {
        out.push(matmul_of(t, c.per_layer_dim * c.layers, c.d));
        out.push(
            Dispatch {
                block: Block::PlCombine {
                    t: t as u32,
                    p: c.per_layer_dim as u32,
                    layers: c.layers as u32,
                },
                wg: ((t * c.layers) as u32, 1),
            },
        );
    }
    assert(out@ =~= opening_launches(*c, t as nat));
    let mut l: usize = 0;
    while l < last
        invariant
            0 <= l <= last <= c.layers,
            shaped(*c),
            widths_fit(*c),
            pass_fits(*c, t as nat),
            out@ == launches_upto(*c, t as nat, l as nat),
        decreases last - l,
    {
        push_layer_launches(c, t, l, &mut out);
        l += 1;
    }
    out.push(norm_of(c, t, 0, false));
    match want {
        Want::Logits => {
            out.push(
                Dispatch {
                    block: Block::Matmul { m: rows as u32, n: c.vocab as u32, k: c.d as u32 },
                    wg: (group_count(c.vocab, 256), 1),
                },
            );
        },
        Want::Hidden => {},
    }
    assert(out@ =~= first_launches(*c, t as nat, rows as nat, want, last as nat));
    out
}

/// Parameter slots for every dispatch of one request.
pub open spec fn slots_for(layers: nat) -> nat {
    4 + layers * 14 + 2
}

/// Parameter slots for every dispatch of one request.
pub fn param_slots(layers: usize) -> (r: usize)
    requires
        slots_for(layers as nat) <= usize::MAX,
    ensures
        r == slots_for(layers as nat),
{
    4 + layers * 14 + 2
}

/// How many dispatches a pass wires before the layers.
pub open spec fn opening_steps(c: Config) -> nat {
    if c.per_layer_dim > 0 {
        3
    } else {
        1
    }
}

/// How many dispatches a layer wires.
pub open spec fn layer_steps(c: Config) -> nat {
    if c.per_layer_dim > 0 {
        14
    } else {
        10
    }
}

/// Which of the wired dispatches a pass runs that runs the first `n` layers
/// alone: those up to the layer, and behind the layers the final norm and,
/// where logits are wanted, their projection.
pub open spec fn steps_run(c: Config, n: nat, want: Want) -> Seq<nat> {
    let upto = opening_steps(c) + n * layer_steps(c);
    let behind = opening_steps(c) + c.layers * layer_steps(c);
    Seq::new(
        upto + (if want == Want::Logits {
            2nat
        } else {
            1nat
        }),
        |i: int|
            if i < upto {
                i as nat
            } else {
                (behind + (i - upto)) as nat
            },
    )
}

/// Which of the wired dispatches a pass runs that runs the first `n` layers
/// alone.
pub fn steps_of_first(c: &Config, n: usize, want: Want) -> (r: Vec<usize>)
    requires
        slots_for(c.layers as nat) <= usize::MAX,
    ensures
        r@.map_values(|i: usize| i as nat) == steps_run(*c, layers_run(*c, n as nat), want),
{
    let run: usize = if n < c.layers {
        n
    } else {
        c.layers
    };
    let (opening, each): (usize, usize) = if c.per_layer_dim > 0 {
        (3, 14)
    } else {
        (1, 10)
    };
    proof {
        assert(run * each <= c.layers * each && c.layers * each <= c.layers * 14)
            by (nonlinear_arith)
            requires
                run <= c.layers,
                each <= 14,
        ;
    }
    let upto: usize = opening + run * each;
    let behind: usize = opening + c.layers * each;
    let total: usize = upto + match want {
        Want::Logits => 2,
        Want::Hidden => 1,
    };
    let ghost want_steps = steps_run(*c, run as nat, want);
    let mut out: Vec<usize> = Vec::new();
    let mut i: usize = 0;
    while i < total
        invariant
            0 <= i <= total,
            upto <= behind,
            behind + 2 <= usize::MAX,
            total <= upto + 2,
            want_steps.len() == total,
            out@.len() == i,
            forall|k: int|
                0 <= k < total ==> #[trigger] want_steps[k] == (if k < upto {
                    k
                } else {
                    behind + (k - upto)
                }),
            forall|k: int| 0 <= k < i ==> (#[trigger] out@[k]) as nat == want_steps[k],
        decreases total - i,
    {
        assert(want_steps[i as int] == (if i < upto {
            i as int
        } else {
            behind + (i - upto)
        }));
        out.push(
            if i < upto {
                i
            } else {
                behind + (i - upto)
            },
        );
        i += 1;
    }
    assert(out@.map_values(|i: usize| i as nat) =~= want_steps);
    out
}

/// Every wired dispatch is launched, in the wired order: a pass that wants
/// logits launches one for one what is wired, a pass that wants hidden rows
/// all but the logits projection; each launch hands its kernel a block that
/// the kernel takes; and the parameter slots suffice.
pub proof fn launches_follow_the_wiring(
    c: Config,
    dtypes: Seq<(Seq<char>, Dtype)>,
    t: nat,
    rows: nat,
    want: Want,
)
    ensures
        side_by_side(
            all_launches(c, t, rows, want),
            if want == Want::Logits {
                all_wires(c, dtypes)
            } else {
                all_wires(c, dtypes).drop_last()
            },
        ),
        all_launches(c, t, rows, want).len() <= slots_for(c.layers as nat),
{
    launches_beside_wires(c, dtypes, t, c.layers as nat);
    let before = wires_upto(c, dtypes, c.layers as nat);
    let closing = closing_wires(dtypes);
    let ws = if want == Want::Logits {
        closing
    } else {
        closing.drop_last()
    };
    assert(side_by_side(closing_launches(c, t, rows, want), ws));
    joined_side_by_side(
        launches_upto(c, t, c.layers as nat),
        before,
        closing_launches(c, t, rows, want),
        ws,
    );
    assert(all_wires(c, dtypes) == before + closing);
    assert((before + closing).drop_last() =~= before + closing.drop_last());
    assert(c.layers * layer_steps(c) <= c.layers * 14) by (nonlinear_arith)
        requires
            layer_steps(c) <= 14,
    ;
}

/// A pass that runs the first layers alone launches what the whole pass
/// launches, without the launches of the other layers: each goes to the wired
/// dispatch that it has in the whole pass, hands its kernel a block that the
/// kernel takes, and they keep their order.
pub proof fn first_layers_follow_the_wiring(
    c: Config,
    dtypes: Seq<(Seq<char>, Dtype)>,
    t: nat,
    rows: nat,
    want: Want,
    n: nat,
    i: int,
)
    requires
        n <= c.layers,
        0 <= i < first_launches(c, t, rows, want, n).len(),
    ensures
        ({
            let steps = steps_run(c, n, want);
            let step = steps[i] as int;
            &&& steps.len() == first_launches(c, t, rows, want, n).len()
            &&& step < all_launches(c, t, rows, want).len()
            &&& step < all_wires(c, dtypes).len()
            &&& first_launches(c, t, rows, want, n)[i] == all_launches(c, t, rows, want)[step]
            &&& takes_block(
                all_wires(c, dtypes)[step].kernel,
                first_launches(c, t, rows, want, n)[i].block,
            )
            &&& i > 0 ==> steps[i - 1] < steps[i]
        }),
{
    launches_follow_the_wiring(c, dtypes, t, rows, want);
    launches_beside_wires(c, dtypes, t, n);
    launches_beside_wires(c, dtypes, t, c.layers as nat);
    launches_are_kept(c, t, n, c.layers as nat);
    assert(n * layer_steps(c) <= c.layers * layer_steps(c)) by (nonlinear_arith)
        requires
            n <= c.layers,
    ;
    let steps = steps_run(c, n, want);
    let step = steps[i] as int;
    let upto = launches_upto(c, t, n);
    let whole = launches_upto(c, t, c.layers as nat);
    if i < upto.len() {
        assert(whole.take(upto.len() as int)[i] == whole[i]);
    }
    let ws = if want == Want::Logits {
        all_wires(c, dtypes)
    } else {
        all_wires(c, dtypes).drop_last()
    };
    assert(ws[step] == all_wires(c, dtypes)[step]);
}

/// The dispatches behind the layers.
pub open spec fn closing_wires(dtypes: Seq<(Seq<char>, Dtype)>) -> Seq<WireView> {
    seq![
        middle_wire(
            "final_norm"@,
            K::Norm,
            BufView::Work(Work::X),
            BufView::Data("final_norm"@),
            Work::H,
        ),
        weight_wire("logits"@, K::Logits, Work::Rows, "embed"@, Work::Logits, dtypes),
    ]
}

proof fn layer_beside_its_wires(c: Config, dtypes: Seq<(Seq<char>, Dtype)>, t: nat, l: int)
    ensures
        side_by_side(layer_launches(c, t, l), layer_wires(c, dtypes, l)),
        layer_launches(c, t, l).len() == layer_steps(c),
{
    let ds = layer_launches(c, t, l);
    let ws = layer_wires(c, dtypes, l);
    assert forall|i: int| 0 <= i < ds.len() implies takes_block(
        (#[trigger] ws[i]).kernel,
        (#[trigger] ds[i]).block,
    ) by {
        if i < 5 {
        } else if i < 10 {
        } else {
        }
    }
}

proof fn launches_beside_wires(c: Config, dtypes: Seq<(Seq<char>, Dtype)>, t: nat, n: nat)
    ensures
        side_by_side(launches_upto(c, t, n), wires_upto(c, dtypes, n)),
        launches_upto(c, t, n).len() == opening_steps(c) + n * layer_steps(c),
    decreases n,
{
    if n > 0 {
        let m = (n - 1) as nat;
        launches_beside_wires(c, dtypes, t, m);
        layer_beside_its_wires(c, dtypes, t, m as int);
        joined_side_by_side(
            launches_upto(c, t, m),
            wires_upto(c, dtypes, m),
            layer_launches(c, t, m as int),
            layer_wires(c, dtypes, m as int),
        );
        assert(n * layer_steps(c) == m * layer_steps(c) + layer_steps(c)) by (nonlinear_arith)
            requires
                n == m + 1,
        ;
    } else {
        assert(0 * layer_steps(c) == 0) by (nonlinear_arith);
    }
}

proof fn launches_are_kept(c: Config, t: nat, m: nat, n: nat)
    requires
        m <= n,
    ensures
        launches_upto(c, t, m).len() <= launches_upto(c, t, n).len(),
        launches_upto(c, t, n).take(launches_upto(c, t, m).len() as int) == launches_upto(c, t, m),
    decreases n,
{
    if m < n {
        launches_are_kept(c, t, m, (n - 1) as nat);
        let before = launches_upto(c, t, (n - 1) as nat);
        let k = launches_upto(c, t, m).len() as int;
        assert(launches_upto(c, t, n).take(k) =~= before.take(k));
    } else {
        assert(launches_upto(c, t, n).take(launches_upto(c, t, n).len() as int) =~= launches_upto(
            c,
            t,
            n,
        ));
    }
}

/// The bytes of the workspace buffers for `capacity` tokens and `max_rows`
/// rows, beside the K/V of the layers.
pub open spec fn workspace(c: Config, capacity: nat, max_rows: nat, widest: Widest) -> Seq<
    (Work, nat),
> {
    let d = c.d as nat;
    let pl = (c.per_layer_dim * c.layers) as nat;
    seq![
        (Work::Ids, capacity * 4),
        (Work::Meta, capacity * 8),
        (Work::X, at_least_one(capacity * d) * 4),
        (Work::H, at_least_one(capacity * d) * 4),
        (Work::Qkv, at_least_one(capacity * widest.qkv as nat) * 4),
        (Work::Attn, at_least_one(capacity * widest.attn as nat) * 4),
        (Work::A, at_least_one(capacity * d) * 4),
        (Work::Act, at_least_one(capacity * widest.act as nat) * 4),
        (Work::Rows, at_least_one(max_rows * d) * 4),
        (Work::Logits, at_least_one(max_rows * c.vocab as nat) * 4),
        (
            Work::Staging,
            max_rows * (if c.vocab < c.d {
                d
            } else {
                c.vocab as nat
            }) * 4,
        ),
        (Work::Params, 256 * slots_for(c.layers as nat)),
    ] + (if c.per_layer_dim > 0 {
        seq![(Work::Plg, capacity * pl * 2), (Work::Pli, at_least_one(capacity * pl) * 4)]
    } else {
        seq![]
    })
}

/// The widest activations of a checkpoint.
#[derive(Debug, Clone, Copy, PartialEq, Eq, Structural)]
pub struct Widest {
    pub qkv: usize,
    pub attn: usize,
    pub act: usize,
}

/// A buffer is never empty.
pub open spec fn at_least_one(n: nat) -> nat {
    if n == 0 {
        1
    } else {
        n
    }
}

/// `v` is the largest of the numbers, zero without any.
pub open spec fn is_max(v: nat, s: Seq<nat>) -> bool {
    &&& s.len() == 0 ==> v == 0
    &&& s.len() > 0 ==> s.contains(v)
    &&& forall|i: int| 0 <= i < s.len() ==> (#[trigger] s[i]) <= v
}

/// The widths of the layers' fused projections.
pub open spec fn qkv_widths(c: Config) -> Seq<nat> {
    Seq::new(c.layers as nat, |l: int| qkv_of(c, l))
}

/// The largest head dimension; 256 without layers.
pub open spec fn largest_head(c: Config, hd: usize) -> bool {
    if c.layers == 0 {
        hd == 256
    } else {
        c.head_dim@.contains(hd) && forall|i: int|
            0 <= i < c.layers ==> (#[trigger] c.head_dim@[i]) <= hd
    }
}

/// The widest activations: the fused projection, the heads at the largest
/// head dimension, and the intermediate size or the per-layer inputs.
pub fn widest(c: &Config) -> (r: Widest)
    requires
        shaped(*c),
        widths_fit(*c),
        c.heads * 256 <= usize::MAX,
    ensures
        is_max(r.qkv as nat, qkv_widths(*c)),
        exists|hd: usize| r.attn == c.heads * hd && #[trigger] largest_head(*c, hd),
        forall|i: int| 0 <= i < c.layers ==> (#[trigger] c.ff@[i]) <= r.act,
        c.per_layer_dim * c.layers <= r.act,
        r.act == c.per_layer_dim * c.layers || c.ff@.contains(r.act),
{
    let mut qkv: usize = 0;
    let mut act: usize = c.per_layer_dim * c.layers;
    let mut l: usize = 0;
    while l < c.layers
        invariant
            0 <= l <= c.layers,
            shaped(*c),
            widths_fit(*c),
            l == 0 ==> qkv == 0,
            l > 0 ==> exists|j: int| 0 <= j < l && #[trigger] qkv_of(*c, j) == qkv,
            forall|j: int| 0 <= j < l ==> #[trigger] qkv_of(*c, j) <= qkv,
            forall|j: int| 0 <= j < l ==> (#[trigger] c.ff@[j]) <= act,
            c.per_layer_dim * c.layers <= act,
            act == c.per_layer_dim * c.layers || c.ff@.contains(act),
        decreases c.layers - l,
    {
        let w: usize = c.qkv_width(l);
        if w >= qkv {
            qkv = w;
        }
        assert(qkv_of(*c, l as int) <= qkv);
        if c.ff[l] > act {
            act = c.ff[l];
            assert(c.ff@[l as int] == act);
        }
        l += 1;
    }
    proof {
        let s = qkv_widths(*c);
        if s.len() > 0 {
            let j = choose|j: int| 0 <= j < c.layers && #[trigger] qkv_of(*c, j) == qkv;
            assert(s[j] == qkv);
        }
        assert forall|i: int| 0 <= i < s.len() implies (#[trigger] s[i]) <= qkv by {
            assert(qkv_of(*c, i) <= qkv);
        }
    }
    let hd: usize = c.max_head_dim();
    proof {
        if c.layers > 0 {
            let j = choose|j: int| 0 <= j < c.head_dim@.len() && c.head_dim@[j] == hd;
            assert(c.head_dim@[j] == hd);
            assert(c.heads * hd <= (c.heads + 2 * c.kv_heads) * hd) by (nonlinear_arith);
        }
    }
    let attn: usize = c.heads * hd;
    assert(largest_head(*c, hd));
    Widest { qkv, attn, act }
}

/// The buffer sizes are sizes.
pub open spec fn sizes_fit(s: Seq<(Work, nat)>) -> bool {
    forall|i: int| 0 <= i < s.len() ==> (#[trigger] s[i]).1 <= usize::MAX
}

/// Buffers and their sizes in bytes.
pub open spec fn size_views(v: Seq<(Work, u64)>) -> Seq<(Work, nat)> {
    v.map_values(|e: (Work, u64)| (e.0, e.1 as nat))
}

/// The bytes of a buffer of `a` rows of `b` words.
pub(crate) fn words(a: usize, b: usize) -> (r: u64)
    requires
        at_least_one((a * b) as nat) * 4 <= usize::MAX,
    ensures
        r == at_least_one((a * b) as nat) * 4,
{
    let n: usize = a * b;
    if n == 0 {
        4
    } else {
        (n * 4) as u64
    }
}

/// The workspace buffers and their sizes in bytes.
pub fn workspace_sizes(c: &Config, capacity: usize, max_rows: usize, w: Widest) -> (r: Vec<
    (Work, u64),
>)
    requires
        widths_fit(*c),
        sizes_fit(workspace(*c, capacity as nat, max_rows as nat, w)),
    ensures
        size_views(r@) == workspace(*c, capacity as nat, max_rows as nat, w),
{
    let ghost ws = workspace(*c, capacity as nat, max_rows as nat, w);
    proof {
        assert(ws[0].1 <= usize::MAX && ws[1].1 <= usize::MAX && ws[2].1 <= usize::MAX);
        assert(ws[3].1 <= usize::MAX && ws[4].1 <= usize::MAX && ws[5].1 <= usize::MAX);
        assert(ws[6].1 <= usize::MAX && ws[7].1 <= usize::MAX && ws[8].1 <= usize::MAX);
        assert(ws[9].1 <= usize::MAX && ws[10].1 <= usize::MAX && ws[11].1 <= usize::MAX);
    }
    let d: usize = c.d;
    let mut out: Vec<(Work, u64)> = Vec::new();
    out.push((Work::Ids, (capacity * 4) as u64));
    out.push((Work::Meta, (capacity * 8) as u64));
    out.push((Work::X, words(capacity, d)));
    out.push((Work::H, words(capacity, d)));
    out.push((Work::Qkv, words(capacity, w.qkv)));
    out.push((Work::Attn, words(capacity, w.attn)));
    out.push((Work::A, words(capacity, d)));
    out.push((Work::Act, words(capacity, w.act)));
    out.push((Work::Rows, words(max_rows, d)));
    out.push((Work::Logits, words(max_rows, c.vocab)));
    let wide: usize = if c.vocab < d {
        d
    } else {
        c.vocab
    };
    out.push((Work::Staging, (max_rows * wide * 4) as u64));
    out.push((Work::Params, 256 * param_slots(c.layers) as u64));
    if c.per_layer_dim > 0 {
        let pl: usize = c.per_layer_dim * c.layers;
        proof {
            assert(ws[12].1 <= usize::MAX && ws[13].1 <= usize::MAX);
        }
        out.push((Work::Plg, (capacity * pl * 2) as u64));
        out.push((Work::Pli, words(capacity, pl)));
    }
    assert(size_views(out@) =~= ws);
    out
}

/// The bytes of a layer's own K/V, nothing for a layer that shares one.
pub open spec fn kv_bytes(c: Config, capacity: nat, l: int) -> Option<nat> {
    if own_kv(c, l) {
        Some(at_least_one(capacity * 2 * c.kv_heads as nat * c.head_dim@[l] as nat) * 4)
    } else {
        None
    }
}

/// The bytes of layer `l`'s own K/V.
pub fn kv_size(c: &Config, capacity: usize, l: usize) -> (r: Option<u64>)
    requires
        shaped(*c),
        l < c.layers,
        capacity * 2 * c.kv_heads * c.head_dim@[l as int] * 4 <= usize::MAX,
        capacity * 2 * c.kv_heads <= usize::MAX,
        capacity * 2 <= usize::MAX,
    ensures
        match r {
            Some(n) => kv_bytes(*c, capacity as nat, l as int) == Some(n as nat),
            None => kv_bytes(*c, capacity as nat, l as int) is None,
        },
{
    if c.has_kv(l) {
        let n: usize = capacity * 2 * c.kv_heads;
        Some(words(n, c.head_dim[l]))
    } else {
        None
    }
}

/// Where an incoming tensor goes.
#[derive(Debug, Clone, Copy, PartialEq, Eq, Structural)]
pub enum Placement {
    /// A layer's output scale, kept as a number.
    Scalar,
    /// Uploaded.
    Device,
}

/// Why a tensor cannot be taken, if it cannot.
pub open spec fn push_fault(expected: Seq<NamedShape>, name: Seq<char>, t: QTensor) -> Option<
    Seq<char>,
> {
    match expected_fault(expected, name, t.shape@) {
        Some(e) => Some(e),
        None => if ends_in(name, "out_scale"@) {
            None
        } else {
            upload_fault(name, t.shape@, t.dtype)
        },
    }
}

/// Checks one incoming tensor and says where it goes.
pub fn push(expected: &Vec<TensorSpec>, name: &str, t: &QTensor) -> (r: Result<
    Placement,
    LoadError,
>)
    ensures
        match r {
            Ok(p) => push_fault(spec_views(expected@), name@, *t) is None && (p
                == Placement::Scalar <==> ends_in(name@, "out_scale"@)),
            Err(e) => push_fault(spec_views(expected@), name@, *t) == Some(e@),
        },
{
    match check_expected(expected, name, t) {
        Ok(_) => {},
        Err(e) => {
            return Err(e);
        },
    }
    if ends_with(name, "out_scale") {
        return Ok(Placement::Scalar);
    }
    match check_upload(name, t) {
        Ok(_) => Ok(Placement::Device),
        Err(e) => Err(e),
    }
}

/// Checks the shape of the per-layer token table.
pub fn set_per_layer_table(c: &Config, t: &QTensor) -> (r: Result<(), LoadError>)
    requires
        c.per_layer_dim * c.layers <= usize::MAX,
    ensures
        ({
            let want = seq![c.vocab, (c.per_layer_dim * c.layers) as usize];
            match r {
                Ok(_) => t.shape@ == want,
                Err(e) => t.shape@ != want && e@ == "per-layer table: shape "@ + list_text(
                    t.shape@,
                ) + ", expected "@ + list_text(want),
            }
        }),
{
    let mut want: Vec<usize> = Vec::new();
    want.push(c.vocab);
    want.push(c.per_layer_dim * c.layers);
    assert(want@ =~= seq![c.vocab, (c.per_layer_dim * c.layers) as usize]);
    if same_sizes(&t.shape, &want) {
        return Ok(());
    }
    let mut m: String = "per-layer table: shape ".to_owned();
    push_list(&mut m, &t.shape);
    m.append(", expected ");
    push_list(&mut m, &want);
    Err(LoadError::new(m))
}

/// A request packed into one token stream.
#[derive(Debug)]
pub struct Stream {
    pub ids: Vec<u32>,
    /// `(position, sequence)` of every token, flat.
    pub meta: Vec<i32>,
    /// `(branch, slot, packed index)` of every wanted row, in order.
    pub wanted: Vec<(usize, usize, usize)>,
}

/// The ids of a branch's tokens.
pub open spec fn branch_ids(b: BranchTokens) -> Seq<u32> {
    b.tokens@.map_values(|t: Token| t.0 as u32)
}

/// The prefix and the first `n` branches in one stream.
pub open spec fn stream_ids(prefix: Seq<u32>, bs: Seq<BranchTokens>, n: nat) -> Seq<u32>
    decreases n,
{
    if n == 0 {
        prefix
    } else {
        stream_ids(prefix, bs, (n - 1) as nat) + branch_ids(bs[n - 1])
    }
}

/// `k` tokens of sequence `seq` from position `start` on.
pub open spec fn run_meta(start: nat, k: nat, seq: nat) -> Seq<i32> {
    Seq::new(
        2 * k,
        |i: int|
            if i % 2 == 0 {
                (start + i / 2) as i32
            } else {
                seq as i32
            },
    )
}

/// Where every token stands: the prefix from position 0 in sequence 0, each
/// branch from the end of the prefix in a sequence of its own.
pub open spec fn stream_meta(p: nat, bs: Seq<BranchTokens>, n: nat) -> Seq<i32>
    decreases n,
{
    if n == 0 {
        run_meta(0, p, 0)
    } else {
        stream_meta(p, bs, (n - 1) as nat) + run_meta(p, bs[n - 1].tokens@.len(), n)
    }
}

/// The wanted rows of the first `n` branches.
pub open spec fn stream_wanted(prefix: Seq<u32>, bs: Seq<BranchTokens>, n: nat) -> Seq<
    (usize, usize, usize),
>
    decreases n,
{
    if n == 0 {
        Seq::empty()
    } else {
        let start = stream_ids(prefix, bs, (n - 1) as nat).len();
        stream_wanted(prefix, bs, (n - 1) as nat) + Seq::new(
            bs[n - 1].want@.len(),
            |s: int| ((n - 1) as usize, s as usize, (start + bs[n - 1].want@[s]) as usize),
        )
    }
}

/// The first of a branch's wanted places past its tokens.
pub open spec fn want_fault(b: BranchTokens, bi: nat, n: nat) -> Option<Seq<char>>
    decreases n,
{
    if n == 0 {
        None
    } else {
        match want_fault(b, bi, (n - 1) as nat) {
            Some(e) => Some(e),
            None => if b.want@[n - 1] >= b.tokens@.len() {
                Some(
                    "branch "@ + decimal(bi) + ": wanted position "@ + decimal(
                        b.want@[n - 1] as nat,
                    ) + " past its "@ + decimal(b.tokens@.len()) + " tokens"@,
                )
            } else {
                None
            },
        }
    }
}

/// The first branch that wants a place past its tokens.
pub open spec fn wants_fault(bs: Seq<BranchTokens>, n: nat) -> Option<Seq<char>>
    decreases n,
{
    if n == 0 {
        None
    } else {
        match wants_fault(bs, (n - 1) as nat) {
            Some(e) => Some(e),
            None => want_fault(bs[n - 1], (n - 1) as nat, bs[n - 1].want@.len()),
        }
    }
}

/// The first of the ids outside the vocabulary.
pub open spec fn id_fault(ids: Seq<u32>, vocab: nat, n: nat) -> Option<Seq<char>>
    decreases n,
{
    if n == 0 {
        None
    } else {
        match id_fault(ids, vocab, (n - 1) as nat) {
            Some(e) => Some(e),
            None => if ids[n - 1] as nat >= vocab {
                Some(
                    "token id "@ + decimal(ids[n - 1] as nat) + " outside the vocabulary of "@
                        + decimal(vocab),
                )
            } else {
                None
            },
        }
    }
}

/// Why a request cannot be packed, if it cannot.
pub open spec fn stream_fault(
    prefix: Seq<u32>,
    bs: Seq<BranchTokens>,
    capacity: nat,
    max_rows: nat,
    vocab: nat,
) -> Option<Seq<char>> {
    let ids = stream_ids(prefix, bs, bs.len());
    let rows = stream_wanted(prefix, bs, bs.len()).len();
    if ids.len() > capacity {
        Some(decimal(ids.len()) + " tokens exceed the engine capacity "@ + decimal(capacity))
    } else if ids.len() == 0 {
        Some("empty request"@)
    } else if wants_fault(bs, bs.len()) is Some {
        wants_fault(bs, bs.len())
    } else if rows > max_rows {
        Some(
            decimal(rows) + " rows requested, engine reads back at most "@ + decimal(max_rows),
        )
    } else {
        id_fault(ids, vocab, ids.len())
    }
}

proof fn want_fault_stays(b: BranchTokens, bi: nat, i: nat, n: nat)
    requires
        i <= n,
        want_fault(b, bi, i) is Some,
    ensures
        want_fault(b, bi, n) == want_fault(b, bi, i),
    decreases n - i,
{
    if i < n {
        want_fault_stays(b, bi, i + 1, n);
    }
}

proof fn wants_fault_stays(bs: Seq<BranchTokens>, i: nat, n: nat)
    requires
        i <= n,
        wants_fault(bs, i) is Some,
    ensures
        wants_fault(bs, n) == wants_fault(bs, i),
    decreases n - i,
{
    if i < n {
        wants_fault_stays(bs, i + 1, n);
    }
}

proof fn id_fault_stays(ids: Seq<u32>, vocab: nat, i: nat, n: nat)
    requires
        i <= n,
        id_fault(ids, vocab, i) is Some,
    ensures
        id_fault(ids, vocab, n) == id_fault(ids, vocab, i),
    decreases n - i,
{
    if i < n {
        id_fault_stays(ids, vocab, i + 1, n);
    }
}

proof fn stream_grows(prefix: Seq<u32>, bs: Seq<BranchTokens>, i: nat, n: nat)
    requires
        i <= n <= bs.len(),
    ensures
        prefix.len() <= stream_ids(prefix, bs, i).len() <= stream_ids(prefix, bs, n).len(),
    decreases n,
{
    if n > 0 {
        if i < n {
            stream_grows(prefix, bs, i, (n - 1) as nat);
        } else {
            stream_grows(prefix, bs, (n - 1) as nat, (n - 1) as nat);
        }
    }
}

fn push_run(out: &mut Vec<i32>, start: usize, k: usize, seq: usize)
    requires
        start + k <= usize::MAX,
    ensures
        final(out)@ == old(out)@ + run_meta(start as nat, k as nat, seq as nat),
{
    let ghost before = out@;
    let mut j: usize = 0;
    assert(out@ =~= before + run_meta(start as nat, 0, seq as nat));
    while j < k
        invariant
            0 <= j <= k,
            start + k <= usize::MAX,
            out@ == before + run_meta(start as nat, j as nat, seq as nat),
        decreases k - j,
    {
        out.push((start + j) as i32);
        out.push(seq as i32);
        j += 1;
        assert(out@ =~= before + run_meta(start as nat, j as nat, seq as nat));
    }
}

fn total_tokens(prefix: &Vec<u32>, branches: &Vec<BranchTokens>) -> (r: usize)
    requires
        stream_ids(prefix@, branches@, branches@.len()).len() <= usize::MAX,
    ensures
        r == stream_ids(prefix@, branches@, branches@.len()).len(),
{
    let mut n: usize = prefix.len();
    let mut i: usize = 0;
    while i < branches.len()
        invariant
            0 <= i <= branches@.len(),
            stream_ids(prefix@, branches@, branches@.len()).len() <= usize::MAX,
            n == stream_ids(prefix@, branches@, i as nat).len(),
        decreases branches@.len() - i,
    {
        proof {
            stream_grows(prefix@, branches@, (i + 1) as nat, branches@.len());
        }
        n += branches[i].tokens.len();
        i += 1;
    }
    n
}

/// Packs a request: the prefix at positions 0.. in sequence 0, each branch
/// restarting at the end of the prefix in its own sequence.
pub fn pack_stream(
    prefix: &Vec<u32>,
    branches: &Vec<BranchTokens>,
    capacity: usize,
    max_rows: usize,
    vocab: usize,
) -> (r: Result<Stream, LoadError>)
    requires
        stream_ids(prefix@, branches@, branches@.len()).len() <= usize::MAX,
    ensures
        ({
            let fault = stream_fault(
                prefix@,
                branches@,
                capacity as nat,
                max_rows as nat,
                vocab as nat,
            );
            match r {
                Ok(s) => fault is None && s.ids@ == stream_ids(
                    prefix@,
                    branches@,
                    branches@.len(),
                ) && s.meta@ == stream_meta(prefix@.len(), branches@, branches@.len())
                    && s.wanted@ == stream_wanted(prefix@, branches@, branches@.len()),
                Err(e) => fault == Some(e@),
            }
        }),
{
    let p: usize = prefix.len();
    let total: usize = total_tokens(prefix, branches);
    if total > capacity {
        let mut m: String = String::new();
        push_decimal(&mut m, total as u64);
        m.append(" tokens exceed the engine capacity ");
        push_decimal(&mut m, capacity as u64);
        assert(m@ =~= decimal(total as nat) + " tokens exceed the engine capacity "@ + decimal(
            capacity as nat,
        ));
        return Err(LoadError::new(m));
    }
    if total == 0 {
        return Err(LoadError::of("empty request"));
    }
    let mut ids: Vec<u32> = prefix.clone();
    let mut meta: Vec<i32> = Vec::new();
    push_run(&mut meta, 0, p, 0);
    assert(meta@ =~= stream_meta(p as nat, branches@, 0));
    let mut wanted: Vec<(usize, usize, usize)> = Vec::new();
    assert(wanted@ =~= stream_wanted(prefix@, branches@, 0));
    let mut bi: usize = 0;
    while bi < branches.len()
        invariant
            0 <= bi <= branches@.len(),
            p == prefix@.len(),
            total == stream_ids(prefix@, branches@, branches@.len()).len(),
            0 < total <= capacity,
            ids@ == stream_ids(prefix@, branches@, bi as nat),
            meta@ == stream_meta(p as nat, branches@, bi as nat),
            wanted@ == stream_wanted(prefix@, branches@, bi as nat),
            wants_fault(branches@, bi as nat) is None,
        decreases branches@.len() - bi,
    {
        let b = &branches[bi];
        let start: usize = ids.len();
        proof {
            stream_grows(prefix@, branches@, bi as nat, (bi + 1) as nat);
            stream_grows(prefix@, branches@, (bi + 1) as nat, branches@.len());
            stream_grows(prefix@, branches@, 0, bi as nat);
        }
        let ghost before = ids@;
        let ghost own = branch_ids(*b);
        let mut j: usize = 0;
        assert(ids@ =~= before + own.take(0));
        while j < b.tokens.len()
            invariant
                0 <= j <= b.tokens@.len(),
                own == branch_ids(*b),
                ids@ == before + own.take(j as int),
            decreases b.tokens@.len() - j,
        {
            ids.push(b.tokens[j].0 as u32);
            j += 1;
            assert(ids@ =~= before + own.take(j as int));
        }
        assert(own.take(j as int) =~= own);
        push_run(&mut meta, p, b.tokens.len(), bi + 1);
        let ghost sofar = wanted@;
        let ghost more = Seq::new(
            b.want@.len(),
            |s: int| (bi, s as usize, (start + b.want@[s]) as usize),
        );
        let mut slot: usize = 0;
        assert(wanted@ =~= sofar + more.take(0));
        while slot < b.want.len()
            invariant
                0 <= slot <= b.want@.len(),
                bi < branches@.len(),
                *b == branches@[bi as int],
                start + b.tokens@.len() <= total,
                more == Seq::new(
                    b.want@.len(),
                    |s: int| (bi, s as usize, (start + b.want@[s]) as usize),
                ),
                wanted@ == sofar + more.take(slot as int),
                want_fault(*b, bi as nat, slot as nat) is None,
                wants_fault(branches@, bi as nat) is None,
                total == stream_ids(prefix@, branches@, branches@.len()).len(),
                0 < total <= capacity,
            decreases b.want@.len() - slot,
        {
            let w: usize = b.want[slot];
            if w >= b.tokens.len() {
                let mut m: String = "branch ".to_owned();
                push_decimal(&mut m, bi as u64);
                m.append(": wanted position ");
                push_decimal(&mut m, w as u64);
                m.append(" past its ");
                push_decimal(&mut m, b.tokens.len() as u64);
                m.append(" tokens");
                proof {
                    want_fault_stays(*b, bi as nat, (slot + 1) as nat, b.want@.len());
                    wants_fault_stays(branches@, (bi + 1) as nat, branches@.len());
                }
                return Err(LoadError::new(m));
            }
            wanted.push((bi, slot, start + w));
            slot += 1;
            assert(wanted@ =~= sofar + more.take(slot as int));
        }
        assert(more.take(slot as int) =~= more);
        bi += 1;
    }
    if wanted.len() > max_rows {
        let mut m: String = String::new();
        push_decimal(&mut m, wanted.len() as u64);
        m.append(" rows requested, engine reads back at most ");
        push_decimal(&mut m, max_rows as u64);
        assert(m@ =~= decimal(wanted@.len()) + " rows requested, engine reads back at most "@
            + decimal(max_rows as nat));
        return Err(LoadError::new(m));
    }
    match check_ids(&ids, vocab) {
        Ok(_) => {},
        Err(e) => {
            return Err(e);
        },
    }
    Ok(Stream { ids, meta, wanted })
}

/// Refuses ids outside the vocabulary.
pub(crate) fn check_ids(ids: &Vec<u32>, vocab: usize) -> (r: Result<(), LoadError>)
    ensures
        match r {
            Ok(_) => id_fault(ids@, vocab as nat, ids@.len()) is None,
            Err(e) => id_fault(ids@, vocab as nat, ids@.len()) == Some(e@),
        },
{
    let mut i: usize = 0;
    while i < ids.len()
        invariant
            0 <= i <= ids@.len(),
            id_fault(ids@, vocab as nat, i as nat) is None,
        decreases ids@.len() - i,
    {
        if ids[i] as usize >= vocab {
            let mut m: String = "token id ".to_owned();
            push_decimal(&mut m, ids[i] as u64);
            m.append(" outside the vocabulary of ");
            push_decimal(&mut m, vocab as u64);
            proof {
                id_fault_stays(ids@, vocab as nat, (i + 1) as nat, ids@.len());
            }
            return Err(LoadError::new(m));
        }
        i += 1;
    }
    Ok(())
}

/// Why per-layer rows do not fit a pass of `t` tokens, if they do not.
pub open spec fn per_layer_fault(c: Config, t: nat, rows: Option<nat>) -> Option<Seq<char>> {
    if c.per_layer_dim == 0 {
        None
    } else {
        let need = t * c.per_layer_dim as nat * c.layers as nat * 2;
        match rows {
            None => Some("per-layer embedding rows required"@),
            Some(n) => if n != need {
                Some("per-layer rows: "@ + decimal(n) + " bytes, expected "@ + decimal(need))
            } else {
                None
            },
        }
    }
}

/// Checks the per-layer rows of a pass of `t` tokens.
pub fn check_per_layer(c: &Config, t: usize, rows: Option<usize>) -> (r: Result<(), LoadError>)
    requires
        t * c.per_layer_dim * c.layers * 2 <= usize::MAX,
        t * c.per_layer_dim * c.layers <= usize::MAX,
        t * c.per_layer_dim <= usize::MAX,
    ensures
        ({
            let n = match rows {
                Some(n) => Some(n as nat),
                None => None,
            };
            match r {
                Ok(_) => per_layer_fault(*c, t as nat, n) is None,
                Err(e) => per_layer_fault(*c, t as nat, n) == Some(e@),
            }
        }),
{
    if c.per_layer_dim == 0 {
        return Ok(());
    }
    let need: usize = t * c.per_layer_dim * c.layers * 2;
    match rows {
        None => Err(LoadError::of("per-layer embedding rows required")),
        Some(n) => {
            if n != need {
                let mut m: String = "per-layer rows: ".to_owned();
                push_decimal(&mut m, n as u64);
                m.append(" bytes, expected ");
                push_decimal(&mut m, need as u64);
                return Err(LoadError::new(m));
            }
            Ok(())
        },
    }
}

/// The rows of the first `n` branches.
pub open spec fn want_count(bs: Seq<BranchTokens>, n: nat) -> nat
    decreases n,
{
    if n == 0 {
        0
    } else {
        want_count(bs, (n - 1) as nat) + bs[n - 1].want@.len()
    }
}

/// Row `r` of the read-back data.
pub open spec fn row_of(data: Seq<u32>, width: nat, r: nat) -> Seq<u32> {
    data.subrange((r * width) as int, (r * width + width) as int)
}

/// The rows of every branch, out of the rows of a pass.
pub open spec fn rows_split(
    outs: Seq<BranchOutput>,
    data: Seq<u32>,
    width: nat,
    bs: Seq<BranchTokens>,
) -> bool {
    &&& outs.len() == bs.len()
    &&& forall|b: int| 0 <= b < bs.len() ==> (#[trigger] outs[b]).rows@.len() == bs[b].want@.len()
    &&& forall|b: int, s: int|
        0 <= b < bs.len() && 0 <= s < bs[b].want@.len() ==> (#[trigger] outs[b].rows@[s])@
            == row_of(data, width, want_count(bs, b as nat) + s as nat)
}

proof fn want_count_grows(bs: Seq<BranchTokens>, i: nat, n: nat)
    requires
        i <= n <= bs.len(),
    ensures
        want_count(bs, i) <= want_count(bs, n),
    decreases n - i,
{
    if i < n {
        want_count_grows(bs, i + 1, n);
    }
}

/// Hands the rows of a pass back to their branches, in the order in which
/// they were wanted.
pub fn split_rows(data: &Vec<u32>, width: usize, branches: &Vec<BranchTokens>) -> (r: Vec<
    BranchOutput,
>)
    requires
        want_count(branches@, branches@.len()) * width <= data@.len(),
    ensures
        rows_split(r@, data@, width as nat, branches@),
{
    let ghost bs = branches@;
    let len: usize = data.len();
    let mut outs: Vec<BranchOutput> = Vec::new();
    let mut at: usize = 0;
    let mut bi: usize = 0;
    assert(0 * width == 0) by (nonlinear_arith);
    while bi < branches.len()
        invariant
            0 <= bi <= bs.len(),
            bs == branches@,
            len == data@.len(),
            want_count(bs, bs.len()) * width <= len,
            at == want_count(bs, bi as nat) * width,
            outs@.len() == bi,
            forall|b: int|
                0 <= b < bi ==> (#[trigger] outs@[b]).rows@.len() == bs[b].want@.len(),
            forall|b: int, s: int|
                0 <= b < bi && 0 <= s < bs[b].want@.len() ==> (#[trigger] outs@[b].rows@[s])@
                    == row_of(data@, width as nat, want_count(bs, b as nat) + s as nat),
        decreases bs.len() - bi,
    {
        let n: usize = branches[bi].want.len();
        let mut rows: Vec<Vec<u32>> = Vec::new();
        let mut s: usize = 0;
        let ghost base = want_count(bs, bi as nat);
        while s < n
            invariant
                0 <= s <= n,
                bi < bs.len(),
                bs == branches@,
                n == bs[bi as int].want@.len(),
                len == data@.len(),
                want_count(bs, bs.len()) * width <= len,
                base == want_count(bs, bi as nat),
                at == (base + s) * width,
                rows@.len() == s,
                forall|x: int|
                    0 <= x < s ==> (#[trigger] rows@[x])@ == row_of(
                        data@,
                        width as nat,
                        base + x as nat,
                    ),
            decreases n - s,
        {
            proof {
                want_count_grows(bs, (bi + 1) as nat, bs.len());
                let r = (base + s) as nat;
                let all = want_count(bs, bs.len());
                assert(r + 1 <= all);
                assert(r * width + width <= all * width) by (nonlinear_arith)
                    requires
                        r + 1 <= all,
                ;
                assert((r + 1) * width == r * width + width) by (nonlinear_arith);
            }
            let end: usize = at + width;
            let row = vstd::slice::slice_to_vec(
                vstd::slice::slice_subrange(data.as_slice(), at, end),
            );
            assert(row@ =~= row_of(data@, width as nat, (base + s) as nat));
            rows.push(row);
            at = end;
            s += 1;
        }
        outs.push(BranchOutput { rows });
        bi += 1;
    }
    outs
}

proof fn meta_len(p: nat, prefix: Seq<u32>, bs: Seq<BranchTokens>, n: nat)
    requires
        p == prefix.len(),
        n <= bs.len(),
    ensures
        stream_meta(p, bs, n).len() == 2 * stream_ids(prefix, bs, n).len(),
    decreases n,
{
    if n > 0 {
        meta_len(p, prefix, bs, (n - 1) as nat);
    }
}

proof fn stream_keeps(prefix: Seq<u32>, bs: Seq<BranchTokens>, i: nat, n: nat, x: int)
    requires
        i <= n <= bs.len(),
        0 <= x < stream_ids(prefix, bs, i).len(),
    ensures
        stream_ids(prefix, bs, n).len() >= stream_ids(prefix, bs, i).len(),
        stream_ids(prefix, bs, n)[x] == stream_ids(prefix, bs, i)[x],
        stream_meta(prefix.len(), bs, n)[2 * x] == stream_meta(prefix.len(), bs, i)[2 * x],
        stream_meta(prefix.len(), bs, n)[2 * x + 1] == stream_meta(prefix.len(), bs, i)[2 * x + 1],
    decreases n - i,
{
    meta_len(prefix.len(), prefix, bs, i);
    if i < n {
        meta_len(prefix.len(), prefix, bs, i + 1);
        stream_keeps(prefix, bs, i + 1, n, x);
    }
}

/// Branches are isolated: a token of the prefix stands at its own place in
/// sequence 0, and token `j` of branch `b` stands at the end of the prefix
/// plus `j` in sequence `b + 1`, whatever the other branches hold.
pub proof fn branches_are_isolated(prefix: Seq<u32>, bs: Seq<BranchTokens>, b: int, j: int)
    requires
        stream_ids(prefix, bs, bs.len()).len() <= i32::MAX,
        bs.len() < i32::MAX,
        0 <= b < bs.len(),
        0 <= j < bs[b].tokens@.len(),
    ensures
        ({
            let ids = stream_ids(prefix, bs, bs.len());
            let meta = stream_meta(prefix.len(), bs, bs.len());
            let x = stream_ids(prefix, bs, b as nat).len() + j;
            &&& x < ids.len()
            &&& ids[x] == bs[b].tokens@[j].0 as u32
            &&& meta[2 * x] == prefix.len() + j
            &&& meta[2 * x + 1] == b + 1
            &&& forall|i: int|
                0 <= i < prefix.len() ==> #[trigger] ids[i] == prefix[i] && meta[2 * i] == i
                    && meta[2 * i + 1] == 0
        }),
{
    let ids = stream_ids(prefix, bs, bs.len());
    let meta = stream_meta(prefix.len(), bs, bs.len());
    let n = (b + 1) as nat;
    let start = stream_ids(prefix, bs, b as nat).len();
    let x = start + j;
    meta_len(prefix.len(), prefix, bs, b as nat);
    stream_keeps(prefix, bs, n, bs.len(), x);
    stream_grows(prefix, bs, 0, b as nat);
    assert((2 * j) / 2 == j && (2 * j) % 2 == 0 && (2 * j + 1) % 2 == 1);
    let run = run_meta(prefix.len(), bs[b].tokens@.len(), n);
    assert(stream_meta(prefix.len(), bs, n)[2 * x] == run[2 * j]);
    assert(stream_meta(prefix.len(), bs, n)[2 * x + 1] == run[2 * j + 1]);
    assert forall|i: int| 0 <= i < prefix.len() implies #[trigger] ids[i] == prefix[i] && meta[2
        * i] == i && meta[2 * i + 1] == 0 by {
        stream_keeps(prefix, bs, 0, bs.len(), i);
        assert((2 * i) / 2 == i && (2 * i) % 2 == 0 && (2 * i + 1) % 2 == 1);
    }
}

/// Token `y` of a stream is visible to token `x`: it is of the prefix or of
/// the same sequence, and at no later position.
pub open spec fn visible(meta: Seq<i32>, x: int, y: int) -> bool {
    (meta[2 * y + 1] == 0 || meta[2 * y + 1] == meta[2 * x + 1]) && meta[2 * y] <= meta[2 * x]
}

/// What token `x` sees of the first `n` tokens of a stream: ids and positions.
pub open spec fn sees(ids: Seq<u32>, meta: Seq<i32>, x: int, n: nat) -> Seq<(u32, i32)>
    decreases n,
{
    if n == 0 {
        Seq::empty()
    } else {
        let s = sees(ids, meta, x, (n - 1) as nat);
        if visible(meta, x, n - 1) {
            s.push((ids[n - 1], meta[2 * (n - 1)]))
        } else {
            s
        }
    }
}

/// What token `j` of a branch sees when nothing but its prefix stands before
/// the branch.
pub open spec fn sees_alone(prefix: Seq<u32>, tokens: Seq<Token>, j: int) -> Seq<(u32, i32)> {
    Seq::new(
        (prefix.len() + j + 1) as nat,
        |i: int|
            (
                if i < prefix.len() {
                    prefix[i]
                } else {
                    tokens[i - prefix.len()].0 as u32
                },
                i as i32,
            ),
    )
}

proof fn later_sequences(prefix: Seq<u32>, bs: Seq<BranchTokens>, lo: nat, n: nat, y: int)
    requires
        lo <= n <= bs.len() < i32::MAX,
        stream_ids(prefix, bs, lo).len() <= y < stream_ids(prefix, bs, n).len(),
    ensures
        lo < stream_meta(prefix.len(), bs, n)[2 * y + 1] <= n,
    decreases n,
{
    let m = (n - 1) as nat;
    let start = stream_ids(prefix, bs, m).len();
    meta_len(prefix.len(), prefix, bs, m);
    if y < start {
        if lo == n {
            stream_grows(prefix, bs, m, n);
        }
        later_sequences(prefix, bs, lo, m, y);
        stream_keeps(prefix, bs, m, n, y);
    } else {
        let j = y - start;
        let run = run_meta(prefix.len(), bs[m as int].tokens@.len(), n);
        assert((2 * j + 1) % 2 == 1);
        assert(stream_meta(prefix.len(), bs, n)[2 * y + 1] == run[2 * j + 1]);
    }
}

proof fn branch_sees(prefix: Seq<u32>, bs: Seq<BranchTokens>, b: int, j: int, n: nat)
    requires
        stream_ids(prefix, bs, bs.len()).len() <= i32::MAX,
        bs.len() < i32::MAX,
        0 <= b < bs.len(),
        0 <= j < bs[b].tokens@.len(),
        n <= stream_ids(prefix, bs, bs.len()).len(),
    ensures
        ({
            let ids = stream_ids(prefix, bs, bs.len());
            let meta = stream_meta(prefix.len(), bs, bs.len());
            let start = stream_ids(prefix, bs, b as nat).len();
            let p = prefix.len();
            let seen = if n <= p {
                n as int
            } else if n <= start {
                p as int
            } else if n - start <= j + 1 {
                p + (n - start)
            } else {
                p + j + 1
            };
            sees(ids, meta, start + j, n) == sees_alone(prefix, bs[b].tokens@, j).take(seen)
        }),
    decreases n,
{
    let ids = stream_ids(prefix, bs, bs.len());
    let meta = stream_meta(prefix.len(), bs, bs.len());
    let start = stream_ids(prefix, bs, b as nat).len();
    let end = stream_ids(prefix, bs, (b + 1) as nat).len();
    let p = prefix.len();
    let all = sees_alone(prefix, bs[b].tokens@, j);
    stream_grows(prefix, bs, 0, b as nat);
    if n > 0 {
        let y = n - 1;
        let before = sees(ids, meta, start + j, (n - 1) as nat);
        branch_sees(prefix, bs, b, j, (n - 1) as nat);
        branches_are_isolated(prefix, bs, b, j);
        if y < p {
            assert(ids[y] == prefix[y]);
            assert(meta[2 * y] == y && meta[2 * y + 1] == 0);
            assert(before.push((ids[y], meta[2 * y])) =~= all.take(n as int));
        } else if start <= y < end {
            branches_are_isolated(prefix, bs, b, y - start);
            if y - start <= j {
                assert(before.push((ids[y], meta[2 * y])) =~= all.take(p + (n - start)));
            }
        } else if y < start {
            later_sequences(prefix, bs, 0, b as nat, y);
            stream_keeps(prefix, bs, b as nat, bs.len(), y);
        } else {
            later_sequences(prefix, bs, (b + 1) as nat, bs.len(), y);
        }
    } else {
        assert(all.take(0) =~= Seq::empty());
    }
}

/// What a token of a branch sees depends on the prefix and on its branch
/// alone, whatever other branches stand in the stream.
pub proof fn tokens_see_their_branch_alone(
    prefix: Seq<u32>,
    bs: Seq<BranchTokens>,
    b: int,
    j: int,
)
    requires
        stream_ids(prefix, bs, bs.len()).len() <= i32::MAX,
        bs.len() < i32::MAX,
        0 <= b < bs.len(),
        0 <= j < bs[b].tokens@.len(),
    ensures
        sees(
            stream_ids(prefix, bs, bs.len()),
            stream_meta(prefix.len(), bs, bs.len()),
            stream_ids(prefix, bs, b as nat).len() + j,
            stream_ids(prefix, bs, bs.len()).len(),
        ) == sees_alone(prefix, bs[b].tokens@, j),
{
    let total = stream_ids(prefix, bs, bs.len()).len();
    let all = sees_alone(prefix, bs[b].tokens@, j);
    branch_sees(prefix, bs, b, j, total);
    stream_grows(prefix, bs, 0, b as nat);
    stream_grows(prefix, bs, (b + 1) as nat, bs.len());
    assert(all.take(all.len() as int) =~= all);
}

/// Every row of a pass over a stream is computed by `row` from what its token
/// sees.
pub open spec fn rows_computed(
    data: Seq<u32>,
    width: nat,
    prefix: Seq<u32>,
    bs: Seq<BranchTokens>,
    row: spec_fn(Seq<(u32, i32)>) -> Seq<u32>,
) -> bool {
    let ids = stream_ids(prefix, bs, bs.len());
    let meta = stream_meta(prefix.len(), bs, bs.len());
    let wanted = stream_wanted(prefix, bs, bs.len());
    forall|r: int|
        0 <= r < wanted.len() ==> row_of(data, width, r as nat) == row(
            sees(ids, meta, (#[trigger] wanted[r]).2 as int, ids.len()),
        )
}

proof fn wanted_places(prefix: Seq<u32>, bs: Seq<BranchTokens>, b: int, s: int, n: nat)
    requires
        0 <= b < n <= bs.len(),
        0 <= s < bs[b].want@.len(),
    ensures
        stream_wanted(prefix, bs, n).len() == want_count(bs, n),
        want_count(bs, b as nat) + s < want_count(bs, n),
        stream_wanted(prefix, bs, n)[want_count(bs, b as nat) + s].2 == (stream_ids(
            prefix,
            bs,
            b as nat,
        ).len() + bs[b].want@[s]) as usize,
    decreases n,
{
    wanted_len(prefix, bs, (n - 1) as nat);
    if b < n - 1 {
        wanted_places(prefix, bs, b, s, (n - 1) as nat);
    }
}

proof fn wanted_len(prefix: Seq<u32>, bs: Seq<BranchTokens>, n: nat)
    requires
        n <= bs.len(),
    ensures
        stream_wanted(prefix, bs, n).len() == want_count(bs, n),
    decreases n,
{
    if n > 0 {
        wanted_len(prefix, bs, (n - 1) as nat);
    }
}

proof fn no_want_fault_at(bs: Seq<BranchTokens>, n: nat, b: int, s: int)
    requires
        0 <= b < n <= bs.len(),
        0 <= s < bs[b].want@.len(),
        wants_fault(bs, n) is None,
    ensures
        bs[b].want@[s] < bs[b].tokens@.len(),
    decreases n,
{
    if b < n - 1 {
        no_want_fault_at(bs, (n - 1) as nat, b, s);
    } else {
        no_want_fault_in(bs[b], b as nat, bs[b].want@.len(), s);
    }
}

proof fn no_want_fault_in(b: BranchTokens, bi: nat, n: nat, s: int)
    requires
        0 <= s < n <= b.want@.len(),
        want_fault(b, bi, n) is None,
    ensures
        b.want@[s] < b.tokens@.len(),
    decreases n,
{
    if s < n - 1 {
        no_want_fault_in(b, bi, (n - 1) as nat, s);
    }
}

/// The rows of a branch, where each is computed from what its token sees.
proof fn branch_rows(
    prefix: Seq<u32>,
    bs: Seq<BranchTokens>,
    data: Seq<u32>,
    width: nat,
    outs: Seq<BranchOutput>,
    row: spec_fn(Seq<(u32, i32)>) -> Seq<u32>,
    b: int,
    s: int,
)
    requires
        stream_ids(prefix, bs, bs.len()).len() <= i32::MAX,
        bs.len() < i32::MAX,
        wants_fault(bs, bs.len()) is None,
        rows_computed(data, width, prefix, bs, row),
        rows_split(outs, data, width, bs),
        0 <= b < bs.len(),
        0 <= s < bs[b].want@.len(),
    ensures
        outs[b].rows@[s]@ == row(sees_alone(prefix, bs[b].tokens@, bs[b].want@[s] as int)),
{
    let j = bs[b].want@[s] as int;
    no_want_fault_at(bs, bs.len(), b, s);
    wanted_places(prefix, bs, b, s, bs.len());
    tokens_see_their_branch_alone(prefix, bs, b, j);
    branches_are_isolated(prefix, bs, b, j);
    let r = want_count(bs, b as nat) + s;
    let wanted = stream_wanted(prefix, bs, bs.len());
    assert(wanted[r].2 == stream_ids(prefix, bs, b as nat).len() + j);
}

/// A branch's rows do not depend on the other branches of its pass: in two
/// passes over one prefix that both hold the branch, each row computed from
/// what its token sees, the branch is handed the same rows.
pub proof fn rows_do_not_depend_on_the_other_branches(
    prefix: Seq<u32>,
    width: nat,
    row: spec_fn(Seq<(u32, i32)>) -> Seq<u32>,
    bs1: Seq<BranchTokens>,
    data1: Seq<u32>,
    outs1: Seq<BranchOutput>,
    b1: int,
    bs2: Seq<BranchTokens>,
    data2: Seq<u32>,
    outs2: Seq<BranchOutput>,
    b2: int,
)
    requires
        stream_ids(prefix, bs1, bs1.len()).len() <= i32::MAX,
        stream_ids(prefix, bs2, bs2.len()).len() <= i32::MAX,
        bs1.len() < i32::MAX,
        bs2.len() < i32::MAX,
        wants_fault(bs1, bs1.len()) is None,
        wants_fault(bs2, bs2.len()) is None,
        rows_computed(data1, width, prefix, bs1, row),
        rows_computed(data2, width, prefix, bs2, row),
        rows_split(outs1, data1, width, bs1),
        rows_split(outs2, data2, width, bs2),
        0 <= b1 < bs1.len(),
        0 <= b2 < bs2.len(),
        bs1[b1]@ == bs2[b2]@,
    ensures
        outs1[b1].rows@.len() == bs1[b1].want@.len(),
        outs1[b1].rows@.len() == outs2[b2].rows@.len(),
        forall|s: int|
            0 <= s < outs1[b1].rows@.len() ==> (#[trigger] outs1[b1].rows@[s])@
                == outs2[b2].rows@[s]@,
{
    assert forall|s: int| 0 <= s < outs1[b1].rows@.len() implies (#[trigger] outs1[b1].rows@[s])@
        == outs2[b2].rows@[s]@ by {
        branch_rows(prefix, bs1, data1, width, outs1, row, b1, s);
        branch_rows(prefix, bs2, data2, width, outs2, row, b2, s);
    }
}

proof fn opening_fits(c: Config, dtypes: Seq<(Seq<char>, Dtype)>)
    ensures
        all_fit(opening_wires(c, dtypes)),
{
    let ws = opening_wires(c, dtypes);
    assert(fits_kernel(ws[0]));
    if c.per_layer_dim > 0 {
        assert(fits_kernel(ws[1]));
        assert(fits_kernel(ws[2]));
    }
}

proof fn layer_fits(c: Config, dtypes: Seq<(Seq<char>, Dtype)>, l: int)
    ensures
        all_fit(layer_wires(c, dtypes, l)),
{
    let ws = layer_wires(c, dtypes, l);
    assert(fits_kernel(ws[0]) && fits_kernel(ws[1]) && fits_kernel(ws[2]) && fits_kernel(ws[3]));
    assert(fits_kernel(ws[4]) && fits_kernel(ws[5]) && fits_kernel(ws[6]) && fits_kernel(ws[7]));
    assert(fits_kernel(ws[8]) && fits_kernel(ws[9]));
    if c.per_layer_dim > 0 {
        assert(fits_kernel(ws[10]) && fits_kernel(ws[11]));
        assert(fits_kernel(ws[12]) && fits_kernel(ws[13]));
    }
}

proof fn upto_fits(c: Config, dtypes: Seq<(Seq<char>, Dtype)>, n: nat)
    ensures
        all_fit(wires_upto(c, dtypes, n)),
    decreases n,
{
    if n == 0 {
        opening_fits(c, dtypes);
    } else {
        upto_fits(c, dtypes, (n - 1) as nat);
        layer_fits(c, dtypes, n - 1);
        fits_together(wires_upto(c, dtypes, (n - 1) as nat), layer_wires(c, dtypes, n - 1));
    }
}

/// Every dispatch of a pass binds as many buffers as its kernel takes.
pub proof fn wires_fit_their_kernels(c: Config, dtypes: Seq<(Seq<char>, Dtype)>)
    ensures
        all_fit(all_wires(c, dtypes)),
{
    upto_fits(c, dtypes, c.layers as nat);
    let before = wires_upto(c, dtypes, c.layers as nat);
    let ws = all_wires(c, dtypes);
    assert forall|i: int| 0 <= i < ws.len() implies fits_kernel(#[trigger] ws[i]) by {
        if i < before.len() {
            assert(ws[i] == before[i]);
        } else if i == before.len() {
            assert(fits_kernel(ws[before.len() as int]));
        } else {
            assert(fits_kernel(ws[before.len() as int + 1]));
        }
    }
}

proof fn layer_suits(c: Config, dtypes: Seq<(Seq<char>, Dtype)>, t: nat, l: int)
    requires
        widths_fit(c),
        0 <= l < c.layers,
        stored(dtypes, layer_name(l, "gate"@)) == stored(dtypes, layer_name(l, "up"@)),
    ensures
        all_suit(layer_tensors(c, l), layer_launches(c, t, l), layer_wires(c, dtypes, l)),
{
    let ts = layer_tensors(c, l);
    let ds = layer_launches(c, t, l);
    let ws = layer_wires(c, dtypes, l);
    let k: int = if own_kv(c, l) {
        1
    } else {
        0
    };
    let hd = c.head_dim@[l];
    assert((c.heads + 2 * c.kv_heads) * hd <= usize::MAX);
    assert(0 <= c.heads * hd <= (c.heads + 2 * c.kv_heads) * hd) by (nonlinear_arith)
        requires
            0 <= c.heads,
            0 <= c.kv_heads,
            0 <= hd,
    ;
    assert(ts[0].0 == layer_name(l, "attn_norm"@) && ts[0].1 =~= seq![c.d]);
    assert(ts[1].0 == layer_name(l, "qkv"@) && ts[1].1 =~= seq![qkv_of(c, l) as usize, c.d]);
    assert(ts[3 + k].0 == layer_name(l, "o"@) && ts[3 + k].1 =~= seq![
        c.d,
        (c.heads * hd) as usize,
    ]);
    assert(ts[4 + k].0 == layer_name(l, "post_attn_norm"@) && ts[4 + k].1 =~= seq![c.d]);
    assert(ts[5 + k].0 == layer_name(l, "ffn_norm"@) && ts[5 + k].1 =~= seq![c.d]);
    assert(ts[6 + k].0 == layer_name(l, "gate"@) && ts[6 + k].1 =~= seq![c.ff@[l], c.d]);
    assert(ts[7 + k].0 == layer_name(l, "up"@) && ts[7 + k].1 =~= seq![c.ff@[l], c.d]);
    assert(ts[8 + k].0 == layer_name(l, "down"@) && ts[8 + k].1 =~= seq![c.d, c.ff@[l]]);
    assert(ts[9 + k].0 == layer_name(l, "post_ffn_norm"@) && ts[9 + k].1 =~= seq![c.d]);
    reveal_strlit("gate");
    reveal_strlit("up");
    assert(layer_name(l, "gate"@).len() != layer_name(l, "up"@).len());
    assert(suits(ts, ds[0], ws[0]));
    assert(suits(ts, ds[1], ws[1]));
    assert(suits(ts, ds[2], ws[2]));
    assert(suits(ts, ds[3], ws[3]));
    assert(suits(ts, ds[4], ws[4]));
    assert(suits(ts, ds[5], ws[5]));
    assert(suits(ts, ds[6], ws[6]));
    assert(suits(ts, ds[7], ws[7]));
    assert(suits(ts, ds[8], ws[8]));
    assert(suits(ts, ds[9], ws[9]));
    if c.per_layer_dim > 0 {
        let p = c.per_layer_dim;
        assert(ts[10 + k].0 == layer_name(l, "pl_gate"@) && ts[10 + k].1 =~= seq![p, c.d]);
        assert(ts[11 + k].0 == layer_name(l, "pl_proj"@) && ts[11 + k].1 =~= seq![c.d, p]);
        assert(ts[12 + k].0 == layer_name(l, "pl_norm"@) && ts[12 + k].1 =~= seq![c.d]);
        assert(suits(ts, ds[10], ws[10]));
        assert(suits(ts, ds[11], ws[11]));
        assert(suits(ts, ds[12], ws[12]));
        assert(suits(ts, ds[13], ws[13]));
    }
}

proof fn opening_suits(c: Config, dtypes: Seq<(Seq<char>, Dtype)>, t: nat)
    requires
        widths_fit(c),
    ensures
        all_suit(top_tensors(c), opening_launches(c, t), opening_wires(c, dtypes)),
{
    let ts = top_tensors(c);
    let ds = opening_launches(c, t);
    let ws = opening_wires(c, dtypes);
    assert(ts[0].0 == "embed"@ && ts[0].1 =~= seq![c.vocab, c.d]);
    assert(suits(ts, ds[0], ws[0]));
    if c.per_layer_dim > 0 {
        assert(ts[2].0 == "pl_model_proj"@ && ts[2].1 =~= seq![
            (c.per_layer_dim * c.layers) as usize,
            c.d,
        ]);
        assert(ts[3].0 == "pl_proj_norm"@ && ts[3].1 =~= seq![c.per_layer_dim]);
        assert(suits(ts, ds[1], ws[1]));
        assert(suits(ts, ds[2], ws[2]));
    }
}

proof fn closing_suits(
    c: Config,
    dtypes: Seq<(Seq<char>, Dtype)>,
    t: nat,
    rows: nat,
    want: Want,
)
    ensures
        all_suit(
            top_tensors(c),
            closing_launches(c, t, rows, want),
            if want == Want::Logits {
                closing_wires(dtypes)
            } else {
                closing_wires(dtypes).drop_last()
            },
        ),
{
    let ts = top_tensors(c);
    let ds = closing_launches(c, t, rows, want);
    let ws = closing_wires(dtypes);
    assert(ts[0].0 == "embed"@ && ts[0].1 =~= seq![c.vocab, c.d]);
    assert(ts[1].0 == "final_norm"@ && ts[1].1 =~= seq![c.d]);
    assert(suits(ts, ds[0], ws[0]));
    if want == Want::Logits {
        assert(suits(ts, ds[1], ws[1]));
    }
}

proof fn layers_suit(c: Config, dtypes: Seq<(Seq<char>, Dtype)>, t: nat, n: nat)
    requires
        widths_fit(c),
        n <= c.layers,
        wiring_fault(c, dtypes, n) is None,
    ensures
        all_suit(catalogue(c, n), launches_upto(c, t, n), wires_upto(c, dtypes, n)),
        listed(top_tensors(c), catalogue(c, n)),
    decreases n,
{
    if n == 0 {
        opening_suits(c, dtypes, t);
    } else {
        let m = (n - 1) as nat;
        layers_suit(c, dtypes, t, m);
        layer_suits(c, dtypes, t, m as int);
        let before = catalogue(c, m);
        let here = layer_tensors(c, m as int);
        listed_next(top_tensors(c), before, here);
        listed_next(before, before, here);
        all_still_suit(
            before,
            catalogue(c, n),
            launches_upto(c, t, m),
            wires_upto(c, dtypes, m),
        );
        all_still_suit(
            here,
            catalogue(c, n),
            layer_launches(c, t, m as int),
            layer_wires(c, dtypes, m as int),
        );
        joined_suit(
            catalogue(c, n),
            launches_upto(c, t, m),
            wires_upto(c, dtypes, m),
            layer_launches(c, t, m as int),
            layer_wires(c, dtypes, m as int),
        );
    }
}

/// Every launch of a pass tells the truth about what its wire binds: every
/// matmul is as wide and deep as the weight that the catalogue lists under the
/// bound name, every norm has its weight's length, adds to the residual stream
/// exactly where it writes the stream, and overwrites exactly where it writes
/// `h`.
pub proof fn launches_suit_the_wiring(
    c: Config,
    dtypes: Seq<(Seq<char>, Dtype)>,
    t: nat,
    rows: nat,
    want: Want,
)
    requires
        widths_fit(c),
        wiring_fault(c, dtypes, c.layers as nat) is None,
    ensures
        all_suit(
            catalogue(c, c.layers as nat),
            all_launches(c, t, rows, want),
            if want == Want::Logits {
                all_wires(c, dtypes)
            } else {
                all_wires(c, dtypes).drop_last()
            },
        ),
{
    let cat = catalogue(c, c.layers as nat);
    layers_suit(c, dtypes, t, c.layers as nat);
    closing_suits(c, dtypes, t, rows, want);
    let before = wires_upto(c, dtypes, c.layers as nat);
    let closing = closing_wires(dtypes);
    let ws = if want == Want::Logits {
        closing
    } else {
        closing.drop_last()
    };
    all_still_suit(top_tensors(c), cat, closing_launches(c, t, rows, want), ws);
    joined_suit(
        cat,
        launches_upto(c, t, c.layers as nat),
        before,
        closing_launches(c, t, rows, want),
        ws,
    );
    assert((before + closing).drop_last() =~= before + closing.drop_last());
}

/// A norm that is launched adds to what it writes exactly where that is the
/// residual stream, and overwrites it exactly where it is `h`.
pub proof fn norms_add_to_the_stream_alone(
    c: Config,
    dtypes: Seq<(Seq<char>, Dtype)>,
    t: nat,
    rows: nat,
    want: Want,
    i: int,
)
    requires
        widths_fit(c),
        wiring_fault(c, dtypes, c.layers as nat) is None,
        0 <= i < all_launches(c, t, rows, want).len(),
        all_launches(c, t, rows, want)[i].block is Norm,
    ensures
        ({
            let residual = all_launches(c, t, rows, want)[i].block->Norm_residual;
            let dst = all_wires(c, dtypes)[i].bufs[2];
            &&& residual == 1 <==> dst == BufView::Work(Work::X)
            &&& residual == 0 <==> dst == BufView::Work(Work::H)
            &&& dst == BufView::Work(Work::X) || dst == BufView::Work(Work::H)
        }),
{
    launches_suit_the_wiring(c, dtypes, t, rows, want);
    let ws = if want == Want::Logits {
        all_wires(c, dtypes)
    } else {
        all_wires(c, dtypes).drop_last()
    };
    let ds = all_launches(c, t, rows, want);
    assert(suits(catalogue(c, c.layers as nat), ds[i], ws[i]));
    assert(ws[i] == all_wires(c, dtypes)[i]);
    reads_and_writes_differ(c, dtypes, c.layers as nat);
    assert(all_wires(c, dtypes)[i].kernel is Norm);
}

/// A norm writes the stream or `h`.
pub open spec fn norms_write_stream_or_h(ws: Seq<WireView>) -> bool {
    forall|i: int|
        0 <= i < ws.len() && (#[trigger] ws[i]).kernel is Norm ==> ws[i].bufs[2] == BufView::Work(
            Work::X,
        ) || ws[i].bufs[2] == BufView::Work(Work::H)
}

proof fn reads_and_writes_differ(c: Config, dtypes: Seq<(Seq<char>, Dtype)>, n: nat)
    ensures
        norms_write_stream_or_h(wires_upto(c, dtypes, n)),
        norms_write_stream_or_h(wires_upto(c, dtypes, n) + closing_wires(dtypes)),
    decreases n,
{
    if n > 0 {
        reads_and_writes_differ(c, dtypes, (n - 1) as nat);
        let a = wires_upto(c, dtypes, (n - 1) as nat);
        let b = layer_wires(c, dtypes, n - 1);
        assert(norms_write_stream_or_h(b));
        assert forall|i: int|
            0 <= i < (a + b).len() && (#[trigger] (a + b)[i]).kernel is Norm implies (a
            + b)[i].bufs[2] == BufView::Work(Work::X) || (a + b)[i].bufs[2] == BufView::Work(
            Work::H,
        ) by {
            if i >= a.len() {
                assert((a + b)[i] == b[i - a.len()]);
            } else {
                assert((a + b)[i] == a[i]);
            }
        }
    }
}

/// Within a layer every dispatch reads what the one before it wrote; the first
/// reads the residual stream and the last writes it.
pub proof fn a_layer_is_a_chain(c: Config, dtypes: Seq<(Seq<char>, Dtype)>, l: int, i: int)
    requires
        0 <= i < layer_wires(c, dtypes, l).len() - 1,
    ensures
        ({
            let ws = layer_wires(c, dtypes, l);
            &&& feeds(ws[i], ws[i + 1])
            &&& ws[0].bufs[0] == BufView::Work(Work::X)
            &&& ws.last().bufs.last() == BufView::Work(Work::X)
        }),
{
    let ws = layer_wires(c, dtypes, l);
    if i == 0 {
        assert(ws[0].bufs[2] == ws[1].bufs[0]);
    } else if i == 1 {
        assert(ws[1].bufs[3] == ws[2].bufs[0]);
    } else if i == 2 {
        assert(ws[2].bufs[0] == ws[3].bufs[0]);
    } else if i == 3 {
        assert(ws[3].bufs[3] == ws[4].bufs[0]);
    } else if i == 4 {
        assert(ws[4].bufs[3] == ws[5].bufs[0]);
    } else if i == 5 {
        assert(ws[5].bufs[2] == ws[6].bufs[0]);
    } else if i == 6 {
        assert(ws[6].bufs[2] == ws[7].bufs[0]);
    } else if i == 7 {
        assert(ws[7].bufs[5] == ws[8].bufs[0]);
    } else if i == 8 {
        assert(ws[8].bufs[3] == ws[9].bufs[0]);
    } else if i == 9 {
        assert(ws[9].bufs[2] == ws[10].bufs[0]);
    } else if i == 10 {
        assert(ws[10].bufs[3] == ws[11].bufs[1]);
    } else if i == 11 {
        assert(ws[11].bufs[1] == ws[12].bufs[0]);
    } else {
        assert(ws[12].bufs[3] == ws[13].bufs[0]);
    }
}

/// The names of tensors.
pub open spec fn names_of(ts: Seq<NamedShape>) -> Seq<Seq<char>> {
    ts.map_values(|e: NamedShape| e.0)
}

/// A layer reads its own weights, every one once and in the order of the
/// catalogue; its output scale alone is not read from a buffer.
pub proof fn a_layer_reads_its_weights_in_order(
    c: Config,
    dtypes: Seq<(Seq<char>, Dtype)>,
    l: int,
)
    ensures
        weights_read(layer_wires(c, dtypes, l)) == names_of(
            if c.per_layer_dim > 0 {
                layer_tensors(c, l).drop_last()
            } else {
                layer_tensors(c, l)
            },
        ),
{
    let ws = layer_wires(c, dtypes, l);
    weights_of_next(ws, 0);
    weights_of_next(ws, 1);
    weights_of_next(ws, 2);
    weights_of_next(ws, 3);
    weights_of_next(ws, 4);
    weights_of_next(ws, 5);
    weights_of_next(ws, 6);
    weights_of_next(ws, 7);
    weights_of_next(ws, 8);
    weights_of_next(ws, 9);
    reveal_with_fuel(weights_in, 7);
    assert(weights_in(ws[0].bufs) =~= seq![layer_name(l, "attn_norm"@)]);
    assert(weights_in(ws[1].bufs) =~= seq![layer_name(l, "qkv"@)]);
    if own_kv(c, l) {
        assert(weights_in(ws[2].bufs) =~= seq![layer_name(l, "q_norm"@), layer_name(l, "k_norm"@)]);
    } else {
        assert(weights_in(ws[2].bufs) =~= seq![layer_name(l, "q_norm"@)]);
    }
    assert(weights_in(ws[3].bufs) =~= seq![]);
    assert(weights_in(ws[4].bufs) =~= seq![layer_name(l, "o"@)]);
    assert(weights_in(ws[5].bufs) =~= seq![layer_name(l, "post_attn_norm"@)]);
    assert(weights_in(ws[6].bufs) =~= seq![layer_name(l, "ffn_norm"@)]);
    assert(weights_in(ws[7].bufs) =~= seq![layer_name(l, "gate"@), layer_name(l, "up"@)]);
    assert(weights_in(ws[8].bufs) =~= seq![layer_name(l, "down"@)]);
    assert(weights_in(ws[9].bufs) =~= seq![layer_name(l, "post_ffn_norm"@)]);
    assert(ws.take(0) =~= seq![]);
    assert(ws.take(ws.len() as int) =~= ws);
    if c.per_layer_dim > 0 {
        weights_of_next(ws, 10);
        weights_of_next(ws, 11);
        weights_of_next(ws, 12);
        weights_of_next(ws, 13);
        assert(weights_in(ws[10].bufs) =~= seq![layer_name(l, "pl_gate"@)]);
        assert(weights_in(ws[11].bufs) =~= seq![]);
        assert(weights_in(ws[12].bufs) =~= seq![layer_name(l, "pl_proj"@)]);
        assert(weights_in(ws[13].bufs) =~= seq![layer_name(l, "pl_norm"@)]);
        assert(weights_read(ws.take(14)) =~= names_of(
            layer_tensors(c, l).drop_last(),
        ));
    } else {
        assert(weights_read(ws.take(10)) =~= names_of(layer_tensors(c, l)));
    }
}

/// Attention reads the projection as it was written: the matmul that fills it,
/// the preparation and the attention agree on its width, which holds the query
/// heads and, where the layer projects its own, the key and value heads. Both
/// use the K/V of the layer's source; keys are normed and stored exactly where
/// they are the layer's own. The window is the configuration's exactly in a
/// sliding layer. The output projection reads every query head, and the
/// layer's output scale applies in its last dispatch alone.
pub proof fn attention_reads_what_was_projected(
    c: Config,
    dtypes: Seq<(Seq<char>, Dtype)>,
    t: nat,
    l: int,
    i: int,
)
    requires
        0 <= i < layer_launches(c, t, l).len(),
    ensures
        ({
            let ds = layer_launches(c, t, l);
            let ws = layer_wires(c, dtypes, l);
            let width = ds[1].block->Matmul_n;
            let heads = if c.kv_source@[l] == l {
                c.heads + 2 * c.kv_heads
            } else {
                c.heads as int
            };
            &&& ws[1].bufs[3] == ws[2].bufs[0] && ws[2].bufs[0] == ws[3].bufs[0]
            &&& width == (heads * c.head_dim@[l]) as u32
            &&& ds[2].block->Qk_q_stride == width
            &&& ds[3].block->Attn_q_stride == width
            &&& ds[2].block->Qk_heads == c.heads as u32
            &&& ds[3].block->Attn_heads == c.heads as u32
            &&& ds[2].block->Qk_kv_heads == c.kv_heads as u32
            &&& ds[3].block->Attn_kv_heads == c.kv_heads as u32
            &&& ws[2].bufs[4] == BufView::Kv(c.kv_source@[l])
            &&& ws[3].bufs[1] == BufView::Kv(c.kv_source@[l])
            &&& ds[2].block->has_kv == 1 <==> c.kv_source@[l] == l
            &&& ds[2].block->has_kv == 0 <==> ws[2].bufs[2] is Dummy
            &&& ds[2].block->v_norm == 1 <==> c.v_norm
            &&& ds[2].block->Qk_sliding == c.sliding@[l]
            &&& ds[2].block->rope_dims == c.rope_dims@[l] as u32
            &&& ds[3].block->Attn_window == (if c.sliding@[l] {
                c.window as u32
            } else {
                0u32
            })
            &&& ds[4].block->k == (c.heads * c.head_dim@[l]) as u32
            &&& ws[2].hd == c.head_dim@[l] && ws[3].hd == c.head_dim@[l]
            &&& ds[i].block is Norm ==> (ds[i].block->scaled <==> i == ds.len() - 1)
            &&& ds[i].block is PlGate ==> ds[i].block->layer == l as u32
        }),
{
}

/// The bytes of the first buffer listed as `w`.
pub open spec fn bytes_of(s: Seq<(Work, nat)>, w: Work) -> nat
    decreases s.len(),
{
    if s.len() == 0 {
        0
    } else if s[0].0 == w {
        s[0].1
    } else {
        bytes_of(s.drop_first(), w)
    }
}

pub(crate) proof fn bytes_at(s: Seq<(Work, nat)>, i: int)
    requires
        0 <= i < s.len(),
        forall|a: int| 0 <= a < i ==> (#[trigger] s[a]).0 != s[i].0,
    ensures
        bytes_of(s, s[i].0) == s[i].1,
    decreases s.len(),
{
    if i > 0 {
        assert(s[0].0 != s[i].0);
        let rest = s.drop_first();
        assert forall|a: int| 0 <= a < i - 1 implies (#[trigger] rest[a]).0 != rest[i - 1].0 by {
            assert(s[a + 1].0 != s[i].0);
        }
        bytes_at(rest, i - 1);
    }
}

pub(crate) proof fn rows_have_room(t: nat, n: nat, capacity: nat, width: nat)
    requires
        t <= capacity,
        n <= width,
    ensures
        4 * (t * n) <= at_least_one(capacity * width) * 4,
{
    assert(t * n <= capacity * width) by (nonlinear_arith)
        requires
            t <= capacity,
            n <= width,
    ;
}

/// Every workspace buffer has room for what a pass over as many tokens as it is
/// made for writes to it: four bytes for every column of every row, as wide as
/// the dispatch that writes it is in any layer.
pub proof fn buffers_hold_what_is_written(
    c: Config,
    capacity: nat,
    max_rows: nat,
    w: Widest,
    t: nat,
    rows: nat,
    l: int,
)
    requires
        t <= capacity,
        rows <= max_rows,
        qkv_of(c, l) <= w.qkv,
        c.heads * c.head_dim@[l] <= w.attn,
        c.ff@[l] <= w.act,
        c.per_layer_dim * c.layers <= w.act,
    ensures
        ({
            let s = workspace(c, capacity, max_rows, w);
            &&& bytes_of(s, Work::Ids) >= 4 * t
            &&& bytes_of(s, Work::Meta) >= 8 * t
            &&& bytes_of(s, Work::X) >= 4 * (t * c.d as nat)
            &&& bytes_of(s, Work::H) >= 4 * (t * c.d as nat)
            &&& bytes_of(s, Work::A) >= 4 * (t * c.d as nat)
            &&& bytes_of(s, Work::Qkv) >= 4 * (t * qkv_of(c, l))
            &&& bytes_of(s, Work::Attn) >= 4 * (t * (c.heads * c.head_dim@[l]) as nat)
            &&& bytes_of(s, Work::Act) >= 4 * (t * c.ff@[l] as nat)
            &&& bytes_of(s, Work::Act) >= 4 * (t * (c.per_layer_dim * c.layers) as nat)
            &&& bytes_of(s, Work::Rows) >= 4 * (rows * c.d as nat)
            &&& bytes_of(s, Work::Logits) >= 4 * (rows * c.vocab as nat)
            &&& bytes_of(s, Work::Staging) >= 4 * (rows * c.d as nat)
            &&& bytes_of(s, Work::Staging) >= 4 * (rows * c.vocab as nat)
            &&& bytes_of(s, Work::Params) == 256 * slots_for(c.layers as nat)
            &&& c.per_layer_dim > 0 ==> bytes_of(s, Work::Plg) >= 2 * (t * (c.per_layer_dim
                * c.layers) as nat)
            &&& c.per_layer_dim > 0 ==> bytes_of(s, Work::Pli) >= 4 * (t * (c.per_layer_dim
                * c.layers) as nat)
        }),
{
    let s = workspace(c, capacity, max_rows, w);
    let d = c.d as nat;
    let pl = (c.per_layer_dim * c.layers) as nat;
    assert(0 <= c.per_layer_dim * c.layers) by (nonlinear_arith)
        requires
            0 <= c.per_layer_dim,
            0 <= c.layers,
    ;
    assert(0 <= c.heads * c.head_dim@[l]) by (nonlinear_arith)
        requires
            0 <= c.heads,
            0 <= c.head_dim@[l],
    ;
    bytes_at(s, 0);
    bytes_at(s, 1);
    bytes_at(s, 2);
    bytes_at(s, 3);
    bytes_at(s, 4);
    bytes_at(s, 5);
    bytes_at(s, 6);
    bytes_at(s, 7);
    bytes_at(s, 8);
    bytes_at(s, 9);
    bytes_at(s, 10);
    bytes_at(s, 11);
    rows_have_room(t, d, capacity, d);
    rows_have_room(t, qkv_of(c, l), capacity, w.qkv as nat);
    rows_have_room(t, (c.heads * c.head_dim@[l]) as nat, capacity, w.attn as nat);
    rows_have_room(t, c.ff@[l] as nat, capacity, w.act as nat);
    rows_have_room(t, pl, capacity, w.act as nat);
    rows_have_room(t, pl, capacity, pl);
    rows_have_room(rows, d, max_rows, d);
    rows_have_room(rows, c.vocab as nat, max_rows, c.vocab as nat);
    let widest_row = if c.vocab < c.d {
        d
    } else {
        c.vocab as nat
    };
    assert(rows * d <= max_rows * widest_row) by (nonlinear_arith)
        requires
            rows <= max_rows,
            d <= widest_row,
    ;
    assert(rows * c.vocab as nat <= max_rows * widest_row) by (nonlinear_arith)
        requires
            rows <= max_rows,
            c.vocab as nat <= widest_row,
    ;
    if c.per_layer_dim > 0 {
        bytes_at(s, 12);
        bytes_at(s, 13);
        assert(t * pl <= capacity * pl) by (nonlinear_arith)
            requires
                t <= capacity,
        ;
    }
}

/// A layer's own K/V has room for a key and a value of every KV head at every
/// token, and a layer that shares another's has none.
pub proof fn own_keys_and_values_have_room(c: Config, capacity: nat, t: nat, l: int)
    requires
        t <= capacity,
    ensures
        kv_bytes(c, capacity, l) is Some <==> c.kv_source@[l] == l,
        kv_bytes(c, capacity, l) is Some ==> kv_bytes(c, capacity, l)->0 >= 4 * (t
            * c.kv_heads as nat * c.head_dim@[l] as nat) + 4 * (t * c.kv_heads as nat
            * c.head_dim@[l] as nat),
{
    let (k, h) = (c.kv_heads as nat, c.head_dim@[l] as nat);
    assert(2 * (t * k * h) <= capacity * 2 * k * h) by (nonlinear_arith)
        requires
            t <= capacity,
    ;
}

/// Row `r` of what comes back is its own run of numbers, behind the rows before
/// it.
pub proof fn rows_are_cut_in_order(data: Seq<u32>, width: nat, r: nat, j: int)
    requires
        0 <= j < width,
        (r + 1) * width <= data.len(),
    ensures
        row_of(data, width, r).len() == width,
        row_of(data, width, r)[j] == data[r * width + j],
{
    assert((r + 1) * width == r * width + width) by (nonlinear_arith);
}

/// A launch of a matmul covers its result: along the first axis every column,
/// along the second every row, with no workgroup that has nothing to do.
pub proof fn launches_cover_their_result(t: nat, n: nat, k: nat)
    requires
        0 < t <= u32::MAX,
        0 < n <= u32::MAX,
        k <= u32::MAX,
    ensures
        ({
            let m = matmul(t, n, k);
            &&& m.block == (Block::Matmul { m: t as u32, n: n as u32, k: k as u32 })
            &&& (m.wg.0 - 1) * 128 < n <= m.wg.0 * 128
            &&& (m.wg.1 - 1) * 64 < t <= m.wg.1 * 64
        }),
        ({
            let m = gated(t, n, k);
            &&& m.block == (Block::Matmul { m: t as u32, n: n as u32, k: k as u32 })
            &&& (m.wg.0 - 1) * 64 < n <= m.wg.0 * 64
            &&& (m.wg.1 - 1) * 64 < t <= m.wg.1 * 64
        }),
{
    groups_cover_the_work(n, 128);
    groups_cover_the_work(n, 64);
    groups_cover_the_work(t, 64);
}

/// Tokens pass exactly where each of them is in the vocabulary.
pub proof fn tokens_pass_exactly_when_known(ids: Seq<u32>, vocab: nat, n: nat)
    requires
        n <= ids.len(),
    ensures
        id_fault(ids, vocab, n) is None <==> forall|i: int| 0 <= i < n ==> (#[trigger] ids[i]) < vocab,
    decreases n,
{
    if n > 0 {
        tokens_pass_exactly_when_known(ids, vocab, (n - 1) as nat);
        if id_fault(ids, vocab, n) is None {
            assert forall|i: int| 0 <= i < n implies (#[trigger] ids[i]) < vocab by {
                if i == n - 1 {
                    assert(ids[n - 1] < vocab);
                }
            }
        }
        if forall|i: int| 0 <= i < n ==> (#[trigger] ids[i]) < vocab {
            assert(ids[n - 1] < vocab);
        }
    }
}

proof fn wants_pass_exactly_when_within(b: BranchTokens, k: nat, n: nat)
    requires
        n <= b.want@.len(),
    ensures
        want_fault(b, k, n) is None <==> forall|i: int|
            0 <= i < n ==> (#[trigger] b.want@[i]) < b.tokens@.len(),
    decreases n,
{
    if n > 0 {
        wants_pass_exactly_when_within(b, k, (n - 1) as nat);
        if forall|i: int| 0 <= i < n ==> (#[trigger] b.want@[i]) < b.tokens@.len() {
            assert(b.want@[n - 1] < b.tokens@.len());
        }
    }
}

/// The rows that branches want pass exactly where each is of a token of its
/// own branch.
pub proof fn rows_pass_exactly_when_within_their_branch(bs: Seq<BranchTokens>, n: nat)
    requires
        n <= bs.len(),
    ensures
        wants_fault(bs, n) is None <==> forall|k: int, i: int|
            0 <= k < n && 0 <= i < bs[k].want@.len() ==> (#[trigger] bs[k].want@[i])
                < bs[k].tokens@.len(),
    decreases n,
{
    if n > 0 {
        rows_pass_exactly_when_within_their_branch(bs, (n - 1) as nat);
        wants_pass_exactly_when_within(bs[n - 1], (n - 1) as nat, bs[n - 1].want@.len());
    }
}

/// A stream is taken exactly where it has a token, the engine has room for
/// its tokens and rows, every wanted row is of its branch, and the vocabulary
/// has every token.
pub proof fn streams_are_taken_exactly_when_they_fit(
    prefix: Seq<u32>,
    bs: Seq<BranchTokens>,
    capacity: nat,
    max_rows: nat,
    vocab: nat,
)
    ensures
        ({
            let ids = stream_ids(prefix, bs, bs.len());
            stream_fault(prefix, bs, capacity, max_rows, vocab) is None <==> {
                &&& 0 < ids.len() <= capacity
                &&& stream_wanted(prefix, bs, bs.len()).len() <= max_rows
                &&& forall|k: int, i: int|
                    0 <= k < bs.len() && 0 <= i < bs[k].want@.len() ==> (#[trigger] bs[k].want@[i])
                        < bs[k].tokens@.len()
                &&& forall|i: int| 0 <= i < ids.len() ==> (#[trigger] ids[i]) < vocab
            }
        }),
{
    let ids = stream_ids(prefix, bs, bs.len());
    tokens_pass_exactly_when_known(ids, vocab, ids.len());
    rows_pass_exactly_when_within_their_branch(bs, bs.len());
}

/// A pass takes the rows of the per-layer table exactly where a model that
/// has one brings two bytes for each of its numbers, and any other model
/// needs none.
pub proof fn table_rows_are_taken_exactly_when_complete(c: Config, t: nat, rows: Option<nat>)
    ensures
        per_layer_fault(c, t, rows) is None <==> c.per_layer_dim == 0 || rows == Some(
            t * c.per_layer_dim as nat * c.layers as nat * 2,
        ),
{
}

} // verus!

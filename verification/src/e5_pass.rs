//! The forward pass of the sentence embedder: how its dispatches are wired and
//! launched, how texts are packed into a pass, and how vectors and logits come
//! back.

use vstd::prelude::*;
use vstd::string::StringExecFns;

use crate::bert::{
    batch_ids, batch_meta, pack_sequences, sequence_meta, sequences_fault, start_of, total_length,
    Sequence,
};
use crate::e5::{e5_first_tensors, e5_layer_tensors, e5_tensors, e5_tensors_upto, Arch, E5Config};
use crate::error::LoadError;
use crate::gemma::{
    at_least_one, bytes_at, bytes_of, id_fault, names_of, row_of, rows_have_room, size_views,
    sizes_fit, tokens_pass_exactly_when_known, words,
};
use crate::gpu::{
    all_fit, all_suit, feeds, fits_kernel, fits_together, suits, weights_in, weights_of_next,
    weights_read, joined_side_by_side, side_by_side, buf_views, check_expected, check_upload, data_buf,
    dtype_views, expected_fault, gated_wire, group_count, groups, middle_wire, plain_wire,
    push_gated, push_middle, push_plain, push_weight, push_wire, stored_dtype, upload_fault,
    weight_wire, wire_views, wired, Block, Buf, BufView, Dispatch, Wire, WireView, Work, GELU_ERF,
    K,
};
use crate::laya::{part_name, part_text};
use crate::laya_pass::{
    attention, attention_of, bias_act, halves_fault, layer_norm, layer_norm_of, lookup, lookup_of,
    bias_act_of, rotation, rotation_of, small_matmul, small_matmul_of,
};
use crate::model::{spec_views, NamedShape, TensorSpec};
use crate::tensor::{Dtype, QTensor};
use crate::text::{concat2, decimal, push_decimal};

verus! {

/// The bias of a norm, where norms have one.
pub open spec fn norm_bias_buf(c: E5Config, name: Seq<char>) -> BufView {
    if c.norm_bias {
        BufView::Data(name + "_b"@)
    } else {
        BufView::Dummy
    }
}

/// A norm from one buffer into another.
pub open spec fn plain_norm_wire(
    c: E5Config,
    label: Seq<char>,
    src: Work,
    name: Seq<char>,
    dst: Work,
) -> WireView {
    wired(
        label,
        K::PlainNorm,
        0,
        0,
        seq![
            BufView::Work(src),
            BufView::Data(name + "_w"@),
            norm_bias_buf(c, name),
            BufView::Work(dst),
        ],
    )
}

fn push_plain_norm(c: &E5Config, out: &mut Vec<Wire>, label: &str, src: Work, name: &str, dst: Work)
    ensures
        wire_views(final(out)@) == wire_views(old(out)@).push(
            plain_norm_wire(*c, label@, src, name@, dst),
        ),
{
    let mut bufs: Vec<Buf> = Vec::new();
    bufs.push(Buf::Work(src));
    bufs.push(Buf::Data(concat2(name, "_w")));
    if c.norm_bias {
        bufs.push(Buf::Data(concat2(name, "_b")));
    } else {
        bufs.push(Buf::Dummy);
    }
    bufs.push(Buf::Work(dst));
    assert(buf_views(bufs@) =~= seq![
        BufView::Work(src),
        BufView::Data(name@ + "_w"@),
        norm_bias_buf(*c, name@),
        BufView::Work(dst),
    ]);
    push_wire(out, label, K::PlainNorm, 0, 0, bufs);
}

/// The dispatches before the layers. BERT adds positions and the token-type
/// row to the embedding rows.
pub open spec fn e5_first_wires(c: E5Config, dtypes: Seq<(Seq<char>, Dtype)>) -> Seq<WireView> {
    seq![weight_wire("embed"@, K::Embed, Work::Ids, "embed"@, Work::H, dtypes)] + (match c.arch {
        Arch::Bert => seq![
            weight_wire("pos_embed"@, K::Embed, Work::Positions, "pos_embed"@, Work::A, dtypes),
            middle_wire(
                "embed_add"@,
                K::BiasAct,
                BufView::Work(Work::A),
                BufView::Data("type_embed"@),
                Work::H,
            ),
        ],
        Arch::ModernBert => Seq::empty(),
    }) + seq![plain_norm_wire(c, "embed_norm"@, Work::H, "embed_norm"@, Work::X)]
}

/// The dispatches of layer `l`, in the order in which they run. BERT's stream
/// enters in `x`, is normalized into `h` after attention and back into `x`
/// after the MLP; ModernBERT's stays in `x` and norms write `h` for the
/// projections to read.
pub open spec fn e5_layer_wires(c: E5Config, dtypes: Seq<(Seq<char>, Dtype)>, l: int) -> Seq<
    WireView,
> {
    let hd = (c.d as nat / c.heads as nat) as usize;
    let n = |s: Seq<char>| part_name("enc."@, l, s);
    let w = |s: Seq<char>| BufView::Data(part_name("enc."@, l, s));
    let a = BufView::Work(Work::A);
    match c.arch {
        Arch::Bert => seq![
            weight_wire("mm_qkv"@, K::Matmul, Work::X, n("qkv"@), Work::Qkv, dtypes),
            middle_wire("bias_qkv"@, K::BiasAct, BufView::Dummy, w("qkv_b"@), Work::Qkv),
            plain_wire("attention"@, K::AttentionBi, hd, seq![Work::Qkv, Work::Meta, Work::Attn]),
            weight_wire("mm_o"@, K::Matmul, Work::Attn, n("o"@), Work::A, dtypes),
            middle_wire("add_o"@, K::BiasAct, a, w("o_b"@), Work::X),
            plain_norm_wire(c, "attn_norm"@, Work::X, n("attn_norm"@), Work::H),
            weight_wire("mm_wi"@, K::Matmul, Work::H, n("wi"@), Work::Act, dtypes),
            middle_wire("gelu_wi"@, K::BiasAct, BufView::Dummy, w("wi_b"@), Work::Act),
            weight_wire("mm_wo"@, K::Matmul, Work::Act, n("wo"@), Work::A, dtypes),
            middle_wire("add_wo"@, K::BiasAct, a, w("wo_b"@), Work::H),
            plain_norm_wire(c, "mlp_norm"@, Work::H, n("mlp_norm"@), Work::X),
        ],
        Arch::ModernBert => (if l > 0 {
            seq![plain_norm_wire(c, "attn_norm"@, Work::X, n("attn_norm"@), Work::H)]
        } else {
            Seq::empty()
        }) + seq![
            weight_wire(
                "mm_qkv"@,
                K::Matmul,
                if l > 0 {
                    Work::H
                } else {
                    Work::X
                },
                n("qkv"@),
                Work::Qkv,
                dtypes,
            ),
            plain_wire("rope"@, K::RopeBi, hd, seq![Work::Meta, Work::Qkv]),
            plain_wire("attention"@, K::AttentionBi, hd, seq![Work::Qkv, Work::Meta, Work::Attn]),
            weight_wire("mm_o"@, K::Matmul, Work::Attn, n("o"@), Work::A, dtypes),
            middle_wire("add_o"@, K::BiasAct, a, BufView::Dummy, Work::X),
            plain_norm_wire(c, "mlp_norm"@, Work::X, n("mlp_norm"@), Work::H),
            gated_wire(
                "mm_wi"@,
                Work::H,
                n("wi_val"@),
                n("wi_gate"@),
                Work::Act,
                GELU_ERF,
                dtypes,
            ),
            weight_wire("mm_wo"@, K::Matmul, Work::Act, n("wo"@), Work::A, dtypes),
            middle_wire("add_wo"@, K::BiasAct, a, BufView::Dummy, Work::X),
        ],
    }
}

/// The opening and the first `n` layers.
pub open spec fn e5_wires_upto(c: E5Config, dtypes: Seq<(Seq<char>, Dtype)>, n: nat) -> Seq<
    WireView,
>
    decreases n,
{
    if n == 0 {
        e5_first_wires(c, dtypes)
    } else {
        e5_wires_upto(c, dtypes, (n - 1) as nat) + e5_layer_wires(c, dtypes, n - 1)
    }
}

/// The dispatches after the layers: ModernBERT's final norm, and the mean of
/// every text's rows into its vector slot.
pub open spec fn e5_pool_wires(c: E5Config) -> Seq<WireView> {
    match c.arch {
        Arch::Bert => seq![
            plain_wire("pool"@, K::Pool, 0, seq![Work::Spans, Work::X, Work::Vectors]),
        ],
        Arch::ModernBert => seq![
            plain_norm_wire(c, "final_norm"@, Work::X, "final_norm"@, Work::H),
            plain_wire("pool"@, K::Pool, 0, seq![Work::Spans, Work::H, Work::Vectors]),
        ],
    }
}

/// The dispatches that encode texts, in the order in which they run.
pub open spec fn e5_encoder_wires(c: E5Config, dtypes: Seq<(Seq<char>, Dtype)>) -> Seq<WireView> {
    e5_wires_upto(c, dtypes, c.layers as nat) + e5_pool_wires(c)
}

/// The dispatches that score pairs: feature rows, a linear, an activation, a
/// linear.
pub open spec fn e5_head_wires(dtypes: Seq<(Seq<char>, Dtype)>) -> Seq<WireView> {
    seq![
        plain_wire("pair_feats"@, K::PairFeats, 0, seq![Work::Pairs, Work::Vectors, Work::Feats]),
        weight_wire("head_l1"@, K::Matmul, Work::Feats, "head.l1"@, Work::Hact, dtypes),
        middle_wire(
            "head_gelu"@,
            K::BiasAct,
            BufView::Dummy,
            BufView::Data("head.l1_b"@),
            Work::Hact,
        ),
        weight_wire("head_l2"@, K::Matmul, Work::Hact, "head.l2"@, Work::Logits, dtypes),
        middle_wire(
            "head_bias"@,
            K::BiasAct,
            BufView::Dummy,
            BufView::Data("head.l2_b"@),
            Work::Logits,
        ),
    ]
}

/// The first layer whose gated projection's halves do not share a storage
/// type; BERT has none.
pub open spec fn e5_wiring_fault(c: E5Config, dtypes: Seq<(Seq<char>, Dtype)>) -> Option<
    Seq<char>,
> {
    match c.arch {
        Arch::Bert => None,
        Arch::ModernBert => halves_fault(dtypes, c.layers as nat),
    }
}

proof fn halves_stay(dtypes: Seq<(Seq<char>, Dtype)>, i: nat, n: nat)
    requires
        i <= n,
        halves_fault(dtypes, i) is Some,
    ensures
        halves_fault(dtypes, n) == halves_fault(dtypes, i),
    decreases n - i,
{
    if i < n {
        halves_stay(dtypes, i + 1, n);
    }
}

fn enc(l: usize, s: &str) -> (r: Buf)
    ensures
        r@ == BufView::Data(part_name("enc."@, l as int, s@)),
{
    Buf::Data(part_text("enc.", l, s))
}

fn three(a: Work, b: Work, c: Work) -> (r: Vec<Work>)
    ensures
        r@ == seq![a, b, c],
{
    let mut v: Vec<Work> = Vec::new();
    v.push(a);
    v.push(b);
    v.push(c);
    assert(v@ =~= seq![a, b, c]);
    v
}

fn push_enc_weight(
    out: &mut Vec<Wire>,
    label: &str,
    src: Work,
    l: usize,
    s: &str,
    dst: Work,
    dtypes: &Vec<(String, Dtype)>,
)
    ensures
        wire_views(final(out)@) == wire_views(old(out)@).push(
            weight_wire(
                label@,
                K::Matmul,
                src,
                part_name("enc."@, l as int, s@),
                dst,
                dtype_views(dtypes@),
            ),
        ),
{
    push_weight(out, label, K::Matmul, src, part_text("enc.", l, s).as_str(), dst, dtypes);
}

fn push_bert_wires(c: &E5Config, dtypes: &Vec<(String, Dtype)>, l: usize, out: &mut Vec<Wire>)
    requires
        c.heads > 0,
        c.arch == Arch::Bert,
    ensures
        wire_views(final(out)@) == wire_views(old(out)@) + e5_layer_wires(
            *c,
            dtype_views(dtypes@),
            l as int,
        ),
{
    let ghost before = wire_views(out@);
    let ghost dv = dtype_views(dtypes@);
    let hd: usize = c.head_dim();
    push_enc_weight(out, "mm_qkv", Work::X, l, "qkv", Work::Qkv, dtypes);
    push_middle(out, "bias_qkv", K::BiasAct, Buf::Dummy, enc(l, "qkv_b"), Work::Qkv);
    push_plain(
        out,
        "attention",
        K::AttentionBi,
        hd,
        &three(Work::Qkv, Work::Meta, Work::Attn),
    );
    push_enc_weight(out, "mm_o", Work::Attn, l, "o", Work::A, dtypes);
    push_middle(out, "add_o", K::BiasAct, Buf::Work(Work::A), enc(l, "o_b"), Work::X);
    push_plain_norm(
        c,
        out,
        "attn_norm",
        Work::X,
        part_text("enc.", l, "attn_norm").as_str(),
        Work::H,
    );
    push_enc_weight(out, "mm_wi", Work::H, l, "wi", Work::Act, dtypes);
    push_middle(out, "gelu_wi", K::BiasAct, Buf::Dummy, enc(l, "wi_b"), Work::Act);
    push_enc_weight(out, "mm_wo", Work::Act, l, "wo", Work::A, dtypes);
    push_middle(out, "add_wo", K::BiasAct, Buf::Work(Work::A), enc(l, "wo_b"), Work::H);
    push_plain_norm(
        c,
        out,
        "mlp_norm",
        Work::H,
        part_text("enc.", l, "mlp_norm").as_str(),
        Work::X,
    );
    assert(wire_views(out@) =~= before + e5_layer_wires(*c, dv, l as int));
}

fn push_modern_wires(c: &E5Config, dtypes: &Vec<(String, Dtype)>, l: usize, out: &mut Vec<Wire>)
    requires
        c.heads > 0,
        c.arch == Arch::ModernBert,
    ensures
        wire_views(final(out)@) == wire_views(old(out)@) + e5_layer_wires(
            *c,
            dtype_views(dtypes@),
            l as int,
        ),
{
    let ghost before = wire_views(out@);
    let ghost dv = dtype_views(dtypes@);
    let hd: usize = c.head_dim();
    let src = if l > 0 {
        Work::H
    } else {
        Work::X
    };
    if l > 0 {
        push_plain_norm(
            c,
            out,
            "attn_norm",
            Work::X,
            part_text("enc.", l, "attn_norm").as_str(),
            Work::H,
        );
    }
    push_enc_weight(out, "mm_qkv", src, l, "qkv", Work::Qkv, dtypes);
    let mut works: Vec<Work> = Vec::new();
    works.push(Work::Meta);
    works.push(Work::Qkv);
    assert(works@ =~= seq![Work::Meta, Work::Qkv]);
    push_plain(out, "rope", K::RopeBi, hd, &works);
    push_plain(
        out,
        "attention",
        K::AttentionBi,
        hd,
        &three(Work::Qkv, Work::Meta, Work::Attn),
    );
    push_enc_weight(out, "mm_o", Work::Attn, l, "o", Work::A, dtypes);
    push_middle(out, "add_o", K::BiasAct, Buf::Work(Work::A), Buf::Dummy, Work::X);
    push_plain_norm(
        c,
        out,
        "mlp_norm",
        Work::X,
        part_text("enc.", l, "mlp_norm").as_str(),
        Work::H,
    );
    push_gated(
        out,
        "mm_wi",
        Work::H,
        part_text("enc.", l, "wi_val").as_str(),
        part_text("enc.", l, "wi_gate").as_str(),
        Work::Act,
        GELU_ERF,
        dtypes,
    );
    push_enc_weight(out, "mm_wo", Work::Act, l, "wo", Work::A, dtypes);
    push_middle(out, "add_wo", K::BiasAct, Buf::Work(Work::A), Buf::Dummy, Work::X);
    assert(wire_views(out@) =~= before + e5_layer_wires(*c, dv, l as int));
}

/// Wires every dispatch of the checkpoint, given the storage types of its
/// uploaded weights: those that encode texts, and those that score pairs.
pub fn e5_wiring(c: &E5Config, dtypes: &Vec<(String, Dtype)>) -> (r: Result<
    (Vec<Wire>, Vec<Wire>),
    LoadError,
>)
    requires
        c.heads > 0,
    ensures
        match r {
            Ok((encoder, head)) => e5_wiring_fault(*c, dtype_views(dtypes@)) is None
                && wire_views(encoder@) == e5_encoder_wires(*c, dtype_views(dtypes@))
                && wire_views(head@) == e5_head_wires(dtype_views(dtypes@)),
            Err(e) => e5_wiring_fault(*c, dtype_views(dtypes@)) == Some(e@),
        },
{
    let ghost dv = dtype_views(dtypes@);
    let mut out: Vec<Wire> = Vec::new();
    push_weight(&mut out, "embed", K::Embed, Work::Ids, "embed", Work::H, dtypes);
    match c.arch {
        Arch::Bert => {
            push_weight(
                &mut out,
                "pos_embed",
                K::Embed,
                Work::Positions,
                "pos_embed",
                Work::A,
                dtypes,
            );
            push_middle(
                &mut out,
                "embed_add",
                K::BiasAct,
                Buf::Work(Work::A),
                data_buf("type_embed"),
                Work::H,
            );
        },
        Arch::ModernBert => {},
    }
    push_plain_norm(c, &mut out, "embed_norm", Work::H, "embed_norm", Work::X);
    assert(wire_views(out@) =~= e5_first_wires(*c, dv));
    let mut l: usize = 0;
    while l < c.layers
        invariant
            0 <= l <= c.layers,
            c.heads > 0,
            dv == dtype_views(dtypes@),
            wire_views(out@) == e5_wires_upto(*c, dv, l as nat),
            c.arch == Arch::ModernBert ==> halves_fault(dv, l as nat) is None,
        decreases c.layers - l,
    {
        match c.arch {
            Arch::Bert => {
                push_bert_wires(c, dtypes, l, &mut out);
            },
            Arch::ModernBert => {
                proof {
                    if halves_fault(dv, (l + 1) as nat) is Some {
                        halves_stay(dv, (l + 1) as nat, c.layers as nat);
                    }
                }
                let val = stored_dtype(dtypes, part_text("enc.", l, "wi_val").as_str());
                let gate = stored_dtype(dtypes, part_text("enc.", l, "wi_gate").as_str());
                if val != gate {
                    let mut m: String = "layer ".to_owned();
                    push_decimal(&mut m, l as u64);
                    m.append(": Wi halves must share a storage type");
                    return Err(LoadError::new(m));
                }
                push_modern_wires(c, dtypes, l, &mut out);
            },
        }
        l += 1;
    }
    let ghost before = wire_views(out@);
    match c.arch {
        Arch::Bert => {
            push_plain(
                &mut out,
                "pool",
                K::Pool,
                0,
                &three(Work::Spans, Work::X, Work::Vectors),
            );
        },
        Arch::ModernBert => {
            push_plain_norm(c, &mut out, "final_norm", Work::X, "final_norm", Work::H);
            push_plain(
                &mut out,
                "pool",
                K::Pool,
                0,
                &three(Work::Spans, Work::H, Work::Vectors),
            );
        },
    }
    assert(wire_views(out@) =~= before + e5_pool_wires(*c));
    let mut head: Vec<Wire> = Vec::new();
    push_plain(
        &mut head,
        "pair_feats",
        K::PairFeats,
        0,
        &three(Work::Pairs, Work::Vectors, Work::Feats),
    );
    push_weight(&mut head, "head_l1", K::Matmul, Work::Feats, "head.l1", Work::Hact, dtypes);
    push_middle(
        &mut head,
        "head_gelu",
        K::BiasAct,
        Buf::Dummy,
        data_buf("head.l1_b"),
        Work::Hact,
    );
    push_weight(&mut head, "head_l2", K::Matmul, Work::Hact, "head.l2", Work::Logits, dtypes);
    push_middle(
        &mut head,
        "head_bias",
        K::BiasAct,
        Buf::Dummy,
        data_buf("head.l2_b"),
        Work::Logits,
    );
    assert(wire_views(head@) =~= e5_head_wires(dv));
    Ok((out, head))
}

/// An addition without a bias.
pub open spec fn addition(t: nat, n: nat) -> Dispatch {
    Dispatch {
        block: Block::Bias {
            t: t as u32,
            n: n as u32,
            mode: 0,
            has_bias: 0,
            in_place: 0,
            residual: 1,
        },
        wg: (groups(t * n, 256), 1),
    }
}

/// What layer `l` launches over `t` tokens.
pub open spec fn e5_layer_launches(c: E5Config, t: nat, l: int) -> Seq<Dispatch> {
    let d = c.d as nat;
    let heads = c.heads as nat;
    let ff = c.ff as nat;
    let norm = layer_norm(t, d, c.norm_bias, false, false, false);
    match c.arch {
        Arch::Bert => seq![
            small_matmul(t, 3 * d, d),
            bias_act(t, 3 * d, 0, true, false),
            attention(t, d, heads, 0),
            small_matmul(t, d, d),
            bias_act(t, d, 0, false, true),
            norm,
            small_matmul(t, ff, d),
            bias_act(t, ff, 2, true, false),
            small_matmul(t, d, ff),
            bias_act(t, d, 0, false, true),
            norm,
        ],
        Arch::ModernBert => (if l > 0 {
            seq![norm]
        } else {
            Seq::empty()
        }) + seq![
            small_matmul(t, 3 * d, d),
            rotation(t, d, heads, c.sliding@[l]),
            attention(
                t,
                d,
                heads,
                if c.sliding@[l] {
                    c.window as nat
                } else {
                    0
                },
            ),
            small_matmul(t, d, d),
            addition(t, d),
            norm,
            small_matmul(t, ff, d),
            small_matmul(t, d, ff),
            addition(t, d),
        ],
    }
}

/// What a pass over `t` tokens launches before the layers.
pub open spec fn e5_first_launches(c: E5Config, t: nat) -> Seq<Dispatch> {
    let d = c.d as nat;
    seq![lookup(t, d, 0)] + (match c.arch {
        Arch::Bert => seq![lookup(t, d, 0), bias_act(t, d, 0, false, true)],
        Arch::ModernBert => Seq::empty(),
    }) + seq![layer_norm(t, d, c.norm_bias, false, false, false)]
}

/// The opening and the first `n` layers.
pub open spec fn e5_launches_upto(c: E5Config, t: nat, n: nat) -> Seq<Dispatch>
    decreases n,
{
    if n == 0 {
        e5_first_launches(c, t)
    } else {
        e5_launches_upto(c, t, (n - 1) as nat) + e5_layer_launches(c, t, n - 1)
    }
}

/// What a pass launches after the layers over `seqs` texts.
pub open spec fn e5_pool_launches(c: E5Config, t: nat, seqs: nat) -> Seq<Dispatch> {
    (match c.arch {
        Arch::Bert => Seq::empty(),
        Arch::ModernBert => seq![layer_norm(t, c.d as nat, c.norm_bias, false, false, false)],
    }).push(
        Dispatch {
            block: Block::Count { n: seqs as u32, d: c.d as u32 },
            wg: (seqs as u32, 1),
        },
    )
}

/// What encoding `seqs` texts of `t` tokens launches; nothing without tokens.
pub open spec fn e5_encoder_launches(c: E5Config, t: nat, seqs: nat) -> Seq<Dispatch> {
    if t == 0 {
        Seq::empty()
    } else {
        e5_launches_upto(c, t, c.layers as nat) + e5_pool_launches(c, t, seqs)
    }
}

/// What scoring `n` pairs launches; nothing without pairs.
pub open spec fn e5_head_launches(c: E5Config, n: nat) -> Seq<Dispatch> {
    let hh = c.head_hidden as nat;
    if n == 0 {
        Seq::empty()
    } else {
        seq![
            Dispatch {
                block: Block::Count { n: n as u32, d: c.d as u32 },
                wg: (groups(n * c.d as nat, 256), 1),
            },
            small_matmul(n, hh, c.head_in as nat),
            bias_act(n, hh, 2, true, false),
            small_matmul(n, 1, hh),
            bias_act(n, 1, 0, true, false),
        ]
    }
}

/// The products of a pass over `t` tokens and `pairs` pairs are sizes.
pub open spec fn e5_pass_fits(c: E5Config, t: nat, pairs: nat) -> bool {
    &&& c.heads > 0
    &&& 3 * c.d <= usize::MAX
    &&& t * (3 * c.d) <= usize::MAX
    &&& t * c.ff <= usize::MAX
    &&& pairs * c.d <= usize::MAX
    &&& pairs * c.head_hidden <= usize::MAX
    &&& c.sliding@.len() == c.layers
}

fn addition_of(t: usize, n: usize) -> (r: Dispatch)
    requires
        t * n <= usize::MAX,
    ensures
        r == addition(t as nat, n as nat),
{
    Dispatch {
        block: Block::Bias {
            t: t as u32,
            n: n as u32,
            mode: 0,
            has_bias: 0,
            in_place: 0,
            residual: 1,
        },
        wg: (group_count(t * n, 256), 1),
    }
}

fn push_e5_layer(c: &E5Config, t: usize, l: usize, out: &mut Vec<Dispatch>)
    requires
        e5_pass_fits(*c, t as nat, 0),
        l < c.layers,
    ensures
        final(out)@ == old(out)@ + e5_layer_launches(*c, t as nat, l as int),
{
    let ghost before = out@;
    let d: usize = c.d;
    proof {
        assert(t * d <= t * (3 * d)) by (nonlinear_arith);
    }
    match c.arch {
        Arch::Bert => {
            out.push(small_matmul_of(t, 3 * d, d));
            out.push(bias_act_of(t, 3 * d, 0, true, false));
            out.push(attention_of(t, d, c.heads, 0));
            out.push(small_matmul_of(t, d, d));
            out.push(bias_act_of(t, d, 0, false, true));
            out.push(layer_norm_of(t, d, c.norm_bias, false, false, false));
            out.push(small_matmul_of(t, c.ff, d));
            out.push(bias_act_of(t, c.ff, 2, true, false));
            out.push(small_matmul_of(t, d, c.ff));
            out.push(bias_act_of(t, d, 0, false, true));
            out.push(layer_norm_of(t, d, c.norm_bias, false, false, false));
        },
        Arch::ModernBert => {
            let sliding: bool = c.sliding[l];
            let window: usize = if sliding {
                c.window
            } else {
                0
            };
            if l > 0 {
                out.push(layer_norm_of(t, d, c.norm_bias, false, false, false));
            }
            out.push(small_matmul_of(t, 3 * d, d));
            out.push(rotation_of(t, d, c.heads, sliding));
            out.push(attention_of(t, d, c.heads, window));
            out.push(small_matmul_of(t, d, d));
            out.push(addition_of(t, d));
            out.push(layer_norm_of(t, d, c.norm_bias, false, false, false));
            out.push(small_matmul_of(t, c.ff, d));
            out.push(small_matmul_of(t, d, c.ff));
            out.push(addition_of(t, d));
        },
    }
    assert(out@ =~= before + e5_layer_launches(*c, t as nat, l as int));
}

/// Everything a pass over `seqs` texts of `t` tokens and `pairs` pairs
/// launches: to encode the texts, and to score the pairs.
pub fn e5_launches(c: &E5Config, t: usize, seqs: usize, pairs: usize) -> (r: (
    Vec<Dispatch>,
    Vec<Dispatch>,
))
    requires
        e5_pass_fits(*c, t as nat, pairs as nat),
    ensures
        r.0@ == e5_encoder_launches(*c, t as nat, seqs as nat),
        r.1@ == e5_head_launches(*c, pairs as nat),
{
    let d: usize = c.d;
    let mut out: Vec<Dispatch> = Vec::new();
    if t > 0 {
        proof {
            assert(t * d <= t * (3 * d)) by (nonlinear_arith);
        }
        out.push(lookup_of(t, d, 0));
        match c.arch {
            Arch::Bert => {
                out.push(lookup_of(t, d, 0));
                out.push(bias_act_of(t, d, 0, false, true));
            },
            Arch::ModernBert => {},
        }
        out.push(layer_norm_of(t, d, c.norm_bias, false, false, false));
        assert(out@ =~= e5_first_launches(*c, t as nat));
        let mut l: usize = 0;
        while l < c.layers
            invariant
                0 <= l <= c.layers,
                e5_pass_fits(*c, t as nat, 0),
                out@ == e5_launches_upto(*c, t as nat, l as nat),
            decreases c.layers - l,
        {
            push_e5_layer(c, t, l, &mut out);
            l += 1;
        }
        let ghost before = out@;
        match c.arch {
            Arch::Bert => {},
            Arch::ModernBert => {
                out.push(layer_norm_of(t, d, c.norm_bias, false, false, false));
            },
        }
        out.push(
            Dispatch {
                block: Block::Count { n: seqs as u32, d: d as u32 },
                wg: (seqs as u32, 1),
            },
        );
        assert(out@ =~= before + e5_pool_launches(*c, t as nat, seqs as nat));
    }
    let mut head: Vec<Dispatch> = Vec::new();
    if pairs > 0 {
        let hh: usize = c.head_hidden;
        head.push(
            Dispatch {
                block: Block::Count { n: pairs as u32, d: d as u32 },
                wg: (group_count(pairs * d, 256), 1),
            },
        );
        head.push(small_matmul_of(pairs, hh, c.head_in));
        head.push(bias_act_of(pairs, hh, 2, true, false));
        head.push(small_matmul_of(pairs, 1, hh));
        head.push(bias_act_of(pairs, 1, 0, true, false));
    }
    assert(head@ =~= e5_head_launches(*c, pairs as nat));
    (out, head)
}

/// Parameter slots for every dispatch of one pass.
pub open spec fn e5_slots(layers: nat) -> nat {
    12 + layers * 11
}

/// Parameter slots for every dispatch of one pass.
pub fn e5_param_slots(layers: usize) -> (r: usize)
    requires
        e5_slots(layers as nat) <= usize::MAX,
    ensures
        r == e5_slots(layers as nat),
{
    12 + layers * 11
}

/// A pass launches one for one what is wired: the encoder's dispatches where
/// there are tokens, the head's where there are pairs; each launch hands its
/// kernel a block that the kernel takes; and the parameter slots suffice for
/// both.
pub proof fn e5_launches_follow_the_wiring(
    c: E5Config,
    dtypes: Seq<(Seq<char>, Dtype)>,
    t: nat,
    seqs: nat,
    pairs: nat,
)
    ensures
        t > 0 ==> side_by_side(e5_encoder_launches(c, t, seqs), e5_encoder_wires(c, dtypes)),
        pairs > 0 ==> side_by_side(e5_head_launches(c, pairs), e5_head_wires(dtypes)),
        e5_encoder_launches(c, t, seqs).len() + e5_head_launches(c, pairs).len() <= e5_slots(
            c.layers as nat,
        ),
{
    e5_beside_wires(c, dtypes, t, c.layers as nat);
    assert(side_by_side(e5_pool_launches(c, t, seqs), e5_pool_wires(c)));
    joined_side_by_side(
        e5_launches_upto(c, t, c.layers as nat),
        e5_wires_upto(c, dtypes, c.layers as nat),
        e5_pool_launches(c, t, seqs),
        e5_pool_wires(c),
    );
}

proof fn e5_layer_beside_wires(c: E5Config, dtypes: Seq<(Seq<char>, Dtype)>, t: nat, l: int)
    ensures
        side_by_side(e5_layer_launches(c, t, l), e5_layer_wires(c, dtypes, l)),
        e5_layer_launches(c, t, l).len() <= 11,
{
}

proof fn e5_beside_wires(c: E5Config, dtypes: Seq<(Seq<char>, Dtype)>, t: nat, n: nat)
    ensures
        side_by_side(e5_launches_upto(c, t, n), e5_wires_upto(c, dtypes, n)),
        e5_launches_upto(c, t, n).len() <= 4 + n * 11,
    decreases n,
{
    if n > 0 {
        let m = (n - 1) as nat;
        e5_beside_wires(c, dtypes, t, m);
        e5_layer_beside_wires(c, dtypes, t, m as int);
        joined_side_by_side(
            e5_launches_upto(c, t, m),
            e5_wires_upto(c, dtypes, m),
            e5_layer_launches(c, t, m as int),
            e5_layer_wires(c, dtypes, m as int),
        );
    }
}

/// The bytes of the workspace buffers for `capacity` tokens and `max_seqs`
/// texts and pairs.
pub open spec fn e5_workspace(c: E5Config, capacity: nat, max_seqs: nat) -> Seq<(Work, nat)> {
    let d = c.d as nat;
    seq![
        (Work::Ids, at_least_one(capacity) * 4),
        (Work::Positions, at_least_one(capacity) * 4),
        (Work::Meta, at_least_one(capacity * 4) * 4),
        (Work::Spans, at_least_one(max_seqs * 3) * 4),
        (Work::Pairs, at_least_one(max_seqs * 2) * 4),
        (Work::X, at_least_one(capacity * d) * 4),
        (Work::H, at_least_one(capacity * d) * 4),
        (Work::Qkv, at_least_one(capacity * (3 * d)) * 4),
        (Work::Attn, at_least_one(capacity * d) * 4),
        (Work::A, at_least_one(capacity * d) * 4),
        (Work::Act, at_least_one(capacity * c.ff as nat) * 4),
        (Work::Vectors, at_least_one(max_seqs * d) * 4),
        (Work::Feats, at_least_one(max_seqs * c.head_in as nat) * 4),
        (Work::Hact, at_least_one(max_seqs * c.head_hidden as nat) * 4),
        (Work::Logits, at_least_one(max_seqs) * 4),
        (Work::Staging, max_seqs * (d + 1) * 4),
        (Work::Params, 256 * e5_slots(c.layers as nat)),
    ]
}

/// The workspace buffers and their sizes in bytes.
pub fn e5_workspace_sizes(c: &E5Config, capacity: usize, max_seqs: usize) -> (r: Vec<(Work, u64)>)
    requires
        3 * c.d + 1 <= usize::MAX,
        sizes_fit(e5_workspace(*c, capacity as nat, max_seqs as nat)),
    ensures
        size_views(r@) == e5_workspace(*c, capacity as nat, max_seqs as nat),
{
    let ghost ws = e5_workspace(*c, capacity as nat, max_seqs as nat);
    proof {
        assert(ws[0].1 <= usize::MAX && ws[1].1 <= usize::MAX && ws[2].1 <= usize::MAX);
        assert(ws[3].1 <= usize::MAX && ws[4].1 <= usize::MAX && ws[5].1 <= usize::MAX);
        assert(ws[6].1 <= usize::MAX && ws[7].1 <= usize::MAX && ws[8].1 <= usize::MAX);
        assert(ws[9].1 <= usize::MAX && ws[10].1 <= usize::MAX && ws[11].1 <= usize::MAX);
        assert(ws[12].1 <= usize::MAX && ws[13].1 <= usize::MAX && ws[14].1 <= usize::MAX);
        assert(ws[15].1 <= usize::MAX && ws[16].1 <= usize::MAX);
    }
    let d: usize = c.d;
    let mut out: Vec<(Work, u64)> = Vec::new();
    out.push((Work::Ids, words(capacity, 1)));
    out.push((Work::Positions, words(capacity, 1)));
    out.push((Work::Meta, words(capacity, 4)));
    out.push((Work::Spans, words(max_seqs, 3)));
    out.push((Work::Pairs, words(max_seqs, 2)));
    out.push((Work::X, words(capacity, d)));
    out.push((Work::H, words(capacity, d)));
    out.push((Work::Qkv, words(capacity, 3 * d)));
    out.push((Work::Attn, words(capacity, d)));
    out.push((Work::A, words(capacity, d)));
    out.push((Work::Act, words(capacity, c.ff)));
    out.push((Work::Vectors, words(max_seqs, d)));
    out.push((Work::Feats, words(max_seqs, c.head_in)));
    out.push((Work::Hact, words(max_seqs, c.head_hidden)));
    out.push((Work::Logits, words(max_seqs, 1)));
    out.push((Work::Staging, (max_seqs * (d + 1) * 4) as u64));
    out.push((Work::Params, 256 * e5_param_slots(c.layers) as u64));
    assert(size_views(out@) =~= ws);
    out
}

/// Why a tensor cannot be taken, if it cannot.
pub open spec fn e5_push_fault(expected: Seq<NamedShape>, name: Seq<char>, t: QTensor) -> Option<
    Seq<char>,
> {
    match expected_fault(expected, name, t.shape@) {
        Some(e) => Some(e),
        None => upload_fault(name, t.shape@, t.dtype),
    }
}

/// Checks one incoming tensor before it is uploaded.
pub fn e5_push(expected: &Vec<TensorSpec>, name: &str, t: &QTensor) -> (r: Result<(), LoadError>)
    ensures
        match r {
            Ok(_) => e5_push_fault(spec_views(expected@), name@, *t) is None,
            Err(e) => e5_push_fault(spec_views(expected@), name@, *t) == Some(e@),
        },
{
    match check_expected(expected, name, t) {
        Ok(_) => check_upload(name, t),
        Err(e) => Err(e),
    }
}

/// One past the largest of the numbers, 0 without any.
pub open spec fn slots_used(s: Seq<u32>) -> nat
    decreases s.len(),
{
    if s.len() == 0 {
        0
    } else {
        let n = slots_used(s.drop_last());
        if s.last() as nat + 1 > n {
            s.last() as nat + 1
        } else {
            n
        }
    }
}

/// Both slots of every pair.
pub open spec fn pair_slots(pairs: Seq<(u32, u32)>) -> Seq<u32> {
    Seq::new(
        2 * pairs.len(),
        |i: int|
            if i % 2 == 0 {
                pairs[i / 2].0
            } else {
                pairs[i / 2].1
            },
    )
}

/// The slots of uploaded vectors, which come with their lengths.
pub open spec fn upload_slots(uploaded: Seq<(u32, usize)>) -> Seq<u32> {
    uploaded.map_values(|u: (u32, usize)| u.0)
}

/// Every slot a pass touches.
pub open spec fn touched(
    slots: Seq<u32>,
    uploaded: Seq<(u32, usize)>,
    pairs: Seq<(u32, u32)>,
) -> Seq<u32> {
    slots + upload_slots(uploaded) + pair_slots(pairs)
}

/// The first uploaded vector of another width than the model's.
pub open spec fn upload_width_fault(uploaded: Seq<(u32, usize)>, d: nat, n: nat) -> Option<
    Seq<char>,
>
    decreases n,
{
    if n == 0 {
        None
    } else {
        match upload_width_fault(uploaded, d, (n - 1) as nat) {
            Some(e) => Some(e),
            None => if uploaded[n - 1].1 != d {
                Some(
                    "uploaded vector for slot "@ + decimal(uploaded[n - 1].0 as nat) + " has "@
                        + decimal(uploaded[n - 1].1 as nat) + " values, not "@ + decimal(d),
                )
            } else {
                None
            },
        }
    }
}

/// Token sequences, without markers.
pub open spec fn plain_sequences(seqs: Seq<Vec<u32>>, out: Seq<Sequence>) -> bool {
    &&& out.len() == seqs.len()
    &&& forall|i: int|
        0 <= i < seqs.len() ==> (#[trigger] out[i]).ids@ == seqs[i]@ && out[i].markers@.len() == 0
            && out[i].qtype == 0
}

/// Where text `n` starts.
pub open spec fn text_start(seqs: Seq<Vec<u32>>, n: nat) -> nat
    decreases n,
{
    if n == 0 {
        0
    } else {
        text_start(seqs, (n - 1) as nat) + seqs[n - 1]@.len()
    }
}

/// What is wrong with a text's tokens, if anything.
pub open spec fn text_fault(ids: Seq<u32>, si: nat, max_len: nat, vocab: nat) -> Option<Seq<char>> {
    if ids.len() == 0 {
        Some("sequence "@ + decimal(si) + " is empty"@)
    } else if ids.len() > max_len {
        Some(
            "sequence "@ + decimal(si) + ": "@ + decimal(ids.len()) + " tokens > max_len "@
                + decimal(max_len),
        )
    } else {
        id_fault(ids, vocab, ids.len())
    }
}

/// The fault of the first of the first `n` texts that has one.
pub open spec fn texts_fault(seqs: Seq<Vec<u32>>, max_len: nat, vocab: nat, n: nat) -> Option<
    Seq<char>,
>
    decreases n,
{
    if n == 0 {
        None
    } else {
        match texts_fault(seqs, max_len, vocab, (n - 1) as nat) {
            Some(e) => Some(e),
            None => text_fault(seqs[n - 1]@, (n - 1) as nat, max_len, vocab),
        }
    }
}

/// Why a pass cannot be run, if it cannot.
pub open spec fn e5_run_fault(
    c: E5Config,
    seqs: Seq<Vec<u32>>,
    slots: Seq<u32>,
    uploaded: Seq<(u32, usize)>,
    pairs: Seq<(u32, u32)>,
    capacity: nat,
    max_seqs: nat,
) -> Option<Seq<char>> {
    let total = text_start(seqs, seqs.len());
    let used = slots_used(touched(slots, uploaded, pairs));
    if total > capacity {
        Some(decimal(total) + " tokens exceed the engine capacity "@ + decimal(capacity))
    } else if seqs.len() != slots.len() {
        Some(decimal(seqs.len()) + " sequences for "@ + decimal(slots.len()) + " slots"@)
    } else if used > max_seqs || pairs.len() > max_seqs {
        Some(
            decimal(used) + " vector slots / "@ + decimal(pairs.len())
                + " pairs exceed the engine's "@ + decimal(max_seqs) + " per pass"@,
        )
    } else if texts_fault(seqs, c.max_len as nat, c.vocab as nat, seqs.len()) is Some {
        texts_fault(seqs, c.max_len as nat, c.vocab as nat, seqs.len())
    } else {
        upload_width_fault(uploaded, c.d as nat, uploaded.len())
    }
}

/// The ids of the first `n` texts.
pub open spec fn texts_ids(seqs: Seq<Vec<u32>>, n: nat) -> Seq<u32>
    decreases n,
{
    if n == 0 {
        Seq::empty()
    } else {
        texts_ids(seqs, (n - 1) as nat) + seqs[n - 1]@
    }
}

/// The position of every token in its text.
pub open spec fn texts_positions(seqs: Seq<Vec<u32>>, n: nat) -> Seq<u32>
    decreases n,
{
    if n == 0 {
        Seq::empty()
    } else {
        texts_positions(seqs, (n - 1) as nat) + Seq::new(seqs[n - 1]@.len(), |i: int| i as u32)
    }
}

/// Where every token stands: its position, its text, where the text starts
/// and where it ends.
pub open spec fn texts_meta(seqs: Seq<Vec<u32>>, n: nat) -> Seq<i32>
    decreases n,
{
    if n == 0 {
        Seq::empty()
    } else {
        texts_meta(seqs, (n - 1) as nat) + sequence_meta(
            text_start(seqs, (n - 1) as nat),
            seqs[n - 1]@.len(),
            (n - 1) as nat,
        )
    }
}

/// Where every text starts and ends, and the slot its vector goes to.
pub open spec fn texts_spans(seqs: Seq<Vec<u32>>, slots: Seq<u32>, n: nat) -> Seq<u32>
    decreases n,
{
    if n == 0 {
        Seq::empty()
    } else {
        texts_spans(seqs, slots, (n - 1) as nat) + seq![
            text_start(seqs, (n - 1) as nat) as u32,
            text_start(seqs, n) as u32,
            slots[n - 1],
        ]
    }
}

/// The texts and pairs of a pass as the buffers hold them.
#[derive(Debug)]
pub struct E5Batch {
    pub ids: Vec<u32>,
    pub positions: Vec<u32>,
    pub meta: Vec<i32>,
    pub spans: Vec<u32>,
    pub pairs: Vec<u32>,
}

fn as_sequences(seqs: &Vec<Vec<u32>>) -> (r: Vec<Sequence>)
    ensures
        plain_sequences(seqs@, r@),
{
    let mut out: Vec<Sequence> = Vec::new();
    let mut i: usize = 0;
    while i < seqs.len()
        invariant
            0 <= i <= seqs@.len(),
            plain_sequences(seqs@.take(i as int), out@),
        decreases seqs@.len() - i,
    {
        out.push(Sequence { ids: seqs[i].clone(), markers: Vec::new(), qtype: 0 });
        i += 1;
        assert(plain_sequences(seqs@.take(i as int), out@));
    }
    assert(seqs@.take(i as int) =~= seqs@);
    out
}

proof fn same_batch(seqs: Seq<Vec<u32>>, out: Seq<Sequence>, n: nat)
    requires
        plain_sequences(seqs, out),
        n <= seqs.len(),
    ensures
        start_of(out, n) == text_start(seqs, n),
        batch_ids(out, n) == texts_ids(seqs, n),
        batch_meta(out, n) == texts_meta(seqs, n),
    decreases n,
{
    if n > 0 {
        same_batch(seqs, out, (n - 1) as nat);
        assert(out[n - 1].ids@ == seqs[n - 1]@);
    }
}

proof fn same_fault(seqs: Seq<Vec<u32>>, out: Seq<Sequence>, max_len: nat, vocab: nat, n: nat)
    requires
        plain_sequences(seqs, out),
        n <= seqs.len(),
    ensures
        sequences_fault(out, max_len, vocab, n) == texts_fault(seqs, max_len, vocab, n),
    decreases n,
{
    if n > 0 {
        same_fault(seqs, out, max_len, vocab, (n - 1) as nat);
        assert(out[n - 1].ids@ == seqs[n - 1]@);
    }
}

fn flat_pairs(pairs: &Vec<(u32, u32)>) -> (r: Vec<u32>)
    ensures
        r@ == pair_slots(pairs@),
{
    let mut out: Vec<u32> = Vec::new();
    let mut i: usize = 0;
    while i < pairs.len()
        invariant
            0 <= i <= pairs@.len(),
            out@ == pair_slots(pairs@.take(i as int)),
        decreases pairs@.len() - i,
    {
        out.push(pairs[i].0);
        out.push(pairs[i].1);
        i += 1;
        assert(out@ =~= pair_slots(pairs@.take(i as int)));
    }
    assert(pairs@.take(i as int) =~= pairs@);
    out
}

/// How many vector slots a pass uses: one past the largest it touches.
fn count_slots(slots: &Vec<u32>, uploaded: &Vec<(u32, usize)>, flat: &Vec<u32>) -> (r: u64)
    ensures
        r == slots_used(slots@ + upload_slots(uploaded@) + flat@),
{
    let ghost ups = upload_slots(uploaded@);
    let mut n: u64 = 0;
    let mut i: usize = 0;
    assert(slots@.take(0) =~= Seq::<u32>::empty());
    while i < slots.len()
        invariant
            0 <= i <= slots@.len(),
            n == slots_used(slots@.take(i as int)),
        decreases slots@.len() - i,
    {
        let s: u64 = slots[i] as u64 + 1;
        if s > n {
            n = s;
        }
        i += 1;
        assert(slots@.take(i as int).drop_last() =~= slots@.take(i as int - 1));
    }
    assert(slots@.take(i as int) =~= slots@);
    let mut i: usize = 0;
    assert(slots@ + ups.take(0) =~= slots@);
    while i < uploaded.len()
        invariant
            0 <= i <= uploaded@.len(),
            ups == upload_slots(uploaded@),
            n == slots_used(slots@ + ups.take(i as int)),
        decreases uploaded@.len() - i,
    {
        let s: u64 = uploaded[i].0 as u64 + 1;
        if s > n {
            n = s;
        }
        i += 1;
        assert((slots@ + ups.take(i as int)).drop_last() =~= slots@ + ups.take(i as int - 1));
    }
    assert(ups.take(i as int) =~= ups);
    let ghost most = slots@ + ups;
    let mut i: usize = 0;
    assert(most + flat@.take(0) =~= most);
    while i < flat.len()
        invariant
            0 <= i <= flat@.len(),
            n == slots_used(most + flat@.take(i as int)),
        decreases flat@.len() - i,
    {
        let s: u64 = flat[i] as u64 + 1;
        if s > n {
            n = s;
        }
        i += 1;
        assert((most + flat@.take(i as int)).drop_last() =~= most + flat@.take(i as int - 1));
    }
    assert(flat@.take(i as int) =~= flat@);
    n
}

proof fn upload_width_stays(uploaded: Seq<(u32, usize)>, d: nat, i: nat, n: nat)
    requires
        i <= n,
        upload_width_fault(uploaded, d, i) is Some,
    ensures
        upload_width_fault(uploaded, d, n) == upload_width_fault(uploaded, d, i),
    decreases n - i,
{
    if i < n {
        upload_width_stays(uploaded, d, i + 1, n);
    }
}

fn check_widths_of(uploaded: &Vec<(u32, usize)>, d: usize) -> (r: Result<(), LoadError>)
    ensures
        match r {
            Ok(_) => upload_width_fault(uploaded@, d as nat, uploaded@.len()) is None,
            Err(e) => upload_width_fault(uploaded@, d as nat, uploaded@.len()) == Some(e@),
        },
{
    let mut i: usize = 0;
    while i < uploaded.len()
        invariant
            0 <= i <= uploaded@.len(),
            upload_width_fault(uploaded@, d as nat, i as nat) is None,
        decreases uploaded@.len() - i,
    {
        let (slot, n) = uploaded[i];
        if n != d {
            let mut m: String = "uploaded vector for slot ".to_owned();
            push_decimal(&mut m, slot as u64);
            m.append(" has ");
            push_decimal(&mut m, n as u64);
            m.append(" values, not ");
            push_decimal(&mut m, d as u64);
            proof {
                upload_width_stays(uploaded@, d as nat, (i + 1) as nat, uploaded@.len());
            }
            return Err(LoadError::new(m));
        }
        i += 1;
    }
    Ok(())
}

proof fn text_start_grows(seqs: Seq<Vec<u32>>, i: nat, n: nat)
    requires
        i <= n <= seqs.len(),
    ensures
        text_start(seqs, i) <= text_start(seqs, n),
    decreases n - i,
{
    if i < n {
        text_start_grows(seqs, i + 1, n);
    }
}

fn spans_of(seqs: &Vec<Vec<u32>>, slots: &Vec<u32>) -> (r: (Vec<u32>, Vec<u32>))
    requires
        seqs@.len() == slots@.len(),
        text_start(seqs@, seqs@.len()) <= usize::MAX,
    ensures
        r.0@ == texts_positions(seqs@, seqs@.len()),
        r.1@ == texts_spans(seqs@, slots@, seqs@.len()),
{
    let mut positions: Vec<u32> = Vec::new();
    let mut spans: Vec<u32> = Vec::new();
    let mut start: usize = 0;
    let mut si: usize = 0;
    assert(positions@ =~= texts_positions(seqs@, 0));
    assert(spans@ =~= texts_spans(seqs@, slots@, 0));
    while si < seqs.len()
        invariant
            0 <= si <= seqs@.len(),
            seqs@.len() == slots@.len(),
            text_start(seqs@, seqs@.len()) <= usize::MAX,
            start == text_start(seqs@, si as nat),
            positions@ == texts_positions(seqs@, si as nat),
            spans@ == texts_spans(seqs@, slots@, si as nat),
        decreases seqs@.len() - si,
    {
        proof {
            text_start_grows(seqs@, (si + 1) as nat, seqs@.len());
        }
        let n: usize = seqs[si].len();
        let ghost before = positions@;
        let mut i: usize = 0;
        assert(positions@ =~= before + Seq::new(0nat, |j: int| j as u32));
        while i < n
            invariant
                0 <= i <= n,
                positions@ == before + Seq::new(i as nat, |j: int| j as u32),
            decreases n - i,
        {
            positions.push(i as u32);
            i += 1;
            assert(positions@ =~= before + Seq::new(i as nat, |j: int| j as u32));
        }
        let ghost sofar = spans@;
        spans.push(start as u32);
        spans.push((start + n) as u32);
        spans.push(slots[si]);
        start += n;
        si += 1;
        assert(spans@ =~= sofar + seq![
            text_start(seqs@, (si - 1) as nat) as u32,
            text_start(seqs@, si as nat) as u32,
            slots@[si - 1],
        ]);
    }
    (positions, spans)
}

/// Packs a pass: `seqs` are encoded into the vector slots `slots`, the
/// vectors of `uploaded` are written to theirs, and every (state slot, option
/// slot) of `pairs` is scored.
pub fn e5_pack(
    c: &E5Config,
    seqs: &Vec<Vec<u32>>,
    slots: &Vec<u32>,
    uploaded: &Vec<(u32, usize)>,
    pairs: &Vec<(u32, u32)>,
    capacity: usize,
    max_seqs: usize,
) -> (r: Result<E5Batch, LoadError>)
    requires
        text_start(seqs@, seqs@.len()) <= usize::MAX,
    ensures
        ({
            let fault = e5_run_fault(
                *c,
                seqs@,
                slots@,
                uploaded@,
                pairs@,
                capacity as nat,
                max_seqs as nat,
            );
            match r {
                Ok(b) => fault is None && b.ids@ == texts_ids(seqs@, seqs@.len()) && b.positions@
                    == texts_positions(seqs@, seqs@.len()) && b.meta@ == texts_meta(
                    seqs@,
                    seqs@.len(),
                ) && b.spans@ == texts_spans(seqs@, slots@, seqs@.len()) && b.pairs@
                    == pair_slots(pairs@),
                Err(e) => fault == Some(e@),
            }
        }),
{
    let list = as_sequences(seqs);
    proof {
        same_batch(seqs@, list@, seqs@.len());
        same_fault(seqs@, list@, c.max_len as nat, c.vocab as nat, seqs@.len());
    }
    let total: usize = total_length(&list);
    if total > capacity {
        let mut m: String = String::new();
        push_decimal(&mut m, total as u64);
        m.append(" tokens exceed the engine capacity ");
        push_decimal(&mut m, capacity as u64);
        assert(m@ =~= decimal(total as nat) + " tokens exceed the engine capacity "@ + decimal(
            capacity as nat,
        ));
        return Err(LoadError::new(m));
    }
    if seqs.len() != slots.len() {
        let mut m: String = String::new();
        push_decimal(&mut m, seqs.len() as u64);
        m.append(" sequences for ");
        push_decimal(&mut m, slots.len() as u64);
        m.append(" slots");
        assert(m@ =~= decimal(seqs@.len()) + " sequences for "@ + decimal(slots@.len())
            + " slots"@);
        return Err(LoadError::new(m));
    }
    let flat = flat_pairs(pairs);
    let used: u64 = count_slots(slots, uploaded, &flat);
    if used > max_seqs as u64 || pairs.len() > max_seqs {
        let mut m: String = String::new();
        push_decimal(&mut m, used);
        m.append(" vector slots / ");
        push_decimal(&mut m, pairs.len() as u64);
        m.append(" pairs exceed the engine's ");
        push_decimal(&mut m, max_seqs as u64);
        m.append(" per pass");
        assert(m@ =~= decimal(used as nat) + " vector slots / "@ + decimal(pairs@.len())
            + " pairs exceed the engine's "@ + decimal(max_seqs as nat) + " per pass"@);
        return Err(LoadError::new(m));
    }
    let b = match pack_sequences(&list, c.max_len, c.vocab) {
        Ok(b) => b,
        Err(e) => {
            return Err(e);
        },
    };
    match check_widths_of(uploaded, c.d) {
        Ok(_) => {},
        Err(e) => {
            return Err(e);
        },
    }
    let (positions, spans) = spans_of(seqs, slots);
    Ok(E5Batch { ids: b.ids, positions, meta: b.meta, spans, pairs: flat })
}

/// The vectors and the logits of a pass over `n` texts, out of what it read
/// back.
pub open spec fn e5_outputs(vecs: Seq<Vec<u32>>, logits: Seq<u32>, data: Seq<u32>, d: nat, n: nat) -> bool {
    &&& vecs.len() == n
    &&& forall|i: int| 0 <= i < n ==> (#[trigger] vecs[i])@ == row_of(data, d, i as nat)
    &&& logits == data.skip((n * d) as int)
}

/// Splits what a pass read back: a vector per text, then the logits.
pub fn split_outputs(data: &Vec<u32>, d: usize, n: usize) -> (r: (Vec<Vec<u32>>, Vec<u32>))
    requires
        n * d <= data@.len(),
    ensures
        e5_outputs(r.0@, r.1@, data@, d as nat, n as nat),
{
    let len: usize = data.len();
    let mut vecs: Vec<Vec<u32>> = Vec::new();
    let mut at: usize = 0;
    let mut i: usize = 0;
    assert(0 * d == 0) by (nonlinear_arith);
    while i < n
        invariant
            0 <= i <= n,
            len == data@.len(),
            n * d <= len,
            at == i * d,
            vecs@.len() == i,
            forall|j: int|
                0 <= j < i ==> (#[trigger] vecs@[j])@ == row_of(
                    data@,
                    d as nat,
                    j as nat,
                ),
        decreases n - i,
    {
        proof {
            assert((i + 1) * d == i * d + d) by (nonlinear_arith);
            assert((i + 1) * d <= n * d) by (nonlinear_arith)
                requires
                    i + 1 <= n,
            ;
        }
        let end: usize = at + d;
        let row = vstd::slice::slice_to_vec(
            vstd::slice::slice_subrange(data.as_slice(), at, end),
        );
        assert(row@ =~= row_of(data@, d as nat, i as nat));
        vecs.push(row);
        at = end;
        i += 1;
    }
    let logits = vstd::slice::slice_to_vec(vstd::slice::slice_subrange(data.as_slice(), at, len));
    assert(logits@ =~= data@.skip(at as int));
    (vecs, logits)
}

proof fn e5_layer_fits(c: E5Config, dtypes: Seq<(Seq<char>, Dtype)>, l: int)
    ensures
        all_fit(e5_layer_wires(c, dtypes, l)),
{
    let ws = e5_layer_wires(c, dtypes, l);
    assert(fits_kernel(ws[0]) && fits_kernel(ws[1]) && fits_kernel(ws[2]) && fits_kernel(ws[3]));
    assert(fits_kernel(ws[4]) && fits_kernel(ws[5]) && fits_kernel(ws[6]) && fits_kernel(ws[7]));
    assert(fits_kernel(ws[8]));
    if c.arch is Bert {
        assert(fits_kernel(ws[9]) && fits_kernel(ws[10]));
    } else if l > 0 {
        assert(fits_kernel(ws[9]));
    }
}

proof fn e5_fits_upto(c: E5Config, dtypes: Seq<(Seq<char>, Dtype)>, n: nat)
    ensures
        all_fit(e5_wires_upto(c, dtypes, n)),
    decreases n,
{
    if n == 0 {
        let ws = e5_first_wires(c, dtypes);
        assert(fits_kernel(ws[0]) && fits_kernel(ws[1]));
        if c.arch is Bert {
            assert(fits_kernel(ws[2]) && fits_kernel(ws[3]));
        }
    } else {
        e5_fits_upto(c, dtypes, (n - 1) as nat);
        e5_layer_fits(c, dtypes, n - 1);
        fits_together(e5_wires_upto(c, dtypes, (n - 1) as nat), e5_layer_wires(c, dtypes, n - 1));
    }
}

/// Every dispatch that encodes texts or scores pairs binds as many buffers as
/// its kernel takes.
pub proof fn e5_wires_fit_their_kernels(c: E5Config, dtypes: Seq<(Seq<char>, Dtype)>)
    ensures
        all_fit(e5_encoder_wires(c, dtypes)),
        all_fit(e5_head_wires(dtypes)),
{
    e5_fits_upto(c, dtypes, c.layers as nat);
    let pool = e5_pool_wires(c);
    assert(fits_kernel(pool[0]));
    assert(c.arch is ModernBert ==> fits_kernel(pool[1]));
    fits_together(e5_wires_upto(c, dtypes, c.layers as nat), pool);
    let ws = e5_head_wires(dtypes);
    assert(fits_kernel(ws[0]) && fits_kernel(ws[1]) && fits_kernel(ws[2]) && fits_kernel(ws[3]));
    assert(fits_kernel(ws[4]));
}

/// Every launch of layer `l` tells the truth about what its wire binds, by the
/// tensors that the engine expects: widths and depths are those of the bound
/// weights, and a row or a bias is added exactly where one is bound.
pub proof fn e5_layer_launches_suit_the_wiring(
    c: E5Config,
    dtypes: Seq<(Seq<char>, Dtype)>,
    t: nat,
    l: int,
)
    requires
        3 * c.d <= usize::MAX,
        0 <= l < c.layers,
        e5_wiring_fault(c, dtypes) is None,
    ensures
        all_suit(e5_layer_tensors(c, l), e5_layer_launches(c, t, l), e5_layer_wires(c, dtypes, l)),
{
    let ts = e5_layer_tensors(c, l);
    let ds = e5_layer_launches(c, t, l);
    let ws = e5_layer_wires(c, dtypes, l);
    let n = |s: Seq<char>| part_name("enc."@, l, s);
    let b: int = if c.norm_bias {
        1
    } else {
        0
    };
    match c.arch {
        Arch::Bert => {
            assert(ts[0].0 == n("qkv"@) && ts[0].1 =~= seq![(3 * c.d) as usize, c.d]);
            assert(ts[1].0 == n("qkv_b"@) && ts[1].1 =~= seq![(3 * c.d) as usize]);
            assert(ts[2].0 == n("o"@) && ts[2].1 =~= seq![c.d, c.d]);
            assert(ts[3].0 == n("o_b"@) && ts[3].1 =~= seq![c.d]);
            assert(ts[4].0 == n("attn_norm"@) + "_w"@ && ts[4].1 =~= seq![c.d]);
            assert(c.norm_bias ==> ts[5].0 == n("attn_norm"@) + "_b"@ && ts[5].1 =~= seq![c.d]);
            assert(ts[5 + b].0 == n("wi"@) && ts[5 + b].1 =~= seq![c.ff, c.d]);
            assert(ts[6 + b].0 == n("wi_b"@) && ts[6 + b].1 =~= seq![c.ff]);
            assert(ts[7 + b].0 == n("wo"@) && ts[7 + b].1 =~= seq![c.d, c.ff]);
            assert(ts[8 + b].0 == n("wo_b"@) && ts[8 + b].1 =~= seq![c.d]);
            assert(ts[9 + b].0 == n("mlp_norm"@) + "_w"@ && ts[9 + b].1 =~= seq![c.d]);
            assert(c.norm_bias ==> ts[11].0 == n("mlp_norm"@) + "_b"@ && ts[11].1 =~= seq![c.d]);
            assert(suits(ts, ds[0], ws[0]));
            assert(suits(ts, ds[1], ws[1]));
            assert(suits(ts, ds[2], ws[2]));
            assert(suits(ts, ds[3], ws[3]));
            assert(suits(ts, ds[4], ws[4]));
            assert(suits(ts, ds[5], ws[5]));
            assert(suits(ts, ds[6], ws[6]));
            assert(suits(ts, ds[7], ws[7]));
            assert(suits(ts, ds[8], ws[8]));
            assert(suits(ts, ds[9], ws[9]));
            assert(suits(ts, ds[10], ws[10]));
        },
        Arch::ModernBert => {
            if halves_fault(dtypes, (l + 1) as nat) is Some {
                halves_stay(dtypes, (l + 1) as nat, c.layers as nat);
            }
            let k: int = if l > 0 {
                1 + b
            } else {
                0
            };
            let j: int = if l > 0 {
                1
            } else {
                0
            };
            if l > 0 {
                assert(ts[0].0 == n("attn_norm"@) + "_w"@ && ts[0].1 =~= seq![c.d]);
                assert(c.norm_bias ==> ts[1].0 == n("attn_norm"@) + "_b"@ && ts[1].1 =~= seq![c.d]);
                assert(suits(ts, ds[0], ws[0]));
            }
            assert(ts[k].0 == n("qkv"@) && ts[k].1 =~= seq![(3 * c.d) as usize, c.d]);
            assert(ts[k + 1].0 == n("o"@) && ts[k + 1].1 =~= seq![c.d, c.d]);
            assert(ts[k + 2].0 == n("mlp_norm"@) + "_w"@ && ts[k + 2].1 =~= seq![c.d]);
            assert(c.norm_bias ==> ts[k + 3].0 == n("mlp_norm"@) + "_b"@ && ts[k + 3].1 =~= seq![
                c.d,
            ]);
            assert(ts[k + 3 + b].0 == n("wi_val"@) && ts[k + 3 + b].1 =~= seq![c.ff, c.d]);
            assert(ts[k + 4 + b].0 == n("wi_gate"@) && ts[k + 4 + b].1 =~= seq![c.ff, c.d]);
            assert(ts[k + 5 + b].0 == n("wo"@) && ts[k + 5 + b].1 =~= seq![c.d, c.ff]);
            reveal_strlit("wi_val");
            reveal_strlit("wi_gate");
            assert(n("wi_val"@).len() != n("wi_gate"@).len());
            assert(suits(ts, ds[j], ws[j]));
            assert(suits(ts, ds[j + 1], ws[j + 1]));
            assert(suits(ts, ds[j + 2], ws[j + 2]));
            assert(suits(ts, ds[j + 3], ws[j + 3]));
            assert(suits(ts, ds[j + 4], ws[j + 4]));
            assert(suits(ts, ds[j + 5], ws[j + 5]));
            assert(suits(ts, ds[j + 6], ws[j + 6]));
            assert(suits(ts, ds[j + 7], ws[j + 7]));
            assert(suits(ts, ds[j + 8], ws[j + 8]));
        },
    }
}

/// As [`e5_layer_launches_suit_the_wiring`], of the dispatches outside the
/// layers.
pub proof fn e5_outer_launches_suit_the_wiring(
    c: E5Config,
    dtypes: Seq<(Seq<char>, Dtype)>,
    t: nat,
    seqs: nat,
    pairs: nat,
)
    ensures
        all_suit(e5_first_tensors(c), e5_first_launches(c, t), e5_first_wires(c, dtypes)),
        all_suit(e5_first_tensors(c), e5_pool_launches(c, t, seqs), e5_pool_wires(c)),
        pairs > 0 ==> all_suit(e5_tensors(c), e5_head_launches(c, pairs), e5_head_wires(dtypes)),
{
    let ts = e5_first_tensors(c);
    let ds = e5_first_launches(c, t);
    let ws = e5_first_wires(c, dtypes);
    let ps = e5_pool_launches(c, t, seqs);
    let pw = e5_pool_wires(c);
    let b: int = if c.norm_bias {
        1
    } else {
        0
    };
    assert(ts[0].0 == "embed"@ && ts[0].1 =~= seq![c.vocab, c.d]);
    assert(suits(ts, ds[0], ws[0]));
    match c.arch {
        Arch::Bert => {
            assert(ts[1].0 == "pos_embed"@ && ts[1].1 =~= seq![c.max_pos, c.d]);
            assert(ts[2].0 == "type_embed"@ && ts[2].1 =~= seq![c.d]);
            assert(ts[3].0 == "embed_norm"@ + "_w"@ && ts[3].1 =~= seq![c.d]);
            assert(c.norm_bias ==> ts[4].0 == "embed_norm"@ + "_b"@ && ts[4].1 =~= seq![c.d]);
            assert(suits(ts, ds[1], ws[1]));
            assert(suits(ts, ds[2], ws[2]));
            assert(suits(ts, ds[3], ws[3]));
            assert(suits(ts, ps[0], pw[0]));
        },
        Arch::ModernBert => {
            assert(ts[1].0 == "embed_norm"@ + "_w"@ && ts[1].1 =~= seq![c.d]);
            assert(c.norm_bias ==> ts[2].0 == "embed_norm"@ + "_b"@ && ts[2].1 =~= seq![c.d]);
            assert(ts[2 + b].0 == "final_norm"@ + "_w"@ && ts[2 + b].1 =~= seq![c.d]);
            assert(c.norm_bias ==> ts[4].0 == "final_norm"@ + "_b"@ && ts[4].1 =~= seq![c.d]);
            assert(suits(ts, ds[1], ws[1]));
            assert(suits(ts, ps[0], pw[0]));
            assert(suits(ts, ps[1], pw[1]));
        },
    }
    if pairs > 0 {
        let cat = e5_tensors(c);
        let f = e5_tensors_upto(c, c.layers as nat).len() as int;
        let hs = e5_head_launches(c, pairs);
        let hw = e5_head_wires(dtypes);
        assert(cat[f].0 == "head.l1"@ && cat[f].1 =~= seq![c.head_hidden, c.head_in]);
        assert(cat[f + 1].0 == "head.l1_b"@ && cat[f + 1].1 =~= seq![c.head_hidden]);
        assert(cat[f + 2].0 == "head.l2"@ && cat[f + 2].1 =~= seq![1, c.head_hidden]);
        assert(cat[f + 3].0 == "head.l2_b"@ && cat[f + 3].1 =~= seq![1usize]);
        assert(suits(cat, hs[0], hw[0]));
        assert(suits(cat, hs[1], hw[1]));
        assert(suits(cat, hs[2], hw[2]));
        assert(suits(cat, hs[3], hw[3]));
        assert(suits(cat, hs[4], hw[4]));
    }
}

/// A layer reads its own weights, every one once and in the order in which the
/// tensors are listed.
pub proof fn an_e5_layer_reads_its_weights_in_order(
    c: E5Config,
    dtypes: Seq<(Seq<char>, Dtype)>,
    l: int,
)
    ensures
        weights_read(e5_layer_wires(c, dtypes, l)) == names_of(e5_layer_tensors(c, l)),
{
    let ws = e5_layer_wires(c, dtypes, l);
    let n = |s: Seq<char>| part_name("enc."@, l, s);
    let bias = |s: Seq<char>|
        if c.norm_bias {
            seq![n(s) + "_w"@, n(s) + "_b"@]
        } else {
            seq![n(s) + "_w"@]
        };
    reveal_with_fuel(weights_in, 7);
    weights_of_next(ws, 0);
    weights_of_next(ws, 1);
    weights_of_next(ws, 2);
    weights_of_next(ws, 3);
    weights_of_next(ws, 4);
    weights_of_next(ws, 5);
    weights_of_next(ws, 6);
    weights_of_next(ws, 7);
    weights_of_next(ws, 8);
    assert(ws.take(0) =~= seq![]);
    assert(ws.take(ws.len() as int) =~= ws);
    match c.arch {
        Arch::Bert => {
            weights_of_next(ws, 9);
            weights_of_next(ws, 10);
            assert(weights_in(ws[0].bufs) =~= seq![n("qkv"@)]);
            assert(weights_in(ws[1].bufs) =~= seq![n("qkv_b"@)]);
            assert(weights_in(ws[2].bufs) =~= seq![]);
            assert(weights_in(ws[3].bufs) =~= seq![n("o"@)]);
            assert(weights_in(ws[4].bufs) =~= seq![n("o_b"@)]);
            assert(weights_in(ws[5].bufs) =~= bias("attn_norm"@));
            assert(weights_in(ws[6].bufs) =~= seq![n("wi"@)]);
            assert(weights_in(ws[7].bufs) =~= seq![n("wi_b"@)]);
            assert(weights_in(ws[8].bufs) =~= seq![n("wo"@)]);
            assert(weights_in(ws[9].bufs) =~= seq![n("wo_b"@)]);
            assert(weights_in(ws[10].bufs) =~= bias("mlp_norm"@));
            assert(weights_read(ws.take(11)) =~= names_of(e5_layer_tensors(c, l)));
        },
        Arch::ModernBert => {
            let j: int = if l > 0 {
                1
            } else {
                0
            };
            if l > 0 {
                weights_of_next(ws, 9);
                assert(weights_in(ws[0].bufs) =~= bias("attn_norm"@));
            }
            assert(weights_in(ws[j].bufs) =~= seq![n("qkv"@)]);
            assert(weights_in(ws[j + 1].bufs) =~= seq![]);
            assert(weights_in(ws[j + 2].bufs) =~= seq![]);
            assert(weights_in(ws[j + 3].bufs) =~= seq![n("o"@)]);
            assert(weights_in(ws[j + 4].bufs) =~= seq![]);
            assert(weights_in(ws[j + 5].bufs) =~= bias("mlp_norm"@));
            assert(weights_in(ws[j + 6].bufs) =~= seq![n("wi_val"@), n("wi_gate"@)]);
            assert(weights_in(ws[j + 7].bufs) =~= seq![n("wo"@)]);
            assert(weights_in(ws[j + 8].bufs) =~= seq![]);
            assert(weights_read(ws.take(j + 9)) =~= names_of(e5_layer_tensors(c, l)));
        },
    }
}

/// Within a layer every dispatch reads what the one before it wrote, the first
/// reads the stream and the last writes it.
pub proof fn an_e5_layer_is_a_chain(c: E5Config, dtypes: Seq<(Seq<char>, Dtype)>, l: int, i: int)
    requires
        0 <= l,
        0 <= i < e5_layer_wires(c, dtypes, l).len() - 1,
    ensures
        ({
            let ws = e5_layer_wires(c, dtypes, l);
            &&& feeds(ws[i], ws[i + 1])
            &&& ws[0].bufs[0] == BufView::Work(Work::X)
            &&& ws.last().bufs.last() == BufView::Work(Work::X)
        }),
{
    let ws = e5_layer_wires(c, dtypes, l);
    match c.arch {
        Arch::Bert => {
            if i == 0 {
                assert(ws[0].bufs[3] == ws[1].bufs[2]);
            } else if i == 1 {
                assert(ws[1].bufs[2] == ws[2].bufs[0]);
            } else if i == 2 {
                assert(ws[2].bufs[2] == ws[3].bufs[0]);
            } else if i == 3 {
                assert(ws[3].bufs[3] == ws[4].bufs[0]);
            } else if i == 4 {
                assert(ws[4].bufs[2] == ws[5].bufs[0]);
            } else if i == 5 {
                assert(ws[5].bufs[3] == ws[6].bufs[0]);
            } else if i == 6 {
                assert(ws[6].bufs[3] == ws[7].bufs[2]);
            } else if i == 7 {
                assert(ws[7].bufs[2] == ws[8].bufs[0]);
            } else if i == 8 {
                assert(ws[8].bufs[3] == ws[9].bufs[0]);
            } else {
                assert(ws[9].bufs[2] == ws[10].bufs[0]);
            }
        },
        Arch::ModernBert => {
            let j = if l > 0 {
                i
            } else {
                i + 1
            };
            if j == 0 {
                assert(ws[i].bufs[3] == ws[i + 1].bufs[0]);
            } else if j == 1 {
                assert(ws[i].bufs[3] == ws[i + 1].bufs[1]);
            } else if j == 2 {
                assert(ws[i].bufs[1] == ws[i + 1].bufs[0]);
            } else if j == 3 {
                assert(ws[i].bufs[2] == ws[i + 1].bufs[0]);
            } else if j == 4 {
                assert(ws[i].bufs[3] == ws[i + 1].bufs[0]);
            } else if j == 5 {
                assert(ws[i].bufs[2] == ws[i + 1].bufs[0]);
            } else if j == 6 {
                assert(ws[i].bufs[3] == ws[i + 1].bufs[0]);
            } else if j == 7 {
                assert(ws[i].bufs[5] == ws[i + 1].bufs[0]);
            } else {
                assert(ws[i].bufs[3] == ws[i + 1].bufs[0]);
            }
        },
    }
}

/// A text's vector is the mean of its rows of what the last dispatch of the
/// encoder wrote; the feature rows of the pairs come from the vectors, and
/// every further dispatch of the head reads what the one before it wrote.
pub proof fn vectors_reach_the_head(
    c: E5Config,
    dtypes: Seq<(Seq<char>, Dtype)>,
    t: nat,
    l: int,
    pairs: nat,
    i: int,
)
    requires
        0 <= l < c.layers,
        0 < c.heads,
        3 * c.d <= u32::MAX,
        0 < pairs,
        0 <= i < 4,
    ensures
        ({
            let ps = e5_pool_wires(c);
            let hs = e5_head_wires(dtypes);
            let layer = e5_layer_wires(c, dtypes, l);
            let launch = e5_layer_launches(c, t, l);
            let j: int = if l > 0 {
                1
            } else {
                0
            };
            let attn: int = if c.arch is Bert {
                2
            } else {
                j + 2
            };
            &&& c.arch is Bert ==> ps.last().bufs[1] == layer.last().bufs.last()
            &&& c.arch is ModernBert ==> ps[0].bufs[0] == layer.last().bufs.last()
                && ps[1].bufs[1] == ps[0].bufs[3]
            &&& ps.last().bufs[0] == BufView::Work(Work::Spans)
            &&& ps.last().bufs[2] == hs[0].bufs[1]
            &&& hs[0].bufs[0] == BufView::Work(Work::Pairs)
            &&& feeds(hs[i], hs[i + 1])
            &&& hs[4].bufs[2] == BufView::Work(Work::Logits)
            &&& layer[attn].kernel is AttentionBi
            &&& layer[attn].hd == c.d as nat / c.heads as nat
            &&& launch[attn].block->AttnBi_stride == 3 * c.d
            &&& launch[attn].block->AttnBi_k_off == c.d
            &&& launch[attn].block->v_off == 2 * c.d
            &&& launch[attn].block->AttnBi_heads == c.heads as u32
            &&& c.arch is Bert ==> launch[attn].block->AttnBi_window == 0
            &&& c.arch is ModernBert ==> {
                &&& launch[attn].block->AttnBi_window == (if c.sliding@[l] {
                    c.window as u32
                } else {
                    0u32
                })
                &&& launch[attn - 1].block->Rope_sliding == c.sliding@[l]
                &&& launch[attn - 1].block->Rope_stride == 3 * c.d
                &&& launch[attn - 1].block->Rope_k_off == c.d
                &&& launch[attn - 1].block->Rope_heads == c.heads as u32
                &&& layer[attn - 1].hd == layer[attn].hd
                &&& layer[attn + 4].quant >= GELU_ERF
            }
            &&& c.arch is Bert ==> launch[7].block->mode == 2
            &&& e5_head_launches(c, pairs)[2].block->mode == 2
        }),
{
    let hs = e5_head_wires(dtypes);
    assert(0 <= c.d as nat / c.heads as nat <= c.d) by (nonlinear_arith)
        requires
            c.heads > 0,
    ;
    if i == 0 {
        assert(hs[0].bufs[2] == hs[1].bufs[0]);
    } else if i == 1 {
        assert(hs[1].bufs[3] == hs[2].bufs[2]);
    } else if i == 2 {
        assert(hs[2].bufs[2] == hs[3].bufs[0]);
    } else {
        assert(hs[3].bufs[3] == hs[4].bufs[2]);
    }
}

/// Every workspace buffer has room for what a pass over as many tokens and texts
/// as it is made for writes to it: four bytes for every column of every row.
pub proof fn e5_buffers_hold_what_is_written(
    c: E5Config,
    capacity: nat,
    max_seqs: nat,
    t: nat,
    n: nat,
)
    requires
        t <= capacity,
        n <= max_seqs,
    ensures
        ({
            let s = e5_workspace(c, capacity, max_seqs);
            let d = c.d as nat;
            &&& bytes_of(s, Work::Ids) >= 4 * t
            &&& bytes_of(s, Work::Positions) >= 4 * t
            &&& bytes_of(s, Work::Meta) >= 16 * t
            &&& bytes_of(s, Work::Spans) >= 12 * n
            &&& bytes_of(s, Work::Pairs) >= 8 * n
            &&& bytes_of(s, Work::X) >= 4 * (t * d)
            &&& bytes_of(s, Work::H) >= 4 * (t * d)
            &&& bytes_of(s, Work::A) >= 4 * (t * d)
            &&& bytes_of(s, Work::Attn) >= 4 * (t * d)
            &&& bytes_of(s, Work::Qkv) >= 4 * (t * (3 * d))
            &&& bytes_of(s, Work::Act) >= 4 * (t * c.ff as nat)
            &&& bytes_of(s, Work::Vectors) >= 4 * (n * d)
            &&& bytes_of(s, Work::Feats) >= 4 * (n * c.head_in as nat)
            &&& bytes_of(s, Work::Hact) >= 4 * (n * c.head_hidden as nat)
            &&& bytes_of(s, Work::Logits) >= 4 * n
            &&& bytes_of(s, Work::Staging) >= 4 * (n * d + n)
            &&& bytes_of(s, Work::Params) == 256 * e5_slots(c.layers as nat)
        }),
{
    let s = e5_workspace(c, capacity, max_seqs);
    let d = c.d as nat;
    bytes_at(s, 0);
    bytes_at(s, 1);
    bytes_at(s, 2);
    bytes_at(s, 3);
    bytes_at(s, 4);
    bytes_at(s, 5);
    bytes_at(s, 6);
    bytes_at(s, 7);
    bytes_at(s, 8);
    bytes_at(s, 9);
    bytes_at(s, 10);
    bytes_at(s, 11);
    bytes_at(s, 12);
    bytes_at(s, 13);
    bytes_at(s, 14);
    bytes_at(s, 15);
    bytes_at(s, 16);
    rows_have_room(t, d, capacity, d);
    rows_have_room(t, 3 * d, capacity, 3 * d);
    rows_have_room(t, c.ff as nat, capacity, c.ff as nat);
    rows_have_room(n, d, max_seqs, d);
    rows_have_room(n, c.head_in as nat, max_seqs, c.head_in as nat);
    rows_have_room(n, c.head_hidden as nat, max_seqs, c.head_hidden as nat);
    assert(n * d + n <= max_seqs * (d + 1)) by (nonlinear_arith)
        requires
            n <= max_seqs,
    ;
}

/// Text `s` keeps its tokens, counted from zero, and its span runs from its
/// first token to behind its last and names the slot that its vector goes to.
pub proof fn texts_keep_their_tokens_and_slots(
    seqs: Seq<Vec<u32>>,
    slots: Seq<u32>,
    n: nat,
    s: int,
    j: int,
)
    requires
        0 <= s < n <= seqs.len(),
        0 <= j < seqs[s]@.len(),
        text_start(seqs, n) <= u32::MAX,
    ensures
        text_start(seqs, s as nat) + j < text_start(seqs, n),
        texts_ids(seqs, n).len() == text_start(seqs, n),
        texts_positions(seqs, n).len() == text_start(seqs, n),
        texts_spans(seqs, slots, n).len() == 3 * n,
        texts_ids(seqs, n)[text_start(seqs, s as nat) + j] == seqs[s]@[j],
        texts_positions(seqs, n)[text_start(seqs, s as nat) + j] == j,
        texts_spans(seqs, slots, n)[3 * s] == text_start(seqs, s as nat),
        texts_spans(seqs, slots, n)[3 * s + 1] == text_start(seqs, s as nat) + seqs[s]@.len(),
        texts_spans(seqs, slots, n)[3 * s + 2] == slots[s],
    decreases n,
{
    text_lengths(seqs, slots, (n - 1) as nat);
    text_lengths(seqs, slots, n);
    if s < n - 1 {
        texts_keep_their_tokens_and_slots(seqs, slots, (n - 1) as nat, s, j);
    }
}

proof fn text_lengths(seqs: Seq<Vec<u32>>, slots: Seq<u32>, n: nat)
    requires
        n <= seqs.len(),
    ensures
        texts_ids(seqs, n).len() == text_start(seqs, n),
        texts_positions(seqs, n).len() == text_start(seqs, n),
        texts_spans(seqs, slots, n).len() == 3 * n,
    decreases n,
{
    if n > 0 {
        text_lengths(seqs, slots, (n - 1) as nat);
    }
}

/// A pair is handed over as its two slots, the first before the second.
pub proof fn pairs_keep_their_slots(pairs: Seq<(u32, u32)>, i: int)
    requires
        0 <= i < pairs.len(),
    ensures
        pair_slots(pairs).len() == 2 * pairs.len(),
        pair_slots(pairs)[2 * i] == pairs[i].0,
        pair_slots(pairs)[2 * i + 1] == pairs[i].1,
{
}

/// The slots in use reach behind every slot that is touched, and no further
/// than the last.
pub proof fn used_slots_reach_behind_every_slot(s: Seq<u32>, i: int)
    requires
        0 <= i < s.len(),
    ensures
        slots_used(s) > s[i],
        exists|k: int| 0 <= k < s.len() && slots_used(s) == (#[trigger] s[k]) + 1,
    decreases s.len(),
{
    let rest = s.drop_last();
    if rest.len() > 0 {
        used_slots_reach_behind_every_slot(rest, if i < rest.len() { i } else { 0 });
        let k = choose|k: int| 0 <= k < rest.len() && slots_used(rest) == (#[trigger] rest[k]) + 1;
        assert(rest[k] == s[k]);
        if i < rest.len() {
            assert(rest[i] == s[i]);
        }
    } else {
        assert(slots_used(rest) == 0);
    }
    assert(s[s.len() - 1] == s.last());
}

/// Texts are taken exactly where each has tokens, no more than the model
/// reads, and all of the vocabulary.
pub proof fn texts_are_taken_exactly_when_runnable(
    seqs: Seq<Vec<u32>>,
    max_len: nat,
    vocab: nat,
    n: nat,
)
    requires
        n <= seqs.len(),
    ensures
        texts_fault(seqs, max_len, vocab, n) is None <==> forall|k: int|
            0 <= k < n ==> 0 < (#[trigger] seqs[k])@.len() <= max_len && forall|i: int|
                0 <= i < seqs[k]@.len() ==> (#[trigger] seqs[k]@[i]) < vocab,
    decreases n,
{
    if n > 0 {
        texts_are_taken_exactly_when_runnable(seqs, max_len, vocab, (n - 1) as nat);
        let s = seqs[n - 1]@;
        tokens_pass_exactly_when_known(s, vocab, s.len());
        assert(text_fault(s, (n - 1) as nat, max_len, vocab) is None <==> 0 < s.len() <= max_len
            && forall|i: int| 0 <= i < s.len() ==> (#[trigger] s[i]) < vocab);
    }
}

/// Uploaded vectors are taken exactly where each is as wide as the model.
pub proof fn uploads_are_taken_exactly_when_as_wide(uploaded: Seq<(u32, usize)>, d: nat, n: nat)
    requires
        n <= uploaded.len(),
    ensures
        upload_width_fault(uploaded, d, n) is None <==> forall|i: int|
            0 <= i < n ==> (#[trigger] uploaded[i]).1 == d,
    decreases n,
{
    if n > 0 {
        uploads_are_taken_exactly_when_as_wide(uploaded, d, (n - 1) as nat);
        if forall|i: int| 0 <= i < n ==> (#[trigger] uploaded[i]).1 == d {
            assert(uploaded[n - 1].1 == d);
        }
    }
}

/// A run is taken exactly where the engine has room for its tokens, vectors
/// and pairs, every text has a slot and can be read, and every uploaded
/// vector is as wide as the model.
pub proof fn runs_are_taken_exactly_when_they_fit(
    c: E5Config,
    seqs: Seq<Vec<u32>>,
    slots: Seq<u32>,
    uploaded: Seq<(u32, usize)>,
    pairs: Seq<(u32, u32)>,
    capacity: nat,
    max_seqs: nat,
)
    ensures
        e5_run_fault(c, seqs, slots, uploaded, pairs, capacity, max_seqs) is None <==> {
            &&& text_start(seqs, seqs.len()) <= capacity
            &&& seqs.len() == slots.len()
            &&& slots_used(touched(slots, uploaded, pairs)) <= max_seqs
            &&& pairs.len() <= max_seqs
            &&& forall|k: int|
                0 <= k < seqs.len() ==> 0 < (#[trigger] seqs[k])@.len() <= c.max_len && forall|i: int|
                    0 <= i < seqs[k]@.len() ==> (#[trigger] seqs[k]@[i]) < c.vocab
            &&& forall|i: int| 0 <= i < uploaded.len() ==> (#[trigger] uploaded[i]).1 == c.d
        },
{
    texts_are_taken_exactly_when_runnable(seqs, c.max_len as nat, c.vocab as nat, seqs.len());
    uploads_are_taken_exactly_when_as_wide(uploaded, c.d as nat, uploaded.len());
}

/// A run touches the slots that its texts are read into, those that vectors
/// are uploaded to, and both of every pair.
pub proof fn touched_slots_are_those_named(
    slots: Seq<u32>,
    uploaded: Seq<(u32, usize)>,
    pairs: Seq<(u32, u32)>,
    x: u32,
)
    ensures
        slots.contains(x) ==> touched(slots, uploaded, pairs).contains(x),
        forall|i: int|
            0 <= i < uploaded.len() ==> touched(slots, uploaded, pairs).contains(
                (#[trigger] uploaded[i]).0,
            ),
{
    let t = touched(slots, uploaded, pairs);
    if slots.contains(x) {
        let k = choose|k: int| 0 <= k < slots.len() && slots[k] == x;
        assert(t[k] == x);
    }
    assert forall|i: int| 0 <= i < uploaded.len() implies t.contains((#[trigger] uploaded[i]).0) by {
        assert(t[slots.len() + i] == uploaded[i].0);
    }
}

} // verus!

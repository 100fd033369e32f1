//! What every engine on the GPU shares: kernels and their variants, buffers,
//! how a dispatch is wired, and the checks on incoming weights.

use vstd::prelude::*;
use vstd::string::StringExecFns;

use crate::error::LoadError;
use crate::map::find;
use crate::model::{spec_views, NamedShape, TensorSpec};
use crate::plan::{ceil_div, div_ceil};
use crate::tensor::{Dtype, QTensor};
use crate::text::{
    concat2, concat3, decimal, in_order, join, join_texts, list_text, push_decimal, push_list, replace_all, replaced, same, sorted, texts,
};
use crate::weights::same_sizes;

verus! {

/// Bytes of one dispatch's parameter block in the uniform buffer.
pub const PARAM_SLOT: u64 = 256;

/// Flag on a gated matmul's storage code: it multiplies by the exact GELU.
pub const GELU_ERF: u32 = 16;

/// Attention workgroup shape (query rows, keys per tile) per head dimension;
/// the product is the 128-invocation workgroup.
pub open spec fn tile_of(hd: nat) -> (nat, nat) {
    if hd >= 512 {
        (16, 8)
    } else {
        (8, 16)
    }
}

/// Attention workgroup shape (query rows, keys per tile) per head dimension.
pub fn attn_tile(hd: usize) -> (r: (usize, usize))
    ensures
        (r.0 as nat, r.1 as nat) == tile_of(hd as nat),
        r.0 * r.1 == 128,
{
    if hd >= 512 {
        (16, 8)
    } else {
        (8, 16)
    }
}

/// Workgroup memory the attention kernel declares at a head dimension: the
/// query tile and the key tile at half precision, scores, positions.
pub open spec fn workgroup_bytes(hd: nat) -> nat {
    let (rows, kb) = tile_of(hd);
    rows * hd / 2 * 4 + kb * hd / 2 * 4 + 128 * 4 + kb * 8 + rows * 8 + 4
}

/// Workgroup memory the attention kernel declares at a head dimension.
pub fn attn_workgroup_bytes(hd: usize) -> (r: u32)
    requires
        workgroup_bytes(hd as nat) <= u32::MAX,
    ensures
        r == workgroup_bytes(hd as nat),
{
    let (rows, kb) = attn_tile(hd);
    (rows * hd / 2 * 4 + kb * hd / 2 * 4 + 128 * 4 + kb * 8 + rows * 8 + 4) as u32
}

/// The kernels.
#[derive(Debug, Clone, Copy, PartialEq, Eq, Structural)]
pub enum K {
    Embed,
    Norm,
    Matmul,
    MatmulGated,
    Logits,
    Qk,
    Attention,
    PlCombine,
    PlGate,
    LayerNorm,
    PlainNorm,
    BiasAct,
    AttentionBi,
    RopeBi,
    Pool,
    PairFeats,
}

/// Kernels that read weights come in a variant per storage type.
pub open spec fn weight_reader(k: K) -> bool {
    k is Embed || k is Matmul || k is MatmulGated || k is Logits
}

/// Kernels over heads come in a variant per head dimension.
pub open spec fn head_reader(k: K) -> bool {
    k is Qk || k is Attention || k is AttentionBi || k is RopeBi
}

/// For every buffer a kernel binds, in order, whether it writes to it.
pub open spec fn writable(k: K) -> Seq<bool> {
    match k {
        K::Embed => seq![false, false, false, true],
        K::Norm => seq![false, false, true],
        K::Matmul => seq![false, false, false, true],
        K::MatmulGated => seq![false, false, false, false, false, true],
        K::Logits => seq![false, false, false, true],
        K::Qk => seq![true, false, false, false, true],
        K::Attention => seq![false, false, false, true],
        K::PlCombine => seq![false, false, false, true],
        K::PlGate => seq![false, true],
        K::LayerNorm => seq![false, false, false, false, true, true],
        K::PlainNorm => seq![false, false, false, true],
        K::BiasAct => seq![false, false, true],
        K::AttentionBi => seq![false, false, true],
        K::RopeBi => seq![false, true],
        K::Pool => seq![false, false, true],
        K::PairFeats => seq![false, false, true],
    }
}

impl K {
    pub fn name(self) -> (r: &'static str)
        ensures
            r@ == kernel_name(self),
    {
        match self {
            K::Embed => "embed",
            K::Norm => "rmsnorm",
            K::Matmul => "matmul",
            K::MatmulGated => "matmul_gated",
            K::Logits => "logits",
            K::Qk => "qk_prep",
            K::Attention => "attention",
            K::PlCombine => "pl_combine",
            K::PlGate => "pl_gate",
            K::LayerNorm => "layernorm",
            K::PlainNorm => "plain_norm",
            K::BiasAct => "bias_act",
            K::AttentionBi => "attention_bi",
            K::RopeBi => "rope_bi",
            K::Pool => "pool",
            K::PairFeats => "pair_feats",
        }
    }

    /// For every buffer the kernel binds, in order, whether it writes to it.
    pub fn bindings(self) -> (r: Vec<bool>)
        ensures
            r@ == writable(self),
    {
        let r: Vec<bool> = match self {
            K::Embed => vec![false, false, false, true],
            K::Norm => vec![false, false, true],
            K::Matmul => vec![false, false, false, true],
            K::MatmulGated => vec![false, false, false, false, false, true],
            K::Logits => vec![false, false, false, true],
            K::Qk => vec![true, false, false, false, true],
            K::Attention => vec![false, false, false, true],
            K::PlCombine => vec![false, false, false, true],
            K::PlGate => vec![false, true],
            K::LayerNorm => vec![false, false, false, false, true, true],
            K::PlainNorm => vec![false, false, false, true],
            K::BiasAct => vec![false, false, true],
            K::AttentionBi => vec![false, false, true],
            K::RopeBi => vec![false, true],
            K::Pool => vec![false, false, true],
            K::PairFeats => vec![false, false, true],
        };
        assert(r@ =~= writable(self));
        r
    }

    /// The file that holds the kernel's shader.
    pub fn source(self) -> (r: String)
        ensures
            r@ == "shaders/"@ + kernel_name(self) + ".wgsl"@,
    {
        concat3("shaders/", self.name(), ".wgsl")
    }

    pub fn reads_weights(self) -> (r: bool)
        ensures
            r == weight_reader(self),
    {
        match self {
            K::Embed => true,
            K::Matmul => true,
            K::MatmulGated => true,
            K::Logits => true,
            _ => false,
        }
    }

    pub fn uses_head_dim(self) -> (r: bool)
        ensures
            r == head_reader(self),
    {
        match self {
            K::Qk => true,
            K::Attention => true,
            K::AttentionBi => true,
            K::RopeBi => true,
            _ => false,
        }
    }
}

/// The name of a kernel.
pub open spec fn kernel_name(k: K) -> Seq<char> {
    match k {
        K::Embed => "embed"@,
        K::Norm => "rmsnorm"@,
        K::Matmul => "matmul"@,
        K::MatmulGated => "matmul_gated"@,
        K::Logits => "logits"@,
        K::Qk => "qk_prep"@,
        K::Attention => "attention"@,
        K::PlCombine => "pl_combine"@,
        K::PlGate => "pl_gate"@,
        K::LayerNorm => "layernorm"@,
        K::PlainNorm => "plain_norm"@,
        K::BiasAct => "bias_act"@,
        K::AttentionBi => "attention_bi"@,
        K::RopeBi => "rope_bi"@,
        K::Pool => "pool"@,
        K::PairFeats => "pair_feats"@,
    }
}

/// Workspace buffers.
#[derive(Debug, Clone, Copy, PartialEq, Eq, Structural)]
pub enum Work {
    Ids,
    Positions,
    Qtypes,
    Meta,
    Spans,
    Pairs,
    X,
    H,
    Qkv,
    Attn,
    A,
    Act,
    Rows,
    Logits,
    Staging,
    Plg,
    Pli,
    Vectors,
    Feats,
    Hact,
    Params,
}

/// What a dispatch binds: a workspace buffer, a layer's K/V, a weight's
/// payload or block scales, or nothing in particular.
#[derive(Debug, PartialEq, Eq)]
pub enum Buf {
    Work(Work),
    Kv(usize),
    Data(String),
    Scales(String),
    Dummy,
    /// As [`Buf::Dummy`], where the binding is written.
    DummyRw,
}

/// A binding with its name as a sequence.
pub enum BufView {
    Work(Work),
    Kv(usize),
    Data(Seq<char>),
    Scales(Seq<char>),
    Dummy,
    DummyRw,
}

impl View for Buf {
    type V = BufView;

    open spec fn view(&self) -> BufView {
        match self {
            Buf::Work(w) => BufView::Work(*w),
            Buf::Kv(l) => BufView::Kv(*l),
            Buf::Data(n) => BufView::Data(n@),
            Buf::Scales(n) => BufView::Scales(n@),
            Buf::Dummy => BufView::Dummy,
            Buf::DummyRw => BufView::DummyRw,
        }
    }
}

/// The views of bindings.
pub open spec fn buf_views(v: Seq<Buf>) -> Seq<BufView> {
    v.map_values(|b: Buf| b@)
}

/// A kernel variant bound to its buffers: binding 0 is the parameter block,
/// the rest follow in order.
#[derive(Debug)]
pub struct Wire {
    pub label: String,
    pub kernel: K,
    /// The head dimension of the variant, 0 for kernels without heads.
    pub hd: usize,
    /// The storage code of the variant, 0 for kernels without weights.
    pub quant: u32,
    pub bufs: Vec<Buf>,
}

/// A wired kernel with its lists as sequences.
#[verifier::ext_equal]
pub struct WireView {
    pub label: Seq<char>,
    pub kernel: K,
    pub hd: usize,
    pub quant: u32,
    pub bufs: Seq<BufView>,
}

impl View for Wire {
    type V = WireView;

    open spec fn view(&self) -> WireView {
        WireView {
            label: self.label@,
            kernel: self.kernel,
            hd: self.hd,
            quant: self.quant,
            bufs: buf_views(self.bufs@),
        }
    }
}

/// The views of a list of wires.
pub open spec fn wire_views(v: Seq<Wire>) -> Seq<WireView> {
    v.map_values(|w: Wire| w@)
}

/// A wire binds as many buffers as its kernel takes.
pub open spec fn fits_kernel(w: WireView) -> bool {
    w.bufs.len() == writable(w.kernel).len()
}

/// Every wire binds as many buffers as its kernel takes.
pub open spec fn all_fit(ws: Seq<WireView>) -> bool {
    forall|i: int| 0 <= i < ws.len() ==> fits_kernel(#[trigger] ws[i])
}

pub(crate) proof fn fits_together(a: Seq<WireView>, b: Seq<WireView>)
    requires
        all_fit(a),
        all_fit(b),
    ensures
        all_fit(a + b),
{
    assert forall|i: int| 0 <= i < (a + b).len() implies fits_kernel(#[trigger] (a + b)[i]) by {
        if i < a.len() {
            assert((a + b)[i] == a[i]);
        } else {
            assert((a + b)[i] == b[i - a.len()]);
        }
    }
}

/// A wired kernel; the head dimension and the storage code count only for the
/// kernels that use them, so variants are shared.
pub open spec fn wired(
    label: Seq<char>,
    kernel: K,
    hd: usize,
    quant: u32,
    bufs: Seq<BufView>,
) -> WireView {
    WireView {
        label,
        kernel,
        hd: if head_reader(kernel) {
            hd
        } else {
            0
        },
        quant: if weight_reader(kernel) {
            quant
        } else {
            0
        },
        bufs,
    }
}

/// The storage types of the uploaded weights.
pub open spec fn stored(dtypes: Seq<(Seq<char>, Dtype)>, name: Seq<char>) -> Dtype {
    match find(dtypes, name) {
        Some(t) => t,
        None => Dtype::F16,
    }
}

/// The shader code of a storage type.
pub open spec fn code_of(t: Dtype) -> u32 {
    match t {
        Dtype::F16 => 0,
        Dtype::Q8 => 1,
        Dtype::Q4 => 2,
    }
}

/// The block scales of a weight, or nothing for one that has none.
pub open spec fn scales_of(dtypes: Seq<(Seq<char>, Dtype)>, name: Seq<char>) -> BufView {
    if stored(dtypes, name) == Dtype::F16 {
        BufView::Dummy
    } else {
        BufView::Scales(name)
    }
}

/// The names and storage types of uploaded weights.
pub open spec fn dtype_views(v: Seq<(String, Dtype)>) -> Seq<(Seq<char>, Dtype)> {
    v.map_values(|e: (String, Dtype)| (e.0@, e.1))
}

/// The storage type of an uploaded weight.
pub fn stored_dtype(dtypes: &Vec<(String, Dtype)>, name: &str) -> (r: Dtype)
    ensures
        r == stored(dtype_views(dtypes@), name@),
{
    let ghost dv = dtype_views(dtypes@);
    let mut i: usize = 0;
    assert(dv.skip(0) =~= dv);
    while i < dtypes.len()
        invariant
            0 <= i <= dtypes@.len(),
            dv == dtype_views(dtypes@),
            find(dv, name@) == find(dv.skip(i as int), name@),
        decreases dtypes@.len() - i,
    {
        proof {
            assert(dv[i as int] == (dtypes@[i as int].0@, dtypes@[i as int].1));
            assert(dv.skip(i as int)[0] == dv[i as int]);
            assert(dv.skip(i as int).drop_first() =~= dv.skip(i as int + 1));
        }
        if same(dtypes[i].0.as_str(), name) {
            return dtypes[i].1;
        }
        i += 1;
    }
    assert(dv.skip(i as int).len() == 0);
    Dtype::F16
}

pub(crate) fn scales_buf(dtypes: &Vec<(String, Dtype)>, name: &str) -> (r: Buf)
    ensures
        r@ == scales_of(dtype_views(dtypes@), name@),
{
    match stored_dtype(dtypes, name) {
        Dtype::F16 => Buf::Dummy,
        _ => Buf::Scales(name.to_owned()),
    }
}

pub(crate) fn data_buf(name: &str) -> (r: Buf)
    ensures
        r@ == BufView::Data(name@),
{
    Buf::Data(name.to_owned())
}

/// Appends a wired kernel.
pub(crate) fn push_wire(
    out: &mut Vec<Wire>,
    label: &str,
    kernel: K,
    hd: usize,
    quant: u32,
    bufs: Vec<Buf>,
)
    ensures
        wire_views(final(out)@) == wire_views(old(out)@).push(
            wired(label@, kernel, hd, quant, buf_views(bufs@)),
        ),
{
    let ghost before = out@;
    let w = Wire {
        label: label.to_owned(),
        kernel,
        hd: if kernel.uses_head_dim() {
            hd
        } else {
            0
        },
        quant: if kernel.reads_weights() {
            quant
        } else {
            0
        },
        bufs,
    };
    out.push(w);
    assert(wire_views(out@) =~= wire_views(before).push(w@));
}

/// A kernel that multiplies `src` with a weight into `dst`: a matmul, the
/// embedding lookup or the logits projection.
pub open spec fn weight_wire(
    label: Seq<char>,
    k: K,
    src: Work,
    name: Seq<char>,
    dst: Work,
    dtypes: Seq<(Seq<char>, Dtype)>,
) -> WireView {
    wired(
        label,
        k,
        0,
        code_of(stored(dtypes, name)),
        seq![
            BufView::Work(src),
            BufView::Data(name),
            scales_of(dtypes, name),
            BufView::Work(dst),
        ],
    )
}

pub(crate) fn push_weight(
    out: &mut Vec<Wire>,
    label: &str,
    k: K,
    src: Work,
    name: &str,
    dst: Work,
    dtypes: &Vec<(String, Dtype)>,
)
    ensures
        wire_views(final(out)@) == wire_views(old(out)@).push(
            weight_wire(label@, k, src, name@, dst, dtype_views(dtypes@)),
        ),
{
    let mut bufs: Vec<Buf> = Vec::new();
    bufs.push(Buf::Work(src));
    bufs.push(data_buf(name));
    bufs.push(scales_buf(dtypes, name));
    bufs.push(Buf::Work(dst));
    assert(buf_views(bufs@) =~= seq![
        BufView::Work(src),
        BufView::Data(name@),
        scales_of(dtype_views(dtypes@), name@),
        BufView::Work(dst),
    ]);
    push_wire(out, label, k, 0, stored_dtype(dtypes, name).code(), bufs);
}

/// A gated matmul: `src` with two weights of one storage type into `dst`.
pub open spec fn gated_wire(
    label: Seq<char>,
    src: Work,
    a: Seq<char>,
    b: Seq<char>,
    dst: Work,
    flag: u32,
    dtypes: Seq<(Seq<char>, Dtype)>,
) -> WireView {
    wired(
        label,
        K::MatmulGated,
        0,
        (code_of(stored(dtypes, a)) + flag) as u32,
        seq![
            BufView::Work(src),
            BufView::Data(a),
            scales_of(dtypes, a),
            BufView::Data(b),
            scales_of(dtypes, b),
            BufView::Work(dst),
        ],
    )
}

pub(crate) fn push_gated(
    out: &mut Vec<Wire>,
    label: &str,
    src: Work,
    a: &str,
    b: &str,
    dst: Work,
    flag: u32,
    dtypes: &Vec<(String, Dtype)>,
)
    requires
        flag <= GELU_ERF,
    ensures
        wire_views(final(out)@) == wire_views(old(out)@).push(
            gated_wire(label@, src, a@, b@, dst, flag, dtype_views(dtypes@)),
        ),
{
    let mut bufs: Vec<Buf> = Vec::new();
    bufs.push(Buf::Work(src));
    bufs.push(data_buf(a));
    bufs.push(scales_buf(dtypes, a));
    bufs.push(data_buf(b));
    bufs.push(scales_buf(dtypes, b));
    bufs.push(Buf::Work(dst));
    let ghost dv = dtype_views(dtypes@);
    assert(buf_views(bufs@) =~= seq![
        BufView::Work(src),
        BufView::Data(a@),
        scales_of(dv, a@),
        BufView::Data(b@),
        scales_of(dv, b@),
        BufView::Work(dst),
    ]);
    push_wire(out, label, K::MatmulGated, 0, stored_dtype(dtypes, a).code() + flag, bufs);
}

/// A kernel over three buffers in the middle of which a weight stands: a norm
/// or a bias.
pub open spec fn middle_wire(
    label: Seq<char>,
    k: K,
    src: BufView,
    name: BufView,
    dst: Work,
) -> WireView {
    wired(label, k, 0, 0, seq![src, name, BufView::Work(dst)])
}

pub(crate) fn push_middle(
    out: &mut Vec<Wire>,
    label: &str,
    k: K,
    src: Buf,
    mid: Buf,
    dst: Work,
)
    ensures
        wire_views(final(out)@) == wire_views(old(out)@).push(
            middle_wire(label@, k, src@, mid@, dst),
        ),
{
    let ghost want = seq![src@, mid@, BufView::Work(dst)];
    let mut bufs: Vec<Buf> = Vec::new();
    bufs.push(src);
    bufs.push(mid);
    bufs.push(Buf::Work(dst));
    assert(buf_views(bufs@) =~= want);
    push_wire(out, label, k, 0, 0, bufs);
}

/// A kernel over workspace buffers only.
pub open spec fn plain_wire(label: Seq<char>, k: K, hd: usize, bufs: Seq<Work>) -> WireView {
    wired(label, k, hd, 0, bufs.map_values(|w: Work| BufView::Work(w)))
}

pub(crate) fn push_plain(out: &mut Vec<Wire>, label: &str, k: K, hd: usize, works: &Vec<Work>)
    ensures
        wire_views(final(out)@) == wire_views(old(out)@).push(
            plain_wire(label@, k, hd, works@),
        ),
{
    let mut bufs: Vec<Buf> = Vec::new();
    let mut i: usize = 0;
    while i < works.len()
        invariant
            0 <= i <= works@.len(),
            bufs@.len() == i,
            forall|j: int| 0 <= j < i ==> (#[trigger] bufs@[j])@ == BufView::Work(works@[j]),
        decreases works@.len() - i,
    {
        bufs.push(Buf::Work(works[i]));
        i += 1;
    }
    assert(buf_views(bufs@) =~= works@.map_values(|w: Work| BufView::Work(w)));
    push_wire(out, label, k, hd, 0, bufs);
}

/// The integers of a dispatch's parameter block. Its other numbers come from
/// the configuration.
#[derive(Debug, Clone, Copy, PartialEq, Eq, Structural)]
pub enum Block {
    Embed { t: u32, d: u32, residual: u32 },
    /// RMSNorm; `scaled` tells whether the layer's output scale applies.
    Norm { t: u32, d: u32, residual: u32, scaled: bool },
    Matmul { m: u32, n: u32, k: u32 },
    Qk {
        t: u32,
        heads: u32,
        sliding: bool,
        rope_dims: u32,
        has_kv: u32,
        v_norm: u32,
        q_stride: u32,
        kv_heads: u32,
    },
    Attn { t: u32, heads: u32, window: u32, q_stride: u32, kv_heads: u32 },
    PlCombine { t: u32, p: u32, layers: u32 },
    PlGate { t: u32, p: u32, layers: u32, layer: u32 },
    LayerNorm { t: u32, d: u32, has_bias: u32, residual: u32, has_rbias: u32, in_place: u32 },
    Bias { t: u32, n: u32, mode: u32, has_bias: u32, in_place: u32, residual: u32 },
    AttnBi { t: u32, heads: u32, window: u32, stride: u32, k_off: u32, v_off: u32 },
    Rope { t: u32, heads: u32, stride: u32, k_off: u32, sliding: bool },
    Count { n: u32, d: u32 },
}

/// One kernel launch: its parameters and its workgroups.
#[derive(Debug, Clone, Copy, PartialEq, Eq)]
pub struct Dispatch {
    pub block: Block,
    pub wg: (u32, u32),
}

/// A kernel takes a parameter block: it is laid out as the kernel reads it.
pub open spec fn takes_block(k: K, b: Block) -> bool {
    match b {
        Block::Embed { .. } => k is Embed,
        Block::Norm { .. } => k is Norm,
        Block::Matmul { .. } => k is Matmul || k is MatmulGated || k is Logits,
        Block::Qk { .. } => k is Qk,
        Block::Attn { .. } => k is Attention,
        Block::PlCombine { .. } => k is PlCombine,
        Block::PlGate { .. } => k is PlGate,
        Block::LayerNorm { .. } => k is LayerNorm || k is PlainNorm,
        Block::Bias { .. } => k is BiasAct,
        Block::AttnBi { .. } => k is AttentionBi,
        Block::Rope { .. } => k is RopeBi,
        Block::Count { .. } => k is Pool || k is PairFeats,
    }
}

/// Launches and wired kernels stand side by side: as many of the one as of the
/// other, and each block is one that its kernel takes.
pub open spec fn side_by_side(ds: Seq<Dispatch>, ws: Seq<WireView>) -> bool {
    &&& ds.len() == ws.len()
    &&& forall|i: int|
        0 <= i < ds.len() ==> takes_block((#[trigger] ws[i]).kernel, (#[trigger] ds[i]).block)
}

pub(crate) proof fn joined_side_by_side(
    a: Seq<Dispatch>,
    x: Seq<WireView>,
    b: Seq<Dispatch>,
    y: Seq<WireView>,
)
    requires
        side_by_side(a, x),
        side_by_side(b, y),
    ensures
        side_by_side(a + b, x + y),
{
    assert forall|i: int| 0 <= i < (a + b).len() implies takes_block(
        (#[trigger] (x + y)[i]).kernel,
        (#[trigger] (a + b)[i]).block,
    ) by {
        if i < a.len() {
            assert((x + y)[i] == x[i] && (a + b)[i] == a[i]);
        } else {
            assert((x + y)[i] == y[i - a.len()] && (a + b)[i] == b[i - a.len()]);
        }
    }
}

/// Work split into groups of `b`, as a workgroup count.
pub open spec fn groups(a: nat, b: nat) -> u32 {
    ceil_div(a, b) as u32
}

pub(crate) fn group_count(a: usize, b: usize) -> (r: u32)
    requires
        b > 0,
    ensures
        r == groups(a as nat, b as nat),
{
    div_ceil(a, b) as u32
}

/// The length of a payload padded to whole words.
pub open spec fn padded(n: nat) -> nat {
    ceil_div(n, 4) * 4
}

/// A payload as it is uploaded: zero bytes up to a whole word.
pub fn pad_words(bytes: &Vec<u8>) -> (r: Vec<u8>)
    requires
        bytes@.len() + 3 <= usize::MAX,
    ensures
        r@.len() == padded(bytes@.len()),
        r@ == bytes@ + Seq::new((padded(bytes@.len()) - bytes@.len()) as nat, |i: int| 0u8),
{
    let mut out: Vec<u8> = bytes.clone();
    let n: usize = bytes.len();
    while out.len() % 4 != 0
        invariant
            n == bytes@.len(),
            n + 3 <= usize::MAX,
            n <= out@.len() <= padded(n as nat),
            out@ == bytes@ + Seq::new((out@.len() - n) as nat, |i: int| 0u8),
        decreases padded(n as nat) - out@.len(),
    {
        let ghost before = out@;
        out.push(0);
        assert(out@ =~= bytes@ + Seq::new((out@.len() - n) as nat, |i: int| 0u8));
    }
    out
}

/// Which of the expected tensors have not come, in order of their names.
pub open spec fn not_come(expected: Seq<NamedShape>, have: Seq<Seq<char>>, n: nat) -> Seq<
    Seq<char>,
>
    decreases n,
{
    if n == 0 {
        Seq::empty()
    } else {
        let r = not_come(expected, have, (n - 1) as nat);
        if have.contains(expected[n - 1].0) {
            r
        } else {
            r.push(expected[n - 1].0)
        }
    }
}

fn holds_text(have: &Vec<String>, name: &str) -> (r: bool)
    ensures
        r == texts(have@).contains(name@),
{
    let mut i: usize = 0;
    while i < have.len()
        invariant
            0 <= i <= have@.len(),
            forall|j: int| 0 <= j < i ==> (#[trigger] have@[j])@ != name@,
        decreases have@.len() - i,
    {
        if same(have[i].as_str(), name) {
            assert(texts(have@)[i as int] == name@);
            return true;
        }
        i += 1;
    }
    proof {
        if texts(have@).contains(name@) {
            let j = choose|j: int| 0 <= j < texts(have@).len() && texts(have@)[j] == name@;
            assert(have@[j]@ == name@);
        }
    }
    false
}

/// Catalogued names not pushed yet, in order.
pub fn missing(expected: &Vec<TensorSpec>, have: &Vec<String>) -> (r: Vec<String>)
    ensures
        in_order(texts(r@)),
        texts(r@).to_multiset() == not_come(
            spec_views(expected@),
            texts(have@),
            expected@.len(),
        ).to_multiset(),
{
    let ghost ev = spec_views(expected@);
    let mut out: Vec<String> = Vec::new();
    let mut i: usize = 0;
    assert(texts(out@) =~= not_come(ev, texts(have@), 0));
    while i < expected.len()
        invariant
            0 <= i <= expected@.len(),
            ev == spec_views(expected@),
            texts(out@) == not_come(ev, texts(have@), i as nat),
        decreases expected@.len() - i,
    {
        let ghost before = out@;
        assert(ev[i as int] == expected@[i as int]@);
        if !holds_text(have, expected[i].name.as_str()) {
            out.push(expected[i].name.clone());
            assert(texts(out@) =~= texts(before).push(expected@[i as int].name@));
        }
        i += 1;
    }
    sorted(&out)
}

/// The message of tensors that have not come: how many, and the first four.
pub open spec fn missing_message(names: Seq<Seq<char>>) -> Seq<char> {
    decimal(names.len()) + " tensors missing, e.g. "@ + join(
        names.take(
            if names.len() < 4 {
                names.len() as int
            } else {
                4
            },
        ),
        ", "@,
    )
}

/// Refuses to go on while catalogued tensors have not come.
pub fn check_complete(expected: &Vec<TensorSpec>, have: &Vec<String>) -> (r: Result<(), LoadError>)
    ensures
        ({
            let gone = not_come(spec_views(expected@), texts(have@), expected@.len());
            match r {
                Ok(_) => gone.len() == 0,
                Err(e) => gone.len() > 0 && exists|names: Seq<Seq<char>>|
                    in_order(names) && names.to_multiset() == gone.to_multiset() && e@
                        == #[trigger] missing_message(names),
            }
        }),
{
    let ghost gone = not_come(spec_views(expected@), texts(have@), expected@.len());
    let names = missing(expected, have);
    proof {
        vstd::seq_lib::to_multiset_len(texts(names@));
        vstd::seq_lib::to_multiset_len(gone);
        assert(texts(names@).len() == names@.len());
    }
    if names.len() == 0 {
        return Ok(());
    }
    let n: usize = if names.len() < 4 {
        names.len()
    } else {
        4
    };
    let mut head: Vec<String> = Vec::new();
    let mut i: usize = 0;
    while i < n
        invariant
            0 <= i <= n <= names@.len(),
            head@.len() == i,
            forall|j: int| 0 <= j < i ==> (#[trigger] head@[j])@ == names@[j]@,
        decreases n - i,
    {
        head.push(names[i].clone());
        i += 1;
    }
    assert(texts(head@) =~= texts(names@).take(n as int));
    let mut m: String = String::new();
    push_decimal(&mut m, names.len() as u64);
    m.append(" tensors missing, e.g. ");
    m.append(join_texts(&head, ", ").as_str());
    assert(m@ =~= missing_message(texts(names@)));
    Err(LoadError::new(m))
}

/// Why a tensor cannot be taken, if it cannot: it is not expected, or comes
/// in another shape.
pub open spec fn expected_fault(expected: Seq<NamedShape>, name: Seq<char>, shape: Seq<usize>) -> Option<
    Seq<char>,
> {
    match find(expected, name) {
        None => Some("unexpected tensor "@ + name),
        Some(s) => if s != shape {
            Some(name + ": shape "@ + list_text(shape) + ", expected "@ + list_text(s))
        } else {
            None
        },
    }
}

/// Why a tensor cannot be uploaded, if it cannot: vectors are read as half
/// precision, rows in blocks of 32.
pub open spec fn upload_fault(name: Seq<char>, shape: Seq<usize>, dtype: Dtype) -> Option<
    Seq<char>,
> {
    if shape.len() == 1 && dtype != Dtype::F16 {
        Some(name + ": 1-D tensors must be f16"@)
    } else if shape.len() == 2 && shape[1] % 32 != 0 {
        Some(
            name + ": inner dimension "@ + decimal(shape[1] as nat)
                + " is not a multiple of 32"@,
        )
    } else {
        None
    }
}

/// Checks an incoming tensor against the catalogue.
pub fn check_expected(expected: &Vec<TensorSpec>, name: &str, t: &QTensor) -> (r: Result<
    (),
    LoadError,
>)
    ensures
        match r {
            Ok(_) => expected_fault(spec_views(expected@), name@, t.shape@) is None,
            Err(e) => expected_fault(spec_views(expected@), name@, t.shape@) == Some(e@),
        },
{
    let ghost ev = spec_views(expected@);
    let mut i: usize = 0;
    assert(ev.skip(0) =~= ev);
    while i < expected.len()
        invariant
            0 <= i <= expected@.len(),
            ev == spec_views(expected@),
            find(ev, name@) == find(ev.skip(i as int), name@),
        decreases expected@.len() - i,
    {
        proof {
            assert(ev.skip(i as int)[0] == expected@[i as int]@);
            assert(ev.skip(i as int).drop_first() =~= ev.skip(i as int + 1));
        }
        if same(expected[i].name.as_str(), name) {
            if same_sizes(&t.shape, &expected[i].shape) {
                return Ok(());
            }
            let mut m: String = concat2(name, ": shape ");
            push_list(&mut m, &t.shape);
            m.append(", expected ");
            push_list(&mut m, &expected[i].shape);
            return Err(LoadError::new(m));
        }
        i += 1;
    }
    assert(ev.skip(i as int).len() == 0);
    Err(LoadError::new(concat2("unexpected tensor ", name)))
}

/// Checks a tensor that goes to the device.
pub fn check_upload(name: &str, t: &QTensor) -> (r: Result<(), LoadError>)
    ensures
        match r {
            Ok(_) => upload_fault(name@, t.shape@, t.dtype) is None,
            Err(e) => upload_fault(name@, t.shape@, t.dtype) == Some(e@),
        },
{
    if t.shape.len() == 1 && t.dtype != Dtype::F16 {
        return Err(LoadError::new(concat2(name, ": 1-D tensors must be f16")));
    }
    if t.shape.len() == 2 && t.shape[1] % 32 != 0 {
        let mut m: String = concat2(name, ": inner dimension ");
        push_decimal(&mut m, t.shape[1] as u64);
        m.append(" is not a multiple of 32");
        return Err(LoadError::new(m));
    }
    Ok(())
}

/// What the adapter must offer, and what it does.
#[derive(Debug, Clone, Copy, PartialEq, Eq, Structural)]
pub struct Adapter {
    pub storage_buffers: u32,
    pub workgroup_memory: u32,
    pub binding_size: u64,
}

/// Why an adapter cannot run a checkpoint, if it cannot.
pub open spec fn adapter_fault(a: Adapter, hd: nat, memory: u32, binding: u64) -> Option<
    Seq<char>,
> {
    if a.storage_buffers < 6 {
        Some(
            "adapter allows "@ + decimal(a.storage_buffers as nat)
                + " storage buffers per stage; the kernels need 6"@,
        )
    } else if a.workgroup_memory < memory {
        Some(
            "attention at head_dim "@ + decimal(hd) + " needs "@ + decimal(memory as nat)
                + " bytes of workgroup memory; adapter allows "@ + decimal(
                a.workgroup_memory as nat,
            ),
        )
    } else if a.binding_size < binding {
        Some(
            "embedding table needs a "@ + decimal(binding as nat)
                + "-byte storage binding; adapter allows "@ + decimal(a.binding_size as nat),
        )
    } else {
        None
    }
}

/// Checks an adapter against what attention at head dimension `hd` needs in
/// workgroup memory and the embedding table as a binding.
pub fn check_adapter(a: Adapter, hd: usize, memory: u32, binding: u64) -> (r: Result<(), LoadError>)
    ensures
        match r {
            Ok(_) => adapter_fault(a, hd as nat, memory, binding) is None,
            Err(e) => adapter_fault(a, hd as nat, memory, binding) == Some(e@),
        },
{
    if a.storage_buffers < 6 {
        let mut m: String = "adapter allows ".to_owned();
        push_decimal(&mut m, a.storage_buffers as u64);
        m.append(" storage buffers per stage; the kernels need 6");
        return Err(LoadError::new(m));
    }
    if a.workgroup_memory < memory {
        let mut m: String = "attention at head_dim ".to_owned();
        push_decimal(&mut m, hd as u64);
        m.append(" needs ");
        push_decimal(&mut m, memory as u64);
        m.append(" bytes of workgroup memory; adapter allows ");
        push_decimal(&mut m, a.workgroup_memory as u64);
        return Err(LoadError::new(m));
    }
    if a.binding_size < binding {
        let mut m: String = "embedding table needs a ".to_owned();
        push_decimal(&mut m, binding);
        m.append("-byte storage binding; adapter allows ");
        push_decimal(&mut m, a.binding_size);
        return Err(LoadError::new(m));
    }
    Ok(())
}

/// The head dimension and the storage code that tell a kernel's variants apart.
pub open spec fn variant_view(k: K, hd: usize, quant: u32) -> (usize, u32) {
    (
        if head_reader(k) {
            hd
        } else {
            0
        },
        if weight_reader(k) {
            quant
        } else {
            0
        },
    )
}

/// The head dimension and the storage code that tell a kernel's variants apart:
/// each counts only for the kernels that use it, so variants are shared.
pub fn variant(k: K, hd: usize, quant: u32) -> (r: (usize, u32))
    ensures
        r == variant_view(k, hd, quant),
{
    (
        if k.uses_head_dim() {
            hd
        } else {
            0
        },
        if k.reads_weights() {
            quant
        } else {
            0
        },
    )
}

/// The name of a kernel's variant.
pub fn variant_label(k: K, hd: usize, quant: u32) -> (r: String)
    ensures
        ({
            let (h, q) = variant_view(k, hd, quant);
            r@ == kernel_name(k) + "/"@ + decimal(h as nat) + "/"@ + decimal(q as nat)
        }),
{
    let (h, q) = variant(k, hd, quant);
    let mut s: String = k.name().to_owned();
    s.append("/");
    push_decimal(&mut s, h as u64);
    s.append("/");
    push_decimal(&mut s, q as u64);
    s
}

/// The declaration of a constant of a shader.
pub open spec fn shader_const(name: Seq<char>, n: nat) -> Seq<char> {
    "const "@ + name + ": u32 = "@ + decimal(n) + "u;"@
}

fn shader_const_text(name: &str, n: usize) -> (r: String)
    ensures
        r@ == shader_const(name@, n as nat),
{
    let mut s: String = concat3("const ", name, ": u32 = ");
    push_decimal(&mut s, n as u64);
    s.append("u;");
    s
}

/// The shader of a kernel's variant: the weight readers behind what they
/// share, the head dimension and the attention tile filled in.
pub open spec fn shader_view(k: K, hd: usize, shared: Seq<char>, source: Seq<char>) -> Seq<char> {
    let h = variant_view(k, hd, 0).0;
    let (rows, kb) = tile_of(h as nat);
    (if weight_reader(k) {
        shared + "\n"@
    } else {
        Seq::empty()
    }) + replaced(
        replaced(
            replaced(
                source,
                "const HD: u32 = 256u;"@,
                shader_const(
                    "HD"@,
                    if h < 256 {
                        256
                    } else {
                        h as nat
                    },
                ),
            ),
            "const ROWS: u32 = 8u;"@,
            shader_const("ROWS"@, rows),
        ),
        "const KB: u32 = 16u;"@,
        shader_const("KB"@, kb),
    )
}

/// The shader of a kernel's variant. `source` is the kernel's file, `shared`
/// what every kernel that reads weights starts with.
pub fn shader_text(k: K, hd: usize, shared: &str, source: &str) -> (r: String)
    ensures
        r@ == shader_view(k, hd, shared@, source@),
{
    let (h, _) = variant(k, hd, 0);
    let (rows, kb) = attn_tile(h);
    let wide: usize = if h < 256 {
        256
    } else {
        h
    };
    let a: String = replace_all(
        source,
        "const HD: u32 = 256u;",
        shader_const_text("HD", wide).as_str(),
    );
    let b: String = replace_all(
        a.as_str(),
        "const ROWS: u32 = 8u;",
        shader_const_text("ROWS", rows).as_str(),
    );
    let c: String = replace_all(
        b.as_str(),
        "const KB: u32 = 16u;",
        shader_const_text("KB", kb).as_str(),
    );
    let mut s: String = String::new();
    if k.reads_weights() {
        s.append(shared);
        s.append("\n");
    }
    s.append(c.as_str());
    assert(s@ =~= shader_view(k, hd, shared@, source@));
    s
}

/// The weight bound as `b` is one of these tensors, a matrix of this many rows
/// and columns.
pub open spec fn is_matrix(ts: Seq<NamedShape>, b: BufView, rows: u32, cols: u32) -> bool {
    exists|i: int|
        0 <= i < ts.len() && BufView::Data((#[trigger] ts[i]).0) == b && ts[i].1.len() == 2
            && ts[i].1[0] as u32 == rows && ts[i].1[1] as u32 == cols
}

/// As [`is_matrix`], with any number of rows.
pub open spec fn is_table(ts: Seq<NamedShape>, b: BufView, cols: u32) -> bool {
    exists|i: int|
        0 <= i < ts.len() && BufView::Data((#[trigger] ts[i]).0) == b && ts[i].1.len() == 2
            && ts[i].1[1] as u32 == cols
}

/// The weight bound as `b` is one of these tensors, a vector of this many
/// entries.
pub open spec fn is_vector(ts: Seq<NamedShape>, b: BufView, n: u32) -> bool {
    exists|i: int|
        0 <= i < ts.len() && BufView::Data((#[trigger] ts[i]).0) == b && ts[i].1.len() == 1
            && ts[i].1[0] as u32 == n
}

/// What is bound for a weight's block scales is that weight's, and nothing
/// exactly for the plain storage type.
pub open spec fn scales_belong(w: WireView, weight: int, scales: int) -> bool {
    &&& w.bufs[scales] is Dummy || w.bufs[scales] == BufView::Scales(w.bufs[weight]->Data_0)
    &&& w.bufs[scales] is Dummy <==> w.quant % GELU_ERF == 0
}

/// A launch suits the wire that it goes to: its kernel takes the block, and
/// the block's numbers and flags tell the truth about what is bound. A matmul
/// is as wide and as deep as its weight. A norm of the residual model adds to
/// the stream exactly where it writes the stream, and overwrites where it
/// writes `h`. A fused norm or a bias adds a row exactly where one is bound,
/// adds a bias exactly where one is bound, and works in place exactly where
/// nothing else is bound for its source or result. A bias passes through an
/// activation exactly where it writes an activation buffer.
pub open spec fn suits(ts: Seq<NamedShape>, d: Dispatch, w: WireView) -> bool {
    &&& takes_block(w.kernel, d.block)
    &&& w.bufs.len() == writable(w.kernel).len()
    &&& match d.block {
        Block::Embed { d: cols, residual, .. } => {
            &&& is_table(ts, w.bufs[1], cols)
            &&& scales_belong(w, 1, 2)
            &&& residual <= 1
            &&& residual == 1 <==> w.bufs[0] == BufView::Work(Work::Qtypes)
        },
        Block::Norm { d: n, residual, .. } => {
            &&& is_vector(ts, w.bufs[1], n)
            &&& residual == 1 <==> w.bufs[2] == BufView::Work(Work::X)
            &&& residual == 0 <==> w.bufs[2] == BufView::Work(Work::H)
            &&& residual == 0 <==> w.bufs[0] == BufView::Work(Work::X)
        },
        Block::Matmul { n, k, .. } => {
            &&& is_matrix(ts, w.bufs[1], n, k)
            &&& scales_belong(w, 1, 2)
            &&& w.kernel is MatmulGated ==> is_matrix(ts, w.bufs[3], n, k) && scales_belong(w, 3, 4)
                && w.bufs[1] != w.bufs[3]
        },
        Block::PlCombine { p, .. } => is_vector(ts, w.bufs[1], p),
        Block::LayerNorm { d: n, has_bias, residual, has_rbias, in_place, .. } => {
            &&& is_vector(ts, w.bufs[1], n)
            &&& has_bias <= 1 && residual <= 1 && has_rbias <= 1 && in_place <= 1
            &&& has_bias == 0 <==> w.bufs[2] is Dummy
            &&& has_bias == 1 ==> is_vector(ts, w.bufs[2], n)
            &&& w.kernel is PlainNorm ==> residual == 0 && has_rbias == 0 && in_place == 0
            &&& w.kernel is LayerNorm ==> {
                &&& residual == 0 <==> w.bufs[0] is Dummy
                &&& has_rbias == 0 <==> w.bufs[3] is Dummy
                &&& has_rbias == 1 ==> is_vector(ts, w.bufs[3], n)
                &&& in_place == 1 <==> w.bufs[5] is DummyRw
            }
        },
        Block::Bias { n, mode, has_bias, in_place, residual, .. } => {
            &&& has_bias <= 1 && in_place + residual == 1
            &&& has_bias == 0 <==> w.bufs[1] is Dummy
            &&& has_bias == 1 ==> is_vector(ts, w.bufs[1], n)
            &&& in_place == 1 <==> w.bufs[0] is Dummy
            &&& mode != 0 <==> (w.bufs[2] == BufView::Work(Work::Act) || w.bufs[2]
                == BufView::Work(Work::Hact))
        },
        _ => true,
    }
}

/// Every launch suits the wire that it goes to.
pub open spec fn all_suit(ts: Seq<NamedShape>, ds: Seq<Dispatch>, ws: Seq<WireView>) -> bool {
    &&& ds.len() == ws.len()
    &&& forall|i: int| #![trigger ds[i]] #![trigger ws[i]]
        0 <= i < ds.len() ==> suits(ts, ds[i], ws[i])
}

/// Every tensor of `a` is one of `b`.
pub open spec fn listed(a: Seq<NamedShape>, b: Seq<NamedShape>) -> bool {
    forall|i: int| 0 <= i < a.len() ==> b.contains(#[trigger] a[i])
}

pub(crate) proof fn listed_next(a: Seq<NamedShape>, b: Seq<NamedShape>, c: Seq<NamedShape>)
    requires
        listed(a, b),
    ensures
        listed(a, b + c),
        listed(c, b + c),
{
    assert forall|i: int| 0 <= i < a.len() implies (b + c).contains(#[trigger] a[i]) by {
        let j = choose|j: int| 0 <= j < b.len() && b[j] == a[i];
        assert((b + c)[j] == a[i]);
    }
    assert forall|i: int| 0 <= i < c.len() implies (b + c).contains(#[trigger] c[i]) by {
        assert((b + c)[b.len() + i] == c[i]);
    }
}

proof fn still_shaped(a: Seq<NamedShape>, b: Seq<NamedShape>, buf: BufView, n: u32, k: u32)
    requires
        listed(a, b),
    ensures
        is_matrix(a, buf, n, k) ==> is_matrix(b, buf, n, k),
        is_table(a, buf, k) ==> is_table(b, buf, k),
        is_vector(a, buf, n) ==> is_vector(b, buf, n),
{
    if is_matrix(a, buf, n, k) {
        let i = choose|i: int|
            0 <= i < a.len() && BufView::Data((#[trigger] a[i]).0) == buf && a[i].1.len() == 2
                && a[i].1[0] as u32 == n && a[i].1[1] as u32 == k;
        let j = choose|j: int| 0 <= j < b.len() && b[j] == a[i];
        assert(b.contains(a[i]));
        assert(BufView::Data(b[j].0) == buf);
    }
    if is_table(a, buf, k) {
        let i = choose|i: int|
            0 <= i < a.len() && BufView::Data((#[trigger] a[i]).0) == buf && a[i].1.len() == 2
                && a[i].1[1] as u32 == k;
        let j = choose|j: int| 0 <= j < b.len() && b[j] == a[i];
        assert(b.contains(a[i]));
        assert(BufView::Data(b[j].0) == buf);
    }
    if is_vector(a, buf, n) {
        let i = choose|i: int|
            0 <= i < a.len() && BufView::Data((#[trigger] a[i]).0) == buf && a[i].1.len() == 1
                && a[i].1[0] as u32 == n;
        let j = choose|j: int| 0 <= j < b.len() && b[j] == a[i];
        assert(b.contains(a[i]));
        assert(BufView::Data(b[j].0) == buf);
    }
}

pub(crate) proof fn still_suits(a: Seq<NamedShape>, b: Seq<NamedShape>, d: Dispatch, w: WireView)
    requires
        listed(a, b),
        suits(a, d, w),
    ensures
        suits(b, d, w),
{
    match d.block {
        Block::Embed { d: n, .. } => still_shaped(a, b, w.bufs[1], 0, n),
        Block::Norm { d: n, .. } => still_shaped(a, b, w.bufs[1], n, 0),
        Block::Matmul { n, k, .. } => {
            still_shaped(a, b, w.bufs[1], n, k);
            still_shaped(a, b, w.bufs[3], n, k);
        },
        Block::PlCombine { p, .. } => still_shaped(a, b, w.bufs[1], p, 0),
        Block::LayerNorm { d: n, .. } => {
            still_shaped(a, b, w.bufs[1], n, 0);
            still_shaped(a, b, w.bufs[2], n, 0);
            still_shaped(a, b, w.bufs[3], n, 0);
        },
        Block::Bias { n, .. } => still_shaped(a, b, w.bufs[1], n, 0),
        _ => {},
    }
}

pub(crate) proof fn all_still_suit(
    a: Seq<NamedShape>,
    b: Seq<NamedShape>,
    ds: Seq<Dispatch>,
    ws: Seq<WireView>,
)
    requires
        listed(a, b),
        all_suit(a, ds, ws),
    ensures
        all_suit(b, ds, ws),
{
    assert forall|i: int| #![trigger ds[i]] #![trigger ws[i]] 0 <= i < ds.len() implies suits(
        b,
        ds[i],
        ws[i],
    ) by {
        still_suits(a, b, ds[i], ws[i]);
    }
}

pub(crate) proof fn joined_suit(
    ts: Seq<NamedShape>,
    a: Seq<Dispatch>,
    x: Seq<WireView>,
    b: Seq<Dispatch>,
    y: Seq<WireView>,
)
    requires
        all_suit(ts, a, x),
        all_suit(ts, b, y),
    ensures
        all_suit(ts, a + b, x + y),
{
    assert forall|i: int| 0 <= i < (a + b).len() implies suits(
        ts,
        #[trigger] (a + b)[i],
        (x + y)[i],
    ) by {
        if i < a.len() {
            assert(suits(ts, a[i], x[i]));
        } else {
            assert(suits(ts, b[i - a.len()], y[i - a.len()]));
        }
    }
    assert forall|i: int| #![trigger (a + b)[i]] #![trigger (x + y)[i]]
        0 <= i < (a + b).len() implies suits(ts, (a + b)[i], (x + y)[i]) by {
        assert(suits(ts, (a + b)[i], (x + y)[i]));
    }
}

/// The weights bound among buffers, in order.
pub open spec fn weights_in(bufs: Seq<BufView>) -> Seq<Seq<char>>
    decreases bufs.len(),
{
    if bufs.len() == 0 {
        Seq::empty()
    } else {
        match bufs.last() {
            BufView::Data(n) => weights_in(bufs.drop_last()).push(n),
            _ => weights_in(bufs.drop_last()),
        }
    }
}

/// The weights that dispatches read, in order.
pub open spec fn weights_read(ws: Seq<WireView>) -> Seq<Seq<char>>
    decreases ws.len(),
{
    if ws.len() == 0 {
        Seq::empty()
    } else {
        weights_read(ws.drop_last()) + weights_in(ws.last().bufs)
    }
}

pub(crate) proof fn weights_of_next(ws: Seq<WireView>, i: int)
    requires
        0 <= i < ws.len(),
    ensures
        weights_read(ws.take(i + 1)) == weights_read(ws.take(i)) + weights_in(ws[i].bufs),
{
    assert(ws.take(i + 1).drop_last() =~= ws.take(i));
}

pub(crate) proof fn weights_of_both(a: Seq<WireView>, b: Seq<WireView>)
    ensures
        weights_read(a + b) == weights_read(a) + weights_read(b),
    decreases b.len(),
{
    if b.len() == 0 {
        assert(a + b =~= a);
        assert(weights_read(a) + weights_read(b) =~= weights_read(a));
    } else {
        weights_of_both(a, b.drop_last());
        assert((a + b).drop_last() =~= a + b.drop_last());
        assert(weights_read(a + b) =~= weights_read(a) + weights_read(b));
    }
}

/// Some buffer that the one dispatch writes is bound by the other.
pub open spec fn feeds(a: WireView, b: WireView) -> bool {
    exists|i: int, j: int|
        0 <= i < a.bufs.len() && 0 <= j < b.bufs.len() && writable(a.kernel)[i]
            && #[trigger] a.bufs[i] == #[trigger] b.bufs[j]
}

/// Workgroups of `b` cover the work, and none is idle.
pub proof fn groups_cover_the_work(a: nat, b: nat)
    requires
        0 < b,
        a <= u32::MAX,
    ensures
        groups(a, b) * b >= a,
        a > 0 ==> (groups(a, b) - 1) * b < a,
        a == 0 ==> groups(a, b) == 0,
{
    if a > 0 {
        let q = (a - 1) / (b as int);
        vstd::arithmetic::div_mod::lemma_fundamental_div_mod(a - 1, b as int);
        assert(0 <= q < a && (q + 1) * b >= a && q * b < a) by (nonlinear_arith)
            requires
                a - 1 == b * q + (a - 1) % (b as int),
                0 <= (a - 1) % (b as int) < b,
                0 < b,
                0 < a,
        ;
        assert(groups(a, b) == q + 1);
    }
}

/// The tensors that have not come are exactly those that are expected and not
/// among what came, by name.
pub proof fn missing_tensors_have_not_come(
    expected: Seq<NamedShape>,
    have: Seq<Seq<char>>,
    n: nat,
    i: int,
)
    requires
        0 <= i < n <= expected.len(),
    ensures
        have.contains(expected[i].0) ==> forall|k: int|
            0 <= k < not_come(expected, have, n).len() ==> #[trigger] not_come(expected, have, n)[k]
                != expected[i].0,
        !have.contains(expected[i].0) ==> not_come(expected, have, n).contains(expected[i].0),
        not_come(expected, have, n).len() == 0 ==> have.contains(expected[i].0),
    decreases n,
{
    let all = not_come(expected, have, n);
    let rest = not_come(expected, have, (n - 1) as nat);
    none_that_came(expected, have, n);
    if i < n - 1 {
        missing_tensors_have_not_come(expected, have, (n - 1) as nat, i);
        if !have.contains(expected[i].0) {
            let k = rest.index_of(expected[i].0);
            assert(all[k] == expected[i].0);
        }
    } else if !have.contains(expected[i].0) {
        assert(all[all.len() - 1] == expected[i].0);
    }
}

proof fn none_that_came(expected: Seq<NamedShape>, have: Seq<Seq<char>>, n: nat)
    requires
        n <= expected.len(),
    ensures
        forall|k: int|
            0 <= k < not_come(expected, have, n).len() ==> !have.contains(
                #[trigger] not_come(expected, have, n)[k],
            ),
    decreases n,
{
    if n > 0 {
        none_that_came(expected, have, (n - 1) as nat);
        let all = not_come(expected, have, n);
        let rest = not_come(expected, have, (n - 1) as nat);
        assert forall|k: int| 0 <= k < all.len() implies !have.contains(#[trigger] all[k]) by {
            if k < rest.len() {
                assert(all[k] == rest[k]);
            }
        }
    }
}

/// A tensor is taken exactly where it is expected with its shape; it is uploaded
/// exactly where a vector is in halves and a matrix's rows are whole blocks.
pub proof fn tensors_are_taken_exactly_when_expected(
    expected: Seq<NamedShape>,
    name: Seq<char>,
    shape: Seq<usize>,
    dtype: Dtype,
)
    ensures
        expected_fault(expected, name, shape) is None <==> find(expected, name) == Some(shape),
        shape.len() == 1 ==> (upload_fault(name, shape, dtype) is None <==> dtype == Dtype::F16),
        shape.len() == 2 ==> (upload_fault(name, shape, dtype) is None <==> shape[1] % 32 == 0),
{
}

/// An adapter serves exactly where it has six storage buffers, the workgroup
/// memory and the binding size that are needed.
pub proof fn adapters_serve_exactly_when_large_enough(a: Adapter, hd: nat, memory: u32, binding: u64)
    ensures
        adapter_fault(a, hd, memory, binding) is None <==> a.storage_buffers >= 6
            && a.workgroup_memory >= memory && a.binding_size >= binding,
        forall|k: K| (#[trigger] writable(k)).len() <= 6,
{
}

/// A workgroup of the attention is 128 invocations, and its memory holds the
/// two tiles at two bytes a number, a score for every invocation, and the
/// positions.
pub proof fn workgroups_hold_their_tiles(hd: nat)
    requires
        hd % 2 == 0,
    ensures
        tile_of(hd).0 * tile_of(hd).1 == 128,
        workgroup_bytes(hd) >= 2 * (tile_of(hd).0 * hd) + 2 * (tile_of(hd).1 * hd) + 512,
        hd == 256 ==> tile_of(hd) == (8nat, 16nat),
        hd == 512 ==> tile_of(hd) == (16nat, 8nat),
{
}

/// A kernel's variant depends on the head dimension exactly where the kernel is
/// over heads, and on the storage type exactly where it reads weights; wires
/// bind the variant that they ask for.
pub proof fn variants_depend_on_what_is_read(k: K, hd: usize, quant: u32, label: Seq<char>)
    requires
        hd > 0,
        quant > 0,
    ensures
        variant_view(k, hd, quant).0 == hd <==> k is Qk || k is Attention || k is AttentionBi || k is RopeBi,
        variant_view(k, hd, quant).1 == quant <==> k is Embed || k is Matmul || k is MatmulGated
            || k is Logits,
        wired(label, k, hd, quant, Seq::empty()).hd == variant_view(k, hd, quant).0,
        wired(label, k, hd, quant, Seq::empty()).quant == variant_view(k, hd, quant).1,
{
}

/// A weight is read by the code of the type that it is stored in, and its block
/// scales are bound exactly where that type has some.
pub proof fn weights_are_read_as_stored(
    dtypes: Seq<(Seq<char>, Dtype)>,
    name: Seq<char>,
    t: Dtype,
)
    ensures
        find(dtypes, name) == Some(t) ==> stored(dtypes, name) == t,
        find(dtypes, name) is None ==> stored(dtypes, name) == Dtype::F16,
        scales_of(dtypes, name) == BufView::Dummy <==> code_of(stored(dtypes, name)) == 0,
        code_of(stored(dtypes, name)) != 0 ==> scales_of(dtypes, name) == BufView::Scales(name),
        code_of(Dtype::F16) != code_of(Dtype::Q8) && code_of(Dtype::Q8) != code_of(Dtype::Q4)
            && code_of(Dtype::F16) != code_of(Dtype::Q4),
{
}

/// A payload is padded with zeros to the next whole word, and kept.
pub proof fn words_are_filled_up(n: nat)
    ensures
        padded(n) % 4 == 0,
        n <= padded(n) < n + 4,
{
}

} // verus!

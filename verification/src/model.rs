//! Checkpoint description and host-side tensors.
//!
//! Two model families share one description:
//! - Gemma 3 text: one head dimension, every layer has its own K/V, `(1 + w)`
//!   RMSNorm weights, half-precision weights from a safetensors file.
//! - Gemma 4 text: sliding layers and global layers with different head
//!   dimensions and partial RoPE, the last layers reuse the K/V of the last
//!   layer of the same type, double-wide MLPs on the shared layers, per-layer
//!   token embeddings, plain `w` RMSNorm weights, quantized weights.
//!
//! [`Config`] describes everything per layer; [`Config::tensors`] is the
//! catalogue of tensor names and shapes an engine expects.

use vstd::prelude::*;
use vstd::string::StringExecFns;

use crate::error::LoadError;
use crate::json::{as_double, as_unsigned, at, has_field, Json, JsonView};
use crate::text::{concat2, decimal, push_decimal, same};

verus! {

#[derive(Debug, Clone, Copy, PartialEq, Eq, Structural)]
pub enum Arch {
    Gemma3,
    Gemma4,
}

/// A number the configuration gives as a double (its bit pattern), or the
/// whole number that stands in for it.
#[derive(Debug, Clone, Copy, PartialEq, Eq, Structural)]
pub enum Scalar {
    Double(u64),
    Whole(usize),
}

/// What queries are multiplied by.
#[derive(Debug, Clone, Copy, PartialEq, Eq, Structural)]
pub enum QueryScale {
    One,
    /// One over the square root.
    InverseRoot(Scalar),
}

/// A checkpoint's shape. Numbers that are no integers are held as the bit
/// patterns of their doubles.
#[derive(Debug)]
pub struct Config {
    pub arch: Arch,
    pub vocab: usize,
    pub d: usize,
    pub layers: usize,
    pub heads: usize,
    pub kv_heads: usize,
    /// Per layer.
    pub head_dim: Vec<usize>,
    /// Per layer: intermediate size.
    pub ff: Vec<usize>,
    /// Per layer: true = sliding window.
    pub sliding: Vec<bool>,
    /// Per layer: the layer whose K/V this layer attends over (itself when
    /// it has its own K/V projection).
    pub kv_source: Vec<usize>,
    /// Per layer: how many of the head dimensions RoPE rotates.
    pub rope_dims: Vec<usize>,
    pub eps: u64,
    pub window: usize,
    pub theta_global: u64,
    pub theta_local: u64,
    pub query_scale: QueryScale,
    /// RMSNorm weight offset: Gemma 3 stores `w` and applies `1 + w`; Gemma 4
    /// (and any export where the shift is folded in) applies `w`.
    pub norm_offset: u64,
    /// RMS-normalize V (no weight) before attention.
    pub v_norm: bool,
    /// Per-layer input embedding width (0 = none).
    pub per_layer_dim: usize,
    /// Final logit softcapping (0 = none).
    pub softcap: u64,
    pub bos: u32,
}

/// The bit patterns of the doubles a configuration falls back to.
pub const ONE: u64 = 0x3ff0_0000_0000_0000;

pub const ZERO: u64 = 0;

/// One millionth.
pub const MICRO: u64 = 0x3eb0_c6f7_a0b5_ed8d;

/// One million.
pub const MILLION: u64 = 0x412e_8480_0000_0000;

/// Ten thousand.
pub const TEN_THOUSAND: u64 = 0x40c3_8800_0000_0000;

/// The text model of a configuration: nested in a multimodal one.
pub open spec fn text_part(v: JsonView) -> JsonView {
    if has_field(v, "text_config"@) {
        at(v, "text_config"@)
    } else {
        v
    }
}

/// The family a configuration names.
pub open spec fn arch_of(v: JsonView) -> Arch {
    let t = at(v, "model_type"@);
    if t is Str && (t->Str_0 == "gemma4_text"@ || t->Str_0 == "gemma4"@) {
        Arch::Gemma4
    } else {
        Arch::Gemma3
    }
}

/// A field that holds a size.
pub open spec fn size_field(v: JsonView, key: Seq<char>) -> Option<usize> {
    match as_unsigned(at(v, key)) {
        Some(n) => Some(n as usize),
        None => None,
    }
}

/// A field that holds a size, or its default.
pub open spec fn size_or(v: JsonView, key: Seq<char>, default: usize) -> usize {
    match size_field(v, key) {
        Some(n) => n,
        None => default,
    }
}

/// A field that holds a number.
pub open spec fn double_field(v: JsonView, key: Seq<char>) -> Option<u64> {
    if has_field(v, key) {
        as_double(at(v, key))
    } else {
        None
    }
}

/// A field that holds a number, or its default.
pub open spec fn double_or(v: JsonView, key: Seq<char>, default: u64) -> u64 {
    match double_field(v, key) {
        Some(n) => n,
        None => default,
    }
}

/// Every how many layers one is global, in a configuration that lists none.
pub open spec fn pattern_of(v: JsonView) -> usize {
    size_or(v, "_sliding_window_pattern"@, 6)
}

/// Per layer, whether it has a sliding window.
pub open spec fn sliding_of(v: JsonView, layers: nat) -> Seq<bool> {
    match at(v, "layer_types"@) {
        JsonView::Array(a) => a.map_values(
            |t: JsonView| t is Str && t->Str_0 == "sliding_attention"@,
        ),
        _ => Seq::new(layers, |i: int| (i + 1) % (pattern_of(v) as int) != 0),
    }
}

/// The RoPE parameters of one attention type.
pub open spec fn rope_of(v: JsonView, kind: Seq<char>) -> JsonView {
    at(at(v, "rope_parameters"@), kind)
}

/// The last of the first `n` layers of the same attention type as layer `i`.
pub open spec fn last_alike(sliding: Seq<bool>, i: int, n: nat) -> Option<nat>
    decreases n,
{
    if n == 0 {
        None
    } else if sliding[n - 1] == sliding[i] {
        Some((n - 1) as nat)
    } else {
        last_alike(sliding, i, (n - 1) as nat)
    }
}

/// Per layer, the layer whose K/V it attends over, when the layers from
/// `first_shared` on have none of their own: the last own-K/V layer of the
/// same attention type.
pub open spec fn kv_sources(sliding: Seq<bool>, first_shared: nat) -> Seq<usize> {
    Seq::new(
        sliding.len(),
        |i: int|
            if i < first_shared {
                i as usize
            } else {
                last_alike(sliding, i, first_shared)->0 as usize
            },
    )
}

/// The first of the first `n` layers that has no K/V of its own and no earlier
/// layer of its attention type to share with.
pub open spec fn first_unshared(sliding: Seq<bool>, first_shared: nat, n: nat) -> Option<nat>
    decreases n,
{
    if n == 0 {
        None
    } else {
        match first_unshared(sliding, first_shared, (n - 1) as nat) {
            Some(i) => Some(i),
            None => if n - 1 >= first_shared && last_alike(sliding, n - 1, first_shared) is None {
                Some((n - 1) as nat)
            } else {
                None
            },
        }
    }
}

/// The message of a layer without a layer to share with.
pub open spec fn unshared_message(i: nat) -> Seq<char> {
    "layer "@ + decimal(i) + " has no earlier K/V layer of its type to share"@
}

/// A size that may be missing counts as zero.
pub open spec fn size_or_zero(v: JsonView) -> usize {
    match as_unsigned(v) {
        Some(n) => n as usize,
        None => 0,
    }
}

/// The shared layers have twice the intermediate size.
pub open spec fn double_wide(v: JsonView) -> bool {
    at(v, "use_double_wide_mlp"@) == JsonView::Bool(true)
}

/// Per layer, the intermediate size.
pub open spec fn ff_of(v: JsonView, layers: nat, first_shared: nat) -> Option<Seq<usize>> {
    match at(v, "intermediate_size"@) {
        JsonView::Array(a) => Some(a.map_values(|x: JsonView| size_or_zero(x))),
        JsonView::Uint(_) | JsonView::Int(_) | JsonView::Float(_) => {
            let base = size_or_zero(at(v, "intermediate_size"@));
            Some(
                Seq::new(
                    layers,
                    |i: int|
                        if double_wide(v) && i >= first_shared {
                            (2 * base) as usize
                        } else {
                            base
                        },
                ),
            )
        },
        _ => None,
    }
}

/// How many layers attend over the K/V of an earlier one.
pub open spec fn shared_of(v: JsonView) -> usize {
    size_or(v, "num_kv_shared_layers"@, 0)
}

/// The message of a missing field.
pub open spec fn missing(key: Seq<char>) -> Seq<char> {
    "config.json: missing "@ + key
}

/// The message of a per-layer list of the wrong length.
pub open spec fn count_message(key: Seq<char>, n: nat, layers: nat) -> Seq<char> {
    "config.json: "@ + key + " has "@ + decimal(n) + " entries for "@ + decimal(layers)
        + " layers"@
}

/// Why a text configuration cannot be read, if it cannot.
pub open spec fn config_fault(v: JsonView) -> Option<Seq<char>> {
    let layers = size_field(v, "num_hidden_layers"@);
    if layers is None {
        Some(missing("num_hidden_layers"@))
    } else {
        let n = layers->0 as nat;
        let sliding = sliding_of(v, n);
        if sliding.len() != n {
            Some(count_message("layer_types"@, sliding.len(), n))
        } else if size_field(v, "head_dim"@) is None {
            Some(missing("head_dim"@))
        } else if shared_of(v) >= n {
            Some(
                "num_kv_shared_layers "@ + decimal(shared_of(v) as nat) + " >= "@ + decimal(n)
                    + " layers"@,
            )
        } else {
            let first_shared = (n - shared_of(v)) as nat;
            match first_unshared(sliding, first_shared, n) {
                Some(i) => Some(unshared_message(i)),
                None => match ff_of(v, n, first_shared) {
                    None => Some(missing("intermediate_size"@)),
                    Some(ff) => if ff.len() != n {
                        Some(count_message("intermediate_size"@, ff.len(), n))
                    } else if size_field(v, "vocab_size"@) is None {
                        Some(missing("vocab_size"@))
                    } else if size_field(v, "hidden_size"@) is None {
                        Some(missing("hidden_size"@))
                    } else if size_field(v, "num_attention_heads"@) is None {
                        Some(missing("num_attention_heads"@))
                    } else if size_field(v, "num_key_value_heads"@) is None {
                        Some(missing("num_key_value_heads"@))
                    } else {
                        None
                    },
                },
            }
        }
    }
}

/// The head dimension of a sliding and of a global layer.
pub open spec fn head_dims_of(v: JsonView) -> (usize, usize) {
    let local = size_or(v, "head_dim"@, 0);
    (local, size_or(v, "global_head_dim"@, local))
}

/// `pair.0` for the sliding layers, `pair.1` for the global ones.
pub open spec fn by_type(sliding: Seq<bool>, pair: (usize, usize)) -> Seq<usize> {
    sliding.map_values(
        |s: bool|
            if s {
                pair.0
            } else {
                pair.1
            },
    )
}

impl Config {
    /// The configuration that `v` describes, when a sliding layer rotates
    /// `rope.0` of its head dimensions and a global one `rope.1`.
    pub open spec fn describes(self, v: JsonView, rope: (usize, usize)) -> bool {
        let n = size_or(v, "num_hidden_layers"@, 0) as nat;
        let sliding = sliding_of(v, n);
        let first_shared = (n - shared_of(v)) as nat;
        let arch = arch_of(v);
        let local = head_dims_of(v).0;
        &&& self.arch == arch
        &&& self.vocab == size_or(v, "vocab_size"@, 0)
        &&& self.d == size_or(v, "hidden_size"@, 0)
        &&& self.layers == n
        &&& self.heads == size_or(v, "num_attention_heads"@, 0)
        &&& self.kv_heads == size_or(v, "num_key_value_heads"@, 0)
        &&& self.head_dim@ == by_type(sliding, head_dims_of(v))
        &&& ff_of(v, n, first_shared) == Some(self.ff@)
        &&& self.sliding@ == sliding
        &&& self.kv_source@ == kv_sources(sliding, first_shared)
        &&& self.rope_dims@ == by_type(sliding, rope)
        &&& self.eps == double_or(v, "rms_norm_eps"@, MICRO)
        &&& self.window == size_or(v, "sliding_window"@, 512)
        &&& self.theta_global == double_or(
            rope_of(v, "full_attention"@),
            "rope_theta"@,
            double_or(v, "rope_theta"@, MILLION),
        )
        &&& self.theta_local == double_or(
            rope_of(v, "sliding_attention"@),
            "rope_theta"@,
            double_or(v, "rope_local_base_freq"@, TEN_THOUSAND),
        )
        &&& self.query_scale == (match arch {
            Arch::Gemma3 => QueryScale::InverseRoot(
                match double_field(v, "query_pre_attn_scalar"@) {
                    Some(x) => Scalar::Double(x),
                    None => Scalar::Whole(local),
                },
            ),
            Arch::Gemma4 => QueryScale::One,
        })
        &&& self.norm_offset == double_or(
            v,
            "omg_norm_offset"@,
            match arch {
                Arch::Gemma3 => ONE,
                Arch::Gemma4 => ZERO,
            },
        )
        &&& self.v_norm == (arch == Arch::Gemma4)
        &&& self.per_layer_dim == size_or(v, "hidden_size_per_layer_input"@, 0)
        &&& self.softcap == double_or(v, "final_logit_softcapping"@, ZERO)
        &&& self.bos == (match as_unsigned(at(v, "bos_token_id"@)) {
            Some(x) => x as u32,
            None => 2,
        })
    }
}

/// What stands in for a missing value is null.
pub(crate) open spec fn node(v: Option<&Json>) -> JsonView {
    match v {
        Some(x) => x@,
        None => JsonView::Null,
    }
}

pub(crate) fn below<'a>(v: Option<&'a Json>, key: &str) -> (r: Option<&'a Json>)
    ensures
        node(r) == at(node(v), key@),
        r is Some <==> has_field(node(v), key@),
{
    match v {
        Some(x) => x.get(key),
        None => None,
    }
}

pub(crate) fn size_at(v: &Json, key: &str) -> (r: Option<usize>)
    ensures
        r == size_field(v@, key@),
{
    match v.unsigned_at(key) {
        Some(n) => Some(n as usize),
        None => None,
    }
}

pub(crate) fn size_at_or(v: &Json, key: &str, default: usize) -> (r: usize)
    ensures
        r == size_or(v@, key@, default),
{
    match size_at(v, key) {
        Some(n) => n,
        None => default,
    }
}

pub(crate) fn need(v: &Json, key: &str) -> (r: Result<usize, LoadError>)
    ensures
        match r {
            Ok(n) => size_field(v@, key@) == Some(n),
            Err(e) => size_field(v@, key@) is None && e@ == missing(key@),
        },
{
    match size_at(v, key) {
        Some(n) => Ok(n),
        None => Err(LoadError::new(concat2("config.json: missing ", key))),
    }
}

pub(crate) fn double_at_or(v: Option<&Json>, key: &str, default: u64) -> (r: u64)
    ensures
        r == double_or(node(v), key@, default),
{
    match v {
        Some(x) => match x.double_at(key) {
            Some(n) => n,
            None => default,
        },
        None => default,
    }
}

pub(crate) fn text_model(v: &Json) -> (r: Option<&Json>)
    ensures
        node(r) == text_part(v@),
        r is Some,
{
    match v.get("text_config") {
        Some(t) => Some(t),
        None => Some(v),
    }
}

fn is_text(v: &Json, t: &str) -> (r: bool)
    ensures
        r == (v@ is Str && v@->Str_0 == t@),
{
    match v {
        Json::Str(s) => same(s.as_str(), t),
        _ => false,
    }
}

fn count_text(key: &str, n: usize, layers: usize) -> (r: String)
    ensures
        r@ == count_message(key@, n as nat, layers as nat),
{
    let mut s: String = "config.json: ".to_owned();
    s.append(key);
    s.append(" has ");
    push_decimal(&mut s, n as u64);
    s.append(" entries for ");
    push_decimal(&mut s, layers as u64);
    s.append(" layers");
    s
}

fn read_sliding(v: &Json, layers: usize) -> (r: Vec<bool>)
    requires
        (at(v@, "layer_types"@) is Array) || pattern_of(v@) != 0 || layers == 0,
    ensures
        r@ == sliding_of(v@, layers as nat),
{
    match v.list_at("layer_types") {
        Some(a) => {
            let mut out: Vec<bool> = Vec::new();
            let mut i: usize = 0;
            while i < a.len()
                invariant
                    0 <= i <= a@.len(),
                    out@.len() == i,
                    forall|j: int|
                        0 <= j < i ==> #[trigger] out@[j] == (a@[j]@ is Str && a@[j]@->Str_0
                            == "sliding_attention"@),
                decreases a@.len() - i,
            {
                out.push(is_text(&a[i], "sliding_attention"));
                i += 1;
            }
            assert(out@ =~= sliding_of(v@, layers as nat));
            out
        },
        None => {
            let k: usize = size_at_or(v, "_sliding_window_pattern", 6);
            let mut out: Vec<bool> = Vec::new();
            let mut i: usize = 0;
            while i < layers
                invariant
                    0 <= i <= layers,
                    k != 0 || layers == 0,
                    out@ == Seq::new(i as nat, |j: int| (j + 1) % (k as int) != 0),
                decreases layers - i,
            {
                out.push((i + 1) % k != 0);
                i += 1;
                assert(out@ =~= Seq::new(i as nat, |j: int| (j + 1) % (k as int) != 0));
            }
            out
        },
    }
}

fn spread(sliding: &Vec<bool>, local: usize, global: usize) -> (r: Vec<usize>)
    ensures
        r@ == by_type(sliding@, (local, global)),
{
    let mut out: Vec<usize> = Vec::new();
    let mut i: usize = 0;
    while i < sliding.len()
        invariant
            0 <= i <= sliding@.len(),
            out@ == by_type(sliding@, (local, global)).take(i as int),
        decreases sliding@.len() - i,
    {
        out.push(
            if sliding[i] {
                local
            } else {
                global
            },
        );
        i += 1;
        assert(out@ =~= by_type(sliding@, (local, global)).take(i as int));
    }
    assert(out@ =~= by_type(sliding@, (local, global)));
    out
}

proof fn first_unshared_stays(sliding: Seq<bool>, first_shared: nat, i: nat, n: nat)
    requires
        i <= n,
        first_unshared(sliding, first_shared, i) is Some,
    ensures
        first_unshared(sliding, first_shared, n) == first_unshared(sliding, first_shared, i),
    decreases n - i,
{
    if i < n {
        first_unshared_stays(sliding, first_shared, i + 1, n);
    }
}

fn read_kv_sources(sliding: &Vec<bool>, first_shared: usize) -> (r: Result<Vec<usize>, LoadError>)
    requires
        first_shared <= sliding@.len(),
    ensures
        match (r, first_unshared(sliding@, first_shared as nat, sliding@.len())) {
            (Ok(v), None) => v@ == kv_sources(sliding@, first_shared as nat),
            (Err(e), Some(i)) => e@ == unshared_message(i),
            _ => false,
        },
{
    let ghost want = kv_sources(sliding@, first_shared as nat);
    let mut out: Vec<usize> = Vec::new();
    let mut i: usize = 0;
    while i < sliding.len()
        invariant
            0 <= i <= sliding@.len(),
            first_shared <= sliding@.len(),
            want == kv_sources(sliding@, first_shared as nat),
            first_unshared(sliding@, first_shared as nat, i as nat) is None,
            out@ == want.take(i as int),
        decreases sliding@.len() - i,
    {
        let mut src: usize = i;
        if i >= first_shared {
            let mut n: usize = first_shared;
            while n > 0 && sliding[n - 1] != sliding[i]
                invariant
                    n <= first_shared <= sliding@.len(),
                    i < sliding@.len(),
                    last_alike(sliding@, i as int, first_shared as nat) == last_alike(
                        sliding@,
                        i as int,
                        n as nat,
                    ),
                decreases n,
            {
                n -= 1;
            }
            if n == 0 {
                proof {
                    first_unshared_stays(
                        sliding@,
                        first_shared as nat,
                        (i + 1) as nat,
                        sliding@.len(),
                    );
                }
                let mut m: String = "layer ".to_owned();
                push_decimal(&mut m, i as u64);
                m.append(" has no earlier K/V layer of its type to share");
                return Err(LoadError::new(m));
            }
            src = n - 1;
        }
        out.push(src);
        i += 1;
        assert(out@ =~= want.take(i as int));
    }
    assert(out@ =~= want);
    Ok(out)
}

fn read_ff(v: &Json, layers: usize, first_shared: usize) -> (r: Option<Vec<usize>>)
    requires
        double_wide(v@) ==> 2 * size_or_zero(at(v@, "intermediate_size"@)) <= usize::MAX,
    ensures
        match r {
            Some(ff) => ff_of(v@, layers as nat, first_shared as nat) == Some(ff@),
            None => ff_of(v@, layers as nat, first_shared as nat) is None,
        },
{
    let x = match v.get("intermediate_size") {
        Some(x) => x,
        None => {
            return None;
        },
    };
    let base: usize = match x {
        Json::Array(a) => {
            let mut out: Vec<usize> = Vec::new();
            let mut i: usize = 0;
            while i < a.len()
                invariant
                    0 <= i <= a@.len(),
                    out@.len() == i,
                    forall|j: int| 0 <= j < i ==> #[trigger] out@[j] == size_or_zero(a@[j]@),
                decreases a@.len() - i,
            {
                out.push(
                    match &a[i] {
                        Json::Uint(n) => *n as usize,
                        _ => 0,
                    },
                );
                i += 1;
            }
            assert(out@ =~= x@->Array_0.map_values(|y: JsonView| size_or_zero(y)));
            return Some(out);
        },
        Json::Uint(n) => *n as usize,
        Json::Int(_) => 0,
        Json::Float(_) => 0,
        _ => {
            return None;
        },
    };
    let double: bool = match v.flag_at("use_double_wide_mlp") {
        Some(b) => b,
        None => false,
    };
    let ghost want = ff_of(v@, layers as nat, first_shared as nat)->0;
    let mut out: Vec<usize> = Vec::new();
    let mut i: usize = 0;
    while i < layers
        invariant
            0 <= i <= layers,
            double ==> 2 * base <= usize::MAX,
            want == Seq::new(
                layers as nat,
                |i: int|
                    if double && i >= first_shared {
                        (2 * base) as usize
                    } else {
                        base
                    },
            ),
            out@ == want.take(i as int),
        decreases layers - i,
    {
        out.push(
            if double && i >= first_shared {
                base * 2
            } else {
                base
            },
        );
        i += 1;
        assert(out@ =~= want.take(i as int));
    }
    assert(out@ =~= want);
    Some(out)
}

/// The configuration's numbers can be taken as they are: layers come in a
/// period, and a doubled intermediate size is a size.
pub open spec fn config_sane(v: JsonView) -> bool {
    &&& (at(v, "layer_types"@) is Array) || pattern_of(v) != 0 || size_or(
        v,
        "num_hidden_layers"@,
        0,
    ) == 0
    &&& double_wide(v) ==> 2 * size_or_zero(at(v, "intermediate_size"@)) <= usize::MAX
}

impl Config {
    /// The head dimension of a sliding and of a global layer, and what part of
    /// each RoPE rotates (the bit pattern of a double).
    pub fn rotary(v: &Json) -> (r: ((usize, usize), (u64, u64)))
        ensures
            r.0 == head_dims_of(text_part(v@)),
            r.1.0 == double_or(
                rope_of(text_part(v@), "sliding_attention"@),
                "partial_rotary_factor"@,
                ONE,
            ),
            r.1.1 == double_or(
                rope_of(text_part(v@), "full_attention"@),
                "partial_rotary_factor"@,
                ONE,
            ),
    {
        let t = text_model(v);
        let rope = below(t, "rope_parameters");
        let local = double_at_or(
            below(rope, "sliding_attention"),
            "partial_rotary_factor",
            ONE,
        );
        let global = double_at_or(below(rope, "full_attention"), "partial_rotary_factor", ONE);
        match t {
            Some(t) => {
                let hd: usize = size_at_or(t, "head_dim", 0);
                ((hd, size_at_or(t, "global_head_dim", hd)), (local, global))
            },
            None => ((0, 0), (local, global)),
        }
    }

    /// Reads a configuration. `rope` gives how many head dimensions RoPE
    /// rotates in a sliding and in a global layer: the parts
    /// [`Config::rotary`] names, rounded down.
    pub fn from_json(v: &Json, rope: (usize, usize)) -> (r: Result<Config, LoadError>)
        requires
            config_sane(text_part(v@)),
        ensures
            match r {
                Ok(c) => config_fault(text_part(v@)) is None && c.describes(text_part(v@), rope),
                Err(e) => config_fault(text_part(v@)) == Some(e@),
            },
    {
        let t = match text_model(v) {
            Some(t) => t,
            None => v,
        };
        let arch: Arch = match t.text_at("model_type") {
            Some(s) => if same(s.as_str(), "gemma4_text") || same(s.as_str(), "gemma4") {
                Arch::Gemma4
            } else {
                Arch::Gemma3
            },
            None => Arch::Gemma3,
        };
        let layers: usize = match need(t, "num_hidden_layers") {
            Ok(n) => n,
            Err(e) => {
                return Err(e);
            },
        };
        let sliding = read_sliding(t, layers);
        if sliding.len() != layers {
            return Err(LoadError::new(count_text("layer_types", sliding.len(), layers)));
        }
        let rope_parameters = t.get("rope_parameters");
        let theta_global: u64 = double_at_or(
            below(rope_parameters, "full_attention"),
            "rope_theta",
            double_at_or(Some(t), "rope_theta", MILLION),
        );
        let theta_local: u64 = double_at_or(
            below(rope_parameters, "sliding_attention"),
            "rope_theta",
            double_at_or(Some(t), "rope_local_base_freq", TEN_THOUSAND),
        );
        let hd_local: usize = match need(t, "head_dim") {
            Ok(n) => n,
            Err(e) => {
                return Err(e);
            },
        };
        let hd_global: usize = size_at_or(t, "global_head_dim", hd_local);
        let head_dim = spread(&sliding, hd_local, hd_global);
        let rope_dims = spread(&sliding, rope.0, rope.1);
        let shared: usize = size_at_or(t, "num_kv_shared_layers", 0);
        if shared >= layers {
            let mut m: String = "num_kv_shared_layers ".to_owned();
            push_decimal(&mut m, shared as u64);
            m.append(" >= ");
            push_decimal(&mut m, layers as u64);
            m.append(" layers");
            return Err(LoadError::new(m));
        }
        let first_shared: usize = layers - shared;
        let kv_source = match read_kv_sources(&sliding, first_shared) {
            Ok(k) => k,
            Err(e) => {
                return Err(e);
            },
        };
        let ff = match read_ff(t, layers, first_shared) {
            Some(ff) => ff,
            None => {
                return Err(LoadError::new(concat2("config.json: missing ", "intermediate_size")));
            },
        };
        if ff.len() != layers {
            return Err(LoadError::new(count_text("intermediate_size", ff.len(), layers)));
        }
        let query_scale: QueryScale = match arch {
            Arch::Gemma3 => QueryScale::InverseRoot(
                match t.double_at("query_pre_attn_scalar") {
                    Some(x) => Scalar::Double(x),
                    None => Scalar::Whole(hd_local),
                },
            ),
            Arch::Gemma4 => QueryScale::One,
        };
        let norm_default: u64 = match arch {
            Arch::Gemma3 => ONE,
            Arch::Gemma4 => ZERO,
        };
        let v_norm: bool = match arch {
            Arch::Gemma3 => false,
            Arch::Gemma4 => true,
        };
        let vocab: usize = match need(t, "vocab_size") {
            Ok(n) => n,
            Err(e) => {
                return Err(e);
            },
        };
        let d: usize = match need(t, "hidden_size") {
            Ok(n) => n,
            Err(e) => {
                return Err(e);
            },
        };
        let heads: usize = match need(t, "num_attention_heads") {
            Ok(n) => n,
            Err(e) => {
                return Err(e);
            },
        };
        let kv_heads: usize = match need(t, "num_key_value_heads") {
            Ok(n) => n,
            Err(e) => {
                return Err(e);
            },
        };
        let bos: u32 = match t.unsigned_at("bos_token_id") {
            Some(x) => x as u32,
            None => 2,
        };
        Ok(
            Config {
                arch,
                vocab,
                d,
                layers,
                heads,
                kv_heads,
                head_dim,
                ff,
                sliding,
                kv_source,
                rope_dims,
                eps: double_at_or(Some(t), "rms_norm_eps", MICRO),
                window: size_at_or(t, "sliding_window", 512),
                theta_global,
                theta_local,
                query_scale,
                norm_offset: double_at_or(Some(t), "omg_norm_offset", norm_default),
                v_norm,
                per_layer_dim: size_at_or(t, "hidden_size_per_layer_input", 0),
                softcap: double_at_or(Some(t), "final_logit_softcapping", ZERO),
                bos,
            },
        )
    }
}

/// The per-layer lists of a configuration belong together.
pub open spec fn shaped(c: Config) -> bool {
    &&& c.head_dim@.len() == c.layers
    &&& c.ff@.len() == c.layers
    &&& c.sliding@.len() == c.layers
    &&& c.rope_dims@.len() == c.layers
    &&& c.kv_source@.len() == c.layers
    &&& forall|i: int| 0 <= i < c.layers ==> (#[trigger] c.kv_source@[i]) < c.layers
}

/// What the kernels cannot run of layer `i`, if anything.
pub open spec fn layer_fault(c: Config, i: int) -> Option<Seq<char>> {
    let hd = c.head_dim@[i];
    let rope = c.rope_dims@[i];
    let src = c.kv_source@[i] as int;
    if hd != 256 && hd != 512 {
        Some(
            "layer "@ + decimal(i as nat) + ": head_dim must be 256 or 512 (got "@ + decimal(
                hd as nat,
            ) + ")"@,
        )
    } else if rope > hd || rope % 2 != 0 {
        Some(
            "layer "@ + decimal(i as nat) + ": rope_dims "@ + decimal(rope as nat)
                + " for head_dim "@ + decimal(hd as nat),
        )
    } else if src != i && c.head_dim@[src] != hd {
        Some(
            "layer "@ + decimal(i as nat) + ": shares K/V with layer "@ + decimal(src as nat)
                + " of a different head_dim"@,
        )
    } else {
        None
    }
}

/// The fault of the first of the first `n` layers that has one.
pub open spec fn layers_fault(c: Config, n: nat) -> Option<Seq<char>>
    decreases n,
{
    if n == 0 {
        None
    } else {
        match layers_fault(c, (n - 1) as nat) {
            Some(e) => Some(e),
            None => layer_fault(c, n - 1),
        }
    }
}

proof fn layers_fault_stays(c: Config, i: nat, n: nat)
    requires
        i <= n,
        layers_fault(c, i) is Some,
    ensures
        layers_fault(c, n) == layers_fault(c, i),
    decreases n - i,
{
    if i < n {
        layers_fault_stays(c, i + 1, n);
    }
}

/// Query heads share a KV head evenly.
pub open spec fn heads_divide(heads: nat, kv_heads: nat) -> bool {
    kv_heads != 0 && heads % kv_heads == 0
}

/// Query heads per KV head that the kernels cover.
pub open spec fn ratio_covered(r: nat) -> bool {
    r == 1 || r == 2 || r == 4 || r == 8 || r == 16
}

/// What the kernels cannot run, if anything.
pub open spec fn validate_fault(c: Config) -> Option<Seq<char>> {
    if !heads_divide(c.heads as nat, c.kv_heads as nat) {
        Some(
            "num_key_value_heads "@ + decimal(c.kv_heads as nat)
                + " must divide num_attention_heads "@ + decimal(c.heads as nat),
        )
    } else if !ratio_covered((c.heads / c.kv_heads) as nat) {
        Some(
            "query heads per KV head must divide 16 (got "@ + decimal(c.heads as nat) + " / "@
                + decimal(c.kv_heads as nat) + ")"@,
        )
    } else if layers_fault(c, c.layers as nat) is Some {
        layers_fault(c, c.layers as nat)
    } else if c.d % 32 != 0 || exists|i: int| 0 <= i < c.ff@.len() && #[trigger] c.ff@[i] % 32 != 0 {
        Some("hidden_size and intermediate_size must be multiples of 32"@)
    } else if c.per_layer_dim % 32 != 0 {
        Some("hidden_size_per_layer_input must be a multiple of 32"@)
    } else {
        None
    }
}

/// Layer `l` projects its own K and V.
pub open spec fn own_kv(c: Config, l: int) -> bool {
    c.kv_source@[l] == l
}

/// The width of layer `l`'s fused projection.
pub open spec fn qkv_of(c: Config, l: int) -> nat {
    if own_kv(c, l) {
        ((c.heads + 2 * c.kv_heads) * c.head_dim@[l]) as nat
    } else {
        (c.heads * c.head_dim@[l]) as nat
    }
}

/// A tensor's name and shape.
pub type NamedShape = (Seq<char>, Seq<usize>);

/// The name of a tensor of layer `l`.
pub open spec fn layer_name(l: int, s: Seq<char>) -> Seq<char> {
    "blk."@ + decimal(l as nat) + "."@ + s
}

/// The tensors of layer `l`.
pub open spec fn layer_tensors(c: Config, l: int) -> Seq<NamedShape> {
    let hd = c.head_dim@[l];
    let ff = c.ff@[l];
    let d = c.d;
    let p = c.per_layer_dim;
    seq![
        (layer_name(l, "attn_norm"@), seq![d]),
        (layer_name(l, "qkv"@), seq![qkv_of(c, l) as usize, d]),
        (layer_name(l, "q_norm"@), seq![hd]),
    ] + (if own_kv(c, l) {
        seq![(layer_name(l, "k_norm"@), seq![hd])]
    } else {
        seq![]
    }) + seq![
        (layer_name(l, "o"@), seq![d, (c.heads * hd) as usize]),
        (layer_name(l, "post_attn_norm"@), seq![d]),
        (layer_name(l, "ffn_norm"@), seq![d]),
        (layer_name(l, "gate"@), seq![ff, d]),
        (layer_name(l, "up"@), seq![ff, d]),
        (layer_name(l, "down"@), seq![d, ff]),
        (layer_name(l, "post_ffn_norm"@), seq![d]),
    ] + (if p > 0 {
        seq![
            (layer_name(l, "pl_gate"@), seq![p, d]),
            (layer_name(l, "pl_proj"@), seq![d, p]),
            (layer_name(l, "pl_norm"@), seq![d]),
            (layer_name(l, "out_scale"@), seq![1usize]),
        ]
    } else {
        seq![]
    })
}

/// The tensors outside the layers.
pub open spec fn top_tensors(c: Config) -> Seq<NamedShape> {
    seq![("embed"@, seq![c.vocab, c.d]), ("final_norm"@, seq![c.d])] + (if c.per_layer_dim > 0 {
        seq![
            ("pl_model_proj"@, seq![(c.per_layer_dim * c.layers) as usize, c.d]),
            ("pl_proj_norm"@, seq![c.per_layer_dim]),
        ]
    } else {
        seq![]
    })
}

/// Every tensor of the first `n` layers and outside the layers.
pub open spec fn catalogue(c: Config, n: nat) -> Seq<NamedShape>
    decreases n,
{
    if n == 0 {
        top_tensors(c)
    } else {
        catalogue(c, (n - 1) as nat) + layer_tensors(c, n - 1)
    }
}

/// The widths of the tensors are sizes.
pub open spec fn widths_fit(c: Config) -> bool {
    &&& c.heads + 2 * c.kv_heads <= usize::MAX
    &&& c.per_layer_dim * c.layers <= usize::MAX
    &&& forall|l: int|
        0 <= l < c.layers ==> (c.heads + 2 * c.kv_heads) * (#[trigger] c.head_dim@[l])
            <= usize::MAX
}

#[derive(Debug, PartialEq, Eq)]
pub struct TensorSpec {
    pub name: String,
    pub shape: Vec<usize>,
}

impl View for TensorSpec {
    type V = NamedShape;

    open spec fn view(&self) -> NamedShape {
        (self.name@, self.shape@)
    }
}

/// The names and shapes of a list of tensors.
pub open spec fn spec_views(v: Seq<TensorSpec>) -> Seq<NamedShape> {
    v.map_values(|t: TensorSpec| t@)
}

impl TensorSpec {
    pub fn new(name: &str, shape: Vec<usize>) -> (r: TensorSpec)
        ensures
            r@ == (name@, shape@),
    {
        TensorSpec { name: name.to_owned(), shape }
    }
}

/// Appends a one-dimensional tensor.
pub(crate) fn push1(out: &mut Vec<TensorSpec>, name: &str, a: usize)
    ensures
        spec_views(final(out)@) == spec_views(old(out)@).push((name@, seq![a])),
{
    let ghost before = out@;
    let mut shape: Vec<usize> = Vec::new();
    shape.push(a);
    assert(shape@ =~= seq![a]);
    out.push(TensorSpec::new(name, shape));
    assert(spec_views(out@) =~= spec_views(before).push((name@, seq![a])));
}

/// Appends a two-dimensional tensor.
pub(crate) fn push2(out: &mut Vec<TensorSpec>, name: &str, a: usize, b: usize)
    ensures
        spec_views(final(out)@) == spec_views(old(out)@).push((name@, seq![a, b])),
{
    let ghost before = out@;
    let mut shape: Vec<usize> = Vec::new();
    shape.push(a);
    shape.push(b);
    assert(shape@ =~= seq![a, b]);
    out.push(TensorSpec::new(name, shape));
    assert(spec_views(out@) =~= spec_views(before).push((name@, seq![a, b])));
}

pub(crate) fn block_name(l: usize, s: &str) -> (r: String)
    ensures
        r@ == layer_name(l as int, s@),
{
    let mut n: String = "blk.".to_owned();
    push_decimal(&mut n, l as u64);
    n.append(".");
    n.append(s);
    n
}

fn any_off_by_32(v: &Vec<usize>) -> (r: bool)
    ensures
        r == exists|i: int| 0 <= i < v@.len() && #[trigger] v@[i] % 32 != 0,
{
    let mut i: usize = 0;
    while i < v.len()
        invariant
            0 <= i <= v@.len(),
            forall|j: int| 0 <= j < i ==> #[trigger] v@[j] % 32 == 0,
        decreases v@.len() - i,
    {
        if v[i] % 32 != 0 {
            assert(v@[i as int] % 32 != 0);
            return true;
        }
        i += 1;
    }
    false
}

impl Config {
    /// Whether the kernels can run the checkpoint.
    pub fn validate(&self) -> (r: Result<(), LoadError>)
        requires
            shaped(*self),
        ensures
            match r {
                Ok(_) => validate_fault(*self) is None,
                Err(e) => validate_fault(*self) == Some(e@),
            },
    {
        if self.kv_heads == 0 || self.heads % self.kv_heads != 0 {
            let mut m: String = "num_key_value_heads ".to_owned();
            push_decimal(&mut m, self.kv_heads as u64);
            m.append(" must divide num_attention_heads ");
            push_decimal(&mut m, self.heads as u64);
            return Err(LoadError::new(m));
        }
        let r: usize = self.heads / self.kv_heads;
        if !(r == 1 || r == 2 || r == 4 || r == 8 || r == 16) {
            let mut m: String = "query heads per KV head must divide 16 (got ".to_owned();
            push_decimal(&mut m, self.heads as u64);
            m.append(" / ");
            push_decimal(&mut m, self.kv_heads as u64);
            m.append(")");
            return Err(LoadError::new(m));
        }
        let mut i: usize = 0;
        while i < self.layers
            invariant
                0 <= i <= self.layers,
                shaped(*self),
                heads_divide(self.heads as nat, self.kv_heads as nat),
                ratio_covered((self.heads / self.kv_heads) as nat),
                layers_fault(*self, i as nat) is None,
            decreases self.layers - i,
        {
            let hd: usize = self.head_dim[i];
            let rope: usize = self.rope_dims[i];
            assert(self.kv_source@[i as int] < self.layers);
            let src: usize = self.kv_source[i];
            proof {
                if layer_fault(*self, i as int) is Some {
                    layers_fault_stays(*self, (i + 1) as nat, self.layers as nat);
                }
            }
            let mut m: String = "layer ".to_owned();
            push_decimal(&mut m, i as u64);
            if hd != 256 && hd != 512 {
                m.append(": head_dim must be 256 or 512 (got ");
                push_decimal(&mut m, hd as u64);
                m.append(")");
                return Err(LoadError::new(m));
            }
            if rope > hd || rope % 2 != 0 {
                m.append(": rope_dims ");
                push_decimal(&mut m, rope as u64);
                m.append(" for head_dim ");
                push_decimal(&mut m, hd as u64);
                return Err(LoadError::new(m));
            }
            if src != i && self.head_dim[src] != hd {
                m.append(": shares K/V with layer ");
                push_decimal(&mut m, src as u64);
                m.append(" of a different head_dim");
                return Err(LoadError::new(m));
            }
            i += 1;
        }
        if self.d % 32 != 0 || any_off_by_32(&self.ff) {
            return Err(
                LoadError::of("hidden_size and intermediate_size must be multiples of 32"),
            );
        }
        if self.per_layer_dim % 32 != 0 {
            return Err(LoadError::of("hidden_size_per_layer_input must be a multiple of 32"));
        }
        Ok(())
    }

    /// Whether layer `layer` projects its own K and V.
    pub fn has_kv(&self, layer: usize) -> (r: bool)
        requires
            layer < self.kv_source@.len(),
        ensures
            r == own_kv(*self, layer as int),
    {
        self.kv_source[layer] == layer
    }

    /// Width of layer `l`'s fused projection: q heads, plus the k and v heads
    /// when the layer has its own K/V.
    pub fn qkv_width(&self, l: usize) -> (r: usize)
        requires
            shaped(*self),
            widths_fit(*self),
            l < self.layers,
        ensures
            r == qkv_of(*self, l as int),
    {
        let hd: usize = self.head_dim[l];
        proof {
            assert(self.head_dim@[l as int] == hd);
            assert(self.heads * hd <= (self.heads + 2 * self.kv_heads) * hd) by (nonlinear_arith);
            assert((self.heads + 2 * self.kv_heads) * hd <= usize::MAX);
        }
        if self.has_kv(l) {
            (self.heads + 2 * self.kv_heads) * hd
        } else {
            self.heads * hd
        }
    }

    /// The largest head dimension; 256 without layers.
    pub fn max_head_dim(&self) -> (r: usize)
        ensures
            self.head_dim@.len() == 0 ==> r == 256,
            self.head_dim@.len() > 0 ==> self.head_dim@.contains(r) && forall|i: int|
                0 <= i < self.head_dim@.len() ==> (#[trigger] self.head_dim@[i]) <= r,
    {
        if self.head_dim.len() == 0 {
            return 256;
        }
        let mut best: usize = self.head_dim[0];
        let mut i: usize = 1;
        while i < self.head_dim.len()
            invariant
                1 <= i <= self.head_dim@.len(),
                exists|j: int| 0 <= j < i && #[trigger] self.head_dim@[j] == best,
                forall|j: int| 0 <= j < i ==> (#[trigger] self.head_dim@[j]) <= best,
            decreases self.head_dim@.len() - i,
        {
            if self.head_dim[i] > best {
                best = self.head_dim[i];
            }
            i += 1;
        }
        best
    }

    fn push_layer(&self, l: usize, v: &mut Vec<TensorSpec>)
        requires
            shaped(*self),
            widths_fit(*self),
            l < self.layers,
        ensures
            spec_views(final(v)@) == spec_views(old(v)@) + layer_tensors(*self, l as int),
    {
        let ghost before = spec_views(v@);
        let d: usize = self.d;
        let hd: usize = self.head_dim[l];
        let ff: usize = self.ff[l];
        proof {
            assert(self.head_dim@[l as int] == hd);
            assert(self.heads * hd <= (self.heads + 2 * self.kv_heads) * hd) by (nonlinear_arith);
        }
        push1(v, block_name(l, "attn_norm").as_str(), d);
        push2(v, block_name(l, "qkv").as_str(), self.qkv_width(l), d);
        push1(v, block_name(l, "q_norm").as_str(), hd);
        if self.has_kv(l) {
            push1(v, block_name(l, "k_norm").as_str(), hd);
        }
        push2(v, block_name(l, "o").as_str(), d, self.heads * hd);
        push1(v, block_name(l, "post_attn_norm").as_str(), d);
        push1(v, block_name(l, "ffn_norm").as_str(), d);
        push2(v, block_name(l, "gate").as_str(), ff, d);
        push2(v, block_name(l, "up").as_str(), ff, d);
        push2(v, block_name(l, "down").as_str(), d, ff);
        push1(v, block_name(l, "post_ffn_norm").as_str(), d);
        if self.per_layer_dim > 0 {
            let p: usize = self.per_layer_dim;
            push2(v, block_name(l, "pl_gate").as_str(), p, d);
            push2(v, block_name(l, "pl_proj").as_str(), d, p);
            push1(v, block_name(l, "pl_norm").as_str(), d);
            push1(v, block_name(l, "out_scale").as_str(), 1);
        }
        assert(spec_views(v@) =~= before + layer_tensors(*self, l as int));
    }

    /// Every tensor the engine needs, with its shape (row-major `[out, in]`
    /// for linears). Norm weights are 1-D.
    pub fn tensors(&self) -> (r: Vec<TensorSpec>)
        requires
            shaped(*self),
            widths_fit(*self),
        ensures
            spec_views(r@) == catalogue(*self, self.layers as nat),
    {
        let mut v: Vec<TensorSpec> = Vec::new();
        push2(&mut v, "embed", self.vocab, self.d);
        push1(&mut v, "final_norm", self.d);
        if self.per_layer_dim > 0 {
            push2(&mut v, "pl_model_proj", self.per_layer_dim * self.layers, self.d);
            push1(&mut v, "pl_proj_norm", self.per_layer_dim);
        }
        assert(spec_views(v@) =~= top_tensors(*self));
        let mut l: usize = 0;
        while l < self.layers
            invariant
                0 <= l <= self.layers,
                shaped(*self),
                widths_fit(*self),
                spec_views(v@) == catalogue(*self, l as nat),
            decreases self.layers - l,
        {
            self.push_layer(l, &mut v);
            l += 1;
        }
        v
    }
}

/// A configuration that could be read has its per-layer lists in shape. Every
/// layer but the last shared ones has its own K/V, and a shared layer attends
/// over the last own-K/V layer of its attention type.
pub proof fn readable_configs_are_shaped(c: Config, v: JsonView, rope: (usize, usize))
    requires
        config_fault(v) is None,
        c.describes(v, rope),
    ensures
        shaped(c),
        shared_of(v) < c.layers,
        ({
            let first = c.layers - shared_of(v);
            &&& forall|i: int| 0 <= i < first ==> (#[trigger] c.kv_source@[i]) == i
            &&& forall|i: int|
                first <= i < c.layers ==> (#[trigger] c.kv_source@[i]) < first
                    && c.sliding@[c.kv_source@[i] as int] == c.sliding@[i]
            &&& forall|i: int, j: int|
                first <= i < c.layers && c.kv_source@[i] < j < first ==> #[trigger] c.sliding@[i]
                    != #[trigger] c.sliding@[j]
        }),
{
    let n = c.layers as nat;
    let first = (n - shared_of(v)) as nat;
    assert forall|i: int| first <= i < n implies (#[trigger] c.kv_source@[i]) < first
        && c.sliding@[c.kv_source@[i] as int] == c.sliding@[i] && forall|j: int|
        c.kv_source@[i] < j < first ==> c.sliding@[i] != #[trigger] c.sliding@[j] by {
        none_unshared(c.sliding@, first, n, i);
        last_alike_is_last(c.sliding@, i, first);
    }
    assert forall|i: int, j: int| first <= i < n && c.kv_source@[i] < j < first implies #[trigger] c.sliding@[i]
        != #[trigger] c.sliding@[j] by {
        assert(c.kv_source@[i] < first);
    }
}

proof fn none_unshared(sliding: Seq<bool>, first: nat, n: nat, i: int)
    requires
        first <= i < n,
        first_unshared(sliding, first, n) is None,
    ensures
        last_alike(sliding, i, first) is Some,
    decreases n,
{
    if i < n - 1 {
        none_unshared(sliding, first, (n - 1) as nat, i);
    }
}

proof fn last_alike_is_last(sliding: Seq<bool>, i: int, n: nat)
    requires
        last_alike(sliding, i, n) is Some,
    ensures
        ({
            let s = last_alike(sliding, i, n)->0;
            &&& s < n
            &&& sliding[s as int] == sliding[i]
            &&& forall|j: int| s < j < n ==> #[trigger] sliding[j] != sliding[i]
        }),
    decreases n,
{
    if n > 0 && sliding[n - 1] != sliding[i] {
        last_alike_is_last(sliding, i, (n - 1) as nat);
    }
}

impl Config {
    /// Whether the configuration's numbers can be taken as they are.
    pub fn is_sane(v: &Json) -> (r: bool)
        ensures
            r == config_sane(text_part(v@)),
    {
        let t = match text_model(v) {
            Some(t) => t,
            None => v,
        };
        let period = t.list_at("layer_types").is_some() || size_at_or(
            t,
            "_sliding_window_pattern",
            6,
        ) != 0 || size_at_or(t, "num_hidden_layers", 0) == 0;
        let double = match t.flag_at("use_double_wide_mlp") {
            Some(b) => b,
            None => false,
        };
        let base: usize = size_at_or(t, "intermediate_size", 0);
        period && (!double || base <= usize::MAX / 2)
    }

    /// Whether the widths of the tensors are sizes.
    pub fn widths_are_sizes(&self) -> (r: bool)
        requires
            shaped(*self),
        ensures
            r == widths_fit(*self),
    {
        if self.kv_heads > usize::MAX / 2 {
            return false;
        }
        let w: usize = match self.heads.checked_add(2 * self.kv_heads) {
            Some(w) => w,
            None => {
                return false;
            },
        };
        if self.per_layer_dim.checked_mul(self.layers).is_none() {
            return false;
        }
        let mut l: usize = 0;
        while l < self.layers
            invariant
                0 <= l <= self.layers,
                shaped(*self),
                w == self.heads + 2 * self.kv_heads,
                forall|j: int| 0 <= j < l ==> w * (#[trigger] self.head_dim@[j]) <= usize::MAX,
            decreases self.layers - l,
        {
            if w.checked_mul(self.head_dim[l]).is_none() {
                assert((self.heads + 2 * self.kv_heads) * self.head_dim@[l as int] > usize::MAX);
                return false;
            }
            l += 1;
        }
        true
    }
}

/// Every size of a configuration is the number that the file holds under the
/// size's own name.
pub proof fn sizes_are_read_by_name(c: Config, v: JsonView, rope: (usize, usize), n: u64)
    requires
        c.describes(v, rope),
        n <= usize::MAX,
    ensures
        at(v, "vocab_size"@) == JsonView::Uint(n) ==> c.vocab == n,
        at(v, "hidden_size"@) == JsonView::Uint(n) ==> c.d == n,
        at(v, "num_hidden_layers"@) == JsonView::Uint(n) ==> c.layers == n,
        at(v, "num_attention_heads"@) == JsonView::Uint(n) ==> c.heads == n,
        at(v, "num_key_value_heads"@) == JsonView::Uint(n) ==> c.kv_heads == n,
        at(v, "sliding_window"@) == JsonView::Uint(n) ==> c.window == n,
        at(v, "sliding_window"@) is Null ==> c.window == 512,
        at(v, "hidden_size_per_layer_input"@) == JsonView::Uint(n) ==> c.per_layer_dim == n,
        at(v, "hidden_size_per_layer_input"@) is Null ==> c.per_layer_dim == 0,
        at(v, "bos_token_id"@) == JsonView::Uint(n) && n <= u32::MAX ==> c.bos == n,
        at(v, "bos_token_id"@) is Null ==> c.bos == 2,
        at(v, "num_kv_shared_layers"@) == JsonView::Uint(n) ==> shared_of(v) == n,
        at(v, "num_kv_shared_layers"@) is Null ==> shared_of(v) == 0,
{
}

/// Every layer's sizes go by its attention type: a sliding layer has the head
/// dimension and the rotation of sliding layers, a global one those of global
/// layers, which default to the others. Layers that are listed have the type
/// that they are listed with; of those that are not, every sixth is global, or
/// every one that the pattern says.
pub proof fn layers_are_sized_by_their_type(
    c: Config,
    v: JsonView,
    rope: (usize, usize),
    i: int,
    n: u64,
)
    requires
        config_fault(v) is None,
        c.describes(v, rope),
        0 <= i < c.layers,
        0 < n <= usize::MAX,
    ensures
        c.sliding@[i] ==> c.rope_dims@[i] == rope.0,
        !c.sliding@[i] ==> c.rope_dims@[i] == rope.1,
        c.sliding@[i] && at(v, "head_dim"@) == JsonView::Uint(n) ==> c.head_dim@[i] == n,
        !c.sliding@[i] && at(v, "global_head_dim"@) == JsonView::Uint(n) ==> c.head_dim@[i] == n,
        !c.sliding@[i] && at(v, "global_head_dim"@) is Null && at(v, "head_dim"@)
            == JsonView::Uint(n) ==> c.head_dim@[i] == n,
        at(v, "layer_types"@) is Array ==> (c.sliding@[i] <==> at(v, "layer_types"@)->Array_0[i]
            == JsonView::Str("sliding_attention"@)),
        at(v, "layer_types"@) is Null && at(v, "_sliding_window_pattern"@) is Null ==> (
        c.sliding@[i] <==> (i + 1) % 6 != 0),
        at(v, "layer_types"@) is Null && at(v, "_sliding_window_pattern"@) == JsonView::Uint(n)
            ==> (c.sliding@[i] <==> (i + 1) % (n as int) != 0),
        at(v, "intermediate_size"@) == JsonView::Uint(n) && at(v, "use_double_wide_mlp"@)
            != JsonView::Bool(true) ==> c.ff@[i] == n,
        at(v, "intermediate_size"@) == JsonView::Uint(n) && at(v, "use_double_wide_mlp"@)
            == JsonView::Bool(true) && 2 * n <= usize::MAX ==> c.ff@[i] == (if i < c.layers
            - shared_of(v) {
            n as int
        } else {
            2 * n
        }),
        at(v, "intermediate_size"@) is Array && at(v, "intermediate_size"@)->Array_0[i]
            == JsonView::Uint(n) ==> c.ff@[i] == n,
{
}

/// Every number of a configuration is the one that the file holds under its
/// own name; the rotation bases are those of their attention type, before the
/// older names.
pub proof fn numbers_are_read_by_name(c: Config, v: JsonView, rope: (usize, usize), x: u64)
    requires
        c.describes(v, rope),
    ensures
        double_field(v, "rms_norm_eps"@) == Some(x) ==> c.eps == x,
        double_field(v, "final_logit_softcapping"@) == Some(x) ==> c.softcap == x,
        double_field(v, "final_logit_softcapping"@) is None ==> c.softcap == 0,
        double_field(v, "omg_norm_offset"@) == Some(x) ==> c.norm_offset == x,
        double_field(v, "omg_norm_offset"@) is None ==> c.norm_offset == (if c.arch is Gemma3 {
            ONE
        } else {
            0u64
        }),
        double_field(at(at(v, "rope_parameters"@), "full_attention"@), "rope_theta"@) == Some(x)
            ==> c.theta_global == x,
        double_field(at(at(v, "rope_parameters"@), "full_attention"@), "rope_theta"@) is None
            && double_field(v, "rope_theta"@) == Some(x) ==> c.theta_global == x,
        double_field(at(at(v, "rope_parameters"@), "sliding_attention"@), "rope_theta"@) == Some(
            x,
        ) ==> c.theta_local == x,
        double_field(at(at(v, "rope_parameters"@), "sliding_attention"@), "rope_theta"@) is None
            && double_field(v, "rope_local_base_freq"@) == Some(x) ==> c.theta_local == x,
        c.arch is Gemma4 <==> (at(v, "model_type"@) == JsonView::Str("gemma4_text"@) || at(
            v,
            "model_type"@,
        ) == JsonView::Str("gemma4"@)),
        c.v_norm <==> c.arch is Gemma4,
        c.arch is Gemma4 ==> c.query_scale is One,
        c.arch is Gemma3 && double_field(v, "query_pre_attn_scalar"@) == Some(x) ==> c.query_scale
            == QueryScale::InverseRoot(Scalar::Double(x)),
        c.arch is Gemma3 && double_field(v, "query_pre_attn_scalar"@) is None ==> c.query_scale
            == QueryScale::InverseRoot(Scalar::Whole(size_or(v, "head_dim"@, 0))),
{
}

/// A fused projection is as wide as the heads that it computes: all query heads,
/// and the key and value heads exactly where the layer has its own.
pub proof fn projections_hold_their_heads(c: Config, l: int)
    requires
        widths_fit(c),
        0 <= l < c.layers,
    ensures
        c.kv_source@[l] == l ==> qkv_of(c, l) == c.heads * c.head_dim@[l] + c.kv_heads
            * c.head_dim@[l] + c.kv_heads * c.head_dim@[l],
        c.kv_source@[l] != l ==> qkv_of(c, l) == c.heads * c.head_dim@[l],
{
    let hd = c.head_dim@[l];
    assert((c.heads + 2 * c.kv_heads) * hd == c.heads * hd + c.kv_heads * hd + c.kv_heads * hd)
        by (nonlinear_arith);
    assert(c.heads * hd >= 0) by (nonlinear_arith)
        requires
            c.heads >= 0,
            hd >= 0,
    ;
}

/// What the kernels run: query heads share a KV head evenly and no more than 16
/// of them a power of two, head dimensions are 256 or 512, rotations are even
/// and within them, a shared layer has its source's head dimension, and widths
/// are multiples of 32.
pub proof fn valid_configs_can_run(c: Config, i: int)
    requires
        shaped(c),
        validate_fault(c) is None,
        0 <= i < c.layers,
    ensures
        c.kv_heads > 0,
        c.heads % c.kv_heads == 0,
        c.heads / c.kv_heads == 1 || c.heads / c.kv_heads == 2 || c.heads / c.kv_heads == 4
            || c.heads / c.kv_heads == 8 || c.heads / c.kv_heads == 16,
        c.head_dim@[i] == 256 || c.head_dim@[i] == 512,
        c.rope_dims@[i] <= c.head_dim@[i],
        c.rope_dims@[i] % 2 == 0,
        c.head_dim@[c.kv_source@[i] as int] == c.head_dim@[i],
        c.d % 32 == 0,
        c.ff@[i] % 32 == 0,
        c.per_layer_dim % 32 == 0,
{
    if layer_fault(c, i) is Some {
        layers_fault_found(c, i, c.layers as nat);
    }
    assert(c.ff@[i] % 32 == 0);
}

proof fn layers_fault_found(c: Config, i: int, n: nat)
    requires
        0 <= i < n,
        layer_fault(c, i) is Some,
    ensures
        layers_fault(c, n) is Some,
    decreases n,
{
    if i < n - 1 {
        layers_fault_found(c, i, (n - 1) as nat);
    }
}

} // verus!

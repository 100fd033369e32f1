//! What the encoders share: reading a ModernBERT configuration, and packing
//! token sequences into one stream that attention keeps apart.

use vstd::prelude::*;
use vstd::string::StringExecFns;

use crate::error::LoadError;
use crate::gemma::{check_ids, id_fault, tokens_pass_exactly_when_known};
use crate::gpu::{attn_tile, tile_of};
use crate::json::{at, Json, JsonView};
use crate::model::{below, double_at_or, double_or, rope_of, size_at, size_at_or, size_field, size_or};
use crate::text::{concat3, decimal, push_decimal, same};

verus! {

/// One hundred-thousandth, as the bit pattern of its double.
pub const TEN_MICRO: u64 = 0x3ee4_f8b5_88e3_68f1;

/// One hundred and sixty thousand, as the bit pattern of its double.
pub const GLOBAL_THETA: u64 = 0x4103_8800_0000_0000;

/// Every how many layers one is global, in a configuration that lists none.
pub open spec fn every_of(v: JsonView) -> usize {
    size_or(v, "global_attn_every_n_layers"@, 3)
}

/// Per layer, whether its attention is local: as listed, or all but every
/// n-th.
pub open spec fn local_layers(v: JsonView, layers: nat) -> Seq<bool> {
    match at(v, "layer_types"@) {
        JsonView::Array(a) => a.map_values(
            |t: JsonView| t is Str && t->Str_0 == "sliding_attention"@,
        ),
        _ => Seq::new(layers, |i: int| i % (every_of(v) as int) != 0),
    }
}

/// Local layers come in a period where they are not listed.
pub open spec fn period_sane(v: JsonView, layers: nat) -> bool {
    (at(v, "layer_types"@) is Array) || every_of(v) != 0 || layers == 0
}

/// Whether the local layers of an encoder come in a period or are listed.
pub fn has_period(v: &Json) -> (r: bool)
    ensures
        r == period_sane(v@, size_or(v@, "num_hidden_layers"@, 0) as nat),
{
    v.list_at("layer_types").is_some() || size_at_or(v, "global_attn_every_n_layers", 3) != 0
        || size_at_or(v, "num_hidden_layers", 0) == 0
}

pub(crate) fn read_local_layers(v: &Json, layers: usize) -> (r: Vec<bool>)
    requires
        period_sane(v@, layers as nat),
    ensures
        r@ == local_layers(v@, layers as nat),
{
    match v.list_at("layer_types") {
        Some(a) => {
            let mut out: Vec<bool> = Vec::new();
            let mut i: usize = 0;
            while i < a.len()
                invariant
                    0 <= i <= a@.len(),
                    out@.len() == i,
                    forall|j: int|
                        0 <= j < i ==> #[trigger] out@[j] == (a@[j]@ is Str && a@[j]@->Str_0
                            == "sliding_attention"@),
                decreases a@.len() - i,
            {
                out.push(
                    match &a[i] {
                        Json::Str(s) => same(s.as_str(), "sliding_attention"),
                        _ => false,
                    },
                );
                i += 1;
            }
            assert(out@ =~= local_layers(v@, layers as nat));
            out
        },
        None => {
            let every: usize = size_at_or(v, "global_attn_every_n_layers", 3);
            let mut out: Vec<bool> = Vec::new();
            let mut i: usize = 0;
            while i < layers
                invariant
                    0 <= i <= layers,
                    every != 0 || layers == 0,
                    out@ == Seq::new(i as nat, |j: int| j % (every as int) != 0),
                decreases layers - i,
            {
                out.push(i % every != 0);
                i += 1;
                assert(out@ =~= Seq::new(i as nat, |j: int| j % (every as int) != 0));
            }
            out
        },
    }
}

/// The message of a `layer_types` list of the wrong length.
pub open spec fn types_message(n: nat, layers: nat) -> Seq<char> {
    "layer_types has "@ + decimal(n) + " entries for "@ + decimal(layers) + " layers"@
}

pub(crate) fn types_text(n: usize, layers: usize) -> (r: String)
    ensures
        r@ == types_message(n as nat, layers as nat),
{
    let mut m: String = "layer_types has ".to_owned();
    push_decimal(&mut m, n as u64);
    m.append(" entries for ");
    push_decimal(&mut m, layers as u64);
    m.append(" layers");
    m
}

/// The RoPE base of an attention type: of its own parameters, of the
/// configuration's `key`, or the fallback.
pub open spec fn theta_of(v: JsonView, kind: Seq<char>, key: Seq<char>, fallback: u64) -> u64 {
    double_or(rope_of(v, kind), "rope_theta"@, double_or(v, key, fallback))
}

pub(crate) fn read_theta(v: &Json, kind: &str, key: &str, fallback: u64) -> (r: u64)
    ensures
        r == theta_of(v@, kind@, key@, fallback),
{
    let rope = v.get("rope_parameters");
    double_at_or(below(rope, kind), "rope_theta", double_at_or(Some(v), key, fallback))
}

/// The LayerNorm epsilon of a ModernBERT configuration.
pub open spec fn eps_of(v: JsonView) -> u64 {
    double_or(v, "norm_eps"@, double_or(v, "layer_norm_eps"@, TEN_MICRO))
}

pub(crate) fn read_eps(v: &Json) -> (r: u64)
    ensures
        r == eps_of(v@),
{
    double_at_or(Some(v), "norm_eps", double_at_or(Some(v), "layer_norm_eps", TEN_MICRO))
}

/// The message of a missing field of a file.
pub open spec fn missing_in(file: Seq<char>, key: Seq<char>) -> Seq<char> {
    file + ": missing "@ + key
}

pub(crate) fn need_in(v: &Json, file: &str, key: &str) -> (r: Result<usize, LoadError>)
    ensures
        match r {
            Ok(n) => size_field(v@, key@) == Some(n),
            Err(e) => size_field(v@, key@) is None && e@ == missing_in(file@, key@),
        },
{
    match size_at(v, key) {
        Some(n) => Ok(n),
        None => Err(LoadError::new(concat3(file, ": missing ", key))),
    }
}

/// What the kernels cannot run of an encoder's widths, if anything.
pub open spec fn widths_fault(d: nat, heads: nat, ff: nat) -> Option<Seq<char>> {
    if heads == 0 || d % heads != 0 {
        Some("hidden_size "@ + decimal(d) + " / heads "@ + decimal(heads))
    } else {
        let hd = d / heads;
        let kb = tile_of(hd).1;
        if hd % (4 * kb) != 0 || hd < 32 {
            Some(
                "head_dim "@ + decimal(hd) + " must be a multiple of "@ + decimal(4 * kb),
            )
        } else if d % 32 != 0 || ff % 32 != 0 {
            Some("hidden_size and intermediate_size must be multiples of 32"@)
        } else {
            None
        }
    }
}

pub(crate) fn check_widths(d: usize, heads: usize, ff: usize) -> (r: Result<(), LoadError>)
    ensures
        match r {
            Ok(_) => widths_fault(d as nat, heads as nat, ff as nat) is None,
            Err(e) => widths_fault(d as nat, heads as nat, ff as nat) == Some(e@),
        },
{
    if heads == 0 || d % heads != 0 {
        let mut m: String = "hidden_size ".to_owned();
        push_decimal(&mut m, d as u64);
        m.append(" / heads ");
        push_decimal(&mut m, heads as u64);
        return Err(LoadError::new(m));
    }
    let hd: usize = d / heads;
    let (_rows, kb) = attn_tile(hd);
    assert(kb == tile_of(hd as nat).1);
    if hd % (4 * kb) != 0 || hd < 32 {
        let mut m: String = "head_dim ".to_owned();
        push_decimal(&mut m, hd as u64);
        m.append(" must be a multiple of ");
        push_decimal(&mut m, (4 * kb) as u64);
        return Err(LoadError::new(m));
    }
    if d % 32 != 0 || ff % 32 != 0 {
        return Err(LoadError::of("hidden_size and intermediate_size must be multiples of 32"));
    }
    Ok(())
}

/// One token sequence.
#[derive(Debug, Clone)]
pub struct Sequence {
    pub ids: Vec<u32>,
    /// Token index of each option's mask, in option order.
    pub markers: Vec<usize>,
    /// 0 = choice, 1 = score, 2 = noul.
    pub qtype: usize,
}

/// Sequences in one stream.
#[derive(Debug)]
pub struct Batch {
    pub ids: Vec<u32>,
    pub qtypes: Vec<u32>,
    /// `(position, sequence, start, end)` of every token, flat: attention
    /// looks from `start` to `end` only.
    pub meta: Vec<i32>,
    /// `(sequence, slot, packed index)`: the first token of every sequence,
    /// then its markers.
    pub wanted: Vec<(usize, usize, usize)>,
}

/// Where sequence `n` starts.
pub open spec fn start_of(seqs: Seq<Sequence>, n: nat) -> nat
    decreases n,
{
    if n == 0 {
        0
    } else {
        start_of(seqs, (n - 1) as nat) + seqs[n - 1].ids@.len()
    }
}

/// The ids of the first `n` sequences.
pub open spec fn batch_ids(seqs: Seq<Sequence>, n: nat) -> Seq<u32>
    decreases n,
{
    if n == 0 {
        Seq::empty()
    } else {
        batch_ids(seqs, (n - 1) as nat) + seqs[n - 1].ids@
    }
}

/// The question type of every token.
pub open spec fn batch_qtypes(seqs: Seq<Sequence>, n: nat) -> Seq<u32>
    decreases n,
{
    if n == 0 {
        Seq::empty()
    } else {
        batch_qtypes(seqs, (n - 1) as nat) + Seq::new(
            seqs[n - 1].ids@.len(),
            |i: int| seqs[n - 1].qtype as u32,
        )
    }
}

/// The places of a sequence of `k` tokens that starts at `start`.
pub open spec fn sequence_meta(start: nat, k: nat, seq: nat) -> Seq<i32> {
    Seq::new(
        4 * k,
        |i: int|
            if i % 4 == 0 {
                (i / 4) as i32
            } else if i % 4 == 1 {
                seq as i32
            } else if i % 4 == 2 {
                start as i32
            } else {
                (start + k) as i32
            },
    )
}

/// The places of the first `n` sequences.
pub open spec fn batch_meta(seqs: Seq<Sequence>, n: nat) -> Seq<i32>
    decreases n,
{
    if n == 0 {
        Seq::empty()
    } else {
        batch_meta(seqs, (n - 1) as nat) + sequence_meta(
            start_of(seqs, (n - 1) as nat),
            seqs[n - 1].ids@.len(),
            (n - 1) as nat,
        )
    }
}

/// The rows the scorer reads of one sequence.
pub open spec fn sequence_wanted(s: Sequence, si: nat, start: nat) -> Seq<(usize, usize, usize)> {
    Seq::new(
        s.markers@.len() + 1,
        |j: int|
            if j == 0 {
                (si as usize, 0usize, start as usize)
            } else {
                (si as usize, j as usize, (start + s.markers@[j - 1]) as usize)
            },
    )
}

/// The rows the scorer reads of the first `n` sequences.
pub open spec fn batch_wanted(seqs: Seq<Sequence>, n: nat) -> Seq<(usize, usize, usize)>
    decreases n,
{
    if n == 0 {
        Seq::empty()
    } else {
        batch_wanted(seqs, (n - 1) as nat) + sequence_wanted(
            seqs[n - 1],
            (n - 1) as nat,
            start_of(seqs, (n - 1) as nat),
        )
    }
}

/// The first of the markers past the tokens.
pub open spec fn marker_fault(s: Sequence, si: nat, n: nat) -> Option<Seq<char>>
    decreases n,
{
    if n == 0 {
        None
    } else {
        match marker_fault(s, si, (n - 1) as nat) {
            Some(e) => Some(e),
            None => if s.markers@[n - 1] >= s.ids@.len() {
                Some(
                    "sequence "@ + decimal(si) + ": marker "@ + decimal(s.markers@[n - 1] as nat)
                        + " past its "@ + decimal(s.ids@.len()) + " tokens"@,
                )
            } else {
                None
            },
        }
    }
}

/// What is wrong with a sequence, if anything.
pub open spec fn sequence_fault(s: Sequence, si: nat, max_len: nat, vocab: nat) -> Option<
    Seq<char>,
> {
    if s.ids@.len() == 0 {
        Some("sequence "@ + decimal(si) + " is empty"@)
    } else if s.ids@.len() > max_len {
        Some(
            "sequence "@ + decimal(si) + ": "@ + decimal(s.ids@.len()) + " tokens > max_len "@
                + decimal(max_len),
        )
    } else if s.qtype >= 3 {
        Some("sequence "@ + decimal(si) + ": question type "@ + decimal(s.qtype as nat))
    } else if id_fault(s.ids@, vocab, s.ids@.len()) is Some {
        id_fault(s.ids@, vocab, s.ids@.len())
    } else {
        marker_fault(s, si, s.markers@.len())
    }
}

/// The fault of the first of the first `n` sequences that has one.
pub open spec fn sequences_fault(seqs: Seq<Sequence>, max_len: nat, vocab: nat, n: nat) -> Option<
    Seq<char>,
>
    decreases n,
{
    if n == 0 {
        None
    } else {
        match sequences_fault(seqs, max_len, vocab, (n - 1) as nat) {
            Some(e) => Some(e),
            None => sequence_fault(seqs[n - 1], (n - 1) as nat, max_len, vocab),
        }
    }
}

proof fn marker_fault_stays(s: Sequence, si: nat, i: nat, n: nat)
    requires
        i <= n,
        marker_fault(s, si, i) is Some,
    ensures
        marker_fault(s, si, n) == marker_fault(s, si, i),
    decreases n - i,
{
    if i < n {
        marker_fault_stays(s, si, i + 1, n);
    }
}

proof fn sequences_fault_stays(seqs: Seq<Sequence>, max_len: nat, vocab: nat, i: nat, n: nat)
    requires
        i <= n,
        sequences_fault(seqs, max_len, vocab, i) is Some,
    ensures
        sequences_fault(seqs, max_len, vocab, n) == sequences_fault(seqs, max_len, vocab, i),
    decreases n - i,
{
    if i < n {
        sequences_fault_stays(seqs, max_len, vocab, i + 1, n);
    }
}

proof fn start_grows(seqs: Seq<Sequence>, i: nat, n: nat)
    requires
        i <= n <= seqs.len(),
    ensures
        start_of(seqs, i) <= start_of(seqs, n),
    decreases n - i,
{
    if i < n {
        start_grows(seqs, i + 1, n);
    }
}

/// How many tokens the sequences hold.
pub fn total_length(seqs: &Vec<Sequence>) -> (r: usize)
    requires
        start_of(seqs@, seqs@.len()) <= usize::MAX,
    ensures
        r == start_of(seqs@, seqs@.len()),
{
    let mut n: usize = 0;
    let mut i: usize = 0;
    while i < seqs.len()
        invariant
            0 <= i <= seqs@.len(),
            start_of(seqs@, seqs@.len()) <= usize::MAX,
            n == start_of(seqs@, i as nat),
        decreases seqs@.len() - i,
    {
        proof {
            start_grows(seqs@, (i + 1) as nat, seqs@.len());
        }
        n += seqs[i].ids.len();
        i += 1;
    }
    n
}

fn check_sequence(s: &Sequence, si: usize, max_len: usize, vocab: usize) -> (r: Result<
    (),
    LoadError,
>)
    ensures
        match r {
            Ok(_) => sequence_fault(*s, si as nat, max_len as nat, vocab as nat) is None,
            Err(e) => sequence_fault(*s, si as nat, max_len as nat, vocab as nat) == Some(e@),
        },
{
    let mut m: String = "sequence ".to_owned();
    push_decimal(&mut m, si as u64);
    if s.ids.len() == 0 {
        m.append(" is empty");
        return Err(LoadError::new(m));
    }
    if s.ids.len() > max_len {
        m.append(": ");
        push_decimal(&mut m, s.ids.len() as u64);
        m.append(" tokens > max_len ");
        push_decimal(&mut m, max_len as u64);
        return Err(LoadError::new(m));
    }
    if s.qtype >= 3 {
        m.append(": question type ");
        push_decimal(&mut m, s.qtype as u64);
        return Err(LoadError::new(m));
    }
    match check_ids(&s.ids, vocab) {
        Ok(_) => {},
        Err(e) => {
            return Err(e);
        },
    }
    let ghost head = m@;
    let mut j: usize = 0;
    while j < s.markers.len()
        invariant
            0 <= j <= s.markers@.len(),
            m@ == head,
            head == "sequence "@ + decimal(si as nat),
            0 < s.ids@.len() <= max_len,
            s.qtype < 3,
            id_fault(s.ids@, vocab as nat, s.ids@.len()) is None,
            marker_fault(*s, si as nat, j as nat) is None,
        decreases s.markers@.len() - j,
    {
        if s.markers[j] >= s.ids.len() {
            let mut e: String = m.clone();
            e.append(": marker ");
            push_decimal(&mut e, s.markers[j] as u64);
            e.append(" past its ");
            push_decimal(&mut e, s.ids.len() as u64);
            e.append(" tokens");
            proof {
                marker_fault_stays(*s, si as nat, (j + 1) as nat, s.markers@.len());
            }
            return Err(LoadError::new(e));
        }
        j += 1;
    }
    Ok(())
}

fn push_sequence(b: &mut Batch, s: &Sequence, si: usize, start: usize)
    requires
        start + s.ids@.len() <= usize::MAX,
        marker_fault(*s, si as nat, s.markers@.len()) is None,
    ensures
        final(b).ids@ == old(b).ids@ + s.ids@,
        final(b).qtypes@ == old(b).qtypes@ + Seq::new(s.ids@.len(), |i: int| s.qtype as u32),
        final(b).meta@ == old(b).meta@ + sequence_meta(start as nat, s.ids@.len(), si as nat),
        final(b).wanted@ == old(b).wanted@ + sequence_wanted(*s, si as nat, start as nat),
{
    let ghost ids0 = b.ids@;
    let ghost q0 = b.qtypes@;
    let ghost m0 = b.meta@;
    let ghost w0 = b.wanted@;
    let n: usize = s.ids.len();
    let mut i: usize = 0;
    assert(b.ids@ =~= ids0 + s.ids@.take(0));
    assert(b.qtypes@ =~= q0 + Seq::new(0nat, |i: int| s.qtype as u32));
    assert(b.meta@ =~= m0 + sequence_meta(start as nat, n as nat, si as nat).take(0));
    while i < n
        invariant
            0 <= i <= n,
            n == s.ids@.len(),
            start + n <= usize::MAX,
            b.wanted@ == w0,
            b.ids@ == ids0 + s.ids@.take(i as int),
            b.qtypes@ == q0 + Seq::new(i as nat, |i: int| s.qtype as u32),
            b.meta@ == m0 + sequence_meta(start as nat, n as nat, si as nat).take(4 * i),
        decreases n - i,
    {
        b.ids.push(s.ids[i]);
        b.qtypes.push(s.qtype as u32);
        b.meta.push(i as i32);
        b.meta.push(si as i32);
        b.meta.push(start as i32);
        b.meta.push((start + n) as i32);
        i += 1;
        assert(b.ids@ =~= ids0 + s.ids@.take(i as int));
        assert(b.qtypes@ =~= q0 + Seq::new(i as nat, |i: int| s.qtype as u32));
        assert(b.meta@ =~= m0 + sequence_meta(start as nat, n as nat, si as nat).take(4 * i));
    }
    assert(s.ids@.take(i as int) =~= s.ids@);
    assert(sequence_meta(start as nat, n as nat, si as nat).take(4 * i) =~= sequence_meta(
        start as nat,
        n as nat,
        si as nat,
    ));
    let ghost want = sequence_wanted(*s, si as nat, start as nat);
    b.wanted.push((si, 0, start));
    let mut j: usize = 0;
    assert(b.wanted@ =~= w0 + want.take(1));
    while j < s.markers.len()
        invariant
            0 <= j <= s.markers@.len(),
            n == s.ids@.len(),
            start + n <= usize::MAX,
            marker_fault(*s, si as nat, s.markers@.len()) is None,
            want == sequence_wanted(*s, si as nat, start as nat),
            b.ids@ == ids0 + s.ids@,
            b.qtypes@ == q0 + Seq::new(n as nat, |i: int| s.qtype as u32),
            b.meta@ == m0 + sequence_meta(start as nat, n as nat, si as nat),
            b.wanted@ == w0 + want.take(j + 1),
        decreases s.markers@.len() - j,
    {
        proof {
            if s.markers@[j as int] >= s.ids@.len() {
                if marker_fault(*s, si as nat, j as nat) is Some {
                    marker_fault_stays(*s, si as nat, j as nat, s.markers@.len());
                }
                marker_fault_stays(*s, si as nat, (j + 1) as nat, s.markers@.len());
            }
        }
        let len: usize = s.markers.len();
        b.wanted.push((si, j + 1, start + s.markers[j]));
        j += 1;
        assert(b.wanted@ =~= w0 + want.take(j + 1));
    }
    assert(want.take(j + 1) =~= want);
}

/// Packs sequences into one stream.
pub fn pack_sequences(seqs: &Vec<Sequence>, max_len: usize, vocab: usize) -> (r: Result<
    Batch,
    LoadError,
>)
    requires
        start_of(seqs@, seqs@.len()) <= usize::MAX,
    ensures
        ({
            let fault = sequences_fault(seqs@, max_len as nat, vocab as nat, seqs@.len());
            match r {
                Ok(b) => fault is None && b.ids@ == batch_ids(seqs@, seqs@.len()) && b.qtypes@
                    == batch_qtypes(seqs@, seqs@.len()) && b.meta@ == batch_meta(
                    seqs@,
                    seqs@.len(),
                ) && b.wanted@ == batch_wanted(seqs@, seqs@.len()),
                Err(e) => fault == Some(e@),
            }
        }),
{
    let mut b = Batch {
        ids: Vec::new(),
        qtypes: Vec::new(),
        meta: Vec::new(),
        wanted: Vec::new(),
    };
    let mut start: usize = 0;
    let mut si: usize = 0;
    assert(b.ids@ =~= batch_ids(seqs@, 0));
    assert(b.qtypes@ =~= batch_qtypes(seqs@, 0));
    assert(b.meta@ =~= batch_meta(seqs@, 0));
    assert(b.wanted@ =~= batch_wanted(seqs@, 0));
    while si < seqs.len()
        invariant
            0 <= si <= seqs@.len(),
            start_of(seqs@, seqs@.len()) <= usize::MAX,
            start == start_of(seqs@, si as nat),
            sequences_fault(seqs@, max_len as nat, vocab as nat, si as nat) is None,
            b.ids@ == batch_ids(seqs@, si as nat),
            b.qtypes@ == batch_qtypes(seqs@, si as nat),
            b.meta@ == batch_meta(seqs@, si as nat),
            b.wanted@ == batch_wanted(seqs@, si as nat),
        decreases seqs@.len() - si,
    {
        proof {
            start_grows(seqs@, (si + 1) as nat, seqs@.len());
            if sequences_fault(seqs@, max_len as nat, vocab as nat, (si + 1) as nat) is Some {
                sequences_fault_stays(
                    seqs@,
                    max_len as nat,
                    vocab as nat,
                    (si + 1) as nat,
                    seqs@.len(),
                );
            }
        }
        match check_sequence(&seqs[si], si, max_len, vocab) {
            Ok(_) => {},
            Err(e) => {
                return Err(e);
            },
        }
        push_sequence(&mut b, &seqs[si], si, start);
        start += seqs[si].ids.len();
        si += 1;
    }
    Ok(b)
}

proof fn batch_lengths(seqs: Seq<Sequence>, n: nat)
    requires
        n <= seqs.len(),
    ensures
        batch_ids(seqs, n).len() == start_of(seqs, n),
        batch_qtypes(seqs, n).len() == start_of(seqs, n),
        batch_meta(seqs, n).len() == 4 * start_of(seqs, n),
    decreases n,
{
    if n > 0 {
        batch_lengths(seqs, (n - 1) as nat);
    }
}

proof fn batch_keeps(seqs: Seq<Sequence>, i: nat, n: nat, x: int)
    requires
        i <= n <= seqs.len(),
        0 <= x < start_of(seqs, i),
    ensures
        batch_ids(seqs, n)[x] == batch_ids(seqs, i)[x],
        batch_qtypes(seqs, n)[x] == batch_qtypes(seqs, i)[x],
        forall|k: int|
            0 <= k < 4 ==> #[trigger] batch_meta(seqs, n)[4 * x + k] == batch_meta(seqs, i)[4 * x
                + k],
    decreases n - i,
{
    batch_lengths(seqs, i);
    if i < n {
        batch_lengths(seqs, i + 1);
        batch_keeps(seqs, i + 1, n, x);
        assert forall|k: int| 0 <= k < 4 implies #[trigger] batch_meta(seqs, n)[4 * x + k]
            == batch_meta(seqs, i)[4 * x + k] by {
            assert(batch_meta(seqs, i + 1)[4 * x + k] == batch_meta(seqs, i)[4 * x + k]);
        }
    }
}

/// Sequences are isolated: token `j` of sequence `s` keeps its id and its
/// question type, stands at position `j`, and looks from the start of its own
/// sequence to its end only, whatever the other sequences hold.
pub proof fn sequences_are_isolated(seqs: Seq<Sequence>, s: int, j: int)
    requires
        start_of(seqs, seqs.len()) <= i32::MAX,
        seqs.len() <= i32::MAX,
        0 <= s < seqs.len(),
        0 <= j < seqs[s].ids@.len(),
    ensures
        ({
            let x = start_of(seqs, s as nat) + j;
            let meta = batch_meta(seqs, seqs.len());
            &&& x < start_of(seqs, seqs.len())
            &&& batch_ids(seqs, seqs.len())[x] == seqs[s].ids@[j]
            &&& batch_qtypes(seqs, seqs.len())[x] == seqs[s].qtype as u32
            &&& meta[4 * x] == j
            &&& meta[4 * x + 1] == s
            &&& meta[4 * x + 2] == start_of(seqs, s as nat)
            &&& meta[4 * x + 3] == start_of(seqs, s as nat) + seqs[s].ids@.len()
        }),
{
    let start = start_of(seqs, s as nat);
    let x = start + j;
    let n = (s + 1) as nat;
    let meta = batch_meta(seqs, seqs.len());
    start_grows(seqs, n, seqs.len());
    batch_lengths(seqs, s as nat);
    batch_lengths(seqs, n);
    batch_keeps(seqs, n, seqs.len(), x);
    let own = sequence_meta(start, seqs[s].ids@.len(), s as nat);
    assert((4 * j) % 4 == 0 && (4 * j) / 4 == j);
    assert((4 * j + 1) % 4 == 1 && (4 * j + 2) % 4 == 2 && (4 * j + 3) % 4 == 3);
    assert(own[4 * j] == j);
    assert(meta[4 * x + 0] == batch_meta(seqs, n)[4 * x + 0]);
    assert(batch_meta(seqs, n)[4 * x + 0] == own[4 * j]);
    assert(meta[4 * x + 1] == batch_meta(seqs, n)[4 * x + 1]);
    assert(batch_meta(seqs, n)[4 * x + 1] == own[4 * j + 1]);
    assert(meta[4 * x + 2] == batch_meta(seqs, n)[4 * x + 2]);
    assert(batch_meta(seqs, n)[4 * x + 2] == own[4 * j + 2]);
    assert(meta[4 * x + 3] == batch_meta(seqs, n)[4 * x + 3]);
    assert(batch_meta(seqs, n)[4 * x + 3] == own[4 * j + 3]);
}

/// Markers pass exactly where each of them is on a token of its sequence.
pub proof fn markers_pass_exactly_when_within(s: Sequence, si: nat, n: nat)
    requires
        n <= s.markers@.len(),
    ensures
        marker_fault(s, si, n) is None <==> forall|i: int|
            0 <= i < n ==> (#[trigger] s.markers@[i]) < s.ids@.len(),
    decreases n,
{
    if n > 0 {
        markers_pass_exactly_when_within(s, si, (n - 1) as nat);
        if forall|i: int| 0 <= i < n ==> (#[trigger] s.markers@[i]) < s.ids@.len() {
            assert(s.markers@[n - 1] < s.ids@.len());
        }
    }
}

/// The encoder can run over the sequence: it has tokens, no more than the
/// model reads, all of the vocabulary, one of the three question types, and
/// markers on its own tokens.
pub open spec fn runnable(s: Sequence, max_len: nat, vocab: nat) -> bool {
    &&& 0 < s.ids@.len() <= max_len
    &&& s.qtype < 3
    &&& forall|i: int| 0 <= i < s.ids@.len() ==> (#[trigger] s.ids@[i]) < vocab
    &&& forall|i: int| 0 <= i < s.markers@.len() ==> (#[trigger] s.markers@[i]) < s.ids@.len()
}

/// Sequences are taken exactly where the encoder can run over each of them.
pub proof fn sequences_are_taken_exactly_when_runnable(
    seqs: Seq<Sequence>,
    max_len: nat,
    vocab: nat,
    n: nat,
)
    requires
        n <= seqs.len(),
    ensures
        sequences_fault(seqs, max_len, vocab, n) is None <==> forall|k: int|
            0 <= k < n ==> runnable(#[trigger] seqs[k], max_len, vocab),
    decreases n,
{
    if n > 0 {
        sequences_are_taken_exactly_when_runnable(seqs, max_len, vocab, (n - 1) as nat);
        let s = seqs[n - 1];
        tokens_pass_exactly_when_known(s.ids@, vocab, s.ids@.len());
        markers_pass_exactly_when_within(s, (n - 1) as nat, s.markers@.len());
        assert(sequence_fault(s, (n - 1) as nat, max_len, vocab) is None <==> runnable(
            s,
            max_len,
            vocab,
        ));
    }
}

} // verus!

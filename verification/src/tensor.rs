//! Host-side tensors: half-precision and block-quantized storage, the
//! safetensors reader and the manifest of an exported directory.

use vstd::prelude::*;
use vstd::string::StringExecFns;

use crate::error::LoadError;
use crate::json::{at, has_field, parsed, read_json, unread, views, Json, JsonView};
use crate::model::size_or_zero;
use crate::text::{concat2, concat3, decimal, list_text, push_decimal, push_list, same};

verus! {

/// Storage type of a host tensor. Quantized types use 32-element blocks along
/// the last dimension with one half-precision scale per block. Q8: 32 signed
/// bytes, value `q * scale`. Q4: 16 bytes, low nibbles = elements 0..16, high
/// nibbles = elements 16..32, value `(q - 8) * scale`.
#[derive(Debug, Clone, Copy, PartialEq, Eq, Structural)]
pub enum Dtype {
    F16,
    Q8,
    Q4,
}

pub const BLOCK: usize = 32;

/// The storage type a name stands for.
pub open spec fn dtype_of(s: Seq<char>) -> Option<Dtype> {
    if s == "f16"@ || s == "F16"@ {
        Some(Dtype::F16)
    } else if s == "q8"@ || s == "q8_0"@ || s == "Q8_0"@ {
        Some(Dtype::Q8)
    } else if s == "q4"@ || s == "q4_0"@ || s == "Q4_0"@ {
        Some(Dtype::Q4)
    } else {
        None
    }
}

/// Payload bytes for `n` elements.
pub open spec fn payload(t: Dtype, n: nat) -> nat {
    match t {
        Dtype::F16 => n * 2,
        Dtype::Q8 => n,
        Dtype::Q4 => n / 2,
    }
}

/// Scale bytes for `n` elements: one half-precision scale per block.
pub open spec fn scale_bytes(t: Dtype, n: nat) -> nat {
    match t {
        Dtype::F16 => 0,
        _ => n / 32 * 2,
    }
}

/// The name of a storage type in messages.
pub open spec fn dtype_name(t: Dtype) -> Seq<char> {
    match t {
        Dtype::F16 => "F16"@,
        Dtype::Q8 => "Q8"@,
        Dtype::Q4 => "Q4"@,
    }
}

impl Dtype {
    pub fn parse(s: &str) -> (r: Result<Dtype, LoadError>)
        ensures
            match r {
                Ok(t) => dtype_of(s@) == Some(t),
                Err(e) => dtype_of(s@) is None && e@ == "unsupported dtype "@ + s@,
            },
    {
        if same(s, "f16") || same(s, "F16") {
            Ok(Dtype::F16)
        } else if same(s, "q8") || same(s, "q8_0") || same(s, "Q8_0") {
            Ok(Dtype::Q8)
        } else if same(s, "q4") || same(s, "q4_0") || same(s, "Q4_0") {
            Ok(Dtype::Q4)
        } else {
            Err(LoadError::new(concat2("unsupported dtype ", s)))
        }
    }

    /// Shader constant selecting the weight decoder.
    pub fn code(self) -> (r: u32)
        ensures
            r == (match self {
                Dtype::F16 => 0u32,
                Dtype::Q8 => 1u32,
                Dtype::Q4 => 2u32,
            }),
    {
        match self {
            Dtype::F16 => 0,
            Dtype::Q8 => 1,
            Dtype::Q4 => 2,
        }
    }

    /// Payload bytes for `n` elements (a whole number of blocks).
    pub fn payload_bytes(self, n: usize) -> (r: usize)
        requires
            self == Dtype::F16 ==> 2 * n <= usize::MAX,
        ensures
            r == payload(self, n as nat),
    {
        match self {
            Dtype::F16 => n * 2,
            Dtype::Q8 => n,
            Dtype::Q4 => n / 2,
        }
    }

    fn name(self) -> (r: &'static str)
        ensures
            r@ == dtype_name(self),
    {
        match self {
            Dtype::F16 => "F16",
            Dtype::Q8 => "Q8",
            Dtype::Q4 => "Q4",
        }
    }
}

/// The product of a shape: how many elements a tensor holds.
pub open spec fn product(shape: Seq<usize>) -> nat
    decreases shape.len(),
{
    if shape.len() == 0 {
        1
    } else {
        product(shape.drop_last()) * shape.last() as nat
    }
}

proof fn product_zero(shape: Seq<usize>, i: int)
    requires
        0 <= i < shape.len(),
        shape[i] == 0,
    ensures
        product(shape) == 0,
    decreases shape.len(),
{
    if i < shape.len() - 1 {
        product_zero(shape.drop_last(), i);
        assert(product(shape.drop_last()) == 0);
        let l = shape.last() as nat;
        assert(0 * l == 0) by (nonlinear_arith);
    } else {
        let p = product(shape.drop_last());
        assert(p * 0 == 0) by (nonlinear_arith);
    }
}

proof fn product_grows(shape: Seq<usize>, n: int)
    requires
        0 <= n <= shape.len(),
        forall|i: int| 0 <= i < shape.len() ==> (#[trigger] shape[i]) > 0,
    ensures
        0 < product(shape.take(n)) <= product(shape),
    decreases shape.len(),
{
    if n == shape.len() {
        assert(shape.take(n) =~= shape);
        if n > 0 {
            product_grows(shape.drop_last(), n - 1);
            assert(shape.drop_last().take(n - 1) =~= shape.drop_last());
            let p = product(shape.drop_last());
            let l = shape.last() as nat;
            assert(shape[n - 1] > 0);
            assert(p * l > 0) by (nonlinear_arith)
                requires
                    p > 0,
                    l > 0,
            ;
        }
    } else {
        product_grows(shape.drop_last(), n);
        assert(shape.drop_last().take(n) =~= shape.take(n));
        let p = product(shape.drop_last());
        let l = shape.last() as nat;
        assert(shape[shape.len() - 1] > 0);
        assert(p * l >= p) by (nonlinear_arith)
            requires
                p > 0,
                l > 0,
        ;
    }
}

/// How many elements a shape holds, if that is a size.
pub fn elements(shape: &Vec<usize>) -> (r: Option<usize>)
    ensures
        match r {
            Some(n) => n == product(shape@),
            None => product(shape@) > usize::MAX,
        },
{
    let mut i: usize = 0;
    while i < shape.len()
        invariant
            0 <= i <= shape@.len(),
            forall|j: int| 0 <= j < i ==> (#[trigger] shape@[j]) > 0,
        decreases shape@.len() - i,
    {
        if shape[i] == 0 {
            proof {
                product_zero(shape@, i as int);
            }
            return Some(0);
        }
        i += 1;
    }
    let mut n: usize = 1;
    let mut i: usize = 0;
    while i < shape.len()
        invariant
            0 <= i <= shape@.len(),
            forall|j: int| 0 <= j < shape@.len() ==> (#[trigger] shape@[j]) > 0,
            n == product(shape@.take(i as int)),
        decreases shape@.len() - i,
    {
        proof {
            assert(shape@.take(i as int + 1).drop_last() =~= shape@.take(i as int));
            assert(shape@.take(i as int + 1).last() == shape@[i as int]);
            product_grows(shape@, i as int + 1);
        }
        match n.checked_mul(shape[i]) {
            Some(m) => {
                n = m;
            },
            None => {
                return None;
            },
        }
        i += 1;
    }
    assert(shape@.take(i as int) =~= shape@);
    Some(n)
}

/// A tensor as uploaded: raw little-endian bytes, plus half-precision block
/// scales for the quantized types.
#[derive(Debug)]
pub struct QTensor {
    pub dtype: Dtype,
    pub shape: Vec<usize>,
    pub data: Vec<u8>,
    pub scales: Vec<u8>,
}

/// The little-endian bytes of half-precision bit patterns.
pub open spec fn half_bytes(v: Seq<u16>) -> Seq<u8> {
    Seq::new(
        2 * v.len(),
        |i: int|
            if i % 2 == 0 {
                (v[i / 2] % 256) as u8
            } else {
                (v[i / 2] / 256) as u8
            },
    )
}

/// The message of a payload or scale list of the wrong length.
pub open spec fn bytes_message(
    t: Dtype,
    shape: Seq<usize>,
    got: nat,
    what: Seq<char>,
    want: nat,
) -> Seq<char> {
    dtype_name(t) + " tensor "@ + list_text(shape) + ": "@ + decimal(got) + " "@ + what
        + " bytes, expected "@ + decimal(want)
}

/// Why bytes are not a tensor of this type and shape, if they are not.
pub open spec fn raw_fault(t: Dtype, shape: Seq<usize>, data: nat, scales: nat) -> Option<
    Seq<char>,
> {
    let n = product(shape);
    if data != payload(t, n) {
        Some(bytes_message(t, shape, data, "payload"@, payload(t, n)))
    } else if scales != scale_bytes(t, n) {
        Some(bytes_message(t, shape, scales, "scale"@, scale_bytes(t, n)))
    } else {
        None
    }
}

fn bytes_text(t: Dtype, shape: &Vec<usize>, got: usize, what: &str, want: usize) -> (r: String)
    ensures
        r@ == bytes_message(t, shape@, got as nat, what@, want as nat),
{
    let mut m: String = t.name().to_owned();
    m.append(" tensor ");
    push_list(&mut m, shape);
    m.append(": ");
    push_decimal(&mut m, got as u64);
    m.append(" ");
    m.append(what);
    m.append(" bytes, expected ");
    push_decimal(&mut m, want as u64);
    m
}

impl QTensor {
    /// A tensor whose bytes are as many as its type and shape ask for.
    pub open spec fn well_formed(self) -> bool {
        raw_fault(self.dtype, self.shape@, self.data@.len(), self.scales@.len()) is None
    }

    /// How many elements the tensor holds.
    pub fn numel(&self) -> (r: usize)
        requires
            product(self.shape@) <= usize::MAX,
        ensures
            r == product(self.shape@),
    {
        match elements(&self.shape) {
            Some(n) => n,
            None => 0,
        }
    }

    /// A half-precision tensor of the given bit patterns.
    pub fn from_f16(shape: Vec<usize>, values: &Vec<u16>) -> (r: QTensor)
        ensures
            r.dtype == Dtype::F16,
            r.shape == shape,
            r.data@ == half_bytes(values@),
            r.scales@ == Seq::<u8>::empty(),
    {
        let mut data: Vec<u8> = Vec::new();
        let mut i: usize = 0;
        while i < values.len()
            invariant
                0 <= i <= values@.len(),
                data@ == half_bytes(values@.take(i as int)),
            decreases values@.len() - i,
        {
            let v: u16 = values[i];
            data.push((v % 256) as u8);
            data.push((v / 256) as u8);
            i += 1;
            assert(data@ =~= half_bytes(values@.take(i as int)));
        }
        assert(values@.take(i as int) =~= values@);
        QTensor { dtype: Dtype::F16, shape, data, scales: Vec::new() }
    }

    /// Wraps already-encoded bytes (an exported file).
    pub fn from_raw(dtype: Dtype, shape: Vec<usize>, data: Vec<u8>, scales: Vec<u8>) -> (r: Result<
        QTensor,
        LoadError,
    >)
        requires
            product(shape@) <= usize::MAX,
            dtype == Dtype::F16 ==> 2 * product(shape@) <= usize::MAX,
        ensures
            match r {
                Ok(t) => raw_fault(dtype, shape@, data@.len(), scales@.len()) is None && t
                    == (QTensor { dtype, shape, data, scales }),
                Err(e) => raw_fault(dtype, shape@, data@.len(), scales@.len()) == Some(e@),
            },
    {
        let n: usize = match elements(&shape) {
            Some(n) => n,
            None => 0,
        };
        let want: usize = dtype.payload_bytes(n);
        if data.len() != want {
            return Err(
                LoadError::new(bytes_text(dtype, &shape, data.len(), "payload", want)),
            );
        }
        let want_scales: usize = match dtype {
            Dtype::F16 => 0,
            _ => n / BLOCK * 2,
        };
        if scales.len() != want_scales {
            return Err(
                LoadError::new(bytes_text(dtype, &shape, scales.len(), "scale", want_scales)),
            );
        }
        Ok(QTensor { dtype, shape, data, scales })
    }
}

/// What a tensor holds at a place: a half-precision number, or a whole number
/// and the half-precision scale it is multiplied by, as bit patterns.
#[derive(Debug, Clone, Copy, PartialEq, Eq, Structural)]
pub enum Element {
    Half(u16),
    Scaled(i8, u16),
}

/// A byte as a signed number.
pub open spec fn signed(b: u8) -> int {
    if b < 128 {
        b as int
    } else {
        b - 256
    }
}

/// The half-precision number of two bytes, as its bit pattern.
pub open spec fn half_at(bytes: Seq<u8>, k: int) -> u16 {
    (bytes[2 * k] + 256 * bytes[2 * k + 1]) as u16
}

fn read_half(bytes: &Vec<u8>, k: usize) -> (r: u16)
    requires
        2 * k + 1 < bytes.len(),
    ensures
        r == half_at(bytes@, k as int),
{
    bytes[2 * k] as u16 + 256 * bytes[2 * k + 1] as u16
}

/// One of the two numbers of a byte: the lower four bits, or the upper.
pub open spec fn nibble(b: u8, upper: bool) -> int {
    if upper {
        b as int / 16
    } else {
        b as int % 16
    }
}

impl QTensor {
    /// The tensor holds an element at the place: one of its shape, and of a
    /// whole block where elements share a scale.
    pub open spec fn holds(self, i: nat) -> bool {
        &&& i < product(self.shape@)
        &&& self.dtype != Dtype::F16 ==> i / 32 < product(self.shape@) / 32
    }

    /// What the tensor holds at a place. Blocks of 32 share a scale; with four
    /// bits each, the first half of a block has the lower ones of its bytes and
    /// the second half the upper, eight more than the number.
    pub open spec fn element(self, i: nat) -> Element {
        let b = i as int / 32;
        let j = i as int % 32;
        match self.dtype {
            Dtype::F16 => Element::Half(half_at(self.data@, i as int)),
            Dtype::Q8 => Element::Scaled(
                signed(self.data@[i as int]) as i8,
                half_at(self.scales@, b),
            ),
            Dtype::Q4 => Element::Scaled(
                (nibble(self.data@[b * 16 + j % 16], j >= 16) - 8) as i8,
                half_at(self.scales@, b),
            ),
        }
    }

    /// What the tensor holds at a place.
    pub fn get(&self, i: usize) -> (r: Element)
        requires
            self.well_formed(),
            self.holds(i as nat),
        ensures
            r == self.element(i as nat),
    {
        let b: usize = i / BLOCK;
        let j: usize = i % BLOCK;
        match self.dtype {
            Dtype::F16 => Element::Half(read_half(&self.data, i)),
            Dtype::Q8 => {
                let v: u8 = self.data[i];
                let code: i8 = if v < 128 {
                    v as i8
                } else {
                    -((255 - v) as i8) - 1
                };
                Element::Scaled(code, read_half(&self.scales, b))
            },
            Dtype::Q4 => {
                let v: u8 = self.data[b * 16 + j % 16];
                let q: u8 = if j >= 16 {
                    v / 16
                } else {
                    v % 16
                };
                Element::Scaled(q as i8 - 8, read_half(&self.scales, b))
            },
        }
    }
}

/// A signed number as a byte.
pub open spec fn unsigned(code: i8) -> u8 {
    (if code < 0 {
        code + 256
    } else {
        code as int
    }) as u8
}

/// Two numbers of four bits, eight more than each, as a byte.
pub open spec fn byte_of_two(lower: i8, upper: i8) -> u8 {
    (lower + 8 + 16 * (upper + 8)) as u8
}

/// The payload of numbers in whole blocks.
pub open spec fn packed(t: Dtype, codes: Seq<i8>) -> Seq<u8> {
    match t {
        Dtype::Q4 => Seq::new(
            codes.len() / 2,
            |k: int|
                byte_of_two(codes[k / 16 * 32 + k % 16], codes[k / 16 * 32 + 16 + k % 16]),
        ),
        _ => Seq::new(codes.len(), |k: int| unsigned(codes[k])),
    }
}

/// The numbers can be stored: one scale to a block, and no number beyond four
/// bits where there are four.
pub open spec fn storable(t: Dtype, codes: Seq<i8>, scales: Seq<u16>) -> bool {
    &&& t != Dtype::F16
    &&& codes.len() / 32 == scales.len()
    &&& t == Dtype::Q4 ==> forall|i: int|
        0 <= i < codes.len() ==> -8 <= #[trigger] codes[i] && codes[i] < 8
}

/// The message of numbers that make no whole blocks.
pub open spec fn blocks_message(t: Dtype, n: nat) -> Seq<char> {
    (if t == Dtype::Q8 {
        "q8: "@
    } else {
        "q4: "@
    }) + decimal(n) + " values is not a multiple of "@ + decimal(32)
}

impl QTensor {
    /// A tensor of numbers in blocks of 32, each block with its scale.
    pub fn from_codes(dtype: Dtype, shape: Vec<usize>, codes: &Vec<i8>, scales: &Vec<u16>) -> (r:
        Result<QTensor, LoadError>)
        requires
            storable(dtype, codes@, scales@),
        ensures
            match r {
                Ok(t) => {
                    &&& codes@.len() % 32 == 0
                    &&& t.dtype == dtype
                    &&& t.shape == shape
                    &&& t.data@ == packed(dtype, codes@)
                    &&& t.scales@ == half_bytes(scales@)
                },
                Err(e) => codes@.len() % 32 != 0 && e@ == blocks_message(dtype, codes@.len()),
            },
    {
        if codes.len() % BLOCK != 0 {
            let mut m: String = match dtype {
                Dtype::Q8 => "q8: ".to_owned(),
                _ => "q4: ".to_owned(),
            };
            push_decimal(&mut m, codes.len() as u64);
            m.append(" values is not a multiple of ");
            push_decimal(&mut m, BLOCK as u64);
            return Err(LoadError::new(m));
        }
        let four: bool = match dtype {
            Dtype::Q4 => true,
            _ => false,
        };
        let total: usize = if four {
            codes.len() / 2
        } else {
            codes.len()
        };
        let ghost want = packed(dtype, codes@);
        let mut data: Vec<u8> = Vec::new();
        let mut k: usize = 0;
        while k < total
            invariant
                0 <= k <= total,
                codes@.len() % 32 == 0,
                four == (dtype == Dtype::Q4),
                total == (if four {
                    codes@.len() / 2
                } else {
                    codes@.len()
                }),
                storable(dtype, codes@, scales@),
                want == packed(dtype, codes@),
                data@ == want.take(k as int),
            decreases total - k,
        {
            let b: u8 = if four {
                assert(k as int / 16 * 32 + 32 <= codes.len());
                let at: usize = k / 16 * 32 + k % 16;
                let (lower, upper): (i8, i8) = (codes[at], codes[at + 16]);
                assert(-8 <= codes@[at as int] < 8 && -8 <= codes@[at + 16] < 8);
                (lower + 8) as u8 + 16 * (upper + 8) as u8
            } else {
                let c: i8 = codes[k];
                if c < 0 {
                    255 - (-(c + 1)) as u8
                } else {
                    c as u8
                }
            };
            assert(b == want[k as int]);
            data.push(b);
            k += 1;
            assert(data@ =~= want.take(k as int));
        }
        assert(want.take(k as int) =~= want);
        let stored = QTensor::from_f16(Vec::new(), scales);
        Ok(QTensor { dtype, shape, data, scales: stored.data })
    }
}

/// What a half-precision tensor holds at a place is the number it was given
/// there.
pub proof fn halves_come_back(t: QTensor, values: Seq<u16>, i: nat)
    requires
        t.dtype == Dtype::F16,
        t.data@ == half_bytes(values),
        i < values.len(),
    ensures
        t.element(i) == Element::Half(values[i as int]),
{
    let k = i as int;
    assert((2 * k) % 2 == 0 && (2 * k) / 2 == k);
    assert((2 * k + 1) % 2 == 1 && (2 * k + 1) / 2 == k);
}

/// What a tensor of numbers holds at a place is the number it was given there,
/// with the scale of its block.
pub proof fn codes_come_back(t: QTensor, codes: Seq<i8>, scales: Seq<u16>, i: nat)
    requires
        storable(t.dtype, codes, scales),
        codes.len() % 32 == 0,
        t.data@ == packed(t.dtype, codes),
        t.scales@ == half_bytes(scales),
        i < codes.len(),
    ensures
        t.element(i) == Element::Scaled(codes[i as int], scales[i as int / 32]),
{
    let b = i as int / 32;
    let j = i as int % 32;
    assert((2 * b) % 2 == 0 && (2 * b) / 2 == b);
    assert((2 * b + 1) % 2 == 1 && (2 * b + 1) / 2 == b);
    assert(half_at(t.scales@, b) == scales[b]);
    if t.dtype == Dtype::Q4 {
        let k = b * 16 + j % 16;
        assert(k / 16 == b && k % 16 == j % 16);
        let (lower, upper) = (codes[b * 32 + j % 16], codes[b * 32 + 16 + j % 16]);
        assert(-8 <= lower < 8 && -8 <= upper < 8);
        assert(t.data@[k] == byte_of_two(lower, upper));
        assert(byte_of_two(lower, upper) as int == lower + 8 + 16 * (upper + 8));
    }
}

/// A half-precision tensor, packed row-major, as bit patterns.
#[derive(Debug)]
pub struct Tensor16 {
    pub shape: Vec<usize>,
    pub data: Vec<u16>,
}

/// A little-endian number.
pub open spec fn le(s: Seq<u8>) -> nat
    decreases s.len(),
{
    if s.len() == 0 {
        0
    } else {
        s[0] as nat + 256 * le(s.drop_first())
    }
}

/// 256 to the power `k`.
spec fn pow256(k: nat) -> nat
    decreases k,
{
    if k == 0 {
        1
    } else {
        256 * pow256((k - 1) as nat)
    }
}

/// The little-endian number in the `n` bytes at `at`.
pub fn read_le(bytes: &[u8], at: usize, n: usize) -> (r: u64)
    requires
        n <= 8,
        at + n <= bytes@.len(),
    ensures
        r == le(bytes@.subrange(at as int, at + n)),
        n == 2 ==> r < 0x1_0000,
        n == 4 ==> r < 0x1_0000_0000,
{
    let len: usize = bytes.len();
    let mut acc: u64 = 0;
    let mut i: usize = n;
    proof {
        reveal_with_fuel(pow256, 9);
        assert(pow256(2) == 0x1_0000);
        assert(pow256(4) == 0x1_0000_0000);
        assert(pow256(8) == 0x1_0000_0000_0000_0000);
        assert(bytes@.subrange(at + i, at + n) =~= Seq::<u8>::empty());
    }
    while i > 0
        invariant
            i <= n <= 8,
            at + n <= len,
            len == bytes@.len(),
            acc == le(bytes@.subrange(at + i, at + n)),
            acc < pow256((n - i) as nat),
            pow256(8) == 0x1_0000_0000_0000_0000,
        decreases i,
    {
        i -= 1;
        proof {
            let s = bytes@.subrange(at + i, at + n);
            assert(s.drop_first() =~= bytes@.subrange(at + i + 1, at + n));
            pow256_grows((n - i) as nat, 8);
        }
        let b: u8 = bytes[at + i];
        acc = b as u64 + 256 * acc;
    }
    acc
}

proof fn pow256_grows(a: nat, b: nat)
    requires
        a <= b,
    ensures
        pow256(a) <= pow256(b),
    decreases b - a,
{
    if a < b {
        pow256_grows(a + 1, b);
    }
}

/// Numbers as a file holds them, as bit patterns: half precision, or single
/// precision still to be narrowed.
#[derive(Debug)]
pub enum Values {
    Half(Vec<u16>),
    Single(Vec<u32>),
}

/// Numbers as a file holds them.
pub enum ValuesView {
    Half(Seq<u16>),
    Single(Seq<u32>),
}

impl View for Values {
    type V = ValuesView;

    open spec fn view(&self) -> ValuesView {
        match self {
            Values::Half(v) => ValuesView::Half(v@),
            Values::Single(v) => ValuesView::Single(v@),
        }
    }
}

/// How many numbers there are.
pub open spec fn count_of(v: ValuesView) -> nat {
    match v {
        ValuesView::Half(s) => s.len(),
        ValuesView::Single(s) => s.len(),
    }
}

/// A tensor out of a file, row-major: its numbers in one or more runs.
#[derive(Debug)]
pub struct RawTensor {
    pub shape: Vec<usize>,
    pub runs: Vec<Values>,
}

/// A tensor out of a file with its lists as sequences.
#[verifier::ext_equal]
pub struct RawView {
    pub shape: Seq<usize>,
    pub runs: Seq<ValuesView>,
}

/// The views of runs of numbers.
pub open spec fn run_views(v: Seq<Values>) -> Seq<ValuesView> {
    v.map_values(|x: Values| x@)
}

impl View for RawTensor {
    type V = RawView;

    open spec fn view(&self) -> RawView {
        RawView { shape: self.shape@, runs: run_views(self.runs@) }
    }
}

/// The bytes of element `i` when an element has `w` bytes.
pub open spec fn element(raw: Seq<u8>, w: nat, i: int) -> Seq<u8> {
    raw.subrange(i * w, i * w + w)
}

/// The numbers in `raw` under a type name: whole elements from the start,
/// half-precision numbers as they are, brain floats widened by sixteen zero
/// bits.
pub open spec fn decoded(dtype: Seq<char>, raw: Seq<u8>) -> Option<ValuesView> {
    if dtype == "F32"@ {
        Some(
            ValuesView::Single(
                Seq::new(raw.len() / 4, |i: int| le(element(raw, 4, i)) as u32),
            ),
        )
    } else if dtype == "F16"@ {
        Some(
            ValuesView::Half(Seq::new(raw.len() / 2, |i: int| le(element(raw, 2, i)) as u16)),
        )
    } else if dtype == "BF16"@ {
        Some(
            ValuesView::Single(
                Seq::new(raw.len() / 2, |i: int| (le(element(raw, 2, i)) * 0x1_0000) as u32),
            ),
        )
    } else {
        None
    }
}

/// Reads `raw` under a type name.
pub fn decode(dtype: &str, raw: &[u8]) -> (r: Option<Values>)
    ensures
        match r {
            Some(v) => decoded(dtype@, raw@) == Some(v@),
            None => decoded(dtype@, raw@) is None,
        },
{
    if same(dtype, "F32") {
        let len: usize = raw.len();
        let n: usize = len / 4;
        let mut out: Vec<u32> = Vec::new();
        let mut i: usize = 0;
        let ghost want = Seq::new(n as nat, |i: int| le(element(raw@, 4, i)) as u32);
        while i < n
            invariant
                0 <= i <= n,
                len == raw@.len(),
                n == len / 4,
                want == Seq::new(n as nat, |i: int| le(element(raw@, 4, i)) as u32),
                out@ == want.take(i as int),
            decreases n - i,
        {
            out.push(read_le(raw, i * 4, 4) as u32);
            i += 1;
            assert(out@ =~= want.take(i as int));
        }
        assert(out@ =~= want);
        Some(Values::Single(out))
    } else if same(dtype, "F16") {
        let len: usize = raw.len();
        let n: usize = len / 2;
        let mut out: Vec<u16> = Vec::new();
        let mut i: usize = 0;
        let ghost want = Seq::new(n as nat, |i: int| le(element(raw@, 2, i)) as u16);
        while i < n
            invariant
                0 <= i <= n,
                len == raw@.len(),
                n == len / 2,
                want == Seq::new(n as nat, |i: int| le(element(raw@, 2, i)) as u16),
                out@ == want.take(i as int),
            decreases n - i,
        {
            out.push(read_le(raw, i * 2, 2) as u16);
            i += 1;
            assert(out@ =~= want.take(i as int));
        }
        assert(out@ =~= want);
        Some(Values::Half(out))
    } else if same(dtype, "BF16") {
        let len: usize = raw.len();
        let n: usize = len / 2;
        let mut out: Vec<u32> = Vec::new();
        let mut i: usize = 0;
        let ghost want = Seq::new(
            n as nat,
            |i: int| (le(element(raw@, 2, i)) * 0x1_0000) as u32,
        );
        while i < n
            invariant
                0 <= i <= n,
                len == raw@.len(),
                n == len / 2,
                want == Seq::new(n as nat, |i: int| (le(element(raw@, 2, i)) * 0x1_0000) as u32),
                out@ == want.take(i as int),
            decreases n - i,
        {
            out.push(read_le(raw, i * 2, 2) as u32 * 0x1_0000);
            i += 1;
            assert(out@ =~= want.take(i as int));
        }
        assert(out@ =~= want);
        Some(Values::Single(out))
    } else {
        None
    }
}

/// A minimal safetensors reader: a header and the bytes behind it.
#[derive(Debug)]
pub struct SafeTensors<'a> {
    pub header: Json,
    pub data: &'a [u8],
}

/// Why bytes are no safetensors file, if they are not.
pub open spec fn safetensors_fault(bytes: Seq<u8>) -> Option<Seq<char>> {
    if bytes.len() < 8 {
        Some("safetensors: too short"@)
    } else {
        let n = le(bytes.take(8));
        if n > bytes.len() - 8 {
            Some("safetensors: header out of range"@)
        } else if parsed(bytes.subrange(8, 8 + n as int)) is None {
            Some(unread(bytes.subrange(8, 8 + n as int), "safetensors header"@))
        } else {
            None
        }
    }
}

/// The byte range of an entry.
pub open spec fn offsets_of(t: JsonView) -> Option<(usize, usize)> {
    match at(t, "data_offsets"@) {
        JsonView::Array(a) => if a.len() < 2 {
            None
        } else {
            Some((size_or_zero(a[0]), size_or_zero(a[1])))
        },
        _ => None,
    }
}

/// The shape of an entry.
pub open spec fn shape_of(t: JsonView) -> Option<Seq<usize>> {
    match at(t, "shape"@) {
        JsonView::Array(a) => Some(a.map_values(|x: JsonView| size_or_zero(x))),
        _ => None,
    }
}

/// The type name of an entry.
pub open spec fn dtype_text(t: JsonView) -> Seq<char> {
    match at(t, "dtype"@) {
        JsonView::Str(s) => s,
        _ => Seq::empty(),
    }
}

/// Why a tensor cannot be read, if it cannot.
pub open spec fn tensor_fault(header: JsonView, data: Seq<u8>, name: Seq<char>) -> Option<
    Seq<char>,
> {
    let t = at(header, name);
    if !has_field(header, name) {
        Some("safetensors: missing "@ + name)
    } else if shape_of(t) is None {
        Some(name + ": shape"@)
    } else if offsets_of(t) is None {
        Some(name + ": data_offsets"@)
    } else {
        let (a, b) = offsets_of(t)->0;
        if a > b || b > data.len() {
            Some(name + ": offsets out of range"@)
        } else {
            match decoded(dtype_text(t), data.subrange(a as int, b as int)) {
                None => Some(name + ": unsupported dtype "@ + dtype_text(t)),
                Some(v) => if count_of(v) != product(shape_of(t)->0) {
                    Some(
                        name + ": "@ + decimal(count_of(v)) + " values for shape "@ + list_text(
                            shape_of(t)->0,
                        ),
                    )
                } else {
                    None
                },
            }
        }
    }
}

/// The tensor an entry describes.
pub open spec fn tensor_at(header: JsonView, data: Seq<u8>, name: Seq<char>) -> RawView {
    let t = at(header, name);
    let (a, b) = offsets_of(t)->0;
    RawView {
        shape: shape_of(t)->0,
        runs: seq![decoded(dtype_text(t), data.subrange(a as int, b as int))->0],
    }
}

pub(crate) fn sizes(a: &Vec<Json>) -> (r: Vec<usize>)
    ensures
        r@ == views(a@).map_values(|x: JsonView| size_or_zero(x)),
{
    let mut out: Vec<usize> = Vec::new();
    let mut i: usize = 0;
    while i < a.len()
        invariant
            0 <= i <= a@.len(),
            out@.len() == i,
            forall|j: int| 0 <= j < i ==> #[trigger] out@[j] == size_or_zero(a@[j]@),
        decreases a@.len() - i,
    {
        out.push(
            match &a[i] {
                Json::Uint(n) => *n as usize,
                _ => 0,
            },
        );
        i += 1;
    }
    assert(out@ =~= views(a@).map_values(|x: JsonView| size_or_zero(x)));
    out
}

impl<'a> SafeTensors<'a> {
    /// Splits a safetensors file into its header and its data.
    pub fn parse(bytes: &'a [u8]) -> (r: Result<SafeTensors<'a>, LoadError>)
        ensures
            match r {
                Ok(st) => safetensors_fault(bytes@) is None && ({
                    let n = le(bytes@.take(8)) as int;
                    &&& parsed(bytes@.subrange(8, 8 + n)) == Some(st.header@)
                    &&& st.data@ == bytes@.skip(8 + n)
                }),
                Err(e) => safetensors_fault(bytes@) == Some(e@),
            },
    {
        if bytes.len() < 8 {
            return Err(LoadError::of("safetensors: too short"));
        }
        assert(bytes@.subrange(0, 8) =~= bytes@.take(8));
        let n: u64 = read_le(bytes, 0, 8);
        if n > (bytes.len() - 8) as u64 {
            return Err(LoadError::of("safetensors: header out of range"));
        }
        let end: usize = 8 + n as usize;
        match read_json(vstd::slice::slice_subrange(bytes, 8, end), "safetensors header") {
            Err(e) => Err(e),
            Ok(header) => {
                let data = vstd::slice::slice_subrange(bytes, end, bytes.len());
                assert(data@ =~= bytes@.skip(end as int));
                Ok(SafeTensors { header, data })
            },
        }
    }

    /// Whether the header lists a tensor.
    pub fn lists(&self, name: &str) -> (r: bool)
        ensures
            r == has_field(self.header@, name@),
    {
        self.header.get(name).is_some()
    }

    /// The tensor under `name`.
    pub fn tensor(&self, name: &str) -> (r: Result<RawTensor, LoadError>)
        ensures
            match r {
                Ok(t) => tensor_fault(self.header@, self.data@, name@) is None && t@ == tensor_at(
                    self.header@,
                    self.data@,
                    name@,
                ),
                Err(e) => tensor_fault(self.header@, self.data@, name@) == Some(e@),
            },
    {
        let t = match self.header.get(name) {
            Some(t) => t,
            None => {
                return Err(LoadError::new(concat2("safetensors: missing ", name)));
            },
        };
        let shape = match t.list_at("shape") {
            Some(a) => sizes(a),
            None => {
                return Err(LoadError::new(concat2(name, ": shape")));
            },
        };
        let off = match t.list_at("data_offsets") {
            Some(a) => sizes(a),
            None => {
                return Err(LoadError::new(concat2(name, ": data_offsets")));
            },
        };
        if off.len() < 2 {
            return Err(LoadError::new(concat2(name, ": data_offsets")));
        }
        let a: usize = off[0];
        let b: usize = off[1];
        if a > b || b > self.data.len() {
            return Err(LoadError::new(concat2(name, ": offsets out of range")));
        }
        let raw = vstd::slice::slice_subrange(self.data, a, b);
        let dtype: String = match t.text_at("dtype") {
            Some(s) => s.clone(),
            None => String::new(),
        };
        let values = match decode(dtype.as_str(), raw) {
            Some(v) => v,
            None => {
                return Err(
                    LoadError::new(concat3(name, ": unsupported dtype ", dtype.as_str())),
                );
            },
        };
        let n: usize = match &values {
            Values::Half(v) => v.len(),
            Values::Single(v) => v.len(),
        };
        let fits = match elements(&shape) {
            Some(k) => k == n,
            None => false,
        };
        if !fits {
            let mut m: String = concat2(name, ": ");
            push_decimal(&mut m, n as u64);
            m.append(" values for shape ");
            push_list(&mut m, &shape);
            return Err(LoadError::new(m));
        }
        let mut runs: Vec<Values> = Vec::new();
        runs.push(values);
        let out = RawTensor { shape, runs };
        assert(out@ =~= tensor_at(self.header@, self.data@, name@));
        Ok(out)
    }
}

/// Reading back the bytes of half-precision numbers gives the numbers.
pub proof fn halves_read_back(v: Seq<u16>)
    ensures
        decoded("F16"@, half_bytes(v)) == Some(ValuesView::Half(v)),
{
    reveal_strlit("F32");
    reveal_strlit("F16");
    assert("F32"@[1] != "F16"@[1]);
    let raw = half_bytes(v);
    let got = Seq::new(raw.len() / 2, |i: int| le(element(raw, 2, i)) as u16);
    assert forall|i: int| 0 <= i < v.len() implies got[i] == v[i] by {
        let e = element(raw, 2, i);
        reveal_with_fuel(le, 3);
        assert(e[0] == raw[2 * i]);
        assert(e.drop_first()[0] == raw[2 * i + 1]);
        assert(e.drop_first().drop_first().len() == 0);
        assert((2 * i) % 2 == 0 && (2 * i) / 2 == i);
        assert((2 * i + 1) % 2 == 1 && (2 * i + 1) / 2 == i);
    }
    assert(got =~= v);
}

/// Tensors stacked row by row.
pub open spec fn stacked(parts: Seq<RawView>) -> RawView {
    RawView {
        shape: seq![row_sum(parts) as usize, parts[0].shape[1]],
        runs: all_runs(parts),
    }
}

/// The rows of matrices, summed.
pub open spec fn row_sum(parts: Seq<RawView>) -> nat
    decreases parts.len(),
{
    if parts.len() == 0 {
        0
    } else {
        row_sum(parts.drop_last()) + parts.last().shape[0] as nat
    }
}

/// The numbers of tensors, one after the other.
pub open spec fn all_runs(parts: Seq<RawView>) -> Seq<ValuesView>
    decreases parts.len(),
{
    if parts.len() == 0 {
        Seq::empty()
    } else {
        all_runs(parts.drop_last()) + parts.last().runs
    }
}

/// Matrices with the same number of columns, together no taller than a size.
pub open spec fn stackable(parts: Seq<RawView>) -> bool {
    &&& parts.len() > 0
    &&& forall|i: int| 0 <= i < parts.len() ==> (#[trigger] parts[i]).shape.len() == 2
    &&& forall|i: int|
        0 <= i < parts.len() ==> (#[trigger] parts[i]).shape[1] == parts[0].shape[1]
    &&& row_sum(parts) <= usize::MAX
}

/// The views of a list of tensors.
pub open spec fn raw_views(v: Seq<RawTensor>) -> Seq<RawView> {
    v.map_values(|t: RawTensor| t@)
}

/// Whether tensors stack.
pub fn can_stack(parts: &Vec<RawTensor>) -> (r: bool)
    ensures
        r == stackable(raw_views(parts@)),
{
    let ghost pv = raw_views(parts@);
    if parts.len() == 0 {
        return false;
    }
    let mut i: usize = 0;
    while i < parts.len()
        invariant
            0 <= i <= parts@.len(),
            pv == raw_views(parts@),
            forall|j: int| 0 <= j < i ==> (#[trigger] pv[j]).shape.len() == 2,
        decreases parts@.len() - i,
    {
        assert(pv[i as int] == parts@[i as int]@);
        if parts[i].shape.len() != 2 {
            return false;
        }
        i += 1;
    }
    let mut rows: usize = 0;
    let mut i: usize = 0;
    assert(pv.take(0) =~= Seq::<RawView>::empty());
    while i < parts.len()
        invariant
            0 <= i <= parts@.len(),
            parts@.len() > 0,
            pv == raw_views(parts@),
            forall|j: int| 0 <= j < pv.len() ==> (#[trigger] pv[j]).shape.len() == 2,
            forall|j: int| 0 <= j < i ==> (#[trigger] pv[j]).shape[1] == pv[0].shape[1],
            rows == row_sum(pv.take(i as int)),
        decreases parts@.len() - i,
    {
        proof {
            assert(pv[i as int] == parts@[i as int]@);
            assert(pv[0] == parts@[0]@);
            assert(pv.take(i as int + 1).drop_last() =~= pv.take(i as int));
            rows_grow(pv, i as int + 1);
        }
        if parts[i].shape[1] != parts[0].shape[1] {
            return false;
        }
        match rows.checked_add(parts[i].shape[0]) {
            Some(n) => {
                rows = n;
            },
            None => {
                return false;
            },
        }
        i += 1;
    }
    assert(pv.take(i as int) =~= pv);
    true
}

proof fn rows_grow(parts: Seq<RawView>, n: int)
    requires
        0 <= n <= parts.len(),
    ensures
        row_sum(parts.take(n)) <= row_sum(parts),
    decreases parts.len() - n,
{
    if n < parts.len() {
        rows_grow(parts, n + 1);
        assert(parts.take(n + 1).drop_last() =~= parts.take(n));
    } else {
        assert(parts.take(n) =~= parts);
    }
}

fn copy_values(v: &Values) -> (r: Values)
    ensures
        r@ == v@,
{
    match v {
        Values::Half(x) => Values::Half(x.clone()),
        Values::Single(x) => Values::Single(x.clone()),
    }
}

/// Stacks tensors row by row.
pub fn concat_rows(parts: &Vec<RawTensor>) -> (r: RawTensor)
    requires
        stackable(raw_views(parts@)),
    ensures
        r@ == stacked(raw_views(parts@)),
{
    let ghost pv = raw_views(parts@);
    let mut rows: usize = 0;
    let mut runs: Vec<Values> = Vec::new();
    let mut i: usize = 0;
    assert(pv.take(0) =~= Seq::<RawView>::empty());
    assert(run_views(runs@) =~= all_runs(pv.take(0)));
    assert(pv[0] == parts@[0]@);
    while i < parts.len()
        invariant
            0 <= i <= parts@.len(),
            pv == raw_views(parts@),
            stackable(pv),
            rows == row_sum(pv.take(i as int)),
            run_views(runs@) == all_runs(pv.take(i as int)),
        decreases parts@.len() - i,
    {
        proof {
            assert(pv[i as int] == parts@[i as int]@);
            assert(pv.take(i as int + 1).drop_last() =~= pv.take(i as int));
            rows_grow(pv, i as int + 1);
        }
        rows += parts[i].shape[0];
        let ghost before = run_views(runs@);
        let ghost more = run_views(parts@[i as int].runs@);
        let mut j: usize = 0;
        assert(run_views(runs@) =~= before + more.take(0));
        while j < parts[i as usize].runs.len()
            invariant
                i < parts@.len(),
                0 <= j <= parts@[i as int].runs@.len(),
                more == run_views(parts@[i as int].runs@),
                run_views(runs@) == before + more.take(j as int),
            decreases parts@[i as int].runs@.len() - j,
        {
            let ghost mid = run_views(runs@);
            let v = copy_values(&parts[i].runs[j]);
            runs.push(v);
            assert(run_views(runs@) =~= mid.push(v@));
            j += 1;
            assert(run_views(runs@) =~= before + more.take(j as int));
        }
        assert(more.take(j as int) =~= more);
        i += 1;
    }
    assert(pv.take(i as int) =~= pv);
    let cols: usize = parts[0].shape[1];
    let mut shape: Vec<usize> = Vec::new();
    shape.push(rows);
    shape.push(cols);
    let r = RawTensor { shape, runs };
    assert(r@ =~= stacked(pv));
    r
}

/// Manifest of an exported model directory: tensors grouped into files, each
/// entry an encoded [`QTensor`].
#[derive(Debug)]
pub struct Manifest {
    pub files: Vec<ManifestFile>,
    /// The per-layer token table, if the model has one (its own file).
    pub per_layer_table: Option<ManifestEntry>,
}

#[derive(Debug)]
pub struct ManifestFile {
    pub path: String,
    pub tensors: Vec<ManifestEntry>,
}

#[derive(Debug)]
pub struct ManifestEntry {
    pub name: String,
    pub dtype: String,
    pub shape: Vec<usize>,
    /// Byte range of the payload within the file.
    pub offset: usize,
    pub nbytes: usize,
    /// Byte range of the scales (quantized types).
    pub scales_offset: usize,
    pub scales_nbytes: usize,
    /// For the per-layer table: the file it lives in.
    pub path: Option<String>,
}

/// The message of a byte range that leaves the file.
pub open spec fn range_message(name: Seq<char>, off: nat, n: nat) -> Seq<char> {
    name + ": byte range "@ + decimal(off) + ".."@ + decimal(off + n) + " outside the file"@
}

/// Why an entry cannot be decoded out of a file of `len` bytes, if it cannot.
pub open spec fn entry_fault(e: ManifestEntry, len: nat) -> Option<Seq<char>> {
    match dtype_of(e.dtype@) {
        None => Some("unsupported dtype "@ + e.dtype@),
        Some(t) => if e.offset + e.nbytes > len {
            Some(range_message(e.name@, e.offset as nat, e.nbytes as nat))
        } else if e.scales_offset + e.scales_nbytes > len {
            Some(range_message(e.name@, e.scales_offset as nat, e.scales_nbytes as nat))
        } else {
            raw_fault(t, e.shape@, e.nbytes as nat, e.scales_nbytes as nat)
        },
    }
}

fn cut(file: &[u8], name: &str, off: usize, n: usize) -> (r: Result<Vec<u8>, LoadError>)
    requires
        off + n <= usize::MAX,
    ensures
        match r {
            Ok(v) => off + n <= file@.len() && v@ == file@.subrange(off as int, off + n),
            Err(e) => off + n > file@.len() && e@ == range_message(name@, off as nat, n as nat),
        },
{
    if off + n > file.len() {
        let mut m: String = concat2(name, ": byte range ");
        push_decimal(&mut m, off as u64);
        m.append("..");
        push_decimal(&mut m, (off + n) as u64);
        m.append(" outside the file");
        return Err(LoadError::new(m));
    }
    Ok(vstd::slice::slice_to_vec(vstd::slice::slice_subrange(file, off, off + n)))
}

impl ManifestEntry {
    /// Decodes this entry out of its file's bytes.
    pub fn tensor(&self, file: &[u8]) -> (r: Result<QTensor, LoadError>)
        requires
            self.offset + self.nbytes <= usize::MAX,
            self.scales_offset + self.scales_nbytes <= usize::MAX,
            dtype_of(self.dtype@) is Some ==> product(self.shape@) <= usize::MAX && payload(
                dtype_of(self.dtype@)->0,
                product(self.shape@),
            ) <= usize::MAX,
        ensures
            match r {
                Ok(t) => entry_fault(*self, file@.len()) is None && t.well_formed()
                    && dtype_of(self.dtype@) == Some(t.dtype) && t.shape@ == self.shape@ && t.data@
                    == file@.subrange(self.offset as int, self.offset + self.nbytes) && t.scales@
                    == file@.subrange(
                    self.scales_offset as int,
                    self.scales_offset + self.scales_nbytes,
                ),
                Err(e) => entry_fault(*self, file@.len()) == Some(e@),
            },
    {
        let dtype = match Dtype::parse(self.dtype.as_str()) {
            Ok(t) => t,
            Err(e) => {
                return Err(e);
            },
        };
        let shape: Vec<usize> = self.shape.clone();
        let data = match cut(file, self.name.as_str(), self.offset, self.nbytes) {
            Ok(v) => v,
            Err(e) => {
                return Err(e);
            },
        };
        let scales = match cut(file, self.name.as_str(), self.scales_offset, self.scales_nbytes) {
            Ok(v) => v,
            Err(e) => {
                return Err(e);
            },
        };
        QTensor::from_raw(dtype, shape, data, scales)
    }
}

/// Values are read from their own bytes, the lowest first: four to a single,
/// two to a half; of a brain float the two are the upper half of a single.
pub proof fn values_are_read_from_their_bytes(raw: Seq<u8>, i: int)
    requires
        0 <= i,
    ensures
        4 * i + 4 <= raw.len() ==> {
            let v = decoded("F32"@, raw)->0;
            &&& v is Single
            &&& v->Single_0.len() == raw.len() / 4
            &&& v->Single_0[i] == raw[4 * i] + 256 * raw[4 * i + 1] + 65536 * raw[4 * i + 2]
                + 16777216 * raw[4 * i + 3]
        },
        2 * i + 2 <= raw.len() ==> {
            let h = decoded("F16"@, raw)->0;
            let b = decoded("BF16"@, raw)->0;
            &&& h is Half
            &&& h->Half_0.len() == raw.len() / 2
            &&& h->Half_0[i] == raw[2 * i] + 256 * raw[2 * i + 1]
            &&& b is Single
            &&& b->Single_0.len() == raw.len() / 2
            &&& b->Single_0[i] == 65536 * raw[2 * i] + 16777216 * raw[2 * i + 1]
        },
{
    reveal_strlit("F32");
    reveal_strlit("F16");
    reveal_strlit("BF16");
    assert("F32"@[1] != "F16"@[1]);
    assert("BF16"@.len() == 4 && "F16"@.len() == 3 && "F32"@.len() == 3);
    reveal_with_fuel(le, 5);
    if 4 * i + 4 <= raw.len() {
        let e = element(raw, 4, i);
        assert(e =~= seq![raw[4 * i], raw[4 * i + 1], raw[4 * i + 2], raw[4 * i + 3]]);
        assert(e.drop_first() =~= seq![raw[4 * i + 1], raw[4 * i + 2], raw[4 * i + 3]]);
        assert(e.drop_first().drop_first() =~= seq![raw[4 * i + 2], raw[4 * i + 3]]);
        assert(e.drop_first().drop_first().drop_first() =~= seq![raw[4 * i + 3]]);
        assert(le(e) == raw[4 * i] + 256 * raw[4 * i + 1] + 65536 * raw[4 * i + 2] + 16777216
            * raw[4 * i + 3]);
    }
    if 2 * i + 2 <= raw.len() {
        let e = element(raw, 2, i);
        assert(e =~= seq![raw[2 * i], raw[2 * i + 1]]);
        assert(e.drop_first() =~= seq![raw[2 * i + 1]]);
        assert(le(e) == raw[2 * i] + 256 * raw[2 * i + 1]);
    }
}

/// A tensor of a file is what its header entry says: its shape, and the values
/// in its own byte range, as many as the shape has room for.
pub proof fn tensors_are_what_their_entry_says(
    header: JsonView,
    data: Seq<u8>,
    name: Seq<char>,
    a: u64,
    b: u64,
    dtype: Seq<char>,
)
    requires
        tensor_fault(header, data, name) is None,
        at(at(header, name), "data_offsets"@) is Array,
        at(at(header, name), "data_offsets"@)->Array_0[0] == JsonView::Uint(a),
        at(at(header, name), "data_offsets"@)->Array_0[1] == JsonView::Uint(b),
        at(at(header, name), "dtype"@) == JsonView::Str(dtype),
        b <= usize::MAX,
        a <= usize::MAX,
    ensures
        a <= b <= data.len(),
        tensor_at(header, data, name).runs.len() == 1,
        Some(tensor_at(header, data, name).runs[0]) == decoded(
            dtype,
            data.subrange(a as int, b as int),
        ),
        count_of(tensor_at(header, data, name).runs[0]) == product(
            tensor_at(header, data, name).shape,
        ),
        at(at(header, name), "shape"@) is Array,
        tensor_at(header, data, name).shape.len() == at(at(header, name), "shape"@)->Array_0.len(),
        forall|i: int|
            0 <= i < tensor_at(header, data, name).shape.len() && at(
                at(header, name),
                "shape"@,
            )->Array_0[i] is Uint && at(at(header, name), "shape"@)->Array_0[i]->Uint_0
                <= usize::MAX ==> #[trigger] tensor_at(header, data, name).shape[i] == at(
                at(header, name),
                "shape"@,
            )->Array_0[i]->Uint_0,
{
}

/// A value takes two bytes as a half, one as an eight-bit code and half a one as
/// a four-bit code; codes share one scale of two bytes in blocks of 32.
pub proof fn values_take_their_bytes(n: nat)
    ensures
        payload(Dtype::F16, n) == 2 * n,
        payload(Dtype::Q8, n) == n,
        n % 2 == 0 ==> 2 * payload(Dtype::Q4, n) == n,
        scale_bytes(Dtype::F16, n) == 0,
        n % 32 == 0 ==> 16 * scale_bytes(Dtype::Q8, n) == n,
        n % 32 == 0 ==> 16 * scale_bytes(Dtype::Q4, n) == n,
{
}

/// A tensor holds as many values as the product of its sizes.
pub proof fn sizes_multiply(shape: Seq<usize>, n: usize, m: usize)
    ensures
        product(Seq::empty()) == 1,
        product(seq![n]) == n,
        product(seq![n, m]) == n * m,
        product(shape.push(n)) == product(shape) * n,
{
    let one = seq![n];
    let two = seq![n, m];
    assert(one.drop_last() =~= Seq::<usize>::empty());
    assert(two.drop_last() =~= one);
    assert(product(one.drop_last()) == 1);
    assert(product(one) == product(one.drop_last()) * one.last() as nat);
    assert(product(one) == n) by (nonlinear_arith)
        requires
            product(one) == 1 * n as nat,
    ;
    assert(product(two) == product(two.drop_last()) * two.last() as nat);
    assert(shape.push(n).drop_last() =~= shape);
}

/// Stacking keeps the columns, adds up the rows, and keeps every part's values
/// in the order of the parts.
pub proof fn stacking_appends_rows(parts: Seq<RawView>, p: RawView)
    requires
        parts.len() > 0,
        stackable(parts.push(p)),
    ensures
        stacked(parts.push(p)).shape.len() == 2,
        stacked(parts.push(p)).shape[0] == stacked(parts).shape[0] + p.shape[0],
        stacked(parts.push(p)).shape[1] == p.shape[1],
        stacked(parts.push(p)).runs == stacked(parts).runs + p.runs,
        stacked(seq![p]).shape == p.shape,
        stacked(seq![p]).runs == p.runs,
{
    let all = parts.push(p);
    assert(all.drop_last() =~= parts);
    assert(all[0] == parts[0]);
    assert(all[all.len() - 1] == p);
    assert(row_sum(all) == row_sum(parts) + p.shape[0]);
    reveal_with_fuel(row_sum, 2);
    reveal_with_fuel(all_runs, 2);
    assert(seq![p].drop_last() =~= Seq::empty());
    assert(stacked(seq![p]).shape =~= p.shape);
    assert(stacked(seq![p]).runs =~= p.runs);
}

/// A storage type has the names that it goes by.
pub proof fn storage_types_go_by_their_names()
    ensures
        dtype_of("F16"@) == Some(Dtype::F16),
        dtype_of("Q8_0"@) == Some(Dtype::Q8),
        dtype_of("Q4_0"@) == Some(Dtype::Q4),
        dtype_of("f16"@) == Some(Dtype::F16),
        dtype_of("q8"@) == Some(Dtype::Q8),
        dtype_of("q4"@) == Some(Dtype::Q4),
{
    reveal_strlit("F16");
    reveal_strlit("f16");
    reveal_strlit("q8");
    reveal_strlit("q4");
    reveal_strlit("q8_0");
    reveal_strlit("q4_0");
    reveal_strlit("Q8_0");
    reveal_strlit("Q4_0");
    assert("q8"@.len() == 2 && "q4"@.len() == 2 && "F16"@.len() == 3 && "f16"@.len() == 3);
    assert("q8"@[1] != "q4"@[1]);
    assert("Q8_0"@[1] != "Q4_0"@[1] && "q8_0"@[0] != "Q8_0"@[0] && "q8_0"@[0] != "Q4_0"@[0]);
}

/// Four bit numbers share bytes across the halves of their block: byte `j` of
/// a block holds its number `j` in the lower half, and number `16 + j` in the
/// upper, each eight higher. Eight bit numbers are bytes in two's complement,
/// and the half precision numbers of scales come low byte first.
pub proof fn numbers_are_stored_in_blocks(
    codes: Seq<i8>,
    scales: Seq<u16>,
    b: int,
    j: int,
    i: int,
)
    requires
        codes.len() % 32 == 0,
        0 <= b < codes.len() / 32,
        0 <= j < 16,
        0 <= i < scales.len(),
    ensures
        storable(Dtype::Q4, codes, scales) ==> ({
            let x = packed(Dtype::Q4, codes)[16 * b + j] as int;
            x % 16 == codes[32 * b + j] + 8 && x / 16 == codes[32 * b + 16 + j] + 8
        }),
        packed(Dtype::Q4, codes).len() * 2 == codes.len(),
        packed(Dtype::Q8, codes).len() == codes.len(),
        (packed(Dtype::Q8, codes)[32 * b + j] - codes[32 * b + j]) % 256 == 0,
        half_bytes(scales).len() == 2 * scales.len(),
        half_bytes(scales)[2 * i] + 256 * half_bytes(scales)[2 * i + 1] == scales[i],
{
    let k = 16 * b + j;
    assert(k / 16 == b && k % 16 == j);
    assert(0 <= 32 * b + j < codes.len() && 0 <= 32 * b + 16 + j < codes.len());
    if storable(Dtype::Q4, codes, scales) {
        let lower = codes[32 * b + j];
        let upper = codes[32 * b + 16 + j];
        assert(-8 <= lower < 8 && -8 <= upper < 8);
    }
    assert((2 * i) % 2 == 0 && (2 * i) / 2 == i);
    assert((2 * i + 1) % 2 == 1 && (2 * i + 1) / 2 == i);
}

/// An entry is taken exactly where its storage type is known, both of its
/// ranges are of the payload, and they hold as many bytes as the shape takes.
pub proof fn entries_are_taken_exactly_when_complete(e: ManifestEntry, len: nat)
    ensures
        entry_fault(e, len) is None <==> {
            &&& dtype_of(e.dtype@) is Some
            &&& e.offset + e.nbytes <= len && e.scales_offset + e.scales_nbytes <= len
            &&& e.nbytes == payload(dtype_of(e.dtype@)->0, product(e.shape@))
            &&& e.scales_nbytes == scale_bytes(dtype_of(e.dtype@)->0, product(e.shape@))
        },
{
}

/// The header of a file is taken exactly where the eight bytes before it give
/// a length that the file has, and it is read as JSON.
pub proof fn headers_are_taken_exactly_when_whole(bytes: Seq<u8>)
    ensures
        safetensors_fault(bytes) is None <==> bytes.len() >= 8 && 8 + le(bytes.take(8))
            <= bytes.len() && parsed(bytes.subrange(8, 8 + le(bytes.take(8)) as int)) is Some,
{
}

} // verus!

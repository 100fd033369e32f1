//! Training rows for a pointer head: the option orders a record is read
//! under, which rows of a reading are used, and the file they are written to.

use vstd::prelude::*;
use vstd::string::{StringExecFns, StringSliceAdditionalSpecFns};

use crate::api::{Question, QuestionView};
use crate::error::LoadError;
use crate::json::{at, 
    array_of, compact, compact_json, field_views, object_of, set_field, text_value, views,
    with_field, Json, JsonView,
};
use crate::map::{criteria_entries, find};
use crate::readout::{decide_row, option_rows, rows_read};
use crate::render::{option_texts, Mark};
use crate::tensor::le;
use crate::text::{decimal, push_decimal};
use crate::weights::data_of;

verus! {

/// What a question counts as its options.
pub open spec fn option_count_view(q: QuestionView) -> nat {
    match q {
        QuestionView::Choice { instructions, criteria } => criteria.len(),
        QuestionView::Score { instructions, criteria } => criteria.len(),
        QuestionView::Noul { instructions, criteria } => 2,
    }
}

/// How many options a question has.
pub fn option_count(q: &Question) -> (r: usize)
    ensures
        r == option_count_view(q@),
{
    match q {
        Question::Choice { instructions: _, criteria } => criteria_entries(criteria).len(),
        Question::Score { instructions: _, criteria } => criteria.len(),
        Question::Noul { instructions: _, criteria: _ } => 2,
    }
}

/// The next state of the generator that draws the orders.
pub open spec fn advanced(x: u64) -> u64 {
    let a = x ^ (x << 13);
    let b = a ^ (a >> 7);
    b ^ (b << 17)
}

/// An order after the places `i` down to 1 were each swapped with one drawn
/// from below, starting from state `x`, and the state that is left.
pub open spec fn redrawn(idx: Seq<usize>, x: u64, i: nat) -> (Seq<usize>, u64)
    decreases i,
{
    if i == 0 {
        (idx, x)
    } else {
        let y = advanced(x);
        let j = y as int % (i as int + 1);
        redrawn(idx.update(i as int, idx[j]).update(j, idx[i as int]), y, (i - 1) as nat)
    }
}

/// The natural order of `k` options.
pub open spec fn natural(k: nat) -> Seq<usize> {
    Seq::new(k, |i: int| i as usize)
}

/// Draws option orders, each from where the one before left off.
#[derive(Debug)]
pub struct Shuffler {
    pub state: u64,
}

impl Shuffler {
    pub fn new(seed: u64) -> (r: Shuffler)
        ensures
            r.state == seed ^ 0x2545_f491_4f6c_dd1d,
    {
        Shuffler { state: seed ^ 0x2545_f491_4f6c_dd1d }
    }

    /// The `o`-th order of a record with `k` options: the natural one first,
    /// then drawn ones.
    pub fn order(&mut self, k: usize, o: usize) -> (r: Vec<usize>)
        ensures
            ({
                let drawn = if o == 0 || k == 0 {
                    (natural(k as nat), old(self).state)
                } else {
                    redrawn(natural(k as nat), old(self).state, (k - 1) as nat)
                };
                r@ == drawn.0 && final(self).state == drawn.1
            }),
    {
        let mut idx: Vec<usize> = Vec::new();
        let mut n: usize = 0;
        while n < k
            invariant
                0 <= n <= k,
                idx@ == natural(n as nat),
            decreases k - n,
        {
            idx.push(n);
            n += 1;
            assert(idx@ =~= natural(n as nat));
        }
        if o == 0 || k == 0 {
            return idx;
        }
        let mut x: u64 = self.state;
        let mut i: usize = k - 1;
        let ghost want = redrawn(natural(k as nat), self.state, (k - 1) as nat);
        while i > 0
            invariant
                0 <= i < k,
                idx@.len() == k,
                redrawn(idx@, x, i as nat) == want,
            decreases i,
        {
            let ghost before = idx@;
            let a: u64 = x ^ (x << 13);
            let b: u64 = a ^ (a >> 7);
            x = b ^ (b << 17);
            let j: usize = (x % (i as u64 + 1)) as usize;
            let p: usize = idx[i];
            let q: usize = idx[j];
            idx.set(i, q);
            idx.set(j, p);
            assert(idx@ =~= before.update(i as int, before[j as int]).update(
                j as int,
                before[i as int],
            ));
            i -= 1;
        }
        self.state = x;
        idx
    }
}

proof fn swaps_hold(idx: Seq<usize>, x: u64, i: nat)
    requires
        i < idx.len(),
        idx.no_duplicates(),
        forall|k: int| 0 <= k < idx.len() ==> #[trigger] idx[k] < idx.len(),
    ensures
        redrawn(idx, x, i).0.len() == idx.len(),
        redrawn(idx, x, i).0.no_duplicates(),
        forall|k: int|
            0 <= k < idx.len() ==> #[trigger] redrawn(idx, x, i).0[k] < idx.len(),
    decreases i,
{
    if i > 0 {
        let y = advanced(x);
        let j = y as int % (i as int + 1);
        let next = idx.update(i as int, idx[j]).update(j, idx[i as int]);
        assert(0 <= j <= i);
        assert forall|a: int, b: int|
            0 <= a < next.len() && 0 <= b < next.len() && a != b implies next[a] != next[b] by {
            let pa = if a == i {
                j
            } else if a == j {
                i as int
            } else {
                a
            };
            let pb = if b == i {
                j
            } else if b == j {
                i as int
            } else {
                b
            };
            assert(next[a] == idx[pa] && next[b] == idx[pb]);
        }
        swaps_hold(next, y, (i - 1) as nat);
    }
}

/// A drawn order asks every option once.
pub proof fn drawn_orders_are_permutations(k: nat, x: u64, s: int)
    requires
        0 <= s < k <= usize::MAX,
    ensures
        redrawn(natural(k), x, (k - 1) as nat).0.len() == k,
        redrawn(natural(k), x, (k - 1) as nat).0.no_duplicates(),
        redrawn(natural(k), x, (k - 1) as nat).0[s] < k,
{
    assert(natural(k).no_duplicates());
    swaps_hold(natural(k), x, (k - 1) as nat);
}

/// The slot of the gold option under an order.
pub open spec fn slot_of(order: Seq<usize>, gold: usize) -> nat
    decreases order.len(),
{
    if order.len() == 0 || order[0] == gold {
        0
    } else {
        1 + slot_of(order.drop_first(), gold)
    }
}

/// The slot of the gold option under an order, where it is asked.
pub fn gold_slot(order: &Vec<usize>, gold: usize) -> (r: Option<usize>)
    ensures
        match r {
            Some(s) => s == slot_of(order@, gold) && s < order@.len(),
            None => slot_of(order@, gold) == order@.len(),
        },
{
    let mut i: usize = 0;
    assert(order@.skip(0) =~= order@);
    while i < order.len()
        invariant
            0 <= i <= order@.len(),
            slot_of(order@, gold) == i + slot_of(order@.skip(i as int), gold),
        decreases order@.len() - i,
    {
        proof {
            assert(order@.skip(i as int)[0] == order@[i as int]);
            assert(order@.skip(i as int).drop_first() =~= order@.skip(i + 1));
        }
        if order[i] == gold {
            return Some(i);
        }
        i += 1;
    }
    None
}

/// Why the rows of a branch cannot be used, if they cannot.
pub open spec fn rows_fault(marks: Seq<(usize, Mark)>, rows: nat, k: nat) -> Option<Seq<char>> {
    let n = rows_read(marks.len(), rows);
    if decide_row(marks, n) is None {
        Some("no decide row"@)
    } else if option_rows(marks, n).len() != k {
        Some(
            "expected "@ + decimal(k) + " option rows, got "@ + decimal(
                option_rows(marks, n).len(),
            ),
        )
    } else {
        None
    }
}

/// Which of the `rows` rows of a branch is the deciding one, and which are
/// those of its `k` options.
pub fn pointer_rows(marks: &Vec<(usize, Mark)>, rows: usize, k: usize) -> (r: Result<
    (usize, Vec<usize>),
    LoadError,
>)
    ensures
        match r {
            Ok((d, o)) => {
                let n = rows_read(marks@.len(), rows as nat);
                &&& rows_fault(marks@, rows as nat, k as nat) is None
                &&& decide_row(marks@, n) == Some(d)
                &&& o@ == option_rows(marks@, n)
            },
            Err(e) => rows_fault(marks@, rows as nat, k as nat) == Some(e@),
        },
{
    let mut decide: Option<usize> = None;
    let mut options: Vec<usize> = Vec::new();
    let mut i: usize = 0;
    while i < marks.len() && i < rows
        invariant
            0 <= i <= rows_read(marks@.len(), rows as nat),
            decide == decide_row(marks@, i as nat),
            options@ == option_rows(marks@, i as nat),
        decreases marks@.len() - i,
    {
        match marks[i].1 {
            Mark::OptEnd(_) => options.push(i),
            Mark::Decide => {
                decide = Some(i);
            },
            Mark::Last => {},
        }
        i += 1;
    }
    match decide {
        None => Err(LoadError::of("no decide row")),
        Some(d) => {
            if options.len() != k {
                let mut m: String = "expected ".to_owned();
                push_decimal(&mut m, k as u64);
                m.append(" option rows, got ");
                push_decimal(&mut m, options.len() as u64);
                return Err(LoadError::new(m));
            }
            Ok((d, options))
        },
    }
}

/// The low `n` bytes of a number, the lowest first.
pub open spec fn le_bytes(x: nat, n: nat) -> Seq<u8>
    decreases n,
{
    if n == 0 {
        Seq::empty()
    } else {
        seq![(x % 256) as u8] + le_bytes(x / 256, (n - 1) as nat)
    }
}

fn push_le(out: &mut Vec<u8>, x: u64, n: usize)
    ensures
        final(out)@ == old(out)@ + le_bytes(x as nat, n as nat),
    decreases n,
{
    if n > 0 {
        let ghost before = out@;
        out.push((x % 256) as u8);
        push_le(out, x / 256, n - 1);
        assert(out@ =~= before + le_bytes(x as nat, n as nat));
    } else {
        assert(out@ =~= old(out)@ + le_bytes(x as nat, n as nat));
    }
}

/// The bytes of numbers of `w` bytes each.
pub open spec fn all_le(v: Seq<u64>, w: nat, n: nat) -> Seq<u8>
    decreases n,
{
    if n == 0 {
        Seq::empty()
    } else {
        all_le(v, w, (n - 1) as nat) + le_bytes(v[n - 1] as nat, w)
    }
}

/// The bytes of numbers of `w` bytes each, little-endian.
pub fn number_bytes(v: &Vec<u64>, w: usize) -> (r: Vec<u8>)
    ensures
        r@ == all_le(v@, w as nat, v@.len()),
{
    let mut out: Vec<u8> = Vec::new();
    let mut i: usize = 0;
    while i < v.len()
        invariant
            0 <= i <= v@.len(),
            out@ == all_le(v@, w as nat, i as nat),
        decreases v@.len() - i,
    {
        push_le(&mut out, v[i], w);
        i += 1;
    }
    out
}

/// A tensor of a file: its name, element type, shape and bytes.
#[derive(Debug)]
pub struct Feature {
    pub name: String,
    pub dtype: String,
    pub shape: Vec<usize>,
    pub bytes: Vec<u8>,
}

/// The bytes of the first `n` tensors.
pub open spec fn body_view(ts: Seq<Feature>, n: nat) -> Seq<u8>
    decreases n,
{
    if n == 0 {
        Seq::empty()
    } else {
        body_view(ts, (n - 1) as nat) + ts[n - 1].bytes@
    }
}

/// Numbers as a JSON list.
pub open spec fn number_list(v: Seq<usize>) -> JsonView {
    JsonView::Array(Seq::new(v.len(), |i: int| JsonView::Uint(v[i] as u64)))
}

/// The header entry of a tensor whose bytes start at `start`.
pub open spec fn entry_view(t: Feature, start: nat) -> JsonView {
    JsonView::Object(
        seq![
            ("dtype"@, JsonView::Str(t.dtype@)),
            ("shape"@, number_list(t.shape@)),
            (
                "data_offsets"@,
                JsonView::Array(
                    seq![
                        JsonView::Uint(start as u64),
                        JsonView::Uint((start + t.bytes@.len()) as u64),
                    ],
                ),
            ),
        ],
    )
}

/// Metadata as JSON: every value is text.
pub open spec fn meta_view(meta: Seq<(String, String)>) -> JsonView {
    JsonView::Object(
        Seq::new(meta.len(), |i: int| (meta[i].0@, JsonView::Str(meta[i].1@))),
    )
}

/// The header's fields for the first `n` tensors.
pub open spec fn header_fields(ts: Seq<Feature>, meta: Seq<(String, String)>, n: nat) -> Seq<
    (Seq<char>, JsonView),
>
    decreases n,
{
    if n == 0 {
        seq![("__metadata__"@, meta_view(meta))]
    } else {
        let m = (n - 1) as nat;
        with_field(
            header_fields(ts, meta, m),
            ts[n - 1].name@,
            entry_view(ts[n - 1], body_view(ts, m).len()),
        )
    }
}

/// Bytes padded with spaces to a multiple of eight.
pub open spec fn padded(b: Seq<u8>) -> Seq<u8> {
    b + Seq::new(((8 - b.len() % 8) % 8) as nat, |i: int| 32u8)
}

/// The bytes of a header's text.
pub open spec fn header_bytes(text: &str) -> Seq<u8> {
    padded(text.spec_bytes())
}

/// A file of a header and tensors: the header's length, the header, the
/// tensors' bytes.
pub open spec fn file_view(header: Seq<u8>, body: Seq<u8>) -> Seq<u8> {
    le_bytes(header.len(), 8) + header + body
}

fn number_values(v: &Vec<usize>) -> (r: Json)
    ensures
        r@ == number_list(v@),
{
    let mut out: Vec<Json> = Vec::new();
    let mut i: usize = 0;
    while i < v.len()
        invariant
            0 <= i <= v@.len(),
            out@.len() == i,
            forall|j: int| 0 <= j < i ==> (#[trigger] out@[j])@ == JsonView::Uint(v@[j] as u64),
        decreases v@.len() - i,
    {
        out.push(Json::Uint(v[i] as u64));
        i += 1;
    }
    assert(views(out@) =~= number_list(v@)->Array_0);
    array_of(out)
}

fn entry(t: &Feature, start: usize) -> (r: Json)
    requires
        start + t.bytes@.len() <= usize::MAX,
    ensures
        r@ == entry_view(*t, start as nat),
{
    let span: Vec<Json> = vec![
        Json::Uint(start as u64),
        Json::Uint((start + t.bytes.len()) as u64),
    ];
    let ghost want = seq![
        JsonView::Uint(start as u64),
        JsonView::Uint((start + t.bytes@.len()) as u64),
    ];
    assert(views(span@) =~= want);
    let fields: Vec<(String, Json)> = vec![
        ("dtype".to_owned(), text_value(t.dtype.as_str())),
        ("shape".to_owned(), number_values(&t.shape)),
        ("data_offsets".to_owned(), array_of(span)),
    ];
    assert(field_views(fields@) =~= seq![
        ("dtype"@, JsonView::Str(t.dtype@)),
        ("shape"@, number_list(t.shape@)),
        ("data_offsets"@, JsonView::Array(want)),
    ]);
    object_of(fields)
}

fn meta_value(meta: &Vec<(String, String)>) -> (r: Json)
    ensures
        r@ == meta_view(meta@),
{
    let mut out: Vec<(String, Json)> = Vec::new();
    let mut i: usize = 0;
    while i < meta.len()
        invariant
            0 <= i <= meta@.len(),
            out@.len() == i,
            forall|j: int|
                0 <= j < i ==> (#[trigger] out@[j]).0@ == meta@[j].0@ && out@[j].1@
                    == JsonView::Str(meta@[j].1@),
        decreases meta@.len() - i,
    {
        out.push((meta[i].0.clone(), text_value(meta[i].1.as_str())));
        i += 1;
    }
    assert(field_views(out@) =~= meta_view(meta@)->Object_0);
    object_of(out)
}

proof fn bodies_grow(ts: Seq<Feature>, i: nat, n: nat)
    requires
        i <= n <= ts.len(),
    ensures
        body_view(ts, i).len() <= body_view(ts, n).len(),
    decreases n - i,
{
    if i < n {
        bodies_grow(ts, i + 1, n);
    }
}

/// The header of a file of tensors, and their bytes one after the other.
pub fn lay_out_file(ts: &Vec<Feature>, meta: &Vec<(String, String)>) -> (r: (Json, Vec<u8>))
    requires
        body_view(ts@, ts@.len()).len() <= usize::MAX,
    ensures
        r.0@ == JsonView::Object(header_fields(ts@, meta@, ts@.len())),
        r.1@ == body_view(ts@, ts@.len()),
{
    let mut fields: Vec<(String, Json)> = vec![("__metadata__".to_owned(), meta_value(meta))];
    assert(field_views(fields@) =~= header_fields(ts@, meta@, 0));
    let mut body: Vec<u8> = Vec::new();
    let mut i: usize = 0;
    while i < ts.len()
        invariant
            0 <= i <= ts@.len(),
            body_view(ts@, ts@.len()).len() <= usize::MAX,
            field_views(fields@) == header_fields(ts@, meta@, i as nat),
            body@ == body_view(ts@, i as nat),
        decreases ts@.len() - i,
    {
        let t: &Feature = &ts[i];
        let start: usize = body.len();
        proof {
            bodies_grow(ts@, (i + 1) as nat, ts@.len());
        }
        set_field(&mut fields, t.name.clone(), entry(t, start));
        append_bytes(&mut body, &t.bytes);
        i += 1;
    }
    (object_of(fields), body)
}

fn append_bytes(out: &mut Vec<u8>, v: &Vec<u8>)
    ensures
        final(out)@ == old(out)@ + v@,
{
    let ghost before = out@;
    let mut i: usize = 0;
    assert(out@ =~= before + v@.take(0));
    while i < v.len()
        invariant
            0 <= i <= v@.len(),
            before == old(out)@,
            out@ == before + v@.take(i as int),
        decreases v@.len() - i,
    {
        out.push(v[i]);
        i += 1;
        assert(out@ =~= before + v@.take(i as int));
    }
    assert(v@.take(i as int) =~= v@);
}

/// A file of a header's text and the tensors' bytes.
pub fn write_file(header: &str, body: &Vec<u8>) -> (r: Vec<u8>)
    requires
        header.spec_bytes().len() + 16 <= usize::MAX,
    ensures
        r@ == file_view(header_bytes(header), body@),
{
    let text: &[u8] = header.as_bytes();
    let len: usize = text.len();
    let pad: usize = (8 - len % 8) % 8;
    let mut head: Vec<u8> = Vec::new();
    let mut i: usize = 0;
    while i < len
        invariant
            0 <= i <= len,
            len == text@.len(),
            head@ == text@.take(i as int),
        decreases len - i,
    {
        head.push(text[i]);
        i += 1;
        assert(head@ =~= text@.take(i as int));
    }
    assert(text@.take(i as int) =~= text@);
    let mut i: usize = 0;
    assert(head@ =~= text@ + Seq::new(0, |j: int| 32u8));
    while i < pad
        invariant
            0 <= i <= pad,
            head@ == text@ + Seq::new(i as nat, |j: int| 32u8),
        decreases pad - i,
    {
        head.push(32u8);
        i += 1;
        assert(head@ =~= text@ + Seq::new(i as nat, |j: int| 32u8));
    }
    assert(head@ == header_bytes(header));
    let mut out: Vec<u8> = Vec::new();
    push_le(&mut out, head.len() as u64, 8);
    append_bytes(&mut out, &head);
    append_bytes(&mut out, body);
    assert(out@ =~= file_view(head@, body@));
    out
}

/// The text of a header.
pub fn header_text(header: &Json) -> (r: String)
    ensures
        r@ == compact_json(header@),
{
    compact(header)
}

proof fn le_undoes(x: nat, n: nat)
    ensures
        le_bytes(x, n).len() == n,
        n == 8 && x <= u64::MAX ==> le(le_bytes(x, n)) == x,
        x < pow(n) ==> le(le_bytes(x, n)) == x,
    decreases n,
{
    if n > 0 {
        le_undoes(x / 256, (n - 1) as nat);
        let b = le_bytes(x, n);
        assert(b.drop_first() =~= le_bytes(x / 256, (n - 1) as nat));
        assert(pow(n) == 256 * pow((n - 1) as nat));
    }
    if n == 8 {
        reveal_with_fuel(pow, 9);
        assert(pow(8) == 0x1_0000_0000_0000_0000);
    }
}

spec fn pow(n: nat) -> nat
    decreases n,
{
    if n == 0 {
        1
    } else {
        256 * pow((n - 1) as nat)
    }
}

/// What a file was written with is read back: the tensors' bytes stand where
/// a reader looks for them, behind a header whose length is a multiple of
/// eight.
pub proof fn files_read_back(text: &str, body: Seq<u8>)
    requires
        text.spec_bytes().len() + 8 <= u64::MAX,
    ensures
        ({
            let file = file_view(header_bytes(text), body);
            &&& le(file.take(8)) == header_bytes(text).len()
            &&& le(file.take(8)) % 8 == 0
            &&& file.subrange(8, 8 + le(file.take(8)) as int) == header_bytes(text)
            &&& data_of(file) == body
        }),
{
    let head = header_bytes(text);
    let file = file_view(head, body);
    le_undoes(head.len(), 8);
    assert(file.take(8) =~= le_bytes(head.len(), 8));
    assert(file.subrange(8, 8 + head.len() as int) =~= head);
    assert(file.skip(8 + head.len() as int) =~= body);
}

/// A tensor's bytes stand at the offsets that its header entry gives.
pub proof fn spans_hold_their_tensors(ts: Seq<Feature>, n: nat, i: int)
    requires
        0 <= i < n <= ts.len(),
    ensures
        ({
            let start = body_view(ts, i as nat).len() as int;
            &&& start + ts[i].bytes@.len() <= body_view(ts, n).len()
            &&& body_view(ts, n).subrange(start, start + ts[i].bytes@.len()) == ts[i].bytes@
        }),
    decreases n,
{
    let start = body_view(ts, i as nat).len() as int;
    let end = start + ts[i].bytes@.len() as int;
    if i == n - 1 {
        assert(body_view(ts, n).subrange(start, end) =~= ts[i].bytes@);
    } else {
        spans_hold_their_tensors(ts, (n - 1) as nat, i);
        let before = body_view(ts, (n - 1) as nat);
        assert(body_view(ts, n).subrange(start, end) =~= before.subrange(start, end));
    }
}

/// The gold option's slot is the first that holds it; there is none where no
/// slot does.
pub proof fn the_gold_slot_holds_the_gold(order: Seq<usize>, gold: usize, i: int)
    requires
        0 <= i < order.len(),
    ensures
        slot_of(order, gold) <= order.len(),
        slot_of(order, gold) < order.len() ==> order[slot_of(order, gold) as int] == gold,
        order[i] == gold ==> slot_of(order, gold) <= i,
    decreases order.len(),
{
    if order[0] != gold {
        let rest = order.drop_first();
        if rest.len() > 0 {
            the_gold_slot_holds_the_gold(rest, gold, if i > 0 { i - 1 } else { 0 });
            if i > 0 {
                assert(rest[i - 1] == order[i]);
            }
        }
    }
}

/// A question has as many options as its answer reports.
pub proof fn options_are_counted(q: QuestionView)
    ensures
        option_count_view(q) == option_texts(q).len(),
{
}

/// A header entry gives a tensor's type, its shape and where its bytes start
/// and end.
pub proof fn entries_describe_their_tensor(t: Feature, start: nat, i: int)
    requires
        start + t.bytes@.len() <= u64::MAX,
        0 <= i < t.shape@.len(),
    ensures
        ({
            let e = entry_view(t, start);
            &&& at(e, "dtype"@) == JsonView::Str(t.dtype@)
            &&& at(e, "shape"@) is Array
            &&& at(e, "shape"@)->Array_0.len() == t.shape@.len()
            &&& at(e, "shape"@)->Array_0[i] == JsonView::Uint(t.shape@[i] as u64)
            &&& at(e, "data_offsets"@) is Array
            &&& at(e, "data_offsets"@)->Array_0.len() == 2
            &&& at(e, "data_offsets"@)->Array_0[0] == JsonView::Uint(start as u64)
            &&& at(e, "data_offsets"@)->Array_0[1] == JsonView::Uint(
                (start + t.bytes@.len()) as u64,
            )
        }),
{
    reveal_strlit("dtype");
    reveal_strlit("shape");
    reveal_strlit("data_offsets");
    assert("dtype"@[0] != "shape"@[0]);
    assert("data_offsets"@.len() != "dtype"@.len() && "data_offsets"@.len() != "shape"@.len());
    reveal_with_fuel(find, 4);
    let es = entry_view(t, start)->Object_0;
    assert(es.drop_first().drop_first()[0] == es[2]);
    assert(es.drop_first()[0] == es[1]);
}

/// Bytes are padded with spaces to the next multiple of eight, and kept.
pub proof fn padding_fills_up_to_eight(b: Seq<u8>, i: int)
    requires
        0 <= i < padded(b).len(),
    ensures
        padded(b).len() % 8 == 0,
        b.len() <= padded(b).len() < b.len() + 8,
        i < b.len() ==> padded(b)[i] == b[i],
        i >= b.len() ==> padded(b)[i] as int == ' ' as int,
{
}

/// Numbers are written one after the other, each in its bytes with the lowest
/// first, and read back so.
pub proof fn numbers_read_back(v: Seq<u64>, n: nat, i: int)
    requires
        0 <= i < n <= v.len(),
    ensures
        all_le(v, 8, n).len() == 8 * n,
        le(all_le(v, 8, n).subrange(8 * i, 8 * i + 8)) == v[i],
    decreases n,
{
    all_le_length(v, (n - 1) as nat);
    le_undoes(v[n - 1] as nat, 8);
    let before = all_le(v, 8, (n - 1) as nat);
    if i == n - 1 {
        assert(all_le(v, 8, n).subrange(8 * i, 8 * i + 8) =~= le_bytes(v[i] as nat, 8));
    } else {
        numbers_read_back(v, (n - 1) as nat, i);
        assert(all_le(v, 8, n).subrange(8 * i, 8 * i + 8) =~= before.subrange(8 * i, 8 * i + 8));
    }
}

proof fn all_le_length(v: Seq<u64>, n: nat)
    requires
        n <= v.len(),
    ensures
        all_le(v, 8, n).len() == 8 * n,
    decreases n,
{
    if n > 0 {
        all_le_length(v, (n - 1) as nat);
        le_undoes(v[n - 1] as nat, 8);
    }
}

} // verus!

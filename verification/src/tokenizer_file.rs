//! Whether a `tokenizer.json` can be handed to `Tokenizer::from_bytes`: some
//! files make it panic.

use vstd::prelude::*;
use vstd::string::StringExecFns;
use vstd::utf8::encode_utf8;

use crate::charsmap::{decode, decoded, is_table, table};
use crate::json::{at, has_field, parsed, views, Json, JsonView};
use crate::parts::{
    any_flag, has_flag, is_a, is_mapping, is_replacing, is_type, maps, replaces, DEEPEST,
};
use crate::patterns::{compilable, compiles};
use crate::text::{same, starts_in, starts_with, to_chars};

verus! {

/// Where the text ends that has begun before the place: its closing quote, or
/// the end of the bytes.
pub open spec fn text_end(b: Seq<u8>, i: int) -> int
    decreases b.len() - i,
{
    if i < 0 || i >= b.len() {
        b.len() as int
    } else if b[i] == 0x22 {
        i
    } else if b[i] == 0x5c && i + 1 < b.len() {
        text_end(b, i + 2)
    } else {
        text_end(b, i + 1)
    }
}

fn end_of_text(b: &[u8], from: usize) -> (r: usize)
    requires
        from <= b.len(),
    ensures
        r == text_end(b@, from as int),
        from <= r <= b.len(),
{
    let mut i: usize = from;
    while i < b.len()
        invariant
            from <= i <= b.len(),
            text_end(b@, from as int) == text_end(b@, i as int),
        decreases b.len() - i,
    {
        if b[i] == 0x22 {
            return i;
        }
        i += if b[i] == 0x5c && b.len() - i >= 2 {
            2
        } else {
            1
        };
    }
    i
}

/// A brace or a bracket that opens.
pub open spec fn opens(c: u8) -> bool {
    c == 0x7b || c == 0x5b
}

/// A brace or a bracket that closes.
pub open spec fn closes(c: u8) -> bool {
    c == 0x7d || c == 0x5d
}

/// The texts of JSON bytes that stand right inside the outermost braces, each
/// by its beginning and its end, from the place on; `depth` braces and
/// brackets are open there.
pub open spec fn outer_texts(b: Seq<u8>, i: int, depth: nat) -> Seq<(int, int)>
    decreases b.len() - i,
{
    if i < 0 || i >= b.len() {
        Seq::empty()
    } else if b[i] == 0x22 {
        let end = text_end(b, i + 1);
        let rest = if i < end < b.len() {
            outer_texts(b, end + 1, depth)
        } else {
            Seq::empty()
        };
        if depth == 1 {
            seq![(i + 1, end)] + rest
        } else {
            rest
        }
    } else if opens(b[i]) {
        outer_texts(b, i + 1, depth + 1)
    } else if closes(b[i]) && depth > 0 {
        outer_texts(b, i + 1, (depth - 1) as nat)
    } else {
        outer_texts(b, i + 1, depth)
    }
}

/// Places as numbers.
pub open spec fn places(v: Seq<(usize, usize)>) -> Seq<(int, int)> {
    v.map_values(|p: (usize, usize)| (p.0 as int, p.1 as int))
}

/// The texts right inside the outermost braces.
fn texts_outside(b: &[u8]) -> (r: Vec<(usize, usize)>)
    ensures
        places(r@) == outer_texts(b@, 0, 0),
        forall|i: int| 0 <= i < r@.len() ==> (#[trigger] r@[i]).0 <= r@[i].1 <= b.len(),
{
    let mut out: Vec<(usize, usize)> = Vec::new();
    let mut depth: usize = 0;
    let mut i: usize = 0;
    assert(places(out@) + outer_texts(b@, 0, 0) =~= outer_texts(b@, 0, 0));
    while i < b.len()
        invariant
            0 <= i <= b.len(),
            depth <= i,
            places(out@) + outer_texts(b@, i as int, depth as nat) == outer_texts(b@, 0, 0),
            forall|k: int| 0 <= k < out@.len() ==> (#[trigger] out@[k]).0 <= out@[k].1 <= b.len(),
        decreases b.len() - i,
    {
        let ghost before = out@;
        let c: u8 = b[i];
        if c == 0x22 {
            let end: usize = end_of_text(b, i + 1);
            if depth == 1 {
                out.push((i + 1, end));
                proof {
                    let e = (i + 1, end as int);
                    assert(places(out@) =~= places(before).push(e));
                    let rest = if end < b.len() {
                        outer_texts(b@, end + 1, 1)
                    } else {
                        Seq::empty()
                    };
                    assert(places(before) + (seq![e] + rest) =~= places(before).push(e) + rest);
                }
            }
            i = if end < b.len() {
                end + 1
            } else {
                end
            };
        } else {
            if c == 0x7b || c == 0x5b {
                depth += 1;
            } else if (c == 0x7d || c == 0x5d) && depth > 0 {
                depth -= 1;
            }
            i += 1;
        }
    }
    assert(outer_texts(b@, i as int, depth as nat).len() == 0);
    assert(places(out@) + outer_texts(b@, i as int, depth as nat) =~= places(out@));
    out
}

/// The name of a part that may hold what cannot be read.
pub open spec fn names_part(s: Seq<u8>) -> bool {
    ||| s == encode_utf8("normalizer"@)
    ||| s == encode_utf8("pre_tokenizer"@)
    ||| s == encode_utf8("decoder"@)
    ||| s == encode_utf8("model"@)
}

fn same_bytes(a: &[u8], b: &[u8]) -> (r: bool)
    ensures
        r == (a@ == b@),
{
    if a.len() != b.len() {
        return false;
    }
    let mut i: usize = 0;
    while i < a.len()
        invariant
            0 <= i <= a.len(),
            a.len() == b.len(),
            forall|k: int| 0 <= k < i ==> a@[k] == b@[k],
        decreases a.len() - i,
    {
        if a[i] != b[i] {
            return false;
        }
        i += 1;
    }
    assert(a@ =~= b@);
    true
}

fn is_part(s: &[u8]) -> (r: bool)
    ensures
        r == names_part(s@),
{
    same_bytes(s, "normalizer".as_bytes()) || same_bytes(s, "pre_tokenizer".as_bytes())
        || same_bytes(s, "decoder".as_bytes()) || same_bytes(s, "model".as_bytes())
}

/// A text of the bytes.
pub open spec fn text_at(b: Seq<u8>, p: (int, int)) -> Seq<u8> {
    b.subrange(p.0, p.1)
}

/// A text without an escape.
pub open spec fn unescaped(s: Seq<u8>) -> bool {
    forall|i: int| 0 <= i < s.len() ==> #[trigger] s[i] != 0x5c
}

fn is_unescaped(s: &[u8]) -> (r: bool)
    ensures
        r == unescaped(s@),
{
    let mut i: usize = 0;
    while i < s.len()
        invariant
            0 <= i <= s.len(),
            forall|k: int| 0 <= k < i ==> #[trigger] s@[k] != 0x5c,
        decreases s.len() - i,
    {
        if s[i] == 0x5c {
            assert(s@[i as int] == 0x5c);
            return false;
        }
        i += 1;
    }
    true
}

/// No part of a tokenizer is named twice: the texts right inside the outermost
/// braces hold no escape, and of those that name a part no two are the same.
pub open spec fn parts_once(b: Seq<u8>) -> bool {
    let ts = outer_texts(b, 0, 0);
    &&& forall|i: int| 0 <= i < ts.len() ==> unescaped(text_at(b, #[trigger] ts[i]))
    &&& forall|i: int, k: int|
        0 <= i < k < ts.len() && names_part(text_at(b, #[trigger] ts[i])) ==> text_at(b, ts[i])
            != text_at(b, #[trigger] ts[k])
}

/// Whether no part of a tokenizer is named twice.
#[verifier::loop_isolation(false)]
pub fn named_once(b: &[u8]) -> (r: bool)
    ensures
        r == parts_once(b@),
{
    let ts = texts_outside(b);
    let ghost ps = outer_texts(b@, 0, 0);
    let mut i: usize = 0;
    while i < ts.len()
        invariant
            0 <= i <= ts@.len(),
            forall|k: int| 0 <= k < i ==> unescaped(text_at(b@, #[trigger] ps[k])),
            forall|j: int, k: int|
                0 <= j < i && j < k < ps.len() && names_part(text_at(b@, #[trigger] ps[j]))
                    ==> text_at(b@, ps[j]) != text_at(b@, #[trigger] ps[k]),
        decreases ts@.len() - i,
    {
        assert(ps[i as int] == (ts@[i as int].0 as int, ts@[i as int].1 as int));
        assert(ts@[i as int].0 <= ts@[i as int].1);
        let text = vstd::slice::slice_subrange(b, ts[i].0, ts[i].1);
        assert(text@ == text_at(b@, ps[i as int]));
        if !is_unescaped(text) {
            assert(!unescaped(text_at(b@, ps[i as int])));
            return false;
        }
        if is_part(text) {
            let mut k: usize = i + 1;
            while k < ts.len()
                invariant
                    i < k <= ts@.len(),
                    forall|j: int| i < j < k ==> text@ != text_at(b@, #[trigger] ps[j]),
                decreases ts@.len() - k,
            {
                assert(ps[k as int] == (ts@[k as int].0 as int, ts@[k as int].1 as int));
                assert(ts@[k as int].0 <= ts@[k as int].1);
                let other = vstd::slice::slice_subrange(b, ts[k].0, ts[k].1);
                assert(other@ == text_at(b@, ps[k as int]));
                if same_bytes(text, other) {
                    assert(text_at(b@, ps[i as int]) == text_at(b@, ps[k as int]));
                    return false;
                }
                k += 1;
            }
        }
        i += 1;
    }
    true
}

/// The length in bytes of a text under a key of a model, none where there is
/// no text.
pub open spec fn bytes_under(v: JsonView, key: Seq<char>) -> nat {
    match at(v, key) {
        JsonView::Str(s) => encode_utf8(s).len(),
        _ => 0,
    }
}

/// The length in bytes of the longest key among the first `n` entries.
pub open spec fn longest_key(es: Seq<(Seq<char>, JsonView)>, n: nat) -> nat
    decreases n,
{
    if n == 0 {
        0
    } else {
        let before = longest_key(es, (n - 1) as nat);
        let here = encode_utf8(es[n - 1].0).len();
        if here > before {
            here
        } else {
            before
        }
    }
}

fn longest(es: &Vec<(String, Json)>) -> (r: usize)
    ensures
        ({
            let vs = es@.map_values(|e: (String, Json)| (e.0@, e.1@));
            r == longest_key(vs, vs.len())
        }),
{
    let ghost vs = es@.map_values(|e: (String, Json)| (e.0@, e.1@));
    let mut r: usize = 0;
    let mut i: usize = 0;
    while i < es.len()
        invariant
            0 <= i <= es@.len(),
            vs == es@.map_values(|e: (String, Json)| (e.0@, e.1@)),
            r == longest_key(vs, i as nat),
        decreases es@.len() - i,
    {
        assert(vs[i as int].0 == es@[i as int].0@);
        let n: usize = es[i].0.as_str().as_bytes().len();
        if n > r {
            r = n;
        }
        i += 1;
    }
    r
}

/// Two tokens can be merged: the second without the prefix of `p` bytes is
/// text, and what they make is no longer than the longest token.
pub open spec fn merge_fits(x: Seq<u8>, y: Seq<u8>, p: nat, longest: nat) -> bool {
    &&& p <= y.len()
    &&& p == y.len() || y[p as int] & 0xc0 != 0x80
    &&& x.len() + y.len() - p <= longest
}

fn fits(x: &[u8], y: &[u8], p: usize, longest: usize) -> (r: bool)
    ensures
        r == merge_fits(x@, y@, p as nat, longest as nat),
{
    if p > y.len() {
        return false;
    }
    if p < y.len() && y[p] & 0xc0 == 0x80 {
        return false;
    }
    let rest: usize = y.len() - p;
    rest <= longest && x.len() <= longest - rest
}

/// Where the first space stands from the place on, the length where there is
/// none.
pub open spec fn space_from(b: Seq<u8>, i: int) -> int
    decreases b.len() - i,
{
    if i < 0 || i >= b.len() {
        b.len() as int
    } else if b[i] == 0x20 {
        i
    } else {
        space_from(b, i + 1)
    }
}

fn first_space(b: &[u8]) -> (r: usize)
    ensures
        r == space_from(b@, 0),
        r <= b.len(),
{
    let mut i: usize = 0;
    while i < b.len()
        invariant
            0 <= i <= b.len(),
            space_from(b@, 0) == space_from(b@, i as int),
        decreases b.len() - i,
    {
        if b[i] == 0x20 {
            return i;
        }
        i += 1;
    }
    i
}

/// A merge that can be made, where it is one: two texts, or one text of two
/// with a space between them, which is none where it gives a version.
pub open spec fn merge_reads(m: JsonView, p: nat, longest: nat) -> bool {
    match m {
        JsonView::Array(ps) => if ps.len() == 2 && ps[0] is Str && ps[1] is Str {
            merge_fits(encode_utf8(ps[0]->Str_0), encode_utf8(ps[1]->Str_0), p, longest)
        } else {
            true
        },
        JsonView::Str(s) => {
            let b = encode_utf8(s);
            let k = space_from(b, 0);
            k >= b.len() || starts_in(s, "#version"@) || merge_fits(
                b.take(k),
                b.skip(k + 1),
                p,
                longest,
            )
        },
        _ => true,
    }
}

fn merges(m: &Json, p: usize, longest: usize) -> (r: bool)
    ensures
        r == merge_reads(m@, p as nat, longest as nat),
{
    match m {
        Json::Array(ps) => {
            assert(m@->Array_0 =~= views(ps@));
            if ps.len() != 2 {
                return true;
            }
            assert(views(ps@)[0] == ps@[0]@ && views(ps@)[1] == ps@[1]@);
            match (&ps[0], &ps[1]) {
                (Json::Str(x), Json::Str(y)) => fits(
                    x.as_str().as_bytes(),
                    y.as_str().as_bytes(),
                    p,
                    longest,
                ),
                _ => true,
            }
        },
        Json::Str(s) => {
            let b = s.as_str().as_bytes();
            let k: usize = first_space(b);
            if k >= b.len() {
                return true;
            }
            let x = vstd::slice::slice_subrange(b, 0, k);
            let y = vstd::slice::slice_subrange(b, k + 1, b.len());
            assert(x@ =~= b@.take(k as int));
            assert(y@ =~= b@.skip(k + 1));
            fits(x, y, p, longest) || starts_with(s.as_str(), "#version")
        },
        _ => true,
    }
}

/// The longest piece of a model that keeps its pieces in a tree, in bytes: a
/// longer one makes the tree too deep to be taken apart.
pub const LONGEST_PIECE: usize = 1024;

/// A piece that can be kept.
pub open spec fn piece_reads(m: JsonView) -> bool {
    match m {
        JsonView::Array(ps) => ps.len() > 0 ==> (ps[0] matches JsonView::Str(s) ==> encode_utf8(
            s,
        ).len() <= LONGEST_PIECE),
        _ => true,
    }
}

fn is_piece(m: &Json) -> (r: bool)
    ensures
        r == piece_reads(m@),
{
    match m {
        Json::Array(ps) => {
            assert(m@->Array_0 =~= views(ps@));
            if ps.len() == 0 {
                return true;
            }
            assert(views(ps@)[0] == ps@[0]@);
            match &ps[0] {
                Json::Str(s) => s.as_str().as_bytes().len() <= LONGEST_PIECE,
                _ => true,
            }
        },
        _ => true,
    }
}

/// Every merge can be made.
pub open spec fn all_merge(ms: Seq<JsonView>, p: nat, longest: nat) -> bool {
    forall|i: int| 0 <= i < ms.len() ==> merge_reads(#[trigger] ms[i], p, longest)
}

/// Every piece can be kept.
pub open spec fn all_kept(ms: Seq<JsonView>) -> bool {
    forall|i: int| 0 <= i < ms.len() ==> piece_reads(#[trigger] ms[i])
}

/// A model that can be read: its merges can be made, and its pieces kept.
pub open spec fn model_reads(v: JsonView) -> bool {
    match (at(v, "vocab"@), at(v, "merges"@)) {
        (JsonView::Object(es), JsonView::Array(ms)) => all_merge(
            ms,
            bytes_under(v, "continuing_subword_prefix"@),
            longest_key(es, es.len()),
        ),
        (JsonView::Array(ps), _) => all_kept(ps),
        _ => true,
    }
}

fn merged(ms: &Vec<Json>, p: usize, longest: usize) -> (r: bool)
    ensures
        r == all_merge(views(ms@), p as nat, longest as nat),
{
    let ghost vs = views(ms@);
    let mut i: usize = 0;
    while i < ms.len()
        invariant
            0 <= i <= ms@.len(),
            vs == views(ms@),
            forall|k: int| 0 <= k < i ==> merge_reads(#[trigger] vs[k], p as nat, longest as nat),
        decreases ms@.len() - i,
    {
        assert(vs[i as int] == ms@[i as int]@);
        if !merges(&ms[i], p, longest) {
            assert(!merge_reads(vs[i as int], p as nat, longest as nat));
            return false;
        }
        i += 1;
    }
    true
}

fn kept(ms: &Vec<Json>) -> (r: bool)
    ensures
        r == all_kept(views(ms@)),
{
    let ghost vs = views(ms@);
    let mut i: usize = 0;
    while i < ms.len()
        invariant
            0 <= i <= ms@.len(),
            vs == views(ms@),
            forall|k: int| 0 <= k < i ==> piece_reads(#[trigger] vs[k]),
        decreases ms@.len() - i,
    {
        assert(vs[i as int] == ms@[i as int]@);
        if !is_piece(&ms[i]) {
            assert(!piece_reads(vs[i as int]));
            return false;
        }
        i += 1;
    }
    true
}

/// Whether a model can be read.
pub fn readable_model(j: &Json) -> (r: bool)
    ensures
        r == model_reads(j@),
{
    match j.get("vocab") {
        Some(Json::Object(es)) => match j.get("merges") {
            Some(Json::Array(ms)) => {
                assert(at(j@, "vocab"@)->Object_0 =~= es@.map_values(
                    |e: (String, Json)| (e.0@, e.1@),
                ));
                assert(at(j@, "merges"@)->Array_0 =~= views(ms@));
                let p: usize = match j.text_at("continuing_subword_prefix") {
                    Some(s) => s.as_str().as_bytes().len(),
                    None => 0,
                };
                merged(ms, p, longest(es))
            },
            _ => true,
        },
        Some(Json::Array(ps)) => {
            assert(at(j@, "vocab"@)->Array_0 =~= views(ps@));
            kept(ps)
        },
        _ => true,
    }
}

/// The text of a precompiled character table stands for one.
pub open spec fn packs(s: Seq<char>) -> bool {
    decoded(s) matches Some(b) && is_table(b)
}

fn is_packed(s: &str) -> (r: bool)
    ensures
        r == packs(s@),
{
    match decode(&to_chars(s)) {
        Some(b) => table(&b),
        None => false,
    }
}

/// A normalizer that can rewrite the added tokens: what it replaces, prepends
/// or looks up cannot fail.
pub open spec fn settles(v: JsonView) -> bool {
    &&& has_field(v, "pattern"@) ==> replaces(v)
    &&& has_field(v, "prepend"@) ==> (at(v, "prepend"@) matches JsonView::Str(s) && s.len() > 0)
    &&& has_field(v, "precompiled_charsmap"@) ==> (at(
        v,
        "precompiled_charsmap"@,
    ) matches JsonView::Str(s) && maps(s))
}

fn is_settling(j: &Json) -> (r: bool)
    ensures
        r == settles(j@),
{
    if j.get("pattern").is_some() && !is_replacing(j) {
        return false;
    }
    if j.get("prepend").is_some() {
        let some = match j.text_at("prepend") {
            Some(s) => s.as_str().unicode_len() > 0,
            None => false,
        };
        if !some {
            return false;
        }
    }
    if j.get("precompiled_charsmap").is_some() {
        let some = match j.text_at("precompiled_charsmap") {
            Some(s) => is_mapping(s.as_str()),
            None => false,
        };
        if !some {
            return false;
        }
    }
    true
}

/// A normalizer that can be read: no list, a character table that is one, and
/// where it rewrites added tokens (`used`) nothing that can fail; in a sequence
/// every one of its parts.
pub open spec fn normalizer_reads(v: JsonView, used: bool, depth: nat) -> bool
    decreases depth,
{
    &&& !(v is Array)
    &&& is_a(v, "Precompiled"@) ==> (at(v, "precompiled_charsmap"@) matches JsonView::Str(s)
        && packs(s))
    &&& used ==> settles(v)
    &&& (at(v, "normalizers"@) matches JsonView::Array(ps) ==> depth > 0 && forall|i: int|
        0 <= i < ps.len() ==> normalizer_reads(#[trigger] ps[i], used, (depth - 1) as nat))
}

/// Whether a normalizer can be read.
#[verifier::loop_isolation(false)]
pub fn readable_normalizer(j: &Json, used: bool, depth: u8) -> (r: bool)
    ensures
        r == normalizer_reads(j@, used, depth as nat),
    decreases depth,
{
    if let Json::Array(_) = j {
        return false;
    }
    if is_type(j, "Precompiled") {
        let some = match j.text_at("precompiled_charsmap") {
            Some(s) => is_packed(s.as_str()),
            None => false,
        };
        if !some {
            return false;
        }
    }
    if used && !is_settling(j) {
        return false;
    }
    match j.list_at("normalizers") {
        Some(ps) => {
            if depth == 0 {
                return false;
            }
            let ghost vs = views(ps@);
            let mut i: usize = 0;
            while i < ps.len()
                invariant
                    0 <= i <= ps@.len(),
                    vs == views(ps@),
                    depth > 0,
                    forall|k: int|
                        0 <= k < i ==> normalizer_reads(
                            #[trigger] vs[k],
                            used,
                            (depth - 1) as nat,
                        ),
                decreases ps@.len() - i,
            {
                assert(vs[i as int] == ps@[i as int]@);
                if !readable_normalizer(&ps[i], used, depth - 1) {
                    assert(!normalizer_reads(vs[i as int], used, (depth - 1) as nat));
                    return false;
                }
                i += 1;
            }
            true
        },
        None => true,
    }
}

/// Every regular expression in a part of a tokenizer can be compiled.
pub open spec fn all_compile(v: JsonView, depth: nat) -> bool
    decreases depth,
{
    match v {
        JsonView::Array(xs) => depth > 0 && forall|i: int|
            0 <= i < xs.len() ==> all_compile(#[trigger] xs[i], (depth - 1) as nat),
        JsonView::Object(es) => depth > 0 && forall|i: int|
            0 <= i < es.len() ==> entry_compiles(#[trigger] es[i]) && all_compile(
                es[i].1,
                (depth - 1) as nat,
            ),
        _ => true,
    }
}

/// An entry is no regular expression, or one that can be compiled.
pub open spec fn entry_compiles(e: (Seq<char>, JsonView)) -> bool {
    e.0 == "Regex"@ ==> (e.1 matches JsonView::Str(s) ==> compiles(s))
}

fn compiling(key: &str, j: &Json) -> (r: bool)
    ensures
        r == entry_compiles((key@, j@)),
{
    if !same(key, "Regex") {
        return true;
    }
    match j {
        Json::Str(s) => compilable(&to_chars(s.as_str())),
        _ => true,
    }
}

/// Whether every regular expression in a part of a tokenizer can be compiled.
#[verifier::loop_isolation(false)]
pub fn compilable_part(j: &Json, depth: u8) -> (r: bool)
    ensures
        r == all_compile(j@, depth as nat),
    decreases depth,
{
    match j {
        Json::Array(xs) => {
            if depth == 0 {
                return false;
            }
            let ghost vs = views(xs@);
            assert(j@->Array_0 =~= vs);
            let mut i: usize = 0;
            while i < xs.len()
                invariant
                    0 <= i <= xs@.len(),
                    forall|k: int| 0 <= k < i ==> all_compile(#[trigger] vs[k], (depth - 1) as nat),
                decreases xs@.len() - i,
            {
                assert(vs[i as int] == xs@[i as int]@);
                if !compilable_part(&xs[i], depth - 1) {
                    assert(!all_compile(vs[i as int], (depth - 1) as nat));
                    return false;
                }
                i += 1;
            }
            true
        },
        Json::Object(es) => {
            if depth == 0 {
                return false;
            }
            let ghost vs = es@.map_values(|e: (String, Json)| (e.0@, e.1@));
            assert(j@->Object_0 =~= vs);
            let mut i: usize = 0;
            while i < es.len()
                invariant
                    0 <= i <= es@.len(),
                    forall|k: int|
                        0 <= k < i ==> entry_compiles(#[trigger] vs[k]) && all_compile(
                            vs[k].1,
                            (depth - 1) as nat,
                        ),
                decreases es@.len() - i,
            {
                let (key, x) = &es[i];
                assert(vs[i as int] == (key@, x@));
                if !compiling(key.as_str(), x) || !compilable_part(x, depth - 1) {
                    assert(!(entry_compiles(vs[i as int]) && all_compile(
                        vs[i as int].1,
                        (depth - 1) as nat,
                    )));
                    return false;
                }
                i += 1;
            }
            true
        },
        _ => true,
    }
}

/// The part of a tokenizer under a key can be compiled.
pub open spec fn part_compiles(v: JsonView, key: Seq<char>) -> bool {
    all_compile(at(v, key), DEEPEST as nat)
}

fn compilable_at(j: &Json, key: &str) -> (r: bool)
    ensures
        r == part_compiles(j@, key@),
{
    match j.get(key) {
        Some(p) => compilable_part(p, DEEPEST),
        None => true,
    }
}

/// Some added token is normalized.
pub open spec fn normalizes(v: JsonView) -> bool {
    at(v, "added_tokens"@) matches JsonView::Array(ts) && any_flag(ts, "normalized"@)
}

/// The value of a `tokenizer.json` that a tokenizer can be made of without a
/// panic: its regular expressions can be compiled, and its normalizer and its
/// model read.
pub open spec fn value_reads(v: JsonView) -> bool {
    &&& part_compiles(v, "normalizer"@)
    &&& part_compiles(v, "pre_tokenizer"@)
    &&& part_compiles(v, "decoder"@)
    &&& normalizer_reads(at(v, "normalizer"@), normalizes(v), DEEPEST as nat)
    &&& model_reads(at(v, "model"@))
}

/// Whether a tokenizer can be made of a value without a panic.
pub fn readable_value(j: &Json) -> (r: bool)
    ensures
        r == value_reads(j@),
{
    if !compilable_at(j, "normalizer") || !compilable_at(j, "pre_tokenizer") || !compilable_at(
        j,
        "decoder",
    ) {
        return false;
    }
    let used = match j.list_at("added_tokens") {
        Some(ts) => has_flag(ts, "normalized"),
        None => false,
    };
    let normalizer = match j.get("normalizer") {
        Some(n) => readable_normalizer(n, used, DEEPEST),
        None => {
            assert(at(j@, "normalizer"@) is Null);
            true
        },
    };
    let model = match j.get("model") {
        Some(m) => readable_model(m),
        None => true,
    };
    normalizer && model
}

/// The bytes of a `tokenizer.json` that a tokenizer can be made of, or refused,
/// without a panic: JSON that names no part twice and whose value can be read.
pub open spec fn can_read(bytes: Seq<u8>) -> bool {
    parsed(bytes) matches Some(v) && parts_once(bytes) && value_reads(v)
}

} // verus!

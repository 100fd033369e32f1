//! What a tokenizer is made of, and whether it can be asked to encode any
//! text: some settings make `Tokenizer::encode` panic.

use vstd::prelude::*;
use vstd::string::StringExecFns;

use tokenizers::models::ModelWrapper;
use tokenizers::{PaddingStrategy, Tokenizer};

use crate::charsmap::{decode, decoded, is_sound, sound};
use crate::json::{
    as_unsigned, at, from_value, is_blank, is_blank_line, views, Json, JsonView,
};
use crate::patterns::{never_empty, nonempty_pattern, plainly, runs_plainly};
use crate::text::{same, to_chars};

verus! {

#[verifier::external_type_specification]
#[verifier::external_body]
pub struct ExTokenizer(Tokenizer);

/// A value that may be missing, as its view.
pub open spec fn maybe(r: Option<Json>) -> Option<JsonView> {
    match r {
        Some(j) => Some(j@),
        None => None,
    }
}

/// The normalizer of a tokenizer as its JSON.
pub uninterp spec fn normalizer_of(t: Tokenizer) -> Option<JsonView>;

/// `Tokenizer::get_normalizer`, as the JSON that `serde_json::to_value` makes
/// of it: null where that fails.
#[verifier::external_body]
fn normalizer(t: &Tokenizer) -> (r: Option<Json>)
    ensures
        maybe(r) == normalizer_of(*t),
{
    match t.get_normalizer() {
        Some(n) => Some(serde_json::to_value(n).map_or(Json::Null, from_value)),
        None => None,
    }
}

/// The pre-tokenizer of a tokenizer as its JSON.
pub uninterp spec fn pre_tokenizer_of(t: Tokenizer) -> Option<JsonView>;

/// `Tokenizer::get_pre_tokenizer`, as the JSON that `serde_json::to_value`
/// makes of it: null where that fails.
#[verifier::external_body]
fn pre_tokenizer(t: &Tokenizer) -> (r: Option<Json>)
    ensures
        maybe(r) == pre_tokenizer_of(*t),
{
    match t.get_pre_tokenizer() {
        Some(p) => Some(serde_json::to_value(p).map_or(Json::Null, from_value)),
        None => None,
    }
}

/// The pre-tokenizer of a tokenizer as its `Debug` text. It shows the regular
/// expressions in use, which the JSON leaves out.
pub uninterp spec fn pre_tokenizer_shown(t: Tokenizer) -> Seq<char>;

/// The `Debug` text of `Tokenizer::get_pre_tokenizer`.
#[verifier::external_body]
fn show_pre_tokenizer(t: &Tokenizer) -> (r: String)
    ensures
        r@ == pre_tokenizer_shown(*t),
{
    format!("{:?}", t.get_pre_tokenizer())
}

/// The post-processor of a tokenizer as its JSON.
pub uninterp spec fn post_processor_of(t: Tokenizer) -> Option<JsonView>;

/// `Tokenizer::get_post_processor`, as the JSON that `serde_json::to_value`
/// makes of it: null where that fails.
#[verifier::external_body]
fn post_processor(t: &Tokenizer) -> (r: Option<Json>)
    ensures
        maybe(r) == post_processor_of(*t),
{
    match t.get_post_processor() {
        Some(p) => Some(serde_json::to_value(p).map_or(Json::Null, from_value)),
        None => None,
    }
}

/// The added tokens of a tokenizer as their JSON, in the order of their ids.
pub uninterp spec fn added_of(t: Tokenizer) -> JsonView;

/// `Tokenizer::get_added_vocabulary`, as the JSON that `serde_json::to_value`
/// makes of it: null where that fails.
#[verifier::external_body]
fn added(t: &Tokenizer) -> (r: Json)
    ensures
        r@ == added_of(*t),
{
    serde_json::to_value(t.get_added_vocabulary()).map_or(Json::Null, from_value)
}

/// The texts that a tokenizer's added tokens are looked for by where they are
/// normalized, by their ids.
pub uninterp spec fn added_forms_of(t: Tokenizer) -> Map<u32, Seq<char>>;

/// `AddedVocabulary::simple_id_to_token` of a tokenizer's added tokens: the
/// normalized form of the token with the id, or its content where it has none;
/// nothing for an id of no added token.
#[verifier::external_body]
fn added_form(t: &Tokenizer, id: u32) -> (r: Option<String>)
    ensures
        match r {
            Some(s) => added_forms_of(*t).contains_key(id) && added_forms_of(*t)[id] == s@,
            None => !added_forms_of(*t).contains_key(id),
        },
{
    t.get_added_vocabulary().simple_id_to_token(id)
}

/// The length a tokenizer cuts its encodings to and the stride of the pieces,
/// where it cuts them.
pub uninterp spec fn truncation_of(t: Tokenizer) -> Option<(usize, usize)>;

/// `Tokenizer::get_truncation`: the length and the stride, where encodings are
/// cut.
#[verifier::external_body]
fn truncation(t: &Tokenizer) -> (r: Option<(usize, usize)>)
    ensures
        r == truncation_of(*t),
{
    t.get_truncation().map(|p| (p.max_length, p.stride))
}

/// The length a tokenizer pads its encodings to, where it is fixed, and the
/// number that the length is made a multiple of.
pub uninterp spec fn padding_of(t: Tokenizer) -> Option<(Option<usize>, Option<usize>)>;

/// `Tokenizer::get_padding`: the fixed length and the multiple, where
/// encodings are padded.
#[verifier::external_body]
fn padding(t: &Tokenizer) -> (r: Option<(Option<usize>, Option<usize>)>)
    ensures
        r == padding_of(*t),
{
    match t.get_padding() {
        Some(p) => match p.strategy {
            PaddingStrategy::BatchLongest => Some((None, p.pad_to_multiple_of)),
            PaddingStrategy::Fixed(n) => Some((Some(n), p.pad_to_multiple_of)),
        },
        None => None,
    }
}

/// The bit pattern of the smoothing that a unigram model draws its pieces
/// with, where it draws them.
pub uninterp spec fn smoothing_of(t: Tokenizer) -> Option<u64>;

/// `Tokenizer::get_model`, and the `alpha` of a unigram model as its bit
/// pattern. Other models have none.
#[verifier::external_body]
fn smoothing(t: &Tokenizer) -> (r: Option<u64>)
    ensures
        r == smoothing_of(*t),
{
    match t.get_model() {
        ModelWrapper::BPE(_) => None,
        ModelWrapper::WordPiece(_) => None,
        ModelWrapper::WordLevel(_) => None,
        ModelWrapper::Unigram(u) => u.alpha.map(|a| a.to_bits()),
    }
}

/// The tokenizer can cut an encoding: pieces of its length and stride advance.
pub open spec fn can_cut(t: Tokenizer) -> bool {
    match truncation_of(t) {
        Some((length, stride)) => length == 0 || stride < length,
        None => true,
    }
}

/// Whether the tokenizer can cut an encoding.
pub fn cuts(t: &Tokenizer) -> (r: bool)
    ensures
        r == can_cut(*t),
{
    match truncation(t) {
        Some((length, stride)) => length == 0 || stride < length,
        None => true,
    }
}

/// The longest encoding that padding is trusted with.
pub const MOST_PADDED: usize = 67108864;

/// A length is missing or can be padded to.
pub open spec fn bounded(n: Option<usize>) -> bool {
    n matches Some(k) ==> k <= MOST_PADDED
}

/// The tokenizer can pad an encoding: the length is one that memory holds.
pub open spec fn can_pad(t: Tokenizer) -> bool {
    padding_of(t) matches Some((fixed, multiple)) ==> bounded(fixed) && bounded(multiple)
}

fn is_bounded(n: Option<usize>) -> (r: bool)
    ensures
        r == bounded(n),
{
    match n {
        Some(k) => k <= MOST_PADDED,
        None => true,
    }
}

/// Whether the tokenizer can pad an encoding.
pub fn pads(t: &Tokenizer) -> (r: bool)
    ensures
        r == can_pad(*t),
{
    match padding(t) {
        Some((fixed, multiple)) => is_bounded(fixed) && is_bounded(multiple),
        None => true,
    }
}

/// A part of the given type.
pub open spec fn is_a(v: JsonView, name: Seq<char>) -> bool {
    at(v, "type"@) == JsonView::Str(name)
}

pub(crate) fn is_type(j: &Json, name: &str) -> (r: bool)
    ensures
        r == is_a(j@, name@),
{
    match j.text_at("type") {
        Some(s) => same(s.as_str(), name),
        None => false,
    }
}

/// How deep sequences of parts may be nested.
pub const DEEPEST: u8 = 128;

/// A pre-tokenizer that can split any text: a known one, no fixed length of
/// zero, and in a sequence every one of its parts.
pub open spec fn splits_any(v: JsonView, depth: nat) -> bool
    decreases depth,
{
    ||| is_a(v, "BertPreTokenizer"@)
    ||| is_a(v, "ByteLevel"@)
    ||| is_a(v, "CharDelimiterSplit"@)
    ||| is_a(v, "Metaspace"@)
    ||| is_a(v, "Whitespace"@)
    ||| is_a(v, "WhitespaceSplit"@)
    ||| is_a(v, "Split"@)
    ||| is_a(v, "Punctuation"@)
    ||| is_a(v, "Digits"@)
    ||| is_a(v, "UnicodeScripts"@)
    ||| is_a(v, "FixedLength"@) && (as_unsigned(at(v, "length"@)) matches Some(n) && n > 0)
    ||| is_a(v, "Sequence"@) && depth > 0 && (at(v, "pretokenizers"@) matches JsonView::Array(ps)
        && forall|i: int|
        0 <= i < ps.len() ==> splits_any(#[trigger] ps[i], (depth - 1) as nat))
}

/// Whether the pre-tokenizer can split any text.
#[verifier::loop_isolation(false)]
pub fn splits(j: &Json, depth: u8) -> (r: bool)
    ensures
        r == splits_any(j@, depth as nat),
    decreases depth,
{
    if is_type(j, "BertPreTokenizer") || is_type(j, "ByteLevel") || is_type(j, "CharDelimiterSplit")
        || is_type(j, "Metaspace") || is_type(j, "Whitespace") || is_type(j, "WhitespaceSplit")
        || is_type(j, "Split") || is_type(j, "Punctuation") || is_type(j, "Digits") || is_type(
        j,
        "UnicodeScripts",
    ) {
        return true;
    }
    if is_type(j, "FixedLength") {
        let sized = match j.unsigned_at("length") {
            Some(n) => n > 0,
            None => false,
        };
        if sized {
            return true;
        }
    }
    if !is_type(j, "Sequence") || depth == 0 {
        return false;
    }
    match j.list_at("pretokenizers") {
        Some(ps) => {
            let ghost vs = views(ps@);
            let mut i: usize = 0;
            while i < ps.len()
                invariant
                    0 <= i <= ps@.len(),
                    vs == views(ps@),
                    depth > 0,
                    forall|k: int|
                        0 <= k < i ==> splits_any(#[trigger] vs[k], (depth - 1) as nat),
                decreases ps@.len() - i,
            {
                assert(vs[i as int] == ps@[i as int]@);
                if !splits(&ps[i], depth - 1) {
                    assert(!splits_any(vs[i as int], (depth - 1) as nat));
                    return false;
                }
                i += 1;
            }
            true
        },
        None => false,
    }
}

/// A replacement whose search and insertions cannot fail: a text that is not
/// empty, or a plain regular expression, which matches no empty text where
/// something is put in a match's place.
pub open spec fn replaces(v: JsonView) -> bool {
    let p = at(v, "pattern"@);
    ||| (at(p, "String"@) matches JsonView::Str(s) && s.len() > 0)
    ||| (at(p, "Regex"@) matches JsonView::Str(s) && runs_plainly(s) && (never_empty(s) || at(
        v,
        "content"@,
    ) == JsonView::Str(Seq::empty())))
}

pub(crate) fn is_replacing(j: &Json) -> (r: bool)
    ensures
        r == replaces(j@),
{
    let p = match j.get("pattern") {
        Some(p) => p,
        None => {
            return false;
        },
    };
    let plain = match p.text_at("String") {
        Some(s) => s.as_str().unicode_len() > 0,
        None => false,
    };
    if plain {
        return true;
    }
    let nothing = match j.text_at("content") {
        Some(s) => {
            assert(s@.len() == 0 ==> s@ =~= Seq::<char>::empty());
            s.as_str().unicode_len() == 0
        },
        None => false,
    };
    match p.text_at("Regex") {
        Some(s) => {
            let chars = to_chars(s.as_str());
            plainly(&chars) && (nothing || nonempty_pattern(&chars))
        },
        None => false,
    }
}

/// The text of a precompiled character table stands for a sound one.
pub open spec fn maps(s: Seq<char>) -> bool {
    decoded(s) matches Some(b) && is_sound(b)
}

pub(crate) fn is_mapping(s: &str) -> (r: bool)
    ensures
        r == maps(s@),
{
    match decode(&to_chars(s)) {
        Some(b) => sound(&b),
        None => false,
    }
}

/// A normalizer that can rewrite any text: a known one, a replacement that
/// cannot fail, a text to prepend that is not empty, a sound character table,
/// and in a sequence every one of its parts.
pub open spec fn rewrites_any(v: JsonView, depth: nat) -> bool
    decreases depth,
{
    ||| is_a(v, "BertNormalizer"@)
    ||| is_a(v, "Strip"@)
    ||| is_a(v, "StripAccents"@)
    ||| is_a(v, "NFC"@)
    ||| is_a(v, "NFD"@)
    ||| is_a(v, "NFKC"@)
    ||| is_a(v, "NFKD"@)
    ||| is_a(v, "Lowercase"@)
    ||| is_a(v, "Nmt"@)
    ||| is_a(v, "ByteLevel"@)
    ||| is_a(v, "Prepend"@) && (at(v, "prepend"@) matches JsonView::Str(s) && s.len() > 0)
    ||| is_a(v, "Replace"@) && replaces(v)
    ||| is_a(v, "Precompiled"@) && (at(v, "precompiled_charsmap"@) matches JsonView::Str(s)
        && maps(s))
    ||| is_a(v, "Sequence"@) && depth > 0 && (at(v, "normalizers"@) matches JsonView::Array(ps)
        && forall|i: int|
        0 <= i < ps.len() ==> rewrites_any(#[trigger] ps[i], (depth - 1) as nat))
}

/// Whether the normalizer can rewrite any text.
#[verifier::loop_isolation(false)]
pub fn rewrites(j: &Json, depth: u8) -> (r: bool)
    ensures
        r == rewrites_any(j@, depth as nat),
    decreases depth,
{
    if is_type(j, "BertNormalizer") || is_type(j, "Strip") || is_type(j, "StripAccents") || is_type(
        j,
        "NFC",
    ) || is_type(j, "NFD") || is_type(j, "NFKC") || is_type(j, "NFKD") || is_type(j, "Lowercase")
        || is_type(j, "Nmt") || is_type(j, "ByteLevel") {
        return true;
    }
    if is_type(j, "Prepend") {
        let some = match j.text_at("prepend") {
            Some(s) => s.as_str().unicode_len() > 0,
            None => false,
        };
        if some {
            return true;
        }
    }
    if is_type(j, "Replace") && is_replacing(j) {
        return true;
    }
    if is_type(j, "Precompiled") {
        let some = match j.text_at("precompiled_charsmap") {
            Some(s) => is_mapping(s.as_str()),
            None => false,
        };
        if some {
            return true;
        }
    }
    if !is_type(j, "Sequence") || depth == 0 {
        return false;
    }
    match j.list_at("normalizers") {
        Some(ps) => {
            let ghost vs = views(ps@);
            let mut i: usize = 0;
            while i < ps.len()
                invariant
                    0 <= i <= ps@.len(),
                    vs == views(ps@),
                    depth > 0,
                    forall|k: int|
                        0 <= k < i ==> rewrites_any(#[trigger] vs[k], (depth - 1) as nat),
                decreases ps@.len() - i,
            {
                assert(vs[i as int] == ps@[i as int]@);
                if !rewrites(&ps[i], depth - 1) {
                    assert(!rewrites_any(vs[i as int], (depth - 1) as nat));
                    return false;
                }
                i += 1;
            }
            true
        },
        None => false,
    }
}

/// A piece of a template asks for a second text.
pub open spec fn wants_second(piece: JsonView) -> bool {
    at(at(piece, "Sequence"@), "id"@) == JsonView::Str("B"@)
}

/// A template for one text that asks for no second one.
pub open spec fn fills_single(v: JsonView) -> bool {
    at(v, "single"@) matches JsonView::Array(ps) && forall|i: int|
        0 <= i < ps.len() ==> !wants_second(#[trigger] ps[i])
}

#[verifier::loop_isolation(false)]
fn is_single(j: &Json) -> (r: bool)
    ensures
        r == fills_single(j@),
{
    match j.list_at("single") {
        Some(ps) => {
            let ghost vs = views(ps@);
            let mut i: usize = 0;
            while i < ps.len()
                invariant
                    0 <= i <= ps@.len(),
                    vs == views(ps@),
                    forall|k: int| 0 <= k < i ==> !wants_second(#[trigger] vs[k]),
                decreases ps@.len() - i,
            {
                assert(vs[i as int] == ps@[i as int]@);
                let second = match ps[i].get("Sequence") {
                    Some(s) => match s.text_at("id") {
                        Some(id) => same(id.as_str(), "B"),
                        None => false,
                    },
                    None => false,
                };
                if second {
                    assert(wants_second(vs[i as int]));
                    return false;
                }
                i += 1;
            }
            true
        },
        None => false,
    }
}

/// A post-processor that leaves one encoding one encoding, in a sequence every
/// one of its parts.
pub open spec fn keeps_count(v: JsonView, depth: nat) -> bool
    decreases depth, 0int,
{
    ||| is_a(v, "BertProcessing"@)
    ||| is_a(v, "RobertaProcessing"@)
    ||| is_a(v, "ByteLevel"@)
    ||| is_a(v, "Sequence"@) && depth > 0 && (at(v, "processors"@) matches JsonView::Array(ps)
        && all_keep(ps, (depth - 1) as nat))
}

/// Every one of the post-processors leaves one encoding one encoding.
pub open spec fn all_keep(ps: Seq<JsonView>, depth: nat) -> bool
    decreases depth, 1int,
{
    forall|i: int| 0 <= i < ps.len() ==> keeps_count(#[trigger] ps[i], depth)
}

#[verifier::loop_isolation(false)]
fn is_keeping(j: &Json, depth: u8) -> (r: bool)
    ensures
        r == keeps_count(j@, depth as nat),
    decreases depth,
{
    if is_type(j, "BertProcessing") || is_type(j, "RobertaProcessing") || is_type(j, "ByteLevel") {
        return true;
    }
    if !is_type(j, "Sequence") || depth == 0 {
        return false;
    }
    match j.list_at("processors") {
        Some(ps) => {
            let ghost vs = views(ps@);
            let mut i: usize = 0;
            while i < ps.len()
                invariant
                    0 <= i <= ps@.len(),
                    forall|k: int| 0 <= k < i ==> keeps_count(#[trigger] vs[k], (depth - 1) as nat),
                decreases ps@.len() - i,
            {
                assert(vs[i as int] == ps@[i as int]@);
                if !is_keeping(&ps[i], depth - 1) {
                    assert(!keeps_count(vs[i as int], (depth - 1) as nat));
                    assert(!all_keep(vs, (depth - 1) as nat));
                    return false;
                }
                i += 1;
            }
            assert(all_keep(vs, (depth - 1) as nat));
            true
        },
        None => false,
    }
}

/// At most one of the post-processors makes other than one encoding of one.
pub open spec fn one_template(ps: Seq<JsonView>, depth: nat) -> bool {
    forall|i: int, k: int|
        0 <= i < k < ps.len() ==> keeps_count(#[trigger] ps[i], depth) || keeps_count(
            #[trigger] ps[k],
            depth,
        )
}

/// A post-processor that can finish any encoding: one that keeps it one, a
/// template for one text, or a sequence of such with at most one template,
/// since a template may give any number of encodings and takes only one or two.
pub open spec fn finishes_any(v: JsonView, depth: nat) -> bool
    decreases depth, 0int,
{
    ||| keeps_count(v, depth)
    ||| is_a(v, "TemplateProcessing"@) && fills_single(v)
    ||| is_a(v, "Sequence"@) && depth > 0 && (at(v, "processors"@) matches JsonView::Array(ps)
        && all_finish(ps, (depth - 1) as nat) && one_template(ps, (depth - 1) as nat))
}

/// Every one of the post-processors can finish any encoding.
pub open spec fn all_finish(ps: Seq<JsonView>, depth: nat) -> bool
    decreases depth, 1int,
{
    forall|i: int| 0 <= i < ps.len() ==> finishes_any(#[trigger] ps[i], depth)
}

/// Whether the post-processor can finish any encoding.
#[verifier::loop_isolation(false)]
pub fn finishes(j: &Json, depth: u8) -> (r: bool)
    ensures
        r == finishes_any(j@, depth as nat),
    decreases depth,
{
    if is_keeping(j, depth) || (is_type(j, "TemplateProcessing") && is_single(j)) {
        return true;
    }
    if !is_type(j, "Sequence") || depth == 0 {
        return false;
    }
    match j.list_at("processors") {
        Some(ps) => {
            let ghost vs = views(ps@);
            let ghost d = (depth - 1) as nat;
            let mut template: Option<usize> = None;
            let mut i: usize = 0;
            while i < ps.len()
                invariant
                    0 <= i <= ps@.len(),
                    forall|k: int| 0 <= k < i ==> finishes_any(#[trigger] vs[k], d),
                    match template {
                        Some(n) => n < i && !keeps_count(vs[n as int], d) && forall|k: int|
                            0 <= k < i && k != n ==> keeps_count(#[trigger] vs[k], d),
                        None => forall|k: int| 0 <= k < i ==> keeps_count(#[trigger] vs[k], d),
                    },
                decreases ps@.len() - i,
            {
                assert(vs[i as int] == ps@[i as int]@);
                if !finishes(&ps[i], depth - 1) {
                    assert(!finishes_any(vs[i as int], d));
                    assert(!all_finish(vs, d));
                    return false;
                }
                if !is_keeping(&ps[i], depth - 1) {
                    match template {
                        Some(n) => {
                            assert(!keeps_count(vs[n as int], d) && !keeps_count(vs[i as int], d));
                            assert(!one_template(vs, d));
                            return false;
                        },
                        None => {
                            template = Some(i);
                        },
                    }
                }
                i += 1;
            }
            assert(all_finish(vs, d));
            assert(one_template(vs, d));
            true
        },
        None => false,
    }
}

/// Some added token has the flag set.
pub open spec fn any_flag(ts: Seq<JsonView>, key: Seq<char>) -> bool {
    exists|i: int| 0 <= i < ts.len() && at(#[trigger] ts[i], key) == JsonView::Bool(true)
}

pub(crate) fn has_flag(ts: &Vec<Json>, key: &str) -> (r: bool)
    ensures
        r == any_flag(views(ts@), key@),
{
    let ghost vs = views(ts@);
    let mut i: usize = 0;
    while i < ts.len()
        invariant
            0 <= i <= ts@.len(),
            vs == views(ts@),
            forall|k: int| 0 <= k < i ==> at(#[trigger] vs[k], key@) != JsonView::Bool(true),
        decreases ts@.len() - i,
    {
        assert(vs[i as int] == ts@[i as int]@);
        if ts[i].flag_at(key) == Some(true) {
            assert(at(vs[i as int], key@) == JsonView::Bool(true));
            return true;
        }
        i += 1;
    }
    false
}

/// The text that an added token is looked for by: its normalized form, or its
/// content.
pub open spec fn form(v: JsonView, forms: Map<u32, Seq<char>>) -> Seq<char> {
    match (at(v, "normalized"@), at(v, "id"@), at(v, "content"@)) {
        (JsonView::Bool(true), JsonView::Uint(id), _) => if id <= u32::MAX && forms.contains_key(
            id as u32,
        ) {
            forms[id as u32]
        } else {
            Seq::empty()
        },
        (JsonView::Bool(true), _, _) => Seq::empty(),
        (_, _, JsonView::Str(s)) => s,
        _ => Seq::empty(),
    }
}

fn form_of(j: &Json, t: &Tokenizer) -> (r: String)
    ensures
        r@ == form(j@, added_forms_of(*t)),
{
    if j.flag_at("normalized") != Some(true) {
        return match j.text_at("content") {
            Some(s) => s.clone(),
            None => String::new(),
        };
    }
    match j.unsigned_at("id") {
        Some(id) => if id <= u32::MAX as u64 {
            match added_form(t, id as u32) {
                Some(s) => s,
                None => String::new(),
            }
        } else {
            String::new()
        },
        None => String::new(),
    }
}

/// An added token can be found in any text: there is something to look for,
/// and where tokens take the white space on their right (`right`), one that
/// takes it on its left is more than white space, so that no two want the
/// same.
pub open spec fn found_anywhere(v: JsonView, forms: Map<u32, Seq<char>>, right: bool) -> bool {
    &&& form(v, forms).len() > 0
    &&& right && at(v, "lstrip"@) == JsonView::Bool(true) ==> !is_blank_line(form(v, forms))
}

fn findable(j: &Json, t: &Tokenizer, right: bool) -> (r: bool)
    ensures
        r == found_anywhere(j@, added_forms_of(*t), right),
{
    let text = form_of(j, t);
    if text.as_str().unicode_len() == 0 {
        return false;
    }
    !(right && j.flag_at("lstrip") == Some(true) && is_blank(text.as_str()))
}

/// The added tokens can be found in any text.
pub open spec fn can_find(t: Tokenizer) -> bool {
    added_of(t) matches JsonView::Array(ts) && all_found(
        ts,
        added_forms_of(t),
        any_flag(ts, "rstrip"@),
    )
}

/// Every one of the added tokens can be found in any text.
pub open spec fn all_found(ts: Seq<JsonView>, forms: Map<u32, Seq<char>>, right: bool) -> bool {
    forall|i: int| 0 <= i < ts.len() ==> found_anywhere(#[trigger] ts[i], forms, right)
}

/// Whether the added tokens can be found in any text.
pub fn finds(t: &Tokenizer) -> (r: bool)
    ensures
        r == can_find(*t),
{
    match &added(t) {
        Json::Array(ts) => {
            let ghost vs = views(ts@);
            assert(added_of(*t)->Array_0 =~= vs);
            let right = has_flag(ts, "rstrip");
            let mut i: usize = 0;
            while i < ts.len()
                invariant
                    0 <= i <= ts@.len(),
                    vs == views(ts@),
                    added_of(*t) == JsonView::Array(vs),
                    right == any_flag(vs, "rstrip"@),
                    forall|k: int|
                        0 <= k < i ==> found_anywhere(#[trigger] vs[k], added_forms_of(*t), right),
                decreases ts@.len() - i,
            {
                assert(vs[i as int] == ts@[i as int]@);
                if !findable(&ts[i], t, right) {
                    assert(!found_anywhere(vs[i as int], added_forms_of(*t), right));
                    assert(!all_found(vs, added_forms_of(*t), right));
                    return false;
                }
                i += 1;
            }
            true
        },
        _ => false,
    }
}

/// The tokenizer can be asked to encode any text: it can cut and pad an
/// encoding, its added tokens can be found, its normalizer can rewrite, its
/// pre-tokenizer split and its post-processor finish whatever it is given, its
/// regular expressions are plain, and its model does not draw pieces at random.
pub open spec fn can_encode(t: Tokenizer) -> bool {
    &&& can_cut(t)
    &&& can_pad(t)
    &&& smoothing_of(t) is None
    &&& can_find(t)
    &&& normalizer_of(t) matches Some(v) ==> rewrites_any(v, DEEPEST as nat)
    &&& pre_tokenizer_of(t) matches Some(v) ==> splits_any(v, DEEPEST as nat)
    &&& runs_plainly(pre_tokenizer_shown(t))
    &&& post_processor_of(t) matches Some(v) ==> finishes_any(v, DEEPEST as nat)
}

/// Whether the tokenizer can be asked to encode any text.
pub fn encodes(t: &Tokenizer) -> (r: bool)
    ensures
        r == can_encode(*t),
{
    if !cuts(t) || !pads(t) || smoothing(t).is_some() || !finds(t) {
        return false;
    }
    let rewritten = match normalizer(t) {
        Some(j) => rewrites(&j, DEEPEST),
        None => true,
    };
    let split = match pre_tokenizer(t) {
        Some(j) => splits(&j, DEEPEST),
        None => true,
    };
    let finished = match post_processor(t) {
        Some(j) => finishes(&j, DEEPEST),
        None => true,
    };
    rewritten && split && finished && plainly(&to_chars(show_pre_tokenizer(t).as_str()))
}

} // verus!

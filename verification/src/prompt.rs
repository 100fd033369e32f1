//! The decision-head encoder's prompt, token for token.
//!
//! ```text
//! [CLS] <type> question: <instructions> [SEP] [MASK] opt0 [MASK] opt1 … [SEP] <state> [SEP]
//! ```
//!
//! Every option is the mask and at most 48 tokens of its text; the options and
//! the instructions share the head's budget (options first: when fewer than 16
//! tokens are left for the instructions, options are cut to an equal share),
//! and the state gets what remains.

use vstd::prelude::*;
use vstd::string::StringExecFns;

use crate::api::{Question, QuestionView, Request};
use crate::bert::Sequence;
use crate::error::LoadError;
use crate::json::{Json, JsonView};
use crate::laya::{qtype_name, qtype_text, LayaConfig};
use crate::map::{
    criteria_entries, criteria_of, criterion, find, opt_json, question_entries, questions_of,
};
use crate::pyjson::{py_json, py_value};
use crate::text::{concat2, concat3, decimal, push_decimal, quote, quoted, replace_all, replaced, texts};
use crate::tokenize::Tokenize;

verus! {

/// A criterion as text: strings pass through, anything structured becomes
/// JSON.
pub open spec fn criterion_text(v: JsonView) -> Seq<char> {
    match v {
        JsonView::Str(s) => s,
        _ => py_value(v, false),
    }
}

/// No description: none at all, null or an empty text.
pub open spec fn blank(v: Option<JsonView>) -> bool {
    match v {
        None => true,
        Some(JsonView::Null) => true,
        Some(JsonView::Str(s)) => s.len() == 0,
        _ => false,
    }
}

/// A criterion of a yes/no question, under its key.
pub open spec fn truth_criterion(
    criteria: Option<Seq<(Seq<char>, Option<JsonView>)>>,
    key: Seq<char>,
) -> Option<JsonView> {
    match criteria {
        None => None,
        Some(c) => match find(c, key) {
            Some(v) => v,
            None => None,
        },
    }
}

/// A side of a yes/no question: its criterion, or what it says without one.
pub open spec fn truth_option(
    criteria: Option<Seq<(Seq<char>, Option<JsonView>)>>,
    key: Seq<char>,
    default: Seq<char>,
) -> Seq<char> {
    let v = truth_criterion(criteria, key);
    key + ": "@ + (if blank(v) {
        default
    } else {
        criterion_text(v->0)
    })
}

/// An option of a choice: its key, and its description where it has one.
pub open spec fn choice_option(e: (Seq<char>, Option<JsonView>)) -> Seq<char> {
    if blank(e.1) {
        e.0
    } else {
        e.0 + ": "@ + criterion_text(e.1->0)
    }
}

/// The option texts, in label order; a yes/no question lists `false` first.
pub open spec fn option_texts(q: QuestionView) -> Seq<Seq<char>> {
    match q {
        QuestionView::Choice { instructions, criteria } => criteria.map_values(
            |e: (Seq<char>, Option<JsonView>)| choice_option(e),
        ),
        QuestionView::Score { instructions, criteria } => Seq::new(
            criteria.len(),
            |i: int| "level "@ + decimal(i as nat) + ": "@ + criterion_text(criteria[i]),
        ),
        QuestionView::Noul { instructions, criteria } => seq![
            truth_option(criteria, "false"@, "no, the statement does not hold"@),
            truth_option(criteria, "true"@, "yes, the statement holds"@),
        ],
    }
}

/// The number of a question's type.
pub open spec fn qtype_of(q: QuestionView) -> usize {
    match q {
        QuestionView::Choice { instructions, criteria } => 0,
        QuestionView::Score { instructions, criteria } => 1,
        QuestionView::Noul { instructions, criteria } => 2,
    }
}

/// A question's instructions.
pub open spec fn instructions_of(q: QuestionView) -> Option<JsonView> {
    match q {
        QuestionView::Choice { instructions, criteria } => instructions,
        QuestionView::Score { instructions, criteria } => instructions,
        QuestionView::Noul { instructions, criteria } => instructions,
    }
}

/// The instructions as text: structured ones as ASCII JSON.
pub open spec fn instruction_text(q: QuestionView) -> Seq<char> {
    match instructions_of(q) {
        None => Seq::empty(),
        Some(JsonView::Str(s)) => s,
        Some(v) => py_value(v, true),
    }
}

fn render_criterion(v: &Json) -> (r: String)
    ensures
        r@ == criterion_text(v@),
{
    match v {
        Json::Str(s) => s.clone(),
        _ => py_json(v, false),
    }
}

fn is_blank(v: &Option<Json>) -> (r: bool)
    ensures
        r == blank(opt_json(*v)),
{
    match v {
        None => true,
        Some(Json::Null) => true,
        Some(Json::Str(s)) => s.as_str().unicode_len() == 0,
        _ => false,
    }
}

fn render_side(
    criteria: &Option<indexmap::IndexMap<String, Option<Json>>>,
    key: &str,
    default: &str,
) -> (r: String)
    ensures
        r@ == truth_option(
            match *criteria {
                Some(c) => Some(criteria_of(c)),
                None => None,
            },
            key@,
            default@,
        ),
{
    let text: String = match criteria {
        None => default.to_owned(),
        Some(c) => match criterion(c, key) {
            None => default.to_owned(),
            Some(v) => {
                if is_blank(v) {
                    default.to_owned()
                } else {
                    match v {
                        Some(j) => render_criterion(j),
                        None => default.to_owned(),
                    }
                }
            },
        },
    };
    concat3(key, ": ", text.as_str())
}

/// Option texts in label order. A yes/no question is always `false`, `true`.
pub fn render_options(q: &Question) -> (r: Vec<String>)
    ensures
        texts(r@) == option_texts(q@),
{
    let mut out: Vec<String> = Vec::new();
    match q {
        Question::Choice { instructions, criteria } => {
            let entries = criteria_entries(criteria);
            let ghost cv = criteria_of(*criteria);
            let mut i: usize = 0;
            while i < entries.len()
                invariant
                    0 <= i <= entries@.len(),
                    cv == criteria_of(*criteria),
                    entries@.len() == cv.len(),
                    forall|j: int|
                        #![trigger entries@[j]]
                        0 <= j < entries@.len() ==> entries@[j].0@ == cv[j].0 && opt_json(
                            *entries@[j].1,
                        ) == cv[j].1,
                    out@.len() == i,
                    forall|j: int| 0 <= j < i ==> (#[trigger] out@[j])@ == choice_option(cv[j]),
                decreases entries@.len() - i,
            {
                let (k, v) = entries[i];
                let text: String = if is_blank(v) {
                    k.clone()
                } else {
                    match v {
                        Some(j) => concat3(k.as_str(), ": ", render_criterion(j).as_str()),
                        None => k.clone(),
                    }
                };
                out.push(text);
                i += 1;
            }
            assert(texts(out@) =~= option_texts(q@));
        },
        Question::Score { instructions, criteria } => {
            let ghost cv = criteria@.map_values(|j: Json| j@);
            let mut i: usize = 0;
            while i < criteria.len()
                invariant
                    0 <= i <= criteria@.len(),
                    cv == criteria@.map_values(|j: Json| j@),
                    out@.len() == i,
                    forall|j: int|
                        0 <= j < i ==> (#[trigger] out@[j])@ == "level "@ + decimal(j as nat)
                            + ": "@ + criterion_text(cv[j]),
                decreases criteria@.len() - i,
            {
                let mut t: String = "level ".to_owned();
                push_decimal(&mut t, i as u64);
                t.append(": ");
                t.append(render_criterion(&criteria[i]).as_str());
                out.push(t);
                i += 1;
            }
            assert(texts(out@) =~= option_texts(q@));
        },
        Question::Noul { instructions, criteria } => {
            out.push(render_side(criteria, "false", "no, the statement does not hold"));
            out.push(render_side(criteria, "true", "yes, the statement holds"));
            assert(texts(out@) =~= option_texts(q@));
        },
    }
    out
}

/// 0 = choice, 1 = score, 2 = noul.
pub fn qtype(q: &Question) -> (r: usize)
    ensures
        r == qtype_of(q@),
        r < 3,
{
    match q {
        Question::Choice { instructions, criteria } => 0,
        Question::Score { instructions, criteria } => 1,
        Question::Noul { instructions, criteria } => 2,
    }
}

fn instructions(q: &Question) -> (r: String)
    ensures
        r@ == instruction_text(q@),
{
    let ins: &Option<Json> = match q {
        Question::Choice { instructions, criteria } => instructions,
        Question::Score { instructions, criteria } => instructions,
        Question::Noul { instructions, criteria } => instructions,
    };
    match ins {
        None => String::new(),
        Some(Json::Str(s)) => s.clone(),
        Some(v) => py_json(v, true),
    }
}

/// The state as text: a string as it is, anything else as JSON.
pub open spec fn state_of(state: JsonView) -> Seq<char> {
    match state {
        JsonView::Str(s) => s,
        _ => py_value(state, false),
    }
}

/// A string state is used as it is; anything else is JSON text.
pub fn serialize_state(state: &Json) -> (r: String)
    ensures
        r@ == state_of(state@),
{
    match state {
        Json::Str(s) => s.clone(),
        _ => py_json(state, false),
    }
}

/// A text with the mask's surface form replaced by a space, so that no text
/// can forge an option.
pub open spec fn unmasked(c: LayaConfig, s: Seq<char>) -> Seq<char> {
    replaced(s, c.mask_text@, " "@)
}

/// The tokens of the instructions, before they are cut.
pub open spec fn head_tokens<T: Tokenize>(tok: &T, c: LayaConfig, q: QuestionView) -> Seq<u32> {
    tok.ids(
        qtype_name(qtype_of(q) as int) + " question: "@ + unmasked(c, instruction_text(q)),
    )
}

/// At most the first `n` of the tokens.
pub open spec fn cut(s: Seq<u32>, n: int) -> Seq<u32> {
    if s.len() <= n {
        s
    } else {
        s.take(n)
    }
}

/// The tokens of an option: the mask, and at most 48 of its text's.
pub open spec fn option_tokens<T: Tokenize>(tok: &T, c: LayaConfig, text: Seq<char>) -> Seq<u32> {
    seq![c.mask] + cut(tok.ids(" "@ + unmasked(c, text)), 48)
}

/// The options in the order they are laid out.
pub open spec fn laid_out<T: Tokenize>(
    tok: &T,
    c: LayaConfig,
    q: QuestionView,
    order: Seq<usize>,
) -> Seq<Seq<u32>> {
    order.map_values(|i: usize| option_tokens(tok, c, option_texts(q)[i as int]))
}

/// The tokens of the first `n` options.
pub open spec fn tokens_upto(opts: Seq<Seq<u32>>, n: nat) -> nat
    decreases n,
{
    if n == 0 {
        0
    } else {
        tokens_upto(opts, (n - 1) as nat) + opts[n - 1].len()
    }
}

/// What an option is cut to when the options leave too little for the
/// instructions.
pub open spec fn share(head_max_len: nat, n: nat) -> nat {
    let room = if head_max_len < 16 {
        0nat
    } else {
        (head_max_len - 16) as nat
    };
    let per = room / (if n == 0 {
        1
    } else {
        n
    });
    if per < 4 {
        4
    } else {
        per
    }
}

/// The options after they are cut, if they are.
pub open spec fn cut_options(opts: Seq<Seq<u32>>, head_max_len: nat) -> Seq<Seq<u32>> {
    if head_max_len - tokens_upto(opts, opts.len()) < 16 {
        opts.map_values(|o: Seq<u32>| cut(o, share(head_max_len, opts.len()) as int))
    } else {
        opts
    }
}

/// How many tokens the instructions keep: what the options leave, and no
/// fewer than 8.
pub open spec fn head_budget(opts: Seq<Seq<u32>>, head_max_len: nat) -> int {
    let left = head_max_len - tokens_upto(opts, opts.len());
    if left < 8 {
        8
    } else {
        left
    }
}

/// The first `n` options, one after the other.
pub open spec fn joined(opts: Seq<Seq<u32>>, n: nat) -> Seq<u32>
    decreases n,
{
    if n == 0 {
        Seq::empty()
    } else {
        joined(opts, (n - 1) as nat) + opts[n - 1]
    }
}

/// The question-only prefix over the instructions' tokens and the options'.
pub open spec fn prefix_of(c: LayaConfig, head: Seq<u32>, opts: Seq<Seq<u32>>) -> Seq<u32> {
    let kept = cut_options(opts, c.head_max_len as nat);
    seq![c.cls] + cut(head, head_budget(kept, c.head_max_len as nat)) + seq![c.sep] + joined(
        kept,
        kept.len(),
    ) + seq![c.sep]
}

/// Where each option's mask stands in the prefix.
pub open spec fn prefix_markers(c: LayaConfig, head: Seq<u32>, opts: Seq<Seq<u32>>) -> Seq<nat> {
    let kept = cut_options(opts, c.head_max_len as nat);
    let start = 2 + cut(head, head_budget(kept, c.head_max_len as nat)).len();
    Seq::new(opts.len(), |i: int| start + tokens_upto(kept, i as nat))
}

/// The options of `n` in their natural order.
pub open spec fn natural(n: nat) -> Seq<usize> {
    Seq::new(n, |i: int| i as usize)
}

/// The order to lay the options out in.
pub open spec fn order_or_natural(order: Option<Seq<usize>>, n: nat) -> Seq<usize> {
    match order {
        Some(o) => o,
        None => natural(n),
    }
}

/// Every index is one of an option.
pub open spec fn indices_of(order: Seq<usize>, n: nat) -> bool {
    forall|i: int| 0 <= i < order.len() ==> (#[trigger] order[i]) < n
}

/// The view of an optional order.
pub open spec fn opt_order(order: Option<&Vec<usize>>) -> Option<Seq<usize>> {
    match order {
        Some(o) => Some(o@),
        None => None,
    }
}

/// Lists of tokens as sequences.
pub open spec fn token_lists(v: Seq<Vec<u32>>) -> Seq<Seq<u32>> {
    v.map_values(|o: Vec<u32>| o@)
}

/// Numbers as numbers.
pub open spec fn naturals(v: Seq<usize>) -> Seq<nat> {
    v.map_values(|n: usize| n as nat)
}

fn cut_vec(v: &Vec<u32>, n: usize) -> (r: Vec<u32>)
    ensures
        r@ == cut(v@, n as int),
{
    let mut out: Vec<u32> = Vec::new();
    let mut i: usize = 0;
    while i < v.len() && i < n
        invariant
            0 <= i <= v@.len(),
            i <= n,
            out@ == v@.take(i as int),
        decreases v@.len() - i,
    {
        out.push(v[i]);
        i += 1;
        assert(out@ =~= v@.take(i as int));
    }
    assert(out@ =~= cut(v@, n as int));
    out
}

fn natural_order(n: usize) -> (r: Vec<usize>)
    ensures
        r@ == natural(n as nat),
{
    let mut out: Vec<usize> = Vec::new();
    let mut i: usize = 0;
    while i < n
        invariant
            0 <= i <= n,
            out@ == natural(i as nat),
        decreases n - i,
    {
        out.push(i);
        i += 1;
        assert(out@ =~= natural(i as nat));
    }
    out
}

/// How many tokens the options hold.
fn count_tokens(opts: &Vec<Vec<u32>>) -> (r: u128)
    ensures
        r == tokens_upto(token_lists(opts@), opts@.len()),
{
    let ghost ov = token_lists(opts@);
    let len: usize = opts.len();
    let mut n: u128 = 0;
    let mut i: usize = 0;
    while i < opts.len()
        invariant
            0 <= i <= opts@.len(),
            len == opts@.len(),
            ov == token_lists(opts@),
            n == tokens_upto(ov, i as nat),
            n <= i * 0xffff_ffff_ffff_ffff,
        decreases opts@.len() - i,
    {
        let k: usize = opts[i].len();
        n += k as u128;
        i += 1;
    }
    n
}

proof fn same_options<T: Tokenize>(
    tok: &T,
    c: LayaConfig,
    q: QuestionView,
    order: Seq<usize>,
    opts: Seq<Vec<u32>>,
    n: nat,
)
    requires
        n == order.len(),
        opts.len() == n,
        forall|j: int|
            0 <= j < n ==> (#[trigger] opts[j])@ == option_tokens(
                tok,
                c,
                option_texts(q)[order[j] as int],
            ),
    ensures
        token_lists(opts) == laid_out(tok, c, q, order),
{
    assert(token_lists(opts) =~= laid_out(tok, c, q, order));
}

fn encode_options<T: Tokenize>(tok: &T, c: &LayaConfig, q: &Question, order: &Vec<usize>) -> (r: Vec<
    Vec<u32>,
>)
    requires
        indices_of(order@, option_texts(q@).len()),
    ensures
        token_lists(r@) == laid_out(tok, *c, q@, order@),
{
    let opts = render_options(q);
    let ghost ot = option_texts(q@);
    let mut out: Vec<Vec<u32>> = Vec::new();
    let mut i: usize = 0;
    while i < order.len()
        invariant
            0 <= i <= order@.len(),
            indices_of(order@, ot.len()),
            ot == option_texts(q@),
            texts(opts@) == ot,
            out@.len() == i,
            forall|j: int|
                0 <= j < i ==> (#[trigger] out@[j])@ == option_tokens(
                    tok,
                    *c,
                    ot[order@[j] as int],
                ),
        decreases order@.len() - i,
    {
        let k: usize = order[i];
        assert(texts(opts@)[k as int] == opts@[k as int]@);
        let text = replace_all(opts[k].as_str(), c.mask_text.as_str(), " ");
        let ids = tok.encode(concat2(" ", text.as_str()).as_str());
        let ids = cut_vec(&ids, 48);
        let mut v: Vec<u32> = Vec::new();
        v.push(c.mask);
        append_tokens(&mut v, &ids);
        assert(v@ =~= option_tokens(tok, *c, ot[k as int]));
        out.push(v);
        i += 1;
    }
    proof {
        same_options(tok, *c, q@, order@, out@, order@.len());
    }
    out
}

fn append_tokens(out: &mut Vec<u32>, v: &Vec<u32>)
    ensures
        final(out)@ == old(out)@ + v@,
{
    let ghost before = out@;
    let mut i: usize = 0;
    assert(out@ =~= before + v@.take(0));
    while i < v.len()
        invariant
            0 <= i <= v@.len(),
            out@ == before + v@.take(i as int),
        decreases v@.len() - i,
    {
        out.push(v[i]);
        i += 1;
        assert(out@ =~= before + v@.take(i as int));
    }
    assert(v@.take(i as int) =~= v@);
}

fn keep_options(opts: Vec<Vec<u32>>, head_max_len: usize) -> (r: Vec<Vec<u32>>)
    ensures
        token_lists(r@) == cut_options(token_lists(opts@), head_max_len as nat),
{
    let used: u128 = count_tokens(&opts);
    if head_max_len as u128 >= used && head_max_len as u128 - used >= 16 {
        return opts;
    }
    let n: usize = opts.len();
    let room: usize = if head_max_len < 16 {
        0
    } else {
        head_max_len - 16
    };
    let per: usize = room / (if n == 0 {
        1
    } else {
        n
    });
    let per: usize = if per < 4 {
        4
    } else {
        per
    };
    assert(per == share(head_max_len as nat, opts@.len()));
    let mut out: Vec<Vec<u32>> = Vec::new();
    let mut i: usize = 0;
    while i < opts.len()
        invariant
            0 <= i <= opts@.len(),
            out@.len() == i,
            forall|j: int| 0 <= j < i ==> (#[trigger] out@[j])@ == cut(opts@[j]@, per as int),
        decreases opts@.len() - i,
    {
        out.push(cut_vec(&opts[i], per));
        i += 1;
    }
    assert(token_lists(out@) =~= cut_options(token_lists(opts@), head_max_len as nat));
    out
}

/// Lays a prefix out, given the tokens of the instructions and of the options:
/// its ids, and where each option's mask stands.
pub fn lay_out(c: &LayaConfig, head: &Vec<u32>, opts: Vec<Vec<u32>>) -> (r: (Vec<u32>, Vec<usize>))
    ensures
        r.0@ == prefix_of(*c, head@, token_lists(opts@)),
        naturals(r.1@) == prefix_markers(*c, head@, token_lists(opts@)),
{
    let ghost given = token_lists(opts@);
    let kept = keep_options(opts, c.head_max_len);
    let ghost kv = token_lists(kept@);
    let used: u128 = count_tokens(&kept);
    let budget: usize = if c.head_max_len as u128 >= used && c.head_max_len as u128 - used >= 8 {
        (c.head_max_len as u128 - used) as usize
    } else {
        8
    };
    assert(budget == head_budget(kv, c.head_max_len as nat));
    let cut_head = cut_vec(head, budget);
    let mut ids: Vec<u32> = Vec::new();
    ids.push(c.cls);
    append_tokens(&mut ids, &cut_head);
    ids.push(c.sep);
    let ghost start = seq![c.cls] + cut_head@ + seq![c.sep];
    assert(ids@ =~= start + joined(kv, 0));
    let mut markers: Vec<usize> = Vec::new();
    let mut i: usize = 0;
    while i < kept.len()
        invariant
            0 <= i <= kept@.len(),
            kv == token_lists(kept@),
            start.len() == 2 + cut_head@.len(),
            ids@ == start + joined(kv, i as nat),
            joined(kv, i as nat).len() == tokens_upto(kv, i as nat),
            markers@.len() == i,
            forall|j: int|
                0 <= j < i ==> (#[trigger] markers@[j]) == start.len() + tokens_upto(kv, j as nat),
        decreases kept@.len() - i,
    {
        markers.push(ids.len());
        append_tokens(&mut ids, &kept[i]);
        i += 1;
        assert(ids@ =~= start + joined(kv, i as nat));
    }
    ids.push(c.sep);
    assert(ids@ =~= prefix_of(*c, head@, given));
    assert(naturals(markers@) =~= prefix_markers(*c, head@, given));
    (ids, markers)
}

/// The question-only prefix: ids, and the index of each option's mask.
/// `order` lists the options in the order they are laid out; without one they
/// keep their natural order.
pub fn build_prefix<T: Tokenize>(
    tok: &T,
    c: &LayaConfig,
    q: &Question,
    order: Option<&Vec<usize>>,
) -> (r: (Vec<u32>, Vec<usize>))
    requires
        order is Some ==> indices_of(order->0@, option_texts(q@).len()),
    ensures
        ({
            let o = order_or_natural(opt_order(order), option_texts(q@).len());
            let head = head_tokens(tok, *c, q@);
            let opts = laid_out(tok, *c, q@, o);
            &&& r.0@ == prefix_of(*c, head, opts)
            &&& naturals(r.1@) == prefix_markers(*c, head, opts)
        }),
{
    let own: Vec<usize> = match order {
        Some(_) => Vec::new(),
        None => {
            let opts = render_options(q);
            assert(texts(opts@).len() == opts@.len());
            natural_order(opts.len())
        },
    };
    let o: &Vec<usize> = match order {
        Some(o) => o,
        None => &own,
    };
    let ins = replace_all(instructions(q).as_str(), c.mask_text.as_str(), " ");
    let head = tok.encode(
        concat3(qtype_text(qtype(q)), " question: ", ins.as_str()).as_str(),
    );
    let opts = encode_options(tok, c, q, o);
    lay_out(c, &head, opts)
}

/// A prefix and as much of the state as fits, cut at `max_len`.
pub open spec fn sequence_ids(c: LayaConfig, prefix: Seq<u32>, state: Seq<u32>) -> Seq<u32> {
    let room = if c.max_len > prefix.len() {
        c.max_len - prefix.len() - 1
    } else {
        0
    };
    cut(prefix + cut(state, room) + seq![c.sep], c.max_len as int)
}

/// Every mask stands before `max_len`.
pub open spec fn markers_fit(c: LayaConfig, markers: Seq<nat>) -> bool {
    forall|i: int| 0 <= i < markers.len() ==> (#[trigger] markers[i]) < c.max_len
}

/// Lays a sequence out, given its prefix and the state's tokens.
pub fn lay_sequence(
    c: &LayaConfig,
    prefix: Vec<u32>,
    markers: Vec<usize>,
    state: &Vec<u32>,
    qtype: usize,
) -> (r: Result<Sequence, LoadError>)
    ensures
        match r {
            Ok(s) => markers_fit(*c, naturals(markers@)) && s.ids@ == sequence_ids(
                *c,
                prefix@,
                state@,
            ) && s.markers@ == markers@ && s.qtype == qtype,
            Err(e) => !markers_fit(*c, naturals(markers@)) && e@
                == "too many options for the token budget"@,
        },
{
    let room: usize = if c.max_len > prefix.len() {
        c.max_len - prefix.len() - 1
    } else {
        0
    };
    let mut ids: Vec<u32> = prefix;
    let kept = cut_vec(state, room);
    append_tokens(&mut ids, &kept);
    ids.push(c.sep);
    assert(ids@ =~= prefix@ + cut(state@, room as int) + seq![c.sep]);
    let ids = cut_vec(&ids, c.max_len);
    let mut i: usize = 0;
    while i < markers.len()
        invariant
            0 <= i <= markers@.len(),
            forall|j: int| 0 <= j < i ==> (#[trigger] markers@[j]) < c.max_len,
        decreases markers@.len() - i,
    {
        if markers[i] >= c.max_len {
            assert(naturals(markers@)[i as int] >= c.max_len);
            return Err(LoadError::of("too many options for the token budget"));
        }
        i += 1;
    }
    Ok(Sequence { ids, markers, qtype })
}

/// What building a question's sequence comes to: the sequence, or an error
/// where a mask would stand past the budget.
pub open spec fn built<T: Tokenize>(
    tok: &T,
    c: LayaConfig,
    state: Seq<u32>,
    q: QuestionView,
    order: Option<Seq<usize>>,
    r: Result<Sequence, LoadError>,
) -> bool {
    let o = order_or_natural(order, option_texts(q).len());
    let head = head_tokens(tok, c, q);
    let opts = laid_out(tok, c, q, o);
    let markers = prefix_markers(c, head, opts);
    match r {
        Ok(s) => markers_fit(c, markers) && s.ids@ == sequence_ids(
            c,
            prefix_of(c, head, opts),
            state,
        ) && naturals(s.markers@) == markers && s.qtype == qtype_of(q),
        Err(e) => !markers_fit(c, markers) && e@ == "too many options for the token budget"@,
    }
}

/// One question over the state's tokens, which are the same for every
/// question of a request: the prefix, then as much of the state as fits, then
/// the separator.
pub fn build_sequence<T: Tokenize>(
    tok: &T,
    c: &LayaConfig,
    state: &Vec<u32>,
    q: &Question,
    order: Option<&Vec<usize>>,
) -> (r: Result<Sequence, LoadError>)
    requires
        order is Some ==> indices_of(order->0@, option_texts(q@).len()),
    ensures
        built(tok, *c, state@, q@, opt_order(order), r),
{
    let (prefix, markers) = build_prefix(tok, c, q, order);
    lay_sequence(c, prefix, markers, state, qtype(q))
}

/// The state's tokens, the mask's surface form replaced in its text.
pub fn state_ids<T: Tokenize>(tok: &T, c: &LayaConfig, state: &Json) -> (r: Vec<u32>)
    ensures
        r@ == tok.ids(unmasked(*c, state_of(state@))),
{
    let text = replace_all(serialize_state(state).as_str(), c.mask_text.as_str(), " ");
    tok.encode(text.as_str())
}

/// The message of question `id`'s failure.
pub open spec fn question_message(id: Seq<char>, m: Seq<char>) -> Seq<char> {
    "question "@ + quoted(id) + ": "@ + m
}

/// The first of the first `n` questions that does not fit the budget.
pub open spec fn request_over<T: Tokenize>(
    tok: &T,
    c: LayaConfig,
    qs: Seq<(Seq<char>, QuestionView)>,
    n: nat,
) -> Option<Seq<char>>
    decreases n,
{
    if n == 0 {
        None
    } else {
        match request_over(tok, c, qs, (n - 1) as nat) {
            Some(e) => Some(e),
            None => {
                let q = qs[n - 1].1;
                let opts = laid_out(tok, c, q, natural(option_texts(q).len()));
                if markers_fit(c, prefix_markers(c, head_tokens(tok, c, q), opts)) {
                    None
                } else {
                    Some(
                        question_message(
                            qs[n - 1].0,
                            "too many options for the token budget"@,
                        ),
                    )
                }
            },
        }
    }
}

proof fn request_over_stays<T: Tokenize>(
    tok: &T,
    c: LayaConfig,
    qs: Seq<(Seq<char>, QuestionView)>,
    i: nat,
    n: nat,
)
    requires
        i <= n,
        request_over(tok, c, qs, i) is Some,
    ensures
        request_over(tok, c, qs, n) == request_over(tok, c, qs, i),
    decreases n - i,
{
    if i < n {
        request_over_stays(tok, c, qs, i + 1, n);
    }
}

/// Every question of a request as a sequence, in request order.
pub fn build_request<T: Tokenize>(tok: &T, c: &LayaConfig, req: &Request) -> (r: Result<
    Vec<Sequence>,
    LoadError,
>)
    ensures
        ({
            let qs = questions_of(req.questions);
            let state = tok.ids(unmasked(*c, state_of(req.state@)));
            match r {
                Ok(v) => request_over(tok, *c, qs, qs.len()) is None && v@.len() == qs.len()
                    && forall|i: int|
                    0 <= i < qs.len() ==> built(
                        tok,
                        *c,
                        state,
                        qs[i].1,
                        None,
                        Ok(#[trigger] v@[i]),
                    ),
                Err(e) => request_over(tok, *c, qs, qs.len()) == Some(e@),
            }
        }),
{
    let state = state_ids(tok, c, &req.state);
    let ghost qs = questions_of(req.questions);
    let entries = question_entries(&req.questions);
    let mut out: Vec<Sequence> = Vec::new();
    let mut i: usize = 0;
    while i < entries.len()
        invariant
            0 <= i <= entries@.len(),
            qs == questions_of(req.questions),
            entries@.len() == qs.len(),
            forall|j: int|
                #![trigger entries@[j]]
                0 <= j < entries@.len() ==> entries@[j].0@ == qs[j].0 && entries@[j].1@ == qs[j].1,
            request_over(tok, *c, qs, i as nat) is None,
            out@.len() == i,
            forall|j: int|
                0 <= j < i ==> built(tok, *c, state@, qs[j].1, None, Ok(#[trigger] out@[j])),
        decreases entries@.len() - i,
    {
        let (id, q) = entries[i];
        match build_sequence(tok, c, &state, q, None) {
            Ok(s) => {
                out.push(s);
            },
            Err(e) => {
                let mut m: String = concat3("question ", quote(id.as_str()).as_str(), ": ");
                m.append(e.message.as_str());
                proof {
                    request_over_stays(tok, *c, qs, (i + 1) as nat, qs.len());
                }
                return Err(LoadError::new(m));
            },
        }
        i += 1;
    }
    Ok(out)
}

proof fn joined_length(opts: Seq<Seq<u32>>, n: nat)
    requires
        n <= opts.len(),
    ensures
        joined(opts, n).len() == tokens_upto(opts, n),
    decreases n,
{
    if n > 0 {
        joined_length(opts, (n - 1) as nat);
    }
}

proof fn joined_keeps(opts: Seq<Seq<u32>>, i: nat, n: nat, x: int)
    requires
        i <= n <= opts.len(),
        0 <= x < tokens_upto(opts, i),
    ensures
        tokens_upto(opts, i) <= tokens_upto(opts, n),
        joined(opts, n)[x] == joined(opts, i)[x],
    decreases n - i,
{
    joined_length(opts, i);
    if i < n {
        joined_keeps(opts, i + 1, n, x);
    }
}

/// Every option can be read off its sequence: a sequence that was built holds
/// no more than `max_len` tokens, one marker per option in the order they were
/// laid out, and the mask at each of them.
pub proof fn built_sequences_mark_their_options<T: Tokenize>(
    tok: &T,
    c: LayaConfig,
    state: Seq<u32>,
    q: QuestionView,
    order: Seq<usize>,
    s: Sequence,
    i: int,
)
    requires
        built(tok, c, state, q, Some(order), Ok(s)),
        0 <= i < order.len(),
    ensures
        s.ids@.len() <= c.max_len,
        s.markers@.len() == order.len(),
        s.markers@[i] < s.ids@.len(),
        s.ids@[s.markers@[i] as int] == c.mask,
        i > 0 ==> s.markers@[i - 1] < s.markers@[i],
{
    let head = head_tokens(tok, c, q);
    let opts = laid_out(tok, c, q, order);
    let kept = cut_options(opts, c.head_max_len as nat);
    let markers = prefix_markers(c, head, opts);
    let prefix = prefix_of(c, head, opts);
    let cut_head = cut(head, head_budget(kept, c.head_max_len as nat));
    assert(naturals(s.markers@).len() == s.markers@.len());
    assert(naturals(s.markers@)[i] == s.markers@[i] as nat);
    assert(kept.len() == opts.len());
    assert(opts[i][0] == c.mask);
    assert(kept[i].len() > 0 && kept[i][0] == c.mask);
    joined_length(kept, i as nat);
    joined_length(kept, (i + 1) as nat);
    joined_length(kept, kept.len());
    let x = tokens_upto(kept, i as nat) as int;
    joined_keeps(kept, (i + 1) as nat, kept.len(), x);
    assert(joined(kept, (i + 1) as nat)[x] == kept[i][0]);
    assert(markers[i] == 2 + cut_head.len() + x);
    assert(prefix[markers[i] as int] == joined(kept, kept.len())[x]);
    if i > 0 {
        assert(opts[i - 1][0] == c.mask);
        assert(kept[i - 1].len() > 0);
        assert(naturals(s.markers@)[i - 1] == s.markers@[i - 1] as nat);
        assert(tokens_upto(kept, i as nat) == tokens_upto(kept, (i - 1) as nat) + kept[i - 1].len());
    }
    assert(markers[i] < c.max_len);
}

/// No caller text can forge an option: where the mask's surface form is not
/// empty and holds no space, it occurs nowhere in the text that is tokenized
/// for a state, for instructions or for an option.
pub proof fn no_mask_survives(c: LayaConfig, text: Seq<char>, i: int)
    requires
        c.mask_text@.len() > 0,
        forall|j: int| 0 <= j < c.mask_text@.len() ==> c.mask_text@[j] != ' ',
        0 <= i <= unmasked(c, text).len(),
    ensures
        !crate::text::starts_in(unmasked(c, text).skip(i), c.mask_text@),
{
    reveal_strlit(" ");
    assert(" "@ =~= seq![' ']);
    crate::text::replaced_text_is_free(text, c.mask_text@, i);
}

/// The encoder reads every option by its key and what the request says of it: a
/// text as it is, the key alone for a choice without a description, the level's
/// number for a level, and a plain sentence for a side of a yes/no question
/// without one.
pub proof fn options_are_told_with_their_criteria(q: QuestionView, i: int, s: Seq<char>)
    requires
        0 <= i < option_texts(q).len(),
    ensures
        match q {
            QuestionView::Choice { criteria, .. } => {
                &&& option_texts(q).len() == criteria.len()
                &&& (criteria[i].1 == Some(JsonView::Str(s)) && s.len() > 0) ==> option_texts(q)[i]
                    == criteria[i].0 + ": "@ + s
                &&& (criteria[i].1 is None || criteria[i].1 == Some(JsonView::Null)
                    || criteria[i].1 == Some(JsonView::Str(Seq::empty()))) ==> option_texts(q)[i]
                    == criteria[i].0
            },
            QuestionView::Score { criteria, .. } => {
                &&& option_texts(q).len() == criteria.len()
                &&& criteria[i] == JsonView::Str(s) ==> option_texts(q)[i] == "level "@ + decimal(
                    i as nat,
                ) + ": "@ + s
            },
            QuestionView::Noul { criteria, .. } => {
                let key = if i == 0 {
                    "false"@
                } else {
                    "true"@
                };
                &&& option_texts(q).len() == 2
                &&& (criteria is Some && s.len() > 0 && find(criteria->0, key) == Some(
                    Some(JsonView::Str(s)),
                )) ==> option_texts(q)[i] == key + ": "@ + s
                &&& (criteria is None || find(criteria->0, key) is None) ==> option_texts(q)[i]
                    == key + ": "@ + (if i == 0 {
                    "no, the statement does not hold"@
                } else {
                    "yes, the statement holds"@
                })
            },
        },
{
}

/// What heads the sequence names the kind of the question and holds its
/// instructions, a text as it is but for the mask.
pub proof fn the_head_holds_the_instructions<T: Tokenize>(
    tok: &T,
    c: LayaConfig,
    q: QuestionView,
    s: Seq<char>,
)
    ensures
        instructions_of(q) == Some(JsonView::Str(s)) ==> head_tokens(tok, c, q) == tok.ids(
            (if q is Choice {
                "choice"@
            } else if q is Score {
                "score"@
            } else {
                "noul"@
            }) + " question: "@ + unmasked(c, s),
        ),
        match q {
            QuestionView::Choice { instructions, .. } => instructions_of(q) == instructions,
            QuestionView::Score { instructions, .. } => instructions_of(q) == instructions,
            QuestionView::Noul { instructions, .. } => instructions_of(q) == instructions,
        },
{
}

/// An option's tokens are the mask and the first tokens of its text, no more
/// than 48, all of them where they are no more.
pub proof fn options_start_with_the_mask<T: Tokenize>(
    tok: &T,
    c: LayaConfig,
    text: Seq<char>,
    i: int,
)
    requires
        0 <= i < tok.ids(" "@ + unmasked(c, text)).len(),
    ensures
        option_tokens(tok, c, text)[0] == c.mask,
        option_tokens(tok, c, text).len() <= 49,
        tok.ids(" "@ + unmasked(c, text)).len() <= 48 ==> option_tokens(tok, c, text).len()
            == tok.ids(" "@ + unmasked(c, text)).len() + 1,
        tok.ids(" "@ + unmasked(c, text)).len() > 48 ==> option_tokens(tok, c, text).len() == 49,
        i < 48 ==> option_tokens(tok, c, text)[i + 1] == tok.ids(" "@ + unmasked(c, text))[i],
{
}

/// Where everything fits its budget nothing is cut: a sequence is the start,
/// the head, a separator, the options one after the other, a separator, the
/// state and a separator.
pub proof fn a_roomy_sequence_keeps_everything(
    c: LayaConfig,
    head: Seq<u32>,
    opts: Seq<Seq<u32>>,
    state: Seq<u32>,
)
    requires
        tokens_upto(opts, opts.len()) + 16 <= c.head_max_len,
        tokens_upto(opts, opts.len()) + head.len() <= c.head_max_len,
        head.len() + tokens_upto(opts, opts.len()) + state.len() + 4 <= c.max_len,
    ensures
        sequence_ids(c, prefix_of(c, head, opts), state) == seq![c.cls] + head + seq![c.sep]
            + opts.flatten() + seq![c.sep] + state + seq![c.sep],
{
    joined_length(opts, opts.len());
    joined_is_flat(opts, opts.len());
    assert(opts.take(opts.len() as int) =~= opts);
    assert(sequence_ids(c, prefix_of(c, head, opts), state) =~= seq![c.cls] + head + seq![c.sep]
        + opts.flatten() + seq![c.sep] + state + seq![c.sep]);
}

proof fn joined_is_flat(opts: Seq<Seq<u32>>, n: nat)
    requires
        n <= opts.len(),
    ensures
        joined(opts, n) == opts.take(n as int).flatten(),
    decreases n,
{
    if n == 0 {
        assert(opts.take(0).flatten() =~= Seq::<u32>::empty());
    } else {
        joined_is_flat(opts, (n - 1) as nat);
        assert(opts.take(n as int) =~= opts.take(n - 1).push(opts[n - 1]));
        opts.take(n - 1).lemma_flatten_push(opts[n - 1]);
    }
}

/// However tight the budget, a sequence starts with the start token and its
/// prefix ends with a separator; the options keep their first tokens, at least
/// four where they have them, the head its first tokens, at least eight where
/// it has them; and what room is left is filled from the front of the state and
/// closed with a separator.
pub proof fn a_tight_sequence_keeps_the_front(
    c: LayaConfig,
    head: Seq<u32>,
    opts: Seq<Seq<u32>>,
    state: Seq<u32>,
    i: int,
)
    requires
        0 <= i < opts.len(),
    ensures
        ({
            let kept = cut_options(opts, c.head_max_len as nat);
            let room = head_budget(kept, c.head_max_len as nat);
            let prefix = prefix_of(c, head, opts);
            let ids = sequence_ids(c, prefix, state);
            &&& kept.len() == opts.len()
            &&& kept[i] == opts[i].take(kept[i].len() as int)
            &&& kept[i].len() == opts[i].len() || kept[i].len() >= 4
            &&& room >= 8
            &&& cut(head, room) == head.take(cut(head, room).len() as int)
            &&& cut(head, room).len() == head.len() || cut(head, room).len() == room
            &&& prefix[0] == c.cls
            &&& prefix.last() == c.sep
            &&& ids.len() <= c.max_len
            &&& prefix.len() < c.max_len ==> {
                &&& ids.take(prefix.len() as int) == prefix
                &&& ids.last() == c.sep
                &&& forall|k: int|
                    0 <= k < ids.len() - prefix.len() - 1 ==> #[trigger] ids[prefix.len() + k]
                        == state[k]
                &&& ids.len() == prefix.len() + state.len() + 1 || ids.len() == c.max_len
            }
        }),
{
    let kept = cut_options(opts, c.head_max_len as nat);
    let room = head_budget(kept, c.head_max_len as nat);
    let prefix = prefix_of(c, head, opts);
    let ids = sequence_ids(c, prefix, state);
    assert(kept[i] =~= opts[i].take(kept[i].len() as int));
    assert(cut(head, room) =~= head.take(cut(head, room).len() as int));
    if prefix.len() < c.max_len {
        assert(ids.take(prefix.len() as int) =~= prefix);
    }
}

/// A text state is read as it is, anything else as its JSON.
pub proof fn a_text_state_is_read_as_it_is(state: JsonView, s: Seq<char>)
    ensures
        state_of(JsonView::Str(s)) == s,
        !(state is Str) ==> state_of(state) == py_value(state, false),
{
}

/// A text without the mask is read as it is.
pub proof fn text_without_the_mask_is_kept(c: LayaConfig, s: Seq<char>)
    requires
        c.mask_text@.len() > 0,
        forall|i: int| 0 <= i <= s.len() ==> !crate::text::starts_in(#[trigger] s.skip(i), c.mask_text@),
    ensures
        unmasked(c, s) == s,
{
    crate::text::nothing_to_replace(s, c.mask_text@, " "@);
}

/// A request is too long exactly where some question's options, in their
/// natural order behind its head, leave a marker beyond the budget.
pub proof fn requests_fit_exactly_when_every_question_does<T: Tokenize>(
    tok: &T,
    c: LayaConfig,
    qs: Seq<(Seq<char>, QuestionView)>,
    n: nat,
)
    requires
        n <= qs.len(),
    ensures
        request_over(tok, c, qs, n) is None <==> forall|i: int|
            0 <= i < n ==> markers_fit(
                c,
                prefix_markers(
                    c,
                    head_tokens(tok, c, (#[trigger] qs[i]).1),
                    laid_out(tok, c, qs[i].1, natural(option_texts(qs[i].1).len())),
                ),
            ),
    decreases n,
{
    if n > 0 {
        requests_fit_exactly_when_every_question_does(tok, c, qs, (n - 1) as nat);
        if request_over(tok, c, qs, n) is Some {
            assert(qs[n - 1] == qs[n - 1]);
        }
    }
}

} // verus!

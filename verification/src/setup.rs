//! What a program settles before it serves: which runtime a checkpoint
//! directory is for, what the model is called, which layout its vocabulary
//! asks for, and which options an experiment adds.

use indexmap::IndexMap;
use vstd::prelude::*;
use vstd::string::StringExecFns;

use crate::api::{Question, QuestionView};
use crate::backend::Backend;
use crate::error::LoadError;
use crate::json::{has_field, text_value, Json, JsonView};
use crate::map::{
    add_criterion, criteria_entries, criteria_of, criterion, find, no_criteria, opt_json,
};
use crate::plan::find_none;
use crate::render::{
    gemma_pointer_view, no_think_view, turns_view, with_pointer, LayoutView, Renderer, SegmentView,
};
use crate::text::{
    concat3, decimal, decimals_read_back, ends_in, ends_with, number_read, number_text,
    push_decimal, same, to_chars,
};

verus! {

/// A directory holds a Laya checkpoint: the two configurations of a snapshot,
/// or an export whose configuration has an agent's part.
pub open spec fn laya_dir_view(
    agent_config: bool,
    encoder_config: bool,
    manifest: bool,
    config: Option<JsonView>,
) -> bool {
    (agent_config && encoder_config) || (manifest && config is Some && has_field(
        config->0,
        "laya_agent"@,
    ))
}

/// The view of a configuration that may not be there.
pub open spec fn config_view(config: Option<&Json>) -> Option<JsonView> {
    match config {
        Some(c) => Some(c@),
        None => None,
    }
}

/// Whether a directory holds a Laya checkpoint. `agent_config` and
/// `encoder_config` say whether `rl_agent_config.json` and
/// `encoder/config.json` are there, `manifest` whether it lists its tensors;
/// `config` is `config.json` where it can be read.
pub fn is_laya_dir(
    agent_config: bool,
    encoder_config: bool,
    manifest: bool,
    config: Option<&Json>,
) -> (r: bool)
    ensures
        r == laya_dir_view(agent_config, encoder_config, manifest, config_view(config)),
{
    if agent_config && encoder_config {
        return true;
    }
    match config {
        Some(c) => manifest && c.get("laya_agent").is_some(),
        None => false,
    }
}

/// Whether a directory holds an e5 export: a list of its tensors, and a
/// `config.json` with an e5 part.
pub fn is_e5_dir(manifest: bool, config: Option<&Json>) -> (r: bool)
    ensures
        r == (manifest && config is Some && has_field(config_view(config)->0, "grande_e5"@)),
{
    match config {
        Some(c) => manifest && c.get("grande_e5").is_some(),
        None => false,
    }
}

/// A hexadecimal digit.
pub open spec fn hex_digit(c: char) -> bool {
    ('0' <= c && c <= '9') || ('a' <= c && c <= 'f') || ('A' <= c && c <= 'F')
}

/// A name that is the hash of a downloaded snapshot.
pub open spec fn is_hash(name: Seq<char>) -> bool {
    name.len() >= 32 && forall|i: int| 0 <= i < name.len() ==> hex_digit(#[trigger] name[i])
}

fn hash_name(name: &str) -> (r: bool)
    ensures
        r == is_hash(name@),
{
    let cs: Vec<char> = to_chars(name);
    if cs.len() < 32 {
        return false;
    }
    let mut i: usize = 0;
    while i < cs.len()
        invariant
            0 <= i <= cs@.len(),
            cs@ == name@,
            forall|j: int| 0 <= j < i ==> hex_digit(#[trigger] cs@[j]),
        decreases cs@.len() - i,
    {
        let c: char = cs[i];
        if !(('0' <= c && c <= '9') || ('a' <= c && c <= 'f') || ('A' <= c && c <= 'F')) {
            assert(!hex_digit(name@[i as int]));
            return false;
        }
        i += 1;
    }
    true
}

/// A text in lower case, as `str::to_lowercase` has it.
pub uninterp spec fn lowered(s: Seq<char>) -> Seq<char>;

/// `str::to_lowercase`: the text in lower case by Unicode's tables, which are
/// named and not spelled out.
#[verifier::external_body]
fn to_lower(s: &str) -> (r: String)
    ensures
        r@ == lowered(s@),
{
    s.to_lowercase()
}

/// What a checkpoint file is called: its name without the suffix, in lower
/// case.
pub fn model_name(stem: Option<&str>) -> (r: String)
    ensures
        r@ == lowered(
            match stem {
                Some(s) => s@,
                None => "model"@,
            },
        ),
{
    match stem {
        Some(s) => to_lower(s),
        None => to_lower("model"),
    }
}

/// What a Laya checkpoint is called: the directory's name, unless it is the
/// hash of a snapshot, in lower case.
pub fn laya_name(dir: Option<&str>) -> (r: String)
    ensures
        r@ == lowered(
            match dir {
                Some(n) => if is_hash(n@) {
                    "laya"@
                } else {
                    n@
                },
                None => "laya"@,
            },
        ),
{
    match dir {
        Some(n) => if hash_name(n) {
            to_lower("laya")
        } else {
            to_lower(n)
        },
        None => to_lower("laya"),
    }
}

/// The chat layout that a vocabulary asks for, by the turn markers it has.
pub open spec fn label_layout<B: Backend>(b: &B) -> LayoutView {
    if b.special_token("<|turn>"@) is Ok {
        turns_view("gemma"@, true, "<|turn>"@, "<turn|>"@, "user"@, "model"@)
    } else if b.special_token("<|im_start|>"@) is Ok {
        let base = turns_view(
            "qwen"@,
            false,
            "<|im_start|>"@,
            "<|im_end|>"@,
            "user"@,
            "assistant"@,
        );
        LayoutView::Label {
            family: "qwen"@,
            user_open: base->user_open,
            model_open: base->model_open + no_think_view(),
            terse: false,
            pointer: false,
        }
    } else if b.special_token("<｜User｜>"@) is Ok {
        LayoutView::Label {
            family: "deepseek"@,
            user_open: seq![SegmentView::Bos, SegmentView::Special("<｜User｜>"@)],
            model_open: seq![SegmentView::Special("<｜Assistant｜>"@)] + no_think_view(),
            terse: false,
            pointer: false,
        }
    } else {
        turns_view("gemma"@, true, "<start_of_turn>"@, "<end_of_turn>"@, "user"@, "model"@)
    }
}

/// The chat layout is picked from the vocabulary.
pub fn label_renderer<B: Backend>(backend: &B) -> (r: Renderer)
    ensures
        r@ == label_layout(backend),
{
    if backend.special("<|turn>").is_ok() {
        Renderer::gemma_label()
    } else if backend.special("<|im_start|>").is_ok() {
        Renderer::qwen_label()
    } else if backend.special("<｜User｜>").is_ok() {
        Renderer::deepseek_label()
    } else {
        Renderer::gemma3_label()
    }
}

/// A pointer head, as far as the layout depends on it.
#[derive(Debug)]
pub struct HeadInfo {
    /// The width of the hidden states it reads.
    pub d: usize,
    /// The layout that produced its training rows, where it says.
    pub layout: Option<String>,
}

/// The head was trained on the chat layout with option marks.
pub open spec fn on_chat(h: HeadInfo) -> bool {
    h.layout is Some && ends_in(h.layout->0@, "_label_pointer"@)
}

/// The layout to ask in: without a head the chat layout; with one, the layout
/// it was trained on. An error where the head reads hidden states of another
/// width than the model's `n_embd`.
pub fn renderer_for<B: Backend>(backend: &B, n_embd: usize, head: Option<&HeadInfo>) -> (r: Result<
    Renderer,
    LoadError,
>)
    ensures
        match (head, r) {
            (None, Ok(x)) => x@ == label_layout(backend),
            (None, Err(_)) => false,
            (Some(h), Ok(x)) => h.d == n_embd && (if on_chat(*h) {
                x@ == with_pointer(label_layout(backend), true)
            } else {
                x@ == gemma_pointer_view()
            }),
            (Some(h), Err(e)) => h.d != n_embd && e@ == "head d="@ + decimal(h.d as nat)
                + " but model n_embd="@ + decimal(n_embd as nat),
        },
{
    match head {
        None => Ok(label_renderer(backend)),
        Some(h) => {
            if h.d != n_embd {
                let mut m: String = "head d=".to_owned();
                push_decimal(&mut m, h.d as u64);
                m.append(" but model n_embd=");
                push_decimal(&mut m, n_embd as u64);
                return Err(LoadError::new(m));
            }
            let chat: bool = match &h.layout {
                Some(l) => ends_with(l.as_str(), "_label_pointer"),
                None => false,
            };
            if chat {
                Ok(label_renderer(backend).pointer(true))
            } else {
                Ok(Renderer::gemma_pointer())
            }
        },
    }
}

/// The layout in which training rows are read, by its name on the command
/// line.
pub fn feature_renderer<B: Backend>(backend: &B, layout: &str) -> (r: Result<Renderer, LoadError>)
    ensures
        match r {
            Ok(x) => if layout@ == "label"@ {
                x@ == with_pointer(label_layout(backend), true)
            } else {
                layout@ == "delimiter"@ && x@ == gemma_pointer_view()
            },
            Err(e) => layout@ != "label"@ && layout@ != "delimiter"@ && e@ == "--layout "@
                + layout@ + ": expected label or delimiter"@,
        },
{
    if same(layout, "label") {
        Ok(label_renderer(backend).pointer(true))
    } else if same(layout, "delimiter") {
        Ok(Renderer::gemma_pointer())
    } else {
        Err(LoadError::new(concat3("--layout ", layout, ": expected label or delimiter")))
    }
}

/// Flash attention, by its name on the command line.
pub fn flash_choice(s: &str) -> (r: Option<bool>)
    ensures
        r == (if s@ == "on"@ {
            Some(true)
        } else if s@ == "off"@ {
            Some(false)
        } else {
            None
        }),
{
    if same(s, "on") {
        Some(true)
    } else if same(s, "off") {
        Some(false)
    } else {
        None
    }
}

/// The sequences that a benchmark of `questions` questions and `batch`
/// requests at once takes.
pub fn bench_sequences(questions: usize, batch: usize) -> (r: u32)
    requires
        (questions + 1) * (if batch == 0 {
            1
        } else {
            batch as int
        }) <= u32::MAX,
    ensures
        ({
            let n = (questions + 1) * (if batch == 0 {
                1
            } else {
                batch as int
            });
            r == (if n < 2 {
                2
            } else {
                n
            })
        }),
{
    let b: u64 = if batch == 0 {
        1
    } else {
        batch as u64
    };
    assert(questions + 1 <= (questions + 1) * b) by (nonlinear_arith)
        requires
            b >= 1,
    ;
    let n: u64 = (questions as u64 + 1) * b;
    if n < 2 {
        2
    } else {
        n as u32
    }
}

/// The memory for serialized states, in bytes: none where a directory holds
/// them.
pub fn cache_bytes(megabytes: usize, directory: bool) -> (r: usize)
    ensures
        r == (if directory {
            0
        } else {
            megabytes << 20
        }),
{
    if directory {
        0
    } else {
        megabytes << 20
    }
}

/// Keys of options that a state says nothing about.
pub const DISTRACTOR_KEYS: [&'static str; 4] = ["weather", "purple", "pancakes", "taxes"];

/// Descriptions of options that a state says nothing about.
pub const DISTRACTOR_TEXTS: [&'static str; 4] = [
    "Bad weather caused it",
    "The colour purple",
    "A recipe for pancakes",
    "Unrelated: quarterly tax filing",
];

/// The keys in Japanese.
pub const DISTRACTOR_KEYS_JA: [&'static str; 4] = ["天気", "紫", "パンケーキ", "税金"];

/// The descriptions in Japanese.
pub const DISTRACTOR_TEXTS_JA: [&'static str; 4] = [
    "悪天候が原因だった",
    "紫という色",
    "パンケーキのレシピ",
    "無関係：四半期の税務申告",
];

/// The key and description of the option added to item `i`.
pub fn distractor(i: usize, japanese: bool) -> (r: (&'static str, &'static str))
    ensures
        r.0@ == (if japanese {
            DISTRACTOR_KEYS_JA@[i as int % 4]@
        } else {
            DISTRACTOR_KEYS@[i as int % 4]@
        }),
        r.1@ == (if japanese {
            DISTRACTOR_TEXTS_JA@[i as int % 4]@
        } else {
            DISTRACTOR_TEXTS@[i as int % 4]@
        }),
{
    let k: usize = i % 4;
    if japanese {
        (DISTRACTOR_KEYS_JA[k], DISTRACTOR_TEXTS_JA[k])
    } else {
        (DISTRACTOR_KEYS[k], DISTRACTOR_TEXTS[k])
    }
}

/// The number that decimal digits give.
pub open spec fn digits_value(s: Seq<char>) -> nat
    decreases s.len(),
{
    if s.len() == 0 {
        0
    } else {
        10 * digits_value(s.drop_last()) + (s.last() as nat - '0' as nat) as nat
    }
}

/// Every character is a decimal digit.
pub open spec fn all_digits(s: Seq<char>) -> bool {
    forall|i: int| 0 <= i < s.len() ==> '0' <= #[trigger] s[i] && s[i] <= '9'
}

/// Text that reads as a size: decimal digits, after a plus sign or without
/// one, that give a number of the machine.
pub open spec fn is_size_text(s: Seq<char>) -> bool {
    let digits = if s.len() > 0 && s[0] == '+' {
        s.drop_first()
    } else {
        s
    };
    &&& digits.len() > 0
    &&& all_digits(digits)
    &&& digits_value(digits) <= usize::MAX
}

fn size_text(s: &str) -> (r: bool)
    ensures
        r == is_size_text(s@),
{
    let cs: Vec<char> = to_chars(s);
    let len: usize = cs.len();
    let start: usize = if len > 0 && cs[0] == '+' {
        1
    } else {
        0
    };
    let ghost digits = s@.skip(start as int);
    proof {
        if start == 1 {
            assert(s@.drop_first() =~= digits);
        } else {
            assert(s@ =~= digits);
        }
    }
    if start >= len {
        return false;
    }
    let mut value: usize = 0;
    let mut large: bool = false;
    let mut i: usize = start;
    assert(digits.take(0) =~= Seq::<char>::empty());
    while i < len
        invariant
            start <= i <= len,
            len == cs@.len(),
            cs@ == s@,
            digits == s@.skip(start as int),
            forall|j: int|
                0 <= j < i - start ==> '0' <= #[trigger] digits[j] && digits[j] <= '9',
            !large ==> value == digits_value(digits.take(i - start)),
            large ==> digits_value(digits.take(i - start)) > usize::MAX,
            digits == (if s@.len() > 0 && s@[0] == '+' {
                s@.drop_first()
            } else {
                s@
            }),
        decreases len - i,
    {
        let c: char = cs[i];
        assert(digits[i - start] == c);
        if !('0' <= c && c <= '9') {
            assert(!all_digits(digits));
            return false;
        }
        proof {
            assert(digits.take(i - start + 1).drop_last() =~= digits.take(i - start));
        }
        let d: usize = (c as u32 - '0' as u32) as usize;
        if !large {
            match value.checked_mul(10) {
                Some(v) => match v.checked_add(d) {
                    Some(w) => {
                        value = w;
                    },
                    None => {
                        large = true;
                    },
                },
                None => {
                    large = true;
                },
            }
        }
        i += 1;
    }
    assert(digits.take(len - start) =~= digits);
    !large
}

/// Every key reads as a size.
pub open spec fn indexed(c: Seq<(Seq<char>, Option<JsonView>)>) -> bool {
    forall|i: int| 0 <= i < c.len() ==> is_size_text((#[trigger] c[i]).0)
}

fn all_indexed(c: &IndexMap<String, Option<Json>>) -> (r: bool)
    ensures
        r == indexed(criteria_of(*c)),
{
    let es = criteria_entries(c);
    let mut i: usize = 0;
    while i < es.len()
        invariant
            0 <= i <= es@.len(),
            es@.len() == criteria_of(*c).len(),
            forall|j: int|
                0 <= j < es@.len() ==> (#[trigger] es@[j]).0@ == criteria_of(*c)[j].0,
            forall|j: int| 0 <= j < i ==> is_size_text((#[trigger] criteria_of(*c)[j]).0),
        decreases es@.len() - i,
    {
        if !size_text(es[i].0.as_str()) {
            assert(!is_size_text(criteria_of(*c)[i as int].0));
            return false;
        }
        i += 1;
    }
    true
}

/// The key of the option added to a Choice: the next index where the keys are
/// indices, else `name`.
pub open spec fn added_key(c: Seq<(Seq<char>, Option<JsonView>)>, name: Seq<char>) -> Seq<char> {
    if indexed(c) {
        decimal(c.len())
    } else {
        name
    }
}

fn copy_criteria(c: &IndexMap<String, Option<Json>>) -> (r: IndexMap<String, Option<Json>>)
    ensures
        criteria_of(r) == criteria_of(*c),
{
    let es = criteria_entries(c);
    let ghost cv = criteria_of(*c);
    let mut out: IndexMap<String, Option<Json>> = no_criteria();
    let mut i: usize = 0;
    assert(cv.take(0) =~= criteria_of(out));
    while i < es.len()
        invariant
            0 <= i <= es@.len(),
            es@.len() == cv.len(),
            forall|j: int|
                0 <= j < es@.len() ==> (#[trigger] es@[j]).0@ == cv[j].0 && opt_json(*es@[j].1)
                    == cv[j].1,
            forall|a: int, b: int|
                #![trigger es@[a], es@[b]]
                0 <= a < b < es@.len() ==> es@[a].0@ != es@[b].0@,
            criteria_of(out) == cv.take(i as int),
        decreases es@.len() - i,
    {
        let (k, v) = es[i];
        let copy: Option<Json> = match v {
            Some(j) => Some(j.clone()),
            None => None,
        };
        proof {
            assert(es@[i as int].0@ == cv[i as int].0);
            assert forall|j: int| 0 <= j < i implies (#[trigger] cv.take(i as int)[j]).0 != k@ by {
                assert(es@[j].0@ != es@[i as int].0@);
            }
            find_none(cv.take(i as int), k@);
        }
        add_criterion(&mut out, k.clone(), copy);
        assert(cv.take(i + 1) =~= cv.take(i as int).push(cv[i as int]));
        i += 1;
    }
    assert(cv.take(i as int) =~= cv);
    out
}

/// A Choice with one more option, `name` described by `text`; nothing where
/// the question is no Choice or has that option.
pub open spec fn distracted(q: QuestionView, name: Seq<char>, text: Seq<char>) -> Option<
    QuestionView,
> {
    match q {
        QuestionView::Choice { instructions, criteria } => {
            let key = added_key(criteria, name);
            if find(criteria, key) is Some {
                None
            } else {
                Some(
                    QuestionView::Choice {
                        instructions,
                        criteria: criteria.push((key, Some(JsonView::Str(text)))),
                    },
                )
            }
        },
        _ => None,
    }
}

/// Adds an option to a Choice that the state says nothing about.
pub fn with_distractor(q: &Question, name: &str, text: &str) -> (r: Option<Question>)
    ensures
        match r {
            Some(x) => distracted(q@, name@, text@) == Some(x@),
            None => distracted(q@, name@, text@) is None,
        },
{
    match q {
        Question::Choice { instructions, criteria } => {
            let key: String = if all_indexed(criteria) {
                number_text(criteria_entries(criteria).len())
            } else {
                name.to_owned()
            };
            if criterion(criteria, key.as_str()).is_some() {
                return None;
            }
            let mut with: IndexMap<String, Option<Json>> = copy_criteria(criteria);
            add_criterion(&mut with, key, Some(text_value(text)));
            let about: Option<Json> = match instructions {
                Some(j) => Some(j.clone()),
                None => None,
            };
            Some(Question::Choice { instructions: about, criteria: with })
        },
        _ => None,
    }
}

/// Whether a question of a suite is one to add an option to: a Choice of three
/// to ten.
pub fn takes_distractor(q: &Question) -> (r: bool)
    ensures
        r == (match q@ {
            QuestionView::Choice { instructions, criteria } => 3 <= criteria.len() <= 10,
            _ => false,
        }),
{
    match q {
        Question::Choice { instructions: _, criteria } => {
            let n: usize = criteria_entries(criteria).len();
            3 <= n && n <= 10
        },
        _ => false,
    }
}

/// A distractor is one option more, the last, under a key that was not there,
/// with the distractor's text; everything else of the question stays. A
/// question whose options are numbered gets the next number.
pub proof fn distractors_are_added_last(q: QuestionView, name: Seq<char>, text: Seq<char>, i: int)
    requires
        distracted(q, name, text) is Some,
    ensures
        q is Choice,
        distracted(q, name, text)->0 is Choice,
        ({
            let before = q->Choice_criteria;
            let after = distracted(q, name, text)->0->Choice_criteria;
            &&& distracted(q, name, text)->0->Choice_instructions == q->Choice_instructions
            &&& after.len() == before.len() + 1
            &&& 0 <= i < before.len() ==> after[i] == before[i]
            &&& 0 <= i < before.len() ==> before[i].0 != after.last().0
            &&& after.last().1 == Some(JsonView::Str(text))
            &&& !indexed(before) ==> after.last().0 == name
            &&& indexed(before) ==> after.last().0 == decimal(before.len())
        }),
{
    let before = q->Choice_criteria;
    let key = added_key(before, name);
    if 0 <= i < before.len() && before[i].0 == key {
        present_is_found(before, key, i);
    }
}

proof fn present_is_found<T>(es: Seq<(Seq<char>, T)>, key: Seq<char>, i: int)
    requires
        0 <= i < es.len(),
        es[i].0 == key,
    ensures
        find(es, key) is Some,
    decreases es.len(),
{
    if es[0].0 != key {
        assert(es.drop_first()[i - 1] == es[i]);
        present_is_found(es.drop_first(), key, i - 1);
    }
}

/// A text reads as a size exactly where it is digits, with at most a plus sign
/// before them, of a number that is one; a number's decimal text does.
pub proof fn numbers_read_as_sizes(n: nat)
    requires
        n <= usize::MAX,
    ensures
        is_size_text(decimal(n)),
        !is_size_text(Seq::empty()),
        !is_size_text(seq!['+']),
        !is_size_text(seq!['a']),
{
    let s = decimal(n);
    assert(seq!['+'].drop_first() =~= Seq::empty());
    assert(seq!['a'][0] == 'a');
    assert(s.len() > 0) by {
        reveal_with_fuel(decimal, 2);
    }
    assert forall|i: int| 0 <= i < s.len() implies '0' <= #[trigger] s[i] && s[i] <= '9' by {
        decimals_read_back(n, i);
    }
    decimals_read_back(n, 0);
    value_is_read(s);
}

proof fn value_is_read(s: Seq<char>)
    requires
        all_digits(s),
    ensures
        digits_value(s) == number_read(s),
    decreases s.len(),
{
    if s.len() > 0 {
        assert('0' <= s[s.len() - 1]);
        assert forall|i: int| 0 <= i < s.drop_last().len() implies '0' <= #[trigger] s.drop_last()[i]
            && s.drop_last()[i] <= '9' by {
            assert(s.drop_last()[i] == s[i]);
        }
        value_is_read(s.drop_last());
    }
}

/// The layout is that of the turns which the vocabulary has: its own turn
/// tokens open the user's turn and hand over to the model's, and what no
/// vocabulary names is the oldest layout.
pub proof fn layouts_use_the_vocabularys_turns<B: Backend>(b: &B)
    ensures
        ({
            let l = label_layout(b);
            let special = |s: Seq<char>| SegmentView::Special(s);
            &&& l is Label && !l->terse && !l->pointer
            &&& b.special_token("<|turn>"@) is Ok ==> l->family == "gemma"@ && l->user_open.contains(
                special("<|turn>"@),
            ) && l->model_open.contains(special("<turn|>"@)) && l->user_open[0] is Bos
            &&& b.special_token("<|turn>"@) is Err && b.special_token("<|im_start|>"@) is Ok
                ==> l->family == "qwen"@ && l->user_open.contains(special("<|im_start|>"@))
                && l->model_open.contains(special("<|im_end|>"@)) && !(l->user_open[0] is Bos)
            &&& b.special_token("<|turn>"@) is Err && b.special_token("<|im_start|>"@) is Err
                && b.special_token("<｜User｜>"@) is Ok ==> l->family == "deepseek"@
                && l->user_open.contains(special("<｜User｜>"@)) && l->model_open.contains(
                special("<｜Assistant｜>"@),
            ) && l->user_open[0] is Bos
            &&& b.special_token("<|turn>"@) is Err && b.special_token("<|im_start|>"@) is Err
                && b.special_token("<｜User｜>"@) is Err ==> l->family == "gemma"@
                && l->user_open.contains(special("<start_of_turn>"@)) && l->model_open.contains(
                special("<end_of_turn>"@),
            ) && l->user_open[0] is Bos
        }),
{
    let l = label_layout(b);
    if b.special_token("<|turn>"@) is Ok {
        assert(l->user_open[1] == SegmentView::Special("<|turn>"@));
        assert(l->model_open[0] == SegmentView::Special("<turn|>"@));
    } else if b.special_token("<|im_start|>"@) is Ok {
        assert(l->user_open[0] == SegmentView::Special("<|im_start|>"@));
        assert(l->model_open[0] == SegmentView::Special("<|im_end|>"@));
    } else if b.special_token("<｜User｜>"@) is Ok {
        assert(l->user_open[1] == SegmentView::Special("<｜User｜>"@));
        assert(l->model_open[0] == SegmentView::Special("<｜Assistant｜>"@));
    } else {
        assert(l->user_open[1] == SegmentView::Special("<start_of_turn>"@));
        assert(l->model_open[0] == SegmentView::Special("<end_of_turn>"@));
    }
}

/// A directory is a checkpoint's where it has both configurations of a
/// snapshot, or a list of files and a configuration with an agent's part; one
/// of the two alone does not make it one.
pub proof fn directories_are_told_by_their_files(
    agent: bool,
    encoder: bool,
    manifest: bool,
    config: Option<JsonView>,
)
    ensures
        agent && encoder ==> laya_dir_view(agent, encoder, manifest, config),
        laya_dir_view(agent, encoder, manifest, config) && !manifest ==> agent && encoder,
        laya_dir_view(agent, encoder, manifest, config) && config is None ==> agent && encoder,
        manifest && config is Some && has_field(config->0, "laya_agent"@) ==> laya_dir_view(
            agent,
            encoder,
            manifest,
            config,
        ),
        laya_dir_view(agent, encoder, manifest, config) && !(agent && encoder) ==> has_field(
            config->0,
            "laya_agent"@,
        ),
{
}

/// A directory's name is a hash exactly where it is at least 32 characters of
/// hexadecimal digits.
pub proof fn hashes_are_long_and_hexadecimal(name: Seq<char>, i: int)
    requires
        0 <= i < name.len(),
    ensures
        name.len() < 32 ==> !is_hash(name),
        is_hash(name) ==> ('0' <= name[i] <= '9') || ('a' <= name[i] <= 'f') || ('A' <= name[i]
            <= 'F'),
        name[i] == '-' || name[i] == 'g' || name[i] == '_' ==> !is_hash(name),
{
}

/// A reasoning model starts its answer behind a thought that is opened and
/// closed with nothing in it, and a model without thoughts is not shown one.
pub proof fn answers_start_behind_an_empty_thought<B: Backend>(b: &B)
    ensures
        ({
            let m = label_layout(b)->model_open;
            let n = m.len() as int;
            let blank = SegmentView::Text(seq!['\n', '\n']);
            if label_layout(b)->family != "gemma"@ {
                &&& n > 4
                &&& m[n - 4] == SegmentView::Special("<think>"@) && m[n - 3] == blank
                &&& m[n - 2] == SegmentView::Special("</think>"@) && m[n - 1] == blank
            } else {
                !m.contains(SegmentView::Special("<think>"@))
            }
        }),
{
    reveal_strlit("gemma");
    reveal_strlit("qwen");
    reveal_strlit("deepseek");
    reveal_strlit("<think>");
    reveal_strlit("<|turn>");
    reveal_strlit("<turn|>");
    reveal_strlit("<start_of_turn>");
    reveal_strlit("<end_of_turn>");
    assert("gemma"@[0] == 'g' && "qwen"@[0] == 'q' && "deepseek"@[0] == 'd');
    assert("<think>"@[1] == 't' && "<think>"@[2] == 'h' && "<turn|>"@[2] == 'u');
    assert("<|turn>"@[1] == '|' && "<start_of_turn>"@[1] == 's' && "<end_of_turn>"@[1] == 'e');
}

} // verus!

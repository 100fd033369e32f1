//! Turning a request into a shared prefix and one branch per question.
//!
//! The renderer is the single place that decides what the model sees. Training
//! data and live requests go through the same code, so the model never meets a
//! layout at inference that it did not see in training.

use indexmap::IndexMap;
use vstd::prelude::*;
use vstd::string::StringExecFns;

use crate::api::{content, content_text, state_block, state_text, Question, QuestionView, Request};
use crate::json::{Json, JsonView};
use crate::map::{
    criteria_entries, criteria_of, criterion, find, no_orders, opt_json, order_of, orders_of,
    question_entries, questions_of,
};
use crate::readout::{label, label_char, LABELS};
use crate::text::{decimal, ends_in, join, push_decimal, texts};

verus! {

/// A piece of text or a control token. Backends tokenize `Text` without
/// parsing specials, and resolve `Special` by name, so user text can never
/// forge a delimiter.
#[derive(Debug, PartialEq, Eq)]
pub enum Segment {
    Bos,
    Text(String),
    Special(String),
}

/// A segment with its text as a sequence.
pub enum SegmentView {
    Bos,
    Text(Seq<char>),
    Special(Seq<char>),
}

impl View for Segment {
    type V = SegmentView;

    open spec fn view(&self) -> SegmentView {
        match self {
            Segment::Bos => SegmentView::Bos,
            Segment::Text(t) => SegmentView::Text(t@),
            Segment::Special(t) => SegmentView::Special(t@),
        }
    }
}

impl Clone for Segment {
    fn clone(&self) -> (r: Segment)
        ensures
            r@ == self@,
    {
        match self {
            Segment::Bos => Segment::Bos,
            Segment::Text(t) => Segment::Text(t.clone()),
            Segment::Special(t) => Segment::Special(t.clone()),
        }
    }
}

/// The views of a list of segments.
pub open spec fn seg_views(s: Seq<Segment>) -> Seq<SegmentView> {
    s.map_values(|x: Segment| x@)
}

#[derive(Debug, Clone, Copy, PartialEq, Eq, Structural)]
pub enum Kind {
    Noul,
    Choice,
    Score,
}

/// Which token of a segment the readout wants.
#[derive(Debug, Clone, Copy, PartialEq, Eq, Structural)]
pub enum Mark {
    /// Last token of the `i`-th option's closing segment (pointer readout).
    OptEnd(usize),
    /// The deciding token (pointer readout).
    Decide,
    /// Last token of the branch (label readout).
    Last,
}

#[derive(Debug, Clone, PartialEq, Eq)]
pub struct RenderedBranch {
    pub id: String,
    pub kind: Kind,
    /// Option keys in rendered order (Choice keys, Score level indices as
    /// strings, `true`/`false` for Noul). `order[i]` is the original index.
    pub keys: Vec<String>,
    pub order: Vec<usize>,
    pub segments: Vec<Segment>,
    /// `(segment index, mark)` pairs; the wanted token is the last token of
    /// that segment.
    pub marks: Vec<(usize, Mark)>,
}

/// A branch with its lists as sequences.
#[verifier::ext_equal]
pub struct BranchView {
    pub id: Seq<char>,
    pub kind: Kind,
    pub keys: Seq<Seq<char>>,
    pub order: Seq<usize>,
    pub segments: Seq<SegmentView>,
    pub marks: Seq<(usize, Mark)>,
}

impl View for RenderedBranch {
    type V = BranchView;

    open spec fn view(&self) -> BranchView {
        BranchView {
            id: self.id@,
            kind: self.kind,
            keys: texts(self.keys@),
            order: self.order@,
            segments: seg_views(self.segments@),
            marks: self.marks@,
        }
    }
}

#[derive(Debug)]
pub struct Rendered {
    pub prefix: Vec<Segment>,
    pub branches: Vec<RenderedBranch>,
}

/// Delimiter control tokens for the pointer layout. Defaults reuse reserved
/// `<unused*>` tokens so no embedding rows have to be added.
#[derive(Debug)]
pub struct Delimiters {
    pub state: String,
    pub question: String,
    pub opt: String,
    pub opt_end: String,
    pub decide: String,
}

/// Delimiters as text.
pub struct DelimitersView {
    pub state: Seq<char>,
    pub question: Seq<char>,
    pub opt: Seq<char>,
    pub opt_end: Seq<char>,
    pub decide: Seq<char>,
}

impl View for Delimiters {
    type V = DelimitersView;

    open spec fn view(&self) -> DelimitersView {
        DelimitersView {
            state: self.state@,
            question: self.question@,
            opt: self.opt@,
            opt_end: self.opt_end@,
            decide: self.decide@,
        }
    }
}

impl Default for Delimiters {
    fn default() -> (d: Delimiters)
        ensures
            d@ == (DelimitersView {
                state: "<unused0>"@,
                question: "<unused1>"@,
                opt: "<unused2>"@,
                opt_end: "<unused3>"@,
                decide: "<unused4>"@,
            }),
    {
        Delimiters {
            state: "<unused0>".to_owned(),
            question: "<unused1>".to_owned(),
            opt: "<unused2>".to_owned(),
            opt_end: "<unused3>".to_owned(),
            decide: "<unused4>".to_owned(),
        }
    }
}

/// How the request is laid out for the model.
#[derive(Debug)]
pub enum Renderer {
    /// Zero-shot layout for an instruction-tuned chat model: the question and
    /// lettered options go in a user turn, the model turn is opened, and the
    /// readout looks at the next-token logits over the letters.
    Label {
        /// Model family the chat template belongs to; names the layout in
        /// run metadata.
        family: String,
        /// Everything before the state: BOS if the tokenizer prepends one,
        /// the user-turn opener and role line.
        user_open: Vec<Segment>,
        /// Everything after the question: closes the user turn, opens the
        /// model turn, and prefills what the template writes before the
        /// first answer token. The readout position is the last token.
        model_open: Vec<Segment>,
        /// Drop the "Question:" / "Answer with one letter." scaffolding: the
        /// branch is the instruction, the lettered options and the model
        /// turn.
        terse: bool,
        /// Same prompt, read with a pointer head instead of the letter
        /// logits: every option line's last token is marked `OptEnd` and the
        /// model-turn position `Decide`.
        pointer: bool,
    },
    /// Packed layout with reserved delimiters and a trained pointer head.
    Pointer(Delimiters),
}

/// A layout with its text as sequences.
#[verifier::ext_equal]
pub enum LayoutView {
    Label {
        family: Seq<char>,
        user_open: Seq<SegmentView>,
        model_open: Seq<SegmentView>,
        terse: bool,
        pointer: bool,
    },
    Pointer(DelimitersView),
}

impl View for Renderer {
    type V = LayoutView;

    open spec fn view(&self) -> LayoutView {
        match self {
            Renderer::Label { family, user_open, model_open, terse, pointer } => LayoutView::Label {
                family: family@,
                user_open: seg_views(user_open@),
                model_open: seg_views(model_open@),
                terse: *terse,
                pointer: *pointer,
            },
            Renderer::Pointer(d) => LayoutView::Pointer(d@),
        }
    }
}

/// The family a label layout belongs to when it names none.
pub fn default_family() -> (r: String)
    ensures
        r@ == "gemma"@,
{
    "gemma".to_owned()
}

/// Options of a question as `(key, description)` texts.
pub type OptionTexts = Seq<(Seq<char>, Option<Seq<char>>)>;

/// The text of optional content.
pub open spec fn opt_content(v: Option<JsonView>) -> Option<Seq<char>> {
    match v {
        Some(j) => Some(content(j)),
        None => None,
    }
}

/// The kind of a question.
pub open spec fn kind_of(q: QuestionView) -> Kind {
    match q {
        QuestionView::Noul { .. } => Kind::Noul,
        QuestionView::Choice { .. } => Kind::Choice,
        QuestionView::Score { .. } => Kind::Score,
    }
}

/// The instruction the model reads: the question's own, or its kind's default.
pub open spec fn instruction(q: QuestionView) -> Seq<char> {
    match q {
        QuestionView::Noul { instructions, .. } => match instructions {
            Some(j) => content(j),
            None => "Is the statement true?"@,
        },
        QuestionView::Choice { instructions, .. } => match instructions {
            Some(j) => content(j),
            None => "Choose the best matching option."@,
        },
        QuestionView::Score { instructions, .. } => match instructions {
            Some(j) => content(j),
            None => "Select the most appropriate level."@,
        },
    }
}

/// The description of a Noul's truth value, if its criteria give one.
pub open spec fn truth_text(
    c: Option<Seq<(Seq<char>, Option<JsonView>)>>,
    key: Seq<char>,
) -> Option<Seq<char>> {
    match c {
        Some(es) => match find(es, key) {
            Some(v) => opt_content(v),
            None => None,
        },
        None => None,
    }
}

/// The options of a question in request order: a Choice's keys with their
/// descriptions, a Score's levels keyed by index, and true and false.
pub open spec fn option_texts(q: QuestionView) -> OptionTexts {
    match q {
        QuestionView::Choice { criteria, .. } => criteria.map_values(
            |e: (Seq<char>, Option<JsonView>)| (e.0, opt_content(e.1)),
        ),
        QuestionView::Score { criteria, .. } => criteria.map(
            |i: int, j: JsonView| (decimal(i as nat), Some(content(j))),
        ),
        QuestionView::Noul { criteria, .. } => seq![
            ("true"@, truth_text(criteria, "true"@)),
            ("false"@, truth_text(criteria, "false"@)),
        ],
    }
}

/// The text of an owned option.
pub open spec fn option_view(e: (String, Option<String>)) -> (Seq<char>, Option<Seq<char>>) {
    (
        e.0@,
        match e.1 {
            Some(d) => Some(d@),
            None => None,
        },
    )
}

/// The texts of an owned option list.
pub open spec fn option_views(v: Seq<(String, Option<String>)>) -> OptionTexts {
    v.map_values(|e: (String, Option<String>)| option_view(e))
}

fn opt_text(v: &Option<Json>) -> (r: Option<String>)
    ensures
        match r {
            Some(s) => opt_content(opt_json(*v)) == Some(s@),
            None => opt_content(opt_json(*v)) is None,
        },
{
    match v {
        Some(j) => Some(content_text(j)),
        None => None,
    }
}

fn truth_of(criteria: &Option<IndexMap<String, Option<Json>>>, key: &str) -> (r: Option<String>)
    ensures
        ({
            let c = match *criteria {
                Some(m) => Some(criteria_of(m)),
                None => None,
            };
            match r {
                Some(s) => truth_text(c, key@) == Some(s@),
                None => truth_text(c, key@) is None,
            }
        }),
{
    match criteria {
        Some(m) => match criterion(m, key) {
            Some(v) => opt_text(v),
            None => None,
        },
        None => None,
    }
}

fn or_default(v: &Option<Json>, fallback: &str) -> (r: String)
    ensures
        r@ == (match *v {
            Some(j) => content(j@),
            None => fallback@,
        }),
{
    match v {
        Some(j) => content_text(j),
        None => fallback.to_owned(),
    }
}

/// `(kind, instructions text, [(key, description)])` for a question.
pub fn options_of(q: &Question) -> (r: (Kind, String, Vec<(String, Option<String>)>))
    ensures
        r.0 == kind_of(q@),
        r.1@ == instruction(q@),
        option_views(r.2@) == option_texts(q@),
{
    match q {
        Question::Choice { instructions, criteria } => {
            let entries = criteria_entries(criteria);
            let mut out: Vec<(String, Option<String>)> = Vec::new();
            let ghost want = option_texts(q@);
            let mut i: usize = 0;
            while i < entries.len()
                invariant
                    0 <= i <= entries@.len(),
                    entries@.len() == criteria_of(*criteria).len(),
                    forall|j: int|
                        #![trigger entries@[j]]
                        0 <= j < entries@.len() ==> entries@[j].0@ == criteria_of(*criteria)[j].0
                            && opt_json(*entries@[j].1) == criteria_of(*criteria)[j].1,
                    want == criteria_of(*criteria).map_values(
                        |e: (Seq<char>, Option<JsonView>)| (e.0, opt_content(e.1)),
                    ),
                    out@.len() == i,
                    forall|j: int| 0 <= j < i ==> option_view(#[trigger] out@[j]) == want[j],
                decreases entries@.len() - i,
            {
                let (k, d) = entries[i];
                out.push((k.clone(), opt_text(d)));
                assert(option_view(out@[i as int]) == want[i as int]);
                i += 1;
            }
            assert(option_views(out@) =~= want);
            (Kind::Choice, or_default(instructions, "Choose the best matching option."), out)
        },
        Question::Score { instructions, criteria } => {
            let mut out: Vec<(String, Option<String>)> = Vec::new();
            let ghost want = option_texts(q@);
            let mut i: usize = 0;
            while i < criteria.len()
                invariant
                    0 <= i <= criteria@.len(),
                    want.len() == criteria@.len(),
                    forall|j: int|
                        0 <= j < want.len() ==> #[trigger] want[j] == (
                            decimal(j as nat),
                            Some(content(criteria@[j]@)),
                        ),
                    out@.len() == i,
                    forall|j: int| 0 <= j < i ==> option_view(#[trigger] out@[j]) == want[j],
                decreases criteria@.len() - i,
            {
                let mut k: String = String::new();
                push_decimal(&mut k, i as u64);
                assert(k@ =~= decimal(i as nat));
                out.push((k, Some(content_text(&criteria[i]))));
                assert(option_view(out@[i as int]) == want[i as int]);
                i += 1;
            }
            assert(option_views(out@) =~= want);
            (Kind::Score, or_default(instructions, "Select the most appropriate level."), out)
        },
        Question::Noul { instructions, criteria } => {
            let mut out: Vec<(String, Option<String>)> = Vec::new();
            out.push(("true".to_owned(), truth_of(criteria, "true")));
            out.push(("false".to_owned(), truth_of(criteria, "false")));
            assert(option_views(out@) =~= option_texts(q@));
            (Kind::Noul, or_default(instructions, "Is the statement true?"), out)
        },
    }
}

/// The label of option slot `i`: its letter, or its number past the last one.
pub open spec fn slot_label(i: int) -> Seq<char> {
    if i < LABELS.len() {
        seq![label_char(i)]
    } else {
        decimal(i as nat)
    }
}

/// A key with its description, when there is one to show.
pub open spec fn described(opt: (Seq<char>, Option<Seq<char>>)) -> Seq<char> {
    match opt.1 {
        Some(d) if d.len() > 0 => opt.0 + " — "@ + d,
        _ => opt.0,
    }
}

/// The options at `order`, one per slot.
pub open spec fn ordered(opts: OptionTexts, order: Seq<usize>) -> OptionTexts {
    order.map_values(|o: usize| opts[o as int])
}

/// The line of each option slot in the label layout.
pub open spec fn label_lines(opts: OptionTexts) -> Seq<Seq<char>> {
    opts.map(|i: int, o: (Seq<char>, Option<Seq<char>>)| slot_label(i) + ": "@ + described(o))
}

/// What stands before the first option line.
pub open spec fn label_head(instr: Seq<char>, terse: bool) -> Seq<char> {
    (if terse {
        instr
    } else {
        "Question: "@ + instr
    }).push('\n')
}

/// The question text cut behind every option line: piece `i` ends with option
/// line `i`, the last piece holds what follows the options.
pub open spec fn label_pieces(head: Seq<char>, lines: Seq<Seq<char>>, terse: bool) -> Seq<
    Seq<char>,
> {
    Seq::new(
        lines.len() + 1,
        |i: int|
            {
                let lead = if i == 0 {
                    head
                } else {
                    seq!['\n']
                };
                if i < lines.len() {
                    lead + lines[i]
                } else if terse {
                    lead.drop_last()
                } else {
                    lead + "Answer with one letter."@
                }
            },
    )
}

/// The segments of a branch in a label layout: one text, or one per piece
/// when a pointer head reads it, then the opener of the model turn.
pub open spec fn label_segments(
    pieces: Seq<Seq<char>>,
    pointer: bool,
    model_open: Seq<SegmentView>,
) -> Seq<SegmentView> {
    if pointer {
        pieces.map_values(|t: Seq<char>| SegmentView::Text(t)) + model_open
    } else {
        seq![SegmentView::Text(pieces.flatten())] + model_open
    }
}

/// The marks of a branch in a label layout.
pub open spec fn label_marks(k: nat, pointer: bool, n_segments: nat) -> Seq<(usize, Mark)> {
    if pointer {
        Seq::new(k, |i: int| (i as usize, Mark::OptEnd(i as usize))).push(
            ((n_segments - 1) as usize, Mark::Decide),
        )
    } else {
        seq![((n_segments - 1) as usize, Mark::Last)]
    }
}

/// The segments of a branch in the pointer layout: three per option between
/// the question and the deciding token.
pub open spec fn pointer_segments(
    d: DelimitersView,
    instr: Seq<char>,
    opts: OptionTexts,
) -> Seq<SegmentView> {
    Seq::new(
        3 * opts.len() + 3,
        |i: int|
            if i == 0 {
                SegmentView::Special(d.question)
            } else if i == 1 {
                SegmentView::Text(instr)
            } else if i == 3 * opts.len() + 2 {
                SegmentView::Special(d.decide)
            } else if (i - 2) % 3 == 0 {
                SegmentView::Special(d.opt)
            } else if (i - 2) % 3 == 1 {
                SegmentView::Text(described(opts[(i - 2) / 3]))
            } else {
                SegmentView::Special(d.opt_end)
            },
    )
}

/// The marks of a branch in the pointer layout.
pub open spec fn pointer_marks(k: nat) -> Seq<(usize, Mark)> {
    Seq::new(k, |i: int| ((3 * i + 4) as usize, Mark::OptEnd(i as usize))).push(
        ((3 * k + 2) as usize, Mark::Decide),
    )
}

/// An order names only options there are.
pub open spec fn order_fits(order: Seq<usize>, k: nat) -> bool {
    forall|i: int| 0 <= i < order.len() ==> (#[trigger] order[i]) < k
}

/// The slots a branch renders: the given order, or every option in turn.
pub open spec fn slots_of(order: Option<Seq<usize>>, k: nat) -> Seq<usize> {
    match order {
        Some(o) => o,
        None => Seq::new(k, |i: int| i as usize),
    }
}

/// The branch of question `id` under a layout, with the options at `order`.
pub open spec fn branch_view(
    layout: LayoutView,
    id: Seq<char>,
    q: QuestionView,
    order: Seq<usize>,
) -> BranchView {
    let opts = ordered(option_texts(q), order);
    let keys = opts.map_values(|o: (Seq<char>, Option<Seq<char>>)| o.0);
    match layout {
        LayoutView::Label { family, user_open, model_open, terse, pointer } => {
            let segments = label_segments(
                label_pieces(label_head(instruction(q), terse), label_lines(opts), terse),
                pointer,
                model_open,
            );
            BranchView {
                id,
                kind: kind_of(q),
                keys,
                order,
                segments,
                marks: label_marks(opts.len(), pointer, segments.len()),
            }
        },
        LayoutView::Pointer(d) => BranchView {
            id,
            kind: kind_of(q),
            keys,
            order,
            segments: pointer_segments(d, instruction(q), opts),
            marks: pointer_marks(opts.len()),
        },
    }
}

fn push_slot_label(s: &mut String, i: usize)
    ensures
        final(s)@ == old(s)@ + slot_label(i as int),
{
    if i < LABELS.len() {
        s.push(label(i));
        assert(s@ =~= old(s)@ + slot_label(i as int));
    } else {
        push_decimal(s, i as u64);
    }
}

fn push_described(s: &mut String, opt: &(String, Option<String>))
    ensures
        final(s)@ == old(s)@ + described(option_view(*opt)),
{
    s.append(opt.0.as_str());
    match &opt.1 {
        Some(d) => {
            if !d.as_str().is_empty() {
                s.append(" — ");
                s.append(d.as_str());
                assert(s@ =~= old(s)@ + described(option_view(*opt)));
            }
        },
        None => {},
    }
}

fn push_all(out: &mut Vec<Segment>, more: &Vec<Segment>)
    ensures
        seg_views(final(out)@) == seg_views(old(out)@) + seg_views(more@),
{
    let ghost before = out@;
    let mut i: usize = 0;
    while i < more.len()
        invariant
            0 <= i <= more@.len(),
            out@.len() == before.len() + i,
            forall|j: int| 0 <= j < before.len() ==> (#[trigger] out@[j])@ == before[j]@,
            forall|j: int|
                before.len() <= j < before.len() + i ==> (#[trigger] out@[j])@ == more@[j
                    - before.len()]@,
        decreases more@.len() - i,
    {
        out.push(more[i].clone());
        i += 1;
    }
    assert(seg_views(out@) =~= seg_views(before) + seg_views(more@));
}

/// The question text of a label branch, cut behind every option line.
fn label_texts(instr: &str, opts: &Vec<(String, Option<String>)>, order: &Vec<usize>, terse: bool) -> (r:
    Vec<String>)
    requires
        forall|i: int| 0 <= i < order@.len() ==> (#[trigger] order@[i]) < opts@.len(),
    ensures
        texts(r@) == label_pieces(
            label_head(instr@, terse),
            label_lines(ordered(option_views(opts@), order@)),
            terse,
        ),
{
    let ghost head = label_head(instr@, terse);
    let ghost lines = label_lines(ordered(option_views(opts@), order@));
    let ghost want = label_pieces(head, lines, terse);
    let mut out: Vec<String> = Vec::new();
    let mut lead: String = String::new();
    if !terse {
        lead.append("Question: ");
    }
    lead.append(instr);
    proof {
        assert(lead@.push('\n') =~= head);
    }
    let mut first: String = lead.clone();
    first.push('\n');
    let mut text: String = first;
    let mut i: usize = 0;
    while i < order.len()
        invariant
            0 <= i <= order@.len(),
            forall|j: int| 0 <= j < order@.len() ==> (#[trigger] order@[j]) < opts@.len(),
            lines == label_lines(ordered(option_views(opts@), order@)),
            lines.len() == order@.len(),
            want == label_pieces(head, lines, terse),
            out@.len() == i,
            forall|j: int| 0 <= j < i ==> (#[trigger] out@[j])@ == want[j],
            text@ == (if i == 0 {
                head
            } else {
                seq!['\n']
            }),
        decreases order@.len() - i,
    {
        let opt = &opts[order[i]];
        push_slot_label(&mut text, i);
        text.append(": ");
        push_described(&mut text, opt);
        proof {
            assert(ordered(option_views(opts@), order@)[i as int] == option_view(*opt));
            assert(text@ =~= want[i as int]);
        }
        out.push(text);
        text = String::new();
        text.push('\n');
        assert(text@ =~= seq!['\n']);
        i += 1;
    }
    if terse {
        if i == 0 {
            out.push(lead);
            assert(out@[i as int]@ =~= want[i as int]);
        } else {
            out.push(String::new());
            assert(out@[i as int]@ =~= want[i as int]);
        }
    } else {
        text.append("Answer with one letter.");
        out.push(text);
        assert(out@[i as int]@ =~= want[i as int]);
    }
    assert(texts(out@) =~= want);
    out
}

/// All pieces in one text.
fn concat_texts(parts: &Vec<String>) -> (r: String)
    ensures
        r@ == texts(parts@).flatten(),
{
    let ghost all = texts(parts@);
    let mut out: String = String::new();
    let mut i: usize = 0;
    assert(all.take(0).flatten() =~= Seq::<char>::empty());
    while i < parts.len()
        invariant
            0 <= i <= parts@.len(),
            all == texts(parts@),
            out@ == all.take(i as int).flatten(),
        decreases parts@.len() - i,
    {
        out.append(parts[i].as_str());
        proof {
            assert(all.take(i as int + 1) =~= all.take(i as int).push(all[i as int]));
            all.take(i as int).lemma_flatten_push(all[i as int]);
        }
        i += 1;
    }
    assert(all.take(i as int) =~= all);
    out
}

impl Renderer {
    /// One branch for question `id` with the options at `order` (original
    /// indices, one per slot; a subset renders only those options).
    pub fn branch(&self, id: &str, q: &Question, order: Option<&[usize]>) -> (r: RenderedBranch)
        requires
            match order {
                Some(o) => order_fits(o@, option_texts(q@).len()),
                None => true,
            },
        ensures
            r@ == branch_view(
                self@,
                id@,
                q@,
                slots_of(
                    match order {
                        Some(o) => Some(o@),
                        None => None,
                    },
                    option_texts(q@).len(),
                ),
            ),
    {
        let (kind, instr, options) = options_of(q);
        let slots: Vec<usize> = match order {
            Some(o) => vstd::slice::slice_to_vec(o),
            None => upto(options.len()),
        };
        assert(option_views(options@).len() == options@.len());
        let ghost opts = ordered(option_texts(q@), slots@);
        let ghost want = branch_view(self@, id@, q@, slots@);
        let mut keys: Vec<String> = Vec::new();
        let mut i: usize = 0;
        while i < slots.len()
            invariant
                0 <= i <= slots@.len(),
                option_views(options@) == option_texts(q@),
                opts == ordered(option_texts(q@), slots@),
                forall|j: int| 0 <= j < slots@.len() ==> (#[trigger] slots@[j]) < options@.len(),
                keys@.len() == i,
                forall|j: int| 0 <= j < i ==> (#[trigger] keys@[j])@ == opts[j].0,
            decreases slots@.len() - i,
        {
            assert(opts[i as int] == option_view(options@[slots@[i as int] as int]));
            keys.push(options[slots[i]].0.clone());
            i += 1;
        }
        assert(texts(keys@) =~= want.keys);
        let mut segments: Vec<Segment> = Vec::new();
        let mut marks: Vec<(usize, Mark)> = Vec::new();
        match self {
            Renderer::Label { family, user_open, model_open, terse, pointer } => {
                let pieces = label_texts(instr.as_str(), &options, &slots, *terse);
                let ghost ps = texts(pieces@);
                if *pointer {
                    let mut i: usize = 0;
                    while i < pieces.len()
                        invariant
                            0 <= i <= pieces@.len(),
                            ps == texts(pieces@),
                            segments@.len() == i,
                            forall|j: int|
                                0 <= j < i ==> (#[trigger] segments@[j])@ == SegmentView::Text(
                                    ps[j],
                                ),
                            marks@ == Seq::new(
                                i as nat,
                                |j: int| (j as usize, Mark::OptEnd(j as usize)),
                            ).take(
                                if i < pieces@.len() {
                                    i as int
                                } else {
                                    pieces@.len() - 1
                                },
                            ),
                            pieces@.len() > 0,
                        decreases pieces@.len() - i,
                    {
                        segments.push(Segment::Text(pieces[i].clone()));
                        if i + 1 < pieces.len() {
                            marks.push((i, Mark::OptEnd(i)));
                        }
                        i += 1;
                        assert(marks@ =~= Seq::new(
                            i as nat,
                            |j: int| (j as usize, Mark::OptEnd(j as usize)),
                        ).take(
                            if i < pieces@.len() {
                                i as int
                            } else {
                                pieces@.len() - 1
                            },
                        ));
                    }
                    assert(seg_views(segments@) =~= ps.map_values(
                        |t: Seq<char>| SegmentView::Text(t),
                    ));
                } else {
                    segments.push(Segment::Text(concat_texts(&pieces)));
                    assert(seg_views(segments@) =~= seq![SegmentView::Text(ps.flatten())]);
                }
                push_all(&mut segments, model_open);
                assert(seg_views(segments@) == want.segments);
                assert(seg_views(segments@).len() == segments@.len());
                marks.push(
                    (
                        segments.len() - 1,
                        if *pointer {
                            Mark::Decide
                        } else {
                            Mark::Last
                        },
                    ),
                );
                assert(marks@ =~= want.marks);
            },
            Renderer::Pointer(d) => {
                segments.push(Segment::Special(d.question.clone()));
                segments.push(Segment::Text(instr));
                let ghost all = pointer_segments(d@, instruction(q@), opts);
                let mut i: usize = 0;
                while i < slots.len()
                    invariant
                        0 <= i <= slots@.len(),
                        option_views(options@) == option_texts(q@),
                        opts == ordered(option_texts(q@), slots@),
                        forall|j: int|
                            0 <= j < slots@.len() ==> (#[trigger] slots@[j]) < options@.len(),
                        all == pointer_segments(d@, instruction(q@), opts),
                        segments@.len() == 3 * i + 2,
                        forall|j: int|
                            0 <= j < segments@.len() ==> (#[trigger] segments@[j])@ == all[j],
                        marks@ == pointer_marks(slots@.len()).take(i as int),
                    decreases slots@.len() - i,
                {
                    let opt = &options[slots[i]];
                    assert(opts[i as int] == option_view(*opt));
                    segments.push(Segment::Special(d.opt.clone()));
                    let mut text: String = String::new();
                    push_described(&mut text, opt);
                    assert(text@ =~= described(opts[i as int]));
                    segments.push(Segment::Text(text));
                    segments.push(Segment::Special(d.opt_end.clone()));
                    marks.push((segments.len() - 1, Mark::OptEnd(i)));
                    i += 1;
                    assert(marks@ =~= pointer_marks(slots@.len()).take(i as int));
                }
                segments.push(Segment::Special(d.decide.clone()));
                assert(seg_views(segments@) =~= want.segments);
                marks.push((segments.len() - 1, Mark::Decide));
                assert(marks@ =~= want.marks);
            },
        }
        RenderedBranch { id: id.to_owned(), kind, keys, order: slots, segments, marks }
    }
}

/// `0..n` as a list.
pub(crate) fn upto(n: usize) -> (r: Vec<usize>)
    ensures
        r@ == Seq::new(n as nat, |i: int| i as usize),
{
    let mut out: Vec<usize> = Vec::new();
    let mut i: usize = 0;
    while i < n
        invariant
            0 <= i <= n,
            out@ == Seq::new(i as nat, |j: int| j as usize),
        decreases n - i,
    {
        out.push(i);
        i += 1;
        assert(out@ =~= Seq::new(i as nat, |j: int| j as usize));
    }
    out
}

/// A chat layout whose turns run `<turn_start>role\n … <turn_end>\n`.
pub open spec fn turns_view(
    family: Seq<char>,
    bos: bool,
    turn_start: Seq<char>,
    turn_end: Seq<char>,
    user: Seq<char>,
    model: Seq<char>,
) -> LayoutView {
    LayoutView::Label {
        family,
        user_open: (if bos {
            seq![SegmentView::Bos]
        } else {
            seq![]
        }) + seq![SegmentView::Special(turn_start), SegmentView::Text(user.push('\n'))],
        model_open: seq![
            SegmentView::Special(turn_end),
            SegmentView::Text(seq!['\n']),
            SegmentView::Special(turn_start),
            SegmentView::Text(model.push('\n')),
        ],
        terse: false,
        pointer: false,
    }
}

/// The empty thinking block a reasoning model's template writes when thinking
/// is off, so the first answer token is the letter.
pub open spec fn no_think_view() -> Seq<SegmentView> {
    seq![
        SegmentView::Special("<think>"@),
        SegmentView::Text(seq!['\n', '\n']),
        SegmentView::Special("</think>"@),
        SegmentView::Text(seq!['\n', '\n']),
    ]
}

/// The packed layout with delimiters out of the reserved tokens.
pub open spec fn gemma_pointer_view() -> LayoutView {
    LayoutView::Pointer(
        DelimitersView {
            state: "<unused0>"@,
            question: "<unused1>"@,
            opt: "<unused2>"@,
            opt_end: "<unused3>"@,
            decide: "<unused4>"@,
        },
    )
}

/// The layout with `terse` set.
pub open spec fn with_terse(l: LayoutView, on: bool) -> LayoutView {
    match l {
        LayoutView::Label { family, user_open, model_open, terse, pointer } => LayoutView::Label {
            family,
            user_open,
            model_open,
            terse: on,
            pointer,
        },
        LayoutView::Pointer(d) => LayoutView::Pointer(d),
    }
}

/// The layout with `pointer` set.
pub open spec fn with_pointer(l: LayoutView, on: bool) -> LayoutView {
    match l {
        LayoutView::Label { family, user_open, model_open, terse, pointer } => LayoutView::Label {
            family,
            user_open,
            model_open,
            terse,
            pointer: on,
        },
        LayoutView::Pointer(d) => LayoutView::Pointer(d),
    }
}

fn line_break() -> (r: String)
    ensures
        r@ == seq!['\n'],
{
    let mut s: String = String::new();
    s.push('\n');
    assert(s@ =~= seq!['\n']);
    s
}

fn blank_line() -> (r: String)
    ensures
        r@ == seq!['\n', '\n'],
{
    let mut s: String = line_break();
    s.push('\n');
    assert(s@ =~= seq!['\n', '\n']);
    s
}

impl Renderer {
    /// A `<turn_start>role\n … <turn_end>\n` chat layout (Gemma, ChatML).
    pub fn turns(
        family: &str,
        bos: bool,
        turn_start: &str,
        turn_end: &str,
        user: &str,
        model: &str,
    ) -> (r: Renderer)
        ensures
            r@ == turns_view(family@, bos, turn_start@, turn_end@, user@, model@),
    {
        let mut user_open: Vec<Segment> = Vec::new();
        if bos {
            user_open.push(Segment::Bos);
        }
        user_open.push(Segment::Special(turn_start.to_owned()));
        let mut role: String = user.to_owned();
        role.push('\n');
        user_open.push(Segment::Text(role));
        let mut reply: String = model.to_owned();
        reply.push('\n');
        let mut model_open: Vec<Segment> = Vec::new();
        model_open.push(Segment::Special(turn_end.to_owned()));
        model_open.push(Segment::Text(line_break()));
        model_open.push(Segment::Special(turn_start.to_owned()));
        model_open.push(Segment::Text(reply));
        let r = Renderer::Label {
            family: family.to_owned(),
            user_open,
            model_open,
            terse: false,
            pointer: false,
        };
        assert(r@ =~= turns_view(family@, bos, turn_start@, turn_end@, user@, model@));
        r
    }

    /// Gemma 4 chat layout: `<bos><|turn>user\n…<turn|>\n<|turn>model\n`.
    /// Thinking stays off, so the first model token is the answer.
    pub fn gemma_label() -> (r: Renderer)
        ensures
            r@ == turns_view("gemma"@, true, "<|turn>"@, "<turn|>"@, "user"@, "model"@),
    {
        Renderer::turns("gemma", true, "<|turn>", "<turn|>", "user", "model")
    }

    /// Gemma 3 chat layout (`<start_of_turn>` / `<end_of_turn>`).
    pub fn gemma3_label() -> (r: Renderer)
        ensures
            r@ == turns_view(
                "gemma"@,
                true,
                "<start_of_turn>"@,
                "<end_of_turn>"@,
                "user"@,
                "model"@,
            ),
    {
        Renderer::turns("gemma", true, "<start_of_turn>", "<end_of_turn>", "user", "model")
    }

    /// The empty thinking block of a reasoning model's template.
    pub fn no_think() -> (r: Vec<Segment>)
        ensures
            seg_views(r@) == no_think_view(),
    {
        let mut out: Vec<Segment> = Vec::new();
        out.push(Segment::Special("<think>".to_owned()));
        out.push(Segment::Text(blank_line()));
        out.push(Segment::Special("</think>".to_owned()));
        out.push(Segment::Text(blank_line()));
        assert(seg_views(out@) =~= no_think_view());
        out
    }

    /// Qwen 3.5 chat layout (ChatML): `<|im_start|>user\n…<|im_end|>\n
    /// <|im_start|>assistant\n<think>\n\n</think>\n\n`. No BOS: the
    /// tokenizer does not prepend one.
    pub fn qwen_label() -> (r: Renderer)
        ensures
            ({
                let base = turns_view(
                    "qwen"@,
                    false,
                    "<|im_start|>"@,
                    "<|im_end|>"@,
                    "user"@,
                    "assistant"@,
                );
                r@ == (LayoutView::Label {
                    family: "qwen"@,
                    user_open: base->user_open,
                    model_open: base->model_open + no_think_view(),
                    terse: false,
                    pointer: false,
                })
            }),
    {
        let r = Renderer::turns("qwen", false, "<|im_start|>", "<|im_end|>", "user", "assistant");
        match r {
            Renderer::Label { family, user_open, model_open, terse, pointer } => {
                let mut open: Vec<Segment> = model_open;
                push_all(&mut open, &Renderer::no_think());
                Renderer::Label { family, user_open, model_open: open, terse, pointer }
            },
            Renderer::Pointer(d) => Renderer::Pointer(d),
        }
    }

    /// DeepSeek R1 (and its distills) chat layout:
    /// `<｜begin▁of▁sentence｜><｜User｜>…<｜Assistant｜><think>\n\n</think>\n\n`.
    /// The closed empty block skips the reasoning so the next token is the
    /// answer.
    pub fn deepseek_label() -> (r: Renderer)
        ensures
            r@ == (LayoutView::Label {
                family: "deepseek"@,
                user_open: seq![SegmentView::Bos, SegmentView::Special("<｜User｜>"@)],
                model_open: seq![SegmentView::Special("<｜Assistant｜>"@)] + no_think_view(),
                terse: false,
                pointer: false,
            }),
    {
        let mut user_open: Vec<Segment> = Vec::new();
        user_open.push(Segment::Bos);
        user_open.push(Segment::Special("<｜User｜>".to_owned()));
        let mut model_open: Vec<Segment> = Vec::new();
        model_open.push(Segment::Special("<｜Assistant｜>".to_owned()));
        assert(seg_views(model_open@) =~= seq![SegmentView::Special("<｜Assistant｜>"@)]);
        push_all(&mut model_open, &Renderer::no_think());
        assert(seg_views(user_open@) =~= seq![
            SegmentView::Bos,
            SegmentView::Special("<｜User｜>"@),
        ]);
        Renderer::Label {
            family: "deepseek".to_owned(),
            user_open,
            model_open,
            terse: false,
            pointer: false,
        }
    }

    /// The same layout with the terse branch template.
    pub fn terse(self, on: bool) -> (r: Renderer)
        ensures
            r@ == with_terse(self@, on),
    {
        match self {
            Renderer::Label { family, user_open, model_open, terse, pointer } => Renderer::Label {
                family,
                user_open,
                model_open,
                terse: on,
                pointer,
            },
            Renderer::Pointer(d) => Renderer::Pointer(d),
        }
    }

    /// The same layout read by a pointer head (see [`Renderer::Label`]).
    pub fn pointer(self, on: bool) -> (r: Renderer)
        ensures
            r@ == with_pointer(self@, on),
    {
        match self {
            Renderer::Label { family, user_open, model_open, terse, pointer } => Renderer::Label {
                family,
                user_open,
                model_open,
                terse,
                pointer: on,
            },
            Renderer::Pointer(d) => Renderer::Pointer(d),
        }
    }

    /// Short name for logs and summaries (`gemma_label`, `qwen_label_terse`,
    /// `gemma_label_pointer`, `gemma_pointer`).
    pub fn layout_name(&self) -> (r: String)
        ensures
            r@ == (match self@ {
                LayoutView::Label { family, user_open, model_open, terse, pointer } => {
                    if pointer {
                        family + "_label_pointer"@
                    } else if terse {
                        family + "_label_terse"@
                    } else {
                        family + "_label"@
                    }
                },
                LayoutView::Pointer(_) => "gemma_pointer"@,
            }),
    {
        match self {
            Renderer::Label { family, user_open, model_open, terse, pointer } => {
                let mut s: String = family.clone();
                if *pointer {
                    s.append("_label_pointer");
                } else if *terse {
                    s.append("_label_terse");
                } else {
                    s.append("_label");
                }
                s
            },
            Renderer::Pointer(_) => "gemma_pointer".to_owned(),
        }
    }

    pub fn gemma_pointer() -> (r: Renderer)
        ensures
            r@ == gemma_pointer_view(),
    {
        Renderer::Pointer(Delimiters::default())
    }
}

/// Segments with adjacent texts merged.
pub open spec fn coalesced(s: Seq<SegmentView>) -> Seq<SegmentView>
    decreases s.len(),
{
    if s.len() == 0 {
        Seq::empty()
    } else {
        let r = coalesced(s.drop_last());
        match s.last() {
            SegmentView::Text(b) if r.len() > 0 && r.last() is Text => r.drop_last().push(
                SegmentView::Text(r.last()->Text_0 + b),
            ),
            x => r.push(x),
        }
    }
}

/// Merges adjacent text segments so the role line and the state tokenize as
/// one string.
pub fn coalesce(segments: Vec<Segment>) -> (r: Vec<Segment>)
    ensures
        seg_views(r@) == coalesced(seg_views(segments@)),
{
    let ghost all = seg_views(segments@);
    let mut out: Vec<Segment> = Vec::new();
    let mut i: usize = 0;
    while i < segments.len()
        invariant
            0 <= i <= segments@.len(),
            all == seg_views(segments@),
            seg_views(out@) == coalesced(all.take(i as int)),
        decreases segments@.len() - i,
    {
        let ghost sofar = seg_views(out@);
        let ghost before = out@;
        proof {
            assert(all.take(i as int + 1).drop_last() =~= all.take(i as int));
            assert(all.take(i as int + 1).last() == segments@[i as int]@);
        }
        let next = segments[i].clone();
        match out.pop() {
            None => {
                out.push(next);
                assert(seg_views(out@) =~= sofar.push(next@));
            },
            Some(last) => {
                assert(sofar.last() == last@);
                match (last, next) {
                    (Segment::Text(a), Segment::Text(b)) => {
                        let mut text: String = a;
                        text.append(b.as_str());
                        out.push(Segment::Text(text));
                        assert(seg_views(out@) =~= sofar.drop_last().push(
                            SegmentView::Text(sofar.last()->Text_0 + b@),
                        ));
                    },
                    (last, next) => {
                        out.push(last);
                        out.push(next);
                        assert(seg_views(out@) =~= sofar.push(next@));
                    },
                }
            },
        }
        i += 1;
    }
    assert(all.take(i as int) =~= all);
    out
}

/// The shared prefix of a request over `state` text.
pub open spec fn prefix_view(layout: LayoutView, state: Seq<char>) -> Seq<SegmentView> {
    match layout {
        LayoutView::Label { family, user_open, model_open, terse, pointer } => coalesced(
            user_open.push(SegmentView::Text("State:\n"@ + state + seq!['\n', '\n'])),
        ),
        LayoutView::Pointer(d) => seq![
            SegmentView::Bos,
            SegmentView::Special(d.state),
            SegmentView::Text(state),
        ],
    }
}

/// The order of question `id`: the given one, or request order.
pub open spec fn order_for(
    orders: Seq<(Seq<char>, Seq<usize>)>,
    id: Seq<char>,
    q: QuestionView,
) -> Seq<usize> {
    slots_of(find(orders, id), option_texts(q).len())
}

/// The branches of a request, one per question.
pub open spec fn branch_views(
    layout: LayoutView,
    qs: Seq<(Seq<char>, QuestionView)>,
    orders: Seq<(Seq<char>, Seq<usize>)>,
) -> Seq<BranchView> {
    qs.map_values(
        |e: (Seq<char>, QuestionView)|
            branch_view(layout, e.0, e.1, order_for(orders, e.0, e.1)),
    )
}

/// Every given order names options its question has.
pub open spec fn orders_fit(
    qs: Seq<(Seq<char>, QuestionView)>,
    orders: Seq<(Seq<char>, Seq<usize>)>,
) -> bool {
    forall|i: int|
        0 <= i < qs.len() ==> match find(orders, (#[trigger] qs[i]).0) {
            Some(o) => order_fits(o, option_texts(qs[i].1).len()),
            None => true,
        }
}

/// The views of a list of branches.
pub open spec fn branches_of(b: Seq<RenderedBranch>) -> Seq<BranchView> {
    b.map_values(|x: RenderedBranch| x@)
}

impl Renderer {
    /// Renders with options in their request order.
    pub fn render(&self, req: &Request) -> (r: Rendered)
        ensures
            seg_views(r.prefix@) == prefix_view(self@, state_block(req.state@)),
            branches_of(r.branches@) == branch_views(
                self@,
                questions_of(req.questions),
                Seq::empty(),
            ),
    {
        self.render_with(req, &no_orders())
    }

    /// Renders with an explicit option permutation for some questions
    /// (`orders[qid][i]` = original index of the option rendered at slot `i`).
    pub fn render_with(&self, req: &Request, orders: &IndexMap<String, Vec<usize>>) -> (r: Rendered)
        requires
            orders_fit(questions_of(req.questions), orders_of(*orders)),
        ensures
            seg_views(r.prefix@) == prefix_view(self@, state_block(req.state@)),
            branches_of(r.branches@) == branch_views(
                self@,
                questions_of(req.questions),
                orders_of(*orders),
            ),
    {
        let state = state_text(&req.state);
        let prefix: Vec<Segment> = self.prefix(state.as_str());
        let entries = question_entries(&req.questions);
        let ghost qs = questions_of(req.questions);
        let ghost os = orders_of(*orders);
        let mut branches: Vec<RenderedBranch> = Vec::new();
        let mut i: usize = 0;
        while i < entries.len()
            invariant
                0 <= i <= entries@.len(),
                entries@.len() == qs.len(),
                forall|j: int|
                    #![trigger entries@[j]]
                    0 <= j < entries@.len() ==> entries@[j].0@ == qs[j].0 && entries@[j].1@
                        == qs[j].1,
                os == orders_of(*orders),
                orders_fit(qs, os),
                branches@.len() == i,
                forall|j: int|
                    0 <= j < i ==> (#[trigger] branches@[j])@ == branch_view(
                        self@,
                        qs[j].0,
                        qs[j].1,
                        order_for(os, qs[j].0, qs[j].1),
                    ),
            decreases entries@.len() - i,
        {
            let (id, q) = entries[i];
            let order: Option<&[usize]> = match order_of(orders, id.as_str()) {
                Some(o) => Some(o.as_slice()),
                None => None,
            };
            assert(qs[i as int].0 == id@);
            branches.push(self.branch(id.as_str(), q, order));
            i += 1;
        }
        assert(branches_of(branches@) =~= branch_views(self@, qs, os));
        Rendered { prefix, branches }
    }

    /// The shared prefix over a state's text.
    pub fn prefix(&self, state: &str) -> (r: Vec<Segment>)
        ensures
            seg_views(r@) == prefix_view(self@, state@),
    {
        match self {
            Renderer::Label { family, user_open, model_open, terse, pointer } => {
                let mut text: String = "State:\n".to_owned();
                text.append(state);
                text.push('\n');
                text.push('\n');
                assert(text@ =~= "State:\n"@ + state@ + seq!['\n', '\n']);
                let mut all: Vec<Segment> = Vec::new();
                push_all(&mut all, user_open);
                all.push(Segment::Text(text));
                assert(seg_views(all@) =~= seg_views(user_open@).push(SegmentView::Text(text@)));
                coalesce(all)
            },
            Renderer::Pointer(d) => {
                let mut out: Vec<Segment> = Vec::new();
                out.push(Segment::Bos);
                out.push(Segment::Special(d.state.clone()));
                out.push(Segment::Text(state.to_owned()));
                assert(seg_views(out@) =~= prefix_view(self@, state@));
                out
            },
        }
    }
}

/// What a segment shows: a text or a special's surface form.
pub open spec fn surface(s: SegmentView) -> Seq<char> {
    match s {
        SegmentView::Bos => Seq::empty(),
        SegmentView::Text(t) => t,
        SegmentView::Special(t) => t,
    }
}

/// The prompt that segments spell.
pub open spec fn prompt_text(s: Seq<SegmentView>) -> Seq<char> {
    s.map_values(|x: SegmentView| surface(x)).flatten()
}

proof fn prompt_text_push(s: Seq<SegmentView>, x: SegmentView)
    ensures
        prompt_text(s.push(x)) == prompt_text(s) + surface(x),
{
    let m = s.map_values(|x: SegmentView| surface(x));
    assert(s.push(x).map_values(|x: SegmentView| surface(x)) =~= m.push(surface(x)));
    m.lemma_flatten_push(surface(x));
}

proof fn prompt_text_concat(a: Seq<SegmentView>, b: Seq<SegmentView>)
    ensures
        prompt_text(a + b) == prompt_text(a) + prompt_text(b),
    decreases b.len(),
{
    if b.len() == 0 {
        assert(a + b =~= a);
        assert(prompt_text(b) =~= Seq::empty());
    } else {
        prompt_text_concat(a, b.drop_last());
        prompt_text_push(a + b.drop_last(), b.last());
        prompt_text_push(b.drop_last(), b.last());
        assert((a + b.drop_last()).push(b.last()) =~= a + b);
        assert(b.drop_last().push(b.last()) =~= b);
    }
}

/// Merging adjacent texts changes nothing the segments spell, keeps no two
/// texts side by side, and keeps the specials in their order.
pub proof fn coalescing_keeps_the_prompt(s: Seq<SegmentView>)
    ensures
        prompt_text(coalesced(s)) == prompt_text(s),
        forall|i: int|
            0 < i < coalesced(s).len() ==> !(#[trigger] coalesced(s)[i] is Text && coalesced(s)[i
                - 1] is Text),
        coalesced(s).filter(|x: SegmentView| !(x is Text)) == s.filter(
            |x: SegmentView| !(x is Text),
        ),
    decreases s.len(),
{
    let p = |x: SegmentView| !(x is Text);
    reveal_with_fuel(Seq::filter, 2);
    if s.len() > 0 {
        let r = coalesced(s.drop_last());
        coalescing_keeps_the_prompt(s.drop_last());
        prompt_text_push(s.drop_last(), s.last());
        assert(s.drop_last().push(s.last()) =~= s);
        if s.last() is Text && r.len() > 0 && r.last() is Text {
            let t = SegmentView::Text(r.last()->Text_0 + s.last()->Text_0);
            prompt_text_push(r.drop_last(), t);
            prompt_text_push(r.drop_last(), r.last());
            assert(r.drop_last().push(r.last()) =~= r);
            assert(prompt_text(coalesced(s)) =~= prompt_text(s));
            assert(coalesced(s).drop_last() =~= r.drop_last());
        } else {
            prompt_text_push(r, s.last());
            assert(coalesced(s).drop_last() =~= r);
        }
    }
}

/// A label layout read by a pointer head spells the same branch as without
/// one: only the cuts between the segments differ.
pub proof fn pointer_reading_keeps_the_prompt(
    layout: LayoutView,
    id: Seq<char>,
    q: QuestionView,
    order: Seq<usize>,
)
    ensures
        prompt_text(branch_view(with_pointer(layout, true), id, q, order).segments) == prompt_text(
            branch_view(with_pointer(layout, false), id, q, order).segments,
        ),
{
    match layout {
        LayoutView::Label { family, user_open, model_open, terse, pointer } => {
            let opts = ordered(option_texts(q), order);
            let ps = label_pieces(label_head(instruction(q), terse), label_lines(opts), terse);
            let cut = ps.map_values(|t: Seq<char>| SegmentView::Text(t));
            let whole = seq![SegmentView::Text(ps.flatten())];
            prompt_text_concat(cut, model_open);
            prompt_text_concat(whole, model_open);
            assert(cut.map_values(|x: SegmentView| surface(x)) =~= ps);
            prompt_text_push(Seq::empty(), SegmentView::Text(ps.flatten()));
            assert(Seq::<SegmentView>::empty().push(SegmentView::Text(ps.flatten())) =~= whole);
            assert(prompt_text(Seq::<SegmentView>::empty()) =~= Seq::empty());
            assert(prompt_text(whole) =~= ps.flatten());
        },
        LayoutView::Pointer(d) => {},
    }
}

/// The marks of a branch name existing segments in ascending order. A branch
/// for a pointer head marks every option slot once, in slot order, and then
/// the deciding position; a branch for the letters marks its last segment.
pub proof fn marks_are_in_order(
    layout: LayoutView,
    id: Seq<char>,
    q: QuestionView,
    order: Seq<usize>,
)
    requires
        branch_view(layout, id, q, order).segments.len() <= usize::MAX,
    ensures
        ({
            let b = branch_view(layout, id, q, order);
            let heads = layout is Pointer || (layout is Label && layout->pointer);
            let k = order.len();
            &&& b.keys.len() == k
            &&& b.marks.len() == (if heads {
                k + 1
            } else {
                1
            })
            &&& forall|i: int|
                0 <= i < b.marks.len() ==> (#[trigger] b.marks[i]).0 < b.segments.len()
            &&& forall|i: int, j: int|
                0 <= i < j < b.marks.len() ==> (#[trigger] b.marks[i]).0 < (
                #[trigger] b.marks[j]).0
            &&& b.marks.last().0 == b.segments.len() - 1
            &&& b.marks.last().1 == (if heads {
                Mark::Decide
            } else {
                Mark::Last
            })
            &&& forall|i: int|
                0 <= i < b.marks.len() - 1 ==> (#[trigger] b.marks[i]).1 == Mark::OptEnd(i as usize)
        }),
{
    let b = branch_view(layout, id, q, order);
    let k = order.len();
    match layout {
        LayoutView::Label { family, user_open, model_open, terse, pointer } => {
            assert(pointer ==> b.segments.len() >= k + 1);
            assert(b.segments.len() >= 1);
        },
        LayoutView::Pointer(d) => {
            assert(b.segments.len() == 3 * k + 3);
        },
    }
}

/// The options of a question are its criteria: a Choice's keys with what their
/// criteria say, a Score's levels by their place, and for a Noul `true` before
/// `false` with what the criteria say of each. Text stands as it is.
pub proof fn options_are_the_criteria(q: QuestionView, i: int, s: Seq<char>)
    requires
        0 <= i < option_texts(q).len(),
    ensures
        match q {
            QuestionView::Choice { criteria, .. } => {
                &&& option_texts(q).len() == criteria.len()
                &&& option_texts(q)[i].0 == criteria[i].0
                &&& criteria[i].1 is None ==> option_texts(q)[i].1 is None
                &&& criteria[i].1 == Some(JsonView::Str(s)) ==> option_texts(q)[i].1 == Some(s)
            },
            QuestionView::Score { criteria, .. } => {
                &&& option_texts(q).len() == criteria.len()
                &&& option_texts(q)[i].0 == decimal(i as nat)
                &&& criteria[i] == JsonView::Str(s) ==> option_texts(q)[i].1 == Some(s)
            },
            QuestionView::Noul { criteria, .. } => {
                &&& option_texts(q).len() == 2
                &&& i == 0 ==> option_texts(q)[i].0 == "true"@
                &&& i == 1 ==> option_texts(q)[i].0 == "false"@
                &&& criteria is None ==> option_texts(q)[i].1 is None
                &&& (criteria is Some && find(criteria->0, option_texts(q)[i].0) == Some(
                    Some(JsonView::Str(s)),
                )) ==> option_texts(q)[i].1 == Some(s)
            },
        },
{
}

/// What the model is asked is the question's own instruction where it has one.
pub proof fn the_instruction_is_the_questions_own(q: QuestionView, s: Seq<char>)
    ensures
        match q {
            QuestionView::Noul { instructions, .. } => {
                &&& instructions == Some(JsonView::Str(s)) ==> instruction(q) == s
                &&& instructions is None ==> instruction(q) == "Is the statement true?"@
            },
            QuestionView::Choice { instructions, .. } => {
                &&& instructions == Some(JsonView::Str(s)) ==> instruction(q) == s
                &&& instructions is None ==> instruction(q) == "Choose the best matching option."@
            },
            QuestionView::Score { instructions, .. } => {
                &&& instructions == Some(JsonView::Str(s)) ==> instruction(q) == s
                &&& instructions is None ==> instruction(q)
                    == "Select the most appropriate level."@
            },
        },
{
}

/// A line that offers an option: its slot's letter, its key, and behind a dash
/// what there is to say of it.
pub open spec fn offered(slot: int, opt: (Seq<char>, Option<Seq<char>>)) -> Seq<char> {
    let letter = if slot < 52 {
        seq![LABELS@[slot]]
    } else {
        decimal(slot as nat)
    };
    let text = if opt.1 is None || opt.1->0 == Seq::<char>::empty() {
        opt.0
    } else {
        opt.0 + " — "@ + opt.1->0
    };
    letter + ": "@ + text
}

/// A branch's lines, each option of the order in its slot.
pub open spec fn offers(q: QuestionView, order: Seq<usize>) -> Seq<Seq<char>> {
    Seq::new(order.len(), |i: int| offered(i, option_texts(q)[order[i] as int]))
}

proof fn pieces_join(head: Seq<char>, lines: Seq<Seq<char>>, terse: bool, n: nat)
    requires
        0 < n <= lines.len(),
    ensures
        label_pieces(head, lines, terse).take(n as int).flatten() == head + join(
            lines.take(n as int),
            "\n"@,
        ),
    decreases n,
{
    reveal_strlit("\n");
    assert("\n"@ =~= seq!['\n']);
    let ps = label_pieces(head, lines, terse);
    let m = n - 1;
    assert(ps.take(n as int) =~= ps.take(m).push(ps[m]));
    ps.take(m).lemma_flatten_push(ps[m]);
    assert(lines.take(n as int).drop_last() =~= lines.take(m));
    assert(lines.take(n as int).last() == lines[m]);
    if m == 0 {
        assert(ps.take(0).flatten() =~= Seq::<char>::empty());
        assert(lines.take(1)[0] == lines[0]);
        assert(ps.take(n as int).flatten() =~= head + join(lines.take(n as int), "\n"@));
    } else {
        pieces_join(head, lines, terse, m as nat);
        assert(ps.take(n as int).flatten() =~= head + join(lines.take(n as int), "\n"@));
    }
}

proof fn lines_are_offers(q: QuestionView, order: Seq<usize>)
    ensures
        label_lines(ordered(option_texts(q), order)) == offers(q, order),
{
    let lines = label_lines(ordered(option_texts(q), order));
    assert forall|i: int| 0 <= i < order.len() implies #[trigger] lines[i] == offers(q, order)[i] by {
        if i < 52 {
            crate::readout::labels_are_letters(i);
        }
        let opt = option_texts(q)[order[i] as int];
        assert(ordered(option_texts(q), order)[i] == opt);
        if opt.1 is Some {
            assert(opt.1->0.len() == 0 ==> opt.1->0 =~= Seq::<char>::empty());
        }
        assert(lines[i] =~= offers(q, order)[i]);
    }
    assert(lines =~= offers(q, order));
}

/// Under a label layout the model reads the question's instruction on the first
/// line, then the offered options line by line in the branch's order, then the
/// request for a letter unless the layout is terse, then the opener of the
/// model's turn; and nothing else.
pub proof fn a_label_prompt_asks_and_offers(
    layout: LayoutView,
    id: Seq<char>,
    q: QuestionView,
    order: Seq<usize>,
)
    requires
        layout is Label,
        order.len() > 0,
    ensures
        prompt_text(branch_view(layout, id, q, order).segments) == (if layout->terse {
            Seq::empty()
        } else {
            "Question: "@
        }) + instruction(q) + "\n"@ + join(offers(q, order), "\n"@) + (if layout->terse {
            Seq::empty()
        } else {
            "\nAnswer with one letter."@
        }) + prompt_text(layout->model_open),
{
    let terse = layout->terse;
    let model_open = layout->model_open;
    let head = label_head(instruction(q), terse);
    let lines = label_lines(ordered(option_texts(q), order));
    let ps = label_pieces(head, lines, terse);
    let n = lines.len();
    reveal_strlit("\n");
    reveal_strlit("Answer with one letter.");
    reveal_strlit("\nAnswer with one letter.");
    assert("\n"@ =~= seq!['\n']);
    assert("\nAnswer with one letter."@ =~= seq!['\n'] + "Answer with one letter."@);
    lines_are_offers(q, order);
    pieces_join(head, lines, terse, n);
    assert(lines.take(n as int) =~= lines);
    assert(ps =~= ps.take(n as int).push(ps[n as int]));
    ps.take(n as int).lemma_flatten_push(ps[n as int]);
    let b = branch_view(with_pointer(layout, false), id, q, order);
    pointer_reading_keeps_the_prompt(layout, id, q, order);
    assert(with_pointer(layout, layout->pointer) =~= layout);
    assert(b.segments =~= seq![SegmentView::Text(ps.flatten())] + model_open);
    prompt_text_concat(seq![SegmentView::Text(ps.flatten())], model_open);
    prompt_text_push(Seq::empty(), SegmentView::Text(ps.flatten()));
    assert(Seq::<SegmentView>::empty().push(SegmentView::Text(ps.flatten())) =~= seq![
        SegmentView::Text(ps.flatten()),
    ]);
    assert(prompt_text(Seq::<SegmentView>::empty()) =~= Seq::empty());
    let want = (if terse {
        Seq::empty()
    } else {
        "Question: "@
    }) + instruction(q) + "\n"@ + join(lines, "\n"@) + (if terse {
        Seq::empty()
    } else {
        "\nAnswer with one letter."@
    });
    assert(seq!['\n'].drop_last() =~= Seq::<char>::empty());
    assert(ps.flatten() =~= want);
    assert(prompt_text(b.segments) =~= want + prompt_text(model_open));
}

/// Two questions that ask different things are read as different prompts.
pub proof fn the_model_reads_what_is_asked(
    layout: LayoutView,
    id: Seq<char>,
    a: QuestionView,
    b: QuestionView,
    order: Seq<usize>,
)
    requires
        layout is Label,
        order.len() > 0,
        offers(a, order) == offers(b, order),
        instruction(a) != instruction(b),
    ensures
        prompt_text(branch_view(layout, id, a, order).segments) != prompt_text(
            branch_view(layout, id, b, order).segments,
        ),
{
    a_label_prompt_asks_and_offers(layout, id, a, order);
    a_label_prompt_asks_and_offers(layout, id, b, order);
    let lead = if layout->terse {
        Seq::empty()
    } else {
        "Question: "@
    };
    let tail = if layout->terse {
        Seq::empty()
    } else {
        "\nAnswer with one letter."@
    };
    let rest = "\n"@ + join(offers(a, order), "\n"@) + tail + prompt_text(layout->model_open);
    let x = prompt_text(branch_view(layout, id, a, order).segments);
    let y = prompt_text(branch_view(layout, id, b, order).segments);
    assert(x =~= lead + instruction(a) + rest);
    assert(y =~= lead + instruction(b) + rest);
    if x == y {
        let n = instruction(a).len();
        assert(n == instruction(b).len());
        assert(instruction(a) =~= x.subrange(lead.len() as int, (lead.len() + n) as int));
        assert(instruction(b) =~= y.subrange(lead.len() as int, (lead.len() + n) as int));
    }
}

/// Under the pointer layout the question delimiter opens the branch, the
/// instruction follows, every option stands between its two delimiters with its
/// key and what there is to say of it, and the deciding delimiter ends it. Only
/// delimiters are control tokens.
pub proof fn a_pointer_branch_delimits_its_options(
    d: DelimitersView,
    id: Seq<char>,
    q: QuestionView,
    order: Seq<usize>,
    i: int,
)
    requires
        0 <= i < order.len(),
    ensures
        ({
            let s = branch_view(LayoutView::Pointer(d), id, q, order).segments;
            let opt = option_texts(q)[order[i] as int];
            &&& s.len() == 3 + 3 * order.len()
            &&& s[0] == SegmentView::Special(d.question)
            &&& s[1] == SegmentView::Text(instruction(q))
            &&& s[2 + 3 * i] == SegmentView::Special(d.opt)
            &&& s[3 + 3 * i] == SegmentView::Text(
                if opt.1 is None || opt.1->0 == Seq::<char>::empty() {
                    opt.0
                } else {
                    opt.0 + " — "@ + opt.1->0
                },
            )
            &&& s[4 + 3 * i] == SegmentView::Special(d.opt_end)
            &&& s.last() == SegmentView::Special(d.decide)
        }),
{
    let opts = ordered(option_texts(q), order);
    let opt = option_texts(q)[order[i] as int];
    assert(opts[i] == opt);
    if opt.1 is Some {
        assert(opt.1->0.len() == 0 ==> opt.1->0 =~= Seq::<char>::empty());
    }
    assert((2 + 3 * i - 2) % 3 == 0);
    assert((3 + 3 * i - 2) % 3 == 1 && (3 + 3 * i - 2) / 3 == i);
    assert((4 + 3 * i - 2) % 3 == 2);
}

/// The mark of an option stands behind the option: in the pointer layout on the
/// delimiter that closes it, in a label layout on the segment whose text ends
/// with the option's line.
pub proof fn marks_close_their_options(
    layout: LayoutView,
    id: Seq<char>,
    q: QuestionView,
    order: Seq<usize>,
    i: int,
)
    requires
        0 <= i < order.len(),
        layout is Label ==> layout->pointer,
        branch_view(layout, id, q, order).segments.len() <= usize::MAX,
    ensures
        ({
            let b = branch_view(layout, id, q, order);
            let at = b.marks[i].0 as int;
            &&& b.marks[i].1 == Mark::OptEnd(i as usize)
            &&& 0 <= at < b.segments.len()
            &&& layout is Pointer ==> b.segments[at] == SegmentView::Special(
                layout->Pointer_0.opt_end,
            ) && at == 4 + 3 * i
            &&& layout is Label ==> b.segments[at] is Text && ends_in(
                b.segments[at]->Text_0,
                offers(q, order)[i],
            )
        }),
{
    marks_are_in_order(layout, id, q, order);
    let b = branch_view(layout, id, q, order);
    if layout is Pointer {
        a_pointer_branch_delimits_its_options(layout->Pointer_0, id, q, order, i);
    } else {
        lines_are_offers(q, order);
        let head = label_head(instruction(q), layout->terse);
        let lines = label_lines(ordered(option_texts(q), order));
        let ps = label_pieces(head, lines, layout->terse);
        let cut = ps.map_values(|t: Seq<char>| SegmentView::Text(t));
        assert(b.segments == cut + layout->model_open);
        assert(b.segments[i] == cut[i]);
        let t = ps[i];
        let lead = if i == 0 {
            head
        } else {
            seq!['\n']
        };
        assert(t == lead + lines[i]);
        assert(t.skip(t.len() - lines[i].len()) =~= lines[i]);
    }
}

/// A branch is its question's: it carries the id, the kind and the order it was
/// asked in, and names in every slot the option of that slot.
pub proof fn branches_name_their_options(
    layout: LayoutView,
    id: Seq<char>,
    q: QuestionView,
    order: Seq<usize>,
    i: int,
)
    requires
        0 <= i < order.len(),
    ensures
        ({
            let b = branch_view(layout, id, q, order);
            &&& b.id == id
            &&& b.order == order
            &&& b.keys.len() == order.len()
            &&& b.keys[i] == option_texts(q)[order[i] as int].0
            &&& (b.kind is Noul) == (q is Noul)
            &&& (b.kind is Choice) == (q is Choice)
            &&& (b.kind is Score) == (q is Score)
        }),
{
}

/// Without an order of its own a question is asked in the order of the request,
/// else in the order given for it.
pub proof fn questions_are_asked_in_their_order(
    orders: Seq<(Seq<char>, Seq<usize>)>,
    id: Seq<char>,
    q: QuestionView,
    i: int,
)
    requires
        0 <= i < option_texts(q).len() <= usize::MAX,
    ensures
        find(orders, id) is None ==> order_for(orders, id, q).len() == option_texts(q).len()
            && order_for(orders, id, q)[i] == i,
        find(orders, id) is Some ==> order_for(orders, id, q) == find(orders, id)->0,
{
}

/// The shared prefix holds the state: under a label layout behind the opener of
/// the user's turn and a heading, under the pointer layout behind its delimiter;
/// control tokens come from the layout alone.
pub proof fn the_prefix_holds_the_state(layout: LayoutView, state: Seq<char>)
    ensures
        match layout {
            LayoutView::Label { user_open, .. } => {
                &&& prompt_text(prefix_view(layout, state)) == prompt_text(user_open) + "State:\n"@
                    + state + "\n\n"@
                &&& prefix_view(layout, state).filter(|x: SegmentView| !(x is Text))
                    == user_open.filter(|x: SegmentView| !(x is Text))
            },
            LayoutView::Pointer(d) => {
                &&& prefix_view(layout, state).len() == 3
                &&& prefix_view(layout, state)[0] is Bos
                &&& prefix_view(layout, state)[1] == SegmentView::Special(d.state)
                &&& prefix_view(layout, state)[2] == SegmentView::Text(state)
            },
        },
{
    match layout {
        LayoutView::Label { family, user_open, model_open, terse, pointer } => {
            reveal_strlit("\n\n");
            assert("\n\n"@ =~= seq!['\n', '\n']);
            let t = SegmentView::Text("State:\n"@ + state + seq!['\n', '\n']);
            coalescing_keeps_the_prompt(user_open.push(t));
            prompt_text_push(user_open, t);
            assert(prompt_text(prefix_view(layout, state)) =~= prompt_text(user_open) + "State:\n"@
                + state + "\n\n"@);
            let p = |x: SegmentView| !(x is Text);
            reveal_with_fuel(Seq::filter, 2);
            assert(user_open.push(t).drop_last() =~= user_open);
            assert(prefix_view(layout, state).filter(p) == user_open.push(t).filter(p));
            assert(user_open.push(t).filter(p) == user_open.filter(p));
        },
        LayoutView::Pointer(d) => {},
    }
}

/// A chat layout opens the user's turn, closes it, and opens the model's turn:
/// the control tokens are the start, the end and the start of a turn, behind a
/// beginning of text where there is one, and each role's name follows the start
/// of its turn.
pub proof fn turns_open_and_close(
    family: Seq<char>,
    bos: bool,
    turn_start: Seq<char>,
    turn_end: Seq<char>,
    user: Seq<char>,
    model: Seq<char>,
)
    ensures
        ({
            let l = turns_view(family, bos, turn_start, turn_end, user, model);
            let k = if bos {
                1int
            } else {
                0
            };
            &&& l is Label && l->family == family && !l->terse && !l->pointer
            &&& l->user_open.len() == k + 2
            &&& bos ==> l->user_open[0] is Bos
            &&& l->user_open[k] == SegmentView::Special(turn_start)
            &&& l->user_open[k + 1] == SegmentView::Text(user + "\n"@)
            &&& prompt_text(l->user_open) == turn_start + user + "\n"@
            &&& l->model_open.first() == SegmentView::Special(turn_end)
            &&& prompt_text(l->model_open) == turn_end + "\n"@ + turn_start + model + "\n"@
            &&& l->model_open.len() == 4 && l->model_open[2] == SegmentView::Special(turn_start)
            &&& l->model_open[3] is Text
        }),
{
    reveal_strlit("\n");
    assert("\n"@ =~= seq!['\n']);
    let l = turns_view(family, bos, turn_start, turn_end, user, model);
    let k = if bos {
        1int
    } else {
        0
    };
    let none = Seq::<SegmentView>::empty();
    assert(prompt_text(none) =~= Seq::empty());
    let m = l->model_open;
    prompt_text_push(none, m[0]);
    prompt_text_push(m.take(1), m[1]);
    prompt_text_push(m.take(2), m[2]);
    prompt_text_push(m.take(3), m[3]);
    assert(none.push(m[0]) =~= m.take(1));
    assert(m.take(1).push(m[1]) =~= m.take(2));
    assert(m.take(2).push(m[2]) =~= m.take(3));
    assert(m.take(3).push(m[3]) =~= m);
    assert(prompt_text(m) =~= turn_end + "\n"@ + turn_start + model + "\n"@);
    let u = l->user_open;
    if bos {
        prompt_text_push(none, u[0]);
        assert(none.push(u[0]) =~= u.take(1));
    } else {
        assert(u.take(0) =~= none);
    }
    prompt_text_push(u.take(k), u[k]);
    prompt_text_push(u.take(k + 1), u[k + 1]);
    assert(u.take(k).push(u[k]) =~= u.take(k + 1));
    assert(u.take(k + 1).push(u[k + 1]) =~= u);
    assert(user.push('\n') =~= user + "\n"@);
    assert(prompt_text(u) =~= turn_start + user + "\n"@);
}

/// The reserved delimiters of the packed layout are five, no two the same.
pub proof fn delimiters_are_told_apart()
    ensures
        gemma_pointer_view() is Pointer,
        ({
            let d = gemma_pointer_view()->Pointer_0;
            seq![d.state, d.question, d.opt, d.opt_end, d.decide].no_duplicates()
        }),
{
    reveal_strlit("<unused0>");
    reveal_strlit("<unused1>");
    reveal_strlit("<unused2>");
    reveal_strlit("<unused3>");
    reveal_strlit("<unused4>");
    let d = gemma_pointer_view()->Pointer_0;
    let s = seq![d.state, d.question, d.opt, d.opt_end, d.decide];
    assert(s[0][7] == '0' && s[1][7] == '1' && s[2][7] == '2' && s[3][7] == '3' && s[4][7] == '4');
    assert forall|i: int, j: int| 0 <= i < s.len() && 0 <= j < s.len() && i != j implies s[i]
        != s[j] by {
        assert(s[i][7] != s[j][7]);
    }
}

/// Setting one of a layout's flags leaves the other and everything else as they
/// are, and the packed layout has neither.
pub proof fn flags_change_alone(l: LayoutView, on: bool)
    ensures
        l is Label ==> with_terse(l, on) is Label && with_terse(l, on)->terse == on && with_terse(
            l,
            on,
        )->pointer == l->pointer && with_pointer(l, on) is Label && with_pointer(l, on)->pointer
            == on && with_pointer(l, on)->terse == l->terse,
        l is Label ==> with_terse(l, on)->family == l->family && with_terse(l, on)->user_open
            == l->user_open && with_terse(l, on)->model_open == l->model_open,
        l is Label ==> with_pointer(l, on)->family == l->family && with_pointer(l, on)->user_open
            == l->user_open && with_pointer(l, on)->model_open == l->model_open,
        l is Pointer ==> with_terse(l, on) == l && with_pointer(l, on) == l,
{
}

} // verus!

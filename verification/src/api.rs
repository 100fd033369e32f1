//! Requests: a state and typed questions about it.

use indexmap::IndexMap;
use vstd::prelude::*;
use vstd::string::StringExecFns;

use crate::error::{Error, ErrorView};
use crate::json::{compact, compact_json, Json, JsonView};
use crate::map::{criteria_entries, criteria_of, opt_json, question_entries, questions_of};
use crate::text::{decimal, join, join_texts, push_decimal, same, texts};

verus! {

/// A question sent with the request.
#[derive(Debug, PartialEq)]
#[allow(inconsistent_fields)]
pub enum Question {
    Noul { instructions: Option<Json>, criteria: Option<IndexMap<String, Option<Json>>> },
    Choice { instructions: Option<Json>, criteria: IndexMap<String, Option<Json>> },
    Score { instructions: Option<Json>, criteria: Vec<Json> },
}

/// A question with its criteria as sequences.
#[allow(inconsistent_fields)]
pub enum QuestionView {
    Noul {
        instructions: Option<JsonView>,
        criteria: Option<Seq<(Seq<char>, Option<JsonView>)>>,
    },
    Choice { instructions: Option<JsonView>, criteria: Seq<(Seq<char>, Option<JsonView>)> },
    Score { instructions: Option<JsonView>, criteria: Seq<JsonView> },
}

impl View for Question {
    type V = QuestionView;

    open spec fn view(&self) -> QuestionView {
        match self {
            Question::Noul { instructions, criteria } => QuestionView::Noul {
                instructions: opt_json(*instructions),
                criteria: match criteria {
                    Some(c) => Some(criteria_of(*c)),
                    None => None,
                },
            },
            Question::Choice { instructions, criteria } => QuestionView::Choice {
                instructions: opt_json(*instructions),
                criteria: criteria_of(*criteria),
            },
            Question::Score { instructions, criteria } => QuestionView::Score {
                instructions: opt_json(*instructions),
                criteria: criteria@.map_values(|j: Json| j@),
            },
        }
    }
}

#[derive(Debug)]
pub struct Request {
    pub model: String,
    pub state: Json,
    pub questions: IndexMap<String, Question>,
}

/// The model name a request carries when it names none.
pub fn default_model() -> (r: String)
    ensures
        r@ == "grande-latest"@,
{
    "grande-latest".to_owned()
}

/// Maximum number of options a Choice may carry. The pointer readout has no
/// intrinsic limit; the label readout is capped by its letters.
pub const MAX_CHOICE: usize = 255;

pub const MAX_SCORE: usize = 10;

/// The path of question `id` in an error.
pub open spec fn question_path(id: Seq<char>) -> Seq<char> {
    "questions."@ + id
}

/// The path of question `id`'s criteria in an error.
pub open spec fn criteria_path(id: Seq<char>) -> Seq<char> {
    question_path(id) + ".criteria"@
}

/// What is wrong with one question, if anything.
pub open spec fn question_fault(id: Seq<char>, q: QuestionView) -> Option<ErrorView> {
    match q {
        QuestionView::Choice { instructions, criteria } => {
            if criteria.len() == 0 || criteria.len() > MAX_CHOICE {
                Some(
                    ErrorView::Invalid {
                        path: criteria_path(id),
                        message: "choice requires 1..255 options"@,
                    },
                )
            } else {
                None
            }
        },
        QuestionView::Score { instructions, criteria } => {
            if criteria.len() < 2 || criteria.len() > MAX_SCORE {
                Some(
                    ErrorView::Invalid {
                        path: criteria_path(id),
                        message: "score requires 2..10 ordered levels"@,
                    },
                )
            } else {
                None
            }
        },
        QuestionView::Noul { instructions, criteria } => {
            if criteria is Some && !truth_keys(criteria->0) {
                Some(
                    ErrorView::Invalid {
                        path: criteria_path(id),
                        message: "only true and false keys are allowed"@,
                    },
                )
            } else if instructions is None && (criteria is None || criteria->0.len() == 0) {
                Some(
                    ErrorView::Invalid {
                        path: question_path(id),
                        message: "noul requires instructions or criteria"@,
                    },
                )
            } else {
                None
            }
        },
    }
}

/// Every key is `true` or `false`.
pub open spec fn truth_keys(c: Seq<(Seq<char>, Option<JsonView>)>) -> bool {
    forall|i: int| 0 <= i < c.len() ==> (#[trigger] c[i]).0 == "true"@ || c[i].0 == "false"@
}

/// The fault of the first question that has one.
pub open spec fn questions_fault(qs: Seq<(Seq<char>, QuestionView)>) -> Option<ErrorView>
    decreases qs.len(),
{
    if qs.len() == 0 {
        None
    } else {
        match question_fault(qs[0].0, qs[0].1) {
            Some(e) => Some(e),
            None => questions_fault(qs.drop_first()),
        }
    }
}

/// A state is text, an object or an array.
pub open spec fn state_shape(v: JsonView) -> bool {
    v is Str || v is Object || v is Array
}

/// What is wrong with a request, if anything: its state first, then a
/// missing question, then the questions in order.
pub open spec fn request_fault(state: JsonView, qs: Seq<(Seq<char>, QuestionView)>) -> Option<
    ErrorView,
> {
    if !state_shape(state) {
        Some(ErrorView::Invalid { path: "state"@, message: "expected string, object or array"@ })
    } else if qs.len() == 0 {
        Some(
            ErrorView::Invalid { path: "questions"@, message: "expected a nonempty question map"@ },
        )
    } else {
        questions_fault(qs)
    }
}

fn path_of(id: &str) -> (r: String)
    ensures
        r@ == question_path(id@),
{
    let mut s: String = "questions.".to_owned();
    s.append(id);
    s
}

pub(crate) fn criteria_path_of(id: &str) -> (r: String)
    ensures
        r@ == criteria_path(id@),
{
    let mut s: String = path_of(id);
    s.append(".criteria");
    s
}

fn only_truth_keys(c: &IndexMap<String, Option<Json>>) -> (r: bool)
    ensures
        r == truth_keys(criteria_of(*c)),
{
    let entries = criteria_entries(c);
    let mut i: usize = 0;
    while i < entries.len()
        invariant
            0 <= i <= entries@.len(),
            entries@.len() == criteria_of(*c).len(),
            forall|j: int|
                #![trigger entries@[j]]
                0 <= j < entries@.len() ==> entries@[j].0@ == criteria_of(*c)[j].0,
            forall|j: int|
                0 <= j < i ==> (#[trigger] criteria_of(*c)[j]).0 == "true"@ || criteria_of(*c)[j].0
                    == "false"@,
        decreases entries@.len() - i,
    {
        let k = entries[i].0;
        if !same(k.as_str(), "true") && !same(k.as_str(), "false") {
            assert(criteria_of(*c)[i as int].0 != "true"@);
            return false;
        }
        i += 1;
    }
    true
}

/// Checks one question; an error names its path.
fn check_question(id: &str, q: &Question) -> (r: Result<(), Error>)
    ensures
        match r {
            Ok(_) => question_fault(id@, q@) is None,
            Err(e) => question_fault(id@, q@) == Some(e@),
        },
{
    match q {
        Question::Choice { instructions, criteria } => {
            let n: usize = criteria_entries(criteria).len();
            if n == 0 || n > MAX_CHOICE {
                return Err(
                    Error::invalid(criteria_path_of(id).as_str(), "choice requires 1..255 options"),
                );
            }
        },
        Question::Score { instructions, criteria } => {
            if criteria.len() < 2 || criteria.len() > MAX_SCORE {
                return Err(
                    Error::invalid(
                        criteria_path_of(id).as_str(),
                        "score requires 2..10 ordered levels",
                    ),
                );
            }
        },
        Question::Noul { instructions, criteria } => {
            let mut empty: bool = true;
            if let Some(c) = criteria {
                if !only_truth_keys(c) {
                    return Err(
                        Error::invalid(
                            criteria_path_of(id).as_str(),
                            "only true and false keys are allowed",
                        ),
                    );
                }
                empty = criteria_entries(c).len() == 0;
            }
            if instructions.is_none() && empty {
                return Err(
                    Error::invalid(path_of(id).as_str(), "noul requires instructions or criteria"),
                );
            }
        },
    }
    Ok(())
}

impl Request {
    /// Validates the request: the first fault is the error.
    pub fn validate(&self) -> (r: Result<(), Error>)
        ensures
            match r {
                Ok(_) => request_fault(self.state@, questions_of(self.questions)) is None,
                Err(e) => request_fault(self.state@, questions_of(self.questions)) == Some(e@),
            },
    {
        let shaped = match &self.state {
            Json::Str(_) => true,
            Json::Object(_) => true,
            Json::Array(_) => true,
            _ => false,
        };
        if !shaped {
            return Err(Error::invalid("state", "expected string, object or array"));
        }
        let entries = question_entries(&self.questions);
        if entries.len() == 0 {
            return Err(Error::invalid("questions", "expected a nonempty question map"));
        }
        let ghost qs = questions_of(self.questions);
        let mut i: usize = 0;
        assert(qs.skip(0) =~= qs);
        while i < entries.len()
            invariant
                0 <= i <= entries@.len(),
                entries@.len() == qs.len(),
                forall|j: int|
                    #![trigger entries@[j]]
                    0 <= j < entries@.len() ==> entries@[j].0@ == qs[j].0 && entries@[j].1@
                        == qs[j].1,
                questions_fault(qs) == questions_fault(qs.skip(i as int)),
                qs == questions_of(self.questions),
                qs.len() > 0,
                state_shape(self.state@),
            decreases entries@.len() - i,
        {
            let (id, q) = entries[i];
            assert(qs.skip(i as int)[0] == qs[i as int]);
            assert(qs.skip(i as int).drop_first() =~= qs.skip(i as int + 1));
            match check_question(id.as_str(), q) {
                Ok(_) => {},
                Err(e) => {
                    return Err(e);
                },
            }
            i += 1;
        }
        assert(qs.skip(i as int).len() == 0);
        Ok(())
    }
}

/// Structured content as the text the model reads: strings as they are, null
/// as nothing, everything else as compact JSON.
pub open spec fn content(v: JsonView) -> Seq<char> {
    match v {
        JsonView::Str(s) => s,
        JsonView::Null => Seq::empty(),
        _ => compact_json(v),
    }
}

/// Flattens structured content to text the model reads.
pub fn content_text(v: &Json) -> (r: String)
    ensures
        r@ == content(v@),
{
    match v {
        Json::Str(s) => s.clone(),
        Json::Null => String::new(),
        _ => compact(v),
    }
}

/// The path of an object's field.
pub open spec fn field_path(path: Seq<char>, key: Seq<char>) -> Seq<char> {
    if path.len() == 0 {
        key
    } else {
        path + "."@ + key
    }
}

/// The path of an array's item.
pub open spec fn item_path(path: Seq<char>, i: nat) -> Seq<char> {
    path + "["@ + decimal(i) + "]"@
}

/// A value as `path: content` lines, one per leaf: fields of objects and
/// items of arrays extend the path, everything else (and an empty object or
/// array) is a leaf.
pub open spec fn state_lines(path: Seq<char>, v: JsonView) -> Seq<Seq<char>>
    decreases v, 0nat,
{
    match v {
        JsonView::Object(es) if es.len() > 0 => field_lines(path, es, es.len()),
        JsonView::Array(vs) if vs.len() > 0 => item_lines(path, vs, vs.len()),
        _ => seq![path + ": "@ + content(v)],
    }
}

/// The lines of an object's first `n` fields, in order.
pub open spec fn field_lines(path: Seq<char>, es: Seq<(Seq<char>, JsonView)>, n: nat) -> Seq<
    Seq<char>,
>
    decreases es, n,
{
    if n == 0 || n > es.len() {
        Seq::empty()
    } else {
        field_lines(path, es, (n - 1) as nat) + state_lines(
            field_path(path, es[n - 1].0),
            es[n - 1].1,
        )
    }
}

/// The lines of an array's first `n` items, in order.
pub open spec fn item_lines(path: Seq<char>, vs: Seq<JsonView>, n: nat) -> Seq<Seq<char>>
    decreases vs, n,
{
    if n == 0 || n > vs.len() {
        Seq::empty()
    } else {
        item_lines(path, vs, (n - 1) as nat) + state_lines(
            item_path(path, (n - 1) as nat),
            vs[n - 1],
        )
    }
}

/// The state as the model reads it: an object line by line, anything else as
/// [`content`].
pub open spec fn state_block(v: JsonView) -> Seq<char> {
    match v {
        JsonView::Object(es) => if es.len() == 0 {
            Seq::empty()
        } else {
            join(state_lines(Seq::empty(), v), "\n"@)
        },
        _ => content(v),
    }
}

fn push_lines(path: &str, v: &Json, out: &mut Vec<String>)
    ensures
        texts(final(out)@) == texts(old(out)@) + state_lines(path@, v@),
    decreases v,
{
    let ghost before = texts(out@);
    match v {
        Json::Object(es) if es.len() > 0 => {
            let ghost esv = v@->Object_0;
            let mut i: usize = 0;
            assert(texts(out@) =~= before + field_lines(path@, esv, 0));
            while i < es.len()
                invariant
                    0 <= i <= es@.len(),
                    esv.len() == es@.len(),
                    *v == Json::Object(*es),
                    v@ == JsonView::Object(esv),
                    texts(out@) == before + field_lines(path@, esv, i as nat),
                decreases es@.len() - i,
            {
                let (k, child) = &es[i];
                let mut p: String = String::new();
                if !path.is_empty() {
                    p.append(path);
                    p.append(".");
                }
                p.append(k.as_str());
                assert(p@ =~= field_path(path@, esv[i as int].0));
                push_lines(p.as_str(), child, out);
                i += 1;
                assert(texts(out@) =~= before + field_lines(path@, esv, i as nat));
            }
        },
        Json::Array(vs) if vs.len() > 0 => {
            let ghost vsv = v@->Array_0;
            let mut i: usize = 0;
            assert(texts(out@) =~= before + item_lines(path@, vsv, 0));
            while i < vs.len()
                invariant
                    0 <= i <= vs@.len(),
                    vsv.len() == vs@.len(),
                    *v == Json::Array(*vs),
                    v@ == JsonView::Array(vsv),
                    texts(out@) == before + item_lines(path@, vsv, i as nat),
                decreases vs@.len() - i,
            {
                let mut p: String = path.to_owned();
                p.append("[");
                push_decimal(&mut p, i as u64);
                p.append("]");
                assert(p@ =~= item_path(path@, i as nat));
                push_lines(p.as_str(), &vs[i], out);
                i += 1;
                assert(texts(out@) =~= before + item_lines(path@, vsv, i as nat));
            }
        },
        _ => {
            let mut line: String = path.to_owned();
            line.append(": ");
            line.append(content_text(v).as_str());
            out.push(line);
            assert(texts(out@) =~= before + state_lines(path@, v@));
        },
    }
}

/// Renders the state as a block of `path: value` lines when it is an object,
/// so questions can refer to fields by name; otherwise as [`content_text`].
pub fn state_text(v: &Json) -> (r: String)
    ensures
        r@ == state_block(v@),
{
    match v {
        Json::Object(es) => {
            if es.len() == 0 {
                return String::new();
            }
            let mut lines: Vec<String> = Vec::new();
            push_lines("", v, &mut lines);
            proof {
                reveal_strlit("");
                assert(""@ =~= Seq::<char>::empty());
                assert(texts(lines@) =~= state_lines(Seq::empty(), v@));
            }
            join_texts(&lines, "\n")
        },
        _ => content_text(v),
    }
}

/// What a question must hold to be asked.
pub open spec fn askable(q: QuestionView) -> bool {
    match q {
        QuestionView::Choice { criteria, .. } => 1 <= criteria.len() <= 255,
        QuestionView::Score { criteria, .. } => 2 <= criteria.len() <= 10,
        QuestionView::Noul { instructions, criteria } => {
            &&& instructions is Some || (criteria is Some && criteria->0.len() > 0)
            &&& criteria is Some ==> forall|i: int|
                0 <= i < criteria->0.len() ==> (#[trigger] criteria->0[i]).0 == "true"@
                    || criteria->0[i].0 == "false"@
        },
    }
}

proof fn questions_without_fault(qs: Seq<(Seq<char>, QuestionView)>)
    ensures
        questions_fault(qs) is None <==> forall|i: int| 0 <= i < qs.len() ==> askable(
            (#[trigger] qs[i]).1,
        ),
    decreases qs.len(),
{
    if qs.len() > 0 {
        let rest = qs.drop_first();
        questions_without_fault(rest);
        if questions_fault(qs) is None {
            assert forall|i: int| 0 <= i < qs.len() implies askable((#[trigger] qs[i]).1) by {
                if i > 0 {
                    assert(rest[i - 1] == qs[i]);
                }
            }
        }
        if forall|i: int| 0 <= i < qs.len() ==> askable((#[trigger] qs[i]).1) {
            assert(askable(qs[0].1));
            assert forall|i: int| 0 <= i < rest.len() implies askable((#[trigger] rest[i]).1) by {
                assert(rest[i] == qs[i + 1]);
            }
        }
    }
}

/// A request is taken exactly when its state is text, an object or an array,
/// and it asks at least one question and every question can be asked.
pub proof fn requests_are_taken_exactly_when_sound(
    state: JsonView,
    qs: Seq<(Seq<char>, QuestionView)>,
)
    ensures
        request_fault(state, qs) is None <==> {
            &&& state is Str || state is Object || state is Array
            &&& qs.len() > 0
            &&& forall|i: int| 0 <= i < qs.len() ==> askable((#[trigger] qs[i]).1)
        },
{
    questions_without_fault(qs);
}

/// The error of a request whose state is sound names the first question that
/// cannot be asked.
pub proof fn the_first_unsound_question_is_named(
    state: JsonView,
    qs: Seq<(Seq<char>, QuestionView)>,
    i: int,
)
    requires
        state is Str || state is Object || state is Array,
        0 <= i < qs.len(),
        !askable(qs[i].1),
        forall|j: int| 0 <= j < i ==> askable((#[trigger] qs[j]).1),
    ensures
        request_fault(state, qs) is Some,
        request_fault(state, qs)->0 is Invalid,
        ({
            let path = request_fault(state, qs)->0->Invalid_path;
            path == "questions."@ + qs[i].0 || path == "questions."@ + qs[i].0 + ".criteria"@
        }),
    decreases qs.len(),
{
    let rest = qs.drop_first();
    if i > 0 {
        assert(askable(qs[0].1));
        assert(rest[i - 1] == qs[i]);
        assert forall|j: int| 0 <= j < i - 1 implies askable((#[trigger] rest[j]).1) by {
            assert(rest[j] == qs[j + 1]);
        }
        the_first_unsound_question_is_named(state, rest, i - 1);
    }
}

/// A leaf of a state is read as its path and its content: a text as it is,
/// null as nothing.
pub proof fn leaves_are_read_under_their_path(path: Seq<char>, v: JsonView, s: Seq<char>)
    ensures
        v == JsonView::Str(s) ==> state_lines(path, v) == seq![path + ": "@ + s],
        v is Null ==> state_lines(path, v) == seq![path + ": "@],
        !(v is Object) && !(v is Array) && !(v is Str) && !(v is Null) ==> state_lines(path, v)
            == seq![path + ": "@ + compact_json(v)],
{
    assert(path + ": "@ + Seq::<char>::empty() =~= path + ": "@);
}

proof fn field_lines_grow(path: Seq<char>, es: Seq<(Seq<char>, JsonView)>, i: nat, n: nat)
    requires
        i <= n <= es.len(),
    ensures
        field_lines(path, es, i).len() <= field_lines(path, es, n).len(),
        field_lines(path, es, n).take(field_lines(path, es, i).len() as int) == field_lines(
            path,
            es,
            i,
        ),
    decreases n - i,
{
    let a = field_lines(path, es, i);
    if i < n {
        field_lines_grow(path, es, i, (n - 1) as nat);
        let b = field_lines(path, es, (n - 1) as nat);
        assert(field_lines(path, es, n).take(a.len() as int) =~= b.take(a.len() as int));
    } else {
        assert(a.take(a.len() as int) =~= a);
    }
}

/// The lines of an object hold the lines of its every field together, under the
/// object's path, a dot and the field's key, or the key alone at the top.
pub proof fn fields_are_read_under_their_key(
    path: Seq<char>,
    es: Seq<(Seq<char>, JsonView)>,
    i: int,
) -> (at: int)
    requires
        0 <= i < es.len(),
    ensures
        ({
            let below = state_lines(
                if path.len() == 0 {
                    es[i].0
                } else {
                    path + "."@ + es[i].0
                },
                es[i].1,
            );
            let all = state_lines(path, JsonView::Object(es));
            &&& 0 <= at && at + below.len() <= all.len()
            &&& all.subrange(at, at + below.len()) == below
            &&& i == 0 ==> at == 0
            &&& i == es.len() - 1 ==> at + below.len() == all.len()
        }),
{
    let at = field_lines(path, es, i as nat).len() as int;
    field_lines_grow(path, es, i as nat, es.len());
    field_lines_grow(path, es, (i + 1) as nat, es.len());
    let below = state_lines(field_path(path, es[i].0), es[i].1);
    let all = field_lines(path, es, es.len());
    let upto = field_lines(path, es, (i + 1) as nat);
    assert(all.subrange(at, at + below.len()) =~= all.take(upto.len() as int).subrange(
        at,
        at + below.len(),
    ));
    assert(upto.subrange(at, at + below.len()) =~= below);
    at
}

proof fn item_lines_grow(path: Seq<char>, vs: Seq<JsonView>, i: nat, n: nat)
    requires
        i <= n <= vs.len(),
    ensures
        item_lines(path, vs, i).len() <= item_lines(path, vs, n).len(),
        item_lines(path, vs, n).take(item_lines(path, vs, i).len() as int) == item_lines(
            path,
            vs,
            i,
        ),
    decreases n - i,
{
    let a = item_lines(path, vs, i);
    if i < n {
        item_lines_grow(path, vs, i, (n - 1) as nat);
        let b = item_lines(path, vs, (n - 1) as nat);
        assert(item_lines(path, vs, n).take(a.len() as int) =~= b.take(a.len() as int));
    } else {
        assert(a.take(a.len() as int) =~= a);
    }
}

/// The lines of an array hold the lines of its every item together, under the
/// array's path and the item's place in brackets, counted from zero.
pub proof fn items_are_read_under_their_place(path: Seq<char>, vs: Seq<JsonView>, i: int) -> (at:
    int)
    requires
        0 <= i < vs.len(),
    ensures
        ({
            let below = state_lines(path + "["@ + decimal(i as nat) + "]"@, vs[i]);
            let all = state_lines(path, JsonView::Array(vs));
            &&& 0 <= at && at + below.len() <= all.len()
            &&& all.subrange(at, at + below.len()) == below
            &&& i == 0 ==> at == 0
            &&& i == vs.len() - 1 ==> at + below.len() == all.len()
        }),
{
    let at = item_lines(path, vs, i as nat).len() as int;
    item_lines_grow(path, vs, i as nat, vs.len());
    item_lines_grow(path, vs, (i + 1) as nat, vs.len());
    let below = state_lines(item_path(path, i as nat), vs[i]);
    let all = item_lines(path, vs, vs.len());
    let upto = item_lines(path, vs, (i + 1) as nat);
    assert(all.subrange(at, at + below.len()) =~= all.take(upto.len() as int).subrange(
        at,
        at + below.len(),
    ));
    assert(upto.subrange(at, at + below.len()) =~= below);
    at
}

/// The model reads a text state as it is, an object as its lines, anything else
/// as JSON, and an empty object or null as nothing.
pub proof fn states_are_read_whole(v: JsonView, s: Seq<char>)
    ensures
        v == JsonView::Str(s) ==> state_block(v) == s,
        v is Null ==> state_block(v).len() == 0,
        v is Array || v is Bool ==> state_block(v) == compact_json(v),
        v is Object && v->Object_0.len() == 0 ==> state_block(v).len() == 0,
        v is Object && v->Object_0.len() > 0 ==> state_block(v) == join(
            state_lines(Seq::empty(), v),
            "\n"@,
        ),
{
}

} // verus!

//! Suites: request-shaped records with a gold `label` on every question and
//! `_meta.source` / `_meta.variant` for grouping.

use indexmap::IndexMap;
use vstd::prelude::*;

use crate::api::{default_model, Question, QuestionView, Request};
use crate::error::LoadError;
use crate::json::{at, compact, compact_json, field_views, Json, JsonView};
use crate::map::{criteria_entries, criteria_of, question_entries, questions_of};
use crate::render::option_texts;
use crate::text::{concat2, decimal, same, texts};

verus! {

/// One record of a suite, with its gold answers.
#[derive(Debug)]
pub struct SuiteRecord {
    pub id: String,
    pub source: String,
    pub variant: String,
    pub request: Request,
    /// Gold option index per question, in request order (None = unlabeled).
    pub gold: Vec<Option<usize>>,
    /// The task name per question (`agnews`, `agnews_yn`, ...).
    pub tasks: Vec<String>,
}

/// Text, or what stands for it.
pub open spec fn text_or(v: JsonView, other: Seq<char>) -> Seq<char> {
    match v {
        JsonView::Str(s) => s,
        _ => other,
    }
}

/// The place of the first entry under `key`, the number of entries where
/// there is none.
pub open spec fn place_of<T>(es: Seq<(Seq<char>, T)>, key: Seq<char>) -> nat
    decreases es.len(),
{
    if es.len() == 0 || es[0].0 == key {
        0
    } else {
        1 + place_of(es.drop_first(), key)
    }
}

/// The gold option of a question under its label: the place of the named
/// option, the level, or 0 for true and 1 for false.
pub open spec fn gold_of(q: QuestionView, label: JsonView) -> Option<usize> {
    match (q, label) {
        (QuestionView::Choice { instructions, criteria }, JsonView::Str(s)) => {
            if place_of(criteria, s) < criteria.len() {
                Some(place_of(criteria, s) as usize)
            } else {
                None
            }
        },
        (QuestionView::Score { instructions, criteria }, JsonView::Uint(n)) => Some(n as usize),
        (QuestionView::Noul { instructions, criteria }, JsonView::Bool(b)) => Some(
            if b {
                0
            } else {
                1
            },
        ),
        _ => None,
    }
}

/// The task of a question: its record's source, with `_yn` for the yes / no
/// questions of the two sources that ask both ways.
pub open spec fn task_of(q: QuestionView, source: Seq<char>) -> Seq<char> {
    if q is Noul && (source == "agnews"@ || source == "yelp"@) {
        source + "_yn"@
    } else {
        source
    }
}

/// A question's fields without its label and its source.
pub open spec fn bare_fields(m: Seq<(Seq<char>, JsonView)>) -> Seq<(Seq<char>, JsonView)>
    decreases m.len(),
{
    if m.len() == 0 {
        m
    } else if m.last().0 == "label"@ || m.last().0 == "src"@ {
        bare_fields(m.drop_last())
    } else {
        bare_fields(m.drop_last()).push(m.last())
    }
}

/// A question as a request holds it: without its label and its source.
pub fn bare_question(q: &Json) -> (r: Json)
    ensures
        match q@ {
            JsonView::Object(m) => r@ == JsonView::Object(bare_fields(m)),
            _ => r@ == q@,
        },
{
    match q {
        Json::Object(m) => {
            let ghost mv = field_views(m@);
            assert(q@->Object_0 =~= mv);
            let mut out: Vec<(String, Json)> = Vec::new();
            let mut i: usize = 0;
            assert(field_views(out@) =~= bare_fields(mv.take(0)));
            while i < m.len()
                invariant
                    0 <= i <= m@.len(),
                    mv == field_views(m@),
                    field_views(out@) == bare_fields(mv.take(i as int)),
                decreases m@.len() - i,
            {
                let (k, x) = &m[i];
                proof {
                    assert(mv[i as int] == (k@, x@));
                    assert(mv.take(i + 1).drop_last() =~= mv.take(i as int));
                    assert(mv.take(i + 1).last() == (k@, x@));
                }
                if !same(k.as_str(), "label") && !same(k.as_str(), "src") {
                    let ghost prev = out@;
                    out.push((k.clone(), x.clone()));
                    assert(field_views(out@) =~= field_views(prev).push((k@, x@)));
                }
                i += 1;
            }
            assert(mv.take(i as int) =~= mv);
            let r = Json::Object(out);
            assert(r@->Object_0 =~= field_views(out@));
            r
        },
        _ => q.clone(),
    }
}

fn key_place(criteria: &IndexMap<String, Option<Json>>, key: &str) -> (r: Option<usize>)
    ensures
        match r {
            Some(i) => i == place_of(criteria_of(*criteria), key@) && i < criteria_of(
                *criteria,
            ).len(),
            None => place_of(criteria_of(*criteria), key@) >= criteria_of(*criteria).len(),
        },
{
    let es = criteria_entries(criteria);
    let ghost cv = criteria_of(*criteria);
    let mut i: usize = 0;
    assert(cv.skip(0) =~= cv);
    while i < es.len()
        invariant
            0 <= i <= es@.len(),
            cv == criteria_of(*criteria),
            es@.len() == cv.len(),
            forall|j: int| 0 <= j < es@.len() ==> (#[trigger] es@[j]).0@ == cv[j].0,
            place_of(cv, key@) == i + place_of(cv.skip(i as int), key@),
        decreases es@.len() - i,
    {
        proof {
            assert(cv.skip(i as int)[0] == cv[i as int]);
            assert(cv.skip(i as int).drop_first() =~= cv.skip(i + 1));
        }
        if same(es[i].0.as_str(), key) {
            return Some(i);
        }
        i += 1;
    }
    None
}

/// The gold option of a question under its label.
pub fn gold(q: &Question, label: &Json) -> (r: Option<usize>)
    ensures
        r == gold_of(q@, label@),
{
    match q {
        Question::Choice { instructions: _, criteria } => match label {
            Json::Str(s) => key_place(criteria, s.as_str()),
            _ => None,
        },
        Question::Score { instructions: _, criteria: _ } => match label {
            Json::Uint(n) => Some(*n as usize),
            _ => None,
        },
        Question::Noul { instructions: _, criteria: _ } => match label {
            Json::Bool(b) => Some(
                if *b {
                    0
                } else {
                    1
                },
            ),
            _ => None,
        },
    }
}

/// The task of a question of a record.
pub fn task(q: &Question, source: &str) -> (r: String)
    ensures
        r@ == task_of(q@, source@),
{
    match q {
        Question::Noul { instructions: _, criteria: _ } => {
            if same(source, "agnews") || same(source, "yelp") {
                concat2(source, "_yn")
            } else {
                source.to_owned()
            }
        },
        _ => source.to_owned(),
    }
}

fn meta_text(v: &Json, key: &str, other: &str) -> (r: String)
    ensures
        r@ == text_or(at(at(v@, "_meta"@), key@), other@),
{
    match v.get("_meta") {
        Some(meta) => match meta.text_at(key) {
            Some(s) => s.clone(),
            None => other.to_owned(),
        },
        None => other.to_owned(),
    }
}

/// The id of a record: its own, or its row number as JSON.
pub open spec fn record_id(v: JsonView) -> Seq<char> {
    text_or(at(at(v, "_meta"@), "id"@), compact_json(at(at(v, "_meta"@), "row"@)))
}

fn row_text(v: &Json) -> (r: String)
    ensures
        r@ == compact_json(at(at(v@, "_meta"@), "row"@)),
{
    match v.get("_meta") {
        Some(meta) => match meta.get("row") {
            Some(row) => compact(row),
            None => compact(&Json::Null),
        },
        None => compact(&Json::Null),
    }
}

/// The questions are those of the record, under the same ids in order.
pub open spec fn same_ids(
    fields: Seq<(Seq<char>, JsonView)>,
    qs: Seq<(Seq<char>, QuestionView)>,
) -> bool {
    &&& fields.len() == qs.len()
    &&& forall|i: int| 0 <= i < qs.len() ==> (#[trigger] qs[i]).0 == fields[i].0
}

/// A record of a suite. `questions` are the record's questions, read from
/// what `bare_question` leaves of them. An error where the record has no
/// object of questions.
pub fn record(v: &Json, questions: IndexMap<String, Question>) -> (r: Result<
    SuiteRecord,
    LoadError,
>)
    requires
        at(v@, "questions"@) is Object ==> same_ids(
            at(v@, "questions"@)->Object_0,
            questions_of(questions),
        ),
    ensures
        match r {
            Ok(rec) => {
                let fields = at(v@, "questions"@)->Object_0;
                let qs = questions_of(questions);
                let source = text_or(at(at(v@, "_meta"@), "source"@), "unknown"@);
                &&& at(v@, "questions"@) is Object
                &&& rec.id@ == record_id(v@)
                &&& rec.source@ == source
                &&& rec.variant@ == text_or(at(at(v@, "_meta"@), "variant"@), "clean"@)
                &&& rec.request.model@ == "grande-latest"@
                &&& rec.request.state@ == at(v@, "state"@)
                &&& rec.request.questions == questions
                &&& rec.gold@ == Seq::new(
                    qs.len(),
                    |i: int| gold_of(qs[i].1, at(fields[i].1, "label"@)),
                )
                &&& texts(rec.tasks@) == Seq::new(qs.len(), |i: int| task_of(qs[i].1, source))
            },
            Err(e) => !(at(v@, "questions"@) is Object) && e@ == "questions"@,
        },
{
    let source: String = meta_text(v, "source", "unknown");
    let variant: String = meta_text(v, "variant", "clean");
    let row: String = row_text(v);
    let id: String = meta_text(v, "id", row.as_str());
    let fields: &Vec<(String, Json)> = match v.get("questions") {
        Some(x) => match x {
            Json::Object(m) => {
                assert(x@->Object_0 =~= field_views(m@));
                m
            },
            _ => {
                return Err(LoadError::of("questions"));
            },
        },
        None => {
            return Err(LoadError::of("questions"));
        },
    };
    let ghost fv = field_views(fields@);
    let ghost qs = questions_of(questions);
    let mut gold_places: Vec<Option<usize>> = Vec::new();
    let mut tasks: Vec<String> = Vec::new();
    let entries = question_entries(&questions);
    let mut i: usize = 0;
    while i < entries.len()
        invariant
            0 <= i <= entries@.len(),
            entries@.len() == qs.len(),
            fields@.len() == qs.len(),
            fv == field_views(fields@),
            forall|j: int|
                0 <= j < entries@.len() ==> (#[trigger] entries@[j]).0@ == qs[j].0
                    && entries@[j].1@ == qs[j].1,
            gold_places@.len() == i,
            tasks@.len() == i,
            forall|j: int|
                0 <= j < i ==> #[trigger] gold_places@[j] == gold_of(
                    qs[j].1,
                    at(fv[j].1, "label"@),
                ),
            forall|j: int| 0 <= j < i ==> (#[trigger] tasks@[j])@ == task_of(qs[j].1, source@),
        decreases entries@.len() - i,
    {
        let q: &Question = entries[i].1;
        assert(q@ == qs[i as int].1);
        let x: &Json = &fields[i].1;
        assert(fv[i as int].1 == x@);
        let g: Option<usize> = match x.get("label") {
            Some(label) => gold(q, label),
            None => None,
        };
        gold_places.push(g);
        tasks.push(task(q, source.as_str()));
        i += 1;
    }
    let state: Json = match v.get("state") {
        Some(s) => s.clone(),
        None => Json::Null,
    };
    proof {
        let want_gold = Seq::new(qs.len(), |i: int| gold_of(qs[i].1, at(fv[i].1, "label"@)));
        assert(gold_places@ =~= want_gold);
        let want_tasks = Seq::new(qs.len(), |i: int| task_of(qs[i].1, source@));
        assert(texts(tasks@) =~= want_tasks);
    }
    Ok(
        SuiteRecord {
            id,
            source,
            variant,
            request: Request { model: default_model(), state, questions },
            gold: gold_places,
            tasks,
        },
    )
}

/// The gold option of a labelled question is the one whose key is the label: a
/// choice's by the text, a level's by the number, a yes/no question's `true` or
/// `false`; and a label that is one of the keys has a gold option.
pub proof fn the_gold_option_has_the_labels_key(q: QuestionView, label: JsonView, i: int)
    requires
        option_texts(q).len() <= usize::MAX,
        0 <= i < option_texts(q).len(),
    ensures
        ({
            let keys = option_texts(q);
            &&& (q is Choice && gold_of(q, label) is Some) ==> gold_of(q, label)->0 < keys.len()
                && label == JsonView::Str(keys[gold_of(q, label)->0 as int].0)
            &&& (q is Choice && label == JsonView::Str(keys[i].0)) ==> gold_of(q, label) is Some
                && gold_of(q, label)->0 <= i
            &&& (q is Score && label == JsonView::Uint(i as u64) && i <= u64::MAX) ==> gold_of(
                q,
                label,
            ) == Some(i as usize) && keys[i].0 == decimal(i as nat)
            &&& (q is Noul && label is Bool) ==> gold_of(q, label) is Some && gold_of(q, label)->0 < 2
                && keys[gold_of(q, label)->0 as int].0 == (if label->Bool_0 {
                "true"@
            } else {
                "false"@
            })
            &&& label is Null ==> gold_of(q, label) is None
        }),
{
    if q is Choice {
        let c = q->Choice_criteria;
        if label is Str {
            place_holds_the_key(c, label->Str_0, i);
        }
    }
}

proof fn place_holds_the_key<T>(es: Seq<(Seq<char>, T)>, key: Seq<char>, i: int)
    requires
        0 <= i < es.len(),
    ensures
        place_of(es, key) <= es.len(),
        place_of(es, key) < es.len() ==> es[place_of(es, key) as int].0 == key,
        es[i].0 == key ==> place_of(es, key) <= i,
    decreases es.len(),
{
    if es[0].0 != key {
        let rest = es.drop_first();
        if rest.len() > 0 {
            place_holds_the_key(rest, key, if i > 0 { i - 1 } else { 0 });
            if i > 0 {
                assert(rest[i - 1] == es[i]);
            }
        }
    }
}

/// A question is asked without its label and its source, and with everything
/// else that it holds, in order.
pub proof fn questions_are_asked_without_their_label(m: Seq<(Seq<char>, JsonView)>, i: int)
    requires
        0 <= i < m.len(),
    ensures
        bare_fields(m).contains(m[i]) <==> m[i].0 != "label"@ && m[i].0 != "src"@,
        forall|k: int|
            0 <= k < bare_fields(m).len() ==> (#[trigger] bare_fields(m)[k]).0 != "label"@
                && bare_fields(m)[k].0 != "src"@ && m.contains(bare_fields(m)[k]),
        bare_fields(m).len() <= m.len(),
    decreases m.len(),
{
    let rest = m.drop_last();
    let bare = bare_fields(m);
    let before = bare_fields(rest);
    if rest.len() > 0 {
        questions_are_asked_without_their_label(rest, if i < rest.len() { i } else { 0 });
    }
    assert(bare_fields(Seq::<(Seq<char>, JsonView)>::empty()).len() == 0);
    if rest.len() == 0 {
        assert(rest =~= Seq::empty());
    }
    assert forall|k: int| 0 <= k < bare.len() implies (#[trigger] bare[k]).0 != "label"@
        && bare[k].0 != "src"@ && m.contains(bare[k]) by {
        if k < before.len() {
            assert(bare[k] == before[k]);
            assert(rest.contains(before[k]));
            let j = rest.index_of(before[k]);
            assert(m[j] == rest[j]);
        } else {
            assert(m[m.len() - 1] == bare[k]);
        }
    }
    if m[i].0 != "label"@ && m[i].0 != "src"@ {
        if i < rest.len() {
            assert(rest[i] == m[i]);
            let j = before.index_of(m[i]);
            assert(bare[j] == m[i]);
        } else {
            assert(bare[bare.len() - 1] == m[i]);
        }
    }
}

/// Tasks go by their source; the yes/no questions of the two sources that ask
/// both kinds go by a name of their own.
pub proof fn tasks_go_by_their_source(q: QuestionView, source: Seq<char>)
    ensures
        !(q is Noul) ==> task_of(q, source) == source,
        q is Noul ==> task_of(q, source) == source || task_of(q, source) == source + "_yn"@,
        q is Noul && source == "agnews"@ ==> task_of(q, source) == "agnews"@ + "_yn"@,
        q is Noul && source == "yelp"@ ==> task_of(q, source) == "yelp"@ + "_yn"@,
        q is Noul && source != "agnews"@ && source != "yelp"@ ==> task_of(q, source) == source,
{
}

} // verus!

//! Maps that keep the order in which their keys came.

use indexmap::IndexMap;
use vstd::prelude::*;

use crate::answer::{Answer, AnswerView};
use crate::api::{Question, QuestionView};
use crate::json::{Json, JsonView};
use crate::text::texts;

verus! {

/// `indexmap::IndexMap`, a hash map that remembers insertion order.
#[verifier::external_type_specification]
#[verifier::external_body]
#[verifier::reject_recursive_types(KeyT)]
#[verifier::reject_recursive_types(ValueT)]
#[verifier::reject_recursive_types(HashT)]
pub struct ExIndexMap<KeyT, ValueT, HashT>(IndexMap<KeyT, ValueT, HashT>);

/// The entries of a criteria map, in order.
pub uninterp spec fn criteria_of(m: IndexMap<String, Option<Json>>) -> Seq<
    (Seq<char>, Option<JsonView>),
>;

/// The entries of a question map, in order.
pub uninterp spec fn questions_of(m: IndexMap<String, Question>) -> Seq<(Seq<char>, QuestionView)>;

/// The view of an optional JSON value.
pub open spec fn opt_json(v: Option<Json>) -> Option<JsonView> {
    match v {
        Some(j) => Some(j@),
        None => None,
    }
}

/// `IndexMap::iter` over a criteria map: every entry once, in order, no key
/// twice.
#[verifier::external_body]
pub(crate) fn criteria_entries(m: &IndexMap<String, Option<Json>>) -> (r: Vec<
    (&String, &Option<Json>),
>)
    ensures
        r@.len() == criteria_of(*m).len(),
        forall|i: int|
            #![trigger r@[i]]
            0 <= i < r@.len() ==> r@[i].0@ == criteria_of(*m)[i].0 && opt_json(*r@[i].1)
                == criteria_of(*m)[i].1,
        forall|i: int, j: int|
            #![trigger r@[i], r@[j]]
            0 <= i < j < r@.len() ==> r@[i].0@ != r@[j].0@,
{
    m.iter().collect()
}

/// `IndexMap::iter` over a question map: every entry once, in order, no key
/// twice.
#[verifier::external_body]
pub(crate) fn question_entries(m: &IndexMap<String, Question>) -> (r: Vec<(&String, &Question)>)
    ensures
        r@.len() == questions_of(*m).len(),
        forall|i: int|
            #![trigger r@[i]]
            0 <= i < r@.len() ==> r@[i].0@ == questions_of(*m)[i].0 && r@[i].1@ == questions_of(
                *m,
            )[i].1,
        forall|i: int, j: int|
            #![trigger r@[i], r@[j]]
            0 <= i < j < r@.len() ==> r@[i].0@ != r@[j].0@,
{
    m.iter().collect()
}

/// The value of the first entry under `key`.
pub open spec fn find<T>(entries: Seq<(Seq<char>, T)>, key: Seq<char>) -> Option<T>
    decreases entries.len(),
{
    if entries.len() == 0 {
        None
    } else if entries[0].0 == key {
        Some(entries[0].1)
    } else {
        find(entries.drop_first(), key)
    }
}

/// `IndexMap::get` on a criteria map.
#[verifier::external_body]
pub(crate) fn criterion<'a>(m: &'a IndexMap<String, Option<Json>>, key: &str) -> (r: Option<
    &'a Option<Json>,
>)
    ensures
        match r {
            Some(v) => find(criteria_of(*m), key@) == Some(opt_json(*v)),
            None => find(criteria_of(*m), key@) is None,
        },
{
    m.get(key)
}

/// The entries of a map of option orders, in order.
pub uninterp spec fn orders_of(m: IndexMap<String, Vec<usize>>) -> Seq<(Seq<char>, Seq<usize>)>;

/// `IndexMap::new`: a map of option orders without entries.
#[verifier::external_body]
pub(crate) fn no_orders() -> (r: IndexMap<String, Vec<usize>>)
    ensures
        orders_of(r) == Seq::<(Seq<char>, Seq<usize>)>::empty(),
{
    IndexMap::new()
}

/// `IndexMap::get` on a map of option orders.
#[verifier::external_body]
pub(crate) fn order_of<'a>(m: &'a IndexMap<String, Vec<usize>>, key: &str) -> (r: Option<
    &'a Vec<usize>,
>)
    ensures
        match r {
            Some(v) => find(orders_of(*m), key@) == Some(v@),
            None => find(orders_of(*m), key@) is None,
        },
{
    m.get(key)
}

/// The entries of a map of key lists, in order.
pub uninterp spec fn key_lists_of(m: IndexMap<String, Vec<String>>) -> Seq<
    (Seq<char>, Seq<Seq<char>>),
>;

/// `IndexMap::new`: a map of key lists without entries.
#[verifier::external_body]
pub(crate) fn no_key_lists() -> (r: IndexMap<String, Vec<String>>)
    ensures
        key_lists_of(r) == Seq::<(Seq<char>, Seq<Seq<char>>)>::empty(),
{
    IndexMap::new()
}

/// `IndexMap::insert` under a key the map does not hold: the entry comes last.
#[verifier::external_body]
pub(crate) fn add_key_list(m: &mut IndexMap<String, Vec<String>>, key: String, keys: Vec<String>)
    requires
        find(key_lists_of(*old(m)), key@) is None,
    ensures
        key_lists_of(*final(m)) == key_lists_of(*old(m)).push((key@, texts(keys@))),
{
    m.insert(key, keys);
}

/// `IndexMap::new`: a criteria map without entries.
#[verifier::external_body]
pub(crate) fn no_criteria() -> (r: IndexMap<String, Option<Json>>)
    ensures
        criteria_of(r) == Seq::<(Seq<char>, Option<JsonView>)>::empty(),
{
    IndexMap::new()
}

/// `IndexMap::insert` of a criterion under a key the map does not hold: the
/// entry comes last.
#[verifier::external_body]
pub(crate) fn add_criterion(m: &mut IndexMap<String, Option<Json>>, key: String, v: Option<Json>)
    requires
        find(criteria_of(*old(m)), key@) is None,
    ensures
        criteria_of(*final(m)) == criteria_of(*old(m)).push((key@, opt_json(v))),
{
    m.insert(key, v);
}

/// `IndexMap::new`: a question map without entries.
#[verifier::external_body]
pub(crate) fn no_questions() -> (r: IndexMap<String, Question>)
    ensures
        questions_of(r) == Seq::<(Seq<char>, QuestionView)>::empty(),
{
    IndexMap::new()
}

/// `IndexMap::insert` of a question under a key the map does not hold: the
/// entry comes last.
#[verifier::external_body]
pub(crate) fn add_question(m: &mut IndexMap<String, Question>, key: String, q: Question)
    requires
        find(questions_of(*old(m)), key@) is None,
    ensures
        questions_of(*final(m)) == questions_of(*old(m)).push((key@, q@)),
{
    m.insert(key, q);
}

/// `IndexMap::get` on a question map.
#[verifier::external_body]
pub(crate) fn question_at<'a>(m: &'a IndexMap<String, Question>, key: &str) -> (r: Option<
    &'a Question,
>)
    ensures
        match r {
            Some(q) => find(questions_of(*m), key@) == Some(q@),
            None => find(questions_of(*m), key@) is None,
        },
{
    m.get(key)
}

/// The keys of entries, in order.
pub open spec fn entry_keys<T>(es: Seq<(Seq<char>, T)>) -> Seq<Seq<char>> {
    es.map_values(|e: (Seq<char>, T)| e.0)
}

/// `IndexMap::keys` of a map of key lists: every key once, in order.
#[verifier::external_body]
pub(crate) fn key_list_names(m: &IndexMap<String, Vec<String>>) -> (r: Vec<String>)
    ensures
        texts(r@) == entry_keys(key_lists_of(*m)),
{
    m.keys().cloned().collect()
}

/// Entries with one more: its value in place of an earlier one under the key,
/// else behind the others.
pub open spec fn with_entry<T>(es: Seq<(Seq<char>, T)>, key: Seq<char>, v: T) -> Seq<
    (Seq<char>, T),
>
    decreases es.len(),
{
    if es.len() == 0 {
        seq![(key, v)]
    } else if es[0].0 == key {
        seq![(key, v)] + es.drop_first()
    } else {
        seq![es[0]] + with_entry(es.drop_first(), key, v)
    }
}

/// The entries of an answer map, in order.
pub uninterp spec fn answers_of(m: IndexMap<String, Answer>) -> Seq<(Seq<char>, AnswerView)>;

/// `IndexMap::new`: an answer map without entries.
#[verifier::external_body]
pub(crate) fn no_answers() -> (r: IndexMap<String, Answer>)
    ensures
        answers_of(r) == Seq::<(Seq<char>, AnswerView)>::empty(),
{
    IndexMap::new()
}

/// `IndexMap::insert` of an answer: in place of an earlier one under the key,
/// else behind the others.
#[verifier::external_body]
pub(crate) fn set_answer(m: &mut IndexMap<String, Answer>, key: String, a: Answer)
    ensures
        answers_of(*final(m)) == with_entry(answers_of(*old(m)), key@, a@),
{
    m.insert(key, a);
}

/// The entries of a map of numbers, in order.
pub uninterp spec fn numbers_of(m: IndexMap<String, u64>) -> Seq<(Seq<char>, u64)>;

/// `IndexMap::new`: a map of numbers without entries.
#[verifier::external_body]
pub(crate) fn no_numbers() -> (r: IndexMap<String, u64>)
    ensures
        numbers_of(r) == Seq::<(Seq<char>, u64)>::empty(),
{
    IndexMap::new()
}

/// `IndexMap::insert` of a number under a key the map does not hold: the entry
/// comes last.
#[verifier::external_body]
pub(crate) fn add_number(m: &mut IndexMap<String, u64>, key: String, n: u64)
    requires
        find(numbers_of(*old(m)), key@) is None,
    ensures
        numbers_of(*final(m)) == numbers_of(*old(m)).push((key@, n)),
{
    m.insert(key, n);
}

/// The entries of a map of JSON values, in order.
pub uninterp spec fn values_of(m: IndexMap<String, Json>) -> Seq<(Seq<char>, JsonView)>;

/// `IndexMap::new`: a map of JSON values without entries.
#[verifier::external_body]
pub(crate) fn no_values() -> (r: IndexMap<String, Json>)
    ensures
        values_of(r) == Seq::<(Seq<char>, JsonView)>::empty(),
{
    IndexMap::new()
}

/// `IndexMap::insert` of a JSON value under a key the map does not hold: the
/// entry comes last.
#[verifier::external_body]
pub(crate) fn add_value(m: &mut IndexMap<String, Json>, key: String, v: Json)
    requires
        find(values_of(*old(m)), key@) is None,
    ensures
        values_of(*final(m)) == values_of(*old(m)).push((key@, v@)),
{
    m.insert(key, v);
}

} // verus!

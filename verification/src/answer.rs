//! Mapping a distribution over rendered options back onto the question's own
//! keys.

use indexmap::IndexMap;
use vstd::prelude::*;

use crate::api::{Question, QuestionView, Request};
use crate::engine::Usage;
use crate::json::{Json, JsonView};
use crate::map::{
    add_number, add_value, answers_of, criteria_entries, criteria_of, find, no_answers, no_numbers,
    no_values, numbers_of, question_at, questions_of, set_answer, values_of, with_entry,
};
use crate::math::{argmax, argmax_view, greater, is_nan, the_first_greatest_is_found};
use crate::render::{option_texts, order_fits, RenderedBranch};
use crate::plan::find_none;
use crate::text::{decimal, decimals_are_distinct, push_decimal};

verus! {

/// An answer; every number as the bit pattern of its double.
#[derive(Debug, PartialEq)]
#[allow(inconsistent_fields)]
pub enum Answer {
    Noul { noul: u64 },
    Choice { choice: String, probabilities: IndexMap<String, u64>, confidence: u64 },
    Score {
        score: u64,
        legend: IndexMap<String, Json>,
        probabilities: IndexMap<String, u64>,
        confidence: u64,
    },
}

/// An answer with its lists as sequences.
#[allow(inconsistent_fields)]
#[verifier::ext_equal]
pub enum AnswerView {
    Noul { noul: u64 },
    Choice { choice: Seq<char>, probabilities: Seq<(Seq<char>, u64)>, confidence: u64 },
    Score {
        score: u64,
        legend: Seq<(Seq<char>, JsonView)>,
        probabilities: Seq<(Seq<char>, u64)>,
        confidence: u64,
    },
}

impl View for Answer {
    type V = AnswerView;

    open spec fn view(&self) -> AnswerView {
        match self {
            Answer::Noul { noul } => AnswerView::Noul { noul: *noul },
            Answer::Choice { choice, probabilities, confidence } => AnswerView::Choice {
                choice: choice@,
                probabilities: numbers_of(*probabilities),
                confidence: *confidence,
            },
            Answer::Score { score, legend, probabilities, confidence } => AnswerView::Score {
                score: *score,
                legend: values_of(*legend),
                probabilities: numbers_of(*probabilities),
                confidence: *confidence,
            },
        }
    }
}

/// The numbers of the first `n` slots at their options' original places; zero
/// where no slot speaks for an option.
pub open spec fn by_option(order: Seq<usize>, probs: Seq<u64>, k: nat, n: nat) -> Seq<u64>
    decreases n,
{
    if n == 0 {
        Seq::new(k, |i: int| 0u64)
    } else {
        by_option(order, probs, k, (n - 1) as nat).update(order[n - 1] as int, probs[n - 1])
    }
}

/// The probabilities of a branch at their options' original places.
pub fn original_order(branch: &RenderedBranch, probs: &Vec<u64>) -> (r: Vec<u64>)
    requires
        order_fits(branch.order@, branch.keys@.len()),
        branch.order@.len() <= probs@.len(),
    ensures
        r@ == by_option(branch.order@, probs@, branch.keys@.len(), branch.order@.len()),
{
    let k: usize = branch.keys.len();
    let mut out: Vec<u64> = Vec::new();
    let mut i: usize = 0;
    while i < k
        invariant
            0 <= i <= k,
            out@ == Seq::new(i as nat, |j: int| 0u64),
        decreases k - i,
    {
        out.push(0);
        i += 1;
        assert(out@ =~= Seq::new(i as nat, |j: int| 0u64));
    }
    let mut s: usize = 0;
    while s < branch.order.len()
        invariant
            0 <= s <= branch.order@.len(),
            k == branch.keys@.len(),
            order_fits(branch.order@, k as nat),
            branch.order@.len() <= probs@.len(),
            out@.len() == k,
            out@ == by_option(branch.order@, probs@, k as nat, s as nat),
        decreases branch.order@.len() - s,
    {
        let o: usize = branch.order[s];
        assert(branch.order@[s as int] < k);
        out.set(o, probs[s]);
        s += 1;
    }
    out
}

proof fn by_option_len(order: Seq<usize>, probs: Seq<u64>, k: nat, n: nat)
    requires
        order_fits(order, k),
        n <= order.len(),
    ensures
        by_option(order, probs, k, n).len() == k,
    decreases n,
{
    if n > 0 {
        by_option_len(order, probs, k, (n - 1) as nat);
        assert(order[n - 1] < k);
    }
}

/// Reading a distribution back at the original places undoes the option
/// order: the option asked at slot `s` gets the number of slot `s`.
pub proof fn reading_back_undoes_the_order(
    order: Seq<usize>,
    probs: Seq<u64>,
    k: nat,
    n: nat,
    s: int,
)
    requires
        order_fits(order, k),
        order.no_duplicates(),
        0 <= s < n <= order.len(),
    ensures
        by_option(order, probs, k, n)[order[s] as int] == probs[s],
    decreases n,
{
    by_option_len(order, probs, k, n);
    by_option_len(order, probs, k, (n - 1) as nat);
    assert(order[n - 1] < k && order[s] < k);
    if s < n - 1 {
        reading_back_undoes_the_order(order, probs, k, (n - 1) as nat, s);
        assert(order[s] != order[n - 1]);
    }
}

/// A full order without repeats asks every option.
pub(crate) proof fn full_orders_ask_everything(order: Seq<usize>, k: nat, o: int)
    requires
        order_fits(order, k),
        order.no_duplicates(),
        order.len() == k,
        0 <= o < k,
    ensures
        exists|s: int| 0 <= s < k && #[trigger] order[s] == o,
{
    let places = order.map_values(|x: usize| x as int);
    let all = vstd::set_lib::set_int_range(0, k as int);
    assert(places.no_duplicates());
    places.unique_seq_to_set();
    vstd::set_lib::lemma_int_range(0, k as int);
    assert forall|x: int| places.to_set().contains(x) implies all.contains(x) by {
        let s = choose|s: int| 0 <= s < places.len() && places[s] == x;
        assert(order[s] < k);
    }
    vstd::set_lib::lemma_len_subset(places.to_set(), all);
    vstd::set_lib::lemma_subset_equality(places.to_set(), all);
    assert(places.to_set().contains(o));
    let s = choose|s: int| 0 <= s < places.len() && places[s] == o;
    assert(order[s] == o);
}

/// An answer does not depend on the order in which its options were asked: a
/// distribution over the slots of any full order, and the same distribution in
/// the options' own order, read back to the same probabilities and give the
/// same answer, whatever is computed from them.
pub proof fn answers_do_not_depend_on_the_order(
    q: QuestionView,
    order: Seq<usize>,
    probs: Seq<u64>,
    own: Seq<u64>,
    k: nat,
    expected: spec_fn(Seq<u64>) -> u64,
    confidence: spec_fn(Seq<u64>) -> u64,
)
    requires
        order_fits(order, k),
        order.no_duplicates(),
        order.len() == k <= usize::MAX,
        own.len() == k,
        forall|s: int| 0 <= s < k ==> own[(#[trigger] order[s]) as int] == probs[s],
    ensures
        ({
            let natural = Seq::new(k, |i: int| i as usize);
            let p = by_option(order, probs, k, k);
            let p0 = by_option(natural, own, k, k);
            &&& p == own
            &&& p0 == own
            &&& answer_view(q, p, expected(p), confidence(p)) == answer_view(
                q,
                p0,
                expected(p0),
                confidence(p0),
            )
        }),
{
    let natural = Seq::new(k, |i: int| i as usize);
    let p = by_option(order, probs, k, k);
    let p0 = by_option(natural, own, k, k);
    by_option_len(order, probs, k, k);
    by_option_len(natural, own, k, k);
    assert forall|o: int| 0 <= o < k implies p[o] == own[o] && p0[o] == own[o] by {
        full_orders_ask_everything(order, k, o);
        let s = choose|s: int| 0 <= s < k && #[trigger] order[s] == o;
        reading_back_undoes_the_order(order, probs, k, k, s);
        reading_back_undoes_the_order(natural, own, k, k, o);
        assert(natural[o] == o);
    }
    assert(p =~= own);
    assert(p0 =~= own);
}

/// The keys of a Choice with the probabilities of its options.
pub open spec fn choice_probs(keys: Seq<Seq<char>>, p: Seq<u64>) -> Seq<(Seq<char>, u64)> {
    Seq::new(
        if keys.len() < p.len() {
            keys.len()
        } else {
            p.len()
        },
        |i: int| (keys[i], p[i]),
    )
}

/// The levels of a Score by index.
pub open spec fn level_probs(p: Seq<u64>) -> Seq<(Seq<char>, u64)> {
    Seq::new(p.len(), |i: int| (decimal(i as nat), p[i]))
}

/// The answer to a question from the probabilities of its options at their
/// original places, their expected place and their concentration.
pub open spec fn answer_view(
    q: QuestionView,
    p: Seq<u64>,
    expected: u64,
    confidence: u64,
) -> AnswerView {
    let best = argmax_view(p, p.len());
    match q {
        QuestionView::Noul { .. } => AnswerView::Noul { noul: p[0] },
        QuestionView::Choice { criteria, .. } => AnswerView::Choice {
            choice: if best < criteria.len() {
                criteria[best as int].0
            } else {
                Seq::empty()
            },
            probabilities: choice_probs(
                criteria.map_values(|e: (Seq<char>, Option<JsonView>)| e.0),
                p,
            ),
            confidence,
        },
        QuestionView::Score { criteria, .. } => AnswerView::Score {
            score: expected,
            legend: Seq::new(criteria.len(), |i: int| (decimal(i as nat), criteria[i])),
            probabilities: level_probs(p),
            confidence,
        },
    }
}

/// Levels named by their places hold no name of a later place.
proof fn distinct_levels<T>(es: Seq<(Seq<char>, T)>, n: nat)
    requires
        es.len() == n,
        forall|i: int| 0 <= i < n ==> (#[trigger] es[i]).0 == decimal(i as nat),
    ensures
        find(es, decimal(n)) is None,
{
    assert forall|i: int| 0 <= i < es.len() implies (#[trigger] es[i]).0 != decimal(n) by {
        if es[i].0 == decimal(n) {
            decimals_are_distinct(i as nat, n);
        }
    }
    find_none(es, decimal(n));
}

fn index_text(i: usize) -> (r: String)
    ensures
        r@ == decimal(i as nat),
{
    let mut s: String = String::new();
    push_decimal(&mut s, i as u64);
    assert(s@ =~= decimal(i as nat));
    s
}

/// The answer to a question: `p` holds the probability of every option at its
/// original place, `expected` the expected place and `confidence` the
/// concentration.
pub fn to_answer(q: &Question, p: &Vec<u64>, expected: u64, confidence: u64) -> (r: Answer)
    requires
        q@ is Noul ==> p@.len() > 0,
    ensures
        r@ == answer_view(q@, p@, expected, confidence),
{
    match q {
        Question::Noul { instructions, criteria } => Answer::Noul { noul: p[0] },
        Question::Choice { instructions, criteria } => {
            let best: usize = argmax(p);
            let entries = criteria_entries(criteria);
            let ghost cv = criteria_of(*criteria);
            let ghost keys = cv.map_values(|e: (Seq<char>, Option<JsonView>)| e.0);
            let choice: String = if best < entries.len() {
                entries[best].0.clone()
            } else {
                String::new()
            };
            let n: usize = if entries.len() < p.len() {
                entries.len()
            } else {
                p.len()
            };
            let ghost want = choice_probs(keys, p@);
            let mut probabilities = no_numbers();
            let mut i: usize = 0;
            assert(numbers_of(probabilities) =~= want.take(0));
            while i < n
                invariant
                    0 <= i <= n,
                    n <= entries@.len(),
                    n <= p@.len(),
                    n == want.len(),
                    entries@.len() == cv.len(),
                    keys == cv.map_values(|e: (Seq<char>, Option<JsonView>)| e.0),
                    want == choice_probs(keys, p@),
                    forall|j: int|
                        #![trigger entries@[j]]
                        0 <= j < entries@.len() ==> entries@[j].0@ == cv[j].0,
                    forall|j: int, k: int|
                        #![trigger entries@[j], entries@[k]]
                        0 <= j < k < entries@.len() ==> entries@[j].0@ != entries@[k].0@,
                    numbers_of(probabilities) == want.take(i as int),
                decreases n - i,
            {
                let key: String = entries[i].0.clone();
                proof {
                    let sofar = want.take(i as int);
                    assert forall|j: int| 0 <= j < sofar.len() implies (#[trigger] sofar[j]).0
                        != key@ by {
                        assert(entries@[j].0@ != entries@[i as int].0@);
                    }
                    find_none(sofar, key@);
                }
                add_number(&mut probabilities, key, p[i]);
                i += 1;
                assert(numbers_of(probabilities) =~= want.take(i as int));
            }
            assert(want.take(i as int) =~= want);
            Answer::Choice { choice, probabilities, confidence }
        },
        Question::Score { instructions, criteria } => {
            let ghost cv = q@->Score_criteria;
            let ghost named = Seq::new(cv.len(), |i: int| (decimal(i as nat), cv[i]));
            let mut legend = no_values();
            let mut i: usize = 0;
            assert(values_of(legend) =~= named.take(0));
            while i < criteria.len()
                invariant
                    0 <= i <= criteria@.len(),
                    cv.len() == criteria@.len(),
                    forall|j: int| 0 <= j < cv.len() ==> #[trigger] cv[j] == criteria@[j]@,
                    named == Seq::new(cv.len(), |i: int| (decimal(i as nat), cv[i])),
                    values_of(legend) == named.take(i as int),
                decreases criteria@.len() - i,
            {
                proof {
                    distinct_levels(named.take(i as int), i as nat);
                }
                add_value(&mut legend, index_text(i), criteria[i].clone());
                i += 1;
                assert(values_of(legend) =~= named.take(i as int));
            }
            assert(named.take(i as int) =~= named);
            let ghost want = level_probs(p@);
            let mut probabilities = no_numbers();
            let mut i: usize = 0;
            assert(numbers_of(probabilities) =~= want.take(0));
            while i < p.len()
                invariant
                    0 <= i <= p@.len(),
                    want == level_probs(p@),
                    numbers_of(probabilities) == want.take(i as int),
                decreases p@.len() - i,
            {
                proof {
                    distinct_levels(want.take(i as int), i as nat);
                }
                add_number(&mut probabilities, index_text(i), p[i]);
                i += 1;
                assert(numbers_of(probabilities) =~= want.take(i as int));
            }
            assert(want.take(i as int) =~= want);
            let r = Answer::Score { score: expected, legend, probabilities, confidence };
            assert(r@ =~= answer_view(q@, p@, expected, confidence));
            r
        },
    }
}

/// What a request is answered with.
#[derive(Debug, PartialEq)]
pub struct Response {
    pub model: String,
    pub answers: IndexMap<String, Answer>,
    pub usage: Usage,
}

/// What was read for a question: its options' probabilities at their original
/// places, their expected place and their concentration, as bit patterns.
#[derive(Debug)]
pub struct Read {
    pub id: String,
    pub probs: Vec<u64>,
    pub expected: u64,
    pub confidence: u64,
}

/// The answers to the first `n` questions that were read.
pub open spec fn answers_view(qs: Seq<(Seq<char>, QuestionView)>, reads: Seq<Read>, n: nat) -> Seq<
    (Seq<char>, AnswerView),
>
    decreases n,
{
    if n == 0 {
        Seq::empty()
    } else {
        let r = reads[n - 1];
        with_entry(
            answers_view(qs, reads, (n - 1) as nat),
            r.id@,
            answer_view(find(qs, r.id@)->0, r.probs@, r.expected, r.confidence),
        )
    }
}

/// A question was read: it is one of the request's, and a Noul has a first
/// option.
pub open spec fn read_fits(qs: Seq<(Seq<char>, QuestionView)>, r: Read) -> bool {
    find(qs, r.id@) is Some && (find(qs, r.id@)->0 is Noul ==> r.probs@.len() > 0)
}

/// The response to a request from what was read for its questions.
pub fn response(model: &str, req: &Request, reads: &Vec<Read>, usage: Usage) -> (r: Response)
    requires
        forall|i: int|
            0 <= i < reads@.len() ==> read_fits(
                questions_of(req.questions),
                #[trigger] reads@[i],
            ),
    ensures
        r.model@ == model@,
        answers_of(r.answers) == answers_view(
            questions_of(req.questions),
            reads@,
            reads@.len(),
        ),
        r.usage == usage,
{
    let mut answers: IndexMap<String, Answer> = no_answers();
    let mut i: usize = 0;
    while i < reads.len()
        invariant
            0 <= i <= reads@.len(),
            forall|j: int|
                0 <= j < reads@.len() ==> read_fits(
                    questions_of(req.questions),
                    #[trigger] reads@[j],
                ),
            answers_of(answers) == answers_view(questions_of(req.questions), reads@, i as nat),
        decreases reads@.len() - i,
    {
        let read: &Read = &reads[i];
        assert(read_fits(questions_of(req.questions), reads@[i as int]));
        match question_at(&req.questions, read.id.as_str()) {
            Some(q) => {
                let a: Answer = to_answer(q, &read.probs, read.expected, read.confidence);
                set_answer(&mut answers, read.id.clone(), a);
            },
            None => {
                assert(false);
            },
        }
        i += 1;
    }
    Response { model: model.to_owned(), answers, usage }
}

proof fn fresh_entry_comes_last<T>(es: Seq<(Seq<char>, T)>, key: Seq<char>, v: T)
    requires
        forall|i: int| 0 <= i < es.len() ==> (#[trigger] es[i]).0 != key,
    ensures
        with_entry(es, key, v) == es.push((key, v)),
    decreases es.len(),
{
    if es.len() == 0 {
        assert(seq![(key, v)] =~= es.push((key, v)));
    } else {
        assert(es[0].0 != key);
        assert forall|i: int| 0 <= i < es.drop_first().len() implies (#[trigger] es.drop_first()[i]).0
            != key by {
            assert(es[i + 1].0 != key);
        }
        fresh_entry_comes_last(es.drop_first(), key, v);
        assert(seq![es[0]] + es.drop_first().push((key, v)) =~= es.push((key, v)));
    }
}

/// Every question that was read is answered under its id, in the order in
/// which they were read.
pub proof fn answers_come_in_order(qs: Seq<(Seq<char>, QuestionView)>, reads: Seq<Read>, n: nat)
    requires
        n <= reads.len(),
        forall|i: int, j: int|
            0 <= i < j < reads.len() ==> (#[trigger] reads[i]).id@ != (#[trigger] reads[j]).id@,
    ensures
        answers_view(qs, reads, n) == Seq::new(
            n,
            |i: int|
                (
                    reads[i].id@,
                    answer_view(
                        find(qs, reads[i].id@)->0,
                        reads[i].probs@,
                        reads[i].expected,
                        reads[i].confidence,
                    ),
                ),
        ),
    decreases n,
{
    let f = |i: int|
        (
            reads[i].id@,
            answer_view(
                find(qs, reads[i].id@)->0,
                reads[i].probs@,
                reads[i].expected,
                reads[i].confidence,
            ),
        );
    if n == 0 {
        assert(answers_view(qs, reads, n) =~= Seq::new(n, f));
    } else {
        let m = (n - 1) as nat;
        answers_come_in_order(qs, reads, m);
        let before = answers_view(qs, reads, m);
        assert forall|i: int| 0 <= i < before.len() implies (#[trigger] before[i]).0
            != reads[n - 1].id@ by {
            assert(reads[i].id@ != reads[n - 1].id@);
        }
        fresh_entry_comes_last(before, reads[n - 1].id@, f(n - 1).1);
        assert(answers_view(qs, reads, n) =~= Seq::new(n, f));
    }
}

/// A Noul is answered with the probability that its statement is true: that of
/// the option whose key is `true`.
pub proof fn a_noul_is_the_probability_of_true(
    q: QuestionView,
    p: Seq<u64>,
    expected: u64,
    confidence: u64,
    i: int,
)
    requires
        q is Noul,
        0 <= i < option_texts(q).len(),
        option_texts(q)[i].0 == "true"@,
    ensures
        answer_view(q, p, expected, confidence) is Noul,
        answer_view(q, p, expected, confidence)->noul == p[i],
        option_texts(q).len() == 2,
        forall|j: int|
            0 <= j < 2 && j != i ==> (#[trigger] option_texts(q)[j]).0 == "false"@,
{
    reveal_strlit("true");
    reveal_strlit("false");
    assert("true"@.len() != "false"@.len());
}

/// A Choice and a Score report every option's probability under the option's
/// own key, in the order of the request, and the concentration they were given.
pub proof fn every_option_reports_its_probability(
    q: QuestionView,
    p: Seq<u64>,
    expected: u64,
    confidence: u64,
    i: int,
)
    requires
        !(q is Noul),
        p.len() == option_texts(q).len(),
        0 <= i < p.len(),
    ensures
        match answer_view(q, p, expected, confidence) {
            AnswerView::Noul { noul } => false,
            AnswerView::Choice { choice, probabilities, confidence: c } => {
                &&& q is Choice
                &&& probabilities.len() == p.len()
                &&& probabilities[i].0 == option_texts(q)[i].0
                &&& probabilities[i].1 == p[i]
                &&& c == confidence
            },
            AnswerView::Score { score, legend, probabilities, confidence: c } => {
                &&& q is Score
                &&& probabilities.len() == p.len()
                &&& probabilities[i].0 == option_texts(q)[i].0
                &&& probabilities[i].1 == p[i]
                &&& c == confidence
            },
        },
{
}

/// A Choice is answered with the key of a most probable option, the first of
/// equals.
pub proof fn the_most_probable_option_is_chosen(
    q: QuestionView,
    p: Seq<u64>,
    expected: u64,
    confidence: u64,
) -> (best: int)
    requires
        q is Choice,
        p.len() == option_texts(q).len(),
        p.len() > 0,
        forall|j: int| 0 <= j < p.len() ==> !is_nan(#[trigger] p[j]),
    ensures
        0 <= best < p.len(),
        answer_view(q, p, expected, confidence) is Choice,
        answer_view(q, p, expected, confidence)->choice == option_texts(q)[best].0,
        forall|j: int| 0 <= j < p.len() ==> !greater(#[trigger] p[j], p[best]),
        forall|j: int| 0 <= j < best ==> greater(p[best], #[trigger] p[j]),
{
    let best = argmax_view(p, p.len()) as int;
    assert forall|j: int| 0 <= j < p.len() implies !greater(#[trigger] p[j], p[best]) && (j < best
        ==> greater(p[best], p[j])) by {
        the_first_greatest_is_found(p, p.len(), j);
    }
    the_first_greatest_is_found(p, p.len(), 0);
    best
}

/// A Score is answered with the expected place it was given, and its legend
/// tells what stands behind every level.
pub proof fn a_score_explains_its_levels(
    q: QuestionView,
    p: Seq<u64>,
    expected: u64,
    confidence: u64,
    i: int,
)
    requires
        q is Score,
        0 <= i < q->Score_criteria.len(),
    ensures
        answer_view(q, p, expected, confidence) is Score,
        answer_view(q, p, expected, confidence)->score == expected,
        answer_view(q, p, expected, confidence)->legend.len() == q->Score_criteria.len(),
        answer_view(q, p, expected, confidence)->legend[i].0 == option_texts(q)[i].0,
        answer_view(q, p, expected, confidence)->legend[i].1 == q->Score_criteria[i],
{
}

/// An option that no slot asked has no probability.
pub proof fn unasked_options_have_no_probability(
    order: Seq<usize>,
    probs: Seq<u64>,
    k: nat,
    n: nat,
    o: int,
)
    requires
        order_fits(order, k),
        n <= order.len(),
        0 <= o < k,
        forall|s: int| 0 <= s < n ==> (#[trigger] order[s]) != o,
    ensures
        by_option(order, probs, k, n).len() == k,
        by_option(order, probs, k, n)[o] == 0,
    decreases n,
{
    by_option_len(order, probs, k, n);
    if n > 0 {
        by_option_len(order, probs, k, (n - 1) as nat);
        unasked_options_have_no_probability(order, probs, k, (n - 1) as nat, o);
        assert(order[n - 1] != o);
    }
}

/// Every question that was read is answered from what was read for it: under
/// its id stands the answer to the request's question of that id, whatever was
/// read for the others.
pub proof fn questions_get_their_own_answers(
    qs: Seq<(Seq<char>, QuestionView)>,
    reads: Seq<Read>,
    i: int,
    j: int,
)
    requires
        0 <= i < reads.len(),
        0 <= j < qs.len(),
        qs[j].0 == reads[i].id@,
        forall|a: int, b: int|
            0 <= a < b < qs.len() ==> (#[trigger] qs[a]).0 != (#[trigger] qs[b]).0,
        forall|a: int, b: int|
            0 <= a < b < reads.len() ==> (#[trigger] reads[a]).id@ != (#[trigger] reads[b]).id@,
    ensures
        answers_view(qs, reads, reads.len()).len() == reads.len(),
        answers_view(qs, reads, reads.len())[i].0 == qs[j].0,
        answers_view(qs, reads, reads.len())[i].1 == answer_view(
            qs[j].1,
            reads[i].probs@,
            reads[i].expected,
            reads[i].confidence,
        ),
{
    answers_come_in_order(qs, reads, reads.len());
    found_at(qs, j);
}

proof fn found_at<T>(es: Seq<(Seq<char>, T)>, j: int)
    requires
        0 <= j < es.len(),
        forall|a: int, b: int|
            0 <= a < b < es.len() ==> (#[trigger] es[a]).0 != (#[trigger] es[b]).0,
    ensures
        find(es, es[j].0) == Some(es[j].1),
    decreases es.len(),
{
    if j > 0 {
        assert(es[0].0 != es[j].0);
        let rest = es.drop_first();
        assert forall|a: int, b: int| 0 <= a < b < rest.len() implies (#[trigger] rest[a]).0 != (
        #[trigger] rest[b]).0 by {
            assert(es[a + 1].0 != es[b + 1].0);
        }
        found_at(rest, j - 1);
        assert(rest[j - 1] == es[j]);
    }
}

} // verus!

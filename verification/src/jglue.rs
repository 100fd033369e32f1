//! JGLUE records as requests with a gold option, and few-shot examples drawn
//! from them.

use vstd::prelude::*;
use vstd::string::StringExecFns;

use crate::api::{field_lines, state_block, state_lines, Question, QuestionView, Request};
use crate::error::LoadError;
use crate::json::{
    as_double, as_unsigned, at, compact, compact_json, double_of, field_views, has_field,
    json_lines, line_name, line_value, line_views, lines_of, name_line, numbered, read_json, unread_line,
    set_field, views, with_field, Json, JsonView,
};
use crate::map::{
    add_criterion, add_question, criteria_of, find, no_criteria, no_questions, questions_of,
};
use crate::render::{instruction, option_texts};
use crate::text::{
    concat2, concat3, decimal, digit_char, ends_in, join, join_texts, number_text, push_decimal, same,
    starts_in, texts,
};

verus! {

/// The revision of the data sets.
pub const REVISION: &'static str = "6f071c09316baae89c3d083a90985b4b1cb9968c";

pub const JNLI_LABELS: [&'static str; 3] = ["entailment", "contradiction", "neutral"];

pub const JSTS_INSTR: &'static str = "2つの文の意味がどの程度似ているかを判定してください。";

pub const JSTS_LEVELS: [&'static str; 6] = [
    "0: 全く関係がない",
    "1: ほとんど関係がない",
    "2: 一部の話題が共通する",
    "3: おおよそ同じ内容",
    "4: 細部を除いて同じ",
    "5: 完全に同じ意味",
];

#[derive(Debug, Clone, Copy, PartialEq, Eq, Structural)]
pub enum Task {
    Jnli,
    Jcqa,
    Jsts,
}

/// The name of a task.
pub open spec fn task_name(t: Task) -> Seq<char> {
    match t {
        Task::Jnli => "jnli"@,
        Task::Jcqa => "jcommonsenseqa"@,
        Task::Jsts => "jsts"@,
    }
}

impl Task {
    pub fn name(self) -> (r: &'static str)
        ensures
            r@ == task_name(self),
    {
        match self {
            Task::Jnli => "jnli",
            Task::Jcqa => "jcommonsenseqa",
            Task::Jsts => "jsts",
        }
    }

    /// Where a split of the task is found.
    pub fn url(self, split: &str) -> (r: String)
        ensures
            r@ == "https://raw.githubusercontent.com/yahoojapan/JGLUE/"@ + REVISION@
                + "/datasets/"@ + task_name(self) + "-v1.3/"@ + split@ + "-v1.3.json"@,
    {
        let mut s: String = "https://raw.githubusercontent.com/yahoojapan/JGLUE/".to_owned();
        s.append(REVISION);
        s.append("/datasets/");
        s.append(self.name());
        s.append("-v1.3/");
        s.append(split);
        s.append("-v1.3.json");
        s
    }
}

/// One record turned into a request plus its gold option index.
#[derive(Debug)]
pub struct Item {
    pub id: String,
    pub request: Request,
    /// Index of the gold option in the request's criteria order.
    pub gold: usize,
}

/// The place of a label of the inference task, three for another text.
pub open spec fn label_index(s: Seq<char>) -> usize {
    if s == "entailment"@ {
        0
    } else if s == "contradiction"@ {
        1
    } else if s == "neutral"@ {
        2
    } else {
        3
    }
}

fn index_of_label(s: &str) -> (r: usize)
    ensures
        r == label_index(s@),
{
    if same(s, "entailment") {
        0
    } else if same(s, "contradiction") {
        1
    } else if same(s, "neutral") {
        2
    } else {
        3
    }
}

/// The whole number nearest to a double given as its bit pattern, halves
/// upwards: no more than 6, and 0 for a negative number and for what is no
/// number. Positive doubles are ordered as their bit patterns are.
pub open spec fn nearest(bits: u64) -> usize {
    if bits >= 0x8000_0000_0000_0000 || bits > 0x7ff0_0000_0000_0000 {
        0
    } else if bits < 0x3fe0_0000_0000_0000 {
        0
    } else if bits < 0x3ff8_0000_0000_0000 {
        1
    } else if bits < 0x4004_0000_0000_0000 {
        2
    } else if bits < 0x400c_0000_0000_0000 {
        3
    } else if bits < 0x4012_0000_0000_0000 {
        4
    } else if bits < 0x4016_0000_0000_0000 {
        5
    } else {
        6
    }
}

fn nearest_of(bits: u64) -> (r: usize)
    ensures
        r == nearest(bits),
        r <= 6,
{
    if bits >= 0x8000_0000_0000_0000 || bits > 0x7ff0_0000_0000_0000 {
        0
    } else if bits < 0x3fe0_0000_0000_0000 {
        0
    } else if bits < 0x3ff8_0000_0000_0000 {
        1
    } else if bits < 0x4004_0000_0000_0000 {
        2
    } else if bits < 0x400c_0000_0000_0000 {
        3
    } else if bits < 0x4012_0000_0000_0000 {
        4
    } else if bits < 0x4016_0000_0000_0000 {
        5
    } else {
        6
    }
}

/// The text under a key.
pub open spec fn text_in(row: JsonView, key: Seq<char>) -> Option<Seq<char>> {
    match at(row, key) {
        JsonView::Str(s) => Some(s),
        _ => None,
    }
}

/// The first of the keys that holds no text.
pub open spec fn texts_missing(row: JsonView, keys: Seq<Seq<char>>) -> Option<Seq<char>>
    decreases keys.len(),
{
    if keys.len() == 0 {
        None
    } else if text_in(row, keys[0]) is None {
        Some("missing "@ + keys[0])
    } else {
        texts_missing(row, keys.drop_first())
    }
}

/// The keys of the five choices.
pub open spec fn choice_keys() -> Seq<Seq<char>> {
    Seq::new(5, |i: int| "choice"@ + decimal(i as nat))
}

/// Why a record cannot be read, if it cannot.
pub open spec fn item_fault(task: Task, row: JsonView) -> Option<Seq<char>> {
    let label = at(row, "label"@);
    match task {
        Task::Jnli => match text_in(row, "label"@) {
            None => Some("missing label"@),
            Some(l) => if label_index(l) == 3 {
                Some("label "@ + l)
            } else {
                texts_missing(
                    row,
                    seq!["sentence_pair_id"@, "sentence1"@, "sentence2"@],
                )
            },
        },
        Task::Jcqa => if as_unsigned(label) is None {
            Some("label"@)
        } else {
            texts_missing(row, choice_keys().push("question"@))
        },
        Task::Jsts => if !has_field(row, "label"@) || as_double(label) is None {
            Some("label"@)
        } else {
            texts_missing(row, seq!["sentence_pair_id"@, "sentence1"@, "sentence2"@])
        },
    }
}

/// A string as a value.
pub open spec fn str_value(s: Seq<char>) -> JsonView {
    JsonView::Str(s)
}

/// The text under a key of a row that holds it.
pub open spec fn text_of(row: JsonView, key: Seq<char>) -> Seq<char> {
    text_in(row, key)->0
}

/// The options of the inference task.
pub open spec fn jnli_criteria() -> Seq<(Seq<char>, Option<JsonView>)> {
    seq![
        ("entailment"@, Some(str_value("含意：前提から仮説が正しいと必ず言える"@))),
        ("contradiction"@, Some(str_value("矛盾：前提から仮説が誤りだと必ず言える"@))),
        (
            "neutral"@,
            Some(str_value("中立：前提だけでは仮説が正しいとも誤りとも判断できない"@)),
        ),
    ]
}

/// The first `n` choices of a row.
pub open spec fn jcqa_criteria(row: JsonView, n: nat) -> Seq<(Seq<char>, Option<JsonView>)> {
    Seq::new(
        n,
        |i: int| (decimal(i as nat), Some(str_value(text_of(row, choice_keys()[i])))),
    )
}

/// The levels of the similarity task.
pub open spec fn jsts_levels() -> Seq<JsonView> {
    seq![
        str_value("0: 全く関係がない"@),
        str_value("1: ほとんど関係がない"@),
        str_value("2: 一部の話題が共通する"@),
        str_value("3: おおよそ同じ内容"@),
        str_value("4: 細部を除いて同じ"@),
        str_value("5: 完全に同じ意味"@),
    ]
}

/// The question a task asks of every record.
pub open spec fn task_question(task: Task, row: JsonView) -> QuestionView {
    match task {
        Task::Jnli => QuestionView::Choice {
            instructions: Some(
                str_value(
                    "前提が正しいとき、仮説との論理的な関係を判定してください。前提から分からない情報を補わないでください。"@,
                ),
            ),
            criteria: jnli_criteria(),
        },
        Task::Jcqa => QuestionView::Choice {
            instructions: Some(
                str_value(
                    "質問に対して、常識に基づく最も適切な答えを選択肢から1つ選んでください。"@,
                ),
            ),
            criteria: jcqa_criteria(row, 5),
        },
        Task::Jsts => QuestionView::Score {
            instructions: Some(str_value(JSTS_INSTR@)),
            criteria: jsts_levels(),
        },
    }
}

/// The state of a record.
pub open spec fn task_state(task: Task, row: JsonView) -> JsonView {
    match task {
        Task::Jnli => JsonView::Object(
            seq![
                ("前提"@, str_value(text_of(row, "sentence1"@))),
                ("仮説"@, str_value(text_of(row, "sentence2"@))),
            ],
        ),
        Task::Jcqa => JsonView::Object(seq![("質問"@, str_value(text_of(row, "question"@)))]),
        Task::Jsts => JsonView::Object(
            seq![
                ("文1"@, str_value(text_of(row, "sentence1"@))),
                ("文2"@, str_value(text_of(row, "sentence2"@))),
            ],
        ),
    }
}

/// The id of a record.
pub open spec fn task_id(task: Task, row: JsonView) -> Seq<char> {
    match task {
        Task::Jcqa => compact_json(at(row, "q_id"@)),
        _ => text_of(row, "sentence_pair_id"@),
    }
}

/// The gold option of a record.
pub open spec fn task_gold(task: Task, row: JsonView) -> usize {
    let label = at(row, "label"@);
    match task {
        Task::Jnli => label_index(text_of(row, "label"@)),
        Task::Jcqa => as_unsigned(label)->0 as usize,
        Task::Jsts => if nearest(as_double(label)->0) > 5 {
            5
        } else {
            nearest(as_double(label)->0)
        },
    }
}

fn need_text(row: &Json, key: &str) -> (r: Result<String, LoadError>)
    ensures
        match r {
            Ok(s) => text_in(row@, key@) == Some(s@),
            Err(e) => text_in(row@, key@) is None && e@ == "missing "@ + key@,
        },
{
    match row.text_at(key) {
        Some(s) => Ok(s.clone()),
        None => Err(LoadError::new(concat2("missing ", key))),
    }
}

fn str_json(s: &str) -> (r: Json)
    ensures
        r@ == str_value(s@),
{
    Json::Str(s.to_owned())
}

fn object1(k: &str, v: Json) -> (r: Json)
    ensures
        r@ == JsonView::Object(seq![(k@, v@)]),
{
    let mut m: Vec<(String, Json)> = Vec::new();
    m.push((k.to_owned(), v));
    let r = Json::Object(m);
    assert(r@->Object_0 =~= seq![(k@, v@)]);
    r
}

fn object2(k: &str, v: Json, l: &str, w: Json) -> (r: Json)
    ensures
        r@ == JsonView::Object(seq![(k@, v@), (l@, w@)]),
{
    let mut m: Vec<(String, Json)> = Vec::new();
    m.push((k.to_owned(), v));
    m.push((l.to_owned(), w));
    let r = Json::Object(m);
    assert(r@->Object_0 =~= seq![(k@, v@), (l@, w@)]);
    r
}

fn request_of(state: Json, q: Question) -> (r: Request)
    ensures
        r.model@ == "grande-latest"@,
        r.state@ == state@,
        questions_of(r.questions) == seq![("answer"@, q@)],
{
    let mut questions = no_questions();
    let ghost qv = q@;
    add_question(&mut questions, "answer".to_owned(), q);
    assert(questions_of(questions) =~= seq![("answer"@, qv)]);
    Request { model: "grande-latest".to_owned(), state, questions }
}

/// The item a record makes.
pub open spec fn made_of(i: Item, task: Task, row: JsonView) -> bool {
    &&& i.id@ == task_id(task, row)
    &&& i.gold == task_gold(task, row)
    &&& i.request.model@ == "grande-latest"@
    &&& i.request.state@ == task_state(task, row)
    &&& questions_of(i.request.questions) == seq![("answer"@, task_question(task, row))]
}

fn item_jsts(row: &Json) -> (r: Result<Item, LoadError>)
    ensures
        match r {
            Ok(i) => item_fault(Task::Jsts, row@) is None && made_of(i, Task::Jsts, row@),
            Err(e) => item_fault(Task::Jsts, row@) == Some(e@),
        },
{
    let bits: Option<u64> = match row.get("label") {
        Some(v) => double_of(v),
        None => None,
    };
    let bits: u64 = match bits {
        Some(b) => b,
        None => {
            return Err(LoadError::of("label"));
        },
    };
    let near: usize = nearest_of(bits);
    let gold: usize = if near > 5 {
        5
    } else {
        near
    };
    proof {
        reveal_with_fuel(texts_missing, 4);
        three_keys("sentence_pair_id"@, "sentence1"@, "sentence2"@);
    }
    let id = match need_text(row, "sentence_pair_id") {
        Ok(s) => s,
        Err(e) => {
            return Err(e);
        },
    };
    let a = match need_text(row, "sentence1") {
        Ok(s) => s,
        Err(e) => {
            return Err(e);
        },
    };
    let b = match need_text(row, "sentence2") {
        Ok(s) => s,
        Err(e) => {
            return Err(e);
        },
    };
    let mut levels: Vec<Json> = Vec::new();
    levels.push(str_json("0: 全く関係がない"));
    levels.push(str_json("1: ほとんど関係がない"));
    levels.push(str_json("2: 一部の話題が共通する"));
    levels.push(str_json("3: おおよそ同じ内容"));
    levels.push(str_json("4: 細部を除いて同じ"));
    levels.push(str_json("5: 完全に同じ意味"));
    assert(levels@.map_values(|j: Json| j@) =~= jsts_levels());
    let q = Question::Score { instructions: Some(str_json(JSTS_INSTR)), criteria: levels };
    assert(q@ == task_question(Task::Jsts, row@));
    let state = object2("文1", Json::Str(a), "文2", Json::Str(b));
    Ok(Item { id, request: request_of(state, q), gold })
}

proof fn three_keys(a: Seq<char>, b: Seq<char>, c: Seq<char>)
    ensures
        seq![a, b, c].drop_first() == seq![b, c],
        seq![b, c].drop_first() == seq![c],
        seq![c].drop_first() == Seq::<Seq<char>>::empty(),
{
    assert(seq![a, b, c].drop_first() =~= seq![b, c]);
    assert(seq![b, c].drop_first() =~= seq![c]);
    assert(seq![c].drop_first() =~= Seq::<Seq<char>>::empty());
}

fn item_jnli(row: &Json) -> (r: Result<Item, LoadError>)
    ensures
        match r {
            Ok(i) => item_fault(Task::Jnli, row@) is None && made_of(i, Task::Jnli, row@),
            Err(e) => item_fault(Task::Jnli, row@) == Some(e@),
        },
{
    let label = match row.text_at("label") {
        Some(s) => s.clone(),
        None => {
            return Err(LoadError::of("missing label"));
        },
    };
    let gold: usize = index_of_label(label.as_str());
    if gold == 3 {
        return Err(LoadError::new(concat2("label ", label.as_str())));
    }
    proof {
        reveal_with_fuel(texts_missing, 4);
        three_keys("sentence_pair_id"@, "sentence1"@, "sentence2"@);
    }
    let id = match need_text(row, "sentence_pair_id") {
        Ok(s) => s,
        Err(e) => {
            return Err(e);
        },
    };
    let a = match need_text(row, "sentence1") {
        Ok(s) => s,
        Err(e) => {
            return Err(e);
        },
    };
    let b = match need_text(row, "sentence2") {
        Ok(s) => s,
        Err(e) => {
            return Err(e);
        },
    };
    let mut criteria = no_criteria();
    proof {
        reveal_strlit("entailment");
        reveal_strlit("contradiction");
        reveal_strlit("neutral");
        assert("entailment"@.len() == 10 && "contradiction"@.len() == 13 && "neutral"@.len() == 7);
        reveal_with_fuel(find, 4);
    }
    let ghost c0 = criteria_of(criteria);
    add_criterion(
        &mut criteria,
        "entailment".to_owned(),
        Some(str_json("含意：前提から仮説が正しいと必ず言える")),
    );
    let ghost c1 = criteria_of(criteria);
    assert(c1.drop_first() =~= c0);
    add_criterion(
        &mut criteria,
        "contradiction".to_owned(),
        Some(str_json("矛盾：前提から仮説が誤りだと必ず言える")),
    );
    let ghost c2 = criteria_of(criteria);
    assert(c2.drop_first().drop_first() =~= c0);
    assert(c2.drop_first()[0] == c2[1]);
    add_criterion(
        &mut criteria,
        "neutral".to_owned(),
        Some(str_json("中立：前提だけでは仮説が正しいとも誤りとも判断できない")),
    );
    assert(criteria_of(criteria) =~= jnli_criteria());
    let q = Question::Choice {
        instructions: Some(
            str_json(
                "前提が正しいとき、仮説との論理的な関係を判定してください。前提から分からない情報を補わないでください。",
            ),
        ),
        criteria,
    };
    assert(q@ == task_question(Task::Jnli, row@));
    let state = object2("前提", Json::Str(a), "仮説", Json::Str(b));
    Ok(Item { id, request: request_of(state, q), gold })
}

proof fn digit_keys_differ(entries: Seq<(Seq<char>, Option<JsonView>)>, n: nat)
    requires
        n < 10,
        entries.len() == n,
        forall|i: int| 0 <= i < n ==> (#[trigger] entries[i]).0 == decimal(i as nat),
    ensures
        find(entries, decimal(n)) is None,
{
    not_found(entries, n, 0);
    assert(entries.skip(0) =~= entries);
}

proof fn not_found(entries: Seq<(Seq<char>, Option<JsonView>)>, n: nat, k: nat)
    requires
        n < 10,
        k <= n,
        entries.len() == n,
        forall|i: int| 0 <= i < n ==> (#[trigger] entries[i]).0 == decimal(i as nat),
    ensures
        find(entries.skip(k as int), decimal(n)) is None,
    decreases n - k,
{
    let rest = entries.skip(k as int);
    if k < n {
        not_found(entries, n, k + 1);
        assert(rest.drop_first() =~= entries.skip(k as int + 1));
        assert(rest[0] == entries[k as int]);
        assert(decimal(k)[0] == digit_char(k as int));
        assert(decimal(n)[0] == digit_char(n as int));
    }
}

proof fn texts_missing_from(row: JsonView, keys: Seq<Seq<char>>, i: int)
    requires
        0 <= i <= keys.len(),
        forall|j: int| 0 <= j < i ==> text_in(row, #[trigger] keys[j]) is Some,
    ensures
        texts_missing(row, keys) == texts_missing(row, keys.skip(i)),
    decreases i,
{
    if i > 0 {
        texts_missing_from(row, keys, i - 1);
        assert(keys.skip(i - 1)[0] == keys[i - 1]);
        assert(keys.skip(i - 1).drop_first() =~= keys.skip(i));
    } else {
        assert(keys.skip(0) =~= keys);
    }
}

fn item_jcqa(row: &Json) -> (r: Result<Item, LoadError>)
    ensures
        match r {
            Ok(i) => item_fault(Task::Jcqa, row@) is None && made_of(i, Task::Jcqa, row@),
            Err(e) => item_fault(Task::Jcqa, row@) == Some(e@),
        },
{
    let gold: usize = match row.unsigned_at("label") {
        Some(n) => n as usize,
        None => {
            return Err(LoadError::of("label"));
        },
    };
    let ghost keys = choice_keys().push("question"@);
    let mut criteria = no_criteria();
    assert(criteria_of(criteria) =~= jcqa_criteria(row@, 0));
    let mut i: usize = 0;
    while i < 5
        invariant
            0 <= i <= 5,
            keys == choice_keys().push("question"@),
            as_unsigned(at(row@, "label"@)) is Some,
            forall|j: int| 0 <= j < i ==> text_in(row@, #[trigger] keys[j]) is Some,
            criteria_of(criteria) == jcqa_criteria(row@, i as nat),
        decreases 5 - i,
    {
        let key = concat2("choice", number_text(i).as_str());
        proof {
            assert(keys[i as int] == key@);
            texts_missing_from(row@, keys, i as int);
            assert(keys.skip(i as int)[0] == key@);
        }
        let text = match need_text(row, key.as_str()) {
            Ok(s) => s,
            Err(e) => {
                return Err(e);
            },
        };
        proof {
            digit_keys_differ(criteria_of(criteria), i as nat);
        }
        let ghost before = criteria_of(criteria);
        add_criterion(&mut criteria, number_text(i), Some(Json::Str(text)));
        i += 1;
        assert(criteria_of(criteria) =~= jcqa_criteria(row@, i as nat));
    }
    proof {
        texts_missing_from(row@, keys, 5);
        assert(keys.skip(5)[0] == "question"@);
        assert(keys.skip(5).drop_first().len() == 0);
        reveal_with_fuel(texts_missing, 2);
    }
    let null = Json::Null;
    let id: String = match row.get("q_id") {
        Some(v) => compact(v),
        None => compact(&null),
    };
    let question = match need_text(row, "question") {
        Ok(s) => s,
        Err(e) => {
            return Err(e);
        },
    };
    let q = Question::Choice {
        instructions: Some(
            str_json(
                "質問に対して、常識に基づく最も適切な答えを選択肢から1つ選んでください。",
            ),
        ),
        criteria,
    };
    assert(q@ == task_question(Task::Jcqa, row@));
    let state = object1("質問", Json::Str(question));
    assert(texts_missing(row@, keys) is None);
    Ok(Item { id, request: request_of(state, q), gold })
}

/// A record as a request and its gold option.
pub fn item(task: Task, row: &Json) -> (r: Result<Item, LoadError>)
    ensures
        match r {
            Ok(i) => item_fault(task, row@) is None && made_of(i, task, row@),
            Err(e) => item_fault(task, row@) == Some(e@),
        },
{
    match task {
        Task::Jnli => item_jnli(row),
        Task::Jcqa => item_jcqa(row),
        Task::Jsts => item_jsts(row),
    }
}

/// What is wrong with a numbered line of records: it is no JSON, or the record
/// makes no item.
pub open spec fn record_fault(task: Task, line: (usize, Seq<char>)) -> Option<Seq<char>> {
    match line_value(line.1) {
        None => Some(unread_line(line.0, line.1)),
        Some(row) => match item_fault(task, row) {
            Some(m) => Some(line_name(line.0) + ": "@ + m),
            None => None,
        },
    }
}

/// What is wrong with the first faulty line.
pub open spec fn records_fault(task: Task, lines: Seq<(usize, Seq<char>)>) -> Option<Seq<char>>
    decreases lines.len(),
{
    if lines.len() == 0 {
        None
    } else {
        match record_fault(task, lines[0]) {
            Some(m) => Some(m),
            None => records_fault(task, lines.drop_first()),
        }
    }
}

/// The items of a data set's text, one record a line, blank lines left out;
/// the first faulty line fails.
pub fn items(task: Task, text: &str) -> (r: Result<Vec<Item>, LoadError>)
    ensures
        ({
            let lines = numbered(lines_of(text@), 1);
            match r {
                Ok(v) => {
                    &&& records_fault(task, lines) is None
                    &&& v@.len() == lines.len()
                    &&& forall|i: int|
                        0 <= i < v@.len() ==> made_of(
                            #[trigger] v@[i],
                            task,
                            line_value(lines[i].1)->0,
                        )
                },
                Err(e) => records_fault(task, lines) == Some(e@),
            }
        }),
{
    let lines = json_lines(text);
    let ghost lv = numbered(lines_of(text@), 1);
    let mut out: Vec<Item> = Vec::new();
    let mut i: usize = 0;
    assert(lv.skip(0) =~= lv);
    while i < lines.len()
        invariant
            0 <= i <= lines@.len(),
            lv == line_views(lines@),
            lv == numbered(lines_of(text@), 1),
            out@.len() == i,
            forall|j: int|
                0 <= j < i ==> made_of(#[trigger] out@[j], task, line_value(lv[j].1)->0),
            records_fault(task, lv) == records_fault(task, lv.skip(i as int)),
        decreases lines@.len() - i,
    {
        let (n, line) = &lines[i];
        proof {
            assert(lv[i as int] == (*n, line@));
            assert(lv.skip(i as int).drop_first() =~= lv.skip(i as int + 1));
        }
        let name = name_line(*n);
        match read_json(line.as_str().as_bytes(), name.as_str()) {
            Ok(row) => match item(task, &row) {
                Ok(it) => out.push(it),
                Err(e) => {
                    return Err(
                        LoadError::new(concat3(name.as_str(), ": ", e.message.as_str())),
                    );
                },
            },
            Err(e) => {
                return Err(e);
            },
        }
        i += 1;
    }
    Ok(out)
}

/// The fields of a state behind the first `n` of `old`, the few-shot block in
/// front of them.
pub open spec fn shot_fields(block: Seq<char>, old: Seq<(Seq<char>, JsonView)>, n: nat) -> Seq<
    (Seq<char>, JsonView),
>
    decreases n,
{
    if n == 0 {
        seq![("例"@, str_value(block))]
    } else {
        with_field(shot_fields(block, old, (n - 1) as nat), old[n - 1].0, old[n - 1].1)
    }
}

/// A state with the few-shot block in front; one that is no object is left
/// out.
pub open spec fn shot_state(block: Seq<char>, state: JsonView) -> JsonView {
    match state {
        JsonView::Object(m) => JsonView::Object(shot_fields(block, m, m.len())),
        _ => JsonView::Object(shot_fields(block, Seq::empty(), 0)),
    }
}

fn with_block(block: &str, state: &Json) -> (r: Json)
    ensures
        r@ == shot_state(block@, state@),
{
    let mut m: Vec<(String, Json)> = Vec::new();
    m.push(("例".to_owned(), str_json(block)));
    match state {
        Json::Object(old) => {
            let ghost ov = state@->Object_0;
            let mut i: usize = 0;
            assert(field_views(m@) =~= shot_fields(block@, ov, 0));
            while i < old.len()
                invariant
                    0 <= i <= old@.len(),
                    ov.len() == old@.len(),
                    *state == Json::Object(*old),
                    state@ == JsonView::Object(ov),
                    field_views(m@) == shot_fields(block@, ov, i as nat),
                decreases old@.len() - i,
            {
                let (k, v) = &old[i];
                set_field(&mut m, k.clone(), v.clone());
                i += 1;
            }
            let r = Json::Object(m);
            assert(r@->Object_0 =~= field_views(m@));
            r
        },
        _ => {
            let r = Json::Object(m);
            assert(r@->Object_0 =~= shot_fields(block@, Seq::empty(), 0));
            r
        },
    }
}

/// An item with the few-shot block in front of its state.
pub open spec fn shot_item(after: Item, before: Item, block: Seq<char>) -> bool {
    &&& after.request.state@ == shot_state(block, before.request.state@)
    &&& after.id == before.id
    &&& after.gold == before.gold
    &&& after.request.model == before.request.model
    &&& after.request.questions == before.request.questions
}

fn add_shots(item: &mut Item, block: &str)
    ensures
        shot_item(*final(item), *old(item), block@),
{
    let s = with_block(block, &item.request.state);
    item.request.state = s;
}

/// Puts the few-shot block in front of every item's state.
pub fn with_shots(items: &mut Vec<Item>, block: &str)
    ensures
        final(items)@.len() == old(items)@.len(),
        forall|i: int|
            0 <= i < old(items)@.len() ==> shot_item(
                #[trigger] final(items)@[i],
                old(items)@[i],
                block@,
            ),
{
    let ghost before = items@;
    let mut i: usize = 0;
    while i < items.len()
        invariant
            0 <= i <= items@.len(),
            before == old(items)@,
            items@.len() == before.len(),
            forall|j: int| 0 <= j < i ==> shot_item(#[trigger] items@[j], before[j], block@),
            forall|j: int| i <= j < before.len() ==> #[trigger] items@[j] == before[j],
        decreases items@.len() - i,
    {
        assert(items@[i as int] == before[i as int]);
        add_shots(&mut items[i], block);
        i += 1;
    }
}

/// A step of the generator behind the shuffle.
pub open spec fn stepped(x: u64) -> u64 {
    x.wrapping_add(0x9e37_79b9_7f4a_7c15)
}

/// What the generator gives in state `x`.
pub open spec fn drawn(x: u64) -> u64 {
    let a = (x ^ (x >> 30)).wrapping_mul(0xbf58_476d_1ce4_e5b9);
    let b = (a ^ (a >> 27)).wrapping_mul(0x94d0_49bb_1331_11eb);
    b ^ (b >> 31)
}

/// The order after the places `i` down to 1 were each swapped with one drawn
/// from below, starting from state `x`.
pub open spec fn shuffled(idx: Seq<usize>, x: u64, i: nat) -> Seq<usize>
    decreases i,
{
    if i == 0 {
        idx
    } else {
        let y = stepped(x);
        let j = drawn(y) as int % (i as int + 1);
        shuffled(idx.update(i as int, idx[j]).update(j, idx[i as int]), y, (i - 1) as nat)
    }
}

/// `n` rows in an order that depends on the seed alone.
pub open spec fn shuffled_rows(n: nat, seed: u64) -> Seq<usize> {
    let rows = Seq::new(n, |i: int| i as usize);
    if n == 0 {
        rows
    } else {
        shuffled(rows, stepped(seed), (n - 1) as nat)
    }
}

fn draw(x: u64) -> (r: u64)
    ensures
        r == drawn(x),
{
    let a: u64 = (x ^ (x >> 30)).wrapping_mul(0xbf58_476d_1ce4_e5b9);
    let b: u64 = (a ^ (a >> 27)).wrapping_mul(0x94d0_49bb_1331_11eb);
    b ^ (b >> 31)
}

fn shuffle_rows(n: usize, seed: u64) -> (r: Vec<usize>)
    ensures
        r@ == shuffled_rows(n as nat, seed),
        r@.len() == n,
{
    let mut idx: Vec<usize> = Vec::new();
    let mut k: usize = 0;
    while k < n
        invariant
            0 <= k <= n,
            idx@ == Seq::new(k as nat, |i: int| i as usize),
        decreases n - k,
    {
        idx.push(k);
        k += 1;
        assert(idx@ =~= Seq::new(k as nat, |i: int| i as usize));
    }
    if n == 0 {
        return idx;
    }
    let mut x: u64 = seed.wrapping_add(0x9e37_79b9_7f4a_7c15);
    let mut i: usize = n - 1;
    while i > 0
        invariant
            0 <= i < n,
            idx@.len() == n,
            shuffled(idx@, x, i as nat) == shuffled_rows(n as nat, seed),
        decreases i,
    {
        let ghost before = idx@;
        x = x.wrapping_add(0x9e37_79b9_7f4a_7c15);
        let z: u64 = draw(x);
        let j: usize = (z % (i as u64 + 1)) as usize;
        let a: usize = idx[i];
        let b: usize = idx[j];
        idx.set(i, b);
        idx.set(j, a);
        assert(idx@ =~= before.update(i as int, before[j as int]).update(
            j as int,
            before[i as int],
        ));
        i -= 1;
    }
    idx
}

/// How many classes a task has.
pub open spec fn class_count(task: Task) -> nat {
    match task {
        Task::Jnli => 3,
        Task::Jcqa => 5,
        Task::Jsts => 6,
    }
}

/// The class of a record; one without a label counts as the first.
pub open spec fn class_of(task: Task, row: JsonView) -> usize {
    let label = at(row, "label"@);
    match task {
        Task::Jnli => match text_in(row, "label"@) {
            Some(l) => if label_index(l) == 3 {
                0
            } else {
                label_index(l)
            },
            None => 0,
        },
        Task::Jcqa => match as_unsigned(label) {
            Some(n) => n as usize,
            None => 0,
        },
        Task::Jsts => if has_field(row, "label"@) && as_double(label) is Some {
            nearest(as_double(label)->0)
        } else {
            0
        },
    }
}

fn class_in(task: Task, row: &Json) -> (r: usize)
    ensures
        r == class_of(task, row@),
{
    match task {
        Task::Jnli => match row.text_at("label") {
            Some(s) => {
                let i: usize = index_of_label(s.as_str());
                if i == 3 {
                    0
                } else {
                    i
                }
            },
            None => 0,
        },
        Task::Jcqa => match row.unsigned_at("label") {
            Some(n) => n as usize,
            None => 0,
        },
        Task::Jsts => match row.get("label") {
            Some(v) => match double_of(v) {
                Some(b) => nearest_of(b),
                None => 0,
            },
            None => 0,
        },
    }
}

/// The first of the first `n` rows of an order that has the class and was not
/// picked yet.
pub open spec fn next_pick(
    classes: Seq<usize>,
    idx: Seq<usize>,
    picked: Seq<usize>,
    class: nat,
    n: nat,
) -> Option<usize>
    decreases n,
{
    if n == 0 {
        None
    } else {
        match next_pick(classes, idx, picked, class, (n - 1) as nat) {
            Some(i) => Some(i),
            None => if classes[idx[n - 1] as int] == class && !picked.contains(idx[n - 1]) {
                Some(idx[n - 1])
            } else {
                None
            },
        }
    }
}

/// The rows picked when `picked` were and class `want` is next: classes in
/// turn, an exhausted one skipped, until there are `n` or every class was
/// asked for often enough.
pub open spec fn picks(
    classes: Seq<usize>,
    idx: Seq<usize>,
    k: nat,
    n: nat,
    picked: Seq<usize>,
    want: nat,
) -> Seq<usize>
    decreases n - picked.len(), n * k + 1 - want,
{
    if k == 0 || picked.len() >= n {
        picked
    } else {
        let found = next_pick(classes, idx, picked, want % k, idx.len());
        if found is Some {
            picks(classes, idx, k, n, picked.push(found->0), want + 1)
        } else if want + 1 > n * k {
            picked
        } else {
            picks(classes, idx, k, n, picked, want + 1)
        }
    }
}

/// The rows shown as examples.
pub open spec fn picked_rows(task: Task, rows: Seq<JsonView>, n: nat, seed: u64) -> Seq<usize> {
    picks(
        rows.map_values(|r: JsonView| class_of(task, r)),
        shuffled_rows(rows.len(), seed),
        class_count(task),
        n,
        Seq::empty(),
        0,
    )
}

fn was_picked(picked: &Vec<usize>, i: usize) -> (r: bool)
    ensures
        r == picked@.contains(i),
{
    let mut k: usize = 0;
    while k < picked.len()
        invariant
            0 <= k <= picked@.len(),
            forall|j: int| 0 <= j < k ==> (#[trigger] picked@[j]) != i,
        decreases picked@.len() - k,
    {
        if picked[k] == i {
            assert(picked@[k as int] == i);
            return true;
        }
        k += 1;
    }
    false
}

proof fn next_pick_stays(
    classes: Seq<usize>,
    idx: Seq<usize>,
    picked: Seq<usize>,
    class: nat,
    i: nat,
    n: nat,
)
    requires
        i <= n,
        next_pick(classes, idx, picked, class, i) is Some,
    ensures
        next_pick(classes, idx, picked, class, n) == next_pick(classes, idx, picked, class, i),
    decreases n - i,
{
    if i < n {
        next_pick_stays(classes, idx, picked, class, i + 1, n);
    }
}

/// Every index of an order is one of a row.
spec fn order_fits(idx: Seq<usize>, n: nat) -> bool {
    forall|i: int| 0 <= i < idx.len() ==> (#[trigger] idx[i]) < n
}

fn pick_next(classes: &Vec<usize>, idx: &Vec<usize>, picked: &Vec<usize>, class: usize) -> (r:
    Option<usize>)
    requires
        order_fits(idx@, classes@.len()),
    ensures
        r == next_pick(classes@, idx@, picked@, class as nat, idx@.len()),
{
    let mut k: usize = 0;
    while k < idx.len()
        invariant
            0 <= k <= idx@.len(),
            order_fits(idx@, classes@.len()),
            next_pick(classes@, idx@, picked@, class as nat, k as nat) is None,
        decreases idx@.len() - k,
    {
        let i: usize = idx[k];
        if classes[i] == class && !was_picked(picked, i) {
            proof {
                next_pick_stays(
                    classes@,
                    idx@,
                    picked@,
                    class as nat,
                    (k + 1) as nat,
                    idx@.len(),
                );
            }
            return Some(i);
        }
        k += 1;
    }
    None
}

proof fn shuffle_fits(idx: Seq<usize>, x: u64, i: nat, n: nat)
    requires
        order_fits(idx, n),
        i < idx.len() || (i == 0 && idx.len() == 0),
    ensures
        order_fits(shuffled(idx, x, i), n),
        shuffled(idx, x, i).len() == idx.len(),
    decreases i,
{
    if i > 0 {
        let y = stepped(x);
        let j = drawn(y) as int % (i as int + 1);
        let next = idx.update(i as int, idx[j]).update(j, idx[i as int]);
        assert(0 <= j <= i);
        assert(order_fits(next, n));
        shuffle_fits(next, y, (i - 1) as nat, n);
    }
}

proof fn rows_fit(n: nat, seed: u64)
    requires
        n <= usize::MAX,
    ensures
        order_fits(shuffled_rows(n, seed), n),
        shuffled_rows(n, seed).len() == n,
{
    let rows = Seq::new(n, |i: int| i as usize);
    assert(order_fits(rows, n));
    if n > 0 {
        shuffle_fits(rows, stepped(seed), (n - 1) as nat, n);
    }
}

/// The rows shown as examples, by index.
pub fn pick_rows(task: Task, rows: &Vec<Json>, n: usize, seed: u64) -> (r: Vec<usize>)
    requires
        n * 7 <= usize::MAX,
    ensures
        r@ == picked_rows(task, views(rows@), n as nat, seed),
        forall|i: int|
            0 <= i < r@.len() ==> (#[trigger] r@[i]) < rows@.len() && class_of(
                task,
                rows@[r@[i] as int]@,
            ) < class_count(task),
{
    let ghost rv = views(rows@);
    let mut classes: Vec<usize> = Vec::new();
    let mut i: usize = 0;
    while i < rows.len()
        invariant
            0 <= i <= rows@.len(),
            rv == views(rows@),
            classes@.len() == i,
            forall|j: int| 0 <= j < i ==> #[trigger] classes@[j] == class_of(task, rv[j]),
        decreases rows@.len() - i,
    {
        classes.push(class_in(task, &rows[i]));
        i += 1;
    }
    assert(classes@ =~= rv.map_values(|r: JsonView| class_of(task, r)));
    let idx = shuffle_rows(rows.len(), seed);
    proof {
        let len: usize = i;
        rows_fit(rows@.len(), seed);
    }
    let k: usize = match task {
        Task::Jnli => 3,
        Task::Jcqa => 5,
        Task::Jsts => 6,
    };
    let mut picked: Vec<usize> = Vec::new();
    let mut want: usize = 0;
    let mut done: bool = false;
    assert(picked@ =~= Seq::<usize>::empty());
    assert(n * k <= n * 6) by (nonlinear_arith)
        requires
            k <= 6,
    ;
    while !done && picked.len() < n
        invariant
            3 <= k <= 6,
            k == class_count(task),
            n * k <= n * 6,
            n * 7 <= usize::MAX,
            picked@.len() <= n,
            want <= n * k + picked@.len(),
            classes@.len() == rows@.len(),
            order_fits(idx@, classes@.len()),
            forall|i: int|
                0 <= i < picked@.len() ==> (#[trigger] picked@[i]) < rows@.len()
                    && classes@[picked@[i] as int] < k,
            (if done {
                picked@
            } else {
                picks(classes@, idx@, k as nat, n as nat, picked@, want as nat)
            }) == picks(classes@, idx@, k as nat, n as nat, Seq::empty(), 0),
        decreases
                (if done {
                    0int
                } else {
                    1 + (n - picked@.len())
                }),
                (n * k + 1 - want),
    {
        let ghost before = picked@;
        match pick_next(&classes, &idx, &picked, want % k) {
            Some(i) => {
                proof {
                    picked_is_row(classes@, idx@, picked@, (want % k) as nat, idx@.len());
                }
                picked.push(i);
                proof {
                    want_bound(n as nat, k as nat, before.len());
                }
                want += 1;
            },
            None => {
                if want >= n * k {
                    done = true;
                } else {
                    want += 1;
                }
            },
        }
    }
    proof {
        assert forall|i: int| 0 <= i < picked@.len() implies (#[trigger] picked@[i]) < rows@.len()
            && class_of(task, rows@[picked@[i] as int]@) < class_count(task) by {
            assert(classes@[picked@[i] as int] < k);
            assert(rv[picked@[i] as int] == rows@[picked@[i] as int]@);
        }
    }
    picked
}

proof fn want_bound(n: nat, k: nat, p: nat)
    requires
        p < n,
        k >= 3,
        n * 7 <= usize::MAX,
        k <= 6,
    ensures
        n * k + p + 1 <= usize::MAX,
{
    assert(n * k + n <= n * 6 + n) by (nonlinear_arith)
        requires
            k <= 6,
    ;
}

proof fn picked_is_row(classes: Seq<usize>, idx: Seq<usize>, picked: Seq<usize>, class: nat, n: nat)
    requires
        n <= idx.len(),
        order_fits(idx, classes.len()),
        next_pick(classes, idx, picked, class, n) is Some,
    ensures
        next_pick(classes, idx, picked, class, n)->0 < classes.len(),
        !picked.contains(next_pick(classes, idx, picked, class, n)->0),
        classes[next_pick(classes, idx, picked, class, n)->0 as int] == class,
    decreases n,
{
    if next_pick(classes, idx, picked, class, (n - 1) as nat) is Some {
        picked_is_row(classes, idx, picked, class, (n - 1) as nat);
    }
}

/// The text under a key, nothing where there is none.
pub open spec fn text_or_empty(row: JsonView, key: Seq<char>) -> Seq<char> {
    match text_in(row, key) {
        Some(s) => s,
        None => Seq::empty(),
    }
}

/// The name of an inference label.
pub open spec fn label_name(label: Seq<char>) -> Seq<char> {
    if label == "entailment"@ {
        "含意"@
    } else if label == "contradiction"@ {
        "矛盾"@
    } else {
        "中立"@
    }
}

/// The choices of a row.
pub open spec fn choice_texts(row: JsonView) -> Seq<Seq<char>> {
    Seq::new(5, |i: int| text_or_empty(row, "choice"@ + decimal(i as nat)))
}

/// A record as an example.
pub open spec fn example(task: Task, row: JsonView) -> Seq<char> {
    match task {
        Task::Jnli => {
            let label = text_or_empty(row, "label"@);
            "前提: "@ + text_or_empty(row, "sentence1"@) + "\n仮説: "@ + text_or_empty(
                row,
                "sentence2"@,
            ) + "\n判定: "@ + label + "（"@ + label_name(label) + "）"@
        },
        Task::Jcqa => "質問: "@ + text_or_empty(row, "question"@) + "\n選択肢: "@ + join(
            choice_texts(row),
            " / "@,
        ) + "\n答え: "@ + choice_texts(row)[class_of(task, row) as int],
        Task::Jsts => "文1: "@ + text_or_empty(row, "sentence1"@) + "\n文2: "@ + text_or_empty(
            row,
            "sentence2"@,
        ) + "\n類似度: "@ + decimal(class_of(task, row) as nat),
    }
}

fn text_or_nothing(row: &Json, key: &str) -> (r: String)
    ensures
        r@ == text_or_empty(row@, key@),
{
    match row.text_at(key) {
        Some(s) => s.clone(),
        None => String::new(),
    }
}

fn example_of(task: Task, row: &Json) -> (r: String)
    requires
        class_of(task, row@) < class_count(task),
    ensures
        r@ == example(task, row@),
{
    match task {
        Task::Jnli => {
            let label = text_or_nothing(row, "label");
            let ja: &str = if same(label.as_str(), "entailment") {
                "含意"
            } else if same(label.as_str(), "contradiction") {
                "矛盾"
            } else {
                "中立"
            };
            let mut s: String = "前提: ".to_owned();
            s.append(text_or_nothing(row, "sentence1").as_str());
            s.append("\n仮説: ");
            s.append(text_or_nothing(row, "sentence2").as_str());
            s.append("\n判定: ");
            s.append(label.as_str());
            s.append("（");
            s.append(ja);
            s.append("）");
            s
        },
        Task::Jcqa => {
            let mut choices: Vec<String> = Vec::new();
            let mut i: usize = 0;
            while i < 5
                invariant
                    0 <= i <= 5,
                    choices@.len() == i,
                    forall|j: int|
                        0 <= j < i ==> (#[trigger] choices@[j])@ == text_or_empty(
                            row@,
                            "choice"@ + decimal(j as nat),
                        ),
                decreases 5 - i,
            {
                choices.push(
                    text_or_nothing(row, concat2("choice", number_text(i).as_str()).as_str()),
                );
                i += 1;
            }
            assert(texts(choices@) =~= choice_texts(row@));
            let gold: usize = class_in(task, row);
            assert(texts(choices@)[gold as int] == choices@[gold as int]@);
            let mut s: String = "質問: ".to_owned();
            s.append(text_or_nothing(row, "question").as_str());
            s.append("\n選択肢: ");
            s.append(join_texts(&choices, " / ").as_str());
            s.append("\n答え: ");
            s.append(choices[gold].as_str());
            s
        },
        Task::Jsts => {
            let mut s: String = "文1: ".to_owned();
            s.append(text_or_nothing(row, "sentence1").as_str());
            s.append("\n文2: ");
            s.append(text_or_nothing(row, "sentence2").as_str());
            s.append("\n類似度: ");
            push_decimal(&mut s, class_in(task, row) as u64);
            s
        },
    }
}

/// Few-shot examples of a task as one text: `n` records, classes in turn, in
/// an order that depends on the seed alone.
pub fn shots(task: Task, rows: &Vec<Json>, n: usize, seed: u64) -> (r: String)
    requires
        n * 7 <= usize::MAX,
    ensures
        r@ == join(
            picked_rows(task, views(rows@), n as nat, seed).map_values(
                |i: usize| example(task, views(rows@)[i as int]),
            ),
            "\n\n"@,
        ),
{
    let picked = pick_rows(task, rows, n, seed);
    let ghost rv = views(rows@);
    let mut blocks: Vec<String> = Vec::new();
    let mut i: usize = 0;
    while i < picked.len()
        invariant
            0 <= i <= picked@.len(),
            rv == views(rows@),
            forall|j: int|
                0 <= j < picked@.len() ==> (#[trigger] picked@[j]) < rows@.len() && class_of(
                    task,
                    rows@[picked@[j] as int]@,
                ) < class_count(task),
            blocks@.len() == i,
            forall|j: int|
                0 <= j < i ==> (#[trigger] blocks@[j])@ == example(task, rv[picked@[j] as int]),
        decreases picked@.len() - i,
    {
        let k: usize = picked[i];
        blocks.push(example_of(task, &rows[k]));
        i += 1;
    }
    assert(texts(blocks@) =~= picked@.map_values(|i: usize| example(task, rv[i as int])));
    join_texts(&blocks, "\n\n")
}

proof fn picks_hold(
    classes: Seq<usize>,
    idx: Seq<usize>,
    k: nat,
    n: nat,
    picked: Seq<usize>,
    want: nat,
)
    requires
        k > 0,
        order_fits(idx, classes.len()),
        picked.len() <= n,
        picked.no_duplicates(),
    ensures
        picks(classes, idx, k, n, picked, want).len() <= n,
        picks(classes, idx, k, n, picked, want).no_duplicates(),
    decreases n - picked.len(), n * k + 1 - want,
{
    if picked.len() < n {
        let found = next_pick(classes, idx, picked, want % k, idx.len());
        if found is Some {
            picked_is_row(classes, idx, picked, want % k, idx.len());
            let more = picked.push(found->0);
            assert forall|a: int, b: int| 0 <= a < more.len() && 0 <= b < more.len() && a
                != b implies more[a] != more[b] by {
                if a < picked.len() && b < picked.len() {
                    assert(picked[a] != picked[b]);
                }
            }
            picks_hold(classes, idx, k, n, more, want + 1);
        } else if want + 1 <= n * k {
            picks_hold(classes, idx, k, n, picked, want + 1);
        }
    }
}

/// No record is shown twice, and no more than were asked for.
pub proof fn examples_are_distinct(task: Task, rows: Seq<JsonView>, n: nat, seed: u64)
    requires
        rows.len() <= usize::MAX,
    ensures
        picked_rows(task, rows, n, seed).len() <= n,
        picked_rows(task, rows, n, seed).no_duplicates(),
{
    rows_fit(rows.len(), seed);
    let classes = rows.map_values(|r: JsonView| class_of(task, r));
    picks_hold(
        classes,
        shuffled_rows(rows.len(), seed),
        class_count(task),
        n,
        Seq::empty(),
        0,
    );
}

proof fn swaps_keep(idx: Seq<usize>, x: u64, i: nat)
    requires
        i < idx.len(),
        idx.no_duplicates(),
    ensures
        shuffled(idx, x, i).no_duplicates(),
    decreases i,
{
    if i > 0 {
        let y = stepped(x);
        let j = drawn(y) as int % (i as int + 1);
        let next = idx.update(i as int, idx[j]).update(j, idx[i as int]);
        assert(0 <= j <= i);
        assert(next.no_duplicates());
        swaps_keep(next, y, (i - 1) as nat);
    }
}

/// The shuffle loses no record: it lists `n` records, each of them one of the
/// `n`, none of them twice.
pub proof fn the_shuffle_loses_nothing(n: nat, seed: u64, i: int)
    requires
        0 <= i < n <= usize::MAX,
    ensures
        shuffled_rows(n, seed).len() == n,
        shuffled_rows(n, seed)[i] < n,
        shuffled_rows(n, seed).no_duplicates(),
{
    rows_fit(n, seed);
    let rows = Seq::new(n, |i: int| i as usize);
    assert(rows.no_duplicates());
    swaps_keep(rows, stepped(seed), (n - 1) as nat);
}

/// The records of a class, by index.
pub open spec fn rows_of_class(task: Task, rows: Seq<JsonView>, class: nat) -> Set<int> {
    Set::new(|r: int| 0 <= r < rows.len() && class_of(task, rows[r]) == class)
}

/// What was picked at the first `m` turns of a class.
spec fn picked_in_turn(picked: Seq<usize>, k: nat, class: nat, m: nat) -> Set<int>
    decreases m,
{
    if m == 0 {
        Set::empty()
    } else {
        let s = picked_in_turn(picked, k, class, (m - 1) as nat);
        if (m - 1) % (k as int) == class {
            s.insert(picked[m - 1] as int)
        } else {
            s
        }
    }
}

proof fn turns_are_shared(picked: Seq<usize>, k: nat, class: nat, m: nat)
    requires
        k == 3 || k == 5 || k == 6,
        class < k,
        m <= picked.len(),
    ensures
        picked_in_turn(picked, k, class, m).finite(),
        k * picked_in_turn(picked, k, class, m).len() <= m + k - 1 - class,
        forall|j: int|
            0 <= j < m && j % (k as int) == class ==> picked_in_turn(picked, k, class, m).contains(
                (#[trigger] picked[j]) as int,
            ),
    decreases m,
{
    if m > 0 {
        turns_are_shared(picked, k, class, (m - 1) as nat);
        let s = picked_in_turn(picked, k, class, (m - 1) as nat);
        if k == 3 {
            assert((m - 1) % 3 == class ==> 3 * s.len() + 3 <= m + 2 - class);
        } else if k == 5 {
            assert((m - 1) % 5 == class ==> 5 * s.len() + 5 <= m + 4 - class);
        } else {
            assert((m - 1) % 6 == class ==> 6 * s.len() + 6 <= m + 5 - class);
        }
    }
}

proof fn next_pick_finds(
    classes: Seq<usize>,
    idx: Seq<usize>,
    picked: Seq<usize>,
    class: nat,
    n: nat,
    x: int,
)
    requires
        0 <= x < n <= idx.len(),
        classes[idx[x] as int] == class,
        !picked.contains(idx[x]),
    ensures
        next_pick(classes, idx, picked, class, n) is Some,
    decreases n,
{
    if x < n - 1 {
        next_pick_finds(classes, idx, picked, class, (n - 1) as nat, x);
    }
}

proof fn turns_go_round(
    task: Task,
    rows: Seq<JsonView>,
    idx: Seq<usize>,
    n: nat,
    picked: Seq<usize>,
)
    requires
        rows.len() <= usize::MAX,
        idx.len() == rows.len(),
        order_fits(idx, rows.len()),
        idx.no_duplicates(),
        forall|c: nat|
            c < class_count(task) ==> n <= class_count(task) * (#[trigger] rows_of_class(
                task,
                rows,
                c,
            )).len(),
        picked.len() <= n,
        forall|j: int|
            0 <= j < picked.len() ==> (#[trigger] picked[j]) < rows.len() && class_of(
                task,
                rows[picked[j] as int],
            ) == j % (class_count(task) as int),
    ensures
        ({
            let classes = rows.map_values(|r: JsonView| class_of(task, r));
            let k = class_count(task);
            let all = picks(classes, idx, k, n, picked, picked.len());
            &&& all.len() == n
            &&& forall|j: int|
                0 <= j < n ==> (#[trigger] all[j]) < rows.len() && class_of(
                    task,
                    rows[all[j] as int],
                ) == j % (k as int)
        }),
    decreases n - picked.len(),
{
    let classes = rows.map_values(|r: JsonView| class_of(task, r));
    let k = class_count(task);
    let i = picked.len();
    if i < n {
        let c = (i % k) as nat;
        let of_class = rows_of_class(task, rows, c);
        let taken = picked_in_turn(picked, k, c, i);
        turns_are_shared(picked, k, c, i);
        assert(n <= k * of_class.len());
        if k == 3 {
            assert(taken.len() < of_class.len());
        } else if k == 5 {
            assert(taken.len() < of_class.len());
        } else {
            assert(taken.len() < of_class.len());
        }
        if forall|r: int| #[trigger] of_class.contains(r) ==> taken.contains(r) {
            vstd::set_lib::lemma_len_subset(of_class, taken);
        }
        let r = choose|r: int| #[trigger] of_class.contains(r) && !taken.contains(r);
        crate::answer::full_orders_ask_everything(idx, rows.len(), r);
        let x = choose|x: int| 0 <= x < rows.len() && #[trigger] idx[x] == r;
        if picked.contains(idx[x]) {
            let j = choose|j: int| 0 <= j < picked.len() && picked[j] == idx[x];
            assert(class_of(task, rows[picked[j] as int]) == j % (k as int));
            assert(taken.contains(picked[j] as int));
        }
        next_pick_finds(classes, idx, picked, c, idx.len(), x);
        picked_is_row(classes, idx, picked, c, idx.len());
        let found = next_pick(classes, idx, picked, c, idx.len())->0;
        let more = picked.push(found);
        assert forall|j: int| 0 <= j < more.len() implies (#[trigger] more[j]) < rows.len()
            && class_of(task, rows[more[j] as int]) == j % (k as int) by {
            if j < i {
                assert(more[j] == picked[j]);
            }
        }
        turns_go_round(task, rows, idx, n, more);
    }
}

/// The labels of the examples are balanced: where every class has its share of
/// records, there are as many examples as were asked for, and the `i`-th is of
/// class `i` modulo the number of classes.
pub proof fn examples_take_the_classes_in_turn(
    task: Task,
    rows: Seq<JsonView>,
    n: nat,
    seed: u64,
)
    requires
        rows.len() <= usize::MAX,
        forall|c: nat|
            c < class_count(task) ==> n <= class_count(task) * (#[trigger] rows_of_class(
                task,
                rows,
                c,
            )).len(),
    ensures
        picked_rows(task, rows, n, seed).len() == n,
        forall|i: int|
            0 <= i < n ==> (#[trigger] picked_rows(task, rows, n, seed)[i]) < rows.len()
                && class_of(task, rows[picked_rows(task, rows, n, seed)[i] as int]) == i % (
            class_count(task) as int),
{
    rows_fit(rows.len(), seed);
    if rows.len() > 0 {
        the_shuffle_loses_nothing(rows.len(), seed, 0);
    }
    turns_go_round(task, rows, shuffled_rows(rows.len(), seed), n, Seq::empty());
}

proof fn no_text_is_missing(row: JsonView, keys: Seq<Seq<char>>, i: int)
    requires
        texts_missing(row, keys) is None,
        0 <= i < keys.len(),
    ensures
        text_in(row, keys[i]) is Some,
    decreases keys.len(),
{
    if i > 0 {
        no_text_is_missing(row, keys.drop_first(), i - 1);
        assert(keys.drop_first()[i - 1] == keys[i]);
    }
}

proof fn sentences_are_there(task: Task, row: JsonView)
    requires
        item_fault(task, row) is None,
        task != Task::Jcqa,
    ensures
        at(row, "sentence_pair_id"@) is Str,
        at(row, "sentence1"@) is Str,
        at(row, "sentence2"@) is Str,
{
    let keys = seq!["sentence_pair_id"@, "sentence1"@, "sentence2"@];
    no_text_is_missing(row, keys, 0);
    no_text_is_missing(row, keys, 1);
    no_text_is_missing(row, keys, 2);
    assert(keys[0] == "sentence_pair_id"@ && keys[1] == "sentence1"@ && keys[2] == "sentence2"@);
}

/// The state of a record holds what is judged: for an inference the first
/// sentence as the premise and the second as the hypothesis, for a similarity
/// the two sentences in their order, for a quiz its question; and nothing else.
pub proof fn records_become_states(task: Task, row: JsonView)
    requires
        item_fault(task, row) is None,
    ensures
        task_state(task, row) is Object,
        match task {
            Task::Jnli => {
                &&& task_state(task, row)->Object_0.len() == 2
                &&& at(task_state(task, row), "前提"@) == at(row, "sentence1"@)
                &&& at(task_state(task, row), "仮説"@) == at(row, "sentence2"@)
            },
            Task::Jcqa => {
                &&& task_state(task, row)->Object_0.len() == 1
                &&& at(task_state(task, row), "質問"@) == at(row, "question"@)
            },
            Task::Jsts => {
                &&& task_state(task, row)->Object_0.len() == 2
                &&& at(task_state(task, row), "文1"@) == at(row, "sentence1"@)
                &&& at(task_state(task, row), "文2"@) == at(row, "sentence2"@)
            },
        },
{
    reveal_with_fuel(find, 3);
    reveal_strlit("前提");
    reveal_strlit("仮説");
    reveal_strlit("文1");
    reveal_strlit("文2");
    assert("前提"@[0] != "仮説"@[0]);
    assert("文1"@[1] != "文2"@[1]);
    match task {
        Task::Jcqa => {
            let keys = choice_keys().push("question"@);
            no_text_is_missing(row, keys, 5);
            assert(keys[5] == "question"@);
        },
        _ => {
            sentences_are_there(task, row);
        },
    }
    let fields = task_state(task, row)->Object_0;
    assert(fields.drop_first()[0] == fields[1] || task == Task::Jcqa);
}

/// The gold option of a record is the one its label names: the option keyed by
/// the label of an inference, the choice at the label's place of a quiz. A
/// record is known by its own id.
pub proof fn the_gold_option_is_the_label(task: Task, row: JsonView)
    requires
        item_fault(task, row) is None,
        task != Task::Jsts,
    ensures
        match task {
            Task::Jnli => {
                let opts = option_texts(task_question(task, row));
                &&& opts.len() == 3
                &&& task_gold(task, row) < opts.len()
                &&& at(row, "label"@) == JsonView::Str(opts[task_gold(task, row) as int].0)
                &&& at(row, "sentence_pair_id"@) == JsonView::Str(task_id(task, row))
            },
            Task::Jcqa => {
                let opts = option_texts(task_question(task, row));
                let n = at(row, "label"@)->Uint_0;
                &&& opts.len() == 5
                &&& at(row, "label"@) is Uint
                &&& n < 5 ==> {
                    &&& task_gold(task, row) == n
                    &&& opts[n as int].0 == decimal(n as nat)
                    &&& opts[n as int].1 is Some
                    &&& at(row, "choice"@ + decimal(n as nat)) == JsonView::Str(
                        opts[n as int].1->0,
                    )
                }
                &&& task_id(task, row) == compact_json(at(row, "q_id"@))
            },
            Task::Jsts => true,
        },
{
    match task {
        Task::Jnli => {
            sentences_are_there(task, row);
        },
        Task::Jcqa => {
            let n = at(row, "label"@)->Uint_0;
            let keys = choice_keys().push("question"@);
            if n < 5 {
                no_text_is_missing(row, keys, n as int);
                assert(keys[n as int] == "choice"@ + decimal(n as nat));
            }
        },
        Task::Jsts => {},
    }
}

/// Every choice of a quiz is offered under its own number.
pub proof fn choices_are_offered_by_number(row: JsonView, i: nat)
    requires
        item_fault(Task::Jcqa, row) is None,
        i < 5,
    ensures
        option_texts(task_question(Task::Jcqa, row))[i as int].0 == decimal(i),
        option_texts(task_question(Task::Jcqa, row))[i as int].1 is Some,
        at(row, "choice"@ + decimal(i)) == JsonView::Str(
            option_texts(task_question(Task::Jcqa, row))[i as int].1->0,
        ),
{
    let keys = choice_keys().push("question"@);
    no_text_is_missing(row, keys, i as int);
    assert(keys[i as int] == "choice"@ + decimal(i));
}

/// The bit pattern of the double `k`, for the first whole numbers.
pub open spec fn whole_bits(k: int) -> u64 {
    if k == 0 {
        0
    } else if k == 1 {
        0x3ff0_0000_0000_0000
    } else if k == 2 {
        0x4000_0000_0000_0000
    } else if k == 3 {
        0x4008_0000_0000_0000
    } else if k == 4 {
        0x4010_0000_0000_0000
    } else {
        0x4014_0000_0000_0000
    }
}

/// The similarity label of a record counts as the level nearest to it: a whole
/// number as itself, and of two labels that are not negative the greater never
/// as the lower level.
pub proof fn similarity_counts_as_the_nearest_level(a: u64, b: u64, k: int)
    requires
        0 <= k <= 5,
        a <= b <= 0x7ff0_0000_0000_0000,
    ensures
        nearest(whole_bits(k)) == k,
        nearest(a) <= nearest(b) <= 6,
        k < 5 && whole_bits(k) <= a <= whole_bits(k + 1) ==> k <= nearest(a) <= k + 1,
        nearest(0x8000_0000_0000_0000) == 0,
{
}

/// The halves between two whole numbers count upwards, what is below a half
/// downwards.
pub proof fn halves_count_upwards(bits: u64)
    ensures
        bits < 0x3fe0_0000_0000_0000 ==> nearest(bits) == 0,
        0x3fe0_0000_0000_0000 <= bits < 0x3ff8_0000_0000_0000 ==> nearest(bits) == 1,
        0x3ff8_0000_0000_0000 <= bits < 0x4004_0000_0000_0000 ==> nearest(bits) == 2,
        0x4004_0000_0000_0000 <= bits < 0x400c_0000_0000_0000 ==> nearest(bits) == 3,
        0x400c_0000_0000_0000 <= bits < 0x4012_0000_0000_0000 ==> nearest(bits) == 4,
        0x4012_0000_0000_0000 <= bits < 0x4016_0000_0000_0000 ==> nearest(bits) == 5,
{
}

/// The level of a similarity record is one of its options, its text begins with
/// its number, and it is the level nearest to the label, the highest for a
/// label beyond all.
pub proof fn the_gold_level_is_the_nearest(row: JsonView, i: nat)
    requires
        item_fault(Task::Jsts, row) is None,
        i < 6,
    ensures
        ({
            let opts = option_texts(task_question(Task::Jsts, row));
            let near = nearest(as_double(at(row, "label"@))->0);
            &&& opts.len() == 6
            &&& opts[i as int].0 == decimal(i)
            &&& opts[i as int].1 is Some
            &&& starts_in(opts[i as int].1->0, decimal(i) + ": "@)
            &&& task_gold(Task::Jsts, row) < 6
            &&& near < 6 ==> task_gold(Task::Jsts, row) == near
            &&& near >= 6 ==> task_gold(Task::Jsts, row) == 5
            &&& at(row, "sentence_pair_id"@) == JsonView::Str(task_id(Task::Jsts, row))
        }),
{
    sentences_are_there(Task::Jsts, row);
    reveal_strlit(": ");
    reveal_strlit("0: 全く関係がない");
    reveal_strlit("1: ほとんど関係がない");
    reveal_strlit("2: 一部の話題が共通する");
    reveal_strlit("3: おおよそ同じ内容");
    reveal_strlit("4: 細部を除いて同じ");
    reveal_strlit("5: 完全に同じ意味");
    let t = option_texts(task_question(Task::Jsts, row))[i as int].1->0;
    assert(t == jsts_levels()[i as int]->Str_0);
    assert(decimal(i) =~= seq![digit_char(i as int)]);
    assert(t.take(3) =~= decimal(i) + ": "@);
}

/// What the options of an inference say begins with the name that an example
/// gives the label, and an example shows the label it is of.
pub proof fn options_and_examples_name_labels_alike(row: JsonView, i: int)
    requires
        0 <= i < 3,
    ensures
        ({
            let opt = option_texts(task_question(Task::Jnli, row))[i];
            &&& opt.0 == JNLI_LABELS@[i]@
            &&& opt.1 is Some
            &&& starts_in(opt.1->0, label_name(opt.0) + "："@)
        }),
{
    reveal_strlit("entailment");
    reveal_strlit("contradiction");
    reveal_strlit("neutral");
    reveal_strlit("：");
    reveal_strlit("含意");
    reveal_strlit("矛盾");
    reveal_strlit("中立");
    reveal_strlit("含意：前提から仮説が正しいと必ず言える");
    reveal_strlit("矛盾：前提から仮説が誤りだと必ず言える");
    reveal_strlit("中立：前提だけでは仮説が正しいとも誤りとも判断できない");
    assert("entailment"@.len() == 10 && "contradiction"@.len() == 13 && "neutral"@.len() == 7);
    let opt = option_texts(task_question(Task::Jnli, row))[i];
    assert(opt.1->0.take(3) =~= label_name(opt.0) + "："@);
}

/// Every record asks one question, under one name, with options; the wording
/// does not depend on the record.
pub proof fn a_task_asks_every_record_alike(task: Task, a: JsonView, b: JsonView)
    ensures
        instruction(task_question(task, a)) == instruction(task_question(task, b)),
        instruction(task_question(task, a)).len() > 0,
        (task_question(task, a) is Score) == (task == Task::Jsts),
        (task_question(task, a) is Choice) == (task != Task::Jsts),
        task != Task::Jcqa ==> option_texts(task_question(task, a)) == option_texts(
            task_question(task, b),
        ),
{
    reveal_strlit(
        "前提が正しいとき、仮説との論理的な関係を判定してください。前提から分からない情報を補わないでください。",
    );
    reveal_strlit("質問に対して、常識に基づく最も適切な答えを選択肢から1つ選んでください。");
    reveal_strlit("2つの文の意味がどの程度似ているかを判定してください。");
}

/// A record that makes an item counts among the examples of its gold option.
pub proof fn examples_are_classed_by_their_gold(task: Task, row: JsonView)
    requires
        item_fault(task, row) is None,
        task_gold(task, row) < class_count(task),
        class_of(task, row) < class_count(task),
    ensures
        class_of(task, row) == task_gold(task, row),
        class_count(task) == option_texts(task_question(task, row)).len(),
{
}

proof fn two_lines(a: Seq<char>, x: Seq<char>, b: Seq<char>, y: Seq<char>)
    requires
        a.len() > 0,
        b.len() > 0,
    ensures
        state_block(JsonView::Object(seq![(a, str_value(x)), (b, str_value(y))])) == a + ": "@ + x
            + "\n"@ + b + ": "@ + y,
{
    let es = seq![(a, str_value(x)), (b, str_value(y))];
    let v = JsonView::Object(es);
    let none = Seq::<char>::empty();
    assert(state_lines(none, v) == field_lines(none, es, 2));
    assert(field_lines(none, es, 2) == field_lines(none, es, 1) + state_lines(b, es[1].1));
    assert(field_lines(none, es, 1) == field_lines(none, es, 0) + state_lines(a, es[0].1));
    assert(field_lines(none, es, 0) =~= Seq::empty());
    assert(state_lines(b, es[1].1) == seq![b + ": "@ + y]);
    assert(state_lines(a, es[0].1) == seq![a + ": "@ + x]);
    let lines = seq![a + ": "@ + x, b + ": "@ + y];
    assert(state_lines(none, v) =~= lines);
    reveal_with_fuel(join, 2);
    assert(lines.drop_last() =~= seq![a + ": "@ + x]);
    assert(join(lines, "\n"@) =~= a + ": "@ + x + "\n"@ + b + ": "@ + y);
}

proof fn one_line(a: Seq<char>, x: Seq<char>)
    requires
        a.len() > 0,
    ensures
        state_block(JsonView::Object(seq![(a, str_value(x))])) == a + ": "@ + x,
{
    let es = seq![(a, str_value(x))];
    let none = Seq::<char>::empty();
    assert(state_lines(none, JsonView::Object(es)) == field_lines(none, es, 1));
    assert(field_lines(none, es, 1) == field_lines(none, es, 0) + state_lines(a, es[0].1));
    assert(field_lines(none, es, 0) =~= Seq::empty());
    assert(state_lines(a, es[0].1) == seq![a + ": "@ + x]);
    assert(state_lines(none, JsonView::Object(es)) =~= seq![a + ": "@ + x]);
}

/// An example shows its record as a request shows it to the model, and ends
/// with its answer: the label and its name, the text of the right choice, or
/// the level.
pub proof fn examples_show_the_record_and_its_answer(task: Task, row: JsonView)
    requires
        item_fault(task, row) is None,
        class_of(task, row) < class_count(task),
    ensures
        starts_in(example(task, row), state_block(task_state(task, row))),
        match task {
            Task::Jnli => ends_in(
                example(task, row),
                at(row, "label"@)->Str_0 + "（"@ + label_name(at(row, "label"@)->Str_0) + "）"@,
            ),
            Task::Jcqa => ends_in(
                example(task, row),
                "\n答え: "@ + option_texts(task_question(task, row))[task_gold(
                    task,
                    row,
                ) as int].1->0,
            ),
            Task::Jsts => ends_in(
                example(task, row),
                "\n類似度: "@ + decimal(task_gold(task, row) as nat),
            ),
        },
{
    reveal_strlit("前提");
    reveal_strlit("仮説");
    reveal_strlit("文1");
    reveal_strlit("文2");
    reveal_strlit("質問");
    reveal_strlit(": ");
    reveal_strlit("\n");
    reveal_strlit("前提: ");
    reveal_strlit("\n仮説: ");
    reveal_strlit("文1: ");
    reveal_strlit("\n文2: ");
    reveal_strlit("質問: ");
    let e = example(task, row);
    match task {
        Task::Jnli => {
            sentences_are_there(task, row);
            let (x, y) = (text_of(row, "sentence1"@), text_of(row, "sentence2"@));
            let label = at(row, "label"@)->Str_0;
            two_lines("前提"@, x, "仮説"@, y);
            assert("前提: "@ =~= "前提"@ + ": "@);
            assert("\n仮説: "@ =~= "\n"@ + "仮説"@ + ": "@);
            let block = state_block(task_state(task, row));
            assert(e.take(block.len() as int) =~= block);
            let tail = label + "（"@ + label_name(label) + "）"@;
            assert(e.skip(e.len() - tail.len()) =~= tail);
        },
        Task::Jcqa => {
            let keys = choice_keys().push("question"@);
            no_text_is_missing(row, keys, 5);
            assert(keys[5] == "question"@);
            let n = class_of(task, row);
            no_text_is_missing(row, keys, n as int);
            assert(keys[n as int] == "choice"@ + decimal(n as nat));
            one_line("質問"@, text_of(row, "question"@));
            assert("質問: "@ =~= "質問"@ + ": "@);
            let block = state_block(task_state(task, row));
            assert(e.take(block.len() as int) =~= block);
            let tail = "\n答え: "@ + option_texts(task_question(task, row))[n as int].1->0;
            assert(e.skip(e.len() - tail.len()) =~= tail);
        },
        Task::Jsts => {
            sentences_are_there(task, row);
            let (x, y) = (text_of(row, "sentence1"@), text_of(row, "sentence2"@));
            two_lines("文1"@, x, "文2"@, y);
            assert("文1: "@ =~= "文1"@ + ": "@);
            assert("\n文2: "@ =~= "\n"@ + "文2"@ + ": "@);
            let block = state_block(task_state(task, row));
            assert(e.take(block.len() as int) =~= block);
            let tail = "\n類似度: "@ + decimal(task_gold(task, row) as nat);
            assert(e.skip(e.len() - tail.len()) =~= tail);
        },
    }
}

proof fn found_with_field(m: Seq<(Seq<char>, JsonView)>, key: Seq<char>, v: JsonView, k: Seq<char>)
    ensures
        find(with_field(m, key, v), k) == (if k == key {
            Some(v)
        } else {
            find(m, k)
        }),
    decreases m.len(),
{
    reveal_with_fuel(find, 2);
    if m.len() > 0 {
        if m[0].0 != key {
            found_with_field(m.drop_first(), key, v, k);
            assert((seq![m[0]] + with_field(m.drop_first(), key, v)).drop_first() =~= with_field(
                m.drop_first(),
                key,
                v,
            ));
        } else {
            assert((seq![(key, v)] + m.drop_first()).drop_first() =~= m.drop_first());
        }
    } else {
        assert(seq![(key, v)].drop_first() =~= m);
    }
}

proof fn shots_keep_fields(block: Seq<char>, old: Seq<(Seq<char>, JsonView)>, n: nat, k: Seq<char>)
    requires
        n <= old.len(),
        forall|a: int, b: int|
            0 <= a < b < old.len() ==> (#[trigger] old[a]).0 != (#[trigger] old[b]).0,
    ensures
        find(shot_fields(block, old, n), k) == (if find(old.take(n as int), k) is Some {
            find(old.take(n as int), k)
        } else if k == "例"@ {
            Some(str_value(block))
        } else {
            None
        }),
        shot_fields(block, old, n).len() > 0,
        shot_fields(block, old, n)[0].0 == "例"@,
    decreases n,
{
    reveal_with_fuel(find, 2);
    if n == 0 {
        assert(old.take(0).len() == 0);
        assert(seq![("例"@, str_value(block))].drop_first().len() == 0);
    } else {
        let m = (n - 1) as nat;
        shots_keep_fields(block, old, m, k);
        found_with_field(shot_fields(block, old, m), old[m as int].0, old[m as int].1, k);
        assert(old.take(n as int) =~= old.take(m as int).push(old[m as int]));
        found_in_push(old.take(m as int), old[m as int], k);
        if find(old.take(m as int), k) is Some && k == old[m as int].0 {
            found_is_there(old.take(m as int), k);
            let j = choose|j: int| 0 <= j < m && (#[trigger] old.take(m as int)[j]).0 == k;
            assert(old[j].0 != old[m as int].0);
        }
    }
}

proof fn found_in_push(es: Seq<(Seq<char>, JsonView)>, e: (Seq<char>, JsonView), k: Seq<char>)
    ensures
        find(es.push(e), k) == (if find(es, k) is Some {
            find(es, k)
        } else if e.0 == k {
            Some(e.1)
        } else {
            None
        }),
    decreases es.len(),
{
    reveal_with_fuel(find, 2);
    if es.len() == 0 {
        assert(es.push(e).drop_first().len() == 0);
    } else {
        assert(es.push(e)[0] == es[0]);
        assert(es.push(e).drop_first() =~= es.drop_first().push(e));
        found_in_push(es.drop_first(), e, k);
    }
}

proof fn found_is_there(es: Seq<(Seq<char>, JsonView)>, k: Seq<char>)
    requires
        find(es, k) is Some,
    ensures
        exists|j: int| 0 <= j < es.len() && (#[trigger] es[j]).0 == k,
    decreases es.len(),
{
    if es[0].0 != k {
        found_is_there(es.drop_first(), k);
        let j = choose|j: int|
            0 <= j < es.drop_first().len() && (#[trigger] es.drop_first()[j]).0 == k;
        assert(es[j + 1].0 == k);
    }
}

/// The few-shot block stands in front of a state under its own name, and every
/// field of the state keeps its value.
pub proof fn shots_come_first_and_keep_the_state(
    block: Seq<char>,
    state: Seq<(Seq<char>, JsonView)>,
    k: Seq<char>,
)
    requires
        forall|a: int, b: int|
            0 <= a < b < state.len() ==> (#[trigger] state[a]).0 != (#[trigger] state[b]).0,
    ensures
        shot_state(block, JsonView::Object(state)) is Object,
        shot_state(block, JsonView::Object(state))->Object_0[0].0 == "例"@,
        has_field(JsonView::Object(state), k) ==> at(
            shot_state(block, JsonView::Object(state)),
            k,
        ) == at(JsonView::Object(state), k),
        !has_field(JsonView::Object(state), "例"@) ==> at(
            shot_state(block, JsonView::Object(state)),
            "例"@,
        ) == JsonView::Str(block),
        k != "例"@ && !has_field(JsonView::Object(state), k) ==> !has_field(
            shot_state(block, JsonView::Object(state)),
            k,
        ),
{
    shots_keep_fields(block, state, state.len(), k);
    shots_keep_fields(block, state, state.len(), "例"@);
    assert(state.take(state.len() as int) =~= state);
}

proof fn all_texts_are_there(row: JsonView, keys: Seq<Seq<char>>)
    ensures
        texts_missing(row, keys) is None <==> forall|i: int|
            0 <= i < keys.len() ==> at(row, #[trigger] keys[i]) is Str,
    decreases keys.len(),
{
    if keys.len() > 0 {
        let rest = keys.drop_first();
        all_texts_are_there(row, rest);
        if texts_missing(row, keys) is None {
            assert forall|i: int| 0 <= i < keys.len() implies at(row, #[trigger] keys[i]) is Str by {
                if i > 0 {
                    assert(rest[i - 1] == keys[i]);
                }
            }
        }
        if forall|i: int| 0 <= i < keys.len() ==> at(row, #[trigger] keys[i]) is Str {
            assert(at(row, keys[0]) is Str);
            assert forall|i: int| 0 <= i < rest.len() implies at(row, #[trigger] rest[i]) is Str by {
                assert(rest[i] == keys[i + 1]);
            }
        }
    }
}

/// A record is taken exactly where it has the texts that its task reads and a
/// label that the task knows.
pub proof fn records_are_taken_exactly_when_whole(row: JsonView)
    ensures
        item_fault(Task::Jnli, row) is None <==> {
            &&& at(row, "sentence1"@) is Str && at(row, "sentence2"@) is Str && at(
                row,
                "sentence_pair_id"@,
            ) is Str
            &&& at(row, "label"@) == JsonView::Str("entailment"@) || at(row, "label"@)
                == JsonView::Str("contradiction"@) || at(row, "label"@) == JsonView::Str("neutral"@)
        },
        item_fault(Task::Jsts, row) is None <==> {
            &&& at(row, "sentence1"@) is Str && at(row, "sentence2"@) is Str && at(
                row,
                "sentence_pair_id"@,
            ) is Str
            &&& has_field(row, "label"@) && as_double(at(row, "label"@)) is Some
        },
        item_fault(Task::Jcqa, row) is None <==> {
            &&& at(row, "question"@) is Str
            &&& forall|i: nat| i < 5 ==> at(row, "choice"@ + #[trigger] decimal(i)) is Str
            &&& at(row, "label"@) is Uint
        },
{
    let pair = seq!["sentence_pair_id"@, "sentence1"@, "sentence2"@];
    all_texts_are_there(row, pair);
    assert(pair[0] == "sentence_pair_id"@ && pair[1] == "sentence1"@ && pair[2] == "sentence2"@);
    let choices = choice_keys().push("question"@);
    all_texts_are_there(row, choices);
    assert(choices[5] == "question"@);
    if item_fault(Task::Jcqa, row) is None {
        assert forall|i: nat| i < 5 implies at(row, "choice"@ + #[trigger] decimal(i)) is Str by {
            assert(choices[i as int] == "choice"@ + decimal(i));
        }
    }
    if at(row, "question"@) is Str && (forall|i: nat|
        i < 5 ==> at(row, "choice"@ + #[trigger] decimal(i)) is Str) && at(row, "label"@) is Uint {
        assert forall|i: int| 0 <= i < choices.len() implies at(row, #[trigger] choices[i]) is Str by {
            if i < 5 {
                assert(at(row, "choice"@ + decimal(i as nat)) is Str);
            }
        }
    }
}

/// A file of records is taken exactly where each line is read and its record
/// is whole.
pub proof fn files_are_taken_exactly_when_every_record_is(
    task: Task,
    lines: Seq<(usize, Seq<char>)>,
)
    ensures
        records_fault(task, lines) is None <==> forall|i: int|
            0 <= i < lines.len() ==> line_value((#[trigger] lines[i]).1) is Some && item_fault(
                task,
                line_value(lines[i].1)->0,
            ) is None,
    decreases lines.len(),
{
    if lines.len() > 0 {
        let rest = lines.drop_first();
        files_are_taken_exactly_when_every_record_is(task, rest);
        assert(forall|i: int| 0 <= i < rest.len() ==> #[trigger] rest[i] == lines[i + 1]);
        if records_fault(task, lines) is None {
            assert forall|i: int| 0 <= i < lines.len() implies line_value((#[trigger] lines[i]).1) is Some
                && item_fault(task, line_value(lines[i].1)->0) is None by {
                if i > 0 {
                    assert(rest[i - 1] == lines[i]);
                }
            }
        } else {
            if forall|i: int|
                0 <= i < lines.len() ==> line_value((#[trigger] lines[i]).1) is Some && item_fault(
                    task,
                    line_value(lines[i].1)->0,
                ) is None {
                assert(line_value(lines[0].1) is Some);
                assert forall|i: int| 0 <= i < rest.len() implies line_value(
                    (#[trigger] rest[i]).1,
                ) is Some && item_fault(task, line_value(rest[i].1)->0) is None by {
                    assert(rest[i] == lines[i + 1]);
                }
            }
        }
    }
}

} // verus!

//! JSON values as the library reads them.

use serde_json::Value;
use vstd::prelude::*;

use crate::error::LoadError;
use crate::map::find;
use crate::text::{concat2, concat3, decimal, number_text, same, to_chars};

verus! {

/// A JSON value. A number that is no 64-bit integer is held as the bit
/// pattern of its double.
#[derive(Debug, PartialEq, Eq)]
pub enum Json {
    Null,
    Bool(bool),
    Uint(u64),
    Int(i64),
    Float(u64),
    Str(String),
    Array(Vec<Json>),
    Object(Vec<(String, Json)>),
}

/// A JSON value with its text and lists as sequences.
pub enum JsonView {
    Null,
    Bool(bool),
    Uint(u64),
    Int(i64),
    Float(u64),
    Str(Seq<char>),
    Array(Seq<JsonView>),
    Object(Seq<(Seq<char>, JsonView)>),
}

impl Json {
    pub open spec fn model(self) -> JsonView
        decreases self,
    {
        match self {
            Json::Null => JsonView::Null,
            Json::Bool(b) => JsonView::Bool(b),
            Json::Uint(n) => JsonView::Uint(n),
            Json::Int(n) => JsonView::Int(n),
            Json::Float(n) => JsonView::Float(n),
            Json::Str(s) => JsonView::Str(s@),
            Json::Array(v) => JsonView::Array(
                Seq::new(
                    v@.len(),
                    |i: int|
                        if 0 <= i < v@.len() {
                            v@[i].model()
                        } else {
                            JsonView::Null
                        },
                ),
            ),
            Json::Object(v) => JsonView::Object(
                Seq::new(
                    v@.len(),
                    |i: int|
                        if 0 <= i < v@.len() {
                            (v@[i].0@, v@[i].1.model())
                        } else {
                            (Seq::empty(), JsonView::Null)
                        },
                ),
            ),
        }
    }
}

impl View for Json {
    type V = JsonView;

    open spec fn view(&self) -> JsonView {
        self.model()
    }
}

impl Clone for Json {
    fn clone(&self) -> (r: Json)
        ensures
            r@ == self@,
    {
        self.copy()
    }
}

impl Json {
    fn copy(&self) -> (r: Json)
        ensures
            r@ == self@,
        decreases *self,
    {
        match self {
            Json::Null => Json::Null,
            Json::Bool(b) => Json::Bool(*b),
            Json::Uint(n) => Json::Uint(*n),
            Json::Int(n) => Json::Int(*n),
            Json::Float(n) => Json::Float(*n),
            Json::Str(s) => Json::Str(s.clone()),
            Json::Array(v) => {
                let mut out: Vec<Json> = Vec::new();
                let mut i: usize = 0;
                while i < v.len()
                    invariant
                        0 <= i <= v@.len(),
                        *self == Json::Array(*v),
                        out@.len() == i,
                        forall|j: int| 0 <= j < i ==> (#[trigger] out@[j])@ == v@[j]@,
                    decreases v@.len() - i,
                {
                    assert(decreases_to!(*self => self->Array_0));
                    assert(decreases_to!(self->Array_0 => self->Array_0@));
                    assert(decreases_to!(*self => v@[i as int]));
                    out.push(v[i].copy());
                    i += 1;
                }
                let r = Json::Array(out);
                assert(r@->Array_0 =~= self@->Array_0);
                r
            },
            Json::Object(v) => {
                let mut out: Vec<(String, Json)> = Vec::new();
                let mut i: usize = 0;
                while i < v.len()
                    invariant
                        0 <= i <= v@.len(),
                        *self == Json::Object(*v),
                        out@.len() == i,
                        forall|j: int|
                            0 <= j < i ==> (#[trigger] out@[j]).0@ == v@[j].0@ && out@[j].1@
                                == v@[j].1@,
                    decreases v@.len() - i,
                {
                    let (k, x) = &v[i];
                    assert(decreases_to!(*self => self->Object_0));
                    assert(decreases_to!(self->Object_0 => self->Object_0@));
                    assert(decreases_to!(*self => v@[i as int].1));
                    out.push((k.clone(), x.copy()));
                    i += 1;
                }
                let r = Json::Object(out);
                assert(r@->Object_0 =~= self@->Object_0);
                r
            },
        }
    }
}

/// `serde_json::Value`, only carried between the conversions below and the
/// calls into `serde_json`.
#[verifier::external_type_specification]
#[verifier::external_body]
pub struct ExValue(Value);

/// Rebuilds a JSON value as a `serde_json::Value`, variant by variant.
/// Nothing is stated of the result.
#[verifier::external_body]
fn to_value(j: &Json) -> Value {
    match j {
        Json::Null => Value::Null,
        Json::Bool(b) => Value::Bool(*b),
        Json::Uint(n) => Value::from(*n),
        Json::Int(n) => Value::from(*n),
        Json::Float(n) => serde_json::Number::from_f64(bytemuck::cast(*n)).into(),
        Json::Str(s) => Value::String(s.clone()),
        Json::Array(v) => Value::Array(v.iter().map(to_value).collect()),
        Json::Object(v) => {
            Value::Object(v.iter().map(|(k, x)| (k.clone(), to_value(x))).collect())
        },
    }
}

/// The compact text of a JSON value, as `serde_json::to_string` writes it.
pub uninterp spec fn compact_json(v: JsonView) -> Seq<char>;

/// `serde_json::to_string` of the value: its compact JSON text, which is
/// named and not spelled out.
#[verifier::external_body]
pub(crate) fn compact(j: &Json) -> (r: String)
    ensures
        r@ == compact_json(j@),
{
    serde_json::to_string(&to_value(j)).unwrap_or_default()
}

/// The field `key` of an object, null where there is none.
pub open spec fn at(v: JsonView, key: Seq<char>) -> JsonView {
    match v {
        JsonView::Object(es) => match find(es, key) {
            Some(x) => x,
            None => JsonView::Null,
        },
        _ => JsonView::Null,
    }
}

/// An object has a field `key`.
pub open spec fn has_field(v: JsonView, key: Seq<char>) -> bool {
    v is Object && find(v->Object_0, key) is Some
}

/// A number that is an unsigned 64-bit integer.
pub open spec fn as_unsigned(v: JsonView) -> Option<u64> {
    match v {
        JsonView::Uint(n) => Some(n),
        _ => None,
    }
}

/// The double nearest to a JSON number, as its bit pattern, as
/// `serde_json::Value::as_f64` gives it.
pub uninterp spec fn as_double(v: JsonView) -> Option<u64>;

impl Json {
    /// The field `key` of an object.
    pub fn get(&self, key: &str) -> (r: Option<&Json>)
        ensures
            match r {
                Some(x) => has_field(self@, key@) && x@ == at(self@, key@),
                None => !has_field(self@, key@) && at(self@, key@) is Null,
            },
    {
        match self {
            Json::Object(es) => {
                let ghost ev = self@->Object_0;
                let mut i: usize = 0;
                assert(ev.skip(0) =~= ev);
                while i < es.len()
                    invariant
                        0 <= i <= es@.len(),
                        *self == Json::Object(*es),
                        ev == self@->Object_0,
                        ev.len() == es@.len(),
                        find(ev, key@) == find(ev.skip(i as int), key@),
                    decreases es@.len() - i,
                {
                    let (k, x) = &es[i];
                    proof {
                        assert(ev[i as int] == (k@, x@));
                        assert(ev.skip(i as int)[0] == ev[i as int]);
                        assert(ev.skip(i as int).drop_first() =~= ev.skip(i as int + 1));
                    }
                    if same(k.as_str(), key) {
                        return Some(x);
                    }
                    i += 1;
                }
                assert(ev.skip(i as int).len() == 0);
                None
            },
            _ => None,
        }
    }

    /// The field `key` as an unsigned number.
    pub fn unsigned_at(&self, key: &str) -> (r: Option<u64>)
        ensures
            r == as_unsigned(at(self@, key@)),
    {
        match self.get(key) {
            Some(x) => match x {
                Json::Uint(n) => Some(*n),
                _ => None,
            },
            None => None,
        }
    }

    /// The field `key` as text.
    pub fn text_at(&self, key: &str) -> (r: Option<&String>)
        ensures
            match r {
                Some(s) => at(self@, key@) == JsonView::Str(s@),
                None => !(at(self@, key@) is Str),
            },
    {
        match self.get(key) {
            Some(x) => match x {
                Json::Str(s) => Some(s),
                _ => None,
            },
            None => None,
        }
    }

    /// The field `key` as a truth value.
    pub fn flag_at(&self, key: &str) -> (r: Option<bool>)
        ensures
            r == (match at(self@, key@) {
                JsonView::Bool(b) => Some(b),
                _ => None,
            }),
    {
        match self.get(key) {
            Some(x) => match x {
                Json::Bool(b) => Some(*b),
                _ => None,
            },
            None => None,
        }
    }

    /// The field `key` as a list.
    pub fn list_at(&self, key: &str) -> (r: Option<&Vec<Json>>)
        ensures
            match r {
                Some(v) => at(self@, key@) is Array && at(self@, key@)->Array_0 == views(v@),
                None => !(at(self@, key@) is Array),
            },
    {
        match self.get(key) {
            Some(x) => match x {
                Json::Array(v) => {
                    assert(x@->Array_0 =~= views(v@));
                    Some(v)
                },
                _ => None,
            },
            None => None,
        }
    }

    /// The field `key` as a double.
    pub fn double_at(&self, key: &str) -> (r: Option<u64>)
        ensures
            r == (if has_field(self@, key@) {
                as_double(at(self@, key@))
            } else {
                None
            }),
    {
        match self.get(key) {
            Some(x) => double_of(x),
            None => None,
        }
    }
}

/// The views of a list of values.
pub open spec fn views(v: Seq<Json>) -> Seq<JsonView> {
    v.map_values(|j: Json| j@)
}

/// An object of the given fields.
pub(crate) fn object_of(m: Vec<(String, Json)>) -> (r: Json)
    ensures
        r@ == JsonView::Object(field_views(m@)),
{
    let r = Json::Object(m);
    assert(r@->Object_0 =~= field_views(m@));
    r
}

/// A list of the given values.
pub(crate) fn array_of(v: Vec<Json>) -> (r: Json)
    ensures
        r@ == JsonView::Array(views(v@)),
{
    let r = Json::Array(v);
    assert(r@->Array_0 =~= views(v@));
    r
}

/// Text as a JSON value.
pub(crate) fn text_value(s: &str) -> (r: Json)
    ensures
        r@ == JsonView::Str(s@),
{
    Json::Str(s.to_owned())
}

/// `serde_json::Value::as_f64`: the value as a double when it is a number,
/// given as its bit pattern. Which double stands for an integer is named and
/// not spelled out.
#[verifier::external_body]
pub(crate) fn double_of(j: &Json) -> (r: Option<u64>)
    ensures
        r == as_double(j@),
{
    to_value(j).as_f64().map(|x| x.to_bits())
}

/// What reading JSON text comes to: the value it holds, or the message of an
/// error.
pub uninterp spec fn reading(bytes: Seq<u8>) -> Result<JsonView, Seq<char>>;

/// The value that JSON text holds; nothing where it is no JSON.
pub open spec fn parsed(bytes: Seq<u8>) -> Option<JsonView> {
    match reading(bytes) {
        Ok(v) => Some(v),
        Err(_) => None,
    }
}

/// Why text named `what` is no JSON.
pub open spec fn unread(bytes: Seq<u8>, what: Seq<char>) -> Seq<char> {
    what + ": "@ + reading(bytes)->Err_0
}

/// Rebuilds a `serde_json::Value` as a JSON value, variant by variant.
/// Nothing is stated of the result.
#[verifier::external_body]
pub(crate) fn from_value(v: Value) -> Json {
    match v {
        Value::Null => Json::Null,
        Value::Bool(b) => Json::Bool(b),
        Value::Number(n) => match (n.as_u64(), n.as_i64()) {
            (Some(u), _) => Json::Uint(u),
            (None, Some(i)) => Json::Int(i),
            (None, None) => Json::Float(n.as_f64().map_or(0, |x| x.to_bits())),
        },
        Value::String(s) => Json::Str(s),
        Value::Array(v) => Json::Array(v.into_iter().map(from_value).collect()),
        Value::Object(m) => {
            Json::Object(m.into_iter().map(|(k, x)| (k, from_value(x))).collect())
        },
    }
}

/// `serde_json::from_slice` of JSON text: the value it holds, or the message of
/// the error when it is no JSON. The grammar and the messages are named and not
/// spelled out.
#[verifier::external_body]
fn parse(bytes: &[u8]) -> (r: Result<Json, String>)
    ensures
        match r {
            Ok(j) => reading(bytes@) == Ok::<JsonView, Seq<char>>(j@),
            Err(m) => reading(bytes@) == Err::<JsonView, Seq<char>>(m@),
        },
{
    serde_json::from_slice(bytes).map(from_value).map_err(|e: serde_json::Error| e.to_string())
}

/// A white-space character.
pub open spec fn is_space(c: char) -> bool {
    let n = c as int;
    9 <= n <= 13 || n == 0x20 || n == 0x85 || n == 0xa0 || n == 0x1680 || 0x2000 <= n <= 0x200a || n
        == 0x2028 || n == 0x2029 || n == 0x202f || n == 0x205f || n == 0x3000
}

/// A line with nothing but white space.
pub open spec fn is_blank_line(s: Seq<char>) -> bool {
    forall|i: int| 0 <= i < s.len() ==> is_space(#[trigger] s[i])
}

/// Whether a line holds nothing but white space.
pub(crate) fn is_blank(s: &str) -> (r: bool)
    ensures
        r == is_blank_line(s@),
{
    let chars = to_chars(s);
    let mut i: usize = 0;
    while i < chars.len()
        invariant
            0 <= i <= chars@.len(),
            chars@ == s@,
            forall|k: int| 0 <= k < i ==> is_space(#[trigger] s@[k]),
        decreases chars@.len() - i,
    {
        if !space(chars[i]) {
            assert(!is_space(s@[i as int]));
            return false;
        }
        i += 1;
    }
    true
}

/// Where the first of the newlines stands, the length where there is none.
pub open spec fn first_newline(s: Seq<char>) -> nat
    decreases s.len(),
{
    if s.len() == 0 || s[0] == '\n' {
        0
    } else {
        1 + first_newline(s.drop_first())
    }
}

/// The text before a newline, without the carriage return that belongs to it.
pub open spec fn chomped(s: Seq<char>) -> Seq<char> {
    if s.len() > 0 && s.last() == '\r' {
        s.drop_last()
    } else {
        s
    }
}

/// The lines of a text: none follows a newline that ends the text.
pub open spec fn lines_of(s: Seq<char>) -> Seq<Seq<char>>
    decreases s.len(),
{
    let n = first_newline(s);
    if s.len() == 0 {
        Seq::empty()
    } else if n >= s.len() {
        seq![s]
    } else {
        seq![chomped(s.take(n as int))] + lines_of(s.skip(n as int + 1))
    }
}

/// The lines that are not blank, with their numbers from `n` on.
pub open spec fn numbered(lines: Seq<Seq<char>>, n: nat) -> Seq<(usize, Seq<char>)>
    decreases lines.len(),
{
    if lines.len() == 0 {
        Seq::empty()
    } else {
        (if is_blank_line(lines[0]) {
            Seq::empty()
        } else {
            seq![(n as usize, lines[0])]
        }) + numbered(lines.drop_first(), n + 1)
    }
}

/// Numbered lines by their text.
pub open spec fn line_views(v: Seq<(usize, String)>) -> Seq<(usize, Seq<char>)> {
    v.map_values(|l: (usize, String)| (l.0, l.1@))
}

proof fn first_newline_at(s: Seq<char>, i: int)
    requires
        0 <= i <= s.len(),
        forall|j: int| 0 <= j < i ==> (#[trigger] s[j]) != '\n',
        i == s.len() || s[i] == '\n',
    ensures
        first_newline(s) == i,
    decreases s.len(),
{
    if i > 0 {
        let t = s.drop_first();
        assert(s[0] != '\n');
        assert forall|j: int| 0 <= j < i - 1 implies (#[trigger] t[j]) != '\n' by {
            assert(s[j + 1] != '\n');
        }
        first_newline_at(t, i - 1);
    }
}

fn space(c: char) -> (r: bool)
    ensures
        r == is_space(c),
{
    let n: u32 = c as u32;
    (9 <= n && n <= 13) || n == 0x20 || n == 0x85 || n == 0xa0 || n == 0x1680 || (0x2000 <= n && n
        <= 0x200a) || n == 0x2028 || n == 0x2029 || n == 0x202f || n == 0x205f || n == 0x3000
}

/// The lines of JSON-lines text, blank ones left out, each with its number in
/// the text from 1 on.
pub fn json_lines(text: &str) -> (r: Vec<(usize, String)>)
    ensures
        line_views(r@) == numbered(lines_of(text@), 1),
{
    let chars = to_chars(text);
    let ghost s = text@;
    let len: usize = chars.len();
    let mut out: Vec<(usize, String)> = Vec::new();
    let mut pos: usize = 0;
    let mut n: usize = 1;
    assert(s.skip(0) =~= s);
    assert(line_views(out@) + numbered(lines_of(s), 1) =~= numbered(lines_of(s), 1));
    while pos < len
        invariant
            0 <= pos <= len,
            len == chars@.len(),
            chars@ == s,
            pos < len ==> n <= pos + 1,
            line_views(out@) + numbered(lines_of(s.skip(pos as int)), n as nat) == numbered(
                lines_of(s),
                1,
            ),
        decreases len - pos,
    {
        let ghost rest = s.skip(pos as int);
        let ghost before = line_views(out@);
        let mut end: usize = pos;
        while end < len && chars[end] != '\n'
            invariant
                pos <= end <= len,
                len == chars@.len(),
                forall|j: int| pos <= j < end ==> (#[trigger] chars@[j]) != '\n',
            decreases len - end,
        {
            end += 1;
        }
        proof {
            assert forall|j: int| 0 <= j < end - pos implies (#[trigger] rest[j]) != '\n' by {
                assert(chars@[j + pos] != '\n');
            }
            first_newline_at(rest, end - pos);
        }
        let stop: usize = if end < len && end > pos && chars[end - 1] == '\r' {
            end - 1
        } else {
            end
        };
        let mut line: String = String::new();
        let mut blank: bool = true;
        let mut i: usize = pos;
        while i < stop
            invariant
                pos <= i <= stop <= len,
                len == chars@.len(),
                line@ == chars@.subrange(pos as int, i as int),
                blank == is_blank_line(line@),
            decreases stop - i,
        {
            let c: char = chars[i];
            let ghost had = line@;
            line.push(c);
            proof {
                assert(line@ =~= chars@.subrange(pos as int, i + 1));
                assert(line@[had.len() as int] == c);
                assert forall|j: int| 0 <= j < had.len() implies had[j] == line@[j] by {}
                if blank && is_space(c) {
                    assert forall|j: int| 0 <= j < line@.len() implies is_space(
                        #[trigger] line@[j],
                    ) by {
                        if j < had.len() {
                            assert(is_space(had[j]));
                        }
                    }
                }
                if is_blank_line(line@) {
                    assert forall|j: int| 0 <= j < had.len() implies is_space(#[trigger] had[j]) by {
                        assert(is_space(line@[j]));
                    }
                    assert(is_space(line@[had.len() as int]));
                }
            }
            blank = blank && space(c);
            i += 1;
        }
        let ghost first = line@;
        let ghost ls = lines_of(rest);
        let next: usize = if end < len {
            end + 1
        } else {
            end
        };
        proof {
            if end < len {
                assert(rest.take(end - pos) =~= chars@.subrange(pos as int, end as int));
                assert(first =~= chomped(rest.take(end - pos)));
                assert(rest.skip(end - pos + 1) =~= s.skip(next as int));
            } else {
                assert(first =~= rest);
                assert(s.skip(next as int).len() == 0);
            }
            assert(ls[0] == first);
            assert(ls.drop_first() =~= lines_of(s.skip(next as int)));
        }
        if !blank {
            out.push((n, line));
            assert(line_views(out@) =~= before + seq![(n, first)]);
        }
        proof {
            assert(line_views(out@) + numbered(ls.drop_first(), (n + 1) as nat) =~= before
                + numbered(ls, n as nat));
        }
        pos = next;
        if pos < len {
            n += 1;
        }
    }
    assert(s.skip(pos as int).len() == 0);
    assert(line_views(out@) + numbered(lines_of(s.skip(pos as int)), n as nat) =~= line_views(out@));
    out
}

/// Reads JSON text; `what` names it in the error.
pub fn read_json(bytes: &[u8], what: &str) -> (r: Result<Json, LoadError>)
    ensures
        match r {
            Ok(j) => parsed(bytes@) == Some(j@),
            Err(e) => parsed(bytes@) is None && e@ == unread(bytes@, what@),
        },
{
    match parse(bytes) {
        Ok(j) => Ok(j),
        Err(m) => Err(LoadError::new(concat3(what, ": ", m.as_str()))),
    }
}

/// The value that a line of text holds.
pub open spec fn line_value(line: Seq<char>) -> Option<JsonView> {
    parsed(vstd::utf8::encode_utf8(line))
}

/// Why a numbered line is no JSON.
pub open spec fn unread_line(n: usize, line: Seq<char>) -> Seq<char> {
    unread(vstd::utf8::encode_utf8(line), line_name(n))
}

/// How a line is named in an error.
pub open spec fn line_name(n: usize) -> Seq<char> {
    "line "@ + decimal(n as nat)
}

pub(crate) fn name_line(n: usize) -> (r: String)
    ensures
        r@ == line_name(n),
{
    concat2("line ", number_text(n).as_str())
}

/// Why the first numbered line that is no JSON is none.
pub open spec fn rows_fault(lines: Seq<(usize, Seq<char>)>) -> Option<Seq<char>>
    decreases lines.len(),
{
    if lines.len() == 0 {
        None
    } else if line_value(lines[0].1) is None {
        Some(unread_line(lines[0].0, lines[0].1))
    } else {
        rows_fault(lines.drop_first())
    }
}

/// The values of JSON-lines text, blank lines left out, each with its line's
/// number; the first line that is no JSON fails.
pub fn json_rows(text: &str) -> (r: Result<Vec<(usize, Json)>, LoadError>)
    ensures
        ({
            let lines = numbered(lines_of(text@), 1);
            match r {
                Ok(v) => {
                    &&& rows_fault(lines) is None
                    &&& v@.len() == lines.len()
                    &&& forall|i: int|
                        #![trigger v@[i]]
                        0 <= i < v@.len() ==> v@[i].0 == lines[i].0 && line_value(lines[i].1)
                            == Some(v@[i].1@)
                },
                Err(e) => rows_fault(lines) == Some(e@),
            }
        }),
{
    let lines = json_lines(text);
    let ghost lv = numbered(lines_of(text@), 1);
    let mut out: Vec<(usize, Json)> = Vec::new();
    let mut i: usize = 0;
    assert(lv.skip(0) =~= lv);
    while i < lines.len()
        invariant
            0 <= i <= lines@.len(),
            lv == line_views(lines@),
            lv == numbered(lines_of(text@), 1),
            out@.len() == i,
            forall|j: int|
                #![trigger out@[j]]
                0 <= j < i ==> out@[j].0 == lv[j].0 && line_value(lv[j].1) == Some(out@[j].1@),
            rows_fault(lv) == rows_fault(lv.skip(i as int)),
        decreases lines@.len() - i,
    {
        let (n, line) = &lines[i];
        proof {
            assert(lv[i as int] == (*n, line@));
            assert(lv.skip(i as int).drop_first() =~= lv.skip(i as int + 1));
        }
        match read_json(line.as_str().as_bytes(), name_line(*n).as_str()) {
            Ok(j) => out.push((*n, j)),
            Err(e) => {
                return Err(e);
            },
        }
        i += 1;
    }
    Ok(out)
}

/// Fields with one more: its value in place of an earlier one under the key,
/// else behind the others.
pub open spec fn with_field(
    m: Seq<(Seq<char>, JsonView)>,
    key: Seq<char>,
    v: JsonView,
) -> Seq<(Seq<char>, JsonView)>
    decreases m.len(),
{
    if m.len() == 0 {
        seq![(key, v)]
    } else if m[0].0 == key {
        seq![(key, v)] + m.drop_first()
    } else {
        seq![m[0]] + with_field(m.drop_first(), key, v)
    }
}

/// The views of fields.
pub open spec fn field_views(m: Seq<(String, Json)>) -> Seq<(Seq<char>, JsonView)> {
    m.map_values(|e: (String, Json)| (e.0@, e.1@))
}

proof fn with_field_at(m: Seq<(Seq<char>, JsonView)>, key: Seq<char>, v: JsonView, i: int)
    requires
        0 <= i <= m.len(),
        i < m.len() ==> m[i].0 == key,
        forall|j: int| 0 <= j < i ==> (#[trigger] m[j]).0 != key,
    ensures
        with_field(m, key, v) == (if i < m.len() {
            m.update(i, (key, v))
        } else {
            m.push((key, v))
        }),
    decreases m.len(),
{
    if m.len() == 0 {
        assert(seq![(key, v)] =~= m.push((key, v)));
    } else if i == 0 {
        assert(seq![(key, v)] + m.drop_first() =~= m.update(0, (key, v)));
    } else {
        assert(m[0].0 != key);
        assert forall|j: int| 0 <= j < i - 1 implies (#[trigger] m.drop_first()[j]).0 != key by {
            assert(m[j + 1].0 != key);
        }
        with_field_at(m.drop_first(), key, v, i - 1);
        if i < m.len() {
            assert(seq![m[0]] + m.drop_first().update(i - 1, (key, v)) =~= m.update(i, (key, v)));
        } else {
            assert(seq![m[0]] + m.drop_first().push((key, v)) =~= m.push((key, v)));
        }
    }
}

/// Sets a field of an object.
pub(crate) fn set_field(m: &mut Vec<(String, Json)>, key: String, v: Json)
    ensures
        field_views(final(m)@) == with_field(field_views(old(m)@), key@, v@),
{
    let ghost before = field_views(m@);
    let mut i: usize = 0;
    while i < m.len()
        invariant
            0 <= i <= m@.len(),
            before == field_views(old(m)@),
            before == field_views(m@),
            forall|j: int| 0 <= j < i ==> (#[trigger] before[j]).0 != key@,
        decreases m@.len() - i,
    {
        assert(before[i as int].0 == m@[i as int].0@);
        if same(m[i].0.as_str(), key.as_str()) {
            proof {
                with_field_at(before, key@, v@, i as int);
            }
            m.set(i, (key, v));
            assert(field_views(m@) =~= before.update(i as int, (key@, v@)));
            return;
        }
        i += 1;
    }
    proof {
        with_field_at(before, key@, v@, i as int);
    }
    m.push((key, v));
    assert(field_views(m@) =~= before.push((key@, v@)));
}

/// A JSON value as `serde_json::Value` prints itself for debugging.
pub uninterp spec fn debug_json(v: JsonView) -> Seq<char>;

/// The `Debug` text of `serde_json::Value`, which is named and not spelled
/// out.
#[verifier::external_body]
pub(crate) fn debug_value(j: &Json) -> (r: String)
    ensures
        r@ == debug_json(j@),
{
    format!("{:?}", to_value(j))
}

/// The bit pattern of a double that is neither infinite nor no number.
pub open spec fn finite_bits(bits: u64) -> bool {
    (bits / 0x10_0000_0000_0000) % 0x800 != 0x7ff
}

/// The shortest decimal text that reads back as the double with the given bit
/// pattern, as Rust prints it for debugging.
pub uninterp spec fn double_text(bits: u64) -> Seq<char>;

/// The `Debug` text of the double that `serde_json::Value::as_f64` gives of a
/// number made of it. The text is named and not spelled out.
#[verifier::external_body]
pub(crate) fn debug_double(bits: u64) -> (r: String)
    requires
        finite_bits(bits),
    ensures
        r@ == double_text(bits),
{
    format!("{:?}", to_value(&Json::Float(bits)).as_f64().unwrap_or_default())
}

/// A field that was set is found with its value, every other field as before.
pub proof fn fields_that_are_set_are_found(
    m: Seq<(Seq<char>, JsonView)>,
    key: Seq<char>,
    v: JsonView,
    other: Seq<char>,
)
    ensures
        find(with_field(m, key, v), key) == Some(v),
        other != key ==> find(with_field(m, key, v), other) == find(m, other),
        find(m, key) is Some ==> with_field(m, key, v).len() == m.len(),
        find(m, key) is None ==> with_field(m, key, v) == m.push((key, v)),
    decreases m.len(),
{
    let w = with_field(m, key, v);
    if m.len() == 0 {
        assert(find(w.drop_first(), other) is None);
        assert(w =~= m.push((key, v)));
    } else {
        let rest = m.drop_first();
        fields_that_are_set_are_found(rest, key, v, other);
        if m[0].0 == key {
            assert(w.drop_first() =~= rest);
        } else {
            assert(w.drop_first() =~= with_field(rest, key, v));
            if find(m, key) is None {
                assert(w =~= m.push((key, v)));
            }
        }
    }
}

proof fn newlines_come_first(s: Seq<char>, i: int)
    requires
        0 <= i,
    ensures
        first_newline(s) <= s.len(),
        first_newline(s) < s.len() ==> s[first_newline(s) as int] == '\n',
        i < first_newline(s) ==> s[i] != '\n',
    decreases s.len(),
{
    if s.len() > 0 && s[0] != '\n' {
        newlines_come_first(s.drop_first(), if i > 0 { i - 1 } else { 0 });
        if 0 < i < s.len() {
            assert(s.drop_first()[i - 1] == s[i]);
        }
        let n = first_newline(s.drop_first());
        if n < s.drop_first().len() {
            assert(s.drop_first()[n as int] == s[n as int + 1]);
        }
    }
}

/// A text is read line by line: up to a line break, without the carriage return
/// before it, and on behind it; what the last line break leaves is a line where
/// it is not empty.
pub proof fn lines_end_at_their_breaks(line: Seq<char>, rest: Seq<char>)
    requires
        forall|i: int| 0 <= i < line.len() ==> #[trigger] line[i] != '\n',
    ensures
        lines_of(Seq::empty()) == Seq::<Seq<char>>::empty(),
        line.len() > 0 ==> lines_of(line) == seq![line],
        line.len() == 0 || line.last() != '\r' ==> lines_of(line + seq!['\n'] + rest) == seq![line]
            + lines_of(rest),
        lines_of(line + seq!['\r', '\n'] + rest) == seq![line] + lines_of(rest),
{
    if line.len() > 0 {
        let n = first_newline(line);
        newlines_come_first(line, n as int);
        if n < line.len() {
            assert(line[n as int] == '\n');
        }
    }
    let a = line + seq!['\n'] + rest;
    newline_is_at(a, line.len() as int);
    assert(a.take(line.len() as int) =~= line);
    assert(a.skip(line.len() as int + 1) =~= rest);
    let b = line + seq!['\r', '\n'] + rest;
    newline_is_at(b, line.len() as int + 1);
    assert(b.take(line.len() as int + 1) =~= line.push('\r'));
    assert(line.push('\r').drop_last() =~= line);
    assert(b.skip(line.len() as int + 2) =~= rest);
}

proof fn newline_is_at(s: Seq<char>, n: int)
    requires
        0 <= n < s.len(),
        s[n] == '\n',
        forall|i: int| 0 <= i < n ==> #[trigger] s[i] != '\n',
    ensures
        first_newline(s) == n,
{
    newlines_come_first(s, n);
    let k = first_newline(s);
    if k < n {
        assert(s[k as int] == '\n');
    }
}

/// Records are the lines that are not blank, each with its number in the text,
/// counted from where the count starts.
pub proof fn records_keep_their_line_numbers(lines: Seq<Seq<char>>, n: nat, i: int, k: int)
    requires
        n + lines.len() <= usize::MAX,
        0 <= i < lines.len(),
        0 <= k,
    ensures
        !is_blank_line(lines[i]) ==> numbered(lines, n).contains(((n + i) as usize, lines[i])),
        k < numbered(lines, n).len() ==> {
            let (at, line) = numbered(lines, n)[k];
            &&& n <= at < n + lines.len()
            &&& line == lines[at - n]
            &&& !is_blank_line(line)
        },
    decreases lines.len(),
{
    let rest = lines.drop_first();
    let all = numbered(lines, n);
    let below = numbered(rest, n + 1);
    let own: int = if is_blank_line(lines[0]) {
        0
    } else {
        1
    };
    if rest.len() > 0 {
        records_keep_their_line_numbers(
            rest,
            n + 1,
            if i > 0 {
                i - 1
            } else {
                0
            },
            if k >= own {
                k - own
            } else {
                0
            },
        );
    } else {
        assert(below.len() == 0);
    }
    if own <= k < all.len() {
        assert(all[k] == below[k - own]);
        let (at, line) = below[k - own];
        assert(rest[at - (n + 1)] == lines[at - n]);
    }
    if !is_blank_line(lines[i]) {
        if i == 0 {
            assert(all[0] == ((n + i) as usize, lines[i]));
        } else {
            assert(rest[i - 1] == lines[i]);
            let x = below.index_of(((n + i) as usize, lines[i]));
            assert(all[own + x] == ((n + i) as usize, lines[i]));
        }
    }
}

/// Records are refused for the first line that cannot be read, by its number.
pub proof fn the_first_unread_line_is_named(lines: Seq<(usize, Seq<char>)>, i: int)
    requires
        0 <= i < lines.len(),
        line_value(lines[i].1) is None,
        forall|j: int| 0 <= j < i ==> line_value((#[trigger] lines[j]).1) is Some,
    ensures
        rows_fault(lines) is Some,
        rows_fault(lines)->0 == unread(
            vstd::utf8::encode_utf8(lines[i].1),
            "line "@ + decimal(lines[i].0 as nat),
        ),
    decreases lines.len(),
{
    if i > 0 {
        assert(line_value(lines[0].1) is Some);
        let rest = lines.drop_first();
        assert(rest[i - 1] == lines[i]);
        assert forall|j: int| 0 <= j < i - 1 implies line_value((#[trigger] rest[j]).1) is Some by {
            assert(rest[j] == lines[j + 1]);
        }
        the_first_unread_line_is_named(rest, i - 1);
    }
}

/// A value's field is the first that has the key, and null where there is none;
/// what is no object has no fields.
pub proof fn fields_are_found_by_key(es: Seq<(Seq<char>, JsonView)>, key: Seq<char>, i: int)
    requires
        0 <= i < es.len(),
        es[i].0 == key,
        forall|j: int| 0 <= j < i ==> (#[trigger] es[j]).0 != key,
    ensures
        at(JsonView::Object(es), key) == es[i].1,
        has_field(JsonView::Object(es), key),
        at(JsonView::Null, key) is Null,
        at(JsonView::Str(key), key) is Null,
        !has_field(JsonView::Array(Seq::empty()), key),
    decreases es.len(),
{
    if i > 0 {
        assert(es[0].0 != key);
        let rest = es.drop_first();
        assert(rest[i - 1] == es[i]);
        assert forall|j: int| 0 <= j < i - 1 implies (#[trigger] rest[j]).0 != key by {
            assert(rest[j] == es[j + 1]);
        }
        fields_are_found_by_key(rest, key, i - 1);
    }
}

} // verus!

//! JSON text as Python's `json.dumps` writes it with its default separators.

use vstd::prelude::*;
use vstd::string::StringExecFns;

use crate::json::{debug_double, double_text, finite_bits, Json, JsonView};
use crate::text::{code_point, decimal, from_chars, push_decimal, to_chars};

verus! {

/// A hexadecimal digit, lower case.
pub open spec fn hex_digit(d: int) -> char {
    if d < 10 {
        (48 + d) as char
    } else {
        (87 + d) as char
    }
}

/// Four hexadecimal digits.
pub open spec fn hex4(n: int) -> Seq<char> {
    seq![
        hex_digit(n / 4096 % 16),
        hex_digit(n / 256 % 16),
        hex_digit(n / 16 % 16),
        hex_digit(n % 16),
    ]
}

/// A character as one or two `\u` escapes: its UTF-16 code units.
pub open spec fn unicode_escape(c: char) -> Seq<char> {
    let n = c as int;
    if n < 0x10000 {
        "\\u"@ + hex4(n)
    } else {
        "\\u"@ + hex4(0xd800 + (n - 0x10000) / 0x400) + "\\u"@ + hex4(
            0xdc00 + (n - 0x10000) % 0x400,
        )
    }
}

/// A character inside a string.
pub open spec fn py_char(c: char, ascii: bool) -> Seq<char> {
    if c == '"' {
        "\\\""@
    } else if c == '\\' {
        "\\\\"@
    } else if c == '\n' {
        "\\n"@
    } else if c == '\r' {
        "\\r"@
    } else if c == '\t' {
        "\\t"@
    } else if c as int == 8 {
        "\\b"@
    } else if c as int == 12 {
        "\\f"@
    } else if (c as int) < 0x20 {
        unicode_escape(c)
    } else if ascii && c as int > 0x7e {
        unicode_escape(c)
    } else {
        seq![c]
    }
}

/// The first `n` characters of a string, escaped.
pub open spec fn py_chars(s: Seq<char>, ascii: bool, n: nat) -> Seq<char>
    decreases n,
{
    if n == 0 {
        Seq::empty()
    } else {
        py_chars(s, ascii, (n - 1) as nat) + py_char(s[n - 1], ascii)
    }
}

/// A quoted string.
pub open spec fn py_text(s: Seq<char>, ascii: bool) -> Seq<char> {
    seq!['"'] + py_chars(s, ascii, s.len()) + seq!['"']
}

/// A signed number in decimal.
pub open spec fn signed(n: int) -> Seq<char> {
    if n < 0 {
        seq!['-'] + decimal((-n) as nat)
    } else {
        decimal(n as nat)
    }
}

/// Where a text first holds an `e`, its length where it holds none.
pub open spec fn exponent_at(s: Seq<char>) -> nat
    decreases s.len(),
{
    if s.len() == 0 {
        0
    } else if s[0] == 'e' {
        0
    } else {
        1 + exponent_at(s.drop_first())
    }
}

/// An exponent's sign and at least two digits.
pub open spec fn py_exponent(e: Seq<char>) -> Seq<char> {
    let negative = e.len() > 0 && e[0] == '-';
    let digits = if negative {
        e.drop_first()
    } else {
        e
    };
    seq![
        if negative {
            '-'
        } else {
            '+'
        },
    ] + (if digits.len() < 2 {
        seq!['0'] + digits
    } else {
        digits
    })
}

/// A mantissa without a trailing `.0`.
pub open spec fn py_mantissa(m: Seq<char>) -> Seq<char> {
    if m.len() >= 2 && m[m.len() - 2] == '.' && m[m.len() - 1] == '0' {
        m.take(m.len() - 2)
    } else {
        m
    }
}

/// The shortest text of a double, its exponent written as Python does.
pub open spec fn py_repr(s: Seq<char>) -> Seq<char> {
    let i = exponent_at(s);
    if i == s.len() {
        s
    } else {
        py_mantissa(s.take(i as int)) + seq!['e'] + py_exponent(s.skip(i as int + 1))
    }
}

/// A number that is no integer, given as the bit pattern of its double.
pub open spec fn py_double(bits: u64) -> Seq<char> {
    if finite_bits(bits) {
        py_repr(double_text(bits))
    } else if bits % 0x10_0000_0000_0000 != 0 {
        "NaN"@
    } else if bits < 0x8000_0000_0000_0000 {
        "Infinity"@
    } else {
        "-Infinity"@
    }
}

/// A value as text.
pub open spec fn py_value(v: JsonView, ascii: bool) -> Seq<char>
    decreases v, 0nat,
{
    match v {
        JsonView::Null => "null"@,
        JsonView::Bool(b) => if b {
            "true"@
        } else {
            "false"@
        },
        JsonView::Uint(n) => decimal(n as nat),
        JsonView::Int(n) => signed(n as int),
        JsonView::Float(bits) => py_double(bits),
        JsonView::Str(s) => py_text(s, ascii),
        JsonView::Array(a) => seq!['['] + py_items(a, ascii, a.len()) + seq![']'],
        JsonView::Object(m) => seq!['{'] + py_fields(m, ascii, m.len()) + seq!['}'],
    }
}

/// The first `n` items of an array.
pub open spec fn py_items(a: Seq<JsonView>, ascii: bool, n: nat) -> Seq<char>
    decreases a, n,
{
    if n == 0 || n > a.len() {
        Seq::empty()
    } else {
        py_items(a, ascii, (n - 1) as nat) + (if n > 1 {
            ", "@
        } else {
            Seq::empty()
        }) + py_value(a[n - 1], ascii)
    }
}

/// The first `n` fields of an object.
pub open spec fn py_fields(m: Seq<(Seq<char>, JsonView)>, ascii: bool, n: nat) -> Seq<char>
    decreases m, n,
{
    if n == 0 || n > m.len() {
        Seq::empty()
    } else {
        py_fields(m, ascii, (n - 1) as nat) + (if n > 1 {
            ", "@
        } else {
            Seq::empty()
        }) + py_text(m[n - 1].0, ascii) + ": "@ + py_value(m[n - 1].1, ascii)
    }
}

fn digit_of(d: u32) -> (r: char)
    requires
        d < 16,
    ensures
        r == hex_digit(d as int),
{
    if d < 10 {
        (48 + d as u8) as char
    } else {
        (87 + d as u8) as char
    }
}

fn push_hex4(out: &mut String, n: u32)
    ensures
        final(out)@ == old(out)@ + hex4(n as int),
{
    let ghost before = out@;
    out.push(digit_of(n / 4096 % 16));
    out.push(digit_of(n / 256 % 16));
    out.push(digit_of(n / 16 % 16));
    out.push(digit_of(n % 16));
    assert(out@ =~= before + hex4(n as int));
}

fn push_escape(out: &mut String, c: char)
    ensures
        final(out)@ == old(out)@ + unicode_escape(c),
{
    let ghost before = out@;
    let n: u32 = code_point(c);
    if n < 0x10000 {
        out.append("\\u");
        push_hex4(out, n);
    } else {
        out.append("\\u");
        push_hex4(out, 0xd800 + (n - 0x10000) / 0x400);
        out.append("\\u");
        push_hex4(out, 0xdc00 + (n - 0x10000) % 0x400);
    }
    assert(out@ =~= before + unicode_escape(c));
}

fn push_char(out: &mut String, c: char, ascii: bool)
    ensures
        final(out)@ == old(out)@ + py_char(c, ascii),
{
    let ghost before = out@;
    let n: u32 = code_point(c);
    if c == '"' {
        out.append("\\\"");
    } else if c == '\\' {
        out.append("\\\\");
    } else if c == '\n' {
        out.append("\\n");
    } else if c == '\r' {
        out.append("\\r");
    } else if c == '\t' {
        out.append("\\t");
    } else if n == 8 {
        out.append("\\b");
    } else if n == 12 {
        out.append("\\f");
    } else if n < 0x20 {
        push_escape(out, c);
    } else if ascii && n > 0x7e {
        push_escape(out, c);
    } else {
        out.push(c);
        assert(out@ =~= before + seq![c]);
    }
}

/// Appends a quoted string; `ascii` escapes what is not ASCII.
fn push_text(out: &mut String, s: &str, ascii: bool)
    ensures
        final(out)@ == old(out)@ + py_text(s@, ascii),
{
    let ghost before = out@;
    let chars = to_chars(s);
    out.push('"');
    let mut i: usize = 0;
    assert(out@ =~= before + seq!['"'] + py_chars(s@, ascii, 0));
    while i < chars.len()
        invariant
            0 <= i <= chars@.len(),
            chars@ == s@,
            out@ == before + seq!['"'] + py_chars(s@, ascii, i as nat),
        decreases chars@.len() - i,
    {
        let c: char = chars[i];
        push_char(out, c, ascii);
        i += 1;
        assert(out@ =~= before + seq!['"'] + py_chars(s@, ascii, i as nat));
    }
    out.push('"');
    assert(out@ =~= before + py_text(s@, ascii));
}

/// A string as Python writes it.
pub fn py_string(s: &str, ascii: bool) -> (r: String)
    ensures
        r@ == py_text(s@, ascii),
{
    let mut out: String = String::new();
    push_text(&mut out, s, ascii);
    assert(out@ =~= py_text(s@, ascii));
    out
}

fn extend(out: &mut Vec<char>, v: &Vec<char>, a: usize, b: usize)
    requires
        a <= b <= v@.len(),
    ensures
        final(out)@ == old(out)@ + v@.subrange(a as int, b as int),
{
    let ghost before = out@;
    let mut i: usize = a;
    assert(out@ =~= before + v@.subrange(a as int, a as int));
    while i < b
        invariant
            a <= i <= b <= v@.len(),
            out@ == before + v@.subrange(a as int, i as int),
        decreases b - i,
    {
        out.push(v[i]);
        i += 1;
        assert(out@ =~= before + v@.subrange(a as int, i as int));
    }
}

fn find_exponent(chars: &Vec<char>) -> (r: usize)
    ensures
        r == exponent_at(chars@),
        r <= chars@.len(),
{
    let ghost sv = chars@;
    let mut i: usize = 0;
    assert(sv.skip(0) =~= sv);
    while i < chars.len() && chars[i] != 'e'
        invariant
            0 <= i <= chars@.len(),
            chars@ == sv,
            exponent_at(sv) == i + exponent_at(sv.skip(i as int)),
        decreases chars@.len() - i,
    {
        assert(sv.skip(i as int).drop_first() =~= sv.skip(i as int + 1));
        i += 1;
    }
    if i < chars.len() {
        assert(sv.skip(i as int)[0] == 'e');
    } else {
        assert(sv.skip(i as int).len() == 0);
    }
    i
}

/// Appends an exponent that starts at `k`.
fn push_exponent(out: &mut Vec<char>, chars: &Vec<char>, k: usize)
    requires
        k <= chars@.len(),
    ensures
        final(out)@ == old(out)@ + py_exponent(chars@.skip(k as int)),
{
    let ghost before = out@;
    let ghost e = chars@.skip(k as int);
    let len: usize = chars.len();
    if k < len && chars[k] == '-' {
        out.push('-');
        if len - k < 3 {
            out.push('0');
        }
        extend(out, chars, k + 1, len);
        assert(e.drop_first() =~= chars@.subrange(k as int + 1, len as int));
    } else {
        out.push('+');
        if len - k < 2 {
            out.push('0');
        }
        extend(out, chars, k, len);
        assert(e =~= chars@.subrange(k as int, len as int));
    }
    assert(out@ =~= before + py_exponent(e));
}

/// Rewrites the shortest text of a double the way Python prints it: no `.0`
/// before an exponent, and the exponent with its sign and two digits.
pub fn py_repr_of(s: &str) -> (r: String)
    ensures
        r@ == py_repr(s@),
{
    let chars = to_chars(s);
    let i: usize = find_exponent(&chars);
    if i == chars.len() {
        return s.to_owned();
    }
    let mut end: usize = i;
    if i >= 2 && chars[i - 2] == '.' && chars[i - 1] == '0' {
        end = i - 2;
    }
    assert(py_mantissa(s@.take(i as int)) =~= s@.take(end as int));
    let mut out: Vec<char> = Vec::new();
    extend(&mut out, &chars, 0, end);
    assert(out@ =~= s@.take(end as int));
    out.push('e');
    push_exponent(&mut out, &chars, i + 1);
    assert(out@ =~= py_repr(s@));
    from_chars(&out)
}

fn push_double(out: &mut String, bits: u64)
    ensures
        final(out)@ == old(out)@ + py_double(bits),
{
    if (bits / 0x10_0000_0000_0000) % 0x800 != 0x7ff {
        let s = debug_double(bits);
        out.append(py_repr_of(s.as_str()).as_str());
    } else if bits % 0x10_0000_0000_0000 != 0 {
        out.append("NaN");
    } else if bits < 0x8000_0000_0000_0000 {
        out.append("Infinity");
    } else {
        out.append("-Infinity");
    }
}

fn push_signed(out: &mut String, n: i64)
    ensures
        final(out)@ == old(out)@ + signed(n as int),
{
    let ghost before = out@;
    if n < 0 {
        out.push('-');
        let m: u64 = (-(n as i128)) as u64;
        push_decimal(out, m);
        assert(out@ =~= before + signed(n as int));
    } else {
        push_decimal(out, n as u64);
    }
}

fn push_value(out: &mut String, v: &Json, ascii: bool)
    ensures
        final(out)@ == old(out)@ + py_value(v@, ascii),
    decreases v,
{
    let ghost before = out@;
    match v {
        Json::Null => out.append("null"),
        Json::Bool(b) => {
            if *b {
                out.append("true");
            } else {
                out.append("false");
            }
        },
        Json::Uint(n) => push_decimal(out, *n),
        Json::Int(n) => push_signed(out, *n),
        Json::Float(bits) => push_double(out, *bits),
        Json::Str(s) => push_text(out, s.as_str(), ascii),
        Json::Array(a) => {
            let ghost av = v@->Array_0;
            out.push('[');
            let mut i: usize = 0;
            assert(out@ =~= before + seq!['['] + py_items(av, ascii, 0));
            while i < a.len()
                invariant
                    0 <= i <= a@.len(),
                    av.len() == a@.len(),
                    *v == Json::Array(*a),
                    v@ == JsonView::Array(av),
                    out@ == before + seq!['['] + py_items(av, ascii, i as nat),
                decreases a@.len() - i,
            {
                if i > 0 {
                    out.append(", ");
                }
                push_value(out, &a[i], ascii);
                i += 1;
                assert(out@ =~= before + seq!['['] + py_items(av, ascii, i as nat));
            }
            out.push(']');
            assert(out@ =~= before + py_value(v@, ascii));
        },
        Json::Object(m) => {
            let ghost mv = v@->Object_0;
            out.push('{');
            let mut i: usize = 0;
            assert(out@ =~= before + seq!['{'] + py_fields(mv, ascii, 0));
            while i < m.len()
                invariant
                    0 <= i <= m@.len(),
                    mv.len() == m@.len(),
                    *v == Json::Object(*m),
                    v@ == JsonView::Object(mv),
                    out@ == before + seq!['{'] + py_fields(mv, ascii, i as nat),
                decreases m@.len() - i,
            {
                let (k, x) = &m[i];
                if i > 0 {
                    out.append(", ");
                }
                push_text(out, k.as_str(), ascii);
                out.append(": ");
                push_value(out, x, ascii);
                i += 1;
                assert(out@ =~= before + seq!['{'] + py_fields(mv, ascii, i as nat));
            }
            out.push('}');
            assert(out@ =~= before + py_value(v@, ascii));
        },
    }
}

/// The value as `json.dumps` writes it; `ascii` escapes what is not ASCII.
pub fn py_json(v: &Json, ascii: bool) -> (r: String)
    ensures
        r@ == py_value(v@, ascii),
{
    let mut out: String = String::new();
    push_value(&mut out, v, ascii);
    assert(out@ =~= py_value(v@, ascii));
    out
}

proof fn escape_is_ascii(c: char, i: int)
    requires
        0 <= i < py_char(c, true).len(),
    ensures
        0x20 <= py_char(c, true)[i] as int <= 0x7e,
{
    reveal_strlit("\\\"");
    reveal_strlit("\\\\");
    reveal_strlit("\\n");
    reveal_strlit("\\r");
    reveal_strlit("\\t");
    reveal_strlit("\\b");
    reveal_strlit("\\f");
    reveal_strlit("\\u");
}

proof fn escapes_are_ascii(s: Seq<char>, n: nat, i: int)
    requires
        n <= s.len(),
        0 <= i < py_chars(s, true, n).len(),
    ensures
        0x20 <= py_chars(s, true, n)[i] as int <= 0x7e,
    decreases n,
{
    let k = py_chars(s, true, (n - 1) as nat).len();
    if i < k {
        escapes_are_ascii(s, (n - 1) as nat, i);
    } else {
        escape_is_ascii(s[n - 1], i - k);
    }
}

/// A string written with everything else escaped holds printable ASCII
/// characters only.
pub proof fn escaped_text_is_ascii(s: Seq<char>, i: int)
    requires
        0 <= i < py_text(s, true).len(),
    ensures
        0x20 <= py_text(s, true)[i] as int <= 0x7e,
{
    let inner = py_chars(s, true, s.len());
    if 0 < i <= inner.len() {
        escapes_are_ascii(s, s.len(), i - 1);
    }
}

/// A text without quotes, backslashes and control characters, and where only
/// ASCII is written without others, is written as it is between quotes.
pub proof fn plain_text_is_quoted_as_it_is(s: Seq<char>, ascii: bool)
    requires
        forall|i: int|
            0 <= i < s.len() ==> #[trigger] s[i] != '"' && s[i] != '\\' && s[i] as int >= 0x20 && (
            ascii ==> s[i] as int <= 0x7e),
    ensures
        py_text(s, ascii) == seq!['"'] + s + seq!['"'],
{
    plain_chars(s, ascii, s.len());
    assert(s.take(s.len() as int) =~= s);
}

proof fn plain_chars(s: Seq<char>, ascii: bool, n: nat)
    requires
        n <= s.len(),
        forall|i: int|
            0 <= i < s.len() ==> #[trigger] s[i] != '"' && s[i] != '\\' && s[i] as int >= 0x20 && (
            ascii ==> s[i] as int <= 0x7e),
    ensures
        py_chars(s, ascii, n) == s.take(n as int),
    decreases n,
{
    if n > 0 {
        plain_chars(s, ascii, (n - 1) as nat);
        assert(py_char(s[n - 1], ascii) == seq![s[n - 1]]);
        assert(s.take(n as int) =~= s.take(n - 1) + seq![s[n - 1]]);
    } else {
        assert(py_chars(s, ascii, 0) =~= s.take(0));
    }
}

/// Quotes and backslashes are written behind a backslash, the usual control
/// characters by their letters, and every escape takes more than one character.
pub proof fn special_characters_are_escaped(ascii: bool)
    ensures
        py_char('"', ascii) == seq!['\\', '"'],
        py_char('\\', ascii) == seq!['\\', '\\'],
        py_char('\n', ascii) == seq!['\\', 'n'],
        py_char('\r', ascii) == seq!['\\', 'r'],
        py_char('\t', ascii) == seq!['\\', 't'],
{
    reveal_strlit("\\\"");
    reveal_strlit("\\\\");
    reveal_strlit("\\n");
    reveal_strlit("\\r");
    reveal_strlit("\\t");
    assert("\\\""@ =~= seq!['\\', '"']);
    assert("\\\\"@ =~= seq!['\\', '\\']);
    assert("\\n"@ =~= seq!['\\', 'n']);
    assert("\\r"@ =~= seq!['\\', 'r']);
    assert("\\t"@ =~= seq!['\\', 't']);
}

/// What four hexadecimal digits stand for.
pub open spec fn hex_value(c: char) -> int {
    if c as int <= '9' as int {
        c as int - '0' as int
    } else {
        c as int - 'a' as int + 10
    }
}

/// Four hexadecimal digits read back as the number that they were written for.
pub proof fn four_digits_read_back(n: int)
    requires
        0 <= n < 0x10000,
    ensures
        hex4(n).len() == 4,
        n == 4096 * hex_value(hex4(n)[0]) + 256 * hex_value(hex4(n)[1]) + 16 * hex_value(hex4(n)[2])
            + hex_value(hex4(n)[3]),
{
    assert(0 <= n / 4096 < 16 && n / 4096 % 16 == n / 4096);
    assert(n == 4096 * (n / 4096) + 256 * (n / 256 % 16) + 16 * (n / 16 % 16) + n % 16);
}

/// A character is escaped by its code where that takes four digits, and by the
/// two halves of its pair where it takes more.
pub proof fn escapes_name_the_character(c: char)
    ensures
        (c as int) < 0x10000 ==> unicode_escape(c) == "\\u"@ + hex4(c as int),
        c as int >= 0x10000 ==> exists|high: int, low: int|
            unicode_escape(c) == "\\u"@ + #[trigger] hex4(high) + "\\u"@ + #[trigger] hex4(low)
                && 0xd800 <= high < 0xdc00 && 0xdc00 <= low < 0xe000 && c as int == 0x10000 + (high
                - 0xd800) * 0x400 + (low - 0xdc00),
{
    let n = c as int;
    if n >= 0x10000 {
        let high = 0xd800 + (n - 0x10000) / 0x400;
        let low = 0xdc00 + (n - 0x10000) % 0x400;
        assert(unicode_escape(c) == "\\u"@ + hex4(high) + "\\u"@ + hex4(low));
    }
}

/// Items and fields are written in order with a comma and a space between
/// neighbours, a field as its key, a colon, a space and its value.
pub proof fn lists_are_written_in_order(
    v: JsonView,
    w: JsonView,
    k: Seq<char>,
    l: Seq<char>,
    ascii: bool,
)
    ensures
        py_value(JsonView::Array(Seq::empty()), ascii) == seq!['[', ']'],
        py_value(JsonView::Array(seq![v]), ascii) == seq!['['] + py_value(v, ascii) + seq![']'],
        py_value(JsonView::Array(seq![v, w]), ascii) == seq!['['] + py_value(v, ascii) + seq![
            ',',
            ' ',
        ] + py_value(w, ascii) + seq![']'],
        py_value(JsonView::Object(Seq::empty()), ascii) == seq!['{', '}'],
        py_value(JsonView::Object(seq![(k, v)]), ascii) == seq!['{'] + py_text(k, ascii) + seq![
            ':',
            ' ',
        ] + py_value(v, ascii) + seq!['}'],
        py_value(JsonView::Object(seq![(k, v), (l, w)]), ascii) == seq!['{'] + py_text(k, ascii)
            + seq![':', ' '] + py_value(v, ascii) + seq![',', ' '] + py_text(l, ascii) + seq![
            ':',
            ' ',
        ] + py_value(w, ascii) + seq!['}'],
{
    reveal_strlit(", ");
    reveal_strlit(": ");
    assert(", "@ =~= seq![',', ' ']);
    assert(": "@ =~= seq![':', ' ']);
    let a1 = seq![v];
    let a2 = seq![v, w];
    let m1 = seq![(k, v)];
    let m2 = seq![(k, v), (l, w)];
    let none = Seq::<JsonView>::empty();
    let bare = Seq::<(Seq<char>, JsonView)>::empty();
    assert(py_items(none, ascii, 0).len() == 0);
    assert(py_fields(bare, ascii, 0).len() == 0);
    assert(py_items(a1, ascii, 0).len() == 0 && py_items(a2, ascii, 0).len() == 0);
    assert(py_fields(m1, ascii, 0).len() == 0 && py_fields(m2, ascii, 0).len() == 0);
    assert(py_items(a1, ascii, 1) =~= py_value(v, ascii));
    assert(py_items(a2, ascii, 1) =~= py_value(v, ascii));
    assert(py_items(a2, ascii, 2) =~= py_value(v, ascii) + seq![',', ' '] + py_value(w, ascii));
    assert(py_fields(m1, ascii, 1) =~= py_text(k, ascii) + seq![':', ' '] + py_value(v, ascii));
    assert(py_fields(m2, ascii, 1) =~= py_text(k, ascii) + seq![':', ' '] + py_value(v, ascii));
    assert(py_fields(m2, ascii, 2) =~= py_text(k, ascii) + seq![':', ' '] + py_value(v, ascii)
        + seq![',', ' '] + py_text(l, ascii) + seq![':', ' '] + py_value(w, ascii));
    assert(py_value(JsonView::Array(none), ascii) =~= seq!['[', ']']);
    assert(py_value(JsonView::Object(bare), ascii) =~= seq!['{', '}']);
    assert(py_value(JsonView::Object(m1), ascii) =~= seq!['{'] + py_text(k, ascii) + seq![':', ' ']
        + py_value(v, ascii) + seq!['}']);
    assert(py_value(JsonView::Object(m2), ascii) =~= seq!['{'] + py_text(k, ascii) + seq![':', ' ']
        + py_value(v, ascii) + seq![',', ' '] + py_text(l, ascii) + seq![':', ' '] + py_value(
        w,
        ascii,
    ) + seq!['}']);
    assert(py_value(JsonView::Array(a2), ascii) =~= seq!['['] + py_value(v, ascii) + seq![',', ' ']
        + py_value(w, ascii) + seq![']']);
}

/// Numbers are written in decimal with their sign, and the other values by
/// their names.
pub proof fn plain_values_are_written_by_name(n: u64, i: i64, ascii: bool)
    ensures
        py_value(JsonView::Null, ascii) == "null"@,
        py_value(JsonView::Bool(true), ascii) == "true"@,
        py_value(JsonView::Bool(false), ascii) == "false"@,
        py_value(JsonView::Uint(n), ascii) == decimal(n as nat),
        i >= 0 ==> py_value(JsonView::Int(i), ascii) == decimal(i as nat),
        i < 0 ==> py_value(JsonView::Int(i), ascii) == seq!['-'] + decimal((-i) as nat),
{
}

/// A number with an exponent is written with the exponent's sign and at least
/// two digits, and without a fraction that is zero; one without is written as
/// it is.
pub proof fn exponents_are_written_out(m: Seq<char>, e: Seq<char>)
    requires
        forall|i: int| 0 <= i < m.len() ==> #[trigger] m[i] != 'e',
        e.len() > 0,
        e[0] != '-',
    ensures
        py_repr(m) == m,
        ({
            let whole = if m.len() >= 2 && m[m.len() - 2] == '.' && m.last() == '0' {
                m.take(m.len() - 2)
            } else {
                m
            };
            &&& e.len() == 1 ==> py_repr(m + seq!['e'] + e) == whole + seq!['e', '+', '0'] + e
            &&& e.len() > 1 ==> py_repr(m + seq!['e'] + e) == whole + seq!['e', '+'] + e
            &&& e.len() == 1 ==> py_repr(m + seq!['e', '-'] + e) == whole + seq!['e', '-', '0'] + e
            &&& e.len() > 1 ==> py_repr(m + seq!['e', '-'] + e) == whole + seq!['e', '-'] + e
        }),
{
    exponent_is_at(m, m.len() as int);
    let a = m + seq!['e'] + e;
    let b = m + seq!['e', '-'] + e;
    let n = m.len() as int;
    exponent_is_at(a, n);
    exponent_is_at(b, n);
    assert(a.take(n) =~= m && b.take(n) =~= m);
    assert(a.skip(n + 1) =~= e);
    assert(b.skip(n + 1) =~= seq!['-'] + e);
    assert((seq!['-'] + e).drop_first() =~= e);
    let whole = py_mantissa(m);
    assert(e.len() == 1 ==> py_repr(a) =~= whole + seq!['e', '+', '0'] + e);
    assert(e.len() > 1 ==> py_repr(a) =~= whole + seq!['e', '+'] + e);
    assert(e.len() == 1 ==> py_repr(b) =~= whole + seq!['e', '-', '0'] + e);
    assert(e.len() > 1 ==> py_repr(b) =~= whole + seq!['e', '-'] + e);
}

proof fn exponent_is_at(s: Seq<char>, n: int)
    requires
        0 <= n <= s.len(),
        n < s.len() ==> s[n] == 'e',
        forall|i: int| 0 <= i < n ==> #[trigger] s[i] != 'e',
    ensures
        exponent_at(s) == n,
    decreases s.len(),
{
    if n > 0 {
        assert(s[0] != 'e');
        let rest = s.drop_first();
        assert forall|i: int| 0 <= i < n - 1 implies #[trigger] rest[i] != 'e' by {
            assert(rest[i] == s[i + 1]);
        }
        exponent_is_at(rest, n - 1);
    }
}

} // verus!

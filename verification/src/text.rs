//! Building text: decimal numbers and separated lists.

use vstd::prelude::*;
use vstd::string::StringExecFns;

verus! {

/// `String::push` appends one character at the end.
pub assume_specification[ String::push ](s: &mut String, c: char)
    ensures
        final(s)@ == old(s)@.push(c),
;

/// `str` equality (`<str as PartialEq>::eq`): both hold the same characters.
#[verifier::external_body]
pub(crate) fn same(a: &str, b: &str) -> (r: bool)
    ensures
        r == (a@ == b@),
{
    a == b
}

/// The character of a decimal digit.
pub open spec fn digit_char(d: int) -> char {
    ('0' as int + d) as char
}

/// A natural number in decimal, without leading zeros.
pub open spec fn decimal(n: nat) -> Seq<char>
    decreases n,
{
    if n < 10 {
        seq![digit_char(n as int)]
    } else {
        decimal(n / 10).push(digit_char((n % 10) as int))
    }
}

proof fn decimal_is_not_empty(n: nat)
    ensures
        decimal(n).len() > 0,
{
    if n >= 10 {
        assert(decimal(n).len() == decimal(n / 10).len() + 1);
    }
}

/// No two numbers have the same decimal text.
pub proof fn decimals_are_distinct(a: nat, b: nat)
    requires
        decimal(a) == decimal(b),
    ensures
        a == b,
    decreases a,
{
    let (x, y) = (decimal(a), decimal(b));
    if a >= 10 {
        decimal_is_not_empty(a / 10);
        assert(x.drop_last() =~= decimal(a / 10));
    }
    if b >= 10 {
        decimal_is_not_empty(b / 10);
        assert(y.drop_last() =~= decimal(b / 10));
    }
    assert(x.last() == digit_char((a % 10) as int));
    assert(y.last() == digit_char((b % 10) as int));
    if a >= 10 && b >= 10 {
        decimals_are_distinct(a / 10, b / 10);
    }
}

pub(crate) fn push_decimal(s: &mut String, n: u64)
    ensures
        final(s)@ == old(s)@ + decimal(n as nat),
    decreases n,
{
    let d: u8 = (n % 10) as u8;
    if n >= 10 {
        push_decimal(s, n / 10);
    }
    s.push((48u8 + d) as char);
}

/// `parts` one after the other with `sep` between neighbours.
pub open spec fn join(parts: Seq<Seq<char>>, sep: Seq<char>) -> Seq<char>
    decreases parts.len(),
{
    if parts.len() == 0 {
        Seq::empty()
    } else if parts.len() == 1 {
        parts[0]
    } else {
        join(parts.drop_last(), sep) + sep + parts.last()
    }
}

/// The texts of a list of strings.
pub open spec fn texts(v: Seq<String>) -> Seq<Seq<char>> {
    v.map_values(|s: String| s@)
}

/// `parts` joined with `sep`.
pub(crate) fn join_texts(parts: &Vec<String>, sep: &str) -> (r: String)
    ensures
        r@ == join(texts(parts@), sep@),
{
    let mut out: String = String::new();
    let ghost all = texts(parts@);
    let mut i: usize = 0;
    while i < parts.len()
        invariant
            0 <= i <= parts@.len(),
            all == texts(parts@),
            out@ == join(all.take(i as int), sep@),
        decreases parts@.len() - i,
    {
        proof {
            assert(all.take(i as int + 1).drop_last() =~= all.take(i as int));
            assert(all[i as int] == parts@[i as int]@);
        }
        if i > 0 {
            out.append(sep);
        }
        out.append(parts[i].as_str());
        i += 1;
    }
    proof {
        assert(all.take(i as int) =~= all);
    }
    out
}

pub(crate) fn concat2(a: &str, b: &str) -> (r: String)
    ensures
        r@ == a@ + b@,
{
    let mut s: String = a.to_owned();
    s.append(b);
    s
}

pub(crate) fn concat3(a: &str, b: &str, c: &str) -> (r: String)
    ensures
        r@ == a@ + b@ + c@,
{
    let mut s: String = a.to_owned();
    s.append(b);
    s.append(c);
    s
}

/// A list of numbers in brackets.
pub open spec fn list_text(v: Seq<usize>) -> Seq<char> {
    "["@ + join(v.map_values(|n: usize| decimal(n as nat)), ", "@) + "]"@
}

pub(crate) fn push_list(s: &mut String, v: &Vec<usize>)
    ensures
        final(s)@ == old(s)@ + list_text(v@),
{
    let mut parts: Vec<String> = Vec::new();
    let mut i: usize = 0;
    while i < v.len()
        invariant
            0 <= i <= v@.len(),
            parts@.len() == i,
            forall|j: int| 0 <= j < i ==> (#[trigger] parts@[j])@ == decimal(v@[j] as nat),
        decreases v@.len() - i,
    {
        let mut p: String = String::new();
        push_decimal(&mut p, v[i] as u64);
        assert(p@ =~= decimal(v@[i as int] as nat));
        parts.push(p);
        i += 1;
    }
    assert(texts(parts@) =~= v@.map_values(|n: usize| decimal(n as nat)));
    s.append("[");
    s.append(join_texts(&parts, ", ").as_str());
    s.append("]");
    assert(s@ =~= old(s)@ + list_text(v@));
}

/// A number in decimal.
pub(crate) fn number_text(n: usize) -> (r: String)
    ensures
        r@ == decimal(n as nat),
{
    let mut s: String = String::new();
    push_decimal(&mut s, n as u64);
    assert(s@ =~= decimal(n as nat));
    s
}

/// The characters of a text.
pub fn to_chars(s: &str) -> (r: Vec<char>)
    ensures
        r@ == s@,
{
    let mut out: Vec<char> = Vec::new();
    for c in it: s.chars()
        invariant
            out@ == it.seq().take(it.index() as int),
            it.seq() == s@,
    {
        out.push(c);
        assert(out@ =~= it.seq().take(it.index() as int + 1));
    }
    assert(out@ =~= s@);
    out
}

/// The text of characters.
pub fn from_chars(v: &Vec<char>) -> (r: String)
    ensures
        r@ == v@,
{
    let mut out: String = String::new();
    let mut i: usize = 0;
    while i < v.len()
        invariant
            0 <= i <= v@.len(),
            out@ == v@.take(i as int),
        decreases v@.len() - i,
    {
        out.push(v[i]);
        i += 1;
        assert(out@ =~= v@.take(i as int));
    }
    assert(out@ =~= v@);
    out
}

/// A text ends with another.
pub open spec fn ends_in(s: Seq<char>, end: Seq<char>) -> bool {
    end.len() <= s.len() && s.skip(s.len() - end.len()) == end
}

/// A text starts with another.
pub open spec fn starts_in(s: Seq<char>, start: Seq<char>) -> bool {
    start.len() <= s.len() && s.take(start.len() as int) == start
}

pub(crate) fn ends_with(s: &str, end: &str) -> (r: bool)
    ensures
        r == ends_in(s@, end@),
{
    let a = to_chars(s);
    let b = to_chars(end);
    if b.len() > a.len() {
        return false;
    }
    let len: usize = a.len();
    let off: usize = len - b.len();
    let mut i: usize = 0;
    while i < b.len()
        invariant
            0 <= i <= b@.len(),
            len == a@.len(),
            off == a@.len() - b@.len(),
            a@ == s@,
            b@ == end@,
            forall|j: int| 0 <= j < i ==> #[trigger] b@[j] == a@[off + j],
        decreases b@.len() - i,
    {
        if a[off + i] != b[i] {
            assert(s@.skip(off as int)[i as int] != end@[i as int]);
            return false;
        }
        i += 1;
    }
    assert(s@.skip(off as int) =~= end@);
    true
}

pub(crate) fn starts_with(s: &str, start: &str) -> (r: bool)
    ensures
        r == starts_in(s@, start@),
{
    let a = to_chars(s);
    let b = to_chars(start);
    if b.len() > a.len() {
        return false;
    }
    let mut i: usize = 0;
    while i < b.len()
        invariant
            0 <= i <= b@.len(),
            b@.len() <= a@.len(),
            a@ == s@,
            b@ == start@,
            forall|j: int| 0 <= j < i ==> #[trigger] b@[j] == a@[j],
        decreases b@.len() - i,
    {
        if a[i] != b[i] {
            assert(s@.take(b@.len() as int)[i as int] != start@[i as int]);
            return false;
        }
        i += 1;
    }
    assert(s@.take(b@.len() as int) =~= start@);
    true
}

/// `a` stands before `b`, or at the same place, in the order of texts: by the
/// first character that differs, the shorter first.
pub open spec fn text_le(a: Seq<char>, b: Seq<char>) -> bool
    decreases a.len(),
{
    if a.len() == 0 {
        true
    } else if b.len() == 0 {
        false
    } else if a[0] != b[0] {
        (a[0] as int) < (b[0] as int)
    } else {
        text_le(a.drop_first(), b.drop_first())
    }
}

proof fn text_le_total(a: Seq<char>, b: Seq<char>)
    ensures
        text_le(a, b) || text_le(b, a),
    decreases a.len(),
{
    if a.len() > 0 && b.len() > 0 && a[0] == b[0] {
        text_le_total(a.drop_first(), b.drop_first());
    }
}

proof fn text_le_transitive(a: Seq<char>, b: Seq<char>, c: Seq<char>)
    requires
        text_le(a, b),
        text_le(b, c),
    ensures
        text_le(a, c),
    decreases a.len(),
{
    if a.len() > 0 && b.len() > 0 && c.len() > 0 && a[0] == b[0] && b[0] == c[0] {
        text_le_transitive(a.drop_first(), b.drop_first(), c.drop_first());
    }
}

/// The number of a character.
pub(crate) fn code_point(c: char) -> (r: u32)
    ensures
        r == c as int,
{
    c as u32
}

fn text_before(a: &str, b: &str) -> (r: bool)
    ensures
        r == text_le(a@, b@),
{
    let x = to_chars(a);
    let y = to_chars(b);
    let mut i: usize = 0;
    assert(x@.skip(0) =~= x@);
    assert(y@.skip(0) =~= y@);
    while i < x.len() && i < y.len()
        invariant
            0 <= i <= x@.len(),
            i <= y@.len(),
            x@ == a@,
            y@ == b@,
            text_le(a@, b@) == text_le(x@.skip(i as int), y@.skip(i as int)),
        decreases x@.len() - i,
    {
        proof {
            assert(x@.skip(i as int)[0] == x@[i as int]);
            assert(y@.skip(i as int)[0] == y@[i as int]);
            assert(x@.skip(i as int).drop_first() =~= x@.skip(i as int + 1));
            assert(y@.skip(i as int).drop_first() =~= y@.skip(i as int + 1));
        }
        let cx: char = x[i];
        let cy: char = y[i];
        if cx != cy {
            let nx: u32 = code_point(cx);
            let ny: u32 = code_point(cy);
            return nx < ny;
        }
        i += 1;
    }
    i == x.len()
}

/// In the order of texts.
pub open spec fn in_order(v: Seq<Seq<char>>) -> bool {
    forall|i: int, j: int| 0 <= i <= j < v.len() ==> text_le(#[trigger] v[i], #[trigger] v[j])
}

/// Inserts a text into a list in order.
fn insert_text(v: &mut Vec<String>, s: String)
    requires
        in_order(texts(old(v)@)),
    ensures
        in_order(texts(final(v)@)),
        texts(final(v)@).to_multiset() == texts(old(v)@).to_multiset().insert(s@),
{
    let ghost before = texts(v@);
    let mut i: usize = 0;
    while i < v.len() && text_before(v[i].as_str(), s.as_str())
        invariant
            0 <= i <= v@.len(),
            before == texts(v@),
            forall|j: int| 0 <= j < i ==> text_le(#[trigger] before[j], s@),
        decreases v@.len() - i,
    {
        assert(before[i as int] == v@[i as int]@);
        i += 1;
    }
    proof {
        assert forall|j: int| i <= j < before.len() implies text_le(s@, #[trigger] before[j]) by {
            assert(before[i as int] == v@[i as int]@);
            text_le_total(s@, before[i as int]);
            text_le_transitive(s@, before[i as int], before[j]);
        }
    }
    v.insert(i, s);
    proof {
        let now = texts(v@);
        assert(now =~= before.insert(i as int, s@));
        vstd::seq_lib::to_multiset_insert(before, i as int, s@);
        assert forall|a: int, b: int| 0 <= a <= b < now.len() implies text_le(
            #[trigger] now[a],
            #[trigger] now[b],
        ) by {
            if a == b {
                text_le_total(now[a], now[a]);
            } else if b == i {
                assert(now[a] == before[a]);
            } else if a == i {
                assert(now[b] == before[b - 1]);
            } else {
                let x = if a < i {
                    a
                } else {
                    a - 1
                };
                let y = if b < i {
                    b
                } else {
                    b - 1
                };
                assert(now[a] == before[x] && now[b] == before[y]);
            }
        }
    }
}

/// The texts of a list in order.
pub fn sorted(v: &Vec<String>) -> (r: Vec<String>)
    ensures
        in_order(texts(r@)),
        texts(r@).to_multiset() == texts(v@).to_multiset(),
{
    let mut out: Vec<String> = Vec::new();
    let ghost all = texts(v@);
    let mut i: usize = 0;
    assert(all.take(0) =~= Seq::<Seq<char>>::empty());
    assert(texts(out@) =~= Seq::<Seq<char>>::empty());
    while i < v.len()
        invariant
            0 <= i <= v@.len(),
            all == texts(v@),
            in_order(texts(out@)),
            texts(out@).to_multiset() == all.take(i as int).to_multiset(),
        decreases v@.len() - i,
    {
        let s: String = v[i].clone();
        insert_text(&mut out, s);
        proof {
            assert(all.take(i as int + 1) =~= all.take(i as int).push(all[i as int]));
            vstd::seq_lib::to_multiset_build(all.take(i as int), all[i as int]);
        }
        i += 1;
    }
    assert(all.take(i as int) =~= all);
    out
}

/// `s` with every occurrence of `p`, found from the left without overlaps,
/// replaced by `t`; an empty `p` occurs around every character.
pub open spec fn replaced(s: Seq<char>, p: Seq<char>, t: Seq<char>) -> Seq<char>
    decreases s.len(),
{
    if p.len() == 0 {
        if s.len() == 0 {
            t
        } else {
            t + seq![s[0]] + replaced(s.drop_first(), p, t)
        }
    } else if s.len() == 0 {
        Seq::empty()
    } else if starts_in(s, p) {
        t + replaced(s.skip(p.len() as int), p, t)
    } else {
        seq![s[0]] + replaced(s.drop_first(), p, t)
    }
}

/// Whether `p` stands at place `i` of `s`.
fn stands_at(s: &Vec<char>, i: usize, p: &Vec<char>) -> (r: bool)
    requires
        i <= s@.len(),
    ensures
        r == starts_in(s@.skip(i as int), p@),
{
    let len: usize = s.len();
    if len - i < p.len() {
        return false;
    }
    let ghost rest = s@.skip(i as int);
    let mut j: usize = 0;
    while j < p.len()
        invariant
            0 <= j <= p@.len(),
            i + p@.len() <= s@.len(),
            len == s@.len(),
            rest == s@.skip(i as int),
            rest.take(j as int) == p@.take(j as int),
        decreases p@.len() - j,
    {
        if s[i + j] != p[j] {
            assert(rest[j as int] != p@[j as int]);
            assert(rest.take(p@.len() as int)[j as int] == rest[j as int]);
            return false;
        }
        j += 1;
        assert(rest.take(j as int) =~= p@.take(j as int));
    }
    assert(p@.take(j as int) =~= p@);
    true
}

/// Replaces every occurrence of `p` by `t`.
pub fn replace_all(s: &str, p: &str, t: &str) -> (r: String)
    ensures
        r@ == replaced(s@, p@, t@),
{
    let sc = to_chars(s);
    let pc = to_chars(p);
    let ghost sv = s@;
    let mut out: String = String::new();
    let mut i: usize = 0;
    assert(sv.skip(0) =~= sv);
    assert(out@ + replaced(sv, p@, t@) =~= replaced(sv, p@, t@));
    while i < sc.len()
        invariant
            0 <= i <= sc@.len(),
            sc@ == sv,
            pc@ == p@,
            out@ + replaced(sv.skip(i as int), p@, t@) == replaced(sv, p@, t@),
        decreases sc@.len() - i,
    {
        let ghost before = out@;
        let ghost rest = sv.skip(i as int);
        assert(rest.drop_first() =~= sv.skip(i as int + 1));
        if pc.len() == 0 {
            out.append(t);
            out.push(sc[i]);
            i += 1;
            assert(out@ =~= before + (t@ + seq![rest[0]]));
        } else if stands_at(&sc, i, &pc) {
            out.append(t);
            i += pc.len();
            assert(rest.skip(p@.len() as int) =~= sv.skip(i as int));
        } else {
            out.push(sc[i]);
            i += 1;
            assert(out@ =~= before + seq![rest[0]]);
        }
        assert(out@ + replaced(sv.skip(i as int), p@, t@) =~= before + replaced(rest, p@, t@));
    }
    assert(sv.skip(i as int).len() == 0);
    if pc.len() == 0 {
        out.append(t);
    }
    assert(out@ =~= replaced(sv, p@, t@));
    out
}

proof fn replaced_start(s: Seq<char>, p: Seq<char>, q: Seq<char>)
    requires
        p.len() > 0,
        forall|i: int| 0 <= i < q.len() ==> q[i] != ' ',
        starts_in(replaced(s, p, seq![' ']), q),
    ensures
        starts_in(s, q),
    decreases q.len(),
{
    let r = replaced(s, p, seq![' ']);
    if q.len() > 0 {
        assert(r[0] == r.take(q.len() as int)[0] && r[0] == q[0]);
        if !starts_in(s, p) {
            let rest = replaced(s.drop_first(), p, seq![' ']);
            assert(rest =~= r.drop_first());
            let q1 = q.drop_first();
            assert(rest.take(q1.len() as int) =~= r.take(q.len() as int).drop_first());
            replaced_start(s.drop_first(), p, q1);
            assert(s.take(q.len() as int) =~= seq![s[0]] + s.drop_first().take(q1.len() as int));
            assert(q =~= seq![q[0]] + q1);
        }
    } else {
        assert(s.take(0) =~= q);
    }
}

/// A text in which every occurrence of `p` was replaced by a space holds `p`
/// nowhere, when `p` is not empty and holds no space itself.
pub proof fn replaced_text_is_free(s: Seq<char>, p: Seq<char>, i: int)
    requires
        p.len() > 0,
        forall|j: int| 0 <= j < p.len() ==> p[j] != ' ',
        0 <= i <= replaced(s, p, seq![' ']).len(),
    ensures
        !starts_in(replaced(s, p, seq![' ']).skip(i), p),
    decreases s.len(),
{
    let t = seq![' '];
    let r = replaced(s, p, t);
    if s.len() > 0 {
        if starts_in(s, p) {
            let rest = replaced(s.skip(p.len() as int), p, t);
            if i == 0 {
                if starts_in(r.skip(0), p) {
                    assert(r.skip(0).take(p.len() as int)[0] == ' ');
                }
            } else {
                assert(r.skip(i) =~= rest.skip(i - 1));
                replaced_text_is_free(s.skip(p.len() as int), p, i - 1);
            }
        } else {
            let rest = replaced(s.drop_first(), p, t);
            if i == 0 {
                assert(r.skip(0) =~= r);
                if starts_in(r, p) {
                    replaced_start(s, p, p);
                }
            } else {
                assert(r.skip(i) =~= rest.skip(i - 1));
                replaced_text_is_free(s.drop_first(), p, i - 1);
            }
        }
    }
}

/// The text `s` is written as in Rust source: quoted, with escapes.
pub uninterp spec fn quoted(s: Seq<char>) -> Seq<char>;

/// `str`'s `Debug` formatting. What it writes is named [`quoted`].
#[verifier::external_body]
pub(crate) fn quote(s: &str) -> (r: String)
    ensures
        r@ == quoted(s@),
{
    format!("{s:?}")
}

/// A text that `p` stands nowhere in is kept as it is.
pub proof fn nothing_to_replace(s: Seq<char>, p: Seq<char>, t: Seq<char>)
    requires
        p.len() > 0,
        forall|i: int| 0 <= i <= s.len() ==> !starts_in(#[trigger] s.skip(i), p),
    ensures
        replaced(s, p, t) == s,
    decreases s.len(),
{
    if s.len() > 0 {
        assert(s.skip(0) =~= s);
        let rest = s.drop_first();
        assert forall|i: int| 0 <= i <= rest.len() implies !starts_in(#[trigger] rest.skip(i), p) by {
            assert(rest.skip(i) =~= s.skip(i + 1));
        }
        nothing_to_replace(rest, p, t);
        assert(seq![s[0]] + rest =~= s);
    }
}

/// What a text of decimal digits stands for.
pub open spec fn number_read(s: Seq<char>) -> nat
    decreases s.len(),
{
    if s.len() == 0 {
        0
    } else {
        (number_read(s.drop_last()) * 10 + (s.last() as int - '0' as int)) as nat
    }
}

/// A number's decimal text reads back as the number: it is made of digits
/// alone, and starts with a zero only for zero.
pub proof fn decimals_read_back(n: nat, i: int)
    requires
        0 <= i < decimal(n).len(),
    ensures
        number_read(decimal(n)) == n,
        '0' <= decimal(n)[i] <= '9',
        decimal(n)[0] == '0' ==> n == 0,
    decreases n,
{
    let s = decimal(n);
    if n < 10 {
        assert(s.drop_last() =~= Seq::empty());
        assert(number_read(s.drop_last()) == 0);
    } else {
        let t = decimal(n / 10);
        decimal_is_not_empty(n / 10);
        assert(s.drop_last() =~= t);
        decimals_read_back(n / 10, if i < t.len() { i } else { 0 });
        assert(s[0] == t[0]);
        assert(n == n / 10 * 10 + n % 10);
    }
}

/// Joined parts stand one after the other with the separator between
/// neighbours, and nothing else: a part more adds one separator and itself.
pub proof fn joined_parts_are_separated(parts: Seq<Seq<char>>, sep: Seq<char>, x: Seq<char>)
    ensures
        join(Seq::empty(), sep) == Seq::<char>::empty(),
        join(seq![x], sep) == x,
        parts.len() > 0 ==> join(parts.push(x), sep) == join(parts, sep) + sep + x,
        parts.len() > 0 ==> join(seq![x] + parts, sep) == x + sep + join(parts, sep),
    decreases parts.len(),
{
    assert(parts.push(x).drop_last() =~= parts);
    if parts.len() > 0 {
        let both = seq![x] + parts;
        assert(both.drop_last() =~= seq![x] + parts.drop_last());
        assert(both.last() == parts.last());
        if parts.len() == 1 {
            assert(join(both.drop_last(), sep) == x);
            assert(join(parts, sep) == parts.last());
            assert(join(both, sep) =~= x + sep + join(parts, sep));
        } else {
            joined_parts_are_separated(parts.drop_last(), sep, x);
            assert(join(both, sep) == join(both.drop_last(), sep) + sep + both.last());
            assert(join(both, sep) =~= x + sep + join(parts, sep));
        }
    }
}

/// One text comes before another by the first character in which they differ,
/// and a text comes before every text that it begins.
pub proof fn texts_are_ordered_by_their_first_difference(
    p: Seq<char>,
    a: Seq<char>,
    b: Seq<char>,
    x: char,
    y: char,
)
    requires
        x < y,
    ensures
        text_le(p, p + a),
        a.len() > 0 ==> !text_le(p + a, p),
        text_le(p + seq![x] + a, p + seq![y] + b),
        !text_le(p + seq![y] + b, p + seq![x] + a),
    decreases p.len(),
{
    if p.len() > 0 {
        let q = p.drop_first();
        texts_are_ordered_by_their_first_difference(q, a, b, x, y);
        assert((p + a).drop_first() =~= q + a);
        assert((p + seq![x] + a).drop_first() =~= q + seq![x] + a);
        assert((p + seq![y] + b).drop_first() =~= q + seq![y] + b);
    } else {
        assert((p + seq![x] + a)[0] == x);
        assert((p + seq![y] + b)[0] == y);
        if a.len() > 0 {
            assert((p + a)[0] == a[0]);
        }
    }
}

} // verus!

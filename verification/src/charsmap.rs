//! The character table of a precompiled normalizer: its base64 text, the
//! double array the text holds and the replacements that its keys lead to.

use vstd::prelude::*;

verus! {

/// The number a base64 digit stands for, 64 for another character.
pub open spec fn digit(c: char) -> u32 {
    if 'A' <= c && c <= 'Z' {
        (c as u32 - 65) as u32
    } else if 'a' <= c && c <= 'z' {
        (c as u32 - 71) as u32
    } else if '0' <= c && c <= '9' {
        (c as u32 + 4) as u32
    } else if c == '+' {
        62
    } else if c == '/' {
        63
    } else {
        64
    }
}

fn digit_of(c: char) -> (r: u32)
    ensures
        r == digit(c),
        r <= 64,
{
    if 'A' <= c && c <= 'Z' {
        c as u32 - 65
    } else if 'a' <= c && c <= 'z' {
        c as u32 - 71
    } else if '0' <= c && c <= '9' {
        c as u32 + 4
    } else if c == '+' {
        62
    } else if c == '/' {
        63
    } else {
        64
    }
}

/// The bytes of four base64 characters. Only the last group may be padded, and
/// then its last digit has no bits that no byte takes.
pub open spec fn group(s: Seq<char>, last: bool) -> Option<Seq<u8>> {
    let (a, b, c, d) = (digit(s[0]), digit(s[1]), digit(s[2]), digit(s[3]));
    let first = (a * 4 + b / 16) as u8;
    let second = (b % 16 * 16 + c / 4) as u8;
    let third = (c % 4 * 64 + d) as u8;
    if a == 64 || b == 64 {
        None
    } else if last && s[2] == '=' && s[3] == '=' {
        if b % 16 == 0 {
            Some(seq![first])
        } else {
            None
        }
    } else if c == 64 {
        None
    } else if last && s[3] == '=' {
        if c % 4 == 0 {
            Some(seq![first, second])
        } else {
            None
        }
    } else if d == 64 {
        None
    } else {
        Some(seq![first, second, third])
    }
}

/// The bytes that base64 text stands for: the standard digits, padded to whole
/// groups. Nothing for another text.
pub open spec fn decoded(s: Seq<char>) -> Option<Seq<u8>>
    decreases s.len(),
{
    if s.len() == 0 {
        Some(Seq::empty())
    } else if s.len() < 4 {
        None
    } else {
        match (group(s, s.len() == 4), decoded(s.skip(4))) {
            (Some(g), Some(rest)) => Some(g + rest),
            _ => None,
        }
    }
}

/// The bytes that base64 text stands for.
pub fn decode(s: &Vec<char>) -> (r: Option<Vec<u8>>)
    ensures
        match r {
            Some(v) => decoded(s@) == Some(v@),
            None => decoded(s@) is None,
        },
{
    let mut out: Vec<u8> = Vec::new();
    let mut i: usize = 0;
    assert(s@.skip(0) =~= s@);
    proof {
        if decoded(s@) is Some {
            assert(out@ + decoded(s@)->0 =~= decoded(s@)->0);
        }
    }
    while i < s.len()
        invariant
            0 <= i <= s@.len(),
            decoded(s@) == (match decoded(s@.skip(i as int)) {
                Some(rest) => Some(out@ + rest),
                None => None::<Seq<u8>>,
            }),
        decreases s@.len() - i,
    {
        let ghost rest = s@.skip(i as int);
        let ghost before = out@;
        if s.len() - i < 4 {
            return None;
        }
        let last = s.len() - i == 4;
        let (a, b): (u32, u32) = (digit_of(s[i]), digit_of(s[i + 1]));
        let (c, d): (u32, u32) = (digit_of(s[i + 2]), digit_of(s[i + 3]));
        assert(rest[0] == s@[i as int] && rest[1] == s@[i + 1] && rest[2] == s@[i + 2] && rest[3]
            == s@[i + 3]);
        assert(rest.skip(4) =~= s@.skip(i as int + 4));
        if a == 64 || b == 64 {
            return None;
        }
        out.push((a * 4 + b / 16) as u8);
        if last && s[i + 2] == '=' && s[i + 3] == '=' {
            if b % 16 != 0 {
                return None;
            }
        } else if c == 64 {
            return None;
        } else {
            out.push((b % 16 * 16 + c / 4) as u8);
            if last && s[i + 3] == '=' {
                if c % 4 != 0 {
                    return None;
                }
            } else if d == 64 {
                return None;
            } else {
                out.push((c % 4 * 64 + d) as u8);
            }
        }
        i += 4;
        proof {
            let g = group(rest, last);
            assert(g is Some);
            assert(out@ =~= before + g->0);
            if decoded(rest.skip(4)) is Some {
                assert(before + (g->0 + decoded(rest.skip(4))->0) =~= out@ + decoded(
                    rest.skip(4),
                )->0);
            }
        }
    }
    assert(s@.skip(i as int).len() == 0);
    assert(out@ + Seq::<u8>::empty() =~= out@);
    Some(out)
}

/// The little-endian number at a place of the bytes.
pub open spec fn word(b: Seq<u8>, at: int) -> u32 {
    (b[at] + b[at + 1] * 256 + b[at + 2] * 65536 + b[at + 3] * 16777216) as u32
}

fn word_at(b: &Vec<u8>, at: usize) -> (r: u32)
    requires
        at + 4 <= b.len(),
    ensures
        r == word(b@, at as int),
{
    b[at] as u32 + b[at + 1] as u32 * 256 + b[at + 2] as u32 * 65536 + b[at + 3] as u32 * 16777216
}

/// How many units the double array has: the first number gives its bytes.
pub open spec fn unit_count(b: Seq<u8>) -> int {
    word(b, 0) as int / 4
}

/// A unit of the double array.
pub open spec fn unit(b: Seq<u8>, p: int) -> u32 {
    word(b, 4 + 4 * p)
}

/// Where the replacements begin.
pub open spec fn texts_at(b: Seq<u8>) -> int {
    4 + 4 * unit_count(b)
}

/// The bytes are those of a table: the double array is whole, and what follows
/// it is text.
pub open spec fn is_table(b: Seq<u8>) -> bool {
    &&& b.len() >= 4
    &&& texts_at(b) <= b.len()
    &&& vstd::utf8::valid_utf8(b.skip(texts_at(b)))
}

/// `std::str::from_utf8`: whether bytes are UTF-8.
#[verifier::external_body]
fn is_text(b: &[u8]) -> (r: bool)
    ensures
        r == vstd::utf8::valid_utf8(b@),
{
    std::str::from_utf8(b).is_ok()
}

/// Whether the bytes are those of a table.
pub fn table(b: &Vec<u8>) -> (r: bool)
    ensures
        r == is_table(b@),
{
    if b.len() < 4 {
        return false;
    }
    let n: u32 = word_at(b, 0) / 4;
    if (b.len() - 4) / 4 < n as usize {
        return false;
    }
    let texts: usize = 4 + 4 * n as usize;
    let rest = vstd::slice::slice_subrange(b.as_slice(), texts, b.len());
    assert(rest@ =~= b@.skip(texts_at(b@)));
    is_text(rest)
}

/// A unit that holds a value and stands for no byte of a key.
pub open spec fn holds_value(u: u32) -> bool {
    u & 0x8000_0000 != 0
}

/// The value a unit holds.
pub open spec fn value(u: u32) -> u32 {
    u & 0x7fff_ffff
}

/// A key ends at the unit.
pub open spec fn ends_key(u: u32) -> bool {
    u & 0x100 != 0
}

/// How far a unit's successors are from it.
pub open spec fn offset(u: u32) -> u32 {
    if u & 0x200 != 0 {
        (u >> 10) << 8
    } else {
        u >> 10
    }
}

fn offset_of(u: u32) -> (r: u32)
    ensures
        r == offset(u),
{
    if u & 0x200 != 0 {
        (u >> 10) << 8
    } else {
        u >> 10
    }
}

/// The unit a search stands on once it has read the unit `p`; the next byte of
/// the key is mixed into its lowest bits.
pub open spec fn successor(b: Seq<u8>, p: int) -> u32 {
    (p as u32) ^ offset(unit(b, p))
}

/// A replacement can be read from here: the place is within the replacements
/// and does not split a character.
pub open spec fn starts_text(b: Seq<u8>, v: u32) -> bool {
    let at = texts_at(b) + v;
    at == b.len() || (at < b.len() && b[at] & 0xc0 != 0x80)
}

/// A search that has read the unit `p` stays within the array whatever byte
/// comes next, and a key that ends there leads to a replacement.
pub open spec fn unit_is_sound(b: Seq<u8>, p: int) -> bool {
    let to = successor(b, p);
    p == 0 || !holds_value(unit(b, p)) ==> {
        &&& (to | 0xff) < unit_count(b)
        &&& ends_key(unit(b, p)) ==> starts_text(b, value(unit(b, to as int)))
    }
}

/// No search in the table can leave it: there is a first unit, and every unit
/// a key can pass is sound.
pub open spec fn is_sound(b: Seq<u8>) -> bool {
    &&& b.len() >= 4
    &&& 0 < unit_count(b)
    &&& texts_at(b) <= b.len()
    &&& forall|p: int| 0 <= p < unit_count(b) ==> #[trigger] unit_is_sound(b, p)
}

proof fn within_its_block(to: u32, c: u8)
    ensures
        to ^ (c as u32) <= (to | 0xff),
        to <= (to | 0xff),
{
    assert(to ^ (c as u32) <= (to | 0xff)) by (bit_vector);
    assert(to <= (to | 0xff)) by (bit_vector);
}

/// A search in a sound table stays in it: from the first unit, or from a unit
/// that stands for a byte, every next byte leads to a unit of the array.
pub proof fn no_byte_leaves_a_sound_table(b: Seq<u8>, p: int, c: u8)
    requires
        is_sound(b),
        0 <= p < unit_count(b),
        p == 0 || !holds_value(unit(b, p)),
    ensures
        successor(b, p) ^ (c as u32) < unit_count(b),
{
    assert(unit_is_sound(b, p));
    within_its_block(successor(b, p), c);
}

/// Whether no search in the table can leave it.
pub fn sound(b: &Vec<u8>) -> (r: bool)
    ensures
        r == is_sound(b@),
{
    if b.len() < 4 {
        return false;
    }
    let n: u32 = word_at(b, 0) / 4;
    if n == 0 || (b.len() - 4) / 4 < n as usize {
        return false;
    }
    let texts: usize = 4 + 4 * n as usize;
    let mut p: u32 = 0;
    while p < n
        invariant
            4 <= b@.len(),
            0 <= p <= n,
            n == unit_count(b@),
            texts == texts_at(b@),
            texts <= b@.len(),
            forall|q: int| 0 <= q < p ==> #[trigger] unit_is_sound(b@, q),
        decreases n - p,
    {
        let u: u32 = word_at(b, 4 + 4 * p as usize);
        assert(u == unit(b@, p as int));
        if p == 0 || u & 0x8000_0000 == 0 {
            let to: u32 = p ^ offset_of(u);
            assert(to == successor(b@, p as int));
            if (to | 0xff) >= n {
                assert(!unit_is_sound(b@, p as int));
                return false;
            }
            proof {
                within_its_block(to, 0);
            }
            if u & 0x100 != 0 {
                let w: u32 = word_at(b, 4 + 4 * to as usize);
                assert(w == unit(b@, to as int));
                let v: u32 = w & 0x7fff_ffff;
                let left: usize = b.len() - texts;
                if v as usize > left || ((v as usize) < left && b[texts + v as usize] & 0xc0
                    == 0x80) {
                    assert(!unit_is_sound(b@, p as int));
                    return false;
                }
            }
        }
        assert(unit_is_sound(b@, p as int));
        p += 1;
    }
    true
}

/// The digits of the encoding are the capitals, the small letters, the figures
/// and two signs, in this order.
pub proof fn digits_are_the_alphabet(i: int)
    requires
        0 <= i < 62,
    ensures
        i < 52 ==> digit(crate::readout::LABELS@[i]) == i,
        52 <= i ==> digit((('0' as int) + i - 52) as char) == i,
        digit('+') == 62,
        digit('/') == 63,
        digit('=') == 64,
        digit('-') == 64,
{
    if i < 52 {
        crate::readout::labels_are_letters(i);
    }
}

/// Four digits stand for three bytes, six bits each with the highest first; two
/// or three with padding behind them for one or two.
pub proof fn four_digits_are_three_bytes(s: Seq<char>, last: bool)
    requires
        s.len() >= 4,
        digit(s[0]) < 64,
        digit(s[1]) < 64,
    ensures
        digit(s[2]) < 64 && digit(s[3]) < 64 ==> group(s, last) is Some && ({
            let b = group(s, last)->0;
            &&& b.len() == 3
            &&& b[0] * 65536 + b[1] * 256 + b[2] == digit(s[0]) * 262144 + digit(s[1]) * 4096
                + digit(s[2]) * 64 + digit(s[3])
        }),
        last && digit(s[2]) < 64 && s[3] == '=' && digit(s[2]) % 4 == 0 ==> group(s, last) is Some
            && ({
            let b = group(s, last)->0;
            &&& b.len() == 2
            &&& b[0] * 65536 + b[1] * 256 == digit(s[0]) * 262144 + digit(s[1]) * 4096 + digit(s[2])
                * 64
        }),
        last && s[2] == '=' && s[3] == '=' && digit(s[1]) % 16 == 0 ==> group(s, last) is Some && ({
            let b = group(s, last)->0;
            &&& b.len() == 1
            &&& b[0] * 65536 == digit(s[0]) * 262144 + digit(s[1]) * 4096
        }),
        !last && (s[2] == '=' || s[3] == '=') ==> group(s, last) is None,
{
    let (a, b, c, d) = (digit(s[0]), digit(s[1]), digit(s[2]), digit(s[3]));
    assert(a * 4 + b / 16 < 256);
    assert(b % 16 * 16 + c / 4 < 256 || c == 64);
    assert(c % 4 * 64 + d < 256 || d == 64);
    assert(digit('=') == 64);
}

/// Groups of four digits are decoded one after the other.
pub proof fn groups_are_decoded_in_order(s: Seq<char>, t: Seq<char>)
    requires
        s.len() == 4,
        t.len() > 0,
        group(s, false) is Some,
        decoded(t) is Some,
    ensures
        decoded(s + t) == Some(group(s, false)->0 + decoded(t)->0),
        decoded(Seq::empty()) == Some(Seq::<u8>::empty()),
{
    assert((s + t).skip(4) =~= t);
    assert(group(s + t, false) == group(s, false));
}

} // verus!

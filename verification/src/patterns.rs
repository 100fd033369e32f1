//! What the characters of a regular expression show of it: that it compiles
//! and searches without a construct that can panic, and that it matches no
//! empty text.

use vstd::prelude::*;

verus! {

/// What may follow a backslash: classes, word boundaries, white space, a code
/// point, or punctuation that stands for itself. No back reference, no named
/// group, no escape that moves the start of a match or ties it to the last.
pub open spec fn known_escape(c: char) -> bool {
    ||| c == 's' || c == 'S' || c == 'd' || c == 'D' || c == 'w' || c == 'W'
    ||| c == 'n' || c == 'r' || c == 't' || c == 'u' || c == 'p' || c == 'P' || c == 'b' || c == 'B'
    ||| ('!' <= c && c <= '/') || (':' <= c && c <= '@') || ('[' <= c && c <= '`') || ('{' <= c && c
        <= '~')
}

fn escape_known(c: char) -> (r: bool)
    ensures
        r == known_escape(c),
{
    c == 's' || c == 'S' || c == 'd' || c == 'D' || c == 'w' || c == 'W' || c == 'n' || c == 'r' || c
        == 't' || c == 'u' || c == 'p' || c == 'P' || c == 'b' || c == 'B' || ('!' <= c && c <= '/')
        || (':' <= c && c <= '@') || ('[' <= c && c <= '`') || ('{' <= c && c <= '~')
}

/// What may follow the opening of a group and a question mark: no name, the
/// case ignored, or an assertion.
pub open spec fn known_group(s: Seq<char>, i: int) -> bool {
    &&& i < s.len()
    &&& {
        ||| s[i] == ':' || s[i] == '=' || s[i] == '!'
        ||| i + 1 < s.len() && s[i] == 'i' && s[i + 1] == ':'
        ||| i + 1 < s.len() && s[i] == '<' && (s[i + 1] == '=' || s[i + 1] == '!')
    }
}

fn group_known(s: &Vec<char>, i: usize) -> (r: bool)
    ensures
        r == known_group(s@, i as int),
{
    if i >= s.len() {
        return false;
    }
    if s[i] == ':' || s[i] == '=' || s[i] == '!' {
        return true;
    }
    if s.len() - i < 2 {
        return false;
    }
    (s[i] == 'i' && s[i + 1] == ':') || (s[i] == '<' && (s[i + 1] == '=' || s[i + 1] == '!'))
}

/// From the place on, every escape and every marked group is a known one.
pub open spec fn plain_from(s: Seq<char>, i: int) -> bool
    decreases s.len() - i,
{
    if i < 0 || i >= s.len() {
        true
    } else if s[i] == '\\' {
        i + 1 < s.len() && known_escape(s[i + 1]) && plain_from(s, i + 2)
    } else if s[i] == '(' && i + 1 < s.len() && s[i + 1] == '?' {
        known_group(s, i + 2) && plain_from(s, i + 2)
    } else {
        plain_from(s, i + 1)
    }
}

/// Every escape and every marked group of a pattern is a known one.
pub open spec fn runs_plainly(s: Seq<char>) -> bool {
    plain_from(s, 0)
}

/// Whether every escape and every marked group of a pattern is a known one.
pub fn plainly(s: &Vec<char>) -> (r: bool)
    ensures
        r == runs_plainly(s@),
{
    let mut i: usize = 0;
    while i < s.len()
        invariant
            0 <= i <= s@.len(),
            runs_plainly(s@) == plain_from(s@, i as int),
        decreases s@.len() - i,
    {
        if s[i] == '\\' {
            if s.len() - i < 2 || !escape_known(s[i + 1]) {
                return false;
            }
            i += 2;
        } else if s[i] == '(' && s.len() - i >= 2 && s[i + 1] == '?' {
            if !group_known(s, i + 2) {
                return false;
            }
            i += 2;
        } else {
            i += 1;
        }
    }
    true
}

/// How many digits follow from the place on.
pub open spec fn digits_from(s: Seq<char>, i: int) -> nat
    decreases s.len() - i,
{
    if i < 0 || i >= s.len() {
        0
    } else if '0' <= s[i] && s[i] <= '9' {
        1 + digits_from(s, i + 1)
    } else {
        digits_from(s, i + 1)
    }
}

fn digits(s: &Vec<char>) -> (r: usize)
    ensures
        r == digits_from(s@, 0),
{
    let mut n: usize = 0;
    let mut i: usize = 0;
    while i < s.len()
        invariant
            0 <= i <= s@.len(),
            n <= i,
            n + digits_from(s@, i as int) == digits_from(s@, 0),
        decreases s@.len() - i,
    {
        if '0' <= s[i] && s[i] <= '9' {
            n += 1;
        }
        i += 1;
    }
    n
}

/// The longest pattern that is compiled.
pub const LONGEST: usize = 4096;

/// The most digits of a pattern that is compiled, so that its repetitions
/// multiply to a number.
pub const MOST_DIGITS: usize = 6;

/// A pattern that can be compiled: of known escapes and groups, not too long
/// and without repetitions that multiply beyond all numbers.
pub open spec fn compiles(s: Seq<char>) -> bool {
    s.len() <= LONGEST && digits_from(s, 0) <= MOST_DIGITS && runs_plainly(s)
}

/// Whether a pattern can be compiled.
pub fn compilable(s: &Vec<char>) -> (r: bool)
    ensures
        r == compiles(s@),
{
    s.len() <= LONGEST && digits(s) <= MOST_DIGITS && plainly(s)
}

/// Where a reader of a pattern stands.
#[derive(Clone, Copy, PartialEq, Eq, Structural)]
pub enum Inside {
    /// Between the parts of a pattern.
    Nothing,
    /// In a class of characters.
    Class,
    /// In the name of a property.
    Name,
}

/// An escape that takes a character: no word boundary, no code point.
pub open spec fn takes_one(c: char) -> bool {
    known_escape(c) && c != 'b' && c != 'B' && c != '<' && c != '>' && c != 'u'
}

fn taking(c: char) -> (r: bool)
    ensures
        r == takes_one(c),
{
    escape_known(c) && c != 'b' && c != 'B' && c != '<' && c != '>' && c != 'u'
}

/// From the place on, a pattern takes a character in each of its alternatives:
/// `fresh` where the one it stands in has taken none so far. No repetition
/// that may be empty, no assertion in a group of its own, no class in a class.
pub open spec fn takes_from(s: Seq<char>, i: int, inside: Inside, fresh: bool) -> bool
    decreases s.len() - i,
{
    if i < 0 || i >= s.len() {
        inside == Inside::Nothing && !fresh
    } else {
        let c = s[i];
        match inside {
            Inside::Class => if c == '\\' {
                i + 1 < s.len() && takes_from(s, i + 2, inside, fresh)
            } else if c == '[' {
                false
            } else if c == ']' {
                takes_from(s, i + 1, Inside::Nothing, false)
            } else {
                takes_from(s, i + 1, inside, fresh)
            },
            Inside::Name => if c == '}' {
                takes_from(s, i + 1, Inside::Nothing, false)
            } else {
                takes_from(s, i + 1, inside, fresh)
            },
            Inside::Nothing => if c == '\\' {
                if i + 1 >= s.len() {
                    false
                } else if s[i + 1] == 'b' || s[i + 1] == 'B' {
                    takes_from(s, i + 2, inside, fresh)
                } else if s[i + 1] == 'p' || s[i + 1] == 'P' {
                    i + 2 < s.len() && s[i + 2] == '{' && takes_from(s, i + 3, Inside::Name, fresh)
                } else {
                    takes_one(s[i + 1]) && takes_from(s, i + 2, inside, false)
                }
            } else if c == '[' {
                if i + 1 < s.len() && s[i + 1] == '^' {
                    i + 2 < s.len() && s[i + 2] != ']' && takes_from(s, i + 2, Inside::Class, fresh)
                } else {
                    i + 1 < s.len() && s[i + 1] != ']' && takes_from(s, i + 1, Inside::Class, fresh)
                }
            } else if c == '(' {
                if i + 2 < s.len() && s[i + 1] == '?' && s[i + 2] == ':' {
                    takes_from(s, i + 3, inside, true)
                } else {
                    takes_from(s, i + 1, inside, true)
                }
            } else if c == ')' || c == '+' {
                !fresh && takes_from(s, i + 1, inside, false)
            } else if c == '|' {
                !fresh && takes_from(s, i + 1, inside, true)
            } else if c == '{' {
                !fresh && i + 1 < s.len() && '1' <= s[i + 1] && s[i + 1] <= '9' && takes_from(
                    s,
                    i + 1,
                    inside,
                    false,
                )
            } else if c == '*' || c == '?' {
                false
            } else if c == '^' || c == '$' {
                takes_from(s, i + 1, inside, fresh)
            } else {
                takes_from(s, i + 1, inside, false)
            },
        }
    }
}

/// A regular expression that matches no empty text, as far as its characters
/// show.
pub open spec fn never_empty(s: Seq<char>) -> bool {
    takes_from(s, 0, Inside::Nothing, true)
}

/// Whether the characters of a regular expression show that it matches no
/// empty text.
pub fn nonempty_pattern(s: &Vec<char>) -> (r: bool)
    ensures
        r == never_empty(s@),
{
    let n: usize = s.len();
    let mut i: usize = 0;
    let mut inside: Inside = Inside::Nothing;
    let mut fresh: bool = true;
    while i < n
        invariant
            n == s@.len(),
            0 <= i <= n,
            never_empty(s@) == takes_from(s@, i as int, inside, fresh),
        decreases n - i,
    {
        let c: char = s[i];
        match inside {
            Inside::Class => {
                if c == '[' {
                    return false;
                }
                if c == ']' {
                    inside = Inside::Nothing;
                    fresh = false;
                    i += 1;
                } else if c != '\\' {
                    i += 1;
                } else if n - i < 2 {
                    return false;
                } else {
                    i += 2;
                }
            },
            Inside::Name => {
                if c == '}' {
                    inside = Inside::Nothing;
                    fresh = false;
                }
                i += 1;
            },
            Inside::Nothing => {
                if c == '\\' {
                    if n - i < 2 {
                        return false;
                    }
                    let e: char = s[i + 1];
                    if e == 'p' || e == 'P' {
                        if n - i < 3 || s[i + 2] != '{' {
                            return false;
                        }
                        inside = Inside::Name;
                        i += 3;
                    } else {
                        if e != 'b' && e != 'B' {
                            if !taking(e) {
                                return false;
                            }
                            fresh = false;
                        }
                        i += 2;
                    }
                } else if c == '[' {
                    let skip: usize = if n - i >= 2 && s[i + 1] == '^' {
                        2
                    } else {
                        1
                    };
                    if n - i <= skip || s[i + skip] == ']' {
                        return false;
                    }
                    inside = Inside::Class;
                    i += skip;
                } else if c == '(' {
                    fresh = true;
                    i += if n - i >= 3 && s[i + 1] == '?' && s[i + 2] == ':' {
                        3
                    } else {
                        1
                    };
                } else if c == '*' || c == '?' {
                    return false;
                } else if c == '^' || c == '$' {
                    i += 1;
                } else {
                    let mark = c == ')' || c == '+' || c == '|' || c == '{';
                    if mark && fresh {
                        return false;
                    }
                    if c == '{' && (n - i < 2 || s[i + 1] < '1' || s[i + 1] > '9') {
                        return false;
                    }
                    fresh = c == '|';
                    i += 1;
                }
            },
        }
    }
    inside == Inside::Nothing && !fresh
}

} // verus!

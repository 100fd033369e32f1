//! Text to token ids: what the prompt builders ask of a tokenizer, the
//! vocabulary of a checkpoint, and keeping caller text from forging a control
//! token.

use vstd::prelude::*;
use vstd::string::StringExecFns;

use tokenizers::Tokenizer;

use crate::backend::Token;
use crate::error::{Error, ErrorView, LoadError};
use crate::json::{parsed, read_json, unread};
use crate::parts::{can_cut, can_encode, cuts, encodes};
use crate::text::{concat2, quote, quoted, to_chars};
use crate::tokenizer_file::{can_read, named_once, readable_value};

verus! {

/// The tokenizer the prompt builders need: text to ids, no special tokens. A
/// text always gives the same ids, so a model that draws its merges at random
/// (dropout) cannot stand behind it.
pub trait Tokenize {
    /// The ids of a text.
    closed spec fn ids(&self, text: Seq<char>) -> Seq<u32> {
        arbitrary()
    }

    fn encode(&self, text: &str) -> (r: Vec<u32>)
        ensures
            r@ == self.ids(text@),
    ;
}

/// Put after a `<` that could open a control token.
pub const BREAK: char = '\u{200c}';

/// A character that makes a `<` before it look like the start of a control
/// token.
pub open spec fn opens_tag(c: char) -> bool {
    ('a' <= c && c <= 'z') || ('A' <= c && c <= 'Z') || c == '|' || c == '/'
}

/// `s` with a zero-width non-joiner after every `<` that could open a control
/// token.
pub open spec fn neutralized(s: Seq<char>) -> Seq<char>
    decreases s.len(),
{
    if s.len() == 0 {
        Seq::empty()
    } else if s[0] == '<' && s.len() > 1 && opens_tag(s[1]) {
        seq![s[0], BREAK] + neutralized(s.drop_first())
    } else {
        seq![s[0]] + neutralized(s.drop_first())
    }
}

/// Breaks `<name>`-style control-token surface forms in caller text. A
/// tokenizer matches added tokens anywhere in the text, so a zero-width
/// non-joiner after `<` keeps caller text from forging a delimiter.
pub fn neutralize_specials(text: &str) -> (r: String)
    ensures
        r@ == neutralized(text@),
{
    let chars = to_chars(text);
    let ghost s = text@;
    let mut out: String = String::new();
    let mut i: usize = 0;
    assert(s.skip(0) =~= s);
    assert(out@ + neutralized(s) =~= neutralized(s));
    while i < chars.len()
        invariant
            0 <= i <= chars@.len(),
            chars@ == s,
            out@ + neutralized(s.skip(i as int)) == neutralized(s),
        decreases chars@.len() - i,
    {
        let ghost before = out@;
        let ghost rest = s.skip(i as int);
        assert(rest.drop_first() =~= s.skip(i as int + 1));
        let c: char = chars[i];
        out.push(c);
        if c == '<' && i + 1 < chars.len() {
            let n: char = chars[i + 1];
            if ('a' <= n && n <= 'z') || ('A' <= n && n <= 'Z') || n == '|' || n == '/' {
                out.push(BREAK);
            }
        }
        i += 1;
        assert(out@ + neutralized(s.skip(i as int)) =~= before + neutralized(rest));
    }
    assert(s.skip(i as int).len() == 0);
    assert(out@ + neutralized(s.skip(i as int)) =~= out@);
    out
}

/// Neutralized text holds no `<` right before a character that could open a
/// control token.
pub proof fn no_tag_survives(s: Seq<char>, i: int)
    requires
        0 <= i,
        i + 1 < neutralized(s).len(),
        neutralized(s)[i] == '<',
    ensures
        !opens_tag(neutralized(s)[i + 1]),
    decreases s.len(),
{
    let r = neutralized(s);
    let rest = neutralized(s.drop_first());
    if s[0] == '<' && s.len() > 1 && opens_tag(s[1]) {
        if i == 0 {
            assert(r[1] == BREAK);
        } else if i >= 2 {
            assert(r[i] == rest[i - 2]);
            no_tag_survives(s.drop_first(), i - 2);
        }
    } else {
        if i == 0 {
            assert(r[1] == rest[0]);
            assert(s.drop_first()[0] == s[1]);
            assert(rest[0] == s[1]);
        } else {
            assert(r[i] == rest[i - 1]);
            no_tag_survives(s.drop_first(), i - 1);
        }
    }
}

/// Text without its zero-width non-joiners.
pub open spec fn unbroken(s: Seq<char>) -> Seq<char>
    decreases s.len(),
{
    if s.len() == 0 {
        Seq::empty()
    } else if s[0] == BREAK {
        unbroken(s.drop_first())
    } else {
        seq![s[0]] + unbroken(s.drop_first())
    }
}

/// Nothing but zero-width non-joiners is added: without them, neutralized
/// text is the text.
pub proof fn nothing_else_is_added(s: Seq<char>)
    ensures
        unbroken(neutralized(s)) == unbroken(s),
    decreases s.len(),
{
    if s.len() > 0 {
        nothing_else_is_added(s.drop_first());
        let rest = neutralized(s.drop_first());
        let r = neutralized(s);
        if s[0] == '<' && s.len() > 1 && opens_tag(s[1]) {
            assert(r.drop_first() =~= seq![BREAK] + rest);
            assert(r.drop_first().drop_first() =~= rest);
            reveal_with_fuel(unbroken, 3);
        } else {
            assert(r.drop_first() =~= rest);
        }
    }
}

/// Neutralizing twice changes nothing more.
pub proof fn neutral_text_stays(s: Seq<char>)
    ensures
        neutralized(neutralized(s)) == neutralized(s),
    decreases s.len(),
{
    if s.len() > 0 {
        neutral_text_stays(s.drop_first());
        let rest = neutralized(s.drop_first());
        let r = neutralized(s);
        reveal_with_fuel(neutralized, 3);
        if s[0] == '<' && s.len() > 1 && opens_tag(s[1]) {
            assert(r.drop_first() =~= seq![BREAK] + rest);
            assert(r.drop_first().drop_first() =~= rest);
            assert(neutralized(seq![BREAK] + rest) =~= seq![BREAK] + rest);
            assert(neutralized(r) =~= r);
        } else {
            assert(r.drop_first() =~= rest);
            if s.len() > 1 {
                assert(s.drop_first()[0] == s[1]);
                assert(rest[0] == s[1]);
            }
            assert(neutralized(r) =~= r);
        }
    }
}

/// The tokenizer that the bytes of a `tokenizer.json` describe; nothing where
/// they describe none.
pub uninterp spec fn tokenizer_in(bytes: Seq<u8>) -> Option<Tokenizer>;

/// `Tokenizer::from_bytes` of a `tokenizer.json`: the tokenizer it describes,
/// or the message of the error. Which message is left open: where several
/// fields of a model are missing, one of them is named, in the order of a hash
/// set. The call panics on text that breaks off or goes wrong inside the
/// decoder, on a character table that does not unpack, on a merge that is
/// shorter than the prefix it loses or longer than every token, and where an
/// added token is rewritten by a normalizer that fails on it, and it runs out
/// of stack on a piece of great length; `can_read` shuts all of these out, and
/// every regular expression with an escape or a group that is not plain. A part
/// that is named twice is read both times, so it is shut out too.
#[verifier::external_body]
fn tokenizer_from_bytes(bytes: &[u8]) -> (r: Result<Tokenizer, String>)
    requires
        can_read(bytes@),
    ensures
        match r {
            Ok(t) => tokenizer_in(bytes@) == Some(t),
            Err(_) => tokenizer_in(bytes@) is None,
        },
{
    Tokenizer::from_bytes(bytes).map_err(|e| e.to_string())
}

/// Why a `tokenizer.json` is not made a tokenizer though it is JSON.
pub const UNREADABLE: &'static str = "tokenizer.json: the tokenizer cannot be read";

/// How an error of a `tokenizer.json` reads.
pub open spec fn file_fault(message: Seq<char>) -> Seq<char> {
    "tokenizer.json: "@ + message
}

/// Reads the bytes of a `tokenizer.json`: the tokenizer it describes, or why
/// there is none. One that cannot be read safely is refused.
pub fn read_tokenizer(bytes: &[u8]) -> (r: Result<Tokenizer, LoadError>)
    ensures
        can_read(bytes@) ==> match r {
            Ok(t) => tokenizer_in(bytes@) == Some(t),
            Err(e) => tokenizer_in(bytes@) is None && exists|m: Seq<char>|
                e@ == #[trigger] file_fault(m),
        },
        !can_read(bytes@) ==> r is Err && r->Err_0@ == (if parsed(bytes@) is None {
            unread(bytes@, "tokenizer.json"@)
        } else {
            UNREADABLE@
        }),
{
    let v = match read_json(bytes, "tokenizer.json") {
        Ok(v) => v,
        Err(e) => {
            return Err(e);
        },
    };
    if !named_once(bytes) || !readable_value(&v) {
        return Err(LoadError::of(UNREADABLE));
    }
    match tokenizer_from_bytes(bytes) {
        Ok(t) => Ok(t),
        Err(m) => {
            let e = LoadError::new(concat2("tokenizer.json: ", m.as_str()));
            assert(e@ == file_fault(m@));
            Err(e)
        },
    }
}

/// The tokens of a tokenizer's vocabulary, added ones and the model's, with
/// their ids.
pub uninterp spec fn vocabulary_of(t: Tokenizer) -> Map<Seq<char>, u32>;

/// `Tokenizer::token_to_id`: the id of a token of the vocabulary, nothing for
/// another text.
#[verifier::external_body]
pub(crate) fn token_to_id(t: &Tokenizer, token: &str) -> (r: Option<u32>)
    ensures
        match r {
            Some(id) => vocabulary_of(*t).contains_key(token@) && vocabulary_of(*t)[token@] == id,
            None => !vocabulary_of(*t).contains_key(token@),
        },
{
    t.token_to_id(token)
}

/// What encoding a text comes to: its ids, or the message of an error.
pub type Outcome = Result<Seq<u32>, Seq<char>>;

/// An encoding or its error as sequences.
pub open spec fn outcome(r: Result<Vec<u32>, String>) -> Outcome {
    match r {
        Ok(ids) => Ok(ids@),
        Err(m) => Err(m@),
    }
}

/// The texts a tokenizer can be given without special tokens, each with every
/// outcome it can have.
pub uninterp spec fn encodings_of(t: Tokenizer) -> Set<(Seq<char>, Result<Seq<u32>, Seq<char>>)>;

/// `Tokenizer::encode` without special tokens, and the ids of the encoding or
/// the error's message. The outcome is one that the text can have; which one
/// is left open, since a model with dropout draws its merges at random. The
/// call panics where an encoding has to be cut into pieces that do not advance
/// or padded to a length that no memory holds, where a unigram model draws its
/// pieces, where two added tokens want the same white space or one is looked
/// for by nothing, where a fixed length is zero, where a character table leads
/// out of itself, where a normalizer inserts text at an empty match or prepends
/// nothing and another rewrites the result, where a regular expression starts a
/// match after its end, and where a template is given other than one encoding
/// or two or asks for a second text; `can_encode` shuts all of these out, and
/// every regular expression with an escape or a group that is not plain.
#[verifier::external_body]
fn encode_plain(t: &Tokenizer, text: &str) -> (r: Result<Vec<u32>, String>)
    requires
        can_encode(*t),
    ensures
        encodings_of(*t).contains((text@, outcome(r))),
{
    match t.encode(text, false) {
        Ok(e) => Ok(e.get_ids().to_vec()),
        Err(e) => Err(e.to_string()),
    }
}

/// Ids as the engine's tokens.
pub open spec fn as_tokens(ids: Seq<u32>) -> Seq<Token> {
    ids.map_values(|i: u32| Token(i as i32))
}

/// What tokenizing a text comes to, given the outcome of its encoding.
pub open spec fn tokenized(o: Outcome, r: Result<Vec<Token>, Error>) -> bool {
    match (o, r) {
        (Ok(ids), Ok(t)) => t@ == as_tokens(ids),
        (Err(m), Err(e)) => e@ == ErrorView::Backend("tokenize: "@ + m),
        _ => false,
    }
}

/// The tokens of an encoding, or its error.
pub fn tokens_of(encoded: Result<Vec<u32>, String>) -> (r: Result<Vec<Token>, Error>)
    ensures
        tokenized(outcome(encoded), r),
{
    match encoded {
        Ok(ids) => {
            let mut out: Vec<Token> = Vec::new();
            let mut i: usize = 0;
            while i < ids.len()
                invariant
                    0 <= i <= ids@.len(),
                    out@ == as_tokens(ids@.take(i as int)),
                decreases ids@.len() - i,
            {
                out.push(Token(ids[i] as i32));
                i += 1;
                assert(out@ =~= as_tokens(ids@.take(i as int)));
            }
            assert(ids@.take(i as int) =~= ids@);
            Ok(out)
        },
        Err(m) => Err(Error::Backend(concat2("tokenize: ", m.as_str()))),
    }
}

/// Why a tokenizer that cannot cut an encoding is not asked for one.
pub const UNCUT: &'static str = "tokenize: the truncation stride is not below the truncation length";

/// Why a tokenizer that could fail on some text is not asked for an encoding.
pub const UNSOUND: &'static str = "tokenize: the tokenizer has settings that fail on some texts";

/// Why a tokenizer is not asked for an encoding.
pub open spec fn refusal(t: Tokenizer) -> Seq<char> {
    if can_cut(t) {
        UNSOUND@
    } else {
        UNCUT@
    }
}

/// Tokenizes caller text: nothing for an empty text, else an outcome of
/// encoding the text with its control-token forms broken up. A tokenizer that
/// cannot encode every text is not asked.
pub fn tokenize(t: &Tokenizer, text: &str) -> (r: Result<Vec<Token>, Error>)
    ensures
        text@.len() == 0 ==> r is Ok && r->Ok_0@ == Seq::<Token>::empty(),
        text@.len() > 0 && can_encode(*t) ==> exists|o: Outcome|
            encodings_of(*t).contains((neutralized(text@), o)) && #[trigger] tokenized(o, r),
        text@.len() > 0 && !can_encode(*t) ==> r is Err && r->Err_0@ == ErrorView::Backend(
            refusal(*t),
        ),
{
    if text.unicode_len() == 0 {
        return Ok(Vec::new());
    }
    if !cuts(t) {
        return Err(Error::Backend(UNCUT.to_owned()));
    }
    if !encodes(t) {
        return Err(Error::Backend(UNSOUND.to_owned()));
    }
    let safe = neutralize_specials(text);
    let encoded = encode_plain(t, safe.as_str());
    let ghost o = outcome(encoded);
    let r = tokens_of(encoded);
    assert(tokenized(o, r));
    r
}

/// The token under a name of the vocabulary.
pub fn special(t: &Tokenizer, name: &str) -> (r: Result<Token, Error>)
    ensures
        match r {
            Ok(id) => vocabulary_of(*t).contains_key(name@) && id == Token(
                vocabulary_of(*t)[name@] as i32,
            ),
            Err(e) => !vocabulary_of(*t).contains_key(name@) && e@ == ErrorView::Backend(
                quoted(name@) + " is not a token in this vocabulary"@,
            ),
        },
{
    match token_to_id(t, name) {
        Some(id) => Ok(Token(id as i32)),
        None => Err(
            Error::Backend(
                concat2(quote(name).as_str(), " is not a token in this vocabulary"),
            ),
        ),
    }
}

/// The ids an outcome holds, none for an error.
pub open spec fn ids_or_none(o: Outcome) -> Seq<u32> {
    match o {
        Ok(ids) => ids,
        Err(_) => Seq::empty(),
    }
}

/// The ids of a text as a prompt builder takes them: none where the tokenizer
/// fails or cannot encode every text.
pub fn encode_or_nothing(t: &Tokenizer, text: &str) -> (r: Vec<u32>)
    ensures
        can_encode(*t) ==> exists|o: Outcome|
            encodings_of(*t).contains((text@, o)) && r@ == #[trigger] ids_or_none(o),
        !can_encode(*t) ==> r@.len() == 0,
{
    if !encodes(t) {
        return Vec::new();
    }
    let encoded = encode_plain(t, text);
    let ghost o = outcome(encoded);
    let r = match encoded {
        Ok(ids) => ids,
        Err(_) => Vec::new(),
    };
    assert(r@ =~= ids_or_none(o));
    r
}

} // verus!

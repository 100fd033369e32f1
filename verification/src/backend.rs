//! The only contract an inference engine has to satisfy.
//!
//! There is no `generate`. A backend tokenizes text, evaluates a shared prefix
//! plus isolated branches, and hands back either the logits or the final
//! hidden state at the positions the readout asked for.

use vstd::prelude::*;

use crate::engine::Limits;
use crate::error::{Error, ErrorView};

verus! {

/// A vocabulary id in the backend's tokenizer.
#[derive(Debug, Clone, Copy, PartialEq, Eq, Hash, Structural)]
pub struct Token(pub i32);

/// What the readout needs from each requested position.
#[derive(Debug, Clone, Copy, PartialEq, Eq, Structural)]
pub enum Want {
    /// Full-vocabulary logits (label readout).
    Logits,
    /// Final-norm hidden state, `n_embd` wide (pointer readout).
    Hidden,
}

/// Where the backend got the state from.
#[derive(Debug, Clone, Copy, PartialEq, Eq, Structural)]
pub enum PrefixSource {
    Resident,
    Ram,
    Disk,
    Decoded,
}

impl PrefixSource {
    pub fn as_str(&self) -> (r: &'static str)
        ensures
            r@ == (match *self {
                PrefixSource::Resident => "resident"@,
                PrefixSource::Ram => "ram"@,
                PrefixSource::Disk => "disk"@,
                PrefixSource::Decoded => "decoded"@,
            }),
    {
        match self {
            PrefixSource::Resident => "resident",
            PrefixSource::Ram => "ram",
            PrefixSource::Disk => "disk",
            PrefixSource::Decoded => "decoded",
        }
    }
}

/// One question branch, already tokenized. Positions are branch-relative and
/// the backend assigns absolute positions `prefix_len + i` so every branch
/// looks like "state, then this question" to the model.
#[derive(Debug, Clone)]
pub struct BranchTokens {
    pub tokens: Vec<Token>,
    /// Branch-relative indices whose output the readout wants, ascending.
    pub want: Vec<usize>,
}

/// A branch's tokens and wanted places as sequences.
#[verifier::ext_equal]
pub struct BranchTokensView {
    pub tokens: Seq<Token>,
    pub want: Seq<usize>,
}

impl View for BranchTokens {
    type V = BranchTokensView;

    open spec fn view(&self) -> BranchTokensView {
        BranchTokensView { tokens: self.tokens@, want: self.want@ }
    }
}

/// Rows returned for one branch, in the order of [`BranchTokens::want`]; every
/// number as the bit pattern of its single-precision value.
#[derive(Debug, Clone)]
pub struct BranchOutput {
    pub rows: Vec<Vec<u32>>,
}

/// One request of a shared pass: a prefix and the branches on top of it.
#[derive(Debug)]
pub struct Group<'a> {
    pub prefix: &'a Vec<Token>,
    pub branches: &'a Vec<BranchTokens>,
}

/// Groups as the prefix and the branches of each.
pub open spec fn group_views(gs: Seq<Group<'_>>) -> Seq<(Seq<Token>, Seq<BranchTokens>)> {
    gs.map_values(|g: Group<'_>| (g.prefix@, g.branches@))
}

/// What a shared pass gave for one of its requests.
#[derive(Debug)]
pub struct GroupOutput {
    pub branches: Vec<BranchOutput>,
    /// Where the request's prefix came from.
    pub prefix_source: Option<PrefixSource>,
}

pub trait Backend {
    /// What [`Backend::tokenize`] makes of a text.
    closed spec fn text_tokens(&self, text: Seq<char>) -> Result<Seq<Token>, ErrorView> {
        arbitrary()
    }

    /// What [`Backend::special`] makes of a surface form.
    closed spec fn special_token(&self, name: Seq<char>) -> Result<Token, ErrorView> {
        arbitrary()
    }

    /// What [`Backend::bos`] is.
    closed spec fn bos_token(&self) -> Token {
        arbitrary()
    }

    /// A call of [`Backend::evaluate`] on this backend can return `r` and leave
    /// the backend as `after`.
    closed spec fn evaluates(
        &self,
        prefix: Seq<Token>,
        branches: Seq<BranchTokens>,
        want: Want,
        r: Result<Vec<BranchOutput>, Error>,
        after: &Self,
    ) -> bool {
        arbitrary()
    }

    /// A call of [`Backend::evaluate_many`] on this backend can return `r` and
    /// leave the backend as `after`; a group is a prefix with its branches.
    closed spec fn evaluates_many(
        &self,
        groups: Seq<(Seq<Token>, Seq<BranchTokens>)>,
        want: Want,
        r: Result<Vec<GroupOutput>, Error>,
        after: &Self,
    ) -> bool {
        arbitrary()
    }

    /// What [`Backend::limits`] says.
    closed spec fn pass_limits(&self) -> Limits {
        arbitrary()
    }

    /// What [`Backend::prefix_source`] says.
    closed spec fn last_source(&self) -> Option<PrefixSource> {
        arbitrary()
    }

    /// Tokenize caller text. Never adds BOS and never emits control tokens for
    /// text that merely looks like one. A text always gives the same tokens, so
    /// a tokenizer that draws its merges at random (dropout) cannot stand
    /// behind it.
    fn tokenize(&self, text: &str) -> (r: Result<Vec<Token>, Error>)
        ensures
            match r {
                Ok(v) => self.text_tokens(text@) == Ok::<Seq<Token>, ErrorView>(v@),
                Err(e) => self.text_tokens(text@) == Err::<Seq<Token>, ErrorView>(e@),
            },
    ;

    /// Look up a control / special token by its surface form.
    fn special(&self, name: &str) -> (r: Result<Token, Error>)
        ensures
            match r {
                Ok(t) => self.special_token(name@) == Ok::<Token, ErrorView>(t),
                Err(e) => self.special_token(name@) == Err::<Token, ErrorView>(e@),
            },
    ;

    /// Beginning-of-sequence token.
    fn bos(&self) -> (r: Token)
        ensures
            r == self.bos_token(),
    ;

    /// Width of a hidden-state row.
    fn n_embd(&self) -> usize;

    /// Vocabulary size (width of a logits row).
    fn n_vocab(&self) -> usize;

    /// Evaluate `prefix` once, then every branch on top of it, isolated from
    /// each other, in as few passes as the engine allows (ideally one).
    fn evaluate(&mut self, prefix: &[Token], branches: &[BranchTokens], want: Want) -> (r: Result<
        Vec<BranchOutput>,
        Error,
    >)
        ensures
            old(self).evaluates(prefix@, branches@, want, r, &*final(self)),
    ;

    /// Evaluate several requests in one pass, one output per request in order.
    fn evaluate_many(&mut self, groups: &Vec<Group<'_>>, want: Want) -> (r: Result<
        Vec<GroupOutput>,
        Error,
    >)
        ensures
            old(self).evaluates_many(group_views(groups@), want, r, &*final(self)),
    ;

    /// What one pass takes.
    fn limits(&self) -> (r: Limits)
        ensures
            r == self.pass_limits(),
    ;

    /// Where the prefix of the last evaluation came from.
    fn prefix_source(&self) -> (r: Option<PrefixSource>)
        ensures
            r == self.last_source(),
    ;
}

} // verus!

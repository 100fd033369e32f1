//! Several requests in one decode: which goes first, which sequence ids each
//! gets, what goes into the batches, and where the rows go back to.

use vstd::prelude::*;
use vstd::string::StringExecFns;

use crate::backend::{BranchOutput, BranchTokens, PrefixSource, Token};
use crate::engine::branch_token_sum;
use crate::error::{Error, ErrorView};
use crate::llama::same_tokens;
use crate::text::{decimal, push_decimal};

verus! {

/// One request of a decode: a prefix and its branches.
#[derive(Debug)]
pub struct Group {
    pub prefix: Vec<Token>,
    pub branches: Vec<BranchTokens>,
}

/// The sequence ids a group takes: one for the prefix, one per branch.
pub open spec fn group_sequences(g: Group) -> nat {
    1 + g.branches@.len()
}

/// The tokens of a group.
pub open spec fn group_tokens(g: Group) -> nat {
    g.prefix@.len() + branch_token_sum(g.branches@, g.branches@.len())
}

/// The sequence ids of the first `n` groups.
pub open spec fn sequences_upto(gs: Seq<Group>, n: nat) -> nat
    decreases n,
{
    if n == 0 {
        0
    } else {
        sequences_upto(gs, (n - 1) as nat) + group_sequences(gs[n - 1])
    }
}

/// The tokens of the first `n` groups.
pub open spec fn tokens_upto(gs: Seq<Group>, n: nat) -> nat
    decreases n,
{
    if n == 0 {
        0
    } else {
        tokens_upto(gs, (n - 1) as nat) + group_tokens(gs[n - 1])
    }
}

/// The first group whose prefix is the resident one, the first of all where
/// none is.
pub open spec fn first_group(gs: Seq<Group>, resident: Option<Seq<Token>>, n: nat) -> nat
    decreases n,
{
    if n == 0 {
        0
    } else {
        let f = first_group(gs, resident, (n - 1) as nat);
        if f < n - 1 && resident == Some(gs[f as int].prefix@) {
            f
        } else if resident == Some(gs[n - 1].prefix@) {
            (n - 1) as nat
        } else {
            0
        }
    }
}

/// All of `n` with `first` in front.
pub open spec fn order_from(first: nat, n: nat) -> Seq<usize> {
    Seq::new(
        n,
        |k: int|
            if k == 0 {
                first as usize
            } else if k <= first {
                (k - 1) as usize
            } else {
                k as usize
            },
    )
}

/// Where the sequence ids of the first `n` groups of an order end.
pub open spec fn base_of(gs: Seq<Group>, order: Seq<usize>, n: nat) -> nat
    decreases n,
{
    if n == 0 {
        0
    } else {
        base_of(gs, order, (n - 1) as nat) + group_sequences(gs[order[n - 1] as int])
    }
}

/// Why groups cannot be decoded together, if they cannot.
pub open spec fn groups_fault(gs: Seq<Group>, n_seq_max: nat, n_ctx: nat) -> Option<ErrorView> {
    let seqs = sequences_upto(gs, gs.len());
    let total = tokens_upto(gs, gs.len());
    if gs.len() == 0 {
        Some(ErrorView::Backend("empty request"@))
    } else if seqs > n_seq_max {
        Some(
            ErrorView::Backend(
                decimal(seqs) + " sequences ("@ + decimal(gs.len())
                    + " groups) exceed n_seq_max "@ + decimal(n_seq_max),
            ),
        )
    } else if total > n_ctx {
        Some(ErrorView::Backend(decimal(total) + " tokens exceed n_ctx "@ + decimal(n_ctx)))
    } else {
        None
    }
}

/// How groups are laid out: their order, and the first sequence id of each in
/// that order.
#[derive(Debug)]
pub struct Layout {
    pub order: Vec<usize>,
    pub bases: Vec<usize>,
    /// One past the last sequence id.
    pub next: usize,
}

/// Whether the resident prefix is this one.
fn is_resident(resident: &Option<Vec<Token>>, prefix: &Vec<Token>) -> (r: bool)
    ensures
        r == (match *resident {
            Some(p) => p@ == prefix@,
            None => false,
        }),
{
    match resident {
        Some(p) => same_tokens(p, prefix),
        None => false,
    }
}

/// The resident prefix as a sequence.
pub open spec fn resident_view(resident: Option<Vec<Token>>) -> Option<Seq<Token>> {
    match resident {
        Some(p) => Some(p@),
        None => None,
    }
}

proof fn totals_grow(gs: Seq<Group>, i: nat, n: nat)
    requires
        i <= n <= gs.len(),
    ensures
        sequences_upto(gs, i) <= sequences_upto(gs, n),
        tokens_upto(gs, i) <= tokens_upto(gs, n),
    decreases n - i,
{
    if i < n {
        totals_grow(gs, i + 1, n);
    }
}

proof fn token_sums_grow(b: Seq<BranchTokens>, i: nat, n: nat)
    requires
        i <= n <= b.len(),
    ensures
        branch_token_sum(b, i) <= branch_token_sum(b, n),
    decreases n - i,
{
    if i < n {
        token_sums_grow(b, i + 1, n);
    }
}

fn tokens_in(g: &Group) -> (r: usize)
    requires
        group_tokens(*g) <= usize::MAX,
    ensures
        r == group_tokens(*g),
{
    let mut n: usize = g.prefix.len();
    let mut i: usize = 0;
    while i < g.branches.len()
        invariant
            0 <= i <= g.branches@.len(),
            group_tokens(*g) <= usize::MAX,
            n == g.prefix@.len() + branch_token_sum(g.branches@, i as nat),
        decreases g.branches@.len() - i,
    {
        proof {
            token_sums_grow(g.branches@, (i + 1) as nat, g.branches@.len());
        }
        n += g.branches[i].tokens.len();
        i += 1;
    }
    n
}

proof fn base_from(gs: Seq<Group>, first: nat, k: nat)
    requires
        first < gs.len() <= usize::MAX,
        0 < k <= gs.len(),
    ensures
        base_of(gs, order_from(first, gs.len()), k) == if k <= first {
            sequences_upto(gs, (k - 1) as nat) + group_sequences(gs[first as int])
        } else {
            sequences_upto(gs, k)
        },
    decreases k,
{
    let order = order_from(first, gs.len());
    reveal_with_fuel(base_of, 2);
    if k > 1 {
        base_from(gs, first, (k - 1) as nat);
        if k == first + 1 {
            assert(order[k - 1] == k - 2);
        }
    } else if first == 0 {
        reveal_with_fuel(sequences_upto, 2);
    }
}

/// Lays groups out: the one whose prefix is resident first, in sequence 0, the
/// others behind it in their order, each with a run of sequence ids of its
/// own.
pub fn lay_groups(
    groups: &Vec<Group>,
    resident: &Option<Vec<Token>>,
    n_seq_max: usize,
    n_ctx: usize,
) -> (r: Result<Layout, Error>)
    requires
        sequences_upto(groups@, groups@.len()) <= usize::MAX,
        tokens_upto(groups@, groups@.len()) <= usize::MAX,
    ensures
        match r {
            Ok(l) => {
                let first = first_group(groups@, resident_view(*resident), groups@.len());
                &&& groups_fault(groups@, n_seq_max as nat, n_ctx as nat) is None
                &&& l.order@ == order_from(first, groups@.len())
                &&& l.bases@ == Seq::new(
                    groups@.len(),
                    |k: int| base_of(groups@, l.order@, k as nat) as usize,
                )
                &&& l.next == base_of(groups@, l.order@, groups@.len())
                &&& l.next == sequences_upto(groups@, groups@.len())
            },
            Err(e) => groups_fault(groups@, n_seq_max as nat, n_ctx as nat) == Some(e@),
        },
{
    let n: usize = groups.len();
    if n == 0 {
        return Err(Error::Backend("empty request".to_owned()));
    }
    let mut seqs: usize = 0;
    let mut total: usize = 0;
    let mut first: usize = 0;
    let mut i: usize = 0;
    while i < n
        invariant
            0 <= i <= n,
            n == groups@.len(),
            n > 0,
            sequences_upto(groups@, groups@.len()) <= usize::MAX,
            tokens_upto(groups@, groups@.len()) <= usize::MAX,
            seqs == sequences_upto(groups@, i as nat),
            total == tokens_upto(groups@, i as nat),
            first == first_group(groups@, resident_view(*resident), i as nat),
            first < n,
            i == 0 ==> first == 0,
            i > 0 ==> first < i,
        decreases n - i,
    {
        proof {
            totals_grow(groups@, (i + 1) as nat, groups@.len());
            totals_grow(groups@, i as nat, (i + 1) as nat);
        }
        let g = &groups[i];
        seqs += 1 + g.branches.len();
        total += tokens_in(g);
        if !(first < i && is_resident(resident, &groups[first].prefix)) {
            if is_resident(resident, &g.prefix) {
                first = i;
            } else {
                first = 0;
            }
        }
        i += 1;
    }
    if seqs > n_seq_max {
        let mut m: String = String::new();
        push_decimal(&mut m, seqs as u64);
        m.append(" sequences (");
        push_decimal(&mut m, n as u64);
        m.append(" groups) exceed n_seq_max ");
        push_decimal(&mut m, n_seq_max as u64);
        assert(m@ =~= decimal(seqs as nat) + " sequences ("@ + decimal(groups@.len())
            + " groups) exceed n_seq_max "@ + decimal(n_seq_max as nat));
        return Err(Error::Backend(m));
    }
    if total > n_ctx {
        let mut m: String = String::new();
        push_decimal(&mut m, total as u64);
        m.append(" tokens exceed n_ctx ");
        push_decimal(&mut m, n_ctx as u64);
        assert(m@ =~= decimal(total as nat) + " tokens exceed n_ctx "@ + decimal(n_ctx as nat));
        return Err(Error::Backend(m));
    }
    let ghost want = order_from(first as nat, n as nat);
    let mut order: Vec<usize> = Vec::new();
    let mut k: usize = 0;
    while k < n
        invariant
            0 <= k <= n,
            first < n,
            want == order_from(first as nat, n as nat),
            order@ == want.take(k as int),
        decreases n - k,
    {
        let at: usize = if k == 0 {
            first
        } else if k <= first {
            k - 1
        } else {
            k
        };
        order.push(at);
        k += 1;
        assert(order@ =~= want.take(k as int));
    }
    assert(order@ =~= want);
    let mut bases: Vec<usize> = Vec::new();
    let mut next: usize = 0;
    let mut k: usize = 0;
    while k < n
        invariant
            0 <= k <= n,
            n == groups@.len(),
            first < n,
            order@ == order_from(first as nat, n as nat),
            sequences_upto(groups@, groups@.len()) <= usize::MAX,
            next == base_of(groups@, order@, k as nat),
            bases@ == Seq::new(k as nat, |j: int| base_of(groups@, order@, j as nat) as usize),
        decreases n - k,
    {
        proof {
            base_from(groups@, first as nat, (k + 1) as nat);
            if k + 1 <= first {
                totals_grow(groups@, (k + 1) as nat, first as nat);
                totals_grow(groups@, k as nat, first as nat);
                totals_grow(groups@, (first + 1) as nat, groups@.len());
            } else {
                totals_grow(groups@, (k + 1) as nat, groups@.len());
            }
        }
        bases.push(next);
        next += 1 + groups[order[k]].branches.len();
        k += 1;
        assert(bases@ =~= Seq::new(k as nat, |j: int| base_of(groups@, order@, j as nat) as usize));
    }
    proof {
        base_from(groups@, first as nat, n as nat);
    }
    Ok(Layout { order, bases, next })
}

/// One token of a batch: where it stands, the sequences it belongs to, and the
/// (group, branch, slot) its row is wanted for.
#[derive(Debug, Clone, Copy, PartialEq, Eq)]
pub struct Item {
    pub token: Token,
    pub pos: usize,
    /// The first and the last of its sequence ids.
    pub first: usize,
    pub last: usize,
    pub wanted: Option<(usize, usize, usize)>,
}

/// A prefix decoded into every sequence of its group.
pub open spec fn prefix_items(g: Group, base: nat) -> Seq<Item> {
    Seq::new(
        g.prefix@.len(),
        |p: int|
            Item {
                token: g.prefix@[p],
                pos: p as usize,
                first: base as usize,
                last: (base + g.branches@.len()) as usize,
                wanted: None,
            },
    )
}

/// How many of a branch's wanted places come before token `j`, taking them in
/// order.
pub open spec fn slots_before(want: Seq<usize>, j: nat) -> nat
    decreases j,
{
    if j == 0 {
        0
    } else {
        let m = slots_before(want, (j - 1) as nat);
        if m < want.len() && want[m as int] == j - 1 {
            m + 1
        } else {
            m
        }
    }
}

/// The slot that token `j` is wanted for.
pub open spec fn slot_at(want: Seq<usize>, j: nat) -> Option<usize> {
    let m = slots_before(want, j);
    if m < want.len() && want[m as int] == j {
        Some(m as usize)
    } else {
        None
    }
}

/// A branch, in a sequence of its own, its positions behind the prefix.
pub open spec fn branch_items(g: Group, gi: nat, bi: nat, base: nat) -> Seq<Item> {
    let b = g.branches@[bi as int];
    Seq::new(
        b.tokens@.len(),
        |j: int|
            Item {
                token: b.tokens@[j],
                pos: (g.prefix@.len() + j) as usize,
                first: (base + 1 + bi) as usize,
                last: (base + 1 + bi) as usize,
                wanted: match slot_at(b.want@, j as nat) {
                    Some(s) => Some((gi as usize, bi as usize, s)),
                    None => None,
                },
            },
    )
}

/// A group's tokens up to its first `n` branches; a resident prefix is not
/// decoded again.
pub open spec fn group_items(g: Group, gi: nat, base: nat, decode_prefix: bool, n: nat) -> Seq<Item>
    decreases n,
{
    if n == 0 {
        if decode_prefix {
            prefix_items(g, base)
        } else {
            Seq::empty()
        }
    } else {
        group_items(g, gi, base, decode_prefix, (n - 1) as nat) + branch_items(
            g,
            gi,
            (n - 1) as nat,
            base,
        )
    }
}

/// The tokens of the first `n` groups of an order.
pub open spec fn all_items(
    gs: Seq<Group>,
    order: Seq<usize>,
    resident_first: bool,
    n: nat,
) -> Seq<Item>
    decreases n,
{
    if n == 0 {
        Seq::empty()
    } else {
        let g = gs[order[n - 1] as int];
        all_items(gs, order, resident_first, (n - 1) as nat) + group_items(
            g,
            (n - 1) as nat,
            base_of(gs, order, (n - 1) as nat),
            !(n == 1 && resident_first),
            g.branches@.len(),
        )
    }
}

/// Items in batches of `n`, the last one with what is left.
pub open spec fn batched(items: Seq<Item>, n: nat) -> Seq<Seq<Item>>
    decreases items.len(),
{
    if n == 0 || items.len() == 0 {
        Seq::empty()
    } else if items.len() <= n {
        seq![items]
    } else {
        seq![items.take(n as int)] + batched(items.skip(n as int), n)
    }
}

fn push_group(g: &Group, gi: usize, base: usize, decode_prefix: bool, out: &mut Vec<Item>)
    requires
        base + group_sequences(*g) <= usize::MAX,
        group_tokens(*g) <= usize::MAX,
    ensures
        final(out)@ == old(out)@ + group_items(
            *g,
            gi as nat,
            base as nat,
            decode_prefix,
            g.branches@.len(),
        ),
{
    let ghost before = out@;
    let nb: usize = g.branches.len();
    if decode_prefix {
        let mut p: usize = 0;
        assert(out@ =~= before + prefix_items(*g, base as nat).take(0));
        while p < g.prefix.len()
            invariant
                0 <= p <= g.prefix@.len(),
                nb == g.branches@.len(),
                base + group_sequences(*g) <= usize::MAX,
                out@ == before + prefix_items(*g, base as nat).take(p as int),
            decreases g.prefix@.len() - p,
        {
            out.push(
                Item { token: g.prefix[p], pos: p, first: base, last: base + nb, wanted: None },
            );
            p += 1;
            assert(out@ =~= before + prefix_items(*g, base as nat).take(p as int));
        }
        assert(prefix_items(*g, base as nat).take(p as int) =~= prefix_items(*g, base as nat));
    }
    assert(out@ =~= before + group_items(*g, gi as nat, base as nat, decode_prefix, 0));
    let mut bi: usize = 0;
    while bi < nb
        invariant
            0 <= bi <= nb,
            nb == g.branches@.len(),
            base + group_sequences(*g) <= usize::MAX,
            group_tokens(*g) <= usize::MAX,
            out@ == before + group_items(*g, gi as nat, base as nat, decode_prefix, bi as nat),
        decreases nb - bi,
    {
        proof {
            token_sums_grow(g.branches@, (bi + 1) as nat, nb as nat);
            token_sums_grow(g.branches@, 0, bi as nat);
        }
        push_branch(g, gi, bi, base, out);
        bi += 1;
        assert(out@ =~= before + group_items(
            *g,
            gi as nat,
            base as nat,
            decode_prefix,
            bi as nat,
        ));
    }
}

fn push_branch(g: &Group, gi: usize, bi: usize, base: usize, out: &mut Vec<Item>)
    requires
        bi < g.branches@.len(),
        base + group_sequences(*g) <= usize::MAX,
        g.prefix@.len() + g.branches@[bi as int].tokens@.len() <= usize::MAX,
    ensures
        final(out)@ == old(out)@ + branch_items(*g, gi as nat, bi as nat, base as nat),
{
    let ghost before = out@;
    let ghost items = branch_items(*g, gi as nat, bi as nat, base as nat);
    let b = &g.branches[bi];
    let len: usize = g.prefix.len();
    let seq: usize = base + 1 + bi;
    let mut slot: usize = 0;
    let mut j: usize = 0;
    assert(out@ =~= before + items.take(0));
    while j < b.tokens.len()
        invariant
            0 <= j <= b.tokens@.len(),
            bi < g.branches@.len(),
            *b == g.branches@[bi as int],
            len == g.prefix@.len(),
            len + b.tokens@.len() <= usize::MAX,
            seq == base + 1 + bi,
            items == branch_items(*g, gi as nat, bi as nat, base as nat),
            slot == slots_before(b.want@, j as nat),
            slot <= j,
            out@ == before + items.take(j as int),
        decreases b.tokens@.len() - j,
    {
        let here: bool = slot < b.want.len() && b.want[slot] == j;
        let wanted: Option<(usize, usize, usize)> = if here {
            Some((gi, bi, slot))
        } else {
            None
        };
        out.push(Item { token: b.tokens[j], pos: len + j, first: seq, last: seq, wanted });
        if here {
            slot += 1;
        }
        j += 1;
        assert(out@ =~= before + items.take(j as int));
    }
    assert(items.take(j as int) =~= items);
}

/// Lists of items as sequences.
pub open spec fn batch_lists(v: Seq<Vec<Item>>) -> Seq<Seq<Item>> {
    v.map_values(|b: Vec<Item>| b@)
}

fn into_batches(items: &Vec<Item>, n: usize) -> (r: Vec<Vec<Item>>)
    requires
        n > 0,
    ensures
        batch_lists(r@) == batched(items@, n as nat),
{
    let len: usize = items.len();
    let mut out: Vec<Vec<Item>> = Vec::new();
    let mut at: usize = 0;
    assert(items@.skip(0) =~= items@);
    assert(batch_lists(out@) + batched(items@, n as nat) =~= batched(items@, n as nat));
    while at < len
        invariant
            0 <= at <= len,
            n > 0,
            len == items@.len(),
            batch_lists(out@) + batched(items@.skip(at as int), n as nat) == batched(
                items@,
                n as nat,
            ),
        decreases len - at,
    {
        let ghost rest = items@.skip(at as int);
        let ghost before = batch_lists(out@);
        let end: usize = if len - at <= n {
            len
        } else {
            at + n
        };
        let mut b: Vec<Item> = Vec::new();
        let mut i: usize = at;
        while i < end
            invariant
                at <= i <= end <= items@.len(),
                b@ == items@.subrange(at as int, i as int),
            decreases end - i,
        {
            b.push(items[i]);
            i += 1;
            assert(b@ =~= items@.subrange(at as int, i as int));
        }
        let ghost bv = b@;
        let ghost prev = out@;
        out.push(b);
        assert(batch_lists(out@) =~= before.push(bv));
        proof {
            if rest.len() <= n {
                assert(bv =~= rest);
                assert(items@.skip(end as int).len() == 0);
            } else {
                assert(bv =~= rest.take(n as int));
                assert(rest.skip(n as int) =~= items@.skip(end as int));
            }
            assert(batch_lists(out@) + batched(items@.skip(end as int), n as nat) =~= before
                + batched(rest, n as nat));
        }
        at = end;
    }
    assert(items@.skip(at as int).len() == 0);
    assert(batch_lists(out@) =~= batch_lists(out@) + batched(items@.skip(at as int), n as nat));
    out
}

proof fn bases_grow(gs: Seq<Group>, order: Seq<usize>, i: nat, n: nat)
    requires
        i <= n <= order.len(),
    ensures
        base_of(gs, order, i) <= base_of(gs, order, n),
    decreases n - i,
{
    if i < n {
        bases_grow(gs, order, i + 1, n);
    }
}

/// Fills the batches of a decode: every group's prefix, where it is not
/// resident, with all of its group's sequence ids, then its branches; at most
/// `n_batch` tokens a batch.
pub fn fill_batches(
    groups: &Vec<Group>,
    order: &Vec<usize>,
    resident_first: bool,
    n_batch: usize,
) -> (r: Vec<Vec<Item>>)
    requires
        n_batch > 0,
        forall|k: int| 0 <= k < order@.len() ==> (#[trigger] order@[k]) < groups@.len(),
        base_of(groups@, order@, order@.len()) <= usize::MAX,
        forall|i: int|
            0 <= i < groups@.len() ==> group_tokens(#[trigger] groups@[i]) <= usize::MAX,
    ensures
        batch_lists(r@) == batched(
            all_items(groups@, order@, resident_first, order@.len()),
            n_batch as nat,
        ),
{
    let mut items: Vec<Item> = Vec::new();
    let mut base: usize = 0;
    let mut k: usize = 0;
    assert(items@ =~= all_items(groups@, order@, resident_first, 0));
    while k < order.len()
        invariant
            0 <= k <= order@.len(),
            forall|j: int| 0 <= j < order@.len() ==> (#[trigger] order@[j]) < groups@.len(),
            base_of(groups@, order@, order@.len()) <= usize::MAX,
            forall|i: int|
                0 <= i < groups@.len() ==> group_tokens(#[trigger] groups@[i]) <= usize::MAX,
            base == base_of(groups@, order@, k as nat),
            items@ == all_items(groups@, order@, resident_first, k as nat),
        decreases order@.len() - k,
    {
        proof {
            bases_grow(groups@, order@, (k + 1) as nat, order@.len());
            assert(group_tokens(groups@[order@[k as int] as int]) <= usize::MAX);
        }
        let g = &groups[order[k]];
        push_group(g, k, base, !(k == 0 && resident_first), &mut items);
        base += 1 + g.branches.len();
        k += 1;
    }
    into_batches(&items, n_batch)
}

/// Hands one row to the branch it was wanted for.
pub fn deliver(outs: &mut Vec<Vec<BranchOutput>>, at: (usize, usize, usize), row: Vec<u32>) -> (r:
    Result<(), Error>)
    requires
        at.0 < old(outs)@.len(),
        at.1 < old(outs)@[at.0 as int]@.len(),
    ensures
        ({
            let rows = old(outs)@[at.0 as int]@[at.1 as int].rows@;
            match r {
                Ok(_) => rows.len() == at.2 && final(outs)@.len() == old(outs)@.len()
                    && final(outs)@[at.0 as int]@.len() == old(outs)@[at.0 as int]@.len()
                    && final(outs)@[at.0 as int]@[at.1 as int].rows@ == rows.push(row) && (forall|
                    g: int,
                    b: int,
                |
                    0 <= g < old(outs)@.len() && 0 <= b < old(outs)@[g]@.len() && (g != at.0 || b
                        != at.1) ==> #[trigger] final(outs)@[g]@[b] == old(outs)@[g]@[b]),
                Err(e) => rows.len() != at.2 && *final(outs) == *old(outs) && e@
                    == ErrorView::Backend("row order mismatch for branch "@ + decimal(
                    at.1 as nat,
                )),
            }
        }),
{
    let (g, b, slot) = at;
    if outs[g][b].rows.len() != slot {
        let mut m: String = "row order mismatch for branch ".to_owned();
        push_decimal(&mut m, b as u64);
        return Err(Error::Backend(m));
    }
    outs[g][b].rows.push(row);
    Ok(())
}

/// The rows that are read of a branch's first `j` tokens come in the order of
/// its slots: token `j` is wanted for slot `slots_before(j)` or for none, and
/// that is how many were wanted before it.
pub proof fn rows_are_read_in_order(want: Seq<usize>, j: nat)
    ensures
        slot_at(want, j) is Some ==> slot_at(want, j)->0 == slots_before(want, j) as usize
            && slots_before(want, j + 1) == slots_before(want, j) + 1,
        slot_at(want, j) is None ==> slots_before(want, j + 1) == slots_before(want, j),
{
}

/// Every wanted place is read when they ascend and lie within the branch.
pub proof fn every_wanted_place_is_read(want: Seq<usize>, n: nat)
    requires
        forall|i: int, k: int|
            #![trigger want[i], want[k]]
            0 <= i < k < want.len() ==> want[i] < want[k],
        forall|i: int| 0 <= i < want.len() ==> (#[trigger] want[i]) < n,
    ensures
        slots_before(want, n) == want.len(),
{
    slots_cover(want, n);
    let m = slots_before(want, n);
    if m < want.len() {
        assert(want[m as int] >= n);
    }
}

proof fn slots_cover(want: Seq<usize>, n: nat)
    requires
        forall|i: int, k: int|
            #![trigger want[i], want[k]]
            0 <= i < k < want.len() ==> want[i] < want[k],
    ensures
        ({
            let m = slots_before(want, n);
            &&& m <= want.len()
            &&& forall|i: int| 0 <= i < m ==> (#[trigger] want[i]) < n
            &&& forall|i: int| m <= i < want.len() ==> (#[trigger] want[i]) >= n
        }),
    decreases n,
{
    if n > 0 {
        slots_cover(want, (n - 1) as nat);
        let m0 = slots_before(want, (n - 1) as nat);
        let m = slots_before(want, n);
        if m0 < want.len() {
            assert(want[m0 as int] >= n - 1);
        }
        assert forall|i: int| m <= i < want.len() implies (#[trigger] want[i]) >= n by {
            assert(want[i] >= n - 1);
            if i > m0 {
                assert(want[m0 as int] < want[i]);
            }
        }
    }
}

/// Nothing crosses between requests: the sequence ids of two groups of a
/// layout do not meet.
pub proof fn groups_share_no_sequence(gs: Seq<Group>, order: Seq<usize>, a: nat, b: nat)
    requires
        a < b < order.len(),
    ensures
        base_of(gs, order, a) + group_sequences(gs[order[a as int] as int]) <= base_of(
            gs,
            order,
            b,
        ),
{
    bases_grow(gs, order, a + 1, b);
}

/// An order with one group in front holds every group once.
pub proof fn orders_hold_every_group(first: nat, n: nat, i: int)
    requires
        first < n <= usize::MAX,
        0 <= i < n,
    ensures
        order_from(first, n).contains(i as usize),
        order_from(first, n).no_duplicates(),
{
    let o = order_from(first, n);
    let k = if i == first {
        0
    } else if i < first {
        i + 1
    } else {
        i
    };
    assert(o[k] == i as usize);
}

/// Where each group's prefix came from, in the order of the groups: that of
/// the group laid out first from `source`, the others' were decoded.
pub fn sources_of(order: &Vec<usize>, source: PrefixSource) -> (r: Vec<PrefixSource>)
    requires
        order@.len() > 0,
        order@[0] < order@.len(),
    ensures
        r@ == Seq::new(
            order@.len(),
            |i: int|
                if i == order@[0] {
                    source
                } else {
                    PrefixSource::Decoded
                },
        ),
{
    let first: usize = order[0];
    let mut out: Vec<PrefixSource> = Vec::new();
    let mut i: usize = 0;
    while i < order.len()
        invariant
            0 <= i <= order@.len(),
            first == order@[0],
            out@.len() == i,
            forall|j: int|
                0 <= j < i ==> #[trigger] out@[j] == (if j == first {
                    source
                } else {
                    PrefixSource::Decoded
                }),
        decreases order@.len() - i,
    {
        out.push(
            if i == first {
                source
            } else {
                PrefixSource::Decoded
            },
        );
        i += 1;
    }
    assert(out@ =~= Seq::new(
        order@.len(),
        |i: int|
            if i == order@[0] {
                source
            } else {
                PrefixSource::Decoded
            },
    ));
    out
}

/// A group's prefix stands once for all of its sequences, at the positions from
/// zero; a branch stands in a sequence of its own behind the prefix, at the
/// positions that go on from it, and its rows are asked for by group, branch
/// and slot.
pub proof fn items_stand_where_they_belong(g: Group, gi: nat, bi: nat, base: nat, p: int, j: int)
    requires
        bi < g.branches@.len(),
        base + 1 + g.branches@.len() <= usize::MAX,
        gi <= usize::MAX,
        0 <= p < g.prefix@.len(),
        0 <= j < g.branches@[bi as int].tokens@.len(),
        g.prefix@.len() + g.branches@[bi as int].tokens@.len() <= usize::MAX,
    ensures
        ({
            let a = prefix_items(g, base)[p];
            let b = branch_items(g, gi, bi, base)[j];
            &&& prefix_items(g, base).len() == g.prefix@.len()
            &&& branch_items(g, gi, bi, base).len() == g.branches@[bi as int].tokens@.len()
            &&& a.token == g.prefix@[p] && a.pos == p && a.wanted is None
            &&& a.first == base && a.last == base + g.branches@.len()
            &&& a.first < b.first <= a.last
            &&& b.first == b.last && b.first == base + 1 + bi
            &&& b.token == g.branches@[bi as int].tokens@[j]
            &&& b.pos == g.prefix@.len() + j
            &&& b.wanted is Some ==> {
                let (group, branch, slot) = b.wanted->0;
                &&& group == gi
                &&& branch == bi
                &&& g.branches@[bi as int].want@[slot as int] == j
            }
        }),
{
    slots_within(g.branches@[bi as int].want@, j as nat);
}

proof fn slots_within(want: Seq<usize>, j: nat)
    ensures
        slots_before(want, j) <= want.len(),
        slots_before(want, j) <= j,
    decreases j,
{
    if j > 0 {
        slots_within(want, (j - 1) as nat);
    }
}

/// The group that is laid out first is the first whose prefix is resident, or
/// the first of all where none is.
pub proof fn the_resident_group_goes_first(
    gs: Seq<Group>,
    resident: Option<Seq<Token>>,
    n: nat,
    i: int,
)
    requires
        0 <= i < n <= gs.len(),
    ensures
        first_group(gs, resident, n) < n,
        resident == Some(gs[i].prefix@) ==> first_group(gs, resident, n) <= i && resident == Some(
            gs[first_group(gs, resident, n) as int].prefix@,
        ),
        first_group(gs, resident, n) > 0 ==> resident == Some(
            gs[first_group(gs, resident, n) as int].prefix@,
        ),
    decreases n,
{
    if n > 1 {
        the_resident_group_goes_first(gs, resident, (n - 1) as nat, if i < n - 1 { i } else { 0 });
    } else {
        assert(first_group(gs, resident, 0) == 0);
    }
}

/// Groups are refused exactly where there are none, or more sequences or tokens
/// than there is room for; a group takes a sequence for its prefix and one for
/// every branch, and its every token.
pub proof fn groups_are_laid_out_exactly_when_they_fit(
    gs: Seq<Group>,
    n_seq_max: nat,
    n_ctx: nat,
    g: Group,
)
    ensures
        groups_fault(gs, n_seq_max, n_ctx) is None <==> gs.len() > 0 && sequences_upto(gs, gs.len())
            <= n_seq_max && tokens_upto(gs, gs.len()) <= n_ctx,
        sequences_upto(gs.push(g), gs.len() + 1) == sequences_upto(gs, gs.len()) + 1
            + g.branches@.len(),
        tokens_upto(gs.push(g), gs.len() + 1) == tokens_upto(gs, gs.len()) + g.prefix@.len()
            + branch_token_sum(g.branches@, g.branches@.len()),
{
    sums_keep(gs, g, gs.len());
}

proof fn sums_keep(gs: Seq<Group>, g: Group, n: nat)
    requires
        n <= gs.len(),
    ensures
        sequences_upto(gs.push(g), n) == sequences_upto(gs, n),
        tokens_upto(gs.push(g), n) == tokens_upto(gs, n),
    decreases n,
{
    if n > 0 {
        sums_keep(gs, g, (n - 1) as nat);
    }
}

/// Items are decoded in their order, as many at a time as a batch holds: every
/// batch but the last is full, and none is empty.
pub proof fn batches_hold_the_items_in_order(items: Seq<Item>, n: nat)
    requires
        0 < n,
    ensures
        batched(items, n).flatten() == items,
        forall|b: int|
            0 <= b < batched(items, n).len() ==> 0 < (#[trigger] batched(items, n)[b]).len() <= n,
        forall|b: int|
            0 <= b < batched(items, n).len() - 1 ==> (#[trigger] batched(items, n)[b]).len() == n,
    decreases items.len(),
{
    let all = batched(items, n);
    if items.len() == 0 {
        assert(all.flatten() =~= items);
    } else if items.len() <= n {
        assert(all.drop_first().flatten() =~= Seq::<Item>::empty());
        assert(all.flatten() =~= all.first() + all.drop_first().flatten());
    } else {
        let rest = batched(items.skip(n as int), n);
        batches_hold_the_items_in_order(items.skip(n as int), n);
        assert(all.drop_first() =~= rest);
        assert(all.flatten() =~= items.take(n as int) + rest.flatten());
        assert(items.take(n as int) + items.skip(n as int) =~= items);
        assert forall|b: int| 0 <= b < all.len() implies 0 < (#[trigger] all[b]).len() <= n by {
            if b > 0 {
                assert(all[b] == rest[b - 1]);
            }
        }
        assert forall|b: int| 0 <= b < all.len() - 1 implies (#[trigger] all[b]).len() == n by {
            if b > 0 {
                assert(all[b] == rest[b - 1]);
            }
        }
    }
}

} // verus!

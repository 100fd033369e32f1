//! From backend rows to a distribution over the rendered options.

use vstd::prelude::*;
use vstd::string::StringExecFns;

use crate::backend::{Backend, BranchOutput, Token, Want};
use crate::error::{Error, ErrorView};
use crate::math::greater;
use crate::render::{Mark, RenderedBranch};
use crate::text::{decimal, push_decimal};

verus! {

/// Single-character option labels for the label readout. 52 is the cap for a
/// tokenizer that splits digits.
pub const LABELS: [char; 52] = [
    'A', 'B', 'C', 'D', 'E', 'F', 'G', 'H', 'I', 'J', 'K', 'L', 'M', 'N', 'O', 'P', 'Q', 'R', 'S',
    'T', 'U', 'V', 'W', 'X', 'Y', 'Z', 'a', 'b', 'c', 'd', 'e', 'f', 'g', 'h', 'i', 'j', 'k', 'l',
    'm', 'n', 'o', 'p', 'q', 'r', 's', 't', 'u', 'v', 'w', 'x', 'y', 'z',
];

/// The letter of slot `i`: the capitals, then the small letters.
pub open spec fn label_char(i: int) -> char {
    if i < 26 {
        ('A' as int + i) as char
    } else {
        ('a' as int + i - 26) as char
    }
}

/// [`LABELS`] lists the letters in order.
pub proof fn labels_are_letters(i: int)
    requires
        0 <= i < 52,
    ensures
        LABELS@[i] == label_char(i),
{
}

/// The label of slot `i`.
pub fn label(i: usize) -> (c: char)
    requires
        i < LABELS.len(),
    ensures
        c == label_char(i as int),
{
    proof {
        labels_are_letters(i as int);
    }
    LABELS[i]
}

/// Probabilities over a branch's rendered options plus diagnostics. Every
/// number is given as its bit pattern: logits as single, the rest as double
/// precision.
#[derive(Debug)]
pub struct Distribution {
    /// Raw option logits before temperature (kept so callers can refit).
    pub logits: Vec<u32>,
    /// The logits over a content-free state that were subtracted, if any.
    pub baseline: Option<Vec<u32>>,
    pub probs: Vec<u64>,
    /// Label readout only: share of full-vocabulary probability mass that
    /// landed on the label tokens.
    pub candidate_mass: Option<u64>,
}

/// The place of a double in the total order of doubles, from its bit pattern:
/// negative numbers count down from their sign bit, the others up.
pub open spec fn total_rank_view(bits: u64) -> int {
    if bits < 0x8000_0000_0000_0000 {
        bits as int
    } else {
        0x7fff_ffff_ffff_ffff - bits
    }
}

/// The place of a double in the total order of doubles.
pub fn total_rank(bits: u64) -> (r: i64)
    ensures
        r == total_rank_view(bits),
{
    if bits < 0x8000_0000_0000_0000 {
        bits as i64
    } else {
        -1 - ((bits - 0x8000_0000_0000_0000) as i64)
    }
}

/// How many entries stand before entry `i` when the list is sorted from high
/// to low, equal ones keeping their places.
pub open spec fn standing(probs: Seq<u64>, i: int) -> nat {
    standing_among(probs, i, probs.len())
}

/// How many of the first `n` entries stand before entry `i`.
pub open spec fn standing_among(probs: Seq<u64>, i: int, n: nat) -> nat
    decreases n,
{
    if n == 0 {
        0
    } else {
        let j = n - 1;
        let before = total_rank_view(probs[j]) > total_rank_view(probs[i]) || (total_rank_view(
            probs[j],
        ) == total_rank_view(probs[i]) && j < i);
        standing_among(probs, i, (n - 1) as nat) + (if before {
            1nat
        } else {
            0nat
        })
    }
}

/// The place of entry `i` when the list is sorted from high to low.
pub fn place(probs: &Vec<u64>, i: usize) -> (r: usize)
    requires
        i < probs@.len(),
    ensures
        r == standing(probs@, i as int),
{
    let mut n: usize = 0;
    let mut j: usize = 0;
    let own: i64 = total_rank(probs[i]);
    while j < probs.len()
        invariant
            0 <= j <= probs@.len(),
            i < probs@.len(),
            n <= j,
            own == total_rank_view(probs@[i as int]),
            n == standing_among(probs@, i as int, j as nat),
        decreases probs@.len() - j,
    {
        let other: i64 = total_rank(probs[j]);
        if other > own || (other == own && j < i) {
            n += 1;
        }
        j += 1;
    }
    n
}

/// A trained pointer head: two affine maps `d -> dp`, scaled dot product. The
/// weights are bit patterns of single-precision numbers.
#[derive(Debug)]
pub struct PointerHead {
    pub d: usize,
    pub dp: usize,
    /// Row-major `[dp, d]`.
    pub w_q: Vec<u32>,
    pub b_q: Vec<u32>,
    pub w_k: Vec<u32>,
    pub b_k: Vec<u32>,
}

#[derive(Debug)]
pub enum Readout {
    /// Read next-token logits at the branch's last position, keep the label
    /// tokens, normalize among them.
    Label,
    /// Read hidden states at every option's end and at the deciding token,
    /// score with a pointer head.
    Pointer(PointerHead),
}

/// What a readout takes out of a branch's rows.
#[derive(Debug)]
pub enum Reading {
    /// The logits of the option letters, out of the first row.
    Letters { logits: Vec<u32> },
    /// The row of the deciding token and the row of each option.
    Rows { decide: usize, options: Vec<usize> },
}

/// The text of one letter.
pub open spec fn letter(i: int) -> Seq<char> {
    seq![label_char(i)]
}

/// The error of the first of `k` letters that is not one token.
pub open spec fn labels_fault<B: Backend>(b: &B, k: nat) -> Option<ErrorView>
    decreases k,
{
    if k == 0 {
        None
    } else {
        match labels_fault(b, (k - 1) as nat) {
            Some(e) => Some(e),
            None => match b.text_tokens(letter(k - 1)) {
                Err(e) => Some(e),
                Ok(t) => if t.len() != 1 {
                    Some(ErrorView::LabelNotSingleToken(letter(k - 1)))
                } else {
                    None
                },
            },
        }
    }
}

proof fn labels_fault_stays<B: Backend>(b: &B, i: nat, k: nat)
    requires
        i <= k,
        labels_fault(b, i) is Some,
    ensures
        labels_fault(b, k) == labels_fault(b, i),
    decreases k - i,
{
    if i < k {
        labels_fault_stays(b, i + 1, k);
    }
}

/// The error of more options than there are letters.
pub open spec fn too_many_options() -> ErrorView {
    ErrorView::Invalid {
        path: "questions"@,
        message: "label readout supports at most "@ + decimal(52) + " options"@,
    }
}

/// The rows among the first `n` that close an option.
pub open spec fn option_rows(marks: Seq<(usize, Mark)>, n: nat) -> Seq<usize>
    decreases n,
{
    if n == 0 {
        Seq::empty()
    } else {
        let r = option_rows(marks, (n - 1) as nat);
        match marks[n - 1].1 {
            Mark::OptEnd(_) => r.push((n - 1) as usize),
            _ => r,
        }
    }
}

/// The last row among the first `n` that decides.
pub open spec fn decide_row(marks: Seq<(usize, Mark)>, n: nat) -> Option<usize>
    decreases n,
{
    if n == 0 {
        None
    } else {
        match marks[n - 1].1 {
            Mark::Decide => Some((n - 1) as usize),
            _ => decide_row(marks, (n - 1) as nat),
        }
    }
}

/// How many of the marks have a row.
pub open spec fn rows_read(marks: nat, rows: nat) -> nat {
    if marks < rows {
        marks
    } else {
        rows
    }
}

/// The error of a pointer reading without its rows.
pub open spec fn pointer_fault(marks: Seq<(usize, Mark)>, rows: nat, k: nat) -> Option<ErrorView> {
    let n = rows_read(marks.len(), rows);
    if decide_row(marks, n) is None {
        Some(ErrorView::Backend("no decide row"@))
    } else if option_rows(marks, n).len() != k {
        Some(
            ErrorView::Backend(
                "expected "@ + decimal(k) + " option rows, got "@ + decimal(
                    option_rows(marks, n).len(),
                ),
            ),
        )
    } else {
        None
    }
}

/// Where letters are read from a row, every letter's logit is in it.
pub open spec fn gatherable(
    r: Readout,
    branch: RenderedBranch,
    out: BranchOutput,
    label_ids: Seq<Token>,
) -> bool {
    r is Label && out.rows@.len() > 0 ==> {
        &&& branch.keys@.len() <= label_ids.len()
        &&& forall|i: int|
            0 <= i < branch.keys@.len() ==> 0 <= (#[trigger] label_ids[i]).0
                < out.rows@[0]@.len()
    }
}

/// The error of reading a branch's rows, if they cannot be read.
pub open spec fn gather_fault(r: Readout, branch: RenderedBranch, out: BranchOutput) -> Option<
    ErrorView,
> {
    match r {
        Readout::Label => if out.rows@.len() == 0 {
            Some(ErrorView::Backend("no logits row"@))
        } else {
            None
        },
        Readout::Pointer(_) => pointer_fault(
            branch.marks@,
            out.rows@.len(),
            branch.keys@.len(),
        ),
    }
}

/// What the rows of a branch are read as.
pub open spec fn is_reading(
    r: Readout,
    branch: RenderedBranch,
    out: BranchOutput,
    label_ids: Seq<Token>,
    x: Reading,
) -> bool {
    let n = rows_read(branch.marks@.len(), out.rows@.len());
    match (r, x) {
        (Readout::Label, Reading::Letters { logits }) => logits@ == label_ids.take(
            branch.keys@.len() as int,
        ).map_values(|t: Token| out.rows@[0]@[t.0 as int]),
        (Readout::Pointer(_), Reading::Rows { decide, options }) => decide_row(branch.marks@, n)
            == Some(decide) && options@ == option_rows(branch.marks@, n),
        _ => false,
    }
}

impl Readout {
    pub fn want(&self) -> (r: Want)
        ensures
            r == (match *self {
                Readout::Label => Want::Logits,
                Readout::Pointer(_) => Want::Hidden,
            }),
    {
        match self {
            Readout::Label => Want::Logits,
            Readout::Pointer(_) => Want::Hidden,
        }
    }

    /// How many options a branch can letter; a pointer head has no limit.
    pub fn cap(&self) -> (r: Option<usize>)
        ensures
            r == (match *self {
                Readout::Label => Some(52usize),
                Readout::Pointer(_) => None,
            }),
    {
        match self {
            Readout::Label => Some(LABELS.len()),
            Readout::Pointer(_) => None,
        }
    }

    /// Resolves label token ids for `k` options; every label must be one token.
    pub fn label_ids<B: Backend>(backend: &B, k: usize) -> (r: Result<Vec<Token>, Error>)
        ensures
            match r {
                Ok(v) => k <= 52 && labels_fault(backend, k as nat) is None && v@.len() == k
                    && forall|i: int|
                    0 <= i < k ==> backend.text_tokens(letter(i)) == Ok::<Seq<Token>, ErrorView>(
                        seq![#[trigger] v@[i]],
                    ),
                Err(e) => if k > 52 {
                    e@ == too_many_options()
                } else {
                    labels_fault(backend, k as nat) == Some(e@)
                },
            },
    {
        if k > LABELS.len() {
            let mut m: String = "label readout supports at most ".to_owned();
            push_decimal(&mut m, LABELS.len() as u64);
            m.append(" options");
            return Err(Error::invalid("questions", m.as_str()));
        }
        let mut out: Vec<Token> = Vec::new();
        let mut i: usize = 0;
        while i < k
            invariant
                0 <= i <= k <= 52,
                labels_fault(backend, i as nat) is None,
                out@.len() == i,
                forall|j: int|
                    0 <= j < i ==> backend.text_tokens(letter(j)) == Ok::<Seq<Token>, ErrorView>(
                        seq![#[trigger] out@[j]],
                    ),
            decreases k - i,
        {
            let mut s: String = String::new();
            s.push(label(i));
            assert(s@ =~= letter(i as int));
            proof {
                if labels_fault(backend, (i + 1) as nat) is Some {
                    labels_fault_stays(backend, (i + 1) as nat, k as nat);
                }
            }
            let t = match backend.tokenize(s.as_str()) {
                Ok(t) => t,
                Err(e) => {
                    return Err(e);
                },
            };
            if t.len() != 1 {
                return Err(Error::LabelNotSingleToken(s));
            }
            assert(t@ =~= seq![t@[0]]);
            out.push(t[0]);
            i += 1;
        }
        Ok(out)
    }

    /// Whether every letter's logit is in the row.
    pub fn can_gather(&self, branch: &RenderedBranch, out: &BranchOutput, label_ids: &Vec<Token>) -> (r:
        bool)
        ensures
            r == gatherable(*self, *branch, *out, label_ids@),
    {
        match self {
            Readout::Pointer(_) => true,
            Readout::Label => {
                if out.rows.len() == 0 {
                    return true;
                }
                let k: usize = branch.keys.len();
                if k > label_ids.len() {
                    return false;
                }
                let width: usize = out.rows[0].len();
                let mut i: usize = 0;
                while i < k
                    invariant
                        0 <= i <= k <= label_ids@.len(),
                        *self is Label,
                        out.rows@.len() > 0,
                        k == branch.keys@.len(),
                        width == out.rows@[0]@.len(),
                        forall|j: int|
                            0 <= j < i ==> 0 <= (#[trigger] label_ids@[j]).0 < width,
                    decreases k - i,
                {
                    let t: Token = label_ids[i];
                    if t.0 < 0 || t.0 as usize >= width {
                        assert(label_ids@[i as int] == t);
                        return false;
                    }
                    i += 1;
                }
                true
            },
        }
    }

    /// What the readout takes out of a branch's rows: the letters' logits, or
    /// which rows the pointer head scores.
    pub fn gather(&self, branch: &RenderedBranch, out: &BranchOutput, label_ids: &Vec<Token>) -> (r:
        Result<Reading, Error>)
        requires
            gatherable(*self, *branch, *out, label_ids@),
        ensures
            match r {
                Ok(x) => gather_fault(*self, *branch, *out) is None && is_reading(
                    *self,
                    *branch,
                    *out,
                    label_ids@,
                    x,
                ),
                Err(e) => gather_fault(*self, *branch, *out) == Some(e@),
            },
    {
        let k: usize = branch.keys.len();
        match self {
            Readout::Label => {
                if out.rows.len() == 0 {
                    return Err(Error::Backend("no logits row".to_owned()));
                }
                let row = &out.rows[0];
                let ghost want = label_ids@.take(k as int).map_values(
                    |t: Token| out.rows@[0]@[t.0 as int],
                );
                let mut logits: Vec<u32> = Vec::new();
                let mut i: usize = 0;
                while i < k
                    invariant
                        0 <= i <= k <= label_ids@.len(),
                        k == branch.keys@.len(),
                        *row == out.rows@[0],
                        want == label_ids@.take(k as int).map_values(
                            |t: Token| out.rows@[0]@[t.0 as int],
                        ),
                        logits@ == want.take(i as int),
                        forall|j: int|
                            0 <= j < k ==> 0 <= (#[trigger] label_ids@[j]).0 < row@.len(),
                    decreases k - i,
                {
                    let t: Token = label_ids[i];
                    assert(label_ids@[i as int] == t);
                    logits.push(row[t.0 as usize]);
                    i += 1;
                    assert(logits@ =~= want.take(i as int));
                }
                assert(logits@ =~= want);
                Ok(Reading::Letters { logits })
            },
            Readout::Pointer(_) => {
                let n: usize = if branch.marks.len() < out.rows.len() {
                    branch.marks.len()
                } else {
                    out.rows.len()
                };
                let mut options: Vec<usize> = Vec::new();
                let mut decide: Option<usize> = None;
                let mut i: usize = 0;
                while i < n
                    invariant
                        0 <= i <= n <= branch.marks@.len(),
                        options@ == option_rows(branch.marks@, i as nat),
                        decide == decide_row(branch.marks@, i as nat),
                    decreases n - i,
                {
                    match branch.marks[i].1 {
                        Mark::OptEnd(_) => {
                            options.push(i);
                        },
                        Mark::Decide => {
                            decide = Some(i);
                        },
                        Mark::Last => {},
                    }
                    i += 1;
                }
                match decide {
                    None => Err(Error::Backend("no decide row".to_owned())),
                    Some(decide) => {
                        if options.len() != k {
                            let mut m: String = "expected ".to_owned();
                            push_decimal(&mut m, k as u64);
                            m.append(" option rows, got ");
                            push_decimal(&mut m, options.len() as u64);
                            return Err(Error::Backend(m));
                        }
                        Ok(Reading::Rows { decide, options })
                    },
                }
            },
        }
    }
}

/// Where a branch marks every option and then the deciding token, and every
/// mark has its row, the reading finds each option's row in slot order and
/// decides by the last row.
pub proof fn a_full_reading_finds_every_option(marks: Seq<(usize, Mark)>, k: nat)
    requires
        marks.len() == k + 1,
        k < usize::MAX,
        forall|i: int| 0 <= i < k ==> (#[trigger] marks[i]).1 is OptEnd,
        marks[k as int].1 is Decide,
    ensures
        pointer_fault(marks, k + 1, k) is None,
        decide_row(marks, k + 1) == Some(k as usize),
        option_rows(marks, k + 1) == Seq::new(k, |i: int| i as usize),
{
    options_upto(marks, k);
}

proof fn options_upto(marks: Seq<(usize, Mark)>, n: nat)
    requires
        n <= marks.len(),
        forall|i: int| 0 <= i < n ==> (#[trigger] marks[i]).1 is OptEnd,
    ensures
        option_rows(marks, n) == Seq::new(n, |i: int| i as usize),
    decreases n,
{
    if n > 0 {
        options_upto(marks, (n - 1) as nat);
        assert(marks[n - 1].1 is OptEnd);
    }
    assert(option_rows(marks, n) =~= Seq::new(n, |i: int| i as usize));
}

/// Entry `i` stands before entry `j`: it is higher, or as high and earlier.
pub open spec fn precedes(probs: Seq<u64>, i: int, j: int) -> bool {
    total_rank_view(probs[i]) > total_rank_view(probs[j]) || (total_rank_view(probs[i])
        == total_rank_view(probs[j]) && i < j)
}

proof fn standings_grow(probs: Seq<u64>, i: int, j: int, n: nat)
    requires
        0 <= i < probs.len(),
        0 <= j < probs.len(),
        n <= probs.len(),
        precedes(probs, i, j),
    ensures
        standing_among(probs, i, n) <= standing_among(probs, j, n),
        i < n ==> standing_among(probs, i, n) < standing_among(probs, j, n),
    decreases n,
{
    if n > 0 {
        standings_grow(probs, i, j, (n - 1) as nat);
    }
}

proof fn standings_are_bounded(probs: Seq<u64>, i: int, n: nat)
    requires
        0 <= i < probs.len(),
        n <= probs.len(),
    ensures
        standing_among(probs, i, n) <= n,
        i < n ==> standing_among(probs, i, n) < n,
    decreases n,
{
    if n > 0 {
        standings_are_bounded(probs, i, (n - 1) as nat);
    }
}

/// Places rank the entries from high to low: a higher entry has a smaller
/// place, of equal ones the earlier, and every entry has a place of its own
/// among as many places as entries.
pub proof fn places_rank_the_entries(probs: Seq<u64>, i: int, j: int)
    requires
        0 <= i < probs.len(),
        0 <= j < probs.len(),
    ensures
        standing(probs, i) < probs.len(),
        total_rank_view(probs[i]) > total_rank_view(probs[j]) ==> standing(probs, i) < standing(
            probs,
            j,
        ),
        total_rank_view(probs[i]) == total_rank_view(probs[j]) && i < j ==> standing(probs, i)
            < standing(probs, j),
        i != j ==> standing(probs, i) != standing(probs, j),
{
    standings_are_bounded(probs, i, probs.len());
    if precedes(probs, i, j) {
        standings_grow(probs, i, j, probs.len());
    } else if i != j {
        standings_grow(probs, j, i, probs.len());
    }
}

/// The total order of doubles has every bit pattern at a place of its own, and
/// agrees with the order of numbers: a greater number stands higher. The
/// positive zero stands right above the negative one.
pub proof fn ranks_follow_the_numbers(a: u64, b: u64)
    ensures
        greater(a, b) ==> total_rank_view(a) > total_rank_view(b),
        total_rank_view(a) == total_rank_view(b) ==> a == b,
        total_rank_view(0) == total_rank_view(0x8000_0000_0000_0000) + 1,
        -0x8000_0000_0000_0000 <= total_rank_view(a) <= 0x7fff_ffff_ffff_ffff,
{
}

/// The letters are the capitals and then the small letters of the alphabet, no
/// two the same.
pub proof fn letters_are_the_alphabet(i: int, j: int)
    requires
        0 <= i < j < 52,
    ensures
        i < 26 ==> LABELS@[i] as int == 'A' as int + i,
        i >= 26 ==> LABELS@[i] as int == 'a' as int + i - 26,
        label_char(i) == LABELS@[i],
        letter(i) == seq![LABELS@[i]],
        letter(i) != letter(j),
{
    labels_are_letters(i);
    labels_are_letters(j);
    assert(letter(i)[0] != letter(j)[0]);
}

/// A label reading has for every option the logit that the first row holds at
/// the token of that option's letter.
pub proof fn letters_are_read_at_their_tokens(
    r: Readout,
    branch: RenderedBranch,
    out: BranchOutput,
    label_ids: Seq<Token>,
    x: Reading,
    i: int,
)
    requires
        r is Label,
        branch.keys@.len() <= label_ids.len(),
        is_reading(r, branch, out, label_ids, x),
        0 <= i < branch.keys@.len(),
    ensures
        x is Letters,
        x->logits@.len() == branch.keys@.len(),
        x->logits@[i] == out.rows@[0]@[label_ids[i].0 as int],
{
}

proof fn option_rows_close_options(marks: Seq<(usize, Mark)>, n: nat, m: int)
    requires
        n <= marks.len() <= usize::MAX,
        0 <= m < n,
    ensures
        option_rows(marks, n).len() <= n,
        marks[m].1 is OptEnd <==> option_rows(marks, n).contains(m as usize),
        forall|a: int|
            0 <= a < option_rows(marks, n).len() ==> (#[trigger] option_rows(marks, n)[a]) < n,
        forall|a: int, b: int|
            0 <= a < b < option_rows(marks, n).len() ==> #[trigger] option_rows(marks, n)[a]
                < #[trigger] option_rows(marks, n)[b],
    decreases n,
{
    if n > 1 {
        let rest = option_rows(marks, (n - 1) as nat);
        let all = option_rows(marks, n);
        option_rows_close_options(marks, (n - 1) as nat, if m < n - 1 { m } else { 0 });
        if marks[n - 1].1 is OptEnd {
            assert(all[rest.len() as int] == (n - 1) as usize);
            if rest.contains(m as usize) {
                let a = rest.index_of(m as usize);
                assert(all[a] == m as usize);
            }
        }
    } else {
        assert(option_rows(marks, 0).len() == 0);
        if marks[0].1 is OptEnd {
            assert(option_rows(marks, 1)[0] == 0usize);
        }
    }
}

proof fn the_decide_row_decides(marks: Seq<(usize, Mark)>, n: nat, m: int)
    requires
        n <= marks.len() <= usize::MAX,
        0 <= m < n,
    ensures
        decide_row(marks, n) is Some ==> decide_row(marks, n)->0 < n && marks[decide_row(
            marks,
            n,
        )->0 as int].1 is Decide,
        marks[m].1 is Decide ==> decide_row(marks, n) is Some && m <= decide_row(marks, n)->0,
    decreases n,
{
    if n > 1 {
        the_decide_row_decides(marks, (n - 1) as nat, if m < n - 1 { m } else { 0 });
    } else {
        assert(decide_row(marks, 0) is None);
    }
}

/// A pointer reading takes for the options the rows of the marks that close an
/// option, all of them and in order, and decides by the last row of a mark that
/// decides.
pub proof fn rows_are_read_by_their_marks(
    r: Readout,
    branch: RenderedBranch,
    out: BranchOutput,
    label_ids: Seq<Token>,
    x: Reading,
    m: int,
)
    requires
        r is Pointer,
        is_reading(r, branch, out, label_ids, x),
        0 <= m < branch.marks@.len() <= usize::MAX,
        m < out.rows@.len(),
    ensures
        x is Rows,
        branch.marks@[m].1 is OptEnd <==> x->options@.contains(m as usize),
        branch.marks@[m].1 is Decide ==> m <= x->decide,
        branch.marks@[x->decide as int].1 is Decide,
        forall|a: int, b: int|
            0 <= a < b < x->options@.len() ==> #[trigger] x->options@[a] < #[trigger] x->options@[b],
{
    let n = rows_read(branch.marks@.len(), out.rows@.len());
    option_rows_close_options(branch.marks@, n, m);
    the_decide_row_decides(branch.marks@, n, m);
}

/// Letters are resolved exactly where the vocabulary has each of them as one
/// token.
pub proof fn letters_pass_exactly_when_each_is_a_token<B: Backend>(b: &B, k: nat)
    ensures
        labels_fault(b, k) is None <==> forall|i: int|
            0 <= i < k ==> (b.text_tokens(#[trigger] letter(i)) matches Ok(t) && t.len() == 1),
    decreases k,
{
    if k > 0 {
        letters_pass_exactly_when_each_is_a_token(b, (k - 1) as nat);
        if labels_fault(b, k) is Some {
            assert(letter(k - 1) == letter(k - 1));
        }
    }
}

} // verus!

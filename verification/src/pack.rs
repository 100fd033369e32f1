//! Tokenizing rendered segments and finding the tokens the readout wants.

use vstd::prelude::*;

use crate::backend::{Backend, BranchTokens, BranchTokensView, Token};
use crate::error::{Error, ErrorView};
use crate::render::{
    branches_of, seg_views, BranchView, Mark, Rendered, RenderedBranch, Segment, SegmentView,
};

verus! {

/// A tokenized request ready for the backend.
#[derive(Debug)]
pub struct Packed {
    pub prefix: Vec<Token>,
    pub branches: Vec<BranchTokens>,
}

/// The tokens of one segment.
pub open spec fn segment_tokens<B: Backend>(b: &B, s: SegmentView) -> Result<
    Seq<Token>,
    ErrorView,
> {
    match s {
        SegmentView::Bos => Ok(seq![b.bos_token()]),
        SegmentView::Special(name) => match b.special_token(name) {
            Ok(t) => Ok(seq![t]),
            Err(e) => Err(e),
        },
        SegmentView::Text(t) => b.text_tokens(t),
    }
}

/// The error of the first segment the backend refuses.
pub open spec fn token_fault<B: Backend>(b: &B, s: Seq<SegmentView>) -> Option<ErrorView>
    decreases s.len(),
{
    if s.len() == 0 {
        None
    } else {
        match token_fault(b, s.drop_last()) {
            Some(e) => Some(e),
            None => match segment_tokens(b, s.last()) {
                Ok(_) => None,
                Err(e) => Some(e),
            },
        }
    }
}

/// The tokens of segments, one after the other.
pub open spec fn all_tokens<B: Backend>(b: &B, s: Seq<SegmentView>) -> Seq<Token>
    decreases s.len(),
{
    if s.len() == 0 {
        Seq::empty()
    } else {
        all_tokens(b, s.drop_last()) + segment_tokens(b, s.last())->Ok_0
    }
}

/// The place of the last token of the segments up to `i`, zero while there is
/// none.
pub open spec fn end_of<B: Backend>(b: &B, s: Seq<SegmentView>, i: int) -> usize {
    let n = all_tokens(b, s.take(i + 1)).len();
    if n == 0 {
        0
    } else {
        (n - 1) as usize
    }
}

/// The place of the last token of each segment.
pub open spec fn ends<B: Backend>(b: &B, s: Seq<SegmentView>) -> Seq<usize> {
    Seq::new(s.len(), |i: int| end_of(b, s, i))
}

proof fn token_fault_prefix<B: Backend>(b: &B, s: Seq<SegmentView>, i: int)
    requires
        0 <= i <= s.len(),
        token_fault(b, s.take(i)) is Some,
    ensures
        token_fault(b, s) == token_fault(b, s.take(i)),
    decreases s.len() - i,
{
    if i < s.len() {
        assert(s.take(i + 1).drop_last() =~= s.take(i));
        token_fault_prefix(b, s, i + 1);
    } else {
        assert(s.take(i) =~= s);
    }
}

/// Tokens of the segments and, per segment, the index of its last token.
pub fn tokenize_segments<B: Backend>(backend: &B, segments: &Vec<Segment>) -> (r: Result<
    (Vec<Token>, Vec<usize>),
    Error,
>)
    ensures
        match r {
            Ok(t) => token_fault(backend, seg_views(segments@)) is None && t.0@ == all_tokens(
                backend,
                seg_views(segments@),
            ) && t.1@ == ends(backend, seg_views(segments@)),
            Err(e) => token_fault(backend, seg_views(segments@)) == Some(e@),
        },
{
    let ghost s = seg_views(segments@);
    let mut tokens: Vec<Token> = Vec::new();
    let mut ends_of: Vec<usize> = Vec::new();
    let mut i: usize = 0;
    while i < segments.len()
        invariant
            0 <= i <= segments@.len(),
            s == seg_views(segments@),
            token_fault(backend, s.take(i as int)) is None,
            tokens@ == all_tokens(backend, s.take(i as int)),
            ends_of@ == ends(backend, s).take(i as int),
        decreases segments@.len() - i,
    {
        proof {
            assert(s.take(i as int + 1).drop_last() =~= s.take(i as int));
            assert(s.take(i as int + 1).last() == segments@[i as int]@);
            assert(segment_tokens(backend, segments@[i as int]@) is Err ==> token_fault(
                backend,
                s.take(i as int + 1),
            ) is Some);
            if segment_tokens(backend, segments@[i as int]@) is Err {
                token_fault_prefix(backend, s, i as int + 1);
            }
        }
        match &segments[i] {
            Segment::Bos => {
                tokens.push(backend.bos());
            },
            Segment::Special(name) => match backend.special(name.as_str()) {
                Ok(t) => {
                    tokens.push(t);
                },
                Err(e) => {
                    return Err(e);
                },
            },
            Segment::Text(t) => match backend.tokenize(t.as_str()) {
                Ok(v) => {
                    let mut more: Vec<Token> = v;
                    tokens.append(&mut more);
                },
                Err(e) => {
                    return Err(e);
                },
            },
        }
        assert(tokens@ =~= all_tokens(backend, s.take(i as int + 1)));
        let end: usize = if tokens.len() == 0 {
            0
        } else {
            tokens.len() - 1
        };
        ends_of.push(end);
        i += 1;
        assert(ends_of@ =~= ends(backend, s).take(i as int));
    }
    assert(s.take(i as int) =~= s);
    assert(ends_of@ =~= ends(backend, s));
    Ok((tokens, ends_of))
}

/// The places a branch's marks ask for: the last token for [`Mark::Last`],
/// else the last token of the marked segment.
pub open spec fn wanted_places(
    marks: Seq<(usize, Mark)>,
    n_tokens: nat,
    ends: Seq<usize>,
) -> Seq<usize> {
    marks.map_values(
        |m: (usize, Mark)|
            match m.1 {
                Mark::Last => (n_tokens - 1) as usize,
                _ => ends[m.0 as int],
            },
    )
}

/// A branch's tokens and wanted places.
pub open spec fn packed_branch<B: Backend>(b: &B, v: BranchView) -> BranchTokensView {
    let tokens = all_tokens(b, v.segments);
    BranchTokensView { tokens, want: wanted_places(v.marks, tokens.len(), ends(b, v.segments)) }
}

/// The error of the first branch the backend cannot tokenize.
pub open spec fn branches_fault<B: Backend>(b: &B, vs: Seq<BranchView>) -> Option<ErrorView>
    decreases vs.len(),
{
    if vs.len() == 0 {
        None
    } else {
        match branches_fault(b, vs.drop_last()) {
            Some(e) => Some(e),
            None => token_fault(b, vs.last().segments),
        }
    }
}

proof fn branches_fault_prefix<B: Backend>(b: &B, vs: Seq<BranchView>, i: int)
    requires
        0 <= i <= vs.len(),
        branches_fault(b, vs.take(i)) is Some,
    ensures
        branches_fault(b, vs) == branches_fault(b, vs.take(i)),
    decreases vs.len() - i,
{
    if i < vs.len() {
        assert(vs.take(i + 1).drop_last() =~= vs.take(i));
        branches_fault_prefix(b, vs, i + 1);
    } else {
        assert(vs.take(i) =~= vs);
    }
}

/// The marks of a branch can be read: they name its segments, and where the
/// last token is marked there is one.
pub open spec fn marks_readable<B: Backend>(b: &B, v: BranchView) -> bool {
    forall|m: int|
        0 <= m < v.marks.len() ==> match (#[trigger] v.marks[m]).1 {
            Mark::Last => token_fault(b, v.segments) is None ==> all_tokens(b, v.segments).len() > 0,
            _ => v.marks[m].0 < v.segments.len(),
        }
}

/// The views of packed branches.
pub open spec fn packed_views(v: Seq<BranchTokens>) -> Seq<BranchTokensView> {
    v.map_values(|x: BranchTokens| x@)
}

/// Tokenizes every branch and finds the tokens its marks ask for.
pub fn pack_branches<B: Backend>(backend: &B, branches: &Vec<RenderedBranch>) -> (r: Result<
    Vec<BranchTokens>,
    Error,
>)
    requires
        forall|i: int|
            0 <= i < branches@.len() ==> marks_readable(backend, (#[trigger] branches@[i])@),
    ensures
        match r {
            Ok(p) => branches_fault(backend, branches_of(branches@)) is None && packed_views(p@)
                == branches_of(branches@).map_values(|v: BranchView| packed_branch(backend, v)),
            Err(e) => branches_fault(backend, branches_of(branches@)) == Some(e@),
        },
{
    let ghost vs = branches_of(branches@);
    let mut out: Vec<BranchTokens> = Vec::new();
    let mut i: usize = 0;
    while i < branches.len()
        invariant
            0 <= i <= branches@.len(),
            vs == branches_of(branches@),
            forall|j: int|
                0 <= j < branches@.len() ==> marks_readable(backend, (#[trigger] branches@[j])@),
            branches_fault(backend, vs.take(i as int)) is None,
            out@.len() == i,
            forall|j: int| 0 <= j < i ==> (#[trigger] out@[j])@ == packed_branch(backend, vs[j]),
        decreases branches@.len() - i,
    {
        let b = &branches[i];
        proof {
            assert(vs[i as int] == b@);
            assert(vs.take(i as int + 1).drop_last() =~= vs.take(i as int));
            assert(vs.take(i as int + 1).last() == b@);
            if token_fault(backend, b@.segments) is Some {
                branches_fault_prefix(backend, vs, i as int + 1);
            }
            assert(marks_readable(backend, b@));
            assert(seg_views(b.segments@).len() == b.segments@.len());
        }
        let (tokens, ends_of) = match tokenize_segments(backend, &b.segments) {
            Ok(t) => t,
            Err(e) => {
                return Err(e);
            },
        };
        let ghost all = wanted_places(b.marks@, tokens@.len(), ends_of@);
        let mut want: Vec<usize> = Vec::new();
        let mut m: usize = 0;
        while m < b.marks.len()
            invariant
                0 <= m <= b.marks@.len(),
                all == wanted_places(b.marks@, tokens@.len(), ends_of@),
                want@ == all.take(m as int),
                ends_of@.len() == b.segments@.len(),
                b@.segments.len() == b.segments@.len(),
                token_fault(backend, b@.segments) is None,
                tokens@ == all_tokens(backend, b@.segments),
                marks_readable(backend, b@),
            decreases b.marks@.len() - m,
        {
            assert(b@.marks[m as int] == b.marks@[m as int]);
            let (seg, mark) = b.marks[m];
            let at: usize = match mark {
                Mark::Last => tokens.len() - 1,
                _ => ends_of[seg],
            };
            want.push(at);
            m += 1;
            assert(want@ =~= all.take(m as int));
        }
        assert(want@ =~= all);
        out.push(BranchTokens { tokens, want });
        i += 1;
    }
    assert(vs.take(i as int) =~= vs);
    assert(packed_views(out@) =~= vs.map_values(|v: BranchView| packed_branch(backend, v)));
    Ok(out)
}

/// Tokenizes a rendered request: its prefix, then its branches.
pub fn pack<B: Backend>(backend: &B, rendered: &Rendered) -> (r: Result<Packed, Error>)
    requires
        forall|i: int|
            0 <= i < rendered.branches@.len() ==> marks_readable(
                backend,
                (#[trigger] rendered.branches@[i])@,
            ),
    ensures
        ({
            let prefix = seg_views(rendered.prefix@);
            let vs = branches_of(rendered.branches@);
            let fault = match token_fault(backend, prefix) {
                Some(e) => Some(e),
                None => branches_fault(backend, vs),
            };
            match r {
                Ok(p) => fault is None && p.prefix@ == all_tokens(backend, prefix) && packed_views(
                    p.branches@,
                ) == vs.map_values(|v: BranchView| packed_branch(backend, v)),
                Err(e) => fault == Some(e@),
            }
        }),
{
    let (prefix, _ends) = match tokenize_segments(backend, &rendered.prefix) {
        Ok(t) => t,
        Err(e) => {
            return Err(e);
        },
    };
    match pack_branches(backend, &rendered.branches) {
        Ok(branches) => Ok(Packed { prefix, branches }),
        Err(e) => Err(e),
    }
}

proof fn tokens_of_both<B: Backend>(b: &B, x: Seq<SegmentView>, y: Seq<SegmentView>)
    ensures
        all_tokens(b, x + y) == all_tokens(b, x) + all_tokens(b, y),
    decreases y.len(),
{
    if y.len() == 0 {
        assert(x + y =~= x);
        assert(all_tokens(b, x) + all_tokens(b, y) =~= all_tokens(b, x));
    } else {
        tokens_of_both(b, x, y.drop_last());
        assert((x + y).drop_last() =~= x + y.drop_last());
        assert(all_tokens(b, x + y) =~= all_tokens(b, x) + all_tokens(b, y));
    }
}

/// A branch's tokens are its segments' one after the other: the marker for a
/// start, the special token for a special one, the text's own for text. The
/// place that closes a segment is that of its last token.
pub proof fn segments_keep_their_tokens<B: Backend>(b: &B, s: Seq<SegmentView>, i: int, j: int)
    requires
        0 <= i < s.len(),
        all_tokens(b, s).len() <= usize::MAX,
        segment_tokens(b, s[i]) is Ok,
        0 <= j < segment_tokens(b, s[i])->Ok_0.len(),
    ensures
        ({
            let own = segment_tokens(b, s[i])->Ok_0;
            let start = all_tokens(b, s.take(i)).len();
            &&& start + own.len() <= all_tokens(b, s).len()
            &&& all_tokens(b, s)[start + j] == own[j]
            &&& ends(b, s)[i] == start + own.len() - 1
            &&& all_tokens(b, s)[ends(b, s)[i] as int] == own.last()
        }),
        s[i] is Bos ==> segment_tokens(b, s[i])->Ok_0 == seq![b.bos_token()],
        s[i] is Special ==> b.special_token(s[i]->Special_0) is Ok && segment_tokens(b, s[i])->Ok_0
            == seq![b.special_token(s[i]->Special_0)->Ok_0],
        s[i] is Text ==> b.text_tokens(s[i]->Text_0) == Ok::<Seq<Token>, ErrorView>(
            segment_tokens(b, s[i])->Ok_0,
        ),
{
    let own = segment_tokens(b, s[i])->Ok_0;
    let upto = s.take(i + 1);
    assert(upto.drop_last() =~= s.take(i));
    assert(all_tokens(b, upto) == all_tokens(b, s.take(i)) + own);
    assert(s =~= upto + s.skip(i + 1));
    tokens_of_both(b, upto, s.skip(i + 1));
}

/// Every mark of a branch wants a place: one at the end of an option or at the
/// deciding token the last of its segment, the last mark the last of all.
pub proof fn marks_want_their_places<B: Backend>(b: &B, v: BranchView, m: int)
    requires
        0 <= m < v.marks.len(),
        all_tokens(b, v.segments).len() <= usize::MAX,
    ensures
        packed_branch(b, v).tokens == all_tokens(b, v.segments),
        packed_branch(b, v).want.len() == v.marks.len(),
        v.marks[m].1 is Last && all_tokens(b, v.segments).len() > 0 ==> packed_branch(b, v).want[m]
            == all_tokens(b, v.segments).len() - 1,
        !(v.marks[m].1 is Last) ==> packed_branch(b, v).want[m] == ends(b, v.segments)[v.marks[m].0 as int],
{
}

/// A list of segments is refused exactly where one of them has no tokens to
/// give, with the error of the first such.
pub proof fn the_first_bad_segment_is_refused<B: Backend>(b: &B, s: Seq<SegmentView>, i: int)
    requires
        0 <= i < s.len(),
        segment_tokens(b, s[i]) is Err,
        forall|j: int| 0 <= j < i ==> segment_tokens(b, #[trigger] s[j]) is Ok,
    ensures
        token_fault(b, s) == Some(segment_tokens(b, s[i])->Err_0),
    decreases s.len(),
{
    let rest = s.drop_last();
    if i < s.len() - 1 {
        assert(rest[i] == s[i]);
        assert forall|j: int| 0 <= j < i implies segment_tokens(b, #[trigger] rest[j]) is Ok by {
            assert(rest[j] == s[j]);
        }
        the_first_bad_segment_is_refused(b, rest, i);
    } else {
        good_segments_pass(b, rest);
    }
}

proof fn good_segments_pass<B: Backend>(b: &B, s: Seq<SegmentView>)
    requires
        forall|j: int| 0 <= j < s.len() ==> segment_tokens(b, #[trigger] s[j]) is Ok,
    ensures
        token_fault(b, s) is None,
    decreases s.len(),
{
    if s.len() > 0 {
        let rest = s.drop_last();
        assert forall|j: int| 0 <= j < rest.len() implies segment_tokens(
            b,
            #[trigger] rest[j],
        ) is Ok by {
            assert(rest[j] == s[j]);
        }
        good_segments_pass(b, rest);
        assert(segment_tokens(b, s[s.len() - 1]) is Ok);
    }
}

/// Branches are tokenized exactly where the text of each can be.
pub proof fn branches_pass_exactly_when_each_does<B: Backend>(b: &B, vs: Seq<BranchView>)
    ensures
        branches_fault(b, vs) is None <==> forall|i: int|
            0 <= i < vs.len() ==> token_fault(b, (#[trigger] vs[i]).segments) is None,
    decreases vs.len(),
{
    if vs.len() > 0 {
        let d = vs.drop_last();
        branches_pass_exactly_when_each_does(b, d);
        assert(forall|i: int| 0 <= i < d.len() ==> #[trigger] d[i] == vs[i]);
        if branches_fault(b, vs) is None {
            assert forall|i: int| 0 <= i < vs.len() implies token_fault(
                b,
                (#[trigger] vs[i]).segments,
            ) is None by {
                if i < d.len() {
                    assert(d[i] == vs[i]);
                }
            }
        } else {
            if forall|i: int|
                0 <= i < vs.len() ==> token_fault(b, (#[trigger] vs[i]).segments) is None {
                assert(token_fault(b, vs[vs.len() - 1].segments) is None);
                assert forall|i: int| 0 <= i < d.len() implies token_fault(
                    b,
                    (#[trigger] d[i]).segments,
                ) is None by {
                    assert(d[i] == vs[i]);
                }
            }
        }
    }
}

} // verus!

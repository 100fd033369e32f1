//! The cache of option logits over a content-free state. A baseline depends on
//! the question alone, so a fixed question set over changing states pays for
//! it once.

use vstd::prelude::*;

use crate::render::{seg_views, RenderedBranch, Segment, SegmentView};
use crate::text::{same, texts};

verus! {

/// The content-free state of contextual calibration.
pub const CONTENT_FREE: &'static str = "N/A";

/// What a baseline depends on: the content-free state and the branch as it is
/// rendered.
#[verifier::ext_equal]
pub struct BaselineKey {
    pub state: Seq<char>,
    pub segments: Seq<SegmentView>,
    pub keys: Seq<Seq<char>>,
}

/// The key of a branch over a content-free state.
pub open spec fn baseline_key(state: Seq<char>, b: RenderedBranch) -> BaselineKey {
    BaselineKey { state, segments: seg_views(b.segments@), keys: texts(b.keys@) }
}

#[derive(Debug)]
struct Entry {
    state: String,
    segments: Vec<Segment>,
    keys: Vec<String>,
    logits: Vec<u32>,
}

impl Entry {
    spec fn key(self) -> BaselineKey {
        BaselineKey {
            state: self.state@,
            segments: seg_views(self.segments@),
            keys: texts(self.keys@),
        }
    }
}

/// Option logits (bit patterns of single-precision numbers) by branch.
#[derive(Debug)]
pub struct BaselineCache {
    entries: Vec<Entry>,
}

/// Whether two segments are the same.
pub fn same_segment(a: &Segment, b: &Segment) -> (r: bool)
    ensures
        r == (a@ == b@),
{
    match (a, b) {
        (Segment::Bos, Segment::Bos) => true,
        (Segment::Text(x), Segment::Text(y)) => same(x.as_str(), y.as_str()),
        (Segment::Special(x), Segment::Special(y)) => same(x.as_str(), y.as_str()),
        _ => false,
    }
}

/// Whether two lists of segments are the same.
pub fn same_segments(a: &Vec<Segment>, b: &Vec<Segment>) -> (r: bool)
    ensures
        r == (seg_views(a@) == seg_views(b@)),
{
    if a.len() != b.len() {
        assert(seg_views(a@).len() != seg_views(b@).len());
        return false;
    }
    let mut i: usize = 0;
    while i < a.len()
        invariant
            0 <= i <= a@.len(),
            a@.len() == b@.len(),
            forall|j: int| 0 <= j < i ==> (#[trigger] a@[j])@ == b@[j]@,
        decreases a@.len() - i,
    {
        if !same_segment(&a[i], &b[i]) {
            assert(seg_views(a@)[i as int] != seg_views(b@)[i as int]);
            return false;
        }
        i += 1;
    }
    assert(seg_views(a@) =~= seg_views(b@));
    true
}

/// Whether two lists of strings are the same.
pub fn same_texts(a: &Vec<String>, b: &Vec<String>) -> (r: bool)
    ensures
        r == (texts(a@) == texts(b@)),
{
    if a.len() != b.len() {
        assert(texts(a@).len() != texts(b@).len());
        return false;
    }
    let mut i: usize = 0;
    while i < a.len()
        invariant
            0 <= i <= a@.len(),
            a@.len() == b@.len(),
            forall|j: int| 0 <= j < i ==> (#[trigger] a@[j])@ == b@[j]@,
        decreases a@.len() - i,
    {
        if !same(a[i].as_str(), b[i].as_str()) {
            assert(texts(a@)[i as int] != texts(b@)[i as int]);
            return false;
        }
        i += 1;
    }
    assert(texts(a@) =~= texts(b@));
    true
}

fn copy_texts(a: &Vec<String>) -> (r: Vec<String>)
    ensures
        texts(r@) == texts(a@),
{
    let mut out: Vec<String> = Vec::new();
    let mut i: usize = 0;
    while i < a.len()
        invariant
            0 <= i <= a@.len(),
            out@.len() == i,
            forall|j: int| 0 <= j < i ==> (#[trigger] out@[j])@ == a@[j]@,
        decreases a@.len() - i,
    {
        out.push(a[i].clone());
        i += 1;
    }
    assert(texts(out@) =~= texts(a@));
    out
}

fn copy_segments(a: &Vec<Segment>) -> (r: Vec<Segment>)
    ensures
        seg_views(r@) == seg_views(a@),
{
    let mut out: Vec<Segment> = Vec::new();
    let mut i: usize = 0;
    while i < a.len()
        invariant
            0 <= i <= a@.len(),
            out@.len() == i,
            forall|j: int| 0 <= j < i ==> (#[trigger] out@[j])@ == a@[j]@,
        decreases a@.len() - i,
    {
        out.push(a[i].clone());
        i += 1;
    }
    assert(seg_views(out@) =~= seg_views(a@));
    out
}

/// The places among the first `n` branches whose baseline is not known.
pub open spec fn unknown(
    cache: Map<BaselineKey, Seq<u32>>,
    state: Seq<char>,
    bs: Seq<RenderedBranch>,
    n: nat,
) -> Seq<usize>
    decreases n,
{
    if n == 0 {
        Seq::empty()
    } else {
        let r = unknown(cache, state, bs, (n - 1) as nat);
        if cache.dom().contains(baseline_key(state, bs[n - 1])) {
            r
        } else {
            r.push((n - 1) as usize)
        }
    }
}

impl BaselineCache {
    spec fn index_of(self, key: BaselineKey) -> int {
        choose|i: int| 0 <= i < self.entries@.len() && (#[trigger] self.entries@[i]).key() == key
    }

    spec fn has(self, key: BaselineKey) -> bool {
        exists|i: int| 0 <= i < self.entries@.len() && (#[trigger] self.entries@[i]).key() == key
    }

    /// No branch is held twice.
    pub closed spec fn well_formed(self) -> bool {
        forall|i: int, j: int|
            0 <= i < j < self.entries@.len() ==> (#[trigger] self.entries@[i]).key() != (
            #[trigger] self.entries@[j]).key()
    }

    /// The logits by branch.
    pub closed spec fn view(self) -> Map<BaselineKey, Seq<u32>> {
        Map::new(
            |k: BaselineKey| self.has(k),
            |k: BaselineKey| self.entries@[self.index_of(k)].logits@,
        )
    }

    pub fn new() -> (r: BaselineCache)
        ensures
            r.well_formed(),
            r@ == Map::<BaselineKey, Seq<u32>>::empty(),
    {
        let r = BaselineCache { entries: Vec::new() };
        assert(r@ =~= Map::<BaselineKey, Seq<u32>>::empty());
        r
    }

    fn find(&self, state: &str, b: &RenderedBranch) -> (r: Option<usize>)
        requires
            self.well_formed(),
        ensures
            match r {
                Some(i) => i < self.entries@.len() && self.entries@[i as int].key() == baseline_key(
                    state@,
                    *b,
                ),
                None => !self.has(baseline_key(state@, *b)),
            },
    {
        let ghost key = baseline_key(state@, *b);
        let mut i: usize = 0;
        while i < self.entries.len()
            invariant
                0 <= i <= self.entries@.len(),
                key == baseline_key(state@, *b),
                forall|j: int| 0 <= j < i ==> (#[trigger] self.entries@[j]).key() != key,
            decreases self.entries@.len() - i,
        {
            let e = &self.entries[i];
            if same(e.state.as_str(), state) && same_segments(&e.segments, &b.segments)
                && same_texts(&e.keys, &b.keys) {
                return Some(i);
            }
            i += 1;
        }
        None
    }

    /// The places of the branches whose baseline over `state` is not known,
    /// in order.
    pub fn missing(&self, state: &str, branches: &Vec<RenderedBranch>) -> (r: Vec<usize>)
        requires
            self.well_formed(),
        ensures
            r@ == unknown(self@, state@, branches@, branches@.len()),
    {
        let mut out: Vec<usize> = Vec::new();
        let mut i: usize = 0;
        while i < branches.len()
            invariant
                0 <= i <= branches@.len(),
                self.well_formed(),
                out@ == unknown(self@, state@, branches@, i as nat),
            decreases branches@.len() - i,
        {
            match self.find(state, &branches[i]) {
                Some(j) => {
                    assert(self.has(baseline_key(state@, branches@[i as int])));
                },
                None => {
                    out.push(i);
                },
            }
            i += 1;
        }
        out
    }

    /// The known baseline of a branch.
    pub fn get(&self, state: &str, b: &RenderedBranch) -> (r: Option<Vec<u32>>)
        requires
            self.well_formed(),
        ensures
            match r {
                Some(v) => self@.dom().contains(baseline_key(state@, *b)) && v@
                    == self@[baseline_key(state@, *b)],
                None => !self@.dom().contains(baseline_key(state@, *b)),
            },
    {
        match self.find(state, b) {
            Some(i) => {
                proof {
                    let key = baseline_key(state@, *b);
                    let j = self.index_of(key);
                    assert(self.has(key));
                    assert(self.entries@[i as int].key() == self.entries@[j].key());
                }
                Some(self.entries[i].logits.clone())
            },
            None => None,
        }
    }

    /// Keeps the baseline of a branch, replacing what was known.
    pub fn insert(&mut self, state: &str, b: &RenderedBranch, logits: Vec<u32>)
        requires
            old(self).well_formed(),
        ensures
            final(self).well_formed(),
            final(self)@ == old(self)@.insert(baseline_key(state@, *b), logits@),
    {
        let ghost key = baseline_key(state@, *b);
        let ghost before = *self;
        match self.find(state, b) {
            Some(i) => {
                let e = Entry {
                    state: state.to_owned(),
                    segments: copy_segments(&b.segments),
                    keys: copy_texts(&b.keys),
                    logits,
                };
                assert(e.key() == key);
                self.entries.set(i, e);
                proof {
                    assert(self.entries@[i as int].key() == key);
                    assert forall|a: int, c: int| 0 <= a < c < self.entries@.len() implies (
                    #[trigger] self.entries@[a]).key() != (#[trigger] self.entries@[c]).key() by {
                        assert(before.entries@[a].key() != before.entries@[c].key());
                    }
                }
            },
            None => {
                let e = Entry {
                    state: state.to_owned(),
                    segments: copy_segments(&b.segments),
                    keys: copy_texts(&b.keys),
                    logits,
                };
                assert(e.key() == key);
                self.entries.push(e);
                proof {
                    assert forall|a: int, c: int| 0 <= a < c < self.entries@.len() implies (
                    #[trigger] self.entries@[a]).key() != (#[trigger] self.entries@[c]).key() by {
                        if c == before.entries@.len() {
                            assert(before.entries@[a].key() != key);
                        } else {
                            assert(before.entries@[a].key() != before.entries@[c].key());
                        }
                    }
                    assert(self.entries@[before.entries@.len() as int].key() == key);
                }
            },
        }
        proof {
            let now = *self;
            let at = if before.has(key) {
                choose|i: int|
                    0 <= i < now.entries@.len() && (#[trigger] now.entries@[i]).key() == key
            } else {
                before.entries@.len() as int
            };
            assert(now.entries@[at].key() == key);
            assert(now.entries@[at].logits@ == logits@);
            assert forall|k: BaselineKey| now.has(k) == (before.has(k) || k == key) by {
                if before.has(k) {
                    let i = before.index_of(k);
                    assert(before.entries@[i].key() == k);
                    assert(now.entries@[i].key() == k);
                }
                if now.has(k) && k != key {
                    let i = now.index_of(k);
                    assert(now.entries@[i].key() == k);
                    assert(before.entries@[i].key() == k);
                }
            }
            assert forall|k: BaselineKey| now.has(k) implies #[trigger] now@[k] == before@.insert(
                key,
                logits@,
            )[k] by {
                let i = now.index_of(k);
                assert(now.entries@[i].key() == k);
                if k == key {
                    if i != at {
                        if i < at {
                            assert(now.entries@[i].key() != now.entries@[at].key());
                        } else {
                            assert(now.entries@[at].key() != now.entries@[i].key());
                        }
                    }
                } else {
                    assert(before.entries@[i] == now.entries@[i]);
                    let j = before.index_of(k);
                    assert(before.has(k));
                    assert(before.entries@[j].key() == k);
                    if i < j {
                        assert(before.entries@[i].key() != before.entries@[j].key());
                    }
                    if j < i {
                        assert(before.entries@[j].key() != before.entries@[i].key());
                    }
                }
            }
            assert(now@ =~= before@.insert(key, logits@));
        }
    }
}

/// A baseline that was kept is known from then on, whatever is kept after it:
/// its branch is not missing again.
pub proof fn kept_baselines_stay_known(
    cache: Map<BaselineKey, Seq<u32>>,
    later: Map<BaselineKey, Seq<u32>>,
    state: Seq<char>,
    bs: Seq<RenderedBranch>,
    n: nat,
)
    requires
        n <= bs.len() <= usize::MAX,
        cache.dom().subset_of(later.dom()),
    ensures
        forall|j: usize|
            #[trigger] unknown(later, state, bs, n).contains(j) ==> j < n
                && !cache.dom().contains(baseline_key(state, bs[j as int])),
    decreases n,
{
    if n > 0 {
        kept_baselines_stay_known(cache, later, state, bs, (n - 1) as nat);
        let r = unknown(later, state, bs, (n - 1) as nat);
        let key = baseline_key(state, bs[n - 1]);
        assert forall|j: usize|
            #[trigger] unknown(later, state, bs, n).contains(j) implies j < n
            && !cache.dom().contains(baseline_key(state, bs[j as int])) by {
            if r.contains(j) {
            } else {
                assert(unknown(later, state, bs, n) == r.push((n - 1) as usize));
                assert(j == (n - 1) as usize);
            }
        }
    }
}

/// The branches whose baseline is missing are exactly those that the cache does
/// not hold, in order; a branch is held by its state, its text and its keys.
pub proof fn missing_baselines_are_not_held(
    cache: Map<BaselineKey, Seq<u32>>,
    state: Seq<char>,
    bs: Seq<RenderedBranch>,
    n: nat,
    i: int,
)
    requires
        n <= bs.len() <= usize::MAX,
        0 <= i < n,
    ensures
        unknown(cache, state, bs, n).contains(i as usize) <==> !cache.dom().contains(
            baseline_key(state, bs[i]),
        ),
        forall|a: int|
            0 <= a < unknown(cache, state, bs, n).len() ==> (#[trigger] unknown(
                cache,
                state,
                bs,
                n,
            )[a]) < n,
        forall|a: int, b: int|
            0 <= a < b < unknown(cache, state, bs, n).len() ==> #[trigger] unknown(
                cache,
                state,
                bs,
                n,
            )[a] < #[trigger] unknown(cache, state, bs, n)[b],
    decreases n,
{
    let all = unknown(cache, state, bs, n);
    let rest = unknown(cache, state, bs, (n - 1) as nat);
    if n > 1 {
        missing_baselines_are_not_held(cache, state, bs, (n - 1) as nat, if i < n - 1 {
            i
        } else {
            0
        });
    }
    assert(unknown(cache, state, bs, 0).len() == 0);
    if !cache.dom().contains(baseline_key(state, bs[n - 1])) {
        assert(all[rest.len() as int] == (n - 1) as usize);
        if rest.contains(i as usize) {
            let k = rest.index_of(i as usize);
            assert(all[k] == i as usize);
        }
    }
}

/// Branches have one baseline exactly where the state, every segment and every
/// key are the same.
pub proof fn baselines_are_told_apart(
    s: Seq<char>,
    t: Seq<char>,
    a: RenderedBranch,
    b: RenderedBranch,
)
    ensures
        baseline_key(s, a) == baseline_key(t, b) <==> s == t && seg_views(a.segments@) == seg_views(
            b.segments@,
        ) && texts(a.keys@) == texts(b.keys@),
{
}

} // verus!

//! The rules of a backend that keeps the state of recent prefixes: which
//! sequence ids requests get, what goes into a batch and where its rows go
//! back to, and the cache of serialized states.
//!
//! The state prefix is decoded once into sequence 0. Every question branch
//! gets its own sequence id and the prefix cells, and all branches are appended
//! to one batch; a branch token attends to prefix cells and to its own sequence
//! only. Positions restart at the end of the prefix per branch.

use vstd::prelude::*;
use vstd::string::StringExecFns;
use vstd::string::StringSliceAdditionalSpecFns;

use crate::backend::{PrefixSource, Token};
use crate::pyjson::hex_digit;
use crate::text::same;

verus! {

/// How a model is opened.
#[derive(Debug)]
pub struct Options {
    pub n_ctx: u32,
    pub n_batch: u32,
    pub n_ubatch: u32,
    pub n_seq_max: u32,
    pub n_gpu_layers: u32,
    pub n_threads: i32,
    /// Keep the full sliding-window cache.
    pub swa_full: bool,
    /// Flash attention: left to the runtime, or forced on or off.
    pub flash: Option<bool>,
    /// Expose hidden states (pointer readout).
    pub embeddings: bool,
    /// Memory budget for serialized states of recently seen prefixes; 0 keeps
    /// only the resident prefix.
    pub state_cache_bytes: usize,
    /// Directory for the on-disk copy of every cached state.
    pub state_cache_dir: Option<String>,
    /// Decode several requests in one call.
    pub batch_requests: bool,
}

impl Default for Options {
    fn default() -> (r: Options)
        ensures
            r.n_ctx == 8192,
            r.n_batch == 8192,
            r.n_ubatch == 512,
            r.n_seq_max == 64,
            r.n_gpu_layers == 999,
            r.n_threads == 8,
            !r.swa_full,
            r.flash is None,
            !r.embeddings,
            r.state_cache_bytes == 0x2000_0000,
            r.state_cache_dir is None,
            !r.batch_requests,
    {
        Options {
            n_ctx: 8192,
            n_batch: 8192,
            n_ubatch: 512,
            n_seq_max: 64,
            n_gpu_layers: 999,
            n_threads: 8,
            swa_full: false,
            flash: None,
            embeddings: false,
            state_cache_bytes: 0x2000_0000,
            state_cache_dir: None,
            batch_requests: false,
        }
    }
}

/// Whether two token lists are the same.
pub fn same_tokens(a: &Vec<Token>, b: &Vec<Token>) -> (r: bool)
    ensures
        r == (a@ == b@),
{
    if a.len() != b.len() {
        return false;
    }
    let mut i: usize = 0;
    while i < a.len()
        invariant
            0 <= i <= a@.len(),
            a@.len() == b@.len(),
            forall|j: int| 0 <= j < i ==> #[trigger] a@[j] == b@[j],
        decreases a@.len() - i,
    {
        if a[i].0 != b[i].0 {
            return false;
        }
        i += 1;
    }
    assert(a@ =~= b@);
    true
}

/// A serialized state of a prefix and its size in bytes.
#[derive(Debug)]
pub struct StateEntry<S> {
    pub prefix: Vec<Token>,
    pub state: S,
    pub bytes: usize,
}

/// An entry with its prefix as a sequence.
pub type EntryView<S> = (Seq<Token>, S, usize);

/// The views of entries.
pub open spec fn entry_views<S>(v: Seq<StateEntry<S>>) -> Seq<EntryView<S>> {
    v.map_values(|e: StateEntry<S>| (e.prefix@, e.state, e.bytes))
}

/// The bytes of the first `n` entries.
pub open spec fn bytes_upto<S>(v: Seq<EntryView<S>>, n: nat) -> nat
    decreases n,
{
    if n == 0 {
        0
    } else {
        bytes_upto(v, (n - 1) as nat) + v[n - 1].2 as nat
    }
}

/// Where a prefix stands, the number of entries where it stands nowhere.
pub open spec fn place_of<S>(v: Seq<EntryView<S>>, prefix: Seq<Token>) -> nat
    decreases v.len(),
{
    if v.len() == 0 {
        0
    } else if v[0].0 == prefix {
        0
    } else {
        1 + place_of(v.drop_first(), prefix)
    }
}

/// The entries without that of a prefix.
pub open spec fn without<S>(v: Seq<EntryView<S>>, prefix: Seq<Token>) -> Seq<EntryView<S>> {
    let i = place_of(v, prefix);
    if i < v.len() {
        v.remove(i as int)
    } else {
        v
    }
}

/// The entries after the oldest have left until `room` more bytes fit into the
/// budget.
pub open spec fn made_room<S>(v: Seq<EntryView<S>>, budget: nat, room: nat) -> Seq<EntryView<S>>
    decreases v.len(),
{
    if v.len() > 0 && bytes_upto(v, v.len()) + room > budget {
        made_room(v.drop_first(), budget, room)
    } else {
        v
    }
}

/// Serialized states by the exact prefix tokens, the most recently used last;
/// together they stay within a budget of bytes.
#[derive(Debug)]
pub struct StateCache<S> {
    pub budget: usize,
    pub used: usize,
    pub entries: Vec<StateEntry<S>>,
}

impl<S> StateCache<S> {
    /// The entries, the most recently used last.
    pub open spec fn list(self) -> Seq<EntryView<S>> {
        entry_views(self.entries@)
    }

    /// No prefix occurs twice, and the bytes are counted and within the
    /// budget.
    pub open spec fn wf(self) -> bool {
        &&& self.used == bytes_upto(self.list(), self.list().len())
        &&& self.used <= self.budget
        &&& forall|i: int, j: int|
            #![trigger self.list()[i], self.list()[j]]
            0 <= i < j < self.list().len() ==> self.list()[i].0 != self.list()[j].0
    }

    pub fn new(budget: usize) -> (r: StateCache<S>)
        ensures
            r.wf(),
            r.budget == budget,
            r.list() == Seq::<EntryView<S>>::empty(),
    {
        let r = StateCache { budget, used: 0, entries: Vec::new() };
        assert(r.list() =~= Seq::<EntryView<S>>::empty());
        r
    }

    fn place(&self, prefix: &Vec<Token>) -> (r: usize)
        ensures
            r == place_of(self.list(), prefix@),
            r <= self.entries@.len(),
            r < self.entries@.len() ==> self.entries@[r as int].prefix@ == prefix@,
            forall|j: int| 0 <= j < r ==> (#[trigger] self.entries@[j]).prefix@ != prefix@,
    {
        let ghost ev = self.list();
        let mut i: usize = 0;
        assert(ev.skip(0) =~= ev);
        while i < self.entries.len()
            invariant
                0 <= i <= self.entries@.len(),
                ev == self.list(),
                place_of(ev, prefix@) == i + place_of(ev.skip(i as int), prefix@),
                forall|j: int| 0 <= j < i ==> (#[trigger] self.entries@[j]).prefix@ != prefix@,
            decreases self.entries@.len() - i,
        {
            proof {
                assert(ev[i as int].0 == self.entries@[i as int].prefix@);
                assert(ev.skip(i as int)[0] == ev[i as int]);
                assert(ev.skip(i as int).drop_first() =~= ev.skip(i as int + 1));
            }
            if same_tokens(&self.entries[i].prefix, prefix) {
                return i;
            }
            i += 1;
        }
        assert(ev.skip(i as int).len() == 0);
        i
    }

    fn drop_at(&mut self, i: usize) -> (r: StateEntry<S>)
        requires
            old(self).wf(),
            i < old(self).entries@.len(),
        ensures
            final(self).wf(),
            final(self).budget == old(self).budget,
            final(self).list() == old(self).list().remove(i as int),
            (r.prefix@, r.state, r.bytes) == old(self).list()[i as int],
    {
        let ghost before = self.list();
        let e = self.entries.remove(i);
        let ghost after = self.list();
        proof {
            assert(after =~= before.remove(i as int));
            bytes_without(before, i as int);
            assert forall|a: int, b: int|
                #![trigger after[a], after[b]]
                0 <= a < b < after.len() implies after[a].0 != after[b].0 by {
                let x = if a < i {
                    a
                } else {
                    a + 1
                };
                let y = if b < i {
                    b
                } else {
                    b + 1
                };
                assert(before[x].0 != before[y].0);
            }
        }
        self.used = self.used - e.bytes;
        e
    }

    /// Takes the state of a prefix out.
    pub fn take(&mut self, prefix: &Vec<Token>) -> (r: Option<S>)
        requires
            old(self).wf(),
        ensures
            final(self).wf(),
            final(self).budget == old(self).budget,
            final(self).list() == without(old(self).list(), prefix@),
            match r {
                Some(s) => place_of(old(self).list(), prefix@) < old(self).list().len()
                    && old(self).list()[place_of(old(self).list(), prefix@) as int].1 == s,
                None => place_of(old(self).list(), prefix@) == old(self).list().len(),
            },
    {
        let i: usize = self.place(prefix);
        assert(self.list().len() == self.entries@.len());
        if i < self.entries.len() {
            let e = self.drop_at(i);
            Some(e.state)
        } else {
            None
        }
    }

    /// Keeps the state of a prefix as the most recently used: an earlier one
    /// of the same prefix leaves, then the oldest do until it fits. A state
    /// larger than the whole budget is not kept.
    pub fn put(&mut self, prefix: Vec<Token>, state: S, bytes: usize)
        requires
            old(self).wf(),
        ensures
            final(self).wf(),
            final(self).budget == old(self).budget,
            final(self).list() == (if bytes > old(self).budget {
                old(self).list()
            } else {
                made_room(
                    without(old(self).list(), prefix@),
                    old(self).budget as nat,
                    bytes as nat,
                ).push((prefix@, state, bytes))
            }),
    {
        if bytes > self.budget {
            return;
        }
        let ghost first = self.list();
        let i: usize = self.place(&prefix);
        assert(self.list().len() == self.entries@.len());
        if i < self.entries.len() {
            let _ = self.drop_at(i);
        }
        let ghost rest = without(first, prefix@);
        proof {
            assert(self.list() == rest);
            no_more(first, prefix@);
        }
        while self.entries.len() > 0 && self.used > self.budget - bytes
            invariant
                self.wf(),
                self.budget == old(self).budget,
                bytes <= self.budget,
                made_room(self.list(), self.budget as nat, bytes as nat) == made_room(
                    rest,
                    self.budget as nat,
                    bytes as nat,
                ),
                forall|j: int| 0 <= j < self.list().len() ==> (#[trigger] self.list()[j]).0
                    != prefix@,
            decreases self.entries@.len(),
        {
            let ghost before = self.list();
            assert(before.len() == self.entries@.len());
            let _ = self.drop_at(0);
            proof {
                assert(before.remove(0) =~= before.drop_first());
                assert forall|j: int| 0 <= j < self.list().len() implies (
                #[trigger] self.list()[j]).0 != prefix@ by {
                    assert(before[j + 1].0 != prefix@);
                }
                assert(self.list().len() == self.entries@.len());
            }
        }
        let ghost kept = self.list();
        proof {
            assert(kept.len() == self.entries@.len());
            if kept.len() == 0 {
                assert(bytes_upto(kept, kept.len()) == 0);
            }
            assert(made_room(kept, self.budget as nat, bytes as nat) == kept);
        }
        self.used = self.used + bytes;
        self.entries.push(StateEntry { prefix, state, bytes });
        proof {
            let after = self.list();
            assert(after =~= kept.push((prefix@, state, bytes)));
            bytes_same(kept, after, kept.len());
            assert forall|a: int, b: int|
                #![trigger after[a], after[b]]
                0 <= a < b < after.len() implies after[a].0 != after[b].0 by {
                assert(kept[a].0 != prefix@);
                if b < kept.len() {
                    assert(kept[a].0 != kept[b].0);
                }
            }
        }
    }
}

proof fn bytes_same<S>(a: Seq<EntryView<S>>, b: Seq<EntryView<S>>, n: nat)
    requires
        n <= a.len(),
        n <= b.len(),
        forall|i: int| 0 <= i < n ==> #[trigger] a[i] == b[i],
    ensures
        bytes_upto(a, n) == bytes_upto(b, n),
    decreases n,
{
    if n > 0 {
        bytes_same(a, b, (n - 1) as nat);
    }
}

proof fn bytes_without<S>(v: Seq<EntryView<S>>, i: int)
    requires
        0 <= i < v.len(),
    ensures
        bytes_upto(v.remove(i), v.remove(i).len()) + v[i].2 == bytes_upto(v, v.len()),
    decreases v.len(),
{
    let r = v.remove(i);
    if i == v.len() - 1 {
        bytes_same(r, v, r.len());
    } else {
        let w = v.drop_last();
        bytes_without(w, i);
        assert(w.remove(i) =~= r.drop_last());
        bytes_same(w, v, w.len());
        bytes_same(r.drop_last(), r, r.drop_last().len());
        assert(r.last() == v.last());
    }
}

proof fn place_is_first<S>(v: Seq<EntryView<S>>, prefix: Seq<Token>)
    ensures
        place_of(v, prefix) <= v.len(),
        place_of(v, prefix) < v.len() ==> v[place_of(v, prefix) as int].0 == prefix,
        forall|j: int| 0 <= j < place_of(v, prefix) ==> (#[trigger] v[j]).0 != prefix,
    decreases v.len(),
{
    if v.len() > 0 && v[0].0 != prefix {
        place_is_first(v.drop_first(), prefix);
        let p = place_of(v.drop_first(), prefix);
        assert forall|j: int| 0 <= j < place_of(v, prefix) implies (#[trigger] v[j]).0 != prefix by {
            if j > 0 {
                assert(v.drop_first()[j - 1].0 != prefix);
            }
        }
        if p < v.drop_first().len() {
            assert(v.drop_first()[p as int].0 == prefix);
        }
    }
}

proof fn no_more<S>(v: Seq<EntryView<S>>, prefix: Seq<Token>)
    requires
        forall|i: int, j: int|
            #![trigger v[i], v[j]]
            0 <= i < j < v.len() ==> v[i].0 != v[j].0,
    ensures
        forall|j: int|
            0 <= j < without(v, prefix).len() ==> (#[trigger] without(v, prefix)[j]).0 != prefix,
{
    place_is_first(v, prefix);
    let i = place_of(v, prefix) as int;
    let w = without(v, prefix);
    assert forall|j: int| 0 <= j < w.len() implies (#[trigger] w[j]).0 != prefix by {
        if i < v.len() && j >= i {
            assert(w[j] == v[j + 1]);
            assert(v[i].0 != v[j + 1].0);
        } else {
            assert(w[j] == v[j]);
        }
    }
}

proof fn room_is_a_tail<S>(v: Seq<EntryView<S>>, budget: nat, room: nat, prefix: Seq<Token>)
    requires
        forall|j: int| 0 <= j < v.len() ==> (#[trigger] v[j]).0 != prefix,
    ensures
        forall|j: int|
            0 <= j < made_room(v, budget, room).len() ==> (#[trigger] made_room(
                v,
                budget,
                room,
            )[j]).0 != prefix,
    decreases v.len(),
{
    if v.len() > 0 && bytes_upto(v, v.len()) + room > budget {
        assert forall|j: int| 0 <= j < v.drop_first().len() implies (
        #[trigger] v.drop_first()[j]).0 != prefix by {
            assert(v[j + 1].0 != prefix);
        }
        room_is_a_tail(v.drop_first(), budget, room, prefix);
        let m = made_room(v.drop_first(), budget, room);
        assert(made_room(v, budget, room) == m);
        assert forall|j: int| 0 <= j < m.len() implies (#[trigger] made_room(
            v,
            budget,
            room,
        )[j]).0 != prefix by {
            assert(m[j].0 != prefix);
        }
    } else {
        assert(made_room(v, budget, room) == v);
    }
}

/// Coming back to a state finds it: what was kept last is what is taken out,
/// whatever else the cache held, when it fits the budget at all.
pub proof fn the_last_state_kept_is_found<S>(
    v: Seq<EntryView<S>>,
    prefix: Seq<Token>,
    state: S,
    bytes: usize,
    budget: nat,
)
    requires
        bytes <= budget,
        forall|i: int, j: int|
            #![trigger v[i], v[j]]
            0 <= i < j < v.len() ==> v[i].0 != v[j].0,
    ensures
        ({
            let kept = made_room(without(v, prefix), budget, bytes as nat);
            let after = kept.push((prefix, state, bytes));
            &&& place_of(after, prefix) == kept.len()
            &&& after[place_of(after, prefix) as int].1 == state
            &&& without(after, prefix) == kept
        }),
{
    no_more(v, prefix);
    let w = without(v, prefix);
    let kept = made_room(w, budget, bytes as nat);
    let after = kept.push((prefix, state, bytes));
    room_is_a_tail(w, budget, bytes as nat, prefix);
    place_is_first(after, prefix);
    let p = place_of(after, prefix);
    if p < kept.len() {
        assert(kept[p as int].0 != prefix);
    } else if p == after.len() {
        assert(after[kept.len() as int].0 != prefix);
    }
    assert(after.remove(kept.len() as int) =~= kept);
}

/// One step of the key: a byte is mixed in.
pub open spec fn mixed(h: u64, b: u8) -> u64 {
    (h ^ (b as u64)).wrapping_mul(0x0000_0100_0000_01b3)
}

/// A key after `bytes`.
pub open spec fn mixed_all(h: u64, bytes: Seq<u8>) -> u64
    decreases bytes.len(),
{
    if bytes.len() == 0 {
        h
    } else {
        mixed(mixed_all(h, bytes.drop_last()), bytes.last())
    }
}

/// The four bytes of a token id, the lowest first.
pub open spec fn token_bytes(t: Token) -> Seq<u8> {
    let n = t.0 as u32;
    seq![
        (n % 256) as u8,
        (n / 256 % 256) as u8,
        (n / 0x1_0000 % 256) as u8,
        (n / 0x100_0000 % 256) as u8,
    ]
}

/// The bytes of the first `n` tokens.
pub open spec fn tokens_bytes(prefix: Seq<Token>, n: nat) -> Seq<u8>
    decreases n,
{
    if n == 0 {
        Seq::empty()
    } else {
        tokens_bytes(prefix, (n - 1) as nat) + token_bytes(prefix[n - 1])
    }
}

/// What is mixed into the key of a prefix: the model's identity, a zero byte,
/// and the token ids.
pub open spec fn key_bytes(model_id: Seq<u8>, prefix: Seq<Token>) -> Seq<u8> {
    model_id + seq![0u8] + tokens_bytes(prefix, prefix.len())
}

/// The key of a prefix under a model.
pub open spec fn key_of(model_id: Seq<u8>, prefix: Seq<Token>) -> u64 {
    mixed_all(0xcbf2_9ce4_8422_2325, key_bytes(model_id, prefix))
}

fn mix(h: u64, b: u8) -> (r: u64)
    ensures
        r == mixed(h, b),
{
    (h ^ (b as u64)).wrapping_mul(0x0000_0100_0000_01b3)
}

proof fn mixed_push(h: u64, bytes: Seq<u8>, b: u8)
    ensures
        mixed_all(h, bytes.push(b)) == mixed(mixed_all(h, bytes), b),
{
    assert(bytes.push(b).drop_last() =~= bytes);
}

/// Stable key for a (model, prefix) pair: FNV-1a over the model's identity and
/// the token ids.
pub fn state_key(model_id: &str, prefix: &Vec<Token>) -> (r: u64)
    ensures
        r == key_of(model_id.spec_bytes(), prefix@),
{
    let start: u64 = 0xcbf2_9ce4_8422_2325;
    let id = model_id.as_bytes();
    let ghost idv = id@;
    let mut h: u64 = start;
    let mut i: usize = 0;
    assert(idv.take(0) =~= Seq::<u8>::empty());
    while i < id.len()
        invariant
            0 <= i <= id@.len(),
            idv == id@,
            h == mixed_all(start, idv.take(i as int)),
        decreases id@.len() - i,
    {
        proof {
            mixed_push(start, idv.take(i as int), id@[i as int]);
            assert(idv.take(i as int + 1) =~= idv.take(i as int).push(id@[i as int]));
        }
        h = mix(h, id[i]);
        i += 1;
    }
    assert(idv.take(i as int) =~= idv);
    let ghost head = idv + seq![0u8];
    proof {
        mixed_push(start, idv, 0u8);
        assert(idv.push(0u8) =~= head);
    }
    h = mix(h, 0);
    let mut k: usize = 0;
    assert(head + tokens_bytes(prefix@, 0) =~= head);
    while k < prefix.len()
        invariant
            0 <= k <= prefix@.len(),
            h == mixed_all(start, head + tokens_bytes(prefix@, k as nat)),
        decreases prefix@.len() - k,
    {
        let n: u32 = prefix[k].0 as u32;
        let ghost s0 = head + tokens_bytes(prefix@, k as nat);
        let b0: u8 = (n % 256) as u8;
        let b1: u8 = (n / 256 % 256) as u8;
        let b2: u8 = (n / 0x1_0000 % 256) as u8;
        let b3: u8 = (n / 0x100_0000 % 256) as u8;
        proof {
            mixed_push(start, s0, b0);
            mixed_push(start, s0.push(b0), b1);
            mixed_push(start, s0.push(b0).push(b1), b2);
            mixed_push(start, s0.push(b0).push(b1).push(b2), b3);
            assert(s0.push(b0).push(b1).push(b2).push(b3) =~= head + tokens_bytes(
                prefix@,
                (k + 1) as nat,
            ));
        }
        h = mix(mix(mix(mix(h, b0), b1), b2), b3);
        k += 1;
    }
    assert(key_bytes(idv, prefix@) =~= head + tokens_bytes(prefix@, k as nat));
    h
}

/// The first `n` hexadecimal digits of a number, the highest first.
pub open spec fn hex_upto(v: nat, n: nat) -> Seq<char>
    decreases n,
{
    if n == 0 {
        Seq::empty()
    } else {
        hex_upto(v / 16, (n - 1) as nat).push(hex_digit((v % 16) as int))
    }
}

fn push_hex(out: &mut String, v: u64, n: u32)
    ensures
        final(out)@ == old(out)@ + hex_upto(v as nat, n as nat),
    decreases n,
{
    let ghost before = out@;
    if n > 0 {
        push_hex(out, v / 16, n - 1);
        let d: u64 = v % 16;
        if d < 10 {
            out.push((48 + d as u8) as char);
        } else {
            out.push((87 + d as u8) as char);
        }
    }
    assert(out@ =~= before + hex_upto(v as nat, n as nat));
}

/// The name of the file that holds a prefix's state.
pub fn state_file(model_id: &str, prefix: &Vec<Token>) -> (r: String)
    ensures
        r@ == hex_upto(key_of(model_id.spec_bytes(), prefix@) as nat, 16) + ".state"@,
{
    let mut s: String = String::new();
    push_hex(&mut s, state_key(model_id, prefix), 16);
    s.append(".state");
    assert(s@ =~= hex_upto(key_of(model_id.spec_bytes(), prefix@) as nat, 16) + ".state"@);
    s
}

/// Whether a single token's surface form is the name asked for.
pub fn names_token(count: usize, piece: &str, name: &str) -> (r: bool)
    ensures
        r == (count == 1 && piece@ == name@),
{
    count == 1 && same(piece, name)
}

/// Where a prefix can be had from without decoding it.
#[derive(Debug)]
pub enum Recall<S> {
    /// It is the resident one.
    Resident,
    /// Its state was in memory; it is tried next.
    Ram(S),
    /// Only a file may have it.
    Missing,
}

/// What a backend remembers between requests: the prefix resident in sequence
/// 0, the states of others, and where the last prefix came from.
#[derive(Debug)]
pub struct PrefixMemory<S> {
    pub resident: Option<Vec<Token>>,
    pub cache: StateCache<S>,
    pub source: Option<PrefixSource>,
}

impl<S> PrefixMemory<S> {
    /// The resident prefix as a sequence.
    pub open spec fn resident_tokens(self) -> Option<Seq<Token>> {
        match self.resident {
            Some(p) => Some(p@),
            None => None,
        }
    }

    pub fn new(budget: usize) -> (r: PrefixMemory<S>)
        ensures
            r.cache.wf(),
            r.cache.budget == budget,
            r.cache.list() == Seq::<EntryView<S>>::empty(),
            r.resident is None,
            r.source is None,
    {
        PrefixMemory { resident: None, cache: StateCache::new(budget), source: None }
    }

    /// Whether a prefix is the resident one.
    pub fn prefix_resident(&self, prefix: &Vec<Token>) -> (r: bool)
        ensures
            r == (self.resident_tokens() == Some(prefix@)),
    {
        match &self.resident {
            Some(p) => same_tokens(p, prefix),
            None => false,
        }
    }

    /// Looks a prefix up. Unless it is resident, nothing is resident any more;
    /// a state in memory is taken out to be tried.
    pub fn prepare(&mut self, prefix: &Vec<Token>) -> (r: Recall<S>)
        requires
            old(self).cache.wf(),
        ensures
            final(self).cache.wf(),
            final(self).cache.budget == old(self).cache.budget,
            ({
                let list = old(self).cache.list();
                let i = place_of(list, prefix@);
                if old(self).resident_tokens() == Some(prefix@) {
                    &&& r is Resident
                    &&& final(self).resident_tokens() == Some(prefix@)
                    &&& final(self).source == Some(PrefixSource::Resident)
                    &&& final(self).cache.list() == list
                } else {
                    &&& final(self).resident is None
                    &&& final(self).source == old(self).source
                    &&& final(self).cache.list() == without(list, prefix@)
                    &&& i < list.len() ==> r == Recall::<S>::Ram(list[i as int].1)
                    &&& i == list.len() ==> r is Missing
                }
            }),
    {
        if self.prefix_resident(prefix) {
            self.source = Some(PrefixSource::Resident);
            return Recall::Resident;
        }
        self.resident = None;
        match self.cache.take(prefix) {
            Some(s) => Recall::Ram(s),
            None => Recall::Missing,
        }
    }

    /// A state taken from memory was tried: it is kept either way, and its
    /// prefix is resident where it was restored.
    pub fn ram_tried(&mut self, prefix: &Vec<Token>, state: S, bytes: usize, restored: bool)
        requires
            old(self).cache.wf(),
        ensures
            final(self).cache.wf(),
            final(self).cache.budget == old(self).cache.budget,
            final(self).cache.list() == (if bytes > old(self).cache.budget {
                old(self).cache.list()
            } else {
                made_room(
                    without(old(self).cache.list(), prefix@),
                    old(self).cache.budget as nat,
                    bytes as nat,
                ).push((prefix@, state, bytes))
            }),
            restored ==> final(self).resident_tokens() == Some(prefix@) && final(self).source
                == Some(PrefixSource::Ram),
            !restored ==> final(self).resident == old(self).resident && final(self).source == old(
                self,
            ).source,
    {
        self.cache.put(prefix.clone(), state, bytes);
        if restored {
            self.resident = Some(prefix.clone());
            self.source = Some(PrefixSource::Ram);
        }
    }

    /// A file was read: its state counts only where it is that of the very
    /// prefix.
    pub fn disk_tried(&mut self, prefix: &Vec<Token>, loaded: &Vec<Token>) -> (r: bool)
        ensures
            r == (loaded@ == prefix@),
            final(self).cache == old(self).cache,
            r ==> final(self).resident_tokens() == Some(prefix@) && final(self).source == Some(
                PrefixSource::Disk,
            ),
            !r ==> *final(self) == *old(self),
    {
        if same_tokens(loaded, prefix) {
            self.resident = Some(prefix.clone());
            self.source = Some(PrefixSource::Disk);
            true
        } else {
            false
        }
    }

    /// A prefix was decoded into sequence 0.
    pub fn decoded(&mut self, prefix: &Vec<Token>)
        ensures
            final(self).cache == old(self).cache,
            final(self).resident_tokens() == Some(prefix@),
            final(self).source == Some(PrefixSource::Decoded),
    {
        self.resident = Some(prefix.clone());
        self.source = Some(PrefixSource::Decoded);
    }

    /// Drops the resident prefix; its serialized state stays.
    pub fn evict_resident(&mut self)
        ensures
            final(self).cache == old(self).cache,
            final(self).resident is None,
            final(self).source == old(self).source,
    {
        self.resident = None;
    }
}

proof fn bytes_without_the_first<S>(v: Seq<EntryView<S>>, n: nat)
    requires
        0 < n <= v.len(),
    ensures
        bytes_upto(v, n) == v[0].2 + bytes_upto(v.drop_first(), (n - 1) as nat),
    decreases n,
{
    if n == 1 {
        assert(bytes_upto(v, 0) == 0);
        assert(bytes_upto(v.drop_first(), 0) == 0);
    } else {
        bytes_without_the_first(v, (n - 1) as nat);
        assert(v.drop_first()[n - 2] == v[n - 1]);
    }
}

/// Room is made by forgetting the oldest states alone, and no more of them than
/// needed: what is kept is the newest, it leaves the room, and one state more
/// would not.
pub proof fn the_oldest_states_are_forgotten<S>(
    v: Seq<EntryView<S>>,
    budget: nat,
    room: nat,
) -> (k: int)
    requires
        room <= budget,
    ensures
        0 <= k <= v.len(),
        made_room(v, budget, room) == v.skip(k),
        bytes_upto(v.skip(k), v.skip(k).len()) + room <= budget,
        k > 0 ==> bytes_upto(v.skip(k - 1), v.skip(k - 1).len()) + room > budget,
    decreases v.len(),
{
    assert(v.skip(0) =~= v);
    if v.len() > 0 && bytes_upto(v, v.len()) + room > budget {
        let rest = v.drop_first();
        let k = the_oldest_states_are_forgotten(rest, budget, room);
        assert(v.skip(k + 1) =~= rest.skip(k));
        if k > 0 {
            assert(v.skip(k) =~= rest.skip(k - 1));
        }
        k + 1
    } else {
        assert(bytes_upto(Seq::<EntryView<S>>::empty(), 0) == 0);
        0
    }
}

/// A prefix's state is the first one kept under it; taking it out leaves every
/// other state, in order.
pub proof fn taking_leaves_the_others<S>(v: Seq<EntryView<S>>, prefix: Seq<Token>, i: int)
    requires
        0 <= i < v.len(),
    ensures
        place_of(v, prefix) <= v.len(),
        place_of(v, prefix) < v.len() ==> v[place_of(v, prefix) as int].0 == prefix,
        v[i].0 == prefix ==> place_of(v, prefix) <= i,
        place_of(v, prefix) < v.len() ==> without(v, prefix).len() == v.len() - 1,
        place_of(v, prefix) == v.len() ==> without(v, prefix) == v,
        i < place_of(v, prefix) ==> without(v, prefix)[i] == v[i],
        i > place_of(v, prefix) ==> without(v, prefix)[i - 1] == v[i],
    decreases v.len(),
{
    if v[0].0 != prefix {
        let rest = v.drop_first();
        if rest.len() > 0 {
            taking_leaves_the_others(rest, prefix, if i > 0 { i - 1 } else { 0 });
            if i > 0 {
                assert(rest[i - 1] == v[i]);
            }
            if place_of(rest, prefix) < rest.len() {
                assert(v[place_of(v, prefix) as int] == rest[place_of(rest, prefix) as int]);
            }
        }
    }
}

/// What a text of hexadecimal digits stands for.
pub open spec fn hex_read(s: Seq<char>) -> nat
    decreases s.len(),
{
    if s.len() == 0 {
        0
    } else {
        let c = s.last() as int;
        let d = if c <= '9' as int {
            c - '0' as int
        } else {
            c - 'a' as int + 10
        };
        (hex_read(s.drop_last()) * 16 + d) as nat
    }
}

/// Sixteen to the power `n`.
pub open spec fn sixteens(n: nat) -> nat
    decreases n,
{
    if n == 0 {
        1
    } else {
        16 * sixteens((n - 1) as nat)
    }
}

/// A key is written in as many digits as asked for, and reads back.
pub proof fn keys_read_back(v: nat, n: nat)
    requires
        v < sixteens(n),
    ensures
        hex_upto(v, n).len() == n,
        hex_read(hex_upto(v, n)) == v,
    decreases n,
{
    if n > 0 {
        assert(v / 16 < sixteens((n - 1) as nat));
        keys_read_back(v / 16, (n - 1) as nat);
        let s = hex_upto(v, n);
        assert(s.drop_last() =~= hex_upto(v / 16, (n - 1) as nat));
        assert(s.last() == hex_digit((v % 16) as int));
    }
}

/// A prefix's key is made of the model's name, a zero and the prefix's tokens,
/// four bytes each with the lowest first: prefixes of one length that differ
/// give different bytes.
pub proof fn keys_are_of_model_and_tokens(id: Seq<u8>, p: Seq<Token>, i: int)
    requires
        0 <= i < p.len(),
        p[i].0 >= 0,
    ensures
        key_bytes(id, p).len() == id.len() + 1 + 4 * p.len(),
        key_bytes(id, p).take(id.len() as int) == id,
        key_bytes(id, p)[id.len() as int] == 0,
        ({
            let at = id.len() + 1 + 4 * i;
            p[i].0 == key_bytes(id, p)[at] + 256 * key_bytes(id, p)[at + 1] + 65536 * key_bytes(
                id,
                p,
            )[at + 2] + 16777216 * key_bytes(id, p)[at + 3]
        }),
{
    tokens_bytes_hold(p, p.len(), i);
    assert(key_bytes(id, p).take(id.len() as int) =~= id);
}

proof fn tokens_bytes_hold(p: Seq<Token>, n: nat, i: int)
    requires
        0 <= i < n <= p.len(),
    ensures
        tokens_bytes(p, n).len() == 4 * n,
        p[i].0 >= 0 ==> p[i].0 == tokens_bytes(p, n)[4 * i] + 256 * tokens_bytes(p, n)[4 * i + 1]
            + 65536 * tokens_bytes(p, n)[4 * i + 2] + 16777216 * tokens_bytes(p, n)[4 * i + 3],
    decreases n,
{
    if n > 1 {
        tokens_bytes_hold(p, (n - 1) as nat, if i < n - 1 { i } else { 0 });
    } else {
        assert(tokens_bytes(p, 0).len() == 0);
    }
    if i == n - 1 && p[i].0 >= 0 {
        let x = p[i].0 as u32;
        assert(x == x % 256 + 256 * (x / 256 % 256) + 65536 * (x / 0x1_0000 % 256) + 16777216 * (x
            / 0x100_0000 % 256)) by (bit_vector);
    }
}

} // verus!

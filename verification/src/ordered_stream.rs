//! A cache of numbered messages, read back in sequence order.
use vstd::prelude::*;
use crossbeam_channel::{Receiver, RecvError};
use intmap::IntMap;
use crate::offset_vec::OffsetVec;
use crate::laws::{ordered_rest, law_drain_in_order, law_size_is_stream_length};
use crate::lookup::{
    slot_entries, MAX_ENTRIES, table_with_capacity, table_insert, table_get, table_contains,
    table_remove, table_len,
};
use crate::channel::{receive, waiting};

verus! {

/// Sum of the remaining lengths of the messages cached under `k`, `k + 1`, ..., up to the
/// first number that is not cached, looking at no more than `fuel` messages; `None` when
/// one of them has its offset past the end of its data.
pub open spec fn run_total<T>(cache: Map<u64, OffsetVec<T>>, k: int, fuel: nat) -> Option<nat>
    decreases fuel,
{
    if fuel == 0 || !(0 <= k <= u64::MAX) || !cache.contains_key(k as u64) {
        Some(0)
    } else if !cache[k as u64].in_bounds() {
        None
    } else {
        match run_total(cache, k + 1, (fuel - 1) as nat) {
            Some(s) => Some(cache[k as u64].rest().len() + s),
            None => None,
        }
    }
}

/// How draining the cache towards a chunk stops.
pub enum DrainEnd {
    /// The chunk is full.
    Complete,
    /// The message at the cursor is not cached.
    Pending,
    /// The message at the cursor cannot be consumed: its offset lies past the end of its
    /// data, or taking it whole would move the cursor past `u64::MAX`.
    Broken,
}

/// What draining the cache does when `rem` more elements are wanted and the cursor is at
/// `pos`: how it stops, the cache and cursor after it, how many elements are still wanted,
/// and the elements taken, in order.
///
/// The message at the cursor gives its remaining elements. If it has exactly as many as
/// wanted it is removed and the cursor moves on; if it has more, the wanted ones are handed
/// out and it stays; if it has fewer, it is removed, the cursor moves on and draining goes
/// on with the next sequence number.
pub open spec fn drain<T>(cache: Map<u64, OffsetVec<T>>, pos: u64, rem: nat) -> (
    DrainEnd,
    Map<u64, OffsetVec<T>>,
    u64,
    nat,
    Seq<T>,
)
    decreases cache.len(),
{
    if !cache.dom().finite() || !cache.contains_key(pos) {
        (DrainEnd::Pending, cache, pos, rem, Seq::<T>::empty())
    } else if !cache[pos].in_bounds() {
        (DrainEnd::Broken, cache, pos, rem, Seq::<T>::empty())
    } else if cache[pos].rest().len() == rem {
        if pos == u64::MAX {
            (DrainEnd::Broken, cache, pos, rem, Seq::<T>::empty())
        } else {
            (DrainEnd::Complete, cache.remove(pos), (pos + 1) as u64, 0, cache[pos].rest())
        }
    } else if cache[pos].rest().len() > rem {
        (
            DrainEnd::Complete,
            cache.insert(pos, cache[pos].advanced(rem)),
            pos,
            0,
            cache[pos].rest().take(rem as int),
        )
    } else if pos == u64::MAX {
        (DrainEnd::Broken, cache, pos, rem, Seq::<T>::empty())
    } else {
        let next = drain(
            cache.remove(pos),
            (pos + 1) as u64,
            (rem - cache[pos].rest().len()) as nat,
        );
        (next.0, next.1, next.2, next.3, cache[pos].rest() + next.4)
    }
}

/// `out` is `prefix` followed by clones of `taken`.
pub open spec fn extended<T: Clone>(prefix: Seq<T>, taken: Seq<T>, out: Seq<T>) -> bool {
    &&& out.len() == prefix.len() + taken.len()
    &&& forall|i: int| 0 <= i < prefix.len() ==> #[trigger] out[i] == prefix[i]
    &&& forall|j: int|
        #![trigger taken[j]]
        0 <= j < taken.len() ==> cloned(taken[j], out[prefix.len() + j])
}

/// What one call of `drain_cache` gives: exactly what `drain` says, ending in `Done` or
/// `Pending` with `buf` followed by clones of the elements taken.
pub open spec fn drained<T: Clone>(
    cache: Map<u64, OffsetVec<T>>,
    pos: u64,
    buf: Seq<T>,
    rem: nat,
    cache_after: Map<u64, OffsetVec<T>>,
    pos_after: u64,
    r: Squeeze<T>,
) -> bool {
    let d = drain(cache, pos, rem);
    match d.0 {
        DrainEnd::Broken => r is Broken,
        DrainEnd::Complete => cache_after == d.1 && pos_after == d.2 && match r {
            Squeeze::Done(v) => extended(buf, d.4, v@),
            _ => false,
        },
        DrainEnd::Pending => cache_after == d.1 && pos_after == d.2 && match r {
            Squeeze::Pending(v, k) => k == d.3 && extended(buf, d.4, v@),
            _ => false,
        },
    }
}

/// `after` is `before` with message `m` cached as `add_item` caches it: under its number
/// with nothing handed out, unless that number is cached already (then nothing changes).
pub open spec fn caches<T>(
    before: Map<u64, OffsetVec<T>>,
    m: (u64, Seq<T>),
    after: Map<u64, OffsetVec<T>>,
) -> bool {
    &&& before.contains_key(m.0) ==> after == before
    &&& !before.contains_key(m.0) ==> after == before.insert(m.0, after[m.0])
        && after[m.0].contents() == m.1 && after[m.0].start() == 0
}

/// What a receiving loop does after one round.
pub enum Round<R> {
    /// Go on, with this count.
    Continue(usize),
    /// Stop with this result.
    Finish(R),
}

/// Where a squeeze stands after the cache has given what it could.
pub enum Squeeze<T> {
    /// The chunk is ready.
    Done(Vec<T>),
    /// The message at the cursor has not been received yet: the elements gathered so far
    /// and how many more are wanted. Receive up to the cursor, then call again with both.
    Pending(Vec<T>, usize),
    /// The message at the cursor cannot be consumed (see `DrainEnd::Broken`).
    Broken,
}

/// Sum of the lengths of received messages.
pub open spec fn total_len<T>(got: Seq<(u64, Seq<T>)>) -> nat
    decreases got.len(),
{
    if got.len() == 0 {
        0
    } else {
        total_len(got.drop_last()) + got.last().1.len()
    }
}

/// The sequence numbers of received messages.
pub open spec fn numbers<T>(got: Seq<(u64, Seq<T>)>) -> Set<u64> {
    Set::new(|k: u64| exists|i: int| 0 <= i < got.len() && #[trigger] got[i].0 == k)
}

/// `after` is `before` with the messages `got` cached one by one, in order, as `add_item`
/// caches them: each under its number, with nothing handed out, unless that number is
/// cached already (then the message is dropped).
pub open spec fn cached_in_order<T>(
    before: Map<u64, OffsetVec<T>>,
    got: Seq<(u64, Seq<T>)>,
    after: Map<u64, OffsetVec<T>>,
) -> bool {
    &&& after.dom() == before.dom().union(numbers(got))
    &&& forall|k: u64| #[trigger] before.contains_key(k) ==> after[k] == before[k]
    &&& forall|k: u64|
        #![trigger after[k]]
        after.contains_key(k) && !before.contains_key(k) ==> after[k].start() == 0 && exists|
            i: int,
        |
            0 <= i < got.len() && #[trigger] got[i].0 == k && after[k].contents() == got[i].1
                && forall|j: int| 0 <= j < i ==> got[j].0 != k
}

/// Adding to a sum kept modulo `modulus` is adding modulo `modulus`, wrapping once.
proof fn lemma_wrapping_step(total: nat, len: nat, modulus: nat)
    requires
        0 < modulus,
        len < modulus,
    ensures
        (if total % modulus + len >= modulus {
            (total % modulus + len - modulus) as int
        } else {
            (total % modulus + len) as int
        }) == ((total + len) as int) % (modulus as int),
{
    let t = total % modulus;
    vstd::arithmetic::div_mod::lemma_add_mod_noop(total as int, len as int, modulus as int);
    vstd::arithmetic::div_mod::lemma_small_mod(len, modulus);
    vstd::arithmetic::div_mod::lemma_mod_bound(total as int, modulus as int);
    if t + len >= modulus {
        vstd::arithmetic::div_mod::lemma_mod_add_multiples_vanish(
            (t + len - modulus) as int,
            modulus as int,
        );
        vstd::arithmetic::div_mod::lemma_small_mod((t + len - modulus) as nat, modulus);
    } else {
        vstd::arithmetic::div_mod::lemma_small_mod((t + len) as nat, modulus);
    }
}

/// Receiving one more message keeps `cached_in_order` true, when the message is cached as
/// `add_item` caches it.
proof fn lemma_cached_in_order_step<T>(
    before: Map<u64, OffsetVec<T>>,
    got: Seq<(u64, Seq<T>)>,
    mid: Map<u64, OffsetVec<T>>,
    m: (u64, Seq<T>),
    after: Map<u64, OffsetVec<T>>,
)
    requires
        cached_in_order(before, got, mid),
        mid.contains_key(m.0) ==> after == mid,
        !mid.contains_key(m.0) ==> after == mid.insert(m.0, after[m.0])
            && after[m.0].contents() == m.1 && after[m.0].start() == 0,
    ensures
        cached_in_order(before, got.push(m), after),
{
    let got2 = got.push(m);
    assert(numbers(got2) =~= numbers(got).insert(m.0)) by {
        assert forall|k: u64| numbers(got2).contains(k) implies #[trigger] numbers(got).insert(
            m.0,
        ).contains(k) by {
            let i = choose|i: int| 0 <= i < got2.len() && #[trigger] got2[i].0 == k;
            if i < got.len() {
                assert(got[i].0 == k);
            }
        }
        assert forall|k: u64| numbers(got).insert(m.0).contains(k) implies #[trigger] numbers(
            got2,
        ).contains(k) by {
            if k == m.0 {
                assert(got2[got.len() as int].0 == k);
            } else {
                let i = choose|i: int| 0 <= i < got.len() && #[trigger] got[i].0 == k;
                assert(got2[i].0 == k);
            }
        }
    }
    assert(after.dom() =~= before.dom().union(numbers(got2)));
    assert forall|k: u64| after.contains_key(k) && !before.contains_key(k) implies #[trigger] after[k].start() == 0
        && exists|i: int|
        0 <= i < got2.len() && #[trigger] got2[i].0 == k && after[k].contents() == got2[i].1
            && forall|j: int| 0 <= j < i ==> got2[j].0 != k by {
        if mid.contains_key(k) {
            assert(after[k] == mid[k]);
            let i = choose|i: int|
                0 <= i < got.len() && #[trigger] got[i].0 == k && mid[k].contents() == got[i].1
                    && forall|j: int| 0 <= j < i ==> got[j].0 != k;
            assert(got2[i].0 == k);
            assert forall|j: int| 0 <= j < i implies got2[j].0 != k by {
                assert(got2[j] == got[j]);
            }
        } else {
            assert(k == m.0);
            let i = got.len() as int;
            assert(got2[i].0 == k);
            assert forall|j: int| 0 <= j < i implies got2[j].0 != k by {
                assert(got2[j] == got[j]);
                if got[j].0 == k {
                    assert(numbers(got).contains(k));
                }
            }
        }
    }
}

/// If every number below `n` is a key of `m`, then `m` has at least `n` keys.
proof fn lemma_keys_below<V>(m: Map<u64, V>, n: nat)
    requires
        m.dom().finite(),
        n <= u64::MAX + 1,
        forall|j: u64| j < n ==> #[trigger] m.contains_key(j),
    ensures
        n <= m.len(),
    decreases n,
{
    if n > 0 {
        let top = (n - 1) as u64;
        assert(m.contains_key(top));
        let rest = m.remove(top);
        assert forall|j: u64| j < n - 1 implies #[trigger] rest.contains_key(j) by {
            assert(m.contains_key(j));
        }
        lemma_keys_below(rest, (n - 1) as nat);
        assert(rest.dom() =~= m.dom().remove(top));
    }
}

/// Messages `(sequence number, elements)` arrive on `incoming` in any order; they are
/// cached under their sequence number and handed out in sequence order, starting at the
/// cursor `curr`.
///
/// The cache is a slab: `slots` holds the messages with their sequence numbers, and the
/// `IntMap` `lookup` maps each sequence number to its slot.
#[verifier::reject_recursive_types(T)]
pub struct OrderedStream<T: Clone> {
    lookup: IntMap<usize>,
    slots: Vec<(u64, OffsetVec<T>)>,
    curr: u64,
    incoming: Receiver<(u64, Vec<T>)>,
    received: Ghost<Seq<(u64, Seq<T>)>>,
}

impl<T: Clone> OrderedStream<T> {
    /// Sequence number to slot, as the `IntMap` holds it.
    spec fn table(&self) -> Map<u64, usize> {
        slot_entries(self.lookup)
    }

    /// The table and the slots describe each other exactly.
    pub closed spec fn wf(&self) -> bool {
        &&& self.table().dom().finite()
        &&& self.table().len() == self.slots@.len()
        &&& self.table().len() <= MAX_ENTRIES
        &&& forall|k: u64| #[trigger]
            self.table().contains_key(k) ==> self.table()[k] < self.slots@.len()
                && self.slots@[self.table()[k] as int].0 == k
        &&& forall|i: int|
            #![trigger self.slots@[i]]
            0 <= i < self.slots@.len() ==> self.table().contains_key(self.slots@[i].0)
                && self.table()[self.slots@[i].0] == i
    }

    /// The cached messages, by sequence number.
    pub closed spec fn cache(&self) -> Map<u64, OffsetVec<T>> {
        Map::new(
            |k: u64| self.table().contains_key(k),
            |k: u64| self.slots@[self.table()[k] as int].1,
        )
    }

    /// The sequence number of the next message to hand out.
    pub closed spec fn cursor(&self) -> u64 {
        self.curr
    }

    /// The channel that messages are received from.
    pub closed spec fn receiver(&self) -> Receiver<(u64, Vec<T>)> {
        self.incoming
    }

    /// The messages `read_msgs` has taken from the channel, in the order they came.
    pub closed spec fn received(&self) -> Seq<(u64, Seq<T>)> {
        self.received@
    }

    proof fn lemma_cache(&self)
        requires
            self.wf(),
        ensures
            self.cache().dom() == self.table().dom(),
            self.cache().dom().finite(),
            self.cache().len() == self.slots@.len(),
    {
        assert(self.cache().dom() =~= self.table().dom());
    }

    /// A well-formed stream caches finitely many messages, no more than `MAX_ENTRIES`.
    pub proof fn lemma_cache_finite(&self)
        requires
            self.wf(),
        ensures
            self.cache().dom().finite(),
            self.cache().len() <= MAX_ENTRIES,
    {
        self.lemma_cache();
    }

    /// Caches `item` under `seq` unless `seq` is cached already (then `item` is dropped).
    fn insert_entry(&mut self, seq: u64, item: OffsetVec<T>) -> (r: bool)
        requires
            old(self).wf(),
            old(self).cache().len() < MAX_ENTRIES,
        ensures
            final(self).wf(),
            r == !old(self).cache().contains_key(seq),
            final(self).cache() == if r {
                old(self).cache().insert(seq, item)
            } else {
                old(self).cache()
            },
            r ==> final(self).cache().len() == old(self).cache().len() + 1,
            final(self).cursor() == old(self).cursor(),
            final(self).receiver() == old(self).receiver(),
            final(self).received() == old(self).received(),
    {
        proof {
            self.lemma_cache();
        }
        let ghost old_cache = self.cache();
        let ghost old_table = self.table();
        let slot = self.slots.len();
        if table_insert(&mut self.lookup, seq, slot) {
            self.slots.push((seq, item));
            proof {
                assert(self.table() == old_table.insert(seq, slot));
                assert(self.table().dom() =~= old_table.dom().insert(seq));
                assert forall|i: int|
                    #![trigger self.slots@[i]]
                    0 <= i < self.slots@.len() implies self.table().contains_key(
                        self.slots@[i].0,
                    ) && self.table()[self.slots@[i].0] == i by {
                    if i < slot {
                        assert(old_table.contains_key(self.slots@[i].0));
                    }
                }
                assert(self.cache() =~= old_cache.insert(seq, item));
                self.lemma_cache();
            }
            true
        } else {
            proof {
                assert(self.table() =~= old_table);
                assert(self.cache() =~= old_cache);
            }
            false
        }
    }

    /// Takes the message cached under `seq` out of the cache.
    fn remove_entry(&mut self, seq: u64) -> (r: Option<OffsetVec<T>>)
        requires
            old(self).wf(),
        ensures
            final(self).wf(),
            r == if old(self).cache().contains_key(seq) {
                Some(old(self).cache()[seq])
            } else {
                None::<OffsetVec<T>>
            },
            final(self).cache() == old(self).cache().remove(seq),
            final(self).cursor() == old(self).cursor(),
            final(self).receiver() == old(self).receiver(),
            final(self).received() == old(self).received(),
    {
        proof {
            self.lemma_cache();
        }
        let ghost old_cache = self.cache();
        let ghost old_table = self.table();
        let ghost old_slots = self.slots@;
        match table_remove(&mut self.lookup, seq) {
            None => {
                proof {
                    assert(self.table() =~= old_table);
                    assert(self.cache() =~= old_cache.remove(seq));
                }
                None
            },
            Some(slot) => {
                let ghost last = old_slots.len() - 1;
                let (_, item) = self.slots.swap_remove(slot);
                proof {
                    assert(old_table[old_slots[last].0] == last);
                }
                if slot < self.slots.len() {
                    let moved = self.slots[slot].0;
                    proof {
                        assert(moved == old_slots[last].0);
                        assert(moved != seq);
                        assert(self.table().contains_key(moved));
                        assert(self.table().remove(moved).dom() =~= self.table().dom().remove(moved));
                    }
                    let _ = table_remove(&mut self.lookup, moved);
                    let _ = table_insert(&mut self.lookup, moved, slot);
                    proof {
                        assert(self.table() == old_table.remove(seq).remove(moved).insert(moved, slot));
                        assert(self.table().dom() =~= old_table.dom().remove(seq));
                        assert forall|k: u64| #[trigger]
                            self.table().contains_key(k) implies self.table()[k]
                            < self.slots@.len() && self.slots@[self.table()[k] as int].0 == k by {
                            if k != moved {
                                assert(old_table.contains_key(k));
                                assert(old_slots[old_table[k] as int].0 == k);
                            }
                        }
                        assert forall|i: int|
                            #![trigger self.slots@[i]]
                            0 <= i < self.slots@.len() implies self.table().contains_key(
                                self.slots@[i].0,
                            ) && self.table()[self.slots@[i].0] == i by {
                            if i != slot {
                                assert(old_table.contains_key(old_slots[i].0));
                                assert(old_slots[i] == self.slots@[i]);
                            }
                        }
                        assert(self.cache() =~= old_cache.remove(seq));
                    }
                } else {
                    proof {
                        assert(self.table().dom() =~= old_table.dom().remove(seq));
                        assert forall|k: u64| #[trigger]
                            self.table().contains_key(k) implies self.table()[k]
                            < self.slots@.len() && self.slots@[self.table()[k] as int].0 == k by {
                            assert(old_table.contains_key(k));
                            assert(old_slots[old_table[k] as int].0 == k);
                        }
                        assert forall|i: int|
                            #![trigger self.slots@[i]]
                            0 <= i < self.slots@.len() implies self.table().contains_key(
                                self.slots@[i].0,
                            ) && self.table()[self.slots@[i].0] == i by {
                            assert(old_table.contains_key(old_slots[i].0));
                        }
                        assert(self.cache() =~= old_cache.remove(seq));
                    }
                }
                Some(item)
            },
        }
    }
}


impl<T: Clone> OrderedStream<T> {
    /// A stream that receives on `rx`, with an `IntMap` sized for `cap` cached messages.
    pub fn with_capacity_recvr(cap: usize, rx: Receiver<(u64, Vec<T>)>) -> (r: OrderedStream<T>)
        requires
            cap <= usize::MAX / 2 + 1,
        ensures
            r.wf(),
            r.cache().dom() == Set::<u64>::empty(),
            r.cursor() == 0,
            r.receiver() == rx,
            r.received() == Seq::<(u64, Seq<T>)>::empty(),
    {
        let lookup = table_with_capacity(cap);
        let r = OrderedStream {
            lookup,
            slots: Vec::new(),
            curr: 0,
            incoming: rx,
            received: Ghost(Seq::<(u64, Seq<T>)>::empty()),
        };
        proof {
            assert(r.table().dom().finite());
            assert(r.cache().dom() =~= Set::<u64>::empty());
        }
        r
    }

    /// A stream that receives on `rx`, sized for 16 cached messages.
    pub fn with_recvr(rx: Receiver<(u64, Vec<T>)>) -> (r: OrderedStream<T>)
        ensures
            r.wf(),
            r.cache().dom() == Set::<u64>::empty(),
            r.cursor() == 0,
            r.receiver() == rx,
            r.received() == Seq::<(u64, Seq<T>)>::empty(),
    {
        OrderedStream::with_capacity_recvr(16, rx)
    }

    /// Number of cached messages.
    pub fn len(&self) -> (r: usize)
        requires
            self.wf(),
        ensures
            r == self.cache().len(),
    {
        proof {
            self.lemma_cache();
        }
        table_len(&self.lookup)
    }

    /// Whether no message is cached.
    pub fn is_empty(&self) -> (r: bool)
        requires
            self.wf(),
        ensures
            r == (self.cache().len() == 0),
    {
        self.len() == 0
    }

    /// How many messages wait in the channel, not yet received.
    pub fn queue_len(&self) -> (r: usize) {
        waiting(&self.incoming)
    }

    /// Receives on `rx` from now on; the cache and the cursor stay.
    pub fn set_recv(&mut self, rx: Receiver<(u64, Vec<T>)>)
        requires
            old(self).wf(),
        ensures
            final(self).wf(),
            final(self).cache() == old(self).cache(),
            final(self).cursor() == old(self).cursor(),
            final(self).receiver() == rx,
            final(self).received() == old(self).received(),
    {
        self.incoming = rx;
    }

    /// Caches `item` under `seq` with nothing handed out; returns `false`, and changes
    /// nothing, when `seq` is cached already.
    pub fn add_item_sep(&mut self, seq: u64, item: Vec<T>) -> (r: bool)
        requires
            old(self).wf(),
            old(self).cache().len() < MAX_ENTRIES,
        ensures
            final(self).wf(),
            r == !old(self).cache().contains_key(seq),
            r ==> final(self).cache() == old(self).cache().insert(seq, final(self).cache()[seq]),
            r ==> final(self).cache()[seq].contents() == item@,
            r ==> final(self).cache()[seq].start() == 0,
            r ==> final(self).cache().len() == old(self).cache().len() + 1,
            !r ==> final(self).cache() == old(self).cache(),
            final(self).cursor() == old(self).cursor(),
            final(self).receiver() == old(self).receiver(),
            final(self).received() == old(self).received(),
    {
        self.insert_entry(seq, OffsetVec::from_pieces(item, 0))
    }

    /// `add_item_sep` on a `(sequence number, elements)` pair.
    pub fn add_item(&mut self, msg: (u64, Vec<T>)) -> (r: bool)
        requires
            old(self).wf(),
            old(self).cache().len() < MAX_ENTRIES,
        ensures
            final(self).wf(),
            r == !old(self).cache().contains_key(msg.0),
            r ==> final(self).cache() == old(self).cache().insert(msg.0, final(self).cache()[msg.0]),
            r ==> final(self).cache()[msg.0].contents() == msg.1@,
            r ==> final(self).cache()[msg.0].start() == 0,
            r ==> final(self).cache().len() == old(self).cache().len() + 1,
            !r ==> final(self).cache() == old(self).cache(),
            final(self).cursor() == old(self).cursor(),
            final(self).receiver() == old(self).receiver(),
            final(self).received() == old(self).received(),
    {
        self.add_item_sep(msg.0, msg.1)
    }

    /// Caches `item` under `seq` with its first `offset` elements counted as handed out;
    /// returns `false`, and changes nothing, when `seq` is cached already.
    pub fn add_item_sep_offset(&mut self, seq: u64, item: Vec<T>, offset: usize) -> (r: bool)
        requires
            old(self).wf(),
            old(self).cache().len() < MAX_ENTRIES,
        ensures
            final(self).wf(),
            r == !old(self).cache().contains_key(seq),
            r ==> final(self).cache() == old(self).cache().insert(seq, final(self).cache()[seq]),
            r ==> final(self).cache()[seq].contents() == item@,
            r ==> final(self).cache()[seq].start() == offset,
            r ==> final(self).cache().len() == old(self).cache().len() + 1,
            !r ==> final(self).cache() == old(self).cache(),
            final(self).cursor() == old(self).cursor(),
            final(self).receiver() == old(self).receiver(),
            final(self).received() == old(self).received(),
    {
        self.insert_entry(seq, OffsetVec::from_pieces(item, offset))
    }

    /// `add_item_sep_offset` on a `(sequence number, elements)` pair.
    pub fn add_item_offset(&mut self, msg: (u64, Vec<T>), offset: usize) -> (r: bool)
        requires
            old(self).wf(),
            old(self).cache().len() < MAX_ENTRIES,
        ensures
            final(self).wf(),
            r == !old(self).cache().contains_key(msg.0),
            r ==> final(self).cache() == old(self).cache().insert(msg.0, final(self).cache()[msg.0]),
            r ==> final(self).cache()[msg.0].contents() == msg.1@,
            r ==> final(self).cache()[msg.0].start() == offset,
            r ==> final(self).cache().len() == old(self).cache().len() + 1,
            !r ==> final(self).cache() == old(self).cache(),
            final(self).cursor() == old(self).cursor(),
            final(self).receiver() == old(self).receiver(),
            final(self).received() == old(self).received(),
    {
        self.insert_entry(msg.0, OffsetVec::from_pieces(msg.1, offset))
    }

    /// Whether a message is cached under `seq`.
    pub fn chk_lookup(&mut self, seq: u64) -> (r: bool)
        requires
            old(self).wf(),
        ensures
            *final(self) == *old(self),
            r == old(self).cache().contains_key(seq),
    {
        proof {
            self.lemma_cache();
        }
        table_contains(&self.lookup, seq)
    }

    /// Takes the message cached under `seq` out of the cache.
    pub fn rm_item(&mut self, seq: u64) -> (r: Option<OffsetVec<T>>)
        requires
            old(self).wf(),
        ensures
            final(self).wf(),
            r == if old(self).cache().contains_key(seq) {
                Some(old(self).cache()[seq])
            } else {
                None::<OffsetVec<T>>
            },
            final(self).cache() == old(self).cache().remove(seq),
            final(self).cursor() == old(self).cursor(),
            final(self).receiver() == old(self).receiver(),
            final(self).received() == old(self).received(),
    {
        self.remove_entry(seq)
    }

    /// The message cached under `seq`, to be changed in place.
    pub fn get_item(&mut self, seq: u64) -> (r: Option<&mut OffsetVec<T>>)
        requires
            old(self).wf(),
        ensures
            r.is_some() == old(self).cache().contains_key(seq),
            r.is_none() ==> *final(self) == *old(self),
            r.is_some() ==> *r.unwrap() == old(self).cache()[seq],
            r.is_some() ==> final(self).wf(),
            r.is_some() ==> final(self).cache() == old(self).cache().insert(
                seq,
                *final(r.unwrap()),
            ),
            final(self).cursor() == old(self).cursor(),
            final(self).receiver() == old(self).receiver(),
            final(self).received() == old(self).received(),
    {
        proof {
            self.lemma_cache();
        }
        let ghost old_cache = self.cache();
        match table_get(&self.lookup, seq) {
            None => None,
            Some(slot) => {
                let entry = &mut self.slots[slot];
                let item = &mut entry.1;
                Some(item)
            },
        }
    }

    /// Moves the cursor on by one.
    pub fn increment(&mut self)
        requires
            old(self).wf(),
            old(self).cursor() < u64::MAX,
        ensures
            final(self).wf(),
            final(self).cursor() == old(self).cursor() + 1,
            final(self).cache() == old(self).cache(),
            final(self).receiver() == old(self).receiver(),
            final(self).received() == old(self).received(),
    {
        self.curr = self.curr + 1;
    }

    /// Sum of the remaining lengths of the messages cached under 0, 1, 2, ..., up to the
    /// first number that is not cached.
    pub fn size(&self) -> (r: usize)
        requires
            self.wf(),
            run_total(self.cache(), 0, self.cache().len()) is Some,
            run_total(self.cache(), 0, self.cache().len())->0 <= usize::MAX,
        ensures
            run_total(self.cache(), 0, self.cache().len()) == Some(r as nat),
            r == ordered_rest(self.cache(), 0).len(),
    {
        proof {
            self.lemma_cache();
            law_size_is_stream_length(self.cache(), 0);
        }
        let ghost c = self.cache();
        let ghost n = c.len();
        let mut size: usize = 0;
        let mut idx: u64 = 0;
        loop
            invariant
                self.wf(),
                c == self.cache(),
                n == c.len(),
                n <= MAX_ENTRIES,
                c.dom().finite(),
                idx <= n,
                forall|j: u64| j < idx ==> #[trigger] c.contains_key(j),
                run_total(c, idx as int, (n - idx) as nat) is Some,
                run_total(c, 0, n) == Some(
                    (size + run_total(c, idx as int, (n - idx) as nat)->0) as nat,
                ),
                run_total(c, 0, n)->0 <= usize::MAX,
                run_total(c, 0, n) == Some(ordered_rest(c, 0).len()),
            decreases n - idx,
        {
            match table_get(&self.lookup, idx) {
                None => {
                    return size;
                },
                Some(slot) => {
                    proof {
                        assert(c.contains_key(idx));
                        assert forall|j: u64| j < idx + 1 implies #[trigger] c.contains_key(j) by {
                            if j < idx {
                                assert(c.contains_key(j));
                            }
                        }
                        lemma_keys_below(c, (idx + 1) as nat);
                        assert(self.slots@[slot as int].1 == c[idx]);
                        assert(idx + 1 <= n <= MAX_ENTRIES);
                    }
                    let item_len = self.slots[slot].1.len();
                    size = size + item_len;
                    idx = idx + 1;
                },
            }
        }
    }

    /// Gathers up to `remainder` more elements after `buf` from the cached messages, in
    /// sequence order from the cursor, removing the messages it uses up and moving the
    /// cursor past them, exactly as `drain` says: unless it is broken, the elements it
    /// takes are the first ones of the stream still to come (`ordered_rest`), and the
    /// stream still to come afterwards is the rest of it.
    pub fn drain_cache(&mut self, buf: Vec<T>, remainder: usize) -> (r: Squeeze<T>)
        requires
            old(self).wf(),
        ensures
            final(self).wf(),
            final(self).receiver() == old(self).receiver(),
            final(self).received() == old(self).received(),
            drained(
                old(self).cache(),
                old(self).cursor(),
                buf@,
                remainder as nat,
                final(self).cache(),
                final(self).cursor(),
                r,
            ),
            !(drain(old(self).cache(), old(self).cursor(), remainder as nat).0 is Broken)
                ==> ordered_rest(old(self).cache(), old(self).cursor()) == drain(
                old(self).cache(),
                old(self).cursor(),
                remainder as nat,
            ).4 + ordered_rest(final(self).cache(), final(self).cursor()),
    {
        proof {
            self.lemma_cache();
            if !(drain(self.cache(), self.curr, remainder as nat).0 is Broken) {
                law_drain_in_order(self.cache(), self.curr, remainder as nat);
            }
        }
        let mut out = buf;
        let mut rem = remainder;
        let ghost c0 = self.cache();
        let ghost p0 = self.curr;
        let ghost buf0 = out@;
        let ghost mut taken = Seq::<T>::empty();
        proof {
            self.lemma_cache();
            assert(taken + drain(c0, p0, rem as nat).4 =~= drain(c0, p0, rem as nat).4);
        }
        loop
            invariant
                self.wf(),
                self.receiver() == old(self).receiver(),
                self.received() == old(self).received(),
                c0 == old(self).cache(),
                p0 == old(self).cursor(),
                buf0 == buf@,
                drain(c0, p0, remainder as nat).0 == drain(self.cache(), self.curr, rem as nat).0,
                drain(c0, p0, remainder as nat).1 == drain(self.cache(), self.curr, rem as nat).1,
                drain(c0, p0, remainder as nat).2 == drain(self.cache(), self.curr, rem as nat).2,
                drain(c0, p0, remainder as nat).3 == drain(self.cache(), self.curr, rem as nat).3,
                drain(c0, p0, remainder as nat).4 == taken + drain(
                    self.cache(),
                    self.curr,
                    rem as nat,
                ).4,
                extended(buf0, taken, out@),
                !(drain(c0, p0, remainder as nat).0 is Broken) ==> ordered_rest(c0, p0) == drain(
                    c0,
                    p0,
                    remainder as nat,
                ).4 + ordered_rest(
                    drain(c0, p0, remainder as nat).1,
                    drain(c0, p0, remainder as nat).2,
                ),
            decreases self.slots@.len(),
        {
            proof {
                self.lemma_cache();
            }
            let ghost c = self.cache();
            let pos = self.curr;
            let slot = match table_get(&self.lookup, pos) {
                None => {
                    proof {
                        assert(taken + Seq::<T>::empty() =~= taken);
                    }
                    return Squeeze::Pending(out, rem);
                },
                Some(slot) => slot,
            };
            let ghost item = c[pos];
            assert(self.slots@[slot as int].1 == item);
            if self.slots[slot].1.offset() > self.slots[slot].1.data_len() {
                return Squeeze::Broken;
            }
            let n = self.slots[slot].1.len();
            if n == rem {
                if pos == u64::MAX {
                    return Squeeze::Broken;
                }
                self.curr = pos + 1;
                let it = self.remove_entry(pos).unwrap();
                proof {
                    assert(it == item);
                }
                if out.len() == 0 && it.offset() == 0 {
                    proof {
                        assert(item.rest() =~= item.contents());
                        assert(taken =~= Seq::<T>::empty());
                        assert(taken + item.rest() =~= item.rest());
                    }
                    return Squeeze::Done(it.into_inner());
                }
                let ghost before = out@;
                out.extend_from_slice(it.rest_prefix(n));
                proof {
                    assert(item.rest().subrange(0, n as int) =~= item.rest());
                    assert forall|j: int|
                        #![trigger (taken + item.rest())[j]]
                        0 <= j < (taken + item.rest()).len() implies cloned(
                        (taken + item.rest())[j],
                        out@[buf0.len() + j],
                    ) by {
                        if j < taken.len() {
                            assert(taken[j] == (taken + item.rest())[j]);
                            assert(out@[buf0.len() + j] == before[buf0.len() + j]);
                        }
                    }
                }
                return Squeeze::Done(out);
            } else if n > rem {
                let ghost before = out@;
                out.extend_from_slice(self.slots[slot].1.rest_prefix(rem));
                let _ = self.slots[slot].1.inc_offset(rem);
                proof {
                    assert(item.rest().subrange(0, rem as int) =~= item.rest().take(rem as int));
                    assert(self.cache() =~= c.insert(pos, item.advanced(rem as nat)));
                    assert forall|j: int|
                        #![trigger (taken + item.rest().take(rem as int))[j]]
                        0 <= j < (taken + item.rest().take(rem as int)).len() implies cloned(
                        (taken + item.rest().take(rem as int))[j],
                        out@[buf0.len() + j],
                    ) by {
                        if j < taken.len() {
                            assert(taken[j] == (taken + item.rest().take(rem as int))[j]);
                            assert(out@[buf0.len() + j] == before[buf0.len() + j]);
                        }
                    }
                }
                return Squeeze::Done(out);
            } else {
                if pos == u64::MAX {
                    return Squeeze::Broken;
                }
                let it = self.remove_entry(pos).unwrap();
                let ghost before = out@;
                out.extend_from_slice(it.rest_prefix(n));
                rem = rem - n;
                self.curr = pos + 1;
                proof {
                    assert(it == item);
                    assert(item.rest().subrange(0, n as int) =~= item.rest());
                    let next = drain(self.cache(), self.curr, rem as nat);
                    assert(taken + drain(c, pos, (rem + n) as nat).4 =~= (taken + item.rest()) + next.4);
                    assert forall|j: int|
                        #![trigger (taken + item.rest())[j]]
                        0 <= j < (taken + item.rest()).len() implies cloned(
                        (taken + item.rest())[j],
                        out@[buf0.len() + j],
                    ) by {
                        if j < taken.len() {
                            assert(taken[j] == (taken + item.rest())[j]);
                            assert(out@[buf0.len() + j] == before[buf0.len() + j]);
                        }
                    }
                    taken = taken + item.rest();
                    self.lemma_cache();
                    assert(self.cache().dom() =~= c.dom().remove(pos));
                }
            }
        }
    }

    /// Takes the message at the cursor out of the cache and moves the cursor on, giving
    /// the elements of it not yet handed out; `None`, with nothing changed, when it is not
    /// cached.
    pub fn take_current(&mut self) -> (r: Option<Vec<T>>)
        requires
            old(self).wf(),
            old(self).cache().contains_key(old(self).cursor()) ==> old(self).cursor() < u64::MAX,
        ensures
            final(self).wf(),
            final(self).receiver() == old(self).receiver(),
            final(self).received() == old(self).received(),
            r is Some == old(self).cache().contains_key(old(self).cursor()),
            r is Some ==> r.unwrap()@ == old(self).cache()[old(self).cursor()].remaining(),
            r is Some ==> final(self).cache() == old(self).cache().remove(old(self).cursor()),
            r is Some ==> final(self).cursor() == old(self).cursor() + 1,
            r is None ==> final(self).cache() == old(self).cache(),
            r is None ==> final(self).cursor() == old(self).cursor(),
    {
        let pos = self.curr;
        match self.remove_entry(pos) {
            Some(item) => {
                self.curr = pos + 1;
                Some(item.into_rest())
            },
            None => {
                proof {
                    assert(old(self).cache().remove(pos) =~= old(self).cache());
                }
                None
            },
        }
    }

    /// Finishes `current` once the stream has read up to the cursor: `Ok(true)` means the
    /// message at the cursor was received, and it is taken as `take_current` takes it;
    /// `Ok(false)` gives `Err(None)` and a receive error `e` gives `Err(Some(e))`, with
    /// nothing changed.
    pub fn current_after_read<E>(&mut self, read: Result<bool, E>) -> (r: Result<Vec<T>, Option<E>>)
        requires
            old(self).wf(),
            read matches Ok(true) ==> old(self).cache().contains_key(old(self).cursor())
                && old(self).cursor() < u64::MAX,
        ensures
            final(self).wf(),
            final(self).receiver() == old(self).receiver(),
            final(self).received() == old(self).received(),
            read matches Ok(true) ==> r is Ok && r->Ok_0@ == old(self).cache()[old(
                self,
            ).cursor()].remaining() && final(self).cache() == old(self).cache().remove(
                old(self).cursor(),
            ) && final(self).cursor() == old(self).cursor() + 1,
            read matches Ok(false) ==> r == Err::<Vec<T>, Option<E>>(None)
                && *final(self) == *old(self),
            read is Err ==> r == Err::<Vec<T>, Option<E>>(Some(read->Err_0))
                && *final(self) == *old(self),
    {
        match read {
            Ok(true) => Ok(self.take_current().unwrap()),
            Ok(false) => Err(None),
            Err(e) => Err(Some(e)),
        }
    }

    /// The first part of reading up to sequence number `p`: `Some(false)` when `p` is behind
    /// the cursor or already cached (nothing needs to be received), `None` otherwise.
    pub fn read_to_pos_ready(&self, p: u64) -> (r: Option<bool>)
        requires
            self.wf(),
        ensures
            r == if p < self.cursor() || self.cache().contains_key(p) {
                Some(false)
            } else {
                None::<bool>
            },
    {
        proof {
            self.lemma_cache();
        }
        if p < self.curr {
            return Some(false);
        }
        if table_contains(&self.lookup, p) {
            return Some(false);
        }
        None
    }

    /// One received message while reading up to sequence number `p`: it is cached as
    /// `add_item` caches it, and reading stops (`Some`, with whether it was cached) when
    /// it is message `p`.
    pub fn read_to_pos_accept(&mut self, p: u64, msg: (u64, Vec<T>)) -> (r: Option<bool>)
        requires
            old(self).wf(),
            old(self).cache().len() < MAX_ENTRIES,
        ensures
            final(self).wf(),
            final(self).cursor() == old(self).cursor(),
            final(self).receiver() == old(self).receiver(),
            final(self).received() == old(self).received(),
            old(self).cache().contains_key(msg.0) ==> final(self).cache() == old(self).cache(),
            !old(self).cache().contains_key(msg.0) ==> final(self).cache() == old(self).cache().insert(
                msg.0,
                final(self).cache()[msg.0],
            ) && final(self).cache()[msg.0].contents() == msg.1@ && final(self).cache()[msg.0].start() == 0,
            r == if msg.0 == p {
                Some(!old(self).cache().contains_key(msg.0))
            } else {
                None::<bool>
            },
            r == Some(true) ==> final(self).cache().contains_key(p),
    {
        let n = msg.0;
        let b = self.add_item(msg);
        if n == p {
            Some(b)
        } else {
            None
        }
    }

    /// Finishes `retrieve(n)` once the stream has read up to `n`: when message `n` is
    /// cached it is taken out, giving the elements of it not yet handed out; otherwise
    /// nothing happens.
    pub fn retrieve_received(&mut self, n: u64) -> (r: Option<Vec<T>>)
        requires
            old(self).wf(),
        ensures
            final(self).wf(),
            final(self).receiver() == old(self).receiver(),
            final(self).received() == old(self).received(),
            final(self).cursor() == old(self).cursor(),
            r is Some == old(self).cache().contains_key(n),
            r is Some ==> r.unwrap()@ == old(self).cache()[n].remaining(),
            final(self).cache() == old(self).cache().remove(n),
    {
        match self.remove_entry(n) {
            Some(item) => Some(item.into_rest()),
            None => None,
        }
    }

    /// Caches one received message as `add_item` does and adds its length to the count `a`,
    /// wrapping around `usize::MAX`.
    pub fn accept_msg(&mut self, msg: (u64, Vec<T>), a: usize) -> (r: usize)
        requires
            old(self).wf(),
            old(self).cache().len() < MAX_ENTRIES,
        ensures
            final(self).wf(),
            final(self).cursor() == old(self).cursor(),
            final(self).receiver() == old(self).receiver(),
            final(self).received() == old(self).received(),
            r == ((a + msg.1@.len()) as int) % (usize::MAX as int + 1),
            old(self).cache().contains_key(msg.0) ==> final(self).cache() == old(self).cache(),
            !old(self).cache().contains_key(msg.0) ==> final(self).cache() == old(self).cache().insert(
                msg.0,
                final(self).cache()[msg.0],
            ) && final(self).cache()[msg.0].contents() == msg.1@ && final(self).cache()[msg.0].start() == 0,
            !old(self).cache().contains_key(msg.0) ==> final(self).cache().len()
                == old(self).cache().len() + 1,
    {
        let len = msg.1.len();
        proof {
            let modulus = usize::MAX as nat + 1;
            lemma_wrapping_step(a as nat, len as nat, modulus);
            vstd::arithmetic::div_mod::lemma_small_mod(a as nat, modulus);
        }
        let r = a.wrapping_add(len);
        self.add_item(msg);
        r
    }

    /// Receives up to `cnt` messages and caches each as `add_item` does, stopping at the
    /// first receive error, or before receiving once the table holds `MAX_ENTRIES` messages
    /// (one more entry would overflow its count). Returns the summed lengths of the
    /// received messages (the sum wraps around `usize::MAX`) and the error, if there was
    /// one. The messages received are appended to `received`, in the order they came, and
    /// each is cached under its own sequence number.
    pub fn read_msgs(&mut self, cnt: usize) -> (r: (usize, Option<RecvError>))
        requires
            old(self).wf(),
        ensures
            final(self).wf(),
            final(self).cursor() == old(self).cursor(),
            final(self).receiver() == old(self).receiver(),
            final(self).cache().len() <= old(self).cache().len() + cnt,
            forall|k: u64| #[trigger]
                old(self).cache().contains_key(k) ==> final(self).cache().contains_key(k)
                    && final(self).cache()[k] == old(self).cache()[k],
            forall|k: u64| #[trigger]
                final(self).cache().contains_key(k) && !old(self).cache().contains_key(k)
                    ==> final(self).cache()[k].start() == 0,
            ({
                let got = final(self).received().skip(old(self).received().len() as int);
                &&& final(self).received() == old(self).received() + got
                &&& cached_in_order(old(self).cache(), got, final(self).cache())
                &&& r.0 == total_len(got) % (usize::MAX as nat + 1)
                &&& r.1 is None ==> got.len() == cnt || final(self).cache().len() == MAX_ENTRIES
                &&& r.1 is Some ==> got.len() < cnt
            }),
    {
        let mut a: usize = 0;
        let mut o: Option<RecvError> = None;
        let mut i: usize = 0;
        let ghost mut got = Seq::<(u64, Seq<T>)>::empty();
        proof {
            assert(numbers(got) =~= Set::<u64>::empty());
            assert(old(self).cache().dom().union(numbers(got)) =~= old(self).cache().dom());
            assert(old(self).received() + got =~= old(self).received());
        }
        while i < cnt
            invariant_except_break
                o is None,
            invariant
                self.wf(),
                i <= cnt,
                self.cursor() == old(self).cursor(),
                self.receiver() == old(self).receiver(),
                self.cache().len() <= old(self).cache().len() + i,
                forall|k: u64| #[trigger]
                    old(self).cache().contains_key(k) ==> self.cache().contains_key(k)
                        && self.cache()[k] == old(self).cache()[k],
                forall|k: u64| #[trigger]
                    self.cache().contains_key(k) && !old(self).cache().contains_key(k)
                        ==> self.cache()[k].start() == 0,
                got.len() == i,
                self.received() == old(self).received() + got,
                cached_in_order(old(self).cache(), got, self.cache()),
                a == total_len(got) % (usize::MAX as nat + 1),
            ensures
                o is None ==> i == cnt || self.cache().len() == MAX_ENTRIES,
                o is Some ==> i < cnt,
            decreases cnt - i,
        {
            proof {
                self.lemma_cache();
            }
            if self.len() >= MAX_ENTRIES {
                break ;
            }
            match self.receive_logged() {
                Ok(msg) => {
                    let ghost m = (msg.0, msg.1@);
                    let ghost before = self.cache();
                    proof {
                        let modulus = usize::MAX as nat + 1;
                        vstd::std_specs::vec::axiom_spec_len(&msg.1);
                        assert(total_len(got.push(m)) == total_len(got) + m.1.len()) by {
                            assert(got.push(m).drop_last() =~= got);
                        }
                        vstd::arithmetic::div_mod::lemma_add_mod_noop(
                            total_len(got) as int,
                            m.1.len() as int,
                            modulus as int,
                        );
                        vstd::arithmetic::div_mod::lemma_small_mod(m.1.len(), modulus);
                        assert(self.received() =~= old(self).received() + got.push(m));
                    }
                    a = self.accept_msg(msg, a);
                    proof {
                        self.lemma_cache();
                        assert forall|k: u64| #[trigger]
                            self.cache().contains_key(k) && !old(self).cache().contains_key(k)
                                implies self.cache()[k].start() == 0 by {
                            if before.contains_key(k) {
                                assert(self.cache()[k] == before[k]);
                            }
                        }
                        lemma_cached_in_order_step(old(self).cache(), got, before, m, self.cache());
                        got = got.push(m);
                    }
                },
                Err(e) => {
                    o = Some(e);
                    break ;
                },
            }
            i = i + 1;
        }
        proof {
            assert(self.received().skip(old(self).received().len() as int) =~= got);
        }
        (a, o)
    }

    /// Receives one message and appends it to `received` when one came.
    fn receive_logged(&mut self) -> (r: Result<(u64, Vec<T>), RecvError>)
        requires
            old(self).wf(),
        ensures
            final(self).wf(),
            final(self).cache() == old(self).cache(),
            final(self).cursor() == old(self).cursor(),
            final(self).receiver() == old(self).receiver(),
            r is Ok ==> final(self).received() == old(self).received().push(
                (r->Ok_0.0, r->Ok_0.1@),
            ),
            r is Err ==> final(self).received() == old(self).received(),
    {
        let got = receive(&self.incoming);
        let ghost next = if got is Ok {
            self.received@.push((got->Ok_0.0, got->Ok_0.1@))
        } else {
            self.received@
        };
        self.received = Ghost(next);
        got
    }

    /// One round of caching every waiting message (`sop`) or caching until a receive times
    /// out (`read_until_timeout`), with `cnt` messages received so far: a received message
    /// is cached as `add_item` caches it and the count goes up by one; a receive error ends
    /// the loop with the count, or with the error when nothing was received.
    pub fn cache_round<E>(&mut self, cnt: usize, got: Result<(u64, Vec<T>), E>) -> (r: Round<
        Result<usize, E>,
    >)
        requires
            old(self).wf(),
            got is Ok ==> old(self).cache().len() < MAX_ENTRIES && cnt < usize::MAX,
        ensures
            final(self).wf(),
            final(self).cursor() == old(self).cursor(),
            final(self).receiver() == old(self).receiver(),
            final(self).received() == old(self).received(),
            got is Ok ==> r == Round::<Result<usize, E>>::Continue((cnt + 1) as usize) && caches(
                old(self).cache(),
                (got->Ok_0.0, got->Ok_0.1@),
                final(self).cache(),
            ),
            got is Err ==> *final(self) == *old(self) && r == Round::<Result<usize, E>>::Finish(
                if cnt > 0 {
                    Ok::<usize, E>(cnt)
                } else {
                    Err::<usize, E>(got->Err_0)
                },
            ),
    {
        match got {
            Ok(item) => {
                self.add_item(item);
                Round::Continue(cnt + 1)
            },
            Err(e) => {
                if cnt > 0 {
                    Round::Finish(Ok(cnt))
                } else {
                    Round::Finish(Err(e))
                }
            },
        }
    }

    /// One round of caching for a while (`read_for_duration`), with `cnt` messages
    /// received so far and `elapsed` telling whether the time is up: a received message is
    /// cached as `add_item` caches it and counted, and the loop ends with the count once
    /// the time is up; after a receive error it ends only when the time is up, with the
    /// count, or with the error when nothing was received.
    pub fn timed_round<E>(&mut self, cnt: usize, got: Result<(u64, Vec<T>), E>, elapsed: bool) -> (r:
        Round<Result<usize, E>>)
        requires
            old(self).wf(),
            got is Ok ==> old(self).cache().len() < MAX_ENTRIES && cnt < usize::MAX,
        ensures
            final(self).wf(),
            final(self).cursor() == old(self).cursor(),
            final(self).receiver() == old(self).receiver(),
            final(self).received() == old(self).received(),
            got is Ok ==> caches(
                old(self).cache(),
                (got->Ok_0.0, got->Ok_0.1@),
                final(self).cache(),
            ) && r == if elapsed {
                Round::<Result<usize, E>>::Finish(Ok::<usize, E>((cnt + 1) as usize))
            } else {
                Round::<Result<usize, E>>::Continue((cnt + 1) as usize)
            },
            got is Err ==> *final(self) == *old(self) && r == if !elapsed {
                Round::<Result<usize, E>>::Continue(cnt)
            } else if cnt > 0 {
                Round::<Result<usize, E>>::Finish(Ok::<usize, E>(cnt))
            } else {
                Round::<Result<usize, E>>::Finish(Err::<usize, E>(got->Err_0))
            },
    {
        match got {
            Ok(item) => {
                self.add_item(item);
                if elapsed {
                    Round::Finish(Ok(cnt + 1))
                } else {
                    Round::Continue(cnt + 1)
                }
            },
            Err(e) => {
                if cnt > 0 && elapsed {
                    Round::Finish(Ok(cnt))
                } else if cnt == 0 && elapsed {
                    Round::Finish(Err(e))
                } else {
                    Round::Continue(cnt)
                }
            },
        }
    }

    /// The channel that messages are received from.
    pub fn incoming(&self) -> (r: &Receiver<(u64, Vec<T>)>)
        ensures
            *r == self.receiver(),
    {
        &self.incoming
    }

    /// The cursor: the sequence number of the next message to hand out.
    pub fn pos(&self) -> (r: u64)
        ensures
            r == self.cursor(),
    {
        self.curr
    }
}

/// One round of `read_len`, with `total` elements counted so far and `got` what
/// `read_msgs(1)` gave: a receive error ends it with the total and the error; otherwise
/// the length received is added to the total.
pub fn len_round(total: usize, got: (usize, Option<RecvError>)) -> (r: Round<(usize, Option<RecvError>)>)
    requires
        got.1 is None ==> total + got.0 <= usize::MAX,
    ensures
        got.1 is Some ==> r == Round::<(usize, Option<RecvError>)>::Finish((total, got.1)),
        got.1 is None ==> r == Round::<(usize, Option<RecvError>)>::Continue((total + got.0) as usize),
{
    match got.1 {
        Some(e) => Round::Finish((total, Some(e))),
        None => Round::Continue(total + got.0),
    }
}

/// Ends a squeeze whose receiving failed with `err`: the elements gathered so far, or
/// `Err(Some(err))` when there are none.
pub fn interrupted<T, E>(buf: Vec<T>, err: E) -> (r: Result<Vec<T>, Option<E>>)
    ensures
        buf@.len() == 0 ==> r == Err::<Vec<T>, Option<E>>(Some(err)),
        buf@.len() > 0 ==> r is Ok && r->Ok_0@ == buf@,
{
    if buf.len() == 0 {
        Err(Some(err))
    } else {
        Ok(buf)
    }
}

} // verus!

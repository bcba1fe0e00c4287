//! Properties that hold across the operations of the stream.
use vstd::prelude::*;
use crate::offset_vec::{OffsetVec, offset_step};
use crate::ordered_stream::{drain, DrainEnd, cached_in_order, numbers, run_total};

verus! {

/// The elements still to come, in sequence order: the remaining elements of the message at
/// `pos`, then those of `pos + 1`, and so on while the messages are cached (and their
/// offsets lie within their data).
pub open spec fn ordered_rest<T>(cache: Map<u64, OffsetVec<T>>, pos: u64) -> Seq<T>
    decreases cache.len(),
{
    if !cache.dom().finite() || !cache.contains_key(pos) || !cache[pos].in_bounds() {
        Seq::<T>::empty()
    } else if pos == u64::MAX {
        cache[pos].rest()
    } else {
        cache[pos].rest() + ordered_rest(cache.remove(pos), (pos + 1) as u64)
    }
}

/// Squeezing hands out elements in sequence order and neither loses nor repeats any: what
/// a drain takes, followed by the elements still to come after it, is exactly what was to
/// come before it. It takes no more than was wanted, all of it when it completes, and it
/// stops short only at a message that is not cached. The cursor only moves forward, no
/// message it passed stays cached, and messages outside the stretch it covered are left
/// alone.
pub proof fn law_drain_in_order<T>(cache: Map<u64, OffsetVec<T>>, pos: u64, rem: nat)
    requires
        cache.dom().finite(),
        !(drain(cache, pos, rem).0 is Broken),
    ensures
        ordered_rest(cache, pos) == drain(cache, pos, rem).4 + ordered_rest(
            drain(cache, pos, rem).1,
            drain(cache, pos, rem).2,
        ),
        drain(cache, pos, rem).4.len() + drain(cache, pos, rem).3 == rem,
        drain(cache, pos, rem).0 is Complete ==> drain(cache, pos, rem).3 == 0,
        drain(cache, pos, rem).0 is Pending ==> !drain(cache, pos, rem).1.contains_key(
            drain(cache, pos, rem).2,
        ),
        drain(cache, pos, rem).1.dom().finite(),
        pos <= drain(cache, pos, rem).2,
        forall|k: u64|
            pos <= k < drain(cache, pos, rem).2 ==> !#[trigger] drain(cache, pos, rem).1.contains_key(k),
        forall|k: u64|
            k < pos || k > drain(cache, pos, rem).2 ==> #[trigger] drain(
                cache,
                pos,
                rem,
            ).1.contains_key(k) == cache.contains_key(k),
        forall|k: u64|
            (k < pos || k > drain(cache, pos, rem).2) && cache.contains_key(k) ==> #[trigger] drain(
                cache,
                pos,
                rem,
            ).1[k] == cache[k],
    decreases cache.len(),
{
    let d = drain(cache, pos, rem);
    if !cache.contains_key(pos) {
        assert(d.4 + ordered_rest(cache, pos) =~= ordered_rest(cache, pos));
    } else {
        let item = cache[pos];
        let n = item.rest().len();
        if n == rem {
            assert(d.4 + ordered_rest(d.1, d.2) =~= ordered_rest(cache, pos));
        } else if n > rem {
            item.lemma_advanced_rest(rem);
            let adv = item.advanced(rem);
            let after = cache.insert(pos, adv);
            assert(after.remove(pos) =~= cache.remove(pos));
            assert(after[pos] == adv);
            assert(item.rest() =~= item.rest().take(rem as int) + adv.rest());
            if pos == u64::MAX {
                assert(ordered_rest(after, pos) == adv.rest());
            } else {
                assert(ordered_rest(after, pos) == adv.rest() + ordered_rest(
                    cache.remove(pos),
                    (pos + 1) as u64,
                ));
            }
            assert(d.4 + ordered_rest(d.1, d.2) =~= ordered_rest(cache, pos));
        } else {
            let next = drain(cache.remove(pos), (pos + 1) as u64, (rem - n) as nat);
            assert(cache.remove(pos).len() < cache.len()) by {
                assert(cache.remove(pos).dom() =~= cache.dom().remove(pos));
            }
            law_drain_in_order(cache.remove(pos), (pos + 1) as u64, (rem - n) as nat);
            assert(d.1 == next.1 && d.2 == next.2);
            assert forall|k: u64| pos <= k < d.2 implies !#[trigger] d.1.contains_key(k) by {
                if k == pos {
                    assert(!cache.remove(pos).contains_key(k));
                    assert(next.1.contains_key(k) == cache.remove(pos).contains_key(k));
                } else {
                    assert(!next.1.contains_key(k));
                }
            }
            assert forall|k: u64| k < pos || k > d.2 implies #[trigger] d.1.contains_key(k)
                == cache.contains_key(k) by {
                assert(k != pos);
                assert(cache.remove(pos).contains_key(k) == cache.contains_key(k));
                assert(next.1.contains_key(k) == cache.remove(pos).contains_key(k));
            }
            assert forall|k: u64| (k < pos || k > d.2) && cache.contains_key(k) implies #[trigger] d.1[k]
                == cache[k] by {
                assert(k != pos);
                assert(cache.remove(pos).contains_key(k) == cache.contains_key(k));
                assert(next.1.contains_key(k) == cache.remove(pos).contains_key(k));
                if cache.contains_key(k) {
                    assert(next.1[k] == cache.remove(pos)[k]);
                }
            }
            assert(d.4 + ordered_rest(d.1, d.2) =~= item.rest() + (next.4 + ordered_rest(
                next.1,
                next.2,
            )));
        }
    }
}

/// Squeezing chunk after chunk reads the stream in order: the elements of a completed
/// drain followed by those of the next drain, and then what is still to come, are exactly
/// what was to come at first.
pub proof fn law_successive_drains<T>(cache: Map<u64, OffsetVec<T>>, pos: u64, first: nat, second: nat)
    requires
        cache.dom().finite(),
        drain(cache, pos, first).0 is Complete,
        !(drain(drain(cache, pos, first).1, drain(cache, pos, first).2, second).0 is Broken),
    ensures
        ({
            let d1 = drain(cache, pos, first);
            let d2 = drain(d1.1, d1.2, second);
            ordered_rest(cache, pos) == d1.4 + d2.4 + ordered_rest(d2.1, d2.2)
        }),
{
    let d1 = drain(cache, pos, first);
    let d2 = drain(d1.1, d1.2, second);
    law_drain_in_order(cache, pos, first);
    law_drain_in_order(d1.1, d1.2, second);
    assert(d1.4 + d2.4 + ordered_rest(d2.1, d2.2) =~= d1.4 + (d2.4 + ordered_rest(d2.1, d2.2)));
}

/// Squeezing `a` elements and then `b` more gives the same elements, and leaves the same
/// cache and cursor, as squeezing `a + b` at once (unless the second squeeze breaks).
pub proof fn law_split_drain<T>(cache: Map<u64, OffsetVec<T>>, pos: u64, a: nat, b: nat)
    requires
        cache.dom().finite(),
        b >= 1,
        drain(cache, pos, a).0 is Complete,
        !(drain(drain(cache, pos, a).1, drain(cache, pos, a).2, b).0 is Broken),
    ensures
        ({
            let d1 = drain(cache, pos, a);
            let d2 = drain(d1.1, d1.2, b);
            let d = drain(cache, pos, a + b);
            &&& d.0 == d2.0
            &&& d.1 == d2.1
            &&& d.2 == d2.2
            &&& d.3 == d2.3
            &&& d.4 == d1.4 + d2.4
        }),
    decreases cache.len(),
{
    let d1 = drain(cache, pos, a);
    let d2 = drain(d1.1, d1.2, b);
    let d = drain(cache, pos, a + b);
    let item = cache[pos];
    let n = item.rest().len();
    assert(cache.contains_key(pos) && item.in_bounds());
    if n == a {
        assert(d1.1 == cache.remove(pos));
        assert(d.4 =~= d1.4 + d2.4);
    } else if n > a {
        item.lemma_advanced_rest(a);
        let adv = item.advanced(a);
        let after = cache.insert(pos, adv);
        assert(d1.1 == after && d1.2 == pos);
        assert(after.contains_key(pos) && after[pos] == adv);
        assert(after.remove(pos) =~= cache.remove(pos));
        let m = (n - a) as nat;
        assert(adv.rest().len() == m);
        if m == b {
            assert(d.4 =~= d1.4 + d2.4);
        } else if m > b {
            item.lemma_advanced_twice(a, b);
            adv.lemma_advanced_rest(b);
            assert(after.insert(pos, adv.advanced(b)) =~= cache.insert(pos, item.advanced(a + b)));
            assert(d.4 =~= d1.4 + d2.4);
        } else {
            assert(d.4 =~= d1.4 + d2.4);
        }
    } else {
        assert(cache.remove(pos).len() < cache.len()) by {
            assert(cache.remove(pos).dom() =~= cache.dom().remove(pos));
        }
        law_split_drain(cache.remove(pos), (pos + 1) as u64, (a - n) as nat, b);
        assert((a + b - n) as nat == (a - n) as nat + b);
        assert(d.4 =~= d1.4 + d2.4);
    }
}

/// Where a sequence of `inc_offset` calls leaves an offset `start` over data of length
/// `len`.
pub open spec fn offset_after(len: nat, start: nat, steps: Seq<nat>) -> nat
    decreases steps.len(),
{
    if steps.len() == 0 {
        start
    } else {
        offset_step(len, offset_after(len, start, steps.drop_last()), steps.last())
    }
}

/// However `inc_offset` is called, an offset that starts within the data stays within
/// it, and it either has not moved or leaves at least one element: each accepted step adds
/// its amount and each refused one changes nothing.
pub proof fn law_offsets_stay_within(len: nat, start: nat, steps: Seq<nat>)
    requires
        start <= len,
    ensures
        offset_after(len, start, steps) <= len,
        offset_after(len, start, steps) == start || offset_after(len, start, steps) < len,
        start <= offset_after(len, start, steps),
    decreases steps.len(),
{
    if steps.len() > 0 {
        law_offsets_stay_within(len, start, steps.drop_last());
    }
}

/// Receiving caches each message under its own sequence number: every number received is
/// cached afterwards, the first message received under a number that was not cached is
/// what is cached there (with nothing handed out), and nothing else is added.
pub proof fn law_received_messages_cached<T>(
    before: Map<u64, OffsetVec<T>>,
    got: Seq<(u64, Seq<T>)>,
    after: Map<u64, OffsetVec<T>>,
)
    requires
        cached_in_order(before, got, after),
    ensures
        forall|i: int| 0 <= i < got.len() ==> after.contains_key(#[trigger] got[i].0),
        forall|i: int|
            0 <= i < got.len() && !before.contains_key(got[i].0) && (forall|j: int|
                0 <= j < i ==> got[j].0 != got[i].0) ==> after[#[trigger] got[i].0].contents()
                == got[i].1 && after[got[i].0].start() == 0,
        forall|k: u64|
            #[trigger] after.contains_key(k) ==> before.contains_key(k) || exists|i: int|
                0 <= i < got.len() && got[i].0 == k,
        forall|k: u64| #[trigger] before.contains_key(k) ==> after[k] == before[k],
{
    assert forall|i: int| 0 <= i < got.len() implies after.contains_key(#[trigger] got[i].0) by {
        assert(numbers(got).contains(got[i].0));
    }
    assert forall|i: int|
        0 <= i < got.len() && !before.contains_key(got[i].0) && (forall|j: int|
            0 <= j < i ==> got[j].0 != got[i].0) implies after[#[trigger] got[i].0].contents()
        == got[i].1 && after[got[i].0].start() == 0 by {
        let k = got[i].0;
        assert(numbers(got).contains(k));
        assert(after.contains_key(k));
        let w = choose|w: int|
            0 <= w < got.len() && #[trigger] got[w].0 == k && after[k].contents() == got[w].1
                && forall|j: int| 0 <= j < w ==> got[j].0 != k;
        if w < i {
            assert(got[w].0 != k);
        } else if i < w {
            assert(got[i].0 != k);
        }
    }
    assert forall|k: u64| #[trigger] after.contains_key(k) implies before.contains_key(k)
        || exists|i: int| 0 <= i < got.len() && got[i].0 == k by {
        if !before.contains_key(k) {
            assert(numbers(got).contains(k));
        }
    }
}

/// Messages cached below `k` do not change the run counted from `k`.
proof fn lemma_run_total_from<T>(cache: Map<u64, OffsetVec<T>>, j: u64, k: int, fuel: nat)
    requires
        j < k,
    ensures
        run_total(cache.remove(j), k, fuel) == run_total(cache, k, fuel),
    decreases fuel,
{
    if fuel > 0 && 0 <= k <= u64::MAX {
        lemma_run_total_from(cache, j, k + 1, (fuel - 1) as nat);
        if cache.contains_key(k as u64) {
            assert(cache.remove(j).contains_key(k as u64));
            assert(cache.remove(j)[k as u64] == cache[k as u64]);
        }
    }
}

/// What `size` counts is the length of the stream still to come from sequence number `k`
/// (`ordered_rest`): the remaining elements of the messages cached under `k`, `k + 1`, ...,
/// up to the first number that is not cached.
pub proof fn law_size_is_stream_length<T>(cache: Map<u64, OffsetVec<T>>, k: u64)
    requires
        cache.dom().finite(),
        run_total(cache, k as int, cache.len()) is Some,
    ensures
        run_total(cache, k as int, cache.len()) == Some(ordered_rest(cache, k).len()),
    decreases cache.len(),
{
    if cache.contains_key(k) {
        let rest = cache.remove(k);
        assert(rest.len() == cache.len() - 1) by {
            assert(rest.dom() =~= cache.dom().remove(k));
        }
        assert(cache.len() > 0) by {
            assert(cache.dom().contains(k));
        }
        if k < u64::MAX {
            lemma_run_total_from(cache, k, k + 1, (cache.len() - 1) as nat);
            law_size_is_stream_length(rest, (k + 1) as u64);
        }
    }
}

/// Messages cached below `k` do not change the stream still to come from `k`.
proof fn lemma_ordered_rest_from<T>(cache: Map<u64, OffsetVec<T>>, j: u64, k: u64)
    requires
        cache.dom().finite(),
        j < k,
    ensures
        ordered_rest(cache.remove(j), k) == ordered_rest(cache, k),
    decreases cache.len(),
{
    let less = cache.remove(j);
    if cache.contains_key(k) && cache[k].in_bounds() && k < u64::MAX {
        assert(less.contains_key(k) && less[k] == cache[k]);
        let rest = cache.remove(k);
        assert(rest.len() < cache.len()) by {
            assert(rest.dom() =~= cache.dom().remove(k));
        }
        lemma_ordered_rest_from(rest, j, (k + 1) as u64);
        assert(less.remove(k) =~= rest.remove(j));
    }
}

/// When the first message missing from the run at `pos` arrives, the stream still to come
/// from `pos` becomes what it was, then that message's remaining elements, then the run
/// that was waiting behind it. So `size` grows by the new message's length and by the
/// lengths of the messages it joins to the run.
pub proof fn law_gap_filled<T>(cache: Map<u64, OffsetVec<T>>, pos: u64, m: u64, item: OffsetVec<T>)
    requires
        cache.dom().finite(),
        pos <= m < u64::MAX,
        forall|j: u64| pos <= j < m ==> #[trigger] cache.contains_key(j) && cache[j].in_bounds(),
        !cache.contains_key(m),
        item.in_bounds(),
    ensures
        ordered_rest(cache.insert(m, item), pos) == ordered_rest(cache, pos) + item.rest()
            + ordered_rest(cache, (m + 1) as u64),
    decreases m - pos,
{
    let filled = cache.insert(m, item);
    if pos == m {
        assert(filled.remove(m) =~= cache);
        assert(ordered_rest(cache, pos) == Seq::<T>::empty());
        assert(ordered_rest(filled, pos) =~= ordered_rest(cache, pos) + item.rest()
            + ordered_rest(cache, (m + 1) as u64));
    } else {
        assert(cache.contains_key(pos) && cache[pos].in_bounds());
        let rest = cache.remove(pos);
        assert(filled.remove(pos) =~= rest.insert(m, item));
        assert forall|j: u64| pos + 1 <= j < m implies #[trigger] rest.contains_key(j)
            && rest[j].in_bounds() by {
            assert(cache.contains_key(j) && cache[j].in_bounds());
        }
        law_gap_filled(rest, (pos + 1) as u64, m, item);
        lemma_ordered_rest_from(cache, pos, (m + 1) as u64);
        assert(ordered_rest(filled, pos) =~= ordered_rest(cache, pos) + item.rest()
            + ordered_rest(cache, (m + 1) as u64));
    }
}

/// Caching a message under a new sequence number and then removing it gives back the cache
/// as it was, and the message itself.
pub proof fn law_add_then_remove<T>(cache: Map<u64, OffsetVec<T>>, seq: u64, item: OffsetVec<T>)
    requires
        !cache.contains_key(seq),
    ensures
        cache.insert(seq, item).remove(seq) == cache,
        cache.insert(seq, item)[seq] == item,
{
    assert(cache.insert(seq, item).remove(seq) =~= cache);
}

} // verus!

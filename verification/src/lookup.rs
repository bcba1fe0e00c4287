//! The `intmap` table that finds the slot of a cached message by its sequence number.
use vstd::prelude::*;
use intmap::IntMap;

verus! {

/// `intmap::IntMap`, the hash table for `u64` keys; opaque to Verus.
#[verifier::external_type_specification]
#[verifier::external_body]
#[verifier::reject_recursive_types(V)]
pub struct ExIntMap<V>(IntMap<V>);

/// The entries of an `IntMap<usize>`: key to stored slot number.
pub uninterp spec fn slot_entries(m: IntMap<usize>) -> Map<u64, usize>;

/// Largest number of entries before an insertion could overflow the table's load-rate
/// computation (`count * 100` in `IntMap::insert`).
pub const MAX_ENTRIES: usize = usize::MAX / 100;

/// `IntMap::with_capacity`: an empty table. Its growth loop doubles a power of two until
/// it reaches `cap`, which overflows past half the address range, hence the bound.
#[verifier::external_body]
pub(crate) fn table_with_capacity(cap: usize) -> (table: IntMap<usize>)
    requires
        cap <= usize::MAX / 2 + 1,
    ensures
        slot_entries(table).dom() == Set::<u64>::empty(),
{
    IntMap::with_capacity(cap)
}

/// `IntMap::insert`: adds `key => value` and returns `true` when `key` is absent;
/// otherwise returns `false` and leaves the table as it was (the value is dropped).
#[verifier::external_body]
pub(crate) fn table_insert(m: &mut IntMap<usize>, key: u64, value: usize) -> (r: bool)
    requires
        slot_entries(*old(m)).len() < MAX_ENTRIES,
    ensures
        r == !slot_entries(*old(m)).contains_key(key),
        slot_entries(*final(m)) == if r {
            slot_entries(*old(m)).insert(key, value)
        } else {
            slot_entries(*old(m))
        },
{
    m.insert(key, value)
}

/// `IntMap::get`: the value stored under `key`, if any.
#[verifier::external_body]
pub(crate) fn table_get(m: &IntMap<usize>, key: u64) -> (r: Option<usize>)
    ensures
        r == if slot_entries(*m).contains_key(key) {
            Some(slot_entries(*m)[key])
        } else {
            None::<usize>
        },
{
    match m.get(key) {
        Some(v) => Some(*v),
        None => None,
    }
}

/// `IntMap::contains_key`: whether `key` has an entry.
#[verifier::external_body]
pub(crate) fn table_contains(m: &IntMap<usize>, key: u64) -> (r: bool)
    ensures
        r == slot_entries(*m).contains_key(key),
{
    m.contains_key(key)
}

/// `IntMap::remove`: takes the entry under `key` out, returning its value.
#[verifier::external_body]
pub(crate) fn table_remove(m: &mut IntMap<usize>, key: u64) -> (r: Option<usize>)
    ensures
        r == if slot_entries(*old(m)).contains_key(key) {
            Some(slot_entries(*old(m))[key])
        } else {
            None::<usize>
        },
        slot_entries(*final(m)) == slot_entries(*old(m)).remove(key),
{
    m.remove(key)
}

/// `IntMap::len`: the entry count, which the table raises on each insertion of a new key
/// and lowers on each removal of a present one.
#[verifier::external_body]
pub(crate) fn table_len(m: &IntMap<usize>) -> (r: usize)
    ensures
        r == slot_entries(*m).len(),
{
    m.len()
}

} // verus!

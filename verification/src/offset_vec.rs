use vstd::prelude::*;
use vstd::slice::slice_subrange;
use std::ops::{Index, IndexMut, Range, RangeFrom, RangeFull, RangeTo};

verus! {

/// `RangeFull` (`..`) of std, so that `offset_vec[..]` can be written; it has no field.
#[verifier::external_type_specification]
pub struct ExRangeFull(RangeFull);

/// `RangeFrom` (`a..`) of std; its one field, `start`, is public.
#[verifier::external_type_specification]
#[verifier::reject_recursive_types(Idx)]
pub struct ExRangeFrom<Idx>(RangeFrom<Idx>);

/// `RangeTo` (`..e`) of std; its one field, `end`, is public.
#[verifier::external_type_specification]
#[verifier::reject_recursive_types(Idx)]
pub struct ExRangeTo<Idx>(RangeTo<Idx>);

/// Where `inc_offset(o)` leaves an offset `start` over data of length `len`: moved on by
/// `o` when at least one element would remain, otherwise where it was.
pub open spec fn offset_step(len: nat, start: nat, o: nat) -> nat {
    if start + o < len {
        start + o
    } else {
        start
    }
}

/// A vector whose first `offset` elements have already been handed out.
pub struct OffsetVec<T> {
    data: Vec<T>,
    offset: usize,
}

impl<T> OffsetVec<T> {
    /// Every element held, handed out or not.
    pub closed spec fn contents(&self) -> Seq<T> {
        self.data@
    }

    /// How many leading elements have been handed out.
    pub closed spec fn start(&self) -> nat {
        self.offset as nat
    }

    /// The offset lies within the data, so the remaining part is well defined.
    pub open spec fn in_bounds(&self) -> bool {
        self.start() <= self.contents().len()
    }

    /// The elements not yet handed out.
    pub open spec fn rest(&self) -> Seq<T> {
        self.contents().subrange(self.start() as int, self.contents().len() as int)
    }

    /// The elements not yet handed out; none when the offset lies past the end.
    pub open spec fn remaining(&self) -> Seq<T> {
        if self.in_bounds() {
            self.rest()
        } else {
            Seq::<T>::empty()
        }
    }

    /// The same data with `n` more elements handed out.
    pub closed spec fn advanced(&self, n: nat) -> OffsetVec<T> {
        OffsetVec { data: self.data, offset: (self.offset + n) as usize }
    }

    /// Handing out `a` elements and then `b` more is handing out `a + b`.
    pub proof fn lemma_advanced_twice(&self, a: nat, b: nat)
        requires
            self.start() + a + b <= self.contents().len(),
        ensures
            self.advanced(a).advanced(b) == self.advanced(a + b),
    {
        self.lemma_fits();
    }

    /// The data of an `OffsetVec` is a vector, so its length fits in a `usize`.
    pub proof fn lemma_fits(&self)
        ensures
            self.contents().len() <= usize::MAX,
    {
        vstd::std_specs::vec::axiom_spec_len(&self.data);
    }

    /// Handing out `n` more elements drops the first `n` of the remaining ones.
    pub proof fn lemma_advanced_rest(&self, n: nat)
        requires
            self.start() + n <= self.contents().len(),
        ensures
            self.advanced(n).contents() == self.contents(),
            self.advanced(n).start() == self.start() + n,
            self.advanced(n).in_bounds(),
            self.advanced(n).rest() == self.rest().subrange(n as int, self.rest().len() as int),
    {
        self.lemma_fits();
        assert(self.advanced(n).rest() =~= self.rest().subrange(n as int, self.rest().len() as int));
    }

    /// Number of elements held, handed out or not.
    pub(crate) fn data_len(&self) -> (r: usize)
        ensures
            r == self.contents().len(),
    {
        self.data.len()
    }

    /// The remaining elements as a vector of their own (none when the offset lies past the
    /// end of the data).
    pub(crate) fn into_rest(self) -> (r: Vec<T>)
        ensures
            r@ == self.remaining(),
    {
        let mut data = self.data;
        if self.offset == 0 {
            proof {
                assert(data@.subrange(0, data@.len() as int) =~= data@);
            }
            data
        } else if self.offset <= data.len() {
            data.split_off(self.offset)
        } else {
            Vec::new()
        }
    }

    /// The remaining elements `[offset, offset + n)`, as a slice.
    pub(crate) fn rest_prefix(&self, n: usize) -> (r: &[T])
        requires
            self.start() + n <= self.contents().len(),
        ensures
            r@ == self.rest().subrange(0, n as int),
    {
        let total = self.data.len();
        let s = slice_subrange(self.data.as_slice(), self.offset, self.offset + n);
        assert(s@ =~= self.rest().subrange(0, n as int));
        s
    }
}

impl<T: Clone> Default for OffsetVec<T> {
    fn default() -> (r: OffsetVec<T>)
        ensures
            r.contents() == Seq::<T>::empty(),
            r.start() == 0,
    {
        OffsetVec { data: Vec::new(), offset: 0 }
    }
}

impl<T: Clone> OffsetVec<T> {
    /// Builds an `OffsetVec` from its data and an offset into it.
    pub fn from_pieces(d: Vec<T>, o: usize) -> (r: OffsetVec<T>)
        ensures
            r.contents() == d@,
            r.start() == o,
    {
        OffsetVec { data: d, offset: o }
    }

    /// Wraps a vector with nothing handed out yet.
    pub fn from_vec(v: Vec<T>) -> (r: OffsetVec<T>)
        ensures
            r.contents() == v@,
            r.start() == 0,
    {
        OffsetVec { data: v, offset: 0 }
    }

    /// An empty `OffsetVec` with room for `cap` elements.
    pub fn with_capacity(cap: usize) -> (r: OffsetVec<T>)
        ensures
            r.contents() == Seq::<T>::empty(),
            r.start() == 0,
    {
        let temp: Vec<T> = Vec::with_capacity(cap);
        OffsetVec { data: temp, offset: 0 }
    }

    /// An empty `OffsetVec`.
    pub fn new() -> (r: OffsetVec<T>)
        ensures
            r.contents() == Seq::<T>::empty(),
            r.start() == 0,
    {
        OffsetVec::default()
    }

    /// Number of elements not yet handed out.
    pub fn len(&self) -> (r: usize)
        requires
            self.in_bounds(),
        ensures
            r == self.rest().len(),
            r == self.contents().len() - self.start(),
    {
        self.data.len() - self.offset
    }

    /// Number of elements already handed out.
    pub fn offset(&self) -> (r: usize)
        ensures
            r == self.start(),
    {
        self.offset
    }

    /// Hands out `o` more elements; refused (and nothing changes) unless at
    /// least one element would remain.
    pub fn inc_offset(&mut self, o: usize) -> (r: Result<(), ()>)
        requires
            old(self).start() + o <= usize::MAX,
        ensures
            r is Ok <==> old(self).start() + o < old(self).contents().len(),
            r is Ok ==> *final(self) == old(self).advanced(o as nat),
            r is Err ==> *final(self) == *old(self),
            final(self).contents() == old(self).contents(),
            r is Ok ==> final(self).start() == old(self).start() + o,
            final(self).start() == offset_step(old(self).contents().len(), old(self).start(), o as nat),
            r is Ok && old(self).in_bounds() ==> final(self).rest() == old(self).rest().subrange(
                o as int,
                old(self).rest().len() as int,
            ),
    {
        proof {
            if old(self).start() + o < old(self).contents().len() {
                old(self).lemma_advanced_rest(o as nat);
            }
        }
        let new_offset = self.offset + o;
        if new_offset >= self.data.len() {
            return Err(());
        }
        self.offset = new_offset;
        Ok(())
    }

    /// Gives back the whole data, handed out elements included.
    pub fn into_inner(self) -> (r: Vec<T>)
        ensures
            r@ == self.contents(),
    {
        self.data
    }

    /// Whether the data itself is empty (the offset is not considered).
    pub fn is_empty(&self) -> (r: bool)
        ensures
            r == (self.contents().len() == 0),
    {
        self.data.is_empty()
    }
}

impl<T> vstd::std_specs::core::IndexSpecImpl<RangeFull> for OffsetVec<T> {
    open spec fn index_req(&self, index: &RangeFull) -> bool {
        self.in_bounds()
    }
}

impl<T> Index<RangeFull> for OffsetVec<T> {
    type Output = [T];

    /// The elements not yet handed out.
    fn index(&self, idx: RangeFull) -> (r: &[T])
        ensures
            r@ == self.rest(),
    {
        slice_subrange(self.data.as_slice(), self.offset, self.data.len())
    }
}

impl<T> vstd::std_specs::core::IndexSpecImpl<Range<usize>> for OffsetVec<T> {
    open spec fn index_req(&self, index: &Range<usize>) -> bool {
        &&& self.start() + index.start <= index.end
        &&& index.end <= self.contents().len()
    }
}

impl<T> Index<Range<usize>> for OffsetVec<T> {
    type Output = [T];

    /// The data from `offset + idx.start` up to the absolute position `idx.end`.
    fn index(&self, idx: Range<usize>) -> (r: &[T])
        ensures
            r@ == self.contents().subrange(self.start() + idx.start, idx.end as int),
    {
        slice_subrange(self.data.as_slice(), self.offset + idx.start, idx.end)
    }
}

impl<T> vstd::std_specs::core::IndexSpecImpl<RangeFrom<usize>> for OffsetVec<T> {
    open spec fn index_req(&self, index: &RangeFrom<usize>) -> bool {
        self.start() + index.start <= self.contents().len()
    }
}

impl<T> Index<RangeFrom<usize>> for OffsetVec<T> {
    type Output = [T];

    /// The remaining elements from the `idx.start`-th on.
    fn index(&self, idx: RangeFrom<usize>) -> (r: &[T])
        ensures
            r@ == self.contents().subrange(self.start() + idx.start, self.contents().len() as int),
    {
        let total = self.data.len();
        slice_subrange(self.data.as_slice(), idx.start + self.offset, total)
    }
}

impl<T> vstd::std_specs::core::IndexSpecImpl<RangeTo<usize>> for OffsetVec<T> {
    open spec fn index_req(&self, index: &RangeTo<usize>) -> bool {
        &&& self.start() <= index.end
        &&& index.end <= self.contents().len()
    }
}

impl<T> Index<RangeTo<usize>> for OffsetVec<T> {
    type Output = [T];

    /// The data from the offset up to the absolute position `idx.end`.
    fn index(&self, idx: RangeTo<usize>) -> (r: &[T])
        ensures
            r@ == self.contents().subrange(self.start() as int, idx.end as int),
    {
        slice_subrange(self.data.as_slice(), self.offset, idx.end)
    }
}

impl<T> IndexMut<RangeFull> for OffsetVec<T> {
    /// The elements not yet handed out, to be changed in place.
    fn index_mut(&mut self, idx: RangeFull) -> (r: &mut [T])
        requires
            old(self).in_bounds(),
        ensures
            r@ == old(self).rest(),
            final(self).start() == old(self).start(),
            final(self).contents() == old(self).contents().subrange(0, old(self).start() as int)
                + final(r)@,
    {
        let off = self.offset;
        let (_, tail) = self.data.as_mut_slice().split_at_mut(off);
        tail
    }
}

impl<T> IndexMut<RangeFrom<usize>> for OffsetVec<T> {
    /// The remaining elements from the `idx.start`-th on, to be changed in place.
    fn index_mut(&mut self, idx: RangeFrom<usize>) -> (r: &mut [T])
        requires
            old(self).start() + idx.start <= old(self).contents().len(),
        ensures
            r@ == old(self).contents().subrange(
                old(self).start() + idx.start,
                old(self).contents().len() as int,
            ),
            final(self).start() == old(self).start(),
            final(self).contents() == old(self).contents().subrange(
                0,
                old(self).start() + idx.start,
            ) + final(r)@,
    {
        let total = self.data.len();
        let at = idx.start + self.offset;
        let (_, tail) = self.data.as_mut_slice().split_at_mut(at);
        tail
    }
}

impl<T> IndexMut<RangeTo<usize>> for OffsetVec<T> {
    /// The data from the offset up to the absolute position `idx.end`, to be changed in
    /// place.
    fn index_mut(&mut self, idx: RangeTo<usize>) -> (r: &mut [T])
        requires
            old(self).start() <= idx.end <= old(self).contents().len(),
        ensures
            r@ == old(self).contents().subrange(old(self).start() as int, idx.end as int),
            final(self).start() == old(self).start(),
            final(self).contents() == old(self).contents().subrange(0, old(self).start() as int)
                + final(r)@ + old(self).contents().subrange(
                idx.end as int,
                old(self).contents().len() as int,
            ),
    {
        let off = self.offset;
        let (head, _) = self.data.as_mut_slice().split_at_mut(idx.end);
        let (_, mid) = head.split_at_mut(off);
        mid
    }
}

impl<T> IndexMut<Range<usize>> for OffsetVec<T> {
    /// The data from `offset + idx.start` up to the absolute position `idx.end`, to be
    /// changed in place.
    fn index_mut(&mut self, idx: Range<usize>) -> (r: &mut [T])
        requires
            old(self).start() + idx.start <= idx.end <= old(self).contents().len(),
        ensures
            r@ == old(self).contents().subrange(old(self).start() + idx.start, idx.end as int),
            final(self).start() == old(self).start(),
            final(self).contents() == old(self).contents().subrange(
                0,
                old(self).start() + idx.start,
            ) + final(r)@ + old(self).contents().subrange(
                idx.end as int,
                old(self).contents().len() as int,
            ),
    {
        let at = self.offset + idx.start;
        let (head, _) = self.data.as_mut_slice().split_at_mut(idx.end);
        let (_, mid) = head.split_at_mut(at);
        mid
    }
}

} // verus!

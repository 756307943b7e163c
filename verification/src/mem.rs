//! The allocator a frame's logic gets: an arena guard lent for the frame.

use vstd::prelude::*;

use crate::arena::guard::{
    ArenaGuard, SliceRef, ValRef, VecRef, align_class, bytes_of, keeps_allocations, keeps_handed_out_by, keeps_values_of, keeps_vectors_but,
};
use crate::arena::plain::Plain;

verus! {

/// An arena guard lent to a frame, with the allocation sequence of the frame.
pub struct Mem<'f> {
    pub alloc_seq: usize,
    pub arena: &'f mut ArenaGuard,
}

impl<'f> Mem<'f> {
    /// Lends `arena` out in allocation sequence 0.
    pub fn new(arena: &'f mut ArenaGuard) -> (m: Mem<'f>)
        ensures
            m.alloc_seq == 0,
            *m.arena == *old(arena),
            *final(arena) == *final(m.arena),
    {
        Mem { alloc_seq: 0, arena }
    }

    /// Hands out an empty vector.
    pub fn vec<T: Plain>(&mut self) -> (r: VecRef<T>)
        requires
            old(self).arena.wf(),
            old(self).arena@.vecs[align_class(T::spec_align()) as int].can_allocate(
                T::spec_size() / T::spec_align(),
            ),
        ensures
            final(self).alloc_seq == old(self).alloc_seq,
            final(self).arena.wf(),
            final(self).arena@.vec_valid(r),
            final(self).arena@.vec_bytes(r) == Seq::<u8>::empty(),
            final(self).arena@.vals == old(self).arena@.vals,
            keeps_vectors_but(old(self).arena@, final(self).arena@, r.class(), r.n_size(), r.slot()),
            keeps_handed_out_by(old(self).arena@, final(self).arena@),
    {
        self.arena.alloc_vec()
    }
    /// Stores `val` in the arena.
    pub fn val<T: Plain>(&mut self, val: T) -> (r: ValRef<T>)
        requires
            old(self).arena.wf(),
            old(self).arena@.can_alloc_bytes(align_class(T::spec_align()), T::spec_size()),
        ensures
            final(self).alloc_seq == old(self).alloc_seq,
            final(self).arena.wf(),
            final(self).arena@.val_live(r),
            final(self).arena@.val_of(r) == val,
            r.class() == align_class(T::spec_align()),
            (r.chunk(), r.offset()) == old(self).arena@.vals[r.class() as int].place(T::spec_size()),
            old(self).arena@.is_fresh(r.class(), r.chunk(), r.offset()),
            final(self).arena@ == old(self).arena@.after_alloc(r.class(), T::spec_size(), val.spec_to_bytes()),
            val.spec_to_bytes().len() == T::spec_size(),
            old(self).arena@.reserved(r.class(), T::spec_size(), T::spec_size()).same_shape(final(self).arena@),
            final(self).arena@.content_bytes() == old(self).arena@.content_bytes() + T::spec_size(),
            keeps_allocations(old(self).arena@, final(self).arena@),
            keeps_values_of::<T>(old(self).arena@, final(self).arena@),
            final(self).arena@.vecs == old(self).arena@.vecs,
    {
        self.arena.alloc_val(val)
    }

    /// Copies `slice` into the arena.
    pub fn slice<T: Plain>(&mut self, slice: &[T]) -> (r: SliceRef<T>)
        requires
            old(self).arena.wf(),
            slice@.len() * T::spec_size() <= usize::MAX,
            old(self).arena@.can_alloc_bytes(align_class(T::spec_align()), slice@.len() * T::spec_size()),
        ensures
            final(self).alloc_seq == old(self).alloc_seq,
            final(self).arena.wf(),
            final(self).arena@.slice_live(r),
            r.len() == slice@.len(),
            forall|i: int| 0 <= i < slice@.len() ==> #[trigger] final(self).arena@.slice_elem(r, i) == slice@[i],
            r.class() == align_class(T::spec_align()),
            (r.chunk(), r.offset()) == old(self).arena@.vals[r.class() as int].place(slice@.len() * T::spec_size()),
            old(self).arena@.is_fresh(r.class(), r.chunk(), r.offset()),
            final(self).arena@ == old(self).arena@.after_alloc(
                r.class(),
                slice@.len() * T::spec_size(),
                bytes_of(slice@),
            ),
            bytes_of(slice@).len() == slice@.len() * T::spec_size(),
            old(self).arena@.reserved(r.class(), slice@.len() * T::spec_size(), slice@.len() * T::spec_size()).same_shape(
                final(self).arena@,
            ),
            final(self).arena@.content_bytes() == old(self).arena@.content_bytes() + slice@.len() * T::spec_size(),
            keeps_allocations(old(self).arena@, final(self).arena@),
            keeps_values_of::<T>(old(self).arena@, final(self).arena@),
            final(self).arena@.vecs == old(self).arena@.vecs,
    {
        self.arena.alloc_slice(slice)
    }

    /// Copies what an iterator yields into the arena; `items` is what it
    /// yields, and it tells its length exactly.
    pub fn from_iter<T: Plain>(&mut self, items: &[T]) -> (r: SliceRef<T>)
        requires
            old(self).arena.wf(),
            items@.len() * T::spec_size() <= usize::MAX,
            old(self).arena@.can_alloc_bytes(align_class(T::spec_align()), items@.len() * T::spec_size()),
        ensures
            final(self).alloc_seq == old(self).alloc_seq,
            final(self).arena.wf(),
            final(self).arena@.slice_live(r),
            r.len() == items@.len(),
            forall|i: int| 0 <= i < items@.len() ==> #[trigger] final(self).arena@.slice_elem(r, i) == items@[i],
            r.class() == align_class(T::spec_align()),
            (r.chunk(), r.offset()) == old(self).arena@.vals[r.class() as int].place(items@.len() * T::spec_size()),
            old(self).arena@.is_fresh(r.class(), r.chunk(), r.offset()),
            final(self).arena@ == old(self).arena@.after_alloc(
                r.class(),
                items@.len() * T::spec_size(),
                bytes_of(items@),
            ),
            bytes_of(items@).len() == items@.len() * T::spec_size(),
            old(self).arena@.reserved(r.class(), items@.len() * T::spec_size(), items@.len() * T::spec_size()).same_shape(
                final(self).arena@,
            ),
            final(self).arena@.content_bytes() == old(self).arena@.content_bytes() + items@.len() * T::spec_size(),
            keeps_allocations(old(self).arena@, final(self).arena@),
            keeps_values_of::<T>(old(self).arena@, final(self).arena@),
            final(self).arena@.vecs == old(self).arena@.vecs,
    {
        let r = self.arena.alloc_iter(items.len(), items);
        assert(items@.take(items@.len() as int) =~= items@);
        r
    }
}

} // verus!

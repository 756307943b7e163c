//! Arenas of vectors only: vectors handed out for one allocation sequence at a
//! time, whose storage and capacity are reused by the next.

use vstd::prelude::*;

use crate::arena::guard::{
    ArenaGuard, GuardView, VecRef, align_class, bytes_of, handed_out_by, keeps_vectors_but, lemma_vecs_counts, lemma_with_slot_handed_out_by,
    lemma_vecs_unused_in, vecs_chunks, vecs_content, vecs_held, vecs_slots, vecs_used,
};
use crate::arena::plain::Plain;
use crate::arena::sat_add;
use crate::arena::vecs::{AlignView, SizeView, lemma_hand_out_step, lemma_prepared_wf, position};

verus! {

/// A report of the memory a vector arena holds.
#[derive(Debug, Clone, Copy, Default)]
pub struct MemoryUsage {
    /// The chunks of vector slots.
    pub chunk_count: usize,
    /// The vector slots.
    pub total_slots: usize,
    /// The vector slots handed out in the current allocation sequence.
    pub used_slots: usize,
    /// The bytes of storage the vectors hold.
    pub vector_capacity_bytes: usize,
    /// The bytes of the values in the vectors handed out in the current
    /// allocation sequence.
    pub vector_content_bytes: usize,
    /// The bytes spent on bookkeeping.
    pub overhead_bytes: usize,
}

impl MemoryUsage {
    /// All the memory held: vector storage and bookkeeping.
    pub fn total_bytes(&self) -> (t: usize)
        requires
            self.vector_capacity_bytes + self.overhead_bytes <= usize::MAX,
        ensures
            t == self.vector_capacity_bytes + self.overhead_bytes,
    {
        self.vector_capacity_bytes + self.overhead_bytes
    }
}

/// An arena that hands out vectors of plain data. The slots of the vectors are
/// kept from one allocation sequence to the next, with their capacity.
pub struct VecArena {
    guard: ArenaGuard,
}

impl View for VecArena {
    type V = GuardView;

    closed spec fn view(&self) -> GuardView {
        self.guard@
    }
}

/// Whether slot `slot` of size `n_size` in class `class` holds a vector handed
/// out in the current allocation sequence of `g`.
pub open spec fn vec_in_use(g: GuardView, class: nat, n_size: nat, slot: nat) -> bool {
    &&& class < g.vecs.len()
    &&& n_size < g.vecs[class as int].sizes.len()
    &&& g.vecs[class as int].sizes[n_size as int].seq == g.alloc_seq
    &&& g.vecs[class as int].sizes[n_size as int].caps.len() > 0
    &&& slot < position(g.vecs[class as int].sizes[n_size as int])
}

impl VecArena {
    /// The guard is well formed, and no size class was handed out in a sequence
    /// later than the current one.
    pub closed spec fn wf(&self) -> bool {
        &&& self.guard.wf()
        &&& handed_out_by(self.guard@, self.guard@.alloc_seq as nat)
    }

    /// A well-formed arena has a well-formed state, with five alignment classes,
    /// none handed out in a sequence later than the current one.
    pub proof fn lemma_wf(&self)
        requires
            self.wf(),
        ensures
            self@.wf(),
            handed_out_by(self@, self@.alloc_seq),
    {
        self.guard.lemma_wf();
    }

    /// An arena in allocation sequence 1 with no vector.
    pub fn new() -> (a: VecArena)
        ensures
            a.wf(),
            a@.wf(),
            a@.alloc_seq == 1,
            forall|i: int| 0 <= i < 5 ==> #[trigger] a@.vecs[i].sizes.len() == 0,
    {
        let guard = ArenaGuard::new();
        proof {
            guard.lemma_wf();
            assert forall|c: int, n: int| 0 <= c < guard@.vecs.len() && 0 <= n < guard@.vecs[c].sizes.len()
                implies #[trigger] guard@.vecs[c].sizes[n].seq <= guard@.alloc_seq by {
                assert(guard@.vecs[c].sizes.len() == 0);
            }
        }
        VecArena { guard }
    }

    /// Hands out an empty vector for values of type `T`. Its slot keeps the
    /// capacity it had in earlier allocation sequences.
    pub fn allocate_vec<T: Plain>(&mut self) -> (r: VecRef<T>)
        requires
            old(self).wf(),
            old(self)@.vecs[align_class(T::spec_align()) as int].can_allocate(T::spec_size() / T::spec_align()),
        ensures
            final(self).wf(),
            r.class() == align_class(T::spec_align()),
            r.n_size() == T::spec_size() / T::spec_align(),
            final(self)@.vec_valid(r),
            final(self)@.vec_bytes(r) == Seq::<u8>::empty(),
            final(self)@.alloc_seq == old(self)@.alloc_seq,
            ({
                let a = old(self)@.vecs[r.class() as int];
                let s = a.with_size(r.n_size())[r.n_size() as int].prepared(old(self)@.alloc_seq);
                &&& r.slot() == s.next_slot()
                &&& final(self)@.vecs == old(self)@.vecs.update(
                    r.class() as int,
                    AlignView {
                        sizes: a.with_size(r.n_size()).update(
                            r.n_size() as int,
                            SizeView { used: s.used + 1, slots: s.slots.update(r.slot() as int, Seq::empty()), ..s },
                        ),
                    },
                )
            }),
            keeps_vectors_but(old(self)@, final(self)@, r.class(), r.n_size(), r.slot()),
            !vec_in_use(old(self)@, r.class(), r.n_size(), r.slot()),
            vec_in_use(final(self)@, r.class(), r.n_size(), r.slot()),
            forall|c: nat, n: nat, k: nat|
                #[trigger] vec_in_use(old(self)@, c, n, k) ==> vec_in_use(final(self)@, c, n, k),
    {
        let r = self.guard.alloc_vec();
        proof {
            let seq = old(self)@.alloc_seq;
            let a = old(self)@.vecs[r.class() as int];
            let sizes = a.with_size(r.n_size());
            old(self).guard.lemma_wf();
            if r.n_size() < a.sizes.len() {
                assert(sizes[r.n_size() as int] == old(self)@.vecs[r.class() as int].sizes[r.n_size() as int]);
            }
            assert(sizes[r.n_size() as int].seq <= seq);
            let s0 = sizes[r.n_size() as int];
            let s = s0.prepared(seq);
            assert(s.seq <= seq);
            assert(a.wf());
            assert(s0.wf());
            lemma_prepared_wf(s0, seq);
            let h = self@.vecs[r.class() as int].sizes[r.n_size() as int];
            assert(h == s0.handed_out(seq));
            assert(position(h) == position(s) + 1);
            assert(s.next_slot() == position(s));
            if s0.seq == seq && s0.caps.len() > 0 {
                lemma_hand_out_step(s0, seq);
                assert(r.n_size() < a.sizes.len());
            }
            assert forall|c: nat, n: nat, k: nat| #[trigger] vec_in_use(old(self)@, c, n, k)
                implies vec_in_use(self@, c, n, k) by {
                if c == r.class() && n == r.n_size() {
                    assert(old(self)@.vecs[c as int].sizes[n as int] == s0);
                    lemma_hand_out_step(s0, seq);
                } else if c == r.class() {
                    assert(self@.vecs[c as int].sizes[n as int] == sizes[n as int]);
                    assert(sizes[n as int] == a.sizes[n as int]);
                } else {
                    assert(self@.vecs[c as int] == old(self)@.vecs[c as int]);
                }
            }
            assert forall|c: int, n: int| 0 <= c < self@.vecs.len() && 0 <= n < self@.vecs[c].sizes.len()
                implies #[trigger] self@.vecs[c].sizes[n].seq <= seq by {
                if c == r.class() {
                    if n != r.n_size() && n < a.sizes.len() {
                        assert(self@.vecs[c].sizes[n] == sizes[n]);
                        assert(sizes[n] == a.sizes[n]);
                    }
                } else {
                    assert(self@.vecs[c] == old(self)@.vecs[c]);
                }
            }
        }
        r
    }

    /// The number of values in the vector `r` refers to.
    pub fn vec_len<T: Plain>(&self, r: &VecRef<T>) -> (n: usize)
        requires
            self.wf(),
            self@.vec_valid(*r),
        ensures
            n == self@.vec_len(*r),
    {
        self.guard.vec_len(r)
    }

    /// The number of values the vector `r` refers to can hold without growing.
    pub fn vec_capacity<T: Plain>(&self, r: &VecRef<T>) -> (n: usize)
        requires
            self.wf(),
            self@.vec_valid(*r),
        ensures
            n >= self@.vec_len(*r),
    {
        self.guard.vec_capacity(r)
    }

    /// Value `i` of the vector `r` refers to.
    pub fn vec_get<T: Plain>(&self, r: &VecRef<T>, i: usize) -> (v: T)
        requires
            self.wf(),
            self@.vec_valid(*r),
            i < self@.vec_len(*r),
        ensures
            v == self@.vec_elem(*r, i as int),
    {
        self.guard.vec_get(r, i)
    }

    /// Appends `v` to the vector `r` refers to.
    pub fn vec_push<T: Plain>(&mut self, r: &VecRef<T>, v: T)
        requires
            old(self).wf(),
            old(self)@.vec_valid(*r),
            old(self)@.vec_bytes(*r).len() + T::spec_size() <= usize::MAX,
        ensures
            final(self).wf(),
            final(self)@ == old(self)@.with_slot(
                r.class(),
                r.n_size(),
                r.slot(),
                old(self)@.vec_bytes(*r) + v.spec_to_bytes(),
            ),
            final(self)@.vec_valid(*r),
            final(self)@.vec_len(*r) == old(self)@.vec_len(*r) + 1,
            final(self)@.vec_elem(*r, old(self)@.vec_len(*r) as int) == v,
            forall|i: int|
                0 <= i < old(self)@.vec_len(*r) ==> #[trigger] final(self)@.vec_elem(*r, i)
                    == old(self)@.vec_elem(*r, i),
    {
        self.guard.vec_push(r, v);
        proof {
            old(self).guard.lemma_wf();
            lemma_with_slot_handed_out_by(
                old(self)@,
                r.class(),
                r.n_size(),
                r.slot(),
                self@.vec_bytes(*r),
                old(self)@.alloc_seq as nat,
            );
        }
    }

    /// Appends the values of `items` to the vector `r` refers to.
    pub fn vec_extend_from_slice<T: Plain>(&mut self, r: &VecRef<T>, items: &[T])
        requires
            old(self).wf(),
            old(self)@.vec_valid(*r),
            old(self)@.vec_bytes(*r).len() + items@.len() * T::spec_size() <= usize::MAX,
        ensures
            final(self).wf(),
            final(self)@ == old(self)@.with_slot(
                r.class(),
                r.n_size(),
                r.slot(),
                old(self)@.vec_bytes(*r) + bytes_of(items@),
            ),
            final(self)@.vec_valid(*r),
            final(self)@.vec_len(*r) == old(self)@.vec_len(*r) + items@.len(),
            forall|i: int|
                0 <= i < old(self)@.vec_len(*r) ==> #[trigger] final(self)@.vec_elem(*r, i)
                    == old(self)@.vec_elem(*r, i),
            forall|j: int|
                0 <= j < items@.len() ==> #[trigger] final(self)@.vec_elem(*r, old(self)@.vec_len(*r) + j)
                    == items@[j],
    {
        self.guard.vec_extend_from_slice(r, items);
        proof {
            old(self).guard.lemma_wf();
            lemma_with_slot_handed_out_by(
                old(self)@,
                r.class(),
                r.n_size(),
                r.slot(),
                self@.vec_bytes(*r),
                old(self)@.alloc_seq as nat,
            );
        }
    }

    /// The values of the vector `r` refers to.
    pub fn vec_to_vec<T: Plain>(&self, r: &VecRef<T>) -> (out: Vec<T>)
        requires
            self.wf(),
            self@.vec_valid(*r),
        ensures
            out@.len() == self@.vec_len(*r),
            forall|i: int| 0 <= i < out@.len() ==> #[trigger] out@[i] == self@.vec_elem(*r, i),
    {
        self.guard.vec_to_vec(r)
    }

    /// Starts allocation sequence `seq`, which no size class was handed out in
    /// after; the vectors handed out before count as content no more.
    fn reset(&mut self, seq: usize)
        requires
            old(self).wf(),
            handed_out_by(old(self)@, seq as nat),
        ensures
            final(self).wf(),
            final(self)@.alloc_seq == seq,
            final(self)@.vecs == old(self)@.vecs,
    {
        self.guard.reset(seq)
    }

    /// A report of the memory this arena holds. The vectors count as content,
    /// and their slots as used, only if they were handed out in the current
    /// allocation sequence. Each count saturates at `usize::MAX`.
    pub fn memory_usage(&self) -> (u: MemoryUsage)
        requires
            self.wf(),
        ensures
            u.chunk_count == sat_add(0, vecs_chunks(self@.vecs)),
            u.total_slots == sat_add(0, vecs_slots(self@.vecs)),
            u.used_slots == sat_add(0, vecs_used(self@.vecs, self@.alloc_seq)),
            u.vector_content_bytes == sat_add(0, vecs_content(self@.vecs, self@.alloc_seq)),
            u.vector_capacity_bytes >= sat_add(0, vecs_held(self@.vecs)),
            u.overhead_bytes >= core::mem::size_of::<VecArena>(),
            u.used_slots <= u.total_slots,
            u.vector_content_bytes <= u.vector_capacity_bytes,
    {
        proof {
            self.guard.lemma_wf();
            lemma_vecs_counts(self@.vecs, self@.alloc_seq);
        }
        let mut bytes = crate::arena::MemoryUsage {
            capacity_bytes: 0,
            content_bytes: 0,
            overhead_bytes: core::mem::size_of::<VecArena>(),
        };
        self.guard.vec_memory_usage(&mut bytes);
        let st = self.guard.slot_stats();
        MemoryUsage {
            chunk_count: st.chunks,
            total_slots: st.slots,
            used_slots: st.used,
            vector_capacity_bytes: bytes.capacity_bytes,
            vector_content_bytes: bytes.content_bytes,
            overhead_bytes: bytes.overhead_bytes,
        }
    }
}

/// A vector arena together with the allocation sequence it was last reset to.
pub struct Allocator {
    alloc_seq: usize,
    arena: VecArena,
}

impl Allocator {
    /// The arena is well formed and handed out nothing after the sequence last
    /// handed out.
    pub closed spec fn wf(&self) -> bool {
        &&& self.arena.wf()
        &&& handed_out_by(self.arena@, self.alloc_seq as nat)
    }

    /// The allocation sequence last handed out; 0 before the first.
    pub closed spec fn seq(&self) -> nat {
        self.alloc_seq as nat
    }

    /// The state of the arena inside.
    pub closed spec fn arena_view(&self) -> GuardView {
        self.arena@
    }

    /// A well-formed allocator has a well-formed arena, which handed out nothing
    /// after the sequence last handed out.
    pub proof fn lemma_wf(&self)
        requires
            self.wf(),
        ensures
            self.arena_view().wf(),
            handed_out_by(self.arena_view(), self.seq()),
    {
        self.arena.guard.lemma_wf();
    }

    /// An allocator that has handed out no arena yet.
    pub fn new() -> (a: Allocator)
        ensures
            a.wf(),
            a.arena_view().wf(),
            a.seq() == 0,
            forall|i: int| 0 <= i < 5 ==> #[trigger] a.arena_view().vecs[i].sizes.len() == 0,
    {
        let arena = VecArena::new();
        proof {
            arena.guard.lemma_wf();
            assert forall|c: int, n: int| 0 <= c < arena@.vecs.len() && 0 <= n < arena@.vecs[c].sizes.len()
                implies #[trigger] arena@.vecs[c].sizes[n].seq <= 0 by {
                assert(arena@.vecs[c].sizes.len() == 0);
            }
        }
        Allocator { alloc_seq: 0, arena }
    }

    /// A report of the memory the arena holds.
    pub fn memory_usage(&self) -> (u: MemoryUsage)
        requires
            self.wf(),
        ensures
            u.chunk_count == sat_add(0, vecs_chunks(self.arena_view().vecs)),
            u.total_slots == sat_add(0, vecs_slots(self.arena_view().vecs)),
            u.used_slots == sat_add(0, vecs_used(self.arena_view().vecs, self.arena_view().alloc_seq)),
            u.vector_content_bytes == sat_add(
                0,
                vecs_content(self.arena_view().vecs, self.arena_view().alloc_seq),
            ),
            u.vector_capacity_bytes >= sat_add(0, vecs_held(self.arena_view().vecs)),
            u.overhead_bytes >= core::mem::size_of::<VecArena>(),
            u.used_slots <= u.total_slots,
            u.vector_content_bytes <= u.vector_capacity_bytes,
    {
        self.arena.memory_usage()
    }

    /// Starts the next allocation sequence and lends the arena out for it.
    pub fn new_arena(&mut self) -> (a: &mut VecArena)
        requires
            old(self).wf(),
            old(self).seq() < usize::MAX,
        ensures
            final(self).seq() == old(self).seq() + 1,
            a.wf(),
            a@.wf(),
            a@.alloc_seq == old(self).seq() + 1,
            a@.vecs == old(self).arena_view().vecs,
            vecs_used(a@.vecs, a@.alloc_seq) == 0,
            vecs_content(a@.vecs, a@.alloc_seq) == 0,
            final(a).wf() && final(a)@.alloc_seq == final(self).seq() ==> final(self).wf(),
            final(self).arena_view() == final(a)@,
    {
        let ghost before = self.alloc_seq as nat;
        self.alloc_seq = self.alloc_seq + 1;
        proof {
            assert forall|c: int, n: int|
                0 <= c < self.arena@.vecs.len() && 0 <= n < self.arena@.vecs[c].sizes.len()
                implies #[trigger] self.arena@.vecs[c].sizes[n].seq <= self.alloc_seq by {
                assert(self.arena@.vecs[c].sizes[n].seq <= before);
            }
        }
        self.arena.reset(self.alloc_seq);
        proof {
            lemma_vecs_unused_in(self.arena@.vecs, before, self.alloc_seq as nat);
            self.arena.guard.lemma_wf();
        }
        &mut self.arena
    }
}

impl Default for Allocator {
    /// The same as `new`.
    fn default() -> (a: Allocator)
        ensures
            a.wf(),
            a.arena_view().wf(),
            a.seq() == 0,
            forall|i: int| 0 <= i < 5 ==> #[trigger] a.arena_view().vecs[i].sizes.len() == 0,
    {
        Allocator::new()
    }
}

} // verus!

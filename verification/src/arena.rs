//! Frame arenas: short-lived storage for values, slices and vectors that is
//! reset, and reused, between frames.

pub mod plain;
pub mod guard;
pub mod val;
pub mod vecs;

use vstd::prelude::*;

use crate::arena::guard::{ArenaGuard, GuardView};

verus! {

/// A report of the memory an arena holds.
#[derive(Debug, Clone, Copy, Default)]
pub struct MemoryUsage {
    /// The bytes of storage allocated for contents.
    pub capacity_bytes: usize,
    /// The bytes of storage in use.
    pub content_bytes: usize,
    /// The bytes spent on bookkeeping.
    pub overhead_bytes: usize,
}

/// `a + b`, or `usize::MAX` where the sum does not fit.
pub open spec fn sat_add(a: nat, b: nat) -> nat {
    if a + b > usize::MAX {
        usize::MAX as nat
    } else {
        a + b
    }
}

/// `a * b`, or `usize::MAX` where the product does not fit.
pub fn sat_mul(a: usize, b: usize) -> (p: usize)
    ensures
        p == (if a * b > usize::MAX { usize::MAX as int } else { a * b }),
{
    match a.checked_mul(b) {
        Some(p) => p,
        None => usize::MAX,
    }
}

impl MemoryUsage {
    /// All the memory held: storage and bookkeeping.
    pub fn total_bytes(&self) -> (t: usize)
        requires
            self.capacity_bytes + self.overhead_bytes <= usize::MAX,
        ensures
            t == self.capacity_bytes + self.overhead_bytes,
    {
        self.capacity_bytes + self.overhead_bytes
    }
}

/// An arena guard together with the allocation sequence it was last reset to.
pub struct Arena {
    pub alloc_seq: usize,
    arena: ArenaGuard,
    /// The latest allocation sequence the arena was reset to.
    high: Ghost<nat>,
}

impl Arena {
    /// The guard inside is in a consistent state, and none of its vector size
    /// classes was handed out in a sequence later than any it was reset to.
    pub closed spec fn wf(&self) -> bool {
        &&& self.arena.wf()
        &&& guard::handed_out_by(self.arena@, self.high@)
    }

    /// The latest allocation sequence the arena was reset to; 0 before the first.
    pub closed spec fn high_seq(&self) -> nat {
        self.high@
    }

    /// A well-formed arena has a well-formed guard state, whose size classes
    /// were handed out in no sequence after `high_seq`.
    pub proof fn lemma_wf(&self)
        requires
            self.wf(),
        ensures
            self.guard_view().wf(),
            guard::handed_out_by(self.guard_view(), self.high_seq()),
    {
        self.arena.lemma_wf();
    }

    /// The allocation sequence the arena was last reset to.
    pub closed spec fn seq(&self) -> nat {
        self.alloc_seq as nat
    }

    /// The allocation sequence the arena was last reset to.
    pub fn current_seq(&self) -> (s: usize)
        ensures
            s == self.seq(),
    {
        self.alloc_seq
    }

    /// The state of the guard inside.
    pub closed spec fn guard_view(&self) -> GuardView {
        self.arena@
    }

    /// A report of the memory the arena holds.
    pub fn memory_usage(&mut self) -> (u: MemoryUsage)
        requires
            old(self).wf(),
        ensures
            *final(self) == *old(self),
            u.content_bytes == sat_add(
                guard::vecs_content(old(self).guard_view().vecs, old(self).guard_view().alloc_seq),
                guard::vals_content(old(self).guard_view().vals),
            ),
            u.capacity_bytes >= sat_add(
                guard::vecs_held(old(self).guard_view().vecs),
                guard::vals_capacity(old(self).guard_view().vals),
            ),
    {
        self.arena.memory_usage()
    }

    /// Resets the guard to allocation sequence `seq` and lends it out.
    pub fn fresh_arena(&mut self, seq: usize) -> (g: &mut ArenaGuard)
        requires
            old(self).wf(),
        ensures
            g.wf(),
            g@ == old(self).guard_view().after_reset(seq as nat),
            g@.vecs == old(self).guard_view().vecs,
            guard::vals_capacity(g@.vals) >= guard::vals_capacity(old(self).guard_view().vals),
            old(self).high_seq() < seq ==> g@.content_bytes() == 0,
            old(self).guard_view().handed_out_before(seq as nat) ==> g@.content_bytes() == 0,
            guard::handed_out_by(g@, final(self).high_seq()),
            final(self).seq() == seq,
            final(self).high_seq() == (if seq > old(self).high_seq() { seq as nat } else { old(self).high_seq() }),
            final(g).wf() && guard::handed_out_by(final(g)@, final(self).high_seq()) ==> final(self).wf(),
            final(self).guard_view() == final(g)@,
    {
        proof {
            self.lemma_wf();
            guard::lemma_reset_keeps_capacity(self.guard_view(), seq as nat);
            if self.guard_view().handed_out_before(seq as nat) {
                guard::lemma_reset_empties(self.guard_view(), seq as nat);
            }
            if self.high_seq() < seq {
                guard::lemma_reset_empties(self.guard_view(), seq as nat);
            }
        }
        self.reset_to(seq);
        self.guard_mut()
    }

    /// Resets the guard to allocation sequence `seq`.
    pub fn reset_to(&mut self, seq: usize)
        requires
            old(self).wf(),
        ensures
            final(self).wf(),
            final(self).guard_view() == old(self).guard_view().after_reset(seq as nat),
            final(self).seq() == seq,
            final(self).high_seq() == (if seq > old(self).high_seq() { seq as nat } else { old(self).high_seq() }),
    {
        self.alloc_seq = seq;
        self.arena.reset(seq);
        self.high = Ghost(if seq as nat > self.high@ { seq as nat } else { self.high@ });
    }

    /// Lends the guard out as it is.
    pub fn guard_mut(&mut self) -> (g: &mut ArenaGuard)
        ensures
            g@ == old(self).guard_view(),
            old(self).wf() ==> g.wf(),
            final(self).seq() == old(self).seq(),
            final(self).high_seq() == old(self).high_seq(),
            final(g).wf() && guard::handed_out_by(final(g)@, old(self).high_seq()) ==> final(self).wf(),
            final(self).guard_view() == final(g)@,
    {
        &mut self.arena
    }
}

impl Default for Arena {
    /// An arena in sequence 0 whose guard has nothing allocated.
    fn default() -> (a: Arena)
        ensures
            a.wf(),
            a.seq() == 0,
            a.high_seq() == 0,
            a.guard_view().wf(),
            a.guard_view().alloc_seq == 1,
            forall|i: int|
                0 <= i < guard::ALIGN_CLASSES ==> #[trigger] a.guard_view().vals[i] == (val::ValView {
                    chunks: seq![val::zeros(16)],
                    last_used: 0,
                    total_content: 0,
                }),
            a.guard_view().content_bytes() == 0,
            forall|i: int| 0 <= i < guard::ALIGN_CLASSES ==> #[trigger] a.guard_view().vals[i].chunks.len() == 1,
            forall|i: int| 0 <= i < guard::ALIGN_CLASSES ==> #[trigger] a.guard_view().vals[i].last_used == 0,
            forall|i: int| 0 <= i < guard::ALIGN_CLASSES ==> #[trigger] a.guard_view().vecs[i].sizes.len() == 0,
    {
        let arena = ArenaGuard::new();
        proof {
            arena.lemma_wf();
            assert forall|c: int, n: int| 0 <= c < arena@.vecs.len() && 0 <= n < arena@.vecs[c].sizes.len()
                implies #[trigger] arena@.vecs[c].sizes[n].seq <= 0 by {
                assert(arena@.vecs[c].sizes.len() == 0);
            }
        }
        Arena { alloc_seq: 0, arena, high: Ghost(0) }
    }
}

} // verus!

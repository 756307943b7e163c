use vstd::prelude::*;

use crate::arena::val::{lemma_sum_prefix, spec_sum_lens, vec_capacity};
use crate::arena::{MemoryUsage, sat_add, sat_mul};

verus! {

/// The number of slots of the first chunk of a size class.
pub const FIRST_CHUNK_SLOTS: usize = 4;

/// The abstract state of the vector slots of one size class. Slots are numbered
/// across all chunks; the chunks only divide the numbers into runs.
pub struct SizeView {
    /// The allocation sequence the slots were last handed out in.
    pub seq: nat,
    /// The slots used in the last chunk.
    pub used: nat,
    /// The number of slots in each chunk.
    pub caps: Seq<nat>,
    /// The bytes of each slot's vector.
    pub slots: Seq<Seq<u8>>,
}

pub open spec fn spec_sum(caps: Seq<nat>) -> nat
    decreases caps.len(),
{
    if caps.len() == 0 {
        0
    } else {
        spec_sum(caps.drop_last()) + caps.last()
    }
}

pub open spec fn empties(n: nat) -> Seq<Seq<u8>> {
    Seq::new(n, |i: int| Seq::<u8>::empty())
}

impl SizeView {
    pub open spec fn wf(self) -> bool {
        &&& self.slots.len() == spec_sum(self.caps)
        &&& forall|i: int| 0 <= i < self.caps.len() ==> #[trigger] self.caps[i] >= 1
        &&& self.caps.len() > 0 ==> self.used <= self.caps.last()
        &&& self.caps.len() == 0 ==> self.used == 0
    }

    /// The state with the first chunk in place.
    pub open spec fn started(self) -> SizeView {
        if self.caps.len() == 0 {
            SizeView {
                caps: seq![FIRST_CHUNK_SLOTS as nat],
                slots: self.slots + empties(FIRST_CHUNK_SLOTS as nat),
                ..self
            }
        } else {
            self
        }
    }

    /// The number of slots of the chunk that replaces several on reset: four
    /// times the last chunk, or all the slots, whichever is more.
    pub open spec fn merged_cap(self) -> nat {
        let a = self.caps.last() * 4;
        if a >= self.slots.len() { a } else { self.slots.len() }
    }

    /// The state after a reset: no slot used, and several chunks merged into one
    /// that keeps every slot in order.
    pub open spec fn reset(self) -> SizeView {
        if self.caps.len() > 1 {
            SizeView {
                used: 0,
                caps: seq![self.merged_cap()],
                slots: self.slots + empties((self.merged_cap() - self.slots.len()) as nat),
                ..self
            }
        } else {
            SizeView { used: 0, ..self }
        }
    }

    /// The state with room for one more slot: a chunk twice the last is added
    /// when the last is full.
    pub open spec fn with_room(self) -> SizeView {
        if self.used == self.caps.last() {
            SizeView {
                used: 0,
                caps: self.caps.push(self.caps.last() * 2),
                slots: self.slots + empties(self.caps.last() * 2),
                ..self
            }
        } else {
            self
        }
    }

    /// The state prepared for handing out a slot in allocation sequence `seq`.
    pub open spec fn prepared(self, seq: nat) -> SizeView {
        let s = self.started();
        let s = if seq > s.seq { SizeView { seq, ..s.reset() } } else { s };
        s.with_room()
    }

    /// The slot handed out next from a prepared state.
    pub open spec fn next_slot(self) -> nat {
        (self.slots.len() - self.caps.last() + self.used) as nat
    }

    /// The state after handing out a slot, emptied, in allocation sequence `seq`.
    pub open spec fn handed_out(self, seq: nat) -> SizeView {
        let p = self.prepared(seq);
        SizeView { used: p.used + 1, slots: p.slots.update(p.next_slot() as int, Seq::empty()), ..p }
    }

    /// The state after handing out `n` slots in allocation sequence `seq`.
    pub open spec fn handed_out_n(self, seq: nat, n: nat) -> SizeView
        decreases n,
    {
        if n == 0 {
            self
        } else {
            self.handed_out_n(seq, (n - 1) as nat).handed_out(seq)
        }
    }

    /// The slot that hand-out number `n` (from zero) in allocation sequence
    /// `seq` gives.
    pub open spec fn slot_of(self, seq: nat, n: nat) -> nat {
        self.handed_out_n(seq, n).prepared(seq).next_slot()
    }

    /// The bytes held by the vectors of this size class.
    pub open spec fn held_bytes(self) -> nat {
        spec_sum_lens(self.slots)
    }

    /// The bytes counted as content in allocation sequence `seq`: those of the
    /// vectors of this size class if it last handed out a slot in `seq`.
    pub open spec fn content_in(self, seq: nat) -> nat {
        if self.seq == seq {
            self.held_bytes()
        } else {
            0
        }
    }

    /// The number of slots handed out in allocation sequence `seq`: none unless
    /// this size class last handed out a slot in `seq`.
    pub open spec fn used_in(self, seq: nat) -> nat {
        if self.seq == seq && self.caps.len() > 0 {
            (self.slots.len() - self.caps.last() + self.used) as nat
        } else {
            0
        }
    }

    /// Whether handing out a slot keeps every count within `usize`.
    pub open spec fn can_hand_out(self) -> bool {
        &&& self.slots.len() + 8 * (if self.caps.len() > 0 { self.caps.last() } else { 4 })
            + FIRST_CHUNK_SLOTS <= usize::MAX
    }
}

/// Counts of vector slots: of chunks, of slots, and of slots handed out.
#[derive(Debug, Clone, Copy)]
pub struct SlotStats {
    pub chunks: usize,
    pub slots: usize,
    pub used: usize,
}

/// The number of chunks of size classes.
pub open spec fn sizes_chunks(sizes: Seq<SizeView>) -> nat
    decreases sizes.len(),
{
    if sizes.len() == 0 {
        0
    } else {
        sizes_chunks(sizes.drop_last()) + sizes.last().caps.len()
    }
}

/// The number of slots of size classes.
pub open spec fn sizes_slots(sizes: Seq<SizeView>) -> nat
    decreases sizes.len(),
{
    if sizes.len() == 0 {
        0
    } else {
        sizes_slots(sizes.drop_last()) + sizes.last().slots.len()
    }
}

/// The number of slots of size classes handed out in allocation sequence `seq`.
pub open spec fn sizes_used(sizes: Seq<SizeView>, seq: nat) -> nat
    decreases sizes.len(),
{
    if sizes.len() == 0 {
        0
    } else {
        sizes_used(sizes.drop_last(), seq) + sizes.last().used_in(seq)
    }
}

/// The content of size classes in allocation sequence `seq`.
pub open spec fn sizes_content(sizes: Seq<SizeView>, seq: nat) -> nat
    decreases sizes.len(),
{
    if sizes.len() == 0 {
        0
    } else {
        sizes_content(sizes.drop_last(), seq) + sizes.last().content_in(seq)
    }
}

/// The bytes held by the vectors of size classes.
pub open spec fn sizes_held(sizes: Seq<SizeView>) -> nat
    decreases sizes.len(),
{
    if sizes.len() == 0 {
        0
    } else {
        sizes_held(sizes.drop_last()) + sizes.last().held_bytes()
    }
}

/// Preparing to hand out a slot only appends empty slots: every slot keeps its bytes.
pub proof fn lemma_prepared_keeps(s: SizeView, seq: nat)
    requires
        s.wf(),
    ensures
        s.prepared(seq).slots.len() >= s.slots.len(),
        forall|i: int| 0 <= i < s.slots.len() ==> #[trigger] s.prepared(seq).slots[i] == s.slots[i],
{
    let a = s.started();
    let b = if seq > a.seq { SizeView { seq, ..a.reset() } } else { a };
    assert(forall|i: int| 0 <= i < s.slots.len() ==> #[trigger] a.slots[i] == s.slots[i]);
    assert(forall|i: int| 0 <= i < s.slots.len() ==> #[trigger] b.slots[i] == s.slots[i]);
}

/// The vector slots of one size class.
pub struct BySize {
    seq: usize,
    used: usize,
    caps: Vec<usize>,
    slots: Vec<Vec<u8>>,
}

impl View for BySize {
    type V = SizeView;

    closed spec fn view(&self) -> SizeView {
        SizeView {
            seq: self.seq as nat,
            used: self.used as nat,
            caps: self.caps@.map_values(|c: usize| c as nat),
            slots: self.slots@.map_values(|v: Vec<u8>| v@),
        }
    }
}

pub proof fn lemma_sum_push(caps: Seq<nat>, c: nat)
    ensures
        spec_sum(caps.push(c)) == spec_sum(caps) + c,
{
    assert(caps.push(c).drop_last() =~= caps);
}

impl BySize {
    pub fn new() -> (b: BySize)
        ensures
            b@ == (SizeView { seq: 0, used: 0, caps: Seq::empty(), slots: Seq::empty() }),
            b@.wf(),
    {
        let b = BySize { seq: 0, used: 0, caps: Vec::new(), slots: Vec::new() };
        assert(b@.caps =~= Seq::empty());
        assert(b@.slots =~= Seq::empty());
        b
    }

    fn push_empties(&mut self, n: usize)
        requires
            old(self).slots@.len() + n <= usize::MAX,
        ensures
            final(self)@ == (SizeView { slots: old(self)@.slots + empties(n as nat), ..old(self)@ }),
    {
        let mut k: usize = 0;
        while k < n
            invariant
                k <= n,
                self.slots@.len() == old(self).slots@.len() + k,
                old(self).slots@.len() + n <= usize::MAX,
                self@ == (SizeView { slots: old(self)@.slots + empties(k as nat), ..old(self)@ }),
            decreases n - k,
        {
            let ghost prev = self@.slots;
            self.slots.push(Vec::new());
            k = k + 1;
            proof {
                assert(self@.slots =~= prev.push(Seq::empty()));
                assert(prev.push(Seq::empty()) =~= old(self)@.slots + empties(k as nat));
            }
        }
    }

    fn last_cap(&self) -> (c: usize)
        requires
            self.caps@.len() > 0,
        ensures
            c == self@.caps.last(),
    {
        self.caps[self.caps.len() - 1]
    }

    /// Starts a new allocation sequence: no slot is used, and several chunks are
    /// merged into one.
    fn reset(&mut self)
        requires
            old(self)@.wf(),
            old(self)@.caps.len() > 0,
            old(self)@.can_hand_out(),
        ensures
            final(self)@ == old(self)@.reset(),
            final(self)@.wf(),
    {
        self.used = 0;
        if self.caps.len() > 1 {
            let last_cap = self.last_cap();
            let a = last_cap * 4;
            let total = self.slots.len();
            let merged = if a >= total { a } else { total };
            self.push_empties(merged - total);
            self.caps = Vec::new();
            self.caps.push(merged);
            proof {
                assert(self@.caps =~= seq![old(self)@.merged_cap()]);
                lemma_sum_push(Seq::empty(), merged as nat);
                assert(seq![merged as nat] =~= Seq::<nat>::empty().push(merged as nat));
            }
        }
        assert(self@ =~= old(self)@.reset());
    }

    /// Hands out the next slot in allocation sequence `seq`, and returns its number.
    pub fn get_new(&mut self, seq: usize) -> (slot: usize)
        requires
            old(self)@.wf(),
            old(self)@.can_hand_out(),
        ensures
            final(self)@.wf(),
            slot == old(self)@.prepared(seq as nat).next_slot(),
            slot < final(self)@.slots.len(),
            final(self)@ == (SizeView {
                used: old(self)@.prepared(seq as nat).used + 1,
                ..old(self)@.prepared(seq as nat)
            }),
    {
        if self.caps.len() == 0 {
            self.push_empties(FIRST_CHUNK_SLOTS);
            self.caps.push(FIRST_CHUNK_SLOTS);
            proof {
                assert(self@.caps =~= seq![FIRST_CHUNK_SLOTS as nat]);
                lemma_sum_push(Seq::empty(), FIRST_CHUNK_SLOTS as nat);
                assert(seq![FIRST_CHUNK_SLOTS as nat] =~= Seq::<nat>::empty().push(FIRST_CHUNK_SLOTS as nat));
            }
        }
        assert(self@ =~= old(self)@.started());
        assert(self@.wf());
        if seq > self.seq {
            self.seq = seq;
            self.reset();
        }
        let ghost s1 = self@;
        assert(s1.wf());
        let last_cap = self.last_cap();
        if last_cap == self.used {
            let new_cap = last_cap * 2;
            self.push_empties(new_cap);
            self.caps.push(new_cap);
            self.used = 0;
            proof {
                assert(self@.caps =~= s1.caps.push(s1.caps.last() * 2));
                lemma_sum_push(s1.caps, s1.caps.last() * 2);
            }
        }
        assert(self@ =~= old(self)@.prepared(seq as nat));
        assert(self@.wf());
        assert(spec_sum(self@.caps) == spec_sum(self@.caps.drop_last()) + self@.caps.last());
        let slot = self.slots.len() - self.last_cap() + self.used;
        self.used = self.used + 1;
        slot
    }

    /// Empties slot `slot`, keeping its capacity.
    pub fn clear_slot(&mut self, slot: usize)
        requires
            slot < old(self)@.slots.len(),
        ensures
            final(self)@ == (SizeView { slots: old(self)@.slots.update(slot as int, Seq::empty()), ..old(self)@ }),
    {
        let mut v: Vec<u8> = Vec::new();
        std::mem::swap(&mut v, &mut self.slots[slot]);
        v.clear();
        std::mem::swap(&mut v, &mut self.slots[slot]);
        assert(self@.slots =~= old(self)@.slots.update(slot as int, Seq::empty()));
    }

    /// Appends `bytes` to the vector in slot `slot`.
    pub fn extend_slot(&mut self, slot: usize, bytes: &[u8])
        requires
            slot < old(self)@.slots.len(),
            old(self)@.slots[slot as int].len() + bytes@.len() <= usize::MAX,
        ensures
            final(self)@ == (SizeView {
                slots: old(self)@.slots.update(slot as int, old(self)@.slots[slot as int] + bytes@),
                ..old(self)@
            }),
    {
        let mut v: Vec<u8> = Vec::new();
        std::mem::swap(&mut v, &mut self.slots[slot]);
        let ghost start = v@;
        let mut i: usize = 0;
        while i < bytes.len()
            invariant
                i <= bytes@.len(),
                v@ =~= start + bytes@.subrange(0, i as int),
                start.len() + bytes@.len() <= usize::MAX,
            decreases bytes@.len() - i,
        {
            v.push(bytes[i]);
            i = i + 1;
        }
        assert(bytes@.subrange(0, bytes@.len() as int) =~= bytes@);
        std::mem::swap(&mut v, &mut self.slots[slot]);
        assert(self@.slots =~= old(self)@.slots.update(slot as int, old(self)@.slots[slot as int] + bytes@));
    }

    /// Writes `bytes` over slot `slot` from `offset` on.
    pub fn write_slot(&mut self, slot: usize, offset: usize, bytes: &[u8])
        requires
            slot < old(self)@.slots.len(),
            offset + bytes@.len() <= old(self)@.slots[slot as int].len(),
        ensures
            final(self)@ == (SizeView {
                slots: old(self)@.slots.update(
                    slot as int,
                    old(self)@.slots[slot as int].subrange(0, offset as int) + bytes@
                        + old(self)@.slots[slot as int].subrange(
                        offset + bytes@.len(),
                        old(self)@.slots[slot as int].len() as int,
                    ),
                ),
                ..old(self)@
            }),
    {
        let mut v: Vec<u8> = Vec::new();
        std::mem::swap(&mut v, &mut self.slots[slot]);
        let ghost orig = v@;
        let vlen = v.len();
        let mut i: usize = 0;
        while i < bytes.len()
            invariant
                i <= bytes@.len(),
                vlen == v@.len(),
                offset + bytes@.len() <= orig.len(),
                v@.len() == orig.len(),
                forall|k: int| 0 <= k < offset ==> #[trigger] v@[k] == orig[k],
                forall|k: int| offset <= k < offset + i ==> #[trigger] v@[k] == bytes@[k - offset],
                forall|k: int| offset + i <= k < orig.len() ==> #[trigger] v@[k] == orig[k],
            decreases bytes@.len() - i,
        {
            v.set(offset + i, bytes[i]);
            i = i + 1;
        }
        std::mem::swap(&mut v, &mut self.slots[slot]);
        proof {
            let expected = orig.subrange(0, offset as int) + bytes@ + orig.subrange(
                offset + bytes@.len(),
                orig.len() as int,
            );
            assert(self.slots@[slot as int]@ =~= expected);
            assert(self@.slots =~= old(self)@.slots.update(slot as int, expected));
        }
    }

    /// The number of bytes in slot `slot`.
    pub fn slot_len(&self, slot: usize) -> (n: usize)
        requires
            slot < self@.slots.len(),
        ensures
            n == self@.slots[slot as int].len(),
    {
        self.slots[slot].len()
    }

    /// The `len` bytes of slot `slot` from `start` on.
    pub fn read_slot(&self, slot: usize, start: usize, len: usize) -> (b: Vec<u8>)
        requires
            slot < self@.slots.len(),
            start + len <= self@.slots[slot as int].len(),
        ensures
            b@ == self@.slots[slot as int].subrange(start as int, start + len),
    {
        let v = &self.slots[slot];
        let vlen = v.len();
        let mut b: Vec<u8> = Vec::new();
        let mut i: usize = 0;
        while i < len
            invariant
                i <= len,
                vlen == v@.len(),
                start + len <= v@.len(),
                b@ =~= v@.subrange(start as int, start + i),
            decreases len - i,
        {
            b.push(v[start + i]);
            i = i + 1;
        }
        b
    }
    /// Whether a slot can be handed out with every count staying within `usize`.
    pub fn can_hand_out(&self) -> (b: bool)
        requires
            self@.wf(),
        ensures
            b == self@.can_hand_out(),
    {
        let last = if self.caps.len() > 0 {
            self.last_cap()
        } else {
            FIRST_CHUNK_SLOTS
        };
        last <= (usize::MAX - FIRST_CHUNK_SLOTS) / 8 && self.slots.len() <= usize::MAX - FIRST_CHUNK_SLOTS
            - 8 * last
    }

    /// Adds the counts of this size class to `stats`, each saturating at
    /// `usize::MAX`; the slots handed out count for allocation sequence `seq`.
    pub fn add_slot_stats(&self, seq: usize, stats: &mut SlotStats)
        requires
            self@.wf(),
        ensures
            final(stats).chunks == sat_add(old(stats).chunks as nat, self@.caps.len()),
            final(stats).slots == sat_add(old(stats).slots as nat, self@.slots.len()),
            final(stats).used == sat_add(old(stats).used as nat, self@.used_in(seq as nat)),
    {
        stats.chunks = stats.chunks.saturating_add(self.caps.len());
        stats.slots = stats.slots.saturating_add(self.slots.len());
        if self.seq == seq && self.caps.len() > 0 {
            let last_cap = self.last_cap();
            proof {
                assert(spec_sum(self@.caps) == spec_sum(self@.caps.drop_last()) + self@.caps.last());
            }
            stats.used = stats.used.saturating_add(self.slots.len() - last_cap + self.used);
        }
    }

    /// The capacity, in bytes, of the vector in slot `slot`.
    pub fn slot_capacity(&self, slot: usize) -> (c: usize)
        requires
            slot < self@.slots.len(),
        ensures
            c >= self@.slots[slot as int].len(),
    {
        vec_capacity(&self.slots[slot])
    }

    /// Adds this size class's usage to `usage`; the vectors count as content
    /// only if the class last handed out a slot in allocation sequence `seq`.
    /// Each sum saturates at `usize::MAX`.
    pub fn memory_usage(&self, seq: usize, usage: &mut MemoryUsage)
        ensures
            final(usage).content_bytes == sat_add(
                old(usage).content_bytes as nat,
                self@.content_in(seq as nat),
            ),
            final(usage).capacity_bytes >= sat_add(
                old(usage).capacity_bytes as nat,
                self@.held_bytes(),
            ),
            final(usage).overhead_bytes >= old(usage).overhead_bytes,
    {
        let caps_cap = vec_capacity(&self.caps);
        usage.overhead_bytes = usage.overhead_bytes.saturating_add(
            sat_mul(caps_cap, core::mem::size_of::<usize>()),
        );
        usage.overhead_bytes = usage.overhead_bytes.saturating_add(
            sat_mul(self.slots.len(), core::mem::size_of::<Vec<u8>>()),
        );
        let counted = self.seq == seq;
        let mut k: usize = 0;
        while k < self.slots.len()
            invariant
                k <= self@.slots.len(),
                counted == (self@.seq == seq),
                usage.content_bytes == sat_add(
                    old(usage).content_bytes as nat,
                    if counted { spec_sum_lens(self@.slots.take(k as int)) } else { 0 },
                ),
                usage.capacity_bytes >= sat_add(
                    old(usage).capacity_bytes as nat,
                    spec_sum_lens(self@.slots.take(k as int)),
                ),
                usage.overhead_bytes >= old(usage).overhead_bytes,
            decreases self@.slots.len() - k,
        {
            proof {
                lemma_sum_prefix(self@.slots, k as nat + 1);
            }
            let len = self.slots[k].len();
            let cap = vec_capacity(&self.slots[k]);
            usage.capacity_bytes = usage.capacity_bytes.saturating_add(cap);
            if counted {
                usage.content_bytes = usage.content_bytes.saturating_add(len);
            }
            k = k + 1;
        }
        assert(self@.slots.take(self@.slots.len() as int) =~= self@.slots);
    }
}

/// The abstract state of the vector slots of one alignment class: one size
/// class for each element size, counted in multiples of the alignment.
pub struct AlignView {
    pub sizes: Seq<SizeView>,
}

impl AlignView {
    pub open spec fn wf(self) -> bool {
        forall|i: int| 0 <= i < self.sizes.len() ==> #[trigger] self.sizes[i].wf()
    }

    /// The size classes once there is one for `n_size`.
    pub open spec fn with_size(self, n_size: nat) -> Seq<SizeView> {
        if n_size >= self.sizes.len() {
            self.sizes + Seq::new(
                (n_size + 1 - self.sizes.len()) as nat,
                |i: int| SizeView { seq: 0, used: 0, caps: Seq::empty(), slots: Seq::empty() },
            )
        } else {
            self.sizes
        }
    }

    /// The bytes counted as content in allocation sequence `seq`.
    pub open spec fn content_in(self, seq: nat) -> nat {
        sizes_content(self.sizes, seq)
    }

    /// The bytes held by all the vectors.
    pub open spec fn held_bytes(self) -> nat {
        sizes_held(self.sizes)
    }

    /// The state after a slot for a vector of `n_size` is handed out in
    /// allocation sequence `seq`, as `ByAlign::allocate_vec` does.
    pub open spec fn after_vec(self, n_size: nat, seq: nat) -> AlignView {
        AlignView {
            sizes: self.with_size(n_size).update(n_size as int, self.with_size(n_size)[n_size as int].handed_out(seq)),
        }
    }

    /// The state after `k` such hand-outs.
    pub open spec fn after_vecs(self, n_size: nat, seq: nat, k: nat) -> AlignView
        decreases k,
    {
        if k == 0 {
            self
        } else {
            self.after_vecs(n_size, seq, (k - 1) as nat).after_vec(n_size, seq)
        }
    }

    /// The slot that hand-out number `k` (from zero) of vectors of `n_size` in
    /// allocation sequence `seq` gives.
    pub open spec fn vec_slot(self, n_size: nat, seq: nat, k: nat) -> nat {
        self.after_vecs(n_size, seq, k).with_size(n_size)[n_size as int].prepared(seq).next_slot()
    }

    pub open spec fn can_allocate(self, n_size: nat) -> bool {
        &&& n_size < usize::MAX
        &&& self.with_size(n_size)[n_size as int].can_hand_out()
    }
}

/// The vector slots of one alignment class.
pub struct ByAlign {
    sizes: Vec<BySize>,
}

impl View for ByAlign {
    type V = AlignView;

    closed spec fn view(&self) -> AlignView {
        AlignView { sizes: self.sizes@.map_values(|b: BySize| b@) }
    }
}

impl ByAlign {
    pub fn new() -> (b: ByAlign)
        ensures
            b@.sizes.len() == 0,
            b@.wf(),
    {
        ByAlign { sizes: Vec::new() }
    }

    pub fn slot_len(&self, n_size: usize, slot: usize) -> (n: usize)
        requires
            n_size < self@.sizes.len(),
            slot < self@.sizes[n_size as int].slots.len(),
        ensures
            n == self@.sizes[n_size as int].slots[slot as int].len(),
    {
        self.sizes[n_size].slot_len(slot)
    }

    pub fn read_slot(&self, n_size: usize, slot: usize, start: usize, len: usize) -> (b: Vec<u8>)
        requires
            n_size < self@.sizes.len(),
            slot < self@.sizes[n_size as int].slots.len(),
            start + len <= self@.sizes[n_size as int].slots[slot as int].len(),
        ensures
            b@ == self@.sizes[n_size as int].slots[slot as int].subrange(start as int, start + len),
    {
        self.sizes[n_size].read_slot(slot, start, len)
    }

    pub fn extend_slot(&mut self, n_size: usize, slot: usize, bytes: &[u8])
        requires
            old(self)@.wf(),
            n_size < old(self)@.sizes.len(),
            slot < old(self)@.sizes[n_size as int].slots.len(),
            old(self)@.sizes[n_size as int].slots[slot as int].len() + bytes@.len() <= usize::MAX,
        ensures
            final(self)@.wf(),
            final(self)@.sizes == old(self)@.sizes.update(
                n_size as int,
                SizeView {
                    slots: old(self)@.sizes[n_size as int].slots.update(
                        slot as int,
                        old(self)@.sizes[n_size as int].slots[slot as int] + bytes@,
                    ),
                    ..old(self)@.sizes[n_size as int]
                },
            ),
    {
        self.sizes[n_size].extend_slot(slot, bytes);
        proof {
            assert(self@.sizes =~= old(self)@.sizes.update(
                n_size as int,
                SizeView {
                    slots: old(self)@.sizes[n_size as int].slots.update(
                        slot as int,
                        old(self)@.sizes[n_size as int].slots[slot as int] + bytes@,
                    ),
                    ..old(self)@.sizes[n_size as int]
                },
            ));
            assert(old(self)@.sizes[n_size as int].wf());
        }
    }

    pub fn write_slot(&mut self, n_size: usize, slot: usize, offset: usize, bytes: &[u8])
        requires
            old(self)@.wf(),
            n_size < old(self)@.sizes.len(),
            slot < old(self)@.sizes[n_size as int].slots.len(),
            offset + bytes@.len() <= old(self)@.sizes[n_size as int].slots[slot as int].len(),
        ensures
            final(self)@.wf(),
            final(self)@.sizes == old(self)@.sizes.update(
                n_size as int,
                SizeView {
                    slots: old(self)@.sizes[n_size as int].slots.update(
                        slot as int,
                        old(self)@.sizes[n_size as int].slots[slot as int].subrange(0, offset as int)
                            + bytes@ + old(self)@.sizes[n_size as int].slots[slot as int].subrange(
                            offset + bytes@.len(),
                            old(self)@.sizes[n_size as int].slots[slot as int].len() as int,
                        ),
                    ),
                    ..old(self)@.sizes[n_size as int]
                },
            ),
    {
        self.sizes[n_size].write_slot(slot, offset, bytes);
        proof {
            let old_slot = old(self)@.sizes[n_size as int].slots[slot as int];
            assert(self@.sizes =~= old(self)@.sizes.update(
                n_size as int,
                SizeView {
                    slots: old(self)@.sizes[n_size as int].slots.update(
                        slot as int,
                        old_slot.subrange(0, offset as int) + bytes@ + old_slot.subrange(
                            offset + bytes@.len(),
                            old_slot.len() as int,
                        ),
                    ),
                    ..old(self)@.sizes[n_size as int]
                },
            ));
            assert(old(self)@.sizes[n_size as int].wf());
        }
    }

    /// Whether a vector of elements `n_size` times the alignment in size can be
    /// handed out.
    pub fn can_allocate(&self, n_size: usize) -> (b: bool)
        requires
            self@.wf(),
        ensures
            b == self@.can_allocate(n_size as nat),
    {
        if n_size == usize::MAX {
            false
        } else if n_size >= self.sizes.len() {
            proof {
                assert(self@.with_size(n_size as nat)[n_size as int] == (SizeView {
                    seq: 0,
                    used: 0,
                    caps: Seq::empty(),
                    slots: Seq::empty(),
                }));
            }
            true
        } else {
            proof {
                assert(self@.with_size(n_size as nat)[n_size as int] == self.sizes@[n_size as int]@);
                assert(self@.sizes[n_size as int].wf());
            }
            self.sizes[n_size].can_hand_out()
        }
    }

    /// Adds the counts of this alignment class to `stats`, each saturating at
    /// `usize::MAX`; the slots handed out count for allocation sequence `seq`.
    pub fn add_slot_stats(&self, seq: usize, stats: &mut SlotStats)
        requires
            self@.wf(),
        ensures
            final(stats).chunks == sat_add(old(stats).chunks as nat, sizes_chunks(self@.sizes)),
            final(stats).slots == sat_add(old(stats).slots as nat, sizes_slots(self@.sizes)),
            final(stats).used == sat_add(old(stats).used as nat, sizes_used(self@.sizes, seq as nat)),
    {
        let mut k: usize = 0;
        while k < self.sizes.len()
            invariant
                self@.wf(),
                k <= self@.sizes.len(),
                stats.chunks == sat_add(old(stats).chunks as nat, sizes_chunks(self@.sizes.take(k as int))),
                stats.slots == sat_add(old(stats).slots as nat, sizes_slots(self@.sizes.take(k as int))),
                stats.used == sat_add(old(stats).used as nat, sizes_used(self@.sizes.take(k as int), seq as nat)),
            decreases self@.sizes.len() - k,
        {
            proof {
                assert(self@.sizes.take(k as int + 1).drop_last() =~= self@.sizes.take(k as int));
                assert(self@.sizes.take(k as int + 1).last() == self.sizes@[k as int]@);
                assert(self@.sizes[k as int].wf());
            }
            self.sizes[k].add_slot_stats(seq, stats);
            k = k + 1;
        }
        assert(self@.sizes.take(self@.sizes.len() as int) =~= self@.sizes);
    }

    /// The bytes of a slot fit in `usize`.
    pub proof fn lemma_slot_len(&self, n_size: int, slot: int)
        requires
            0 <= n_size < self@.sizes.len(),
            0 <= slot < self@.sizes[n_size].slots.len(),
        ensures
            self@.sizes[n_size].slots[slot].len() <= usize::MAX,
    {
        let b = self.sizes@[n_size];
        assert(self@.sizes[n_size] == b@);
        assert(b@.slots[slot] == b.slots@[slot]@);
        assert(b.slots@[slot].len() == b.slots@[slot]@.len());
    }

    /// The capacity, in bytes, of the vector in slot `slot` of size `n_size`.
    pub fn slot_capacity(&self, n_size: usize, slot: usize) -> (c: usize)
        requires
            n_size < self@.sizes.len(),
            slot < self@.sizes[n_size as int].slots.len(),
        ensures
            c >= self@.sizes[n_size as int].slots[slot as int].len(),
    {
        self.sizes[n_size].slot_capacity(slot)
    }

    /// Adds the usage of this alignment class to `usage`, counting as content
    /// the vectors handed out in allocation sequence `seq`. Each sum saturates
    /// at `usize::MAX`.
    pub fn memory_usage(&self, seq: usize, usage: &mut MemoryUsage)
        ensures
            final(usage).content_bytes == sat_add(
                old(usage).content_bytes as nat,
                self@.content_in(seq as nat),
            ),
            final(usage).capacity_bytes >= sat_add(
                old(usage).capacity_bytes as nat,
                self@.held_bytes(),
            ),
            final(usage).overhead_bytes >= old(usage).overhead_bytes,
    {
        let sizes_cap = vec_capacity(&self.sizes);
        usage.overhead_bytes = usage.overhead_bytes.saturating_add(
            sat_mul(sizes_cap, core::mem::size_of::<BySize>()),
        );
        let mut k: usize = 0;
        while k < self.sizes.len()
            invariant
                k <= self@.sizes.len(),
                usage.content_bytes == sat_add(
                    old(usage).content_bytes as nat,
                    sizes_content(self@.sizes.take(k as int), seq as nat),
                ),
                usage.capacity_bytes >= sat_add(
                    old(usage).capacity_bytes as nat,
                    sizes_held(self@.sizes.take(k as int)),
                ),
                usage.overhead_bytes >= old(usage).overhead_bytes,
            decreases self@.sizes.len() - k,
        {
            proof {
                assert(self@.sizes.take(k as int + 1).drop_last() =~= self@.sizes.take(k as int));
                assert(self@.sizes.take(k as int + 1).last() == self.sizes@[k as int]@);
            }
            self.sizes[k].memory_usage(seq, usage);
            k = k + 1;
        }
        assert(self@.sizes.take(self@.sizes.len() as int) =~= self@.sizes);
    }

    /// Hands out a slot for a vector whose elements are `n_size` times the
    /// alignment in size, in allocation sequence `seq`, and empties it.
    pub fn allocate_vec(&mut self, n_size: usize, seq: usize) -> (slot: usize)
        requires
            old(self)@.wf(),
            old(self)@.can_allocate(n_size as nat),
        ensures
            final(self)@.wf(),
            final(self)@.sizes.len() == old(self)@.with_size(n_size as nat).len(),
            ({
                let s = old(self)@.with_size(n_size as nat)[n_size as int];
                &&& slot == s.prepared(seq as nat).next_slot()
                &&& final(self)@.sizes == old(self)@.with_size(n_size as nat).update(
                    n_size as int,
                    SizeView {
                        used: s.prepared(seq as nat).used + 1,
                        slots: s.prepared(seq as nat).slots.update(slot as int, Seq::empty()),
                        ..s.prepared(seq as nat)
                    },
                )
            }),
            slot < final(self)@.sizes[n_size as int].slots.len(),
            slot == old(self)@.with_size(n_size as nat)[n_size as int].slot_of(seq as nat, 0),
            slot == old(self)@.vec_slot(n_size as nat, seq as nat, 0),
            final(self)@ == old(self)@.after_vec(n_size as nat, seq as nat),
            final(self)@.sizes[n_size as int] == old(self)@.with_size(n_size as nat)[n_size as int].handed_out(
                seq as nat,
            ),
    {
        while self.sizes.len() <= n_size
            invariant
                n_size < usize::MAX,
                self@.wf(),
                old(self)@.sizes.len() <= self@.sizes.len(),
                self@.sizes.len() <= old(self)@.with_size(n_size as nat).len(),
                self@.sizes =~= old(self)@.with_size(n_size as nat).take(self@.sizes.len() as int),
            decreases n_size + 1 - self@.sizes.len(),
        {
            let ghost prev = self@.sizes;
            self.sizes.push(BySize::new());
            proof {
                assert(self@.sizes =~= prev.push(SizeView { seq: 0, used: 0, caps: Seq::empty(), slots: Seq::empty() }));
                assert(spec_sum(Seq::<nat>::empty()) == 0);
            }
        }
        assert(self@.sizes =~= old(self)@.with_size(n_size as nat));
        let mut b = BySize::new();
        std::mem::swap(&mut b, &mut self.sizes[n_size]);
        let slot = b.get_new(seq);
        b.clear_slot(slot);
        std::mem::swap(&mut b, &mut self.sizes[n_size]);
        proof {
            let s = old(self)@.with_size(n_size as nat)[n_size as int];
            assert(self@.sizes =~= old(self)@.with_size(n_size as nat).update(
                n_size as int,
                SizeView {
                    used: s.prepared(seq as nat).used + 1,
                    slots: s.prepared(seq as nat).slots.update(slot as int, Seq::empty()),
                    ..s.prepared(seq as nat)
                },
            ));
        }
        slot
    }
}

/// Within one allocation sequence every vector slot handed out comes after the
/// one handed out before it, so no two vectors of a sequence share a slot: from
/// a state that has handed out a slot in sequence `seq` already, handing out a
/// slot and then another gives the second a later number.
pub proof fn lemma_slots_advance(s: SizeView, seq: nat)
    requires
        s.wf(),
        s.caps.len() > 0,
        s.seq == seq,
    ensures
        ({
            let p = s.prepared(seq);
            let k = p.next_slot();
            let s2 = SizeView { used: p.used + 1, slots: p.slots.update(k as int, Seq::empty()), ..p };
            &&& s2.wf()
            &&& s2.seq == seq
            &&& s2.prepared(seq).next_slot() > k
        }),
{
    assert(s.started() == s);
    let p = s.prepared(seq);
    assert(p == s.with_room());
    if s.used == s.caps.last() {
        lemma_sum_push(s.caps, s.caps.last() * 2);
        assert(p.caps.last() == s.caps.last() * 2);
        assert(p.used == 0);
    } else {
        assert(p == s);
    }
    assert(p.wf());
    assert(p.used < p.caps.last());
    assert(spec_sum(p.caps) == spec_sum(p.caps.drop_last()) + p.caps.last());
    let k = p.next_slot();
    assert(k < p.slots.len());
    let s2 = SizeView { used: p.used + 1, slots: p.slots.update(k as int, Seq::empty()), ..p };
    assert(s2.wf());
    assert(s2.started() == s2);
    let q = s2.prepared(seq);
    assert(q == s2.with_room());
    if s2.used == s2.caps.last() {
        lemma_sum_push(s2.caps, s2.caps.last() * 2);
        assert(q.caps.last() == s2.caps.last() * 2);
        assert(q.next_slot() == s2.slots.len());
    } else {
        assert(q.next_slot() == k + 1);
    }
}

/// The content of size classes that last handed out a slot before sequence
/// `seq` counts nothing in `seq`.
pub proof fn lemma_no_content_before(sizes: Seq<SizeView>, seq: nat)
    requires
        forall|i: int| 0 <= i < sizes.len() ==> #[trigger] sizes[i].seq < seq,
    ensures
        sizes_content(sizes, seq) == 0,
        sizes_used(sizes, seq) == 0,
    decreases sizes.len(),
{
    if sizes.len() > 0 {
        assert(sizes.last().seq < seq);
        assert forall|i: int| 0 <= i < sizes.drop_last().len() implies #[trigger] sizes.drop_last()[i].seq < seq by {
            assert(sizes.drop_last()[i] == sizes[i]);
        }
        lemma_no_content_before(sizes.drop_last(), seq);
    }
}

/// Of the slots of size classes, no more are handed out than there are, and no
/// more bytes count as content than the vectors hold.
pub proof fn lemma_sizes_counts(sizes: Seq<SizeView>, seq: nat)
    requires
        forall|i: int| 0 <= i < sizes.len() ==> #[trigger] sizes[i].wf(),
    ensures
        sizes_used(sizes, seq) <= sizes_slots(sizes),
        sizes_content(sizes, seq) <= sizes_held(sizes),
    decreases sizes.len(),
{
    if sizes.len() > 0 {
        let s = sizes.last();
        assert(s.wf());
        if s.caps.len() > 0 {
            assert(spec_sum(s.caps) == spec_sum(s.caps.drop_last()) + s.caps.last());
        }
        assert forall|i: int| 0 <= i < sizes.drop_last().len() implies #[trigger] sizes.drop_last()[i].wf() by {
            assert(sizes.drop_last()[i] == sizes[i]);
        }
        lemma_sizes_counts(sizes.drop_last(), seq);
    }
}

/// Handing out slots again and again in the sequence a size class was last
/// handed out in keeps it well formed and in that sequence, and each slot comes
/// after the one before.
proof fn lemma_handed_out_n(s: SizeView, seq: nat, n: nat)
    requires
        s.wf(),
        s.caps.len() > 0,
        s.seq == seq,
    ensures
        s.handed_out_n(seq, n).wf(),
        s.handed_out_n(seq, n).caps.len() > 0,
        s.handed_out_n(seq, n).seq == seq,
        s.slot_of(seq, n + 1) > s.slot_of(seq, n),
    decreases n,
{
    if n > 0 {
        lemma_handed_out_n(s, seq, (n - 1) as nat);
        let r = s.handed_out_n(seq, (n - 1) as nat);
        assert(r.started() == r);
        lemma_slots_advance(r, seq);
        assert(s.handed_out_n(seq, n) == r.handed_out(seq));
        assert(r.prepared(seq).caps.len() >= r.caps.len());
    }
    let t = s.handed_out_n(seq, n);
    assert(t.started() == t);
    lemma_slots_advance(t, seq);
    assert(s.handed_out_n(seq, n + 1) == t.handed_out(seq));
}

/// No two vectors of one allocation sequence share a slot: in the sequence a
/// size class was last handed out in, a later hand-out gives a later slot.
/// Each call of `ByAlign::allocate_vec` is one hand-out (`handed_out`), so the
/// calls of one sequence give the slots `slot_of(seq, 0)`, `slot_of(seq, 1)`, ….
pub proof fn lemma_slots_distinct(s: SizeView, seq: nat, i: nat, j: nat)
    requires
        s.wf(),
        s.caps.len() > 0,
        s.seq == seq,
        i < j,
    ensures
        s.slot_of(seq, i) < s.slot_of(seq, j),
    decreases j - i,
{
    lemma_handed_out_n(s, seq, i);
    if i + 1 < j {
        lemma_slots_distinct(s, seq, i + 1, j);
    }
}

/// A new allocation sequence hands slots out from the first one again.
pub proof fn lemma_new_sequence_starts_over(s: SizeView, seq: nat)
    requires
        s.wf(),
        seq > s.seq,
    ensures
        s.prepared(seq).next_slot() == 0,
{
    let a = s.started();
    if s.caps.len() == 0 {
        assert(a.caps == seq![FIRST_CHUNK_SLOTS as nat]);
        assert(s.slots.len() == 0);
        assert(seq![FIRST_CHUNK_SLOTS as nat].drop_last() =~= Seq::<nat>::empty());
    } else {
        assert(spec_sum(s.caps) == spec_sum(s.caps.drop_last()) + s.caps.last());
    }
    let b = SizeView { seq, ..a.reset() };
    if a.caps.len() > 1 {
        assert(b.caps == seq![a.merged_cap()]);
        assert(seq![a.merged_cap()].drop_last() =~= Seq::<nat>::empty());
        assert(b.caps.last() == a.merged_cap());
    } else {
        assert(a.caps.drop_last() =~= Seq::<nat>::empty());
        assert(spec_sum(a.caps) == spec_sum(a.caps.drop_last()) + a.caps.last());
    }
    assert(b.used == 0);
    assert(b.used < b.caps.last());
}

/// Preparing to hand out a slot, in the sequence last handed out in or a later
/// one, leaves a well-formed state in that sequence with room in its last chunk.
pub proof fn lemma_prepared_wf(s: SizeView, seq: nat)
    requires
        s.wf(),
        s.seq <= seq,
    ensures
        s.prepared(seq).wf(),
        s.prepared(seq).caps.len() > 0,
        s.prepared(seq).seq == seq,
        s.prepared(seq).used < s.prepared(seq).caps.last(),
{
    let a = s.started();
    if s.caps.len() == 0 {
        assert(s.slots.len() == 0);
        assert(seq![FIRST_CHUNK_SLOTS as nat].drop_last() =~= Seq::<nat>::empty());
        assert(spec_sum(Seq::<nat>::empty()) == 0);
        assert(spec_sum(a.caps) == spec_sum(a.caps.drop_last()) + a.caps.last());
        assert(spec_sum(a.caps) == FIRST_CHUNK_SLOTS);
        assert(a.slots.len() == FIRST_CHUNK_SLOTS);
    } else {
        assert(a == s);
    }
    assert(a.wf());
    assert(spec_sum(a.caps) == spec_sum(a.caps.drop_last()) + a.caps.last());
    let b = if seq > a.seq { SizeView { seq, ..a.reset() } } else { a };
    if seq > a.seq && a.caps.len() > 1 {
        assert(b.caps == seq![a.merged_cap()]);
        assert(seq![a.merged_cap()].drop_last() =~= Seq::<nat>::empty());
        assert(spec_sum(Seq::<nat>::empty()) == 0);
        assert(spec_sum(b.caps) == spec_sum(b.caps.drop_last()) + b.caps.last());
        assert(b.slots.len() == a.merged_cap());
        assert(a.caps[a.caps.len() - 1] >= 1);
    }
    assert(b.wf());
    assert(b.caps.len() > 0);
    assert(b.seq == seq);
    let p = b.with_room();
    if b.used == b.caps.last() {
        lemma_sum_push(b.caps, b.caps.last() * 2);
        assert(p.caps.last() == b.caps.last() * 2);
    }
    assert(p == s.prepared(seq));
}

/// The position a size class hands out from next, before any room is added:
/// the slots of the chunks before the last, and those used in the last.
pub open spec fn position(s: SizeView) -> int {
    s.slots.len() - s.caps.last() + s.used
}

/// Handing out a slot from a well-formed state in its own sequence gives the
/// slot at its position, and moves the position on by one.
pub proof fn lemma_hand_out_step(t: SizeView, seq: nat)
    requires
        t.wf(),
        t.caps.len() > 0,
        t.seq == seq,
    ensures
        t.prepared(seq).next_slot() == position(t),
        t.handed_out(seq).wf(),
        t.handed_out(seq).caps.len() > 0,
        t.handed_out(seq).seq == seq,
        position(t.handed_out(seq)) == position(t) + 1,
{
    lemma_prepared_wf(t, seq);
    assert(t.started() == t);
    let p = t.prepared(seq);
    assert(p == t.with_room());
    assert(spec_sum(t.caps) == spec_sum(t.caps.drop_last()) + t.caps.last());
    if t.used == t.caps.last() {
        lemma_sum_push(t.caps, t.caps.last() * 2);
        assert(p.caps.last() == t.caps.last() * 2);
        assert(p.slots.len() == t.slots.len() + t.caps.last() * 2);
    }
    assert(spec_sum(p.caps) == spec_sum(p.caps.drop_last()) + p.caps.last());
}

/// A new allocation sequence hands slots out in order from the first: hand-out
/// number `n` gives slot `n`. So a sequence that hands out as many vectors as
/// the one before gets the same slots, in the same order.
pub proof fn lemma_new_sequence_in_order(s: SizeView, seq: nat, n: nat)
    requires
        s.wf(),
        seq > s.seq,
    ensures
        s.slot_of(seq, n) == n,
        n > 0 ==> {
            let t = s.handed_out_n(seq, n);
            &&& t.wf()
            &&& t.caps.len() > 0
            &&& t.seq == seq
            &&& position(t) == n
        },
    decreases n,
{
    if n == 0 {
        lemma_new_sequence_starts_over(s, seq);
        lemma_prepared_wf(s, seq);
    } else {
        lemma_new_sequence_in_order(s, seq, (n - 1) as nat);
        let r = s.handed_out_n(seq, (n - 1) as nat);
        assert(s.handed_out_n(seq, n) == r.handed_out(seq));
        if n == 1 {
            lemma_new_sequence_starts_over(s, seq);
            lemma_prepared_wf(s, seq);
            let p = s.prepared(seq);
            assert(r == s);
            assert(spec_sum(p.caps) == spec_sum(p.caps.drop_last()) + p.caps.last());
            assert(position(p) == 0);
        } else {
            lemma_hand_out_step(r, seq);
        }
        let t = s.handed_out_n(seq, n);
        lemma_hand_out_step(t, seq);
    }
}

/// Hand-outs of one size in one sequence act on that size class alone: after
/// `k` of them it is the class handed out `k` times.
pub proof fn lemma_after_vecs(a: AlignView, n_size: nat, seq: nat, k: nat)
    ensures
        a.after_vecs(n_size, seq, k).with_size(n_size)[n_size as int] == a.with_size(n_size)[n_size as int].handed_out_n(
            seq,
            k,
        ),
        k > 0 ==> a.after_vecs(n_size, seq, k).sizes.len() > n_size,
    decreases k,
{
    if k > 0 {
        lemma_after_vecs(a, n_size, seq, (k - 1) as nat);
        let b = a.after_vecs(n_size, seq, (k - 1) as nat);
        let c = b.after_vec(n_size, seq);
        assert(c.sizes.len() == b.with_size(n_size).len());
        assert(b.with_size(n_size).len() > n_size);
        assert(c.with_size(n_size) == c.sizes);
        if k - 1 > 0 {
            assert(b.with_size(n_size) == b.sizes);
        }
    }
}

/// The calls of `ByAlign::allocate_vec` for one size within one allocation
/// sequence hand out pairwise different slots, so no two vectors of a sequence
/// share one; and a sequence later than the one the size class was last handed
/// out in hands out its slots from the first, in order: call `k` gets slot `k`,
/// so a sequence that needs no new chunk gets the same slots as the one before,
/// in the same order.
pub proof fn lemma_vec_slots(a: AlignView, n_size: nat, seq: nat, i: nat, j: nat)
    requires
        a.wf(),
        ({
            let s = a.with_size(n_size)[n_size as int];
            s.seq < seq || (s.seq == seq && s.caps.len() > 0)
        }),
        i < j,
    ensures
        a.vec_slot(n_size, seq, i) < a.vec_slot(n_size, seq, j),
        a.with_size(n_size)[n_size as int].seq < seq ==> a.vec_slot(n_size, seq, i) == i && a.vec_slot(
            n_size,
            seq,
            j,
        ) == j,
{
    let s = a.with_size(n_size)[n_size as int];
    if n_size < a.sizes.len() {
        assert(s == a.sizes[n_size as int]);
    } else {
        assert(spec_sum(Seq::<nat>::empty()) == 0);
    }
    assert(s.wf());
    lemma_after_vecs(a, n_size, seq, i);
    lemma_after_vecs(a, n_size, seq, j);
    assert(a.vec_slot(n_size, seq, i) == s.slot_of(seq, i));
    assert(a.vec_slot(n_size, seq, j) == s.slot_of(seq, j));
    if s.seq < seq {
        lemma_new_sequence_in_order(s, seq, i);
        lemma_new_sequence_in_order(s, seq, j);
    } else {
        lemma_slots_distinct(s, seq, i, j);
    }
}

} // verus!

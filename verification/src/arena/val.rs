use vstd::prelude::*;

use crate::arena::{MemoryUsage, sat_add, sat_mul};

verus! {

/// The granule chunk sizes are rounded up to: the size of the most aligned
/// supported type.
pub const SLOT_BYTES: usize = 16;

/// The size of a chunk asked to hold `cap_bytes` bytes: rounded up to whole slots.
pub open spec fn spec_chunk_bytes(cap_bytes: nat) -> nat {
    ((cap_bytes + 15) / 16) * 16
}

/// A chunk holds at least the bytes it was asked for.
pub proof fn lemma_chunk_bytes_covers(cap_bytes: nat)
    ensures
        spec_chunk_bytes(cap_bytes) >= cap_bytes,
        spec_chunk_bytes(cap_bytes) <= cap_bytes + 15,
        spec_chunk_bytes(cap_bytes) % 16 == 0,
{
}

/// The total size of `chunks`.
pub open spec fn spec_sum_lens(chunks: Seq<Seq<u8>>) -> nat
    decreases chunks.len(),
{
    if chunks.len() == 0 {
        0
    } else {
        spec_sum_lens(chunks.drop_last()) + chunks.last().len()
    }
}

/// `chunks` laid after each other.
pub open spec fn spec_concat(chunks: Seq<Seq<u8>>) -> Seq<u8>
    decreases chunks.len(),
{
    if chunks.len() == 0 {
        Seq::empty()
    } else {
        spec_concat(chunks.drop_last()) + chunks.last()
    }
}

pub proof fn lemma_concat_len(chunks: Seq<Seq<u8>>)
    ensures
        spec_concat(chunks).len() == spec_sum_lens(chunks),
    decreases chunks.len(),
{
    if chunks.len() > 0 {
        lemma_concat_len(chunks.drop_last());
    }
}

pub open spec fn zeros(n: nat) -> Seq<u8> {
    Seq::new(n, |i: int| 0u8)
}

/// The capacity the allocator gave `v`. Only that it holds at least `v`'s
/// elements is stated: the rest depends on the allocator.
#[verifier::external_body]
pub fn vec_capacity<T>(v: &Vec<T>) -> (c: usize)
    ensures
        c >= v@.len(),
{
    v.capacity()
}

/// A chunk asked to hold `cap_bytes` bytes, zeroed.
pub fn new_chunk(cap_bytes: usize) -> (c: Vec<u8>)
    requires
        cap_bytes + 15 <= usize::MAX,
    ensures
        c@ == zeros(spec_chunk_bytes(cap_bytes as nat)),
{
    let len = (cap_bytes + 15) / SLOT_BYTES * SLOT_BYTES;
    let mut c: Vec<u8> = Vec::new();
    while c.len() < len
        invariant
            len == spec_chunk_bytes(cap_bytes as nat),
            c@.len() <= len,
            c@ =~= zeros(c@.len()),
        decreases len - c@.len(),
    {
        c.push(0u8);
    }
    c
}

/// The abstract state of the value storage of one alignment class.
pub struct ValView {
    /// The chunks' bytes; the last one is being allocated from.
    pub chunks: Seq<Seq<u8>>,
    /// The bytes used in the last chunk.
    pub last_used: nat,
    /// The bytes used in the chunks before the last one.
    pub total_content: nat,
}

impl ValView {
    pub open spec fn wf(self) -> bool {
        &&& self.chunks.len() >= 1
        &&& self.last_used <= self.chunks.last().len()
    }

    pub open spec fn last_cap(self) -> nat {
        self.chunks.last().len()
    }

    /// Whether `byte_size` more bytes overflow the last chunk.
    pub open spec fn over(self, byte_size: nat) -> bool {
        self.last_used + byte_size > self.last_cap()
    }

    /// The size of the chunk grown for an allocation of `byte_size` bytes:
    /// twice the last chunk or twice the allocation, whichever is larger.
    pub open spec fn grown_bytes(self, byte_size: nat) -> nat {
        let a = self.last_cap() * 2;
        let b = byte_size * 2;
        spec_chunk_bytes(if a >= b { a } else { b })
    }

    /// Whether allocating `byte_size` bytes keeps every size within `usize`.
    pub open spec fn can_allocate(self, byte_size: nat) -> bool {
        &&& self.last_used + byte_size <= usize::MAX
        &&& self.last_cap() * 2 + 16 <= usize::MAX
        &&& byte_size * 2 + 16 <= usize::MAX
        &&& self.total_content + self.last_used <= usize::MAX
    }

    /// Where `byte_size` bytes are allocated: the chunk and the offset in it.
    pub open spec fn place(self, byte_size: nat) -> (nat, nat) {
        if self.over(byte_size) {
            (self.chunks.len(), 0)
        } else {
            ((self.chunks.len() - 1) as nat, self.last_used)
        }
    }

    /// The state after allocating `byte_size` bytes.
    pub open spec fn after_allocate(self, byte_size: nat) -> ValView {
        if self.over(byte_size) {
            ValView {
                chunks: self.chunks.push(zeros(self.grown_bytes(byte_size))),
                last_used: byte_size,
                total_content: self.total_content + self.last_used,
            }
        } else {
            ValView { last_used: self.last_used + byte_size, ..self }
        }
    }

    /// The size of the single chunk that replaces all chunks on reset: room for
    /// twice the content, counted in slots (at most `usize::MAX` bytes), or for
    /// all the old chunks, whichever is larger.
    pub open spec fn merged_bytes(self) -> nat {
        let a = if self.total_content * 2 * 16 > usize::MAX {
            usize::MAX as nat
        } else {
            self.total_content * 2 * 16
        };
        let b = spec_sum_lens(self.chunks);
        if a >= b { a } else { b }
    }

    /// The state after a reset: nothing is used; several chunks are merged into one.
    pub open spec fn after_reset(self) -> ValView {
        if self.chunks.len() > 1 {
            ValView {
                chunks: seq![spec_concat(self.chunks) + zeros((self.merged_bytes() - spec_sum_lens(self.chunks)) as nat)],
                last_used: 0,
                total_content: 0,
            }
        } else {
            ValView { chunks: self.chunks, last_used: 0, total_content: 0 }
        }
    }

    /// The bytes used, in all chunks.
    pub open spec fn content_bytes(self) -> nat {
        self.total_content + self.last_used
    }
}

/// The value storage of one alignment class: chunks of bytes, allocated from the
/// last one, a new and larger chunk appended when it is full.
pub struct ByAlign {
    last: usize,
    last_used_bytes: usize,
    chunks: Vec<Vec<u8>>,
    total_content_bytes: usize,
}

impl View for ByAlign {
    type V = ValView;

    closed spec fn view(&self) -> ValView {
        ValView {
            chunks: self.chunks@.map_values(|c: Vec<u8>| c@),
            last_used: self.last_used_bytes as nat,
            total_content: self.total_content_bytes as nat,
        }
    }
}

impl ByAlign {
    closed spec fn inv(&self) -> bool {
        &&& self.chunks@.len() >= 1
        &&& self.last == self.chunks@.len() - 1
        &&& self.last_used_bytes <= self.chunks@[self.last as int]@.len()
    }

    /// Whether the storage is in a consistent state.
    pub closed spec fn wf(&self) -> bool {
        self.inv()
    }

    pub proof fn lemma_wf(&self)
        requires
            self.wf(),
        ensures
            self@.wf(),
    {
    }

    /// A chunk's size fits in `usize`.
    pub proof fn lemma_chunk_len(&self, k: int)
        requires
            0 <= k < self@.chunks.len(),
        ensures
            self@.chunks[k].len() <= usize::MAX,
    {
        assert(self@.chunks[k] == self.chunks@[k]@);
        assert(self.chunks@[k].len() == self.chunks@[k]@.len());
    }

    /// One chunk of one slot, nothing used.
    pub fn new() -> (b: ByAlign)
        ensures
            b.wf(),
            b@ == (ValView { chunks: seq![zeros(16)], last_used: 0, total_content: 0 }),
    {
        let mut chunks: Vec<Vec<u8>> = Vec::new();
        chunks.push(new_chunk(SLOT_BYTES));
        let b = ByAlign { last: 0, last_used_bytes: 0, chunks, total_content_bytes: 0 };
        assert(b@.chunks =~= seq![zeros(16)]);
        b
    }

    /// Where the next allocation would go if it fits: the last chunk and the
    /// bytes used in it.
    pub fn position(&self) -> (r: (usize, usize))
        requires
            self.wf(),
        ensures
            r.0 == self@.chunks.len() - 1,
            r.1 == self@.last_used,
    {
        (self.last, self.last_used_bytes)
    }

    fn last_cap_bytes(&self) -> (c: usize)
        requires
            self.wf(),
        ensures
            c == self@.last_cap(),
    {
        self.chunks[self.last].len()
    }

    /// Whether `byte_size` more bytes overflow the last chunk.
    pub fn capacity_over(&self, byte_size: usize) -> (r: bool)
        requires
            self.wf(),
            self@.can_allocate(byte_size as nat),
        ensures
            r == self@.over(byte_size as nat),
    {
        self.last_used_bytes + byte_size > self.last_cap_bytes()
    }

    fn grow(&mut self, byte_size: usize)
        requires
            old(self).wf(),
            old(self)@.can_allocate(byte_size as nat),
            old(self)@.over(byte_size as nat),
        ensures
            final(self).wf(),
            final(self)@ == (ValView {
                chunks: old(self)@.chunks.push(zeros(old(self)@.grown_bytes(byte_size as nat))),
                last_used: 0,
                total_content: old(self)@.total_content + old(self)@.last_used,
            }),
    {
        self.total_content_bytes = self.total_content_bytes + self.last_used_bytes;
        let last_cap_bytes = self.last_cap_bytes();
        let a = last_cap_bytes * 2;
        let b = byte_size * 2;
        let new_cap_bytes = if a >= b { a } else { b };
        let chunk = new_chunk(new_cap_bytes);
        self.chunks.push(chunk);
        self.last = self.chunks.len() - 1;
        self.last_used_bytes = 0;
        assert(self@.chunks =~= old(self)@.chunks.push(zeros(old(self)@.grown_bytes(byte_size as nat))));
    }

    /// Whether `byte_size` more bytes can be allocated with every size staying
    /// within `usize`.
    pub fn can_allocate(&self, byte_size: usize) -> (b: bool)
        requires
            self.wf(),
        ensures
            b == self@.can_allocate(byte_size as nat),
    {
        let last_cap = self.last_cap_bytes();
        self.last_used_bytes <= usize::MAX - byte_size
            && last_cap <= (usize::MAX - 16) / 2
            && byte_size <= (usize::MAX - 16) / 2
            && self.total_content_bytes <= usize::MAX - self.last_used_bytes
    }

    /// Reserves `byte_size` bytes and returns where: the chunk and the offset in it.
    pub fn allocate_val(&mut self, byte_size: usize) -> (r: (usize, usize))
        requires
            old(self).wf(),
            old(self)@.can_allocate(byte_size as nat),
        ensures
            final(self).wf(),
            final(self)@ == old(self)@.after_allocate(byte_size as nat),
            (r.0 as nat, r.1 as nat) == old(self)@.place(byte_size as nat),
            r.0 < final(self)@.chunks.len(),
            r.1 + byte_size <= final(self)@.chunks[r.0 as int].len(),
    {
        assert(old(self)@.chunks.last() == old(self).chunks@[old(self).last as int]@);
        if self.capacity_over(byte_size) {
            self.grow(byte_size);
            assert(self@.chunks.last() == self.chunks@[self.last as int]@);
            proof {
                lemma_chunk_bytes_covers(old(self)@.last_cap() * 2);
                lemma_chunk_bytes_covers(byte_size as nat * 2);
            }
        }
        let pos = (self.last, self.last_used_bytes);
        self.last_used_bytes = self.last_used_bytes + byte_size;
        assert(self@ =~= old(self)@.after_allocate(byte_size as nat));
        assert(self@.chunks[self.last as int] == self.chunks@[self.last as int]@);
        pos
    }

    /// Gives back the last `byte_size` bytes allocated.
    pub fn shrink_val(&mut self, byte_size: usize)
        requires
            old(self).wf(),
            byte_size <= old(self)@.last_used,
        ensures
            final(self).wf(),
            final(self)@ == (ValView { last_used: (old(self)@.last_used - byte_size) as nat, ..old(self)@ }),
    {
        self.last_used_bytes = self.last_used_bytes - byte_size;
    }

    /// Writes `bytes` at `offset` in chunk `chunk`.
    pub fn write_bytes(&mut self, chunk: usize, offset: usize, bytes: &[u8])
        requires
            old(self).wf(),
            chunk < old(self)@.chunks.len(),
            offset + bytes@.len() <= old(self)@.chunks[chunk as int].len(),
        ensures
            final(self).wf(),
            final(self)@ == (ValView {
                chunks: old(self)@.chunks.update(
                    chunk as int,
                    old(self)@.chunks[chunk as int].subrange(0, offset as int) + bytes@
                        + old(self)@.chunks[chunk as int].subrange(
                        offset + bytes@.len(),
                        old(self)@.chunks[chunk as int].len() as int,
                    ),
                ),
                ..old(self)@
            }),
    {
        let mut c: Vec<u8> = Vec::new();
        std::mem::swap(&mut c, &mut self.chunks[chunk]);
        let ghost orig = c@;
        let clen = c.len();
        let mut i: usize = 0;
        while i < bytes.len()
            invariant
                i <= bytes@.len(),
                clen == c@.len(),
                offset + bytes@.len() <= orig.len(),
                c@.len() == orig.len(),
                forall|k: int| 0 <= k < offset ==> #[trigger] c@[k] == orig[k],
                forall|k: int| offset <= k < offset + i ==> #[trigger] c@[k] == bytes@[k - offset],
                forall|k: int| offset + i <= k < orig.len() ==> #[trigger] c@[k] == orig[k],
            decreases bytes@.len() - i,
        {
            c.set(offset + i, bytes[i]);
            i = i + 1;
        }
        std::mem::swap(&mut c, &mut self.chunks[chunk]);
        proof {
            let expected = orig.subrange(0, offset as int) + bytes@ + orig.subrange(
                offset + bytes@.len(),
                orig.len() as int,
            );
            assert(self.chunks@[chunk as int]@ =~= expected);
            assert(self@.chunks =~= old(self)@.chunks.update(chunk as int, expected));
        }
    }

    /// Reads `len` bytes at `offset` in chunk `chunk`.
    pub fn read_bytes(&self, chunk: usize, offset: usize, len: usize) -> (b: Vec<u8>)
        requires
            self.wf(),
            chunk < self@.chunks.len(),
            offset + len <= self@.chunks[chunk as int].len(),
        ensures
            b@ == self@.chunks[chunk as int].subrange(offset as int, offset + len),
    {
        let c = &self.chunks[chunk];
        let clen = c.len();
        let mut b: Vec<u8> = Vec::new();
        let mut i: usize = 0;
        while i < len
            invariant
                i <= len,
                clen == c@.len(),
                offset + len <= c@.len(),
                b@ =~= c@.subrange(offset as int, offset + i),
            decreases len - i,
        {
            b.push(c[offset + i]);
            i = i + 1;
        }
        b
    }

    /// Starts a new allocation sequence: nothing is used any more, and several
    /// chunks are merged into one that can hold them all.
    pub fn reset(&mut self)
        requires
            old(self).wf(),
        ensures
            final(self).wf(),
            final(self)@ == old(self)@.after_reset(),
    {
        self.last_used_bytes = 0;
        let prev_content_bytes = self.total_content_bytes;
        self.total_content_bytes = 0;
        if self.last > 0 {
            self.last = 0;
            let chunk = self.merge_chunks(prev_content_bytes);
            self.chunks.push(chunk);
            assert(self@.chunks =~= old(self)@.after_reset().chunks);
        } else {
            assert(self@ =~= old(self)@.after_reset());
        }
    }

    /// Takes all chunks out and returns them laid after each other, padded with
    /// zeros to the merged size.
    fn merge_chunks(&mut self, prev_content_bytes: usize) -> (merged: Vec<u8>)
        requires
            old(self).chunks@.len() >= 1,
        ensures
            final(self).chunks@.len() == 0,
            final(self).last == old(self).last,
            final(self).last_used_bytes == old(self).last_used_bytes,
            final(self).total_content_bytes == old(self).total_content_bytes,
            merged@ == spec_concat(old(self)@.chunks) + zeros(
                ((ValView { total_content: prev_content_bytes as nat, ..old(self)@ }).merged_bytes()
                    - spec_sum_lens(old(self)@.chunks)) as nat,
            ),
    {
        let ghost all = old(self)@.chunks;
        let mut merged: Vec<u8> = Vec::new();
        let mut k: usize = 0;
        let n = self.chunks.len();
        let mut taken: Vec<Vec<u8>> = Vec::new();
        std::mem::swap(&mut taken, &mut self.chunks);
        proof {
            lemma_concat_len(all);
        }
        while k < n
            invariant
                n == all.len(),
                taken@.len() == n,
                forall|j: int| 0 <= j < n ==> #[trigger] taken@[j]@ == all[j],
                k <= n,
                merged@ == spec_concat(all.take(k as int)),
                self.chunks@.len() == 0,
                self.last == old(self).last,
                self.last_used_bytes == old(self).last_used_bytes,
                self.total_content_bytes == old(self).total_content_bytes,
            decreases n - k,
        {
            let c = &taken[k];
            proof {
                assert(all.take(k as int + 1).drop_last() =~= all.take(k as int));
                assert(all.take(k as int + 1).last() == all[k as int]);
                lemma_concat_len(all.take(k as int + 1));
                lemma_sum_prefix(all, k as nat + 1);
            }
            let mut i: usize = 0;
            let ghost before = merged@;
            while i < c.len()
                invariant
                    i <= c@.len(),
                    merged@ =~= before + c@.subrange(0, i as int),
                decreases c@.len() - i,
            {
                merged.push(c[i]);
                i = i + 1;
            }
            assert(c@.subrange(0, c@.len() as int) =~= c@);
            k = k + 1;
        }
        assert(all.take(n as int) =~= all);
        proof {
            lemma_concat_len(all);
        }
        let a = sat_mul(prev_content_bytes, 2 * SLOT_BYTES);
        let target = if a >= merged.len() { a } else { merged.len() };
        let ghost concat_part = merged@;
        while merged.len() < target
            invariant
                merged@.len() <= target,
                merged@.len() >= concat_part.len(),
                merged@ =~= concat_part + zeros((merged@.len() - concat_part.len()) as nat),
            decreases target - merged@.len(),
        {
            merged.push(0u8);
        }
        merged
    }

    /// The total size of the chunks.
    pub fn cap_bytes(&self) -> (c: usize)
        requires
            self.wf(),
            spec_sum_lens(self@.chunks) <= usize::MAX,
        ensures
            c == spec_sum_lens(self@.chunks),
    {
        let mut sum: usize = 0;
        let mut k: usize = 0;
        while k < self.chunks.len()
            invariant
                k <= self@.chunks.len(),
                sum == spec_sum_lens(self@.chunks.take(k as int)),
                spec_sum_lens(self@.chunks) <= usize::MAX,
            decreases self@.chunks.len() - k,
        {
            proof {
                assert(self@.chunks.take(k as int + 1).drop_last() =~= self@.chunks.take(k as int));
                lemma_sum_prefix(self@.chunks, k as nat + 1);
            }
            sum = sum + self.chunks[k].len();
            k = k + 1;
        }
        assert(self@.chunks.take(self@.chunks.len() as int) =~= self@.chunks);
        sum
    }

    /// The bytes used.
    pub fn content_bytes(&self) -> (c: usize)
        requires
            self@.total_content + self@.last_used <= usize::MAX,
        ensures
            c == self@.content_bytes(),
    {
        self.total_content_bytes + self.last_used_bytes
    }

    /// Adds this storage's usage to `usage`. Each sum saturates at `usize::MAX`.
    pub fn memory_usage(&self, usage: &mut MemoryUsage)
        requires
            self.wf(),
        ensures
            final(usage).capacity_bytes == sat_add(
                old(usage).capacity_bytes as nat,
                spec_sum_lens(self@.chunks),
            ),
            final(usage).content_bytes == sat_add(
                old(usage).content_bytes as nat,
                self@.content_bytes(),
            ),
            final(usage).overhead_bytes >= old(usage).overhead_bytes,
    {
        let chunk_cap = vec_capacity(&self.chunks);
        let overhead = sat_mul(chunk_cap, core::mem::size_of::<Vec<u8>>());
        usage.overhead_bytes = usage.overhead_bytes.saturating_add(overhead);
        let mut k: usize = 0;
        while k < self.chunks.len()
            invariant
                k <= self@.chunks.len(),
                usage.capacity_bytes == sat_add(
                    old(usage).capacity_bytes as nat,
                    spec_sum_lens(self@.chunks.take(k as int)),
                ),
                usage.content_bytes == old(usage).content_bytes,
                usage.overhead_bytes >= old(usage).overhead_bytes,
            decreases self@.chunks.len() - k,
        {
            proof {
                lemma_sum_prefix(self@.chunks, k as nat + 1);
            }
            usage.capacity_bytes = usage.capacity_bytes.saturating_add(self.chunks[k].len());
            k = k + 1;
        }
        assert(self@.chunks.take(self@.chunks.len() as int) =~= self@.chunks);
        usage.content_bytes = usage.content_bytes.saturating_add(self.total_content_bytes);
        usage.content_bytes = usage.content_bytes.saturating_add(self.last_used_bytes);
    }
}

/// The size of a prefix grows by the next chunk.
pub proof fn lemma_sum_prefix(chunks: Seq<Seq<u8>>, k: nat)
    requires
        1 <= k <= chunks.len(),
    ensures
        spec_sum_lens(chunks.take(k as int)) == spec_sum_lens(chunks.take(k - 1)) + chunks[k - 1].len(),
        spec_sum_lens(chunks.take(k as int)) <= spec_sum_lens(chunks),
    decreases chunks.len() - k,
{
    assert(chunks.take(k as int).drop_last() =~= chunks.take(k - 1));
    if k < chunks.len() {
        lemma_sum_prefix(chunks, k + 1);
    } else {
        assert(chunks.take(k as int) =~= chunks);
    }
}

} // verus!

use vstd::prelude::*;

use core::marker::PhantomData;

use crate::arena::plain::{Plain, is_supported_align};
use crate::arena::val::{self, ValView, spec_sum_lens};
use crate::arena::vecs::{self, AlignView, SizeView, lemma_prepared_keeps, spec_sum};
use crate::arena::{MemoryUsage, sat_add};
use vstd::string::StringSliceAdditionalSpecFns;

verus! {

/// The number of alignment classes: 1, 2, 4, 8 and 16 bytes.
pub const ALIGN_CLASSES: usize = 5;

/// The storage index of alignment `align`.
pub open spec fn align_class(align: nat) -> nat {
    if align == 1 {
        0
    } else if align == 2 {
        1
    } else if align == 4 {
        2
    } else if align == 8 {
        3
    } else {
        4
    }
}

pub fn get_align_class(align: usize) -> (c: usize)
    requires
        is_supported_align(align as nat),
    ensures
        c == align_class(align as nat),
        c < ALIGN_CLASSES,
{
    match align {
        1 => 0,
        2 => 1,
        4 => 2,
        8 => 3,
        _ => 4,
    }
}

/// The value of type `T` stored in `bytes` from `offset` on.
pub open spec fn read_at<T: Plain>(bytes: Seq<u8>, offset: int) -> T {
    T::spec_from_bytes(bytes.subrange(offset, offset + T::spec_size()))
}

/// `bytes` with `part` written over it from `offset` on.
pub open spec fn written(bytes: Seq<u8>, offset: int, part: Seq<u8>) -> Seq<u8> {
    bytes.subrange(0, offset) + part + bytes.subrange(offset + part.len(), bytes.len() as int)
}

/// A value of type `T` stored in an arena.
pub struct ValRef<T> {
    class: usize,
    chunk: usize,
    offset: usize,
    _marker: PhantomData<T>,
}

impl<T> ValRef<T> {
    pub closed spec fn class(self) -> nat {
        self.class as nat
    }

    pub closed spec fn chunk(self) -> nat {
        self.chunk as nat
    }

    pub closed spec fn offset(self) -> nat {
        self.offset as nat
    }
}

/// A slice of values of type `T` stored in an arena.
pub struct SliceRef<T> {
    class: usize,
    chunk: usize,
    offset: usize,
    len: usize,
    _marker: PhantomData<T>,
}

impl<T> SliceRef<T> {
    pub closed spec fn class(self) -> nat {
        self.class as nat
    }

    pub closed spec fn chunk(self) -> nat {
        self.chunk as nat
    }

    pub closed spec fn offset(self) -> nat {
        self.offset as nat
    }

    pub closed spec fn len(self) -> nat {
        self.len as nat
    }

    /// The number of values in the slice.
    pub fn length(&self) -> (n: usize)
        ensures
            n == self.len(),
    {
        self.len
    }
}

/// Values of type `T` pushed one after another into an arena, kept next to each
/// other at the end of the storage of their alignment class.
pub struct SinkRef<T> {
    class: usize,
    chunk: usize,
    offset: usize,
    len: usize,
    _marker: PhantomData<T>,
}

impl<T> SinkRef<T> {
    pub closed spec fn class(self) -> nat {
        self.class as nat
    }

    pub closed spec fn len(self) -> nat {
        self.len as nat
    }

    /// The values pushed so far, as a slice.
    pub closed spec fn spec_slice(self) -> SliceRef<T> {
        SliceRef { class: self.class, chunk: self.chunk, offset: self.offset, len: self.len, _marker: PhantomData }
    }

    /// The number of values pushed.
    pub fn length(&self) -> (n: usize)
        ensures
            n == self.len(),
    {
        self.len
    }

    /// The values pushed so far, as a slice.
    pub fn as_slice(&self) -> (r: SliceRef<T>)
        ensures
            r == self.spec_slice(),
            r.len() == self.len(),
            r.class() == self.class(),
    {
        SliceRef { class: self.class, chunk: self.chunk, offset: self.offset, len: self.len, _marker: PhantomData }
    }

    /// Ends the pushing, and keeps the values pushed as a slice.
    pub fn into_slice(self) -> (r: SliceRef<T>)
        ensures
            r == self.spec_slice(),
            r.len() == self.len(),
            r.class() == self.class(),
    {
        self.as_slice()
    }
}

/// A vector of values of type `T` kept in an arena.
pub struct VecRef<T> {
    class: usize,
    n_size: usize,
    slot: usize,
    _marker: PhantomData<T>,
}

impl<T> VecRef<T> {
    pub closed spec fn class(self) -> nat {
        self.class as nat
    }

    pub closed spec fn n_size(self) -> nat {
        self.n_size as nat
    }

    pub closed spec fn slot(self) -> nat {
        self.slot as nat
    }
}

/// The abstract state of an arena guard.
pub struct GuardView {
    pub alloc_seq: nat,
    pub vecs: Seq<AlignView>,
    pub vals: Seq<ValView>,
}

impl GuardView {
    pub open spec fn wf(self) -> bool {
        &&& self.vecs.len() == ALIGN_CLASSES
        &&& self.vals.len() == ALIGN_CLASSES
        &&& forall|i: int| 0 <= i < ALIGN_CLASSES ==> #[trigger] self.vecs[i].wf()
        &&& forall|i: int| 0 <= i < ALIGN_CLASSES ==> #[trigger] self.vals[i].wf()
    }

    /// Whether `len` bytes at `offset` in chunk `chunk` of class `class` lie
    /// within what has been handed out in the current sequence.
    pub open spec fn in_use(self, class: nat, chunk: nat, offset: nat, len: nat) -> bool {
        let v = self.vals[class as int];
        &&& class < ALIGN_CLASSES
        &&& chunk < v.chunks.len()
        &&& offset + len <= (if chunk == v.chunks.len() - 1 {
            v.last_used
        } else {
            v.chunks[chunk as int].len()
        })
    }

    pub open spec fn val_live<T: Plain>(self, r: ValRef<T>) -> bool {
        self.in_use(r.class(), r.chunk(), r.offset(), T::spec_size())
    }

    pub open spec fn slice_live<T: Plain>(self, r: SliceRef<T>) -> bool {
        self.in_use(r.class(), r.chunk(), r.offset(), r.len() * T::spec_size())
    }

    /// The value `r` refers to.
    pub open spec fn val_of<T: Plain>(self, r: ValRef<T>) -> T {
        read_at::<T>(self.vals[r.class() as int].chunks[r.chunk() as int], r.offset() as int)
    }

    /// Element `i` of the slice `r` refers to.
    pub open spec fn slice_elem<T: Plain>(self, r: SliceRef<T>, i: int) -> T {
        read_at::<T>(
            self.vals[r.class() as int].chunks[r.chunk() as int],
            r.offset() + i * T::spec_size(),
        )
    }

    pub open spec fn vec_valid<T: Plain>(self, r: VecRef<T>) -> bool {
        &&& r.class() < ALIGN_CLASSES
        &&& r.n_size() < self.vecs[r.class() as int].sizes.len()
        &&& r.slot() < self.vecs[r.class() as int].sizes[r.n_size() as int].slots.len()
        &&& self.vec_bytes(r).len() % T::spec_size() == 0
    }

    /// The bytes of the vector `r` refers to.
    pub open spec fn vec_bytes<T: Plain>(self, r: VecRef<T>) -> Seq<u8> {
        self.vecs[r.class() as int].sizes[r.n_size() as int].slots[r.slot() as int]
    }

    /// The number of values in the vector `r` refers to.
    pub open spec fn vec_len<T: Plain>(self, r: VecRef<T>) -> nat {
        self.vec_bytes(r).len() / T::spec_size()
    }

    /// Element `i` of the vector `r` refers to.
    pub open spec fn vec_elem<T: Plain>(self, r: VecRef<T>, i: int) -> T {
        read_at::<T>(self.vec_bytes(r), i * T::spec_size())
    }

    /// This state with the vector in slot `slot` of size `n_size` in class
    /// `class` holding `bytes`.
    pub open spec fn with_slot(self, class: nat, n_size: nat, slot: nat, bytes: Seq<u8>) -> GuardView {
        let a = self.vecs[class as int];
        let s = a.sizes[n_size as int];
        GuardView {
            vecs: self.vecs.update(
                class as int,
                AlignView {
                    sizes: a.sizes.update(n_size as int, SizeView { slots: s.slots.update(slot as int, bytes), ..s }),
                },
            ),
            ..self
        }
    }

    /// This state with `part` written in chunk `chunk` of class `class` from
    /// `offset` on.
    pub open spec fn with_val_bytes(self, class: nat, chunk: nat, offset: nat, part: Seq<u8>) -> GuardView {
        let v = self.vals[class as int];
        GuardView {
            vals: self.vals.update(
                class as int,
                ValView {
                    chunks: v.chunks.update(chunk as int, written(v.chunks[chunk as int], offset as int, part)),
                    ..v
                },
            ),
            ..self
        }
    }

    /// The bytes in use: the vectors handed out in the current allocation
    /// sequence, and the values and slices.
    pub open spec fn content_bytes(self) -> nat {
        vecs_content(self.vecs, self.alloc_seq) + vals_content(self.vals)
    }

    /// The state after starting allocation sequence `seq`: the vectors are kept,
    /// the value storage is emptied.
    pub open spec fn after_reset(self, seq: nat) -> GuardView {
        GuardView {
            alloc_seq: seq,
            vecs: self.vecs,
            vals: Seq::new(self.vals.len(), |i: int| self.vals[i].after_reset()),
        }
    }

    /// Whether the value storage of class `class` can take `bytes` more bytes.
    pub open spec fn can_alloc_bytes(self, class: nat, bytes: nat) -> bool {
        class < ALIGN_CLASSES && self.vals[class as int].can_allocate(bytes)
    }

    /// Whether every vector size class was last handed out in a sequence before
    /// `seq`.
    pub open spec fn handed_out_before(self, seq: nat) -> bool {
        forall|c: int, n: int|
            0 <= c < ALIGN_CLASSES && 0 <= n < self.vecs[c].sizes.len() ==> #[trigger] self.vecs[c].sizes[n].seq < seq
    }

    /// The state after reserving room for `size` bytes in class `class` and
    /// keeping the first `kept` of them, with the bytes left as they were.
    pub open spec fn reserved(self, class: nat, size: nat, kept: nat) -> GuardView {
        let after = self.vals[class as int].after_allocate(size);
        GuardView {
            vals: self.vals.update(class as int, ValView { last_used: (after.last_used - (size - kept)) as nat, ..after }),
            ..self
        }
    }

    /// The shape of the state after pushing a value of `size` bytes onto a sink
    /// of `len_bytes` bytes at the end of class `class`: where the last chunk
    /// has room, the value follows the sink; where not, the sink's bytes are
    /// given back and the sink moves, with the value, into a new chunk.
    pub open spec fn after_sink_push(self, class: nat, len_bytes: nat, size: nat) -> GuardView {
        if self.vals[class as int].over(size) {
            self.given_back(class, len_bytes).reserved(class, len_bytes + size, len_bytes + size)
        } else {
            self.reserved(class, size, size)
        }
    }

    /// Whether `other` differs from this state at most in the bytes stored:
    /// the same vectors, and value storage with chunks of the same sizes and
    /// the same counts of bytes used.
    pub open spec fn same_shape(self, other: GuardView) -> bool {
        &&& other.alloc_seq == self.alloc_seq
        &&& other.vecs == self.vecs
        &&& other.vals.len() == self.vals.len()
        &&& forall|i: int|
            0 <= i < self.vals.len() ==> {
                &&& (#[trigger] other.vals[i]).last_used == self.vals[i].last_used
                &&& other.vals[i].total_content == self.vals[i].total_content
                &&& other.vals[i].chunks.len() == self.vals[i].chunks.len()
                &&& forall|k: int|
                    0 <= k < self.vals[i].chunks.len() ==> (#[trigger] other.vals[i].chunks[k]).len()
                        == self.vals[i].chunks[k].len()
            }
    }

    /// The state with the last `bytes` bytes used in class `class` given back.
    pub open spec fn given_back(self, class: nat, bytes: nat) -> GuardView {
        let v = self.vals[class as int];
        GuardView {
            vals: self.vals.update(class as int, ValView { last_used: (v.last_used - bytes) as nat, ..v }),
            ..self
        }
    }

    /// Whether the sink `s` for values of type `T` lies at the very end of what
    /// is used in its class, so that the next value pushed can follow the last.
    pub open spec fn sink_at_end<T: Plain>(self, s: SinkRef<T>) -> bool {
        let sl = s.spec_slice();
        let v = self.vals[sl.class() as int];
        &&& sl.class() == align_class(T::spec_align())
        &&& sl.class() < ALIGN_CLASSES
        &&& sl.chunk() == v.chunks.len() - 1
        &&& sl.offset() + sl.len() * T::spec_size() == v.last_used
    }

    /// The state after reserving room for `size` bytes in class `class`, writing
    /// `part` at the start of the room and giving back the room that `part` does
    /// not fill.
    pub open spec fn after_alloc(self, class: nat, size: nat, part: Seq<u8>) -> GuardView {
        let v = self.vals[class as int];
        let after = v.after_allocate(size);
        let (ch, off) = v.place(size);
        GuardView {
            vals: self.vals.update(
                class as int,
                ValView {
                    chunks: after.chunks.update(ch as int, written(after.chunks[ch as int], off as int, part)),
                    last_used: (after.last_used - (size - part.len())) as nat,
                    ..after
                },
            ),
            ..self
        }
    }

    /// Whether `len` bytes at `offset` in chunk `chunk` of class `class` share no
    /// byte with anything in use in this state.
    pub open spec fn is_fresh(self, class: nat, chunk: nat, offset: nat) -> bool {
        forall|c: nat, o: nat, l: nat|
            #[trigger] self.in_use(class, c, o, l) ==> c != chunk || o + l <= offset
    }
}

/// The room for an allocation lies past everything in use: in a new chunk, or
/// after the bytes used in the last one.
pub proof fn lemma_place_is_fresh(g: GuardView, class: nat, size: nat)
    requires
        g.wf(),
        class < ALIGN_CLASSES,
    ensures
        g.is_fresh(class, g.vals[class as int].place(size).0, g.vals[class as int].place(size).1),
{
    let v = g.vals[class as int];
    assert(v.wf());
}

/// Of the vector slots, no more are handed out than there are, and no more bytes
/// count as content than the vectors hold.
pub proof fn lemma_vecs_counts(vecs: Seq<AlignView>, seq: nat)
    requires
        forall|i: int| 0 <= i < vecs.len() ==> #[trigger] vecs[i].wf(),
    ensures
        vecs_used(vecs, seq) <= vecs_slots(vecs),
        vecs_content(vecs, seq) <= vecs_held(vecs),
    decreases vecs.len(),
{
    if vecs.len() > 0 {
        assert(vecs.last().wf());
        vecs::lemma_sizes_counts(vecs.last().sizes, seq);
        assert forall|i: int| 0 <= i < vecs.drop_last().len() implies #[trigger] vecs.drop_last()[i].wf() by {
            assert(vecs.drop_last()[i] == vecs[i]);
        }
        lemma_vecs_counts(vecs.drop_last(), seq);
    }
}

/// Vectors last handed out before sequence `seq` count neither as content nor
/// as used slots in `seq`.
pub proof fn lemma_vecs_unused_in(vecs: Seq<AlignView>, before: nat, seq: nat)
    requires
        before < seq,
        forall|c: int, n: int|
            0 <= c < vecs.len() && 0 <= n < vecs[c].sizes.len() ==> #[trigger] vecs[c].sizes[n].seq <= before,
    ensures
        vecs_used(vecs, seq) == 0,
        vecs_content(vecs, seq) == 0,
    decreases vecs.len(),
{
    if vecs.len() > 0 {
        let last = vecs.last();
        assert forall|n: int| 0 <= n < last.sizes.len() implies #[trigger] last.sizes[n].seq < seq by {
            assert(vecs[vecs.len() - 1].sizes[n].seq <= before);
        }
        vecs::lemma_no_content_before(last.sizes, seq);
        let rest = vecs.drop_last();
        assert forall|c: int, n: int| 0 <= c < rest.len() && 0 <= n < rest[c].sizes.len()
            implies #[trigger] rest[c].sizes[n].seq <= before by {
            assert(rest[c] == vecs[c]);
        }
        lemma_vecs_unused_in(rest, before, seq);
    }
}

/// Starting a new allocation sequence frees no memory: the vectors are kept as
/// they are, and the value storage of every class keeps at least the bytes it had.
pub proof fn lemma_reset_keeps_capacity(g: GuardView, seq: nat)
    requires
        g.wf(),
    ensures
        g.after_reset(seq).vecs == g.vecs,
        vals_capacity(g.after_reset(seq).vals) >= vals_capacity(g.vals),
{
    let r = g.after_reset(seq);
    assert forall|i: int| 0 <= i < g.vals.len() implies spec_sum_lens(#[trigger] r.vals[i].chunks)
        >= spec_sum_lens(g.vals[i].chunks) by {
        let v = g.vals[i];
        if v.chunks.len() > 1 {
            let merged = val::spec_concat(v.chunks) + val::zeros((v.merged_bytes() - spec_sum_lens(v.chunks)) as nat);
            val::lemma_concat_len(v.chunks);
            assert(r.vals[i].chunks == seq![merged]);
            assert(seq![merged].drop_last() =~= Seq::<Seq<u8>>::empty());
        }
    }
    lemma_vals_capacity_grows(g.vals, r.vals);
}

/// Value storage whose every class holds at least the bytes of another holds at
/// least as many bytes in all.
proof fn lemma_vals_capacity_grows(a: Seq<ValView>, b: Seq<ValView>)
    requires
        a.len() == b.len(),
        forall|i: int| 0 <= i < a.len() ==> spec_sum_lens(#[trigger] b[i].chunks) >= spec_sum_lens(a[i].chunks),
    ensures
        vals_capacity(b) >= vals_capacity(a),
    decreases a.len(),
{
    if a.len() > 0 {
        assert(spec_sum_lens(b[b.len() - 1].chunks) >= spec_sum_lens(a[a.len() - 1].chunks));
        assert forall|i: int| 0 <= i < a.drop_last().len() implies spec_sum_lens(#[trigger] b.drop_last()[i].chunks)
            >= spec_sum_lens(a.drop_last()[i].chunks) by {
            assert(b.drop_last()[i] == b[i]);
            assert(spec_sum_lens(b[i].chunks) >= spec_sum_lens(a[i].chunks));
        }
        lemma_vals_capacity_grows(a.drop_last(), b.drop_last());
    }
}

/// Every value and slice of type `T` live in `old` is live in `new` and reads
/// the same there.
pub open spec fn keeps_values_of<T: Plain>(old: GuardView, new: GuardView) -> bool {
    &&& forall|v: ValRef<T>| #[trigger] old.val_live(v) ==> new.val_live(v) && new.val_of(v) == old.val_of(v)
    &&& forall|sl: SliceRef<T>| #[trigger] old.slice_live(sl) ==> new.slice_live(sl)
    &&& forall|sl: SliceRef<T>, i: int|
        old.slice_live(sl) && 0 <= i < sl.len() ==> #[trigger] new.slice_elem(sl, i) == old.slice_elem(sl, i)
}

/// Keeping the allocations keeps the values and slices of every type.
pub proof fn lemma_keeps_values<T: Plain>(old: GuardView, new: GuardView)
    requires
        old.wf(),
        new.wf(),
        keeps_allocations(old, new),
    ensures
        keeps_values_of::<T>(old, new),
{
    assert forall|v: ValRef<T>| #[trigger] old.val_live(v) implies new.val_live(v) && new.val_of(v) == old.val_of(v) by {
        lemma_allocation_keeps_values::<T>(old, new, v, arbitrary_slice::<T>());
    }
    assert forall|sl: SliceRef<T>| #[trigger] old.slice_live(sl) implies new.slice_live(sl) by {
        lemma_allocation_keeps_values::<T>(old, new, arbitrary_val::<T>(), sl);
    }
    assert forall|sl: SliceRef<T>, i: int| old.slice_live(sl) && 0 <= i < sl.len() implies #[trigger] new.slice_elem(sl, i)
        == old.slice_elem(sl, i) by {
        lemma_allocation_keeps_values::<T>(old, new, arbitrary_val::<T>(), sl);
    }
}

spec fn arbitrary_val<T>() -> ValRef<T> {
    ValRef { class: 0, chunk: 0, offset: 0, _marker: PhantomData }
}

spec fn arbitrary_slice<T>() -> SliceRef<T> {
    SliceRef { class: 0, chunk: 0, offset: 0, len: 0, _marker: PhantomData }
}

/// Whether every size class of `g` last handed out a slot in sequence `seq` or
/// before.
pub open spec fn handed_out_by(g: GuardView, seq: nat) -> bool {
    forall|c: int, n: int|
        0 <= c < g.vecs.len() && 0 <= n < g.vecs[c].sizes.len() ==> #[trigger] g.vecs[c].sizes[n].seq <= seq
}

/// Whether every bound on the sequences the size classes of `old` were handed
/// out in, at least its current sequence, bounds those of `new` too.
pub open spec fn keeps_handed_out_by(old: GuardView, new: GuardView) -> bool {
    forall|seq: nat| old.alloc_seq <= seq && #[trigger] handed_out_by(old, seq) ==> handed_out_by(new, seq)
}

/// Writing a vector's bytes leaves the sequences its size classes were handed
/// out in as they were.
pub proof fn lemma_with_slot_handed_out_by(g: GuardView, class: nat, n_size: nat, slot: nat, bytes: Seq<u8>, seq: nat)
    requires
        handed_out_by(g, seq),
        class < g.vecs.len(),
        n_size < g.vecs[class as int].sizes.len(),
    ensures
        handed_out_by(g.with_slot(class, n_size, slot, bytes), seq),
{
    let w = g.with_slot(class, n_size, slot, bytes);
    assert forall|c: int, n: int| 0 <= c < w.vecs.len() && 0 <= n < w.vecs[c].sizes.len()
        implies #[trigger] w.vecs[c].sizes[n].seq <= seq by {
        if c == class && n == n_size {
            assert(w.vecs[c].sizes[n].seq == g.vecs[c].sizes[n].seq);
        } else if c == class {
            assert(w.vecs[c].sizes[n] == g.vecs[c].sizes[n]);
        } else {
            assert(w.vecs[c] == g.vecs[c]);
        }
    }
}

/// Writing a vector's bytes keeps every bound on the sequences its size
/// classes were handed out in.
pub proof fn lemma_with_slot_keeps(g: GuardView, class: nat, n_size: nat, slot: nat, bytes: Seq<u8>)
    requires
        class < g.vecs.len(),
        n_size < g.vecs[class as int].sizes.len(),
    ensures
        keeps_handed_out_by(g, g.with_slot(class, n_size, slot, bytes)),
{
    assert forall|q: nat| g.alloc_seq <= q && #[trigger] handed_out_by(g, q)
        implies handed_out_by(g.with_slot(class, n_size, slot, bytes), q) by {
        lemma_with_slot_handed_out_by(g, class, n_size, slot, bytes, q);
    }
}

/// What is in use once bytes are given back was in use before, with the same bytes.
pub proof fn lemma_given_back_keeps(g: GuardView, class: nat, bytes: nat)
    requires
        g.wf(),
        class < ALIGN_CLASSES,
        bytes <= g.vals[class as int].last_used,
    ensures
        keeps_allocations(g.given_back(class, bytes), g),
        g.given_back(class, bytes).wf(),
        g.given_back(class, bytes).content_bytes() + bytes == g.content_bytes(),
{
    let b = g.given_back(class, bytes);
    assert(g.vals[class as int].wf());
    assert forall|i: int| 0 <= i < ALIGN_CLASSES implies #[trigger] b.vals[i].wf() by {
        assert(g.vals[i].wf());
    }
    lemma_vals_content_update(g.vals, class as int, b.vals[class as int]);
    assert(b.vals == g.vals.update(class as int, b.vals[class as int]));
}

/// Keeping allocations carries over from one state to the next.
pub proof fn lemma_keeps_trans(a: GuardView, b: GuardView, c: GuardView)
    requires
        keeps_allocations(a, b),
        keeps_allocations(b, c),
    ensures
        keeps_allocations(a, c),
{
    assert forall|class: nat, chunk: nat, offset: nat, len: nat| #[trigger] a.in_use(class, chunk, offset, len)
        implies c.in_use(class, chunk, offset, len)
            && c.vals[class as int].chunks[chunk as int].subrange(offset as int, (offset + len) as int)
            == a.vals[class as int].chunks[chunk as int].subrange(offset as int, (offset + len) as int) by {
        assert(b.in_use(class, chunk, offset, len));
    }
}

/// A state with no vector size class and no value content has no content.
pub proof fn lemma_empty_content(g: GuardView)
    requires
        g.wf(),
        forall|i: int| 0 <= i < ALIGN_CLASSES ==> #[trigger] g.vecs[i].sizes.len() == 0,
        forall|i: int| 0 <= i < ALIGN_CLASSES ==> #[trigger] g.vals[i].content_bytes() == 0,
    ensures
        g.content_bytes() == 0,
{
    assert forall|k: int| 0 <= k <= ALIGN_CLASSES implies vecs_content(#[trigger] g.vecs.take(k), g.alloc_seq) == 0
        && vals_content(g.vals.take(k)) == 0 by {
        lemma_empty_prefix(g, k);
    }
    assert(g.vecs.take(ALIGN_CLASSES as int) =~= g.vecs);
    assert(g.vals.take(ALIGN_CLASSES as int) =~= g.vals);
}

proof fn lemma_empty_prefix(g: GuardView, k: int)
    requires
        g.wf(),
        0 <= k <= ALIGN_CLASSES,
        forall|i: int| 0 <= i < ALIGN_CLASSES ==> #[trigger] g.vecs[i].sizes.len() == 0,
        forall|i: int| 0 <= i < ALIGN_CLASSES ==> #[trigger] g.vals[i].content_bytes() == 0,
    ensures
        vecs_content(g.vecs.take(k), g.alloc_seq) == 0,
        vals_content(g.vals.take(k)) == 0,
    decreases k,
{
    if k > 0 {
        lemma_empty_prefix(g, k - 1);
        assert(g.vecs.take(k).drop_last() =~= g.vecs.take(k - 1));
        assert(g.vals.take(k).drop_last() =~= g.vals.take(k - 1));
        assert(g.vecs[k - 1].sizes.len() == 0);
        assert(g.vals[k - 1].content_bytes() == 0);
        assert(g.vecs[k - 1].sizes =~= Seq::<SizeView>::empty());
    }
}

/// What an allocation writes does not change the shape it leaves: it is that
/// of the room reserved, with the bytes written kept.
pub proof fn lemma_after_alloc_shape(g: GuardView, class: nat, size: nat, part: Seq<u8>)
    requires
        g.wf(),
        class < ALIGN_CLASSES,
        part.len() <= size,
    ensures
        g.reserved(class, size, part.len()).same_shape(g.after_alloc(class, size, part)),
{
    let v = g.vals[class as int];
    assert(v.wf());
    let after = v.after_allocate(size);
    let (ch, off) = v.place(size);
    if v.over(size) {
        val::lemma_chunk_bytes_covers(if v.last_cap() * 2 >= size * 2 { v.last_cap() * 2 } else { size * 2 });
        assert(after.chunks[ch as int].len() == v.grown_bytes(size));
    }
    assert(off + part.len() <= after.chunks[ch as int].len());
    let a1 = g.reserved(class, size, part.len());
    let a2 = g.after_alloc(class, size, part);
    assert forall|i: int| 0 <= i < a1.vals.len() implies {
        &&& (#[trigger] a2.vals[i]).last_used == a1.vals[i].last_used
        &&& a2.vals[i].total_content == a1.vals[i].total_content
        &&& a2.vals[i].chunks.len() == a1.vals[i].chunks.len()
        &&& forall|k: int|
            0 <= k < a1.vals[i].chunks.len() ==> (#[trigger] a2.vals[i].chunks[k]).len()
                == a1.vals[i].chunks[k].len()
    } by {
        if i == class {
            assert forall|k: int| 0 <= k < a1.vals[i].chunks.len() implies (#[trigger] a2.vals[i].chunks[k]).len()
                == a1.vals[i].chunks[k].len() by {
                if k == ch {
                    assert(written(after.chunks[k], off as int, part).len() == after.chunks[k].len());
                }
            }
        }
    }
}

/// An allocation adds to the content exactly the bytes written into it.
pub proof fn lemma_after_alloc_content(g: GuardView, class: nat, size: nat, part: Seq<u8>)
    requires
        g.wf(),
        class < ALIGN_CLASSES,
        part.len() <= size,
    ensures
        g.after_alloc(class, size, part).content_bytes() == g.content_bytes() + part.len(),
{
    let v = g.vals[class as int];
    let n = g.after_alloc(class, size, part);
    lemma_vals_content_update(g.vals, class as int, n.vals[class as int]);
    assert(n.vals == g.vals.update(class as int, n.vals[class as int]));
}

/// Replacing the value storage of one class changes the content by the change
/// in that class.
pub proof fn lemma_vals_content_update(vals: Seq<ValView>, i: int, v: ValView)
    requires
        0 <= i < vals.len(),
    ensures
        vals_content(vals.update(i, v)) + vals[i].content_bytes() == vals_content(vals) + v.content_bytes(),
    decreases vals.len(),
{
    let u = vals.update(i, v);
    if i == vals.len() - 1 {
        assert(u.drop_last() =~= vals.drop_last());
    } else {
        assert(u.drop_last() =~= vals.drop_last().update(i, v));
        lemma_vals_content_update(vals.drop_last(), i, v);
    }
}

/// The content of the value storage of alignment classes.
pub open spec fn vals_content(vals: Seq<ValView>) -> nat
    decreases vals.len(),
{
    if vals.len() == 0 {
        0
    } else {
        vals_content(vals.drop_last()) + vals.last().content_bytes()
    }
}

/// The size of the chunks of the value storage of alignment classes.
pub open spec fn vals_capacity(vals: Seq<ValView>) -> nat
    decreases vals.len(),
{
    if vals.len() == 0 {
        0
    } else {
        vals_capacity(vals.drop_last()) + spec_sum_lens(vals.last().chunks)
    }
}

/// The content of the vectors of alignment classes in allocation sequence `seq`.
pub open spec fn vecs_content(vecs: Seq<AlignView>, seq: nat) -> nat
    decreases vecs.len(),
{
    if vecs.len() == 0 {
        0
    } else {
        vecs_content(vecs.drop_last(), seq) + vecs.last().content_in(seq)
    }
}

/// The bytes held by the vectors of alignment classes.
pub open spec fn vecs_held(vecs: Seq<AlignView>) -> nat
    decreases vecs.len(),
{
    if vecs.len() == 0 {
        0
    } else {
        vecs_held(vecs.drop_last()) + vecs.last().held_bytes()
    }
}

/// The number of vector chunks of alignment classes.
pub open spec fn vecs_chunks(vecs: Seq<AlignView>) -> nat
    decreases vecs.len(),
{
    if vecs.len() == 0 {
        0
    } else {
        vecs_chunks(vecs.drop_last()) + vecs::sizes_chunks(vecs.last().sizes)
    }
}

/// The number of vector slots of alignment classes.
pub open spec fn vecs_slots(vecs: Seq<AlignView>) -> nat
    decreases vecs.len(),
{
    if vecs.len() == 0 {
        0
    } else {
        vecs_slots(vecs.drop_last()) + vecs::sizes_slots(vecs.last().sizes)
    }
}

/// The number of vector slots of alignment classes handed out in allocation
/// sequence `seq`.
pub open spec fn vecs_used(vecs: Seq<AlignView>, seq: nat) -> nat
    decreases vecs.len(),
{
    if vecs.len() == 0 {
        0
    } else {
        vecs_used(vecs.drop_last(), seq) + vecs::sizes_used(vecs.last().sizes, seq)
    }
}

/// Short-lived storage for values, slices and vectors of plain data, split by
/// alignment. Values and slices are laid in chunks of bytes; vectors live in
/// slots that keep their capacity from one allocation sequence to the next.
pub struct ArenaGuard {
    pub alloc_seq: usize,
    vecs: Vec<vecs::ByAlign>,
    vals: Vec<val::ByAlign>,
}

impl View for ArenaGuard {
    type V = GuardView;

    closed spec fn view(&self) -> GuardView {
        GuardView {
            alloc_seq: self.alloc_seq as nat,
            vecs: self.vecs@.map_values(|b: vecs::ByAlign| b@),
            vals: self.vals@.map_values(|b: val::ByAlign| b@),
        }
    }
}


/// The bytes of `elems`, laid after each other.
pub open spec fn bytes_of<T: Plain>(elems: Seq<T>) -> Seq<u8>
    decreases elems.len(),
{
    if elems.len() == 0 {
        Seq::empty()
    } else {
        bytes_of(elems.drop_last()) + elems.last().spec_to_bytes()
    }
}

pub proof fn lemma_bytes_of<T: Plain>(elems: Seq<T>)
    ensures
        bytes_of(elems).len() == elems.len() * T::spec_size(),
        forall|i: int|
            0 <= i < elems.len() ==> #[trigger] read_at::<T>(bytes_of(elems), i * T::spec_size())
                == elems[i],
    decreases elems.len(),
{
    if elems.len() > 0 {
        let init = elems.drop_last();
        let last = elems.last();
        lemma_bytes_of(init);
        T::lemma_roundtrip(last);
        let s = T::spec_size();
        let b = bytes_of(elems);
        let bi = bytes_of(init);
        assert(b =~= bi + last.spec_to_bytes());
        assert(init.len() * s + s == elems.len() * s) by (nonlinear_arith)
            requires
                init.len() + 1 == elems.len(),
        ;
        assert(bi.len() == init.len() * s);
        assert(b.len() == init.len() * s + s);
        assert forall|i: int| 0 <= i < elems.len() implies #[trigger] read_at::<T>(b, i * s) == elems[i] by {
            if i < init.len() {
                assert(i * s + s <= init.len() * s) by (nonlinear_arith)
                    requires
                        i < init.len(),
                        s >= 0,
                ;
                assert(i * s >= 0) by (nonlinear_arith)
                    requires
                        i >= 0,
                        s >= 0,
                ;
                assert(b.subrange(i * s, i * s + s) =~= bi.subrange(i * s, i * s + s));
                assert(read_at::<T>(bi, i * s) == init[i]);
                assert(elems[i] == init[i]);
            } else {
                assert(i == init.len());
                assert(i * s == init.len() * s);
                assert(b.subrange(i * s, i * s + s) =~= last.spec_to_bytes());
            }
        }
    }
}

/// The values laid in `chunk` from `off` on read back as `elems`.
pub proof fn lemma_read_laid<T: Plain>(chunk: Seq<u8>, off: int, elems: Seq<T>)
    requires
        off >= 0,
        off + bytes_of(elems).len() <= chunk.len(),
        chunk.subrange(off, off + bytes_of(elems).len()) == bytes_of(elems),
    ensures
        forall|i: int|
            0 <= i < elems.len() ==> #[trigger] read_at::<T>(chunk, off + i * T::spec_size())
                == elems[i],
{
    lemma_bytes_of(elems);
    let s = T::spec_size();
    let b = bytes_of(elems);
    assert forall|i: int| 0 <= i < elems.len() implies #[trigger] read_at::<T>(chunk, off + i * s)
        == elems[i] by {
        assert(i * s + s <= elems.len() * s) by (nonlinear_arith)
            requires
                i < elems.len(),
        ;
        assert(i * s >= 0) by (nonlinear_arith)
            requires
                i >= 0,
        ;
        assert(chunk.subrange(off + i * s, off + i * s + s) =~= b.subrange(i * s, i * s + s));
        assert(read_at::<T>(b, i * s) == elems[i]);
    }
}

/// An allocation in use lies within its chunk.
pub proof fn lemma_in_use_bounds(g: GuardView, class: nat, chunk: nat, offset: nat, len: nat)
    requires
        g.wf(),
        g.in_use(class, chunk, offset, len),
    ensures
        offset + len <= g.vals[class as int].chunks[chunk as int].len(),
{
    assert(g.vals[class as int].wf());
}

/// Builds the bytes of `elems[..n]`.
fn collect_bytes<T: Plain>(elems: &[T], n: usize) -> (b: Vec<u8>)
    requires
        n <= elems@.len(),
        n * T::spec_size() <= usize::MAX,
    ensures
        b@ == bytes_of(elems@.take(n as int)),
{
    let mut b: Vec<u8> = Vec::new();
    let mut i: usize = 0;
    while i < n
        invariant
            i <= n,
            n <= elems@.len(),
            n * T::spec_size() <= usize::MAX,
            b@ == bytes_of(elems@.take(i as int)),
        decreases n - i,
    {
        let mut eb = elems[i].to_bytes();
        proof {
            lemma_bytes_of(elems@.take(i as int));
            assert(elems@.take(i as int + 1).drop_last() =~= elems@.take(i as int));
            assert(elems@.take(i as int + 1).last() == elems@[i as int]);
        }
        b.append(&mut eb);
        i = i + 1;
    }
    b
}

/// The allocations of `old` are still in use in `new` and hold the same bytes.
pub open spec fn keeps_allocations(old: GuardView, new: GuardView) -> bool {
    forall|class: nat, chunk: nat, offset: nat, len: nat|
        #[trigger] old.in_use(class, chunk, offset, len) ==> new.in_use(class, chunk, offset, len)
            && new.vals[class as int].chunks[chunk as int].subrange(offset as int, (offset + len) as int)
            == old.vals[class as int].chunks[chunk as int].subrange(offset as int, (offset + len) as int)
}

/// The vector slots of `old` still exist in `new` and hold the same bytes, but
/// for slot `slot` of size `n_size` in class `class`.
pub open spec fn keeps_vectors_but(old: GuardView, new: GuardView, class: nat, n_size: nat, slot: nat) -> bool {
    forall|c: int, n: int, k: int|
        0 <= c < ALIGN_CLASSES && 0 <= n < old.vecs[c].sizes.len() && 0 <= k < old.vecs[c].sizes[n].slots.len()
            && !(c == class && n == n_size && k == slot) ==> n < new.vecs[c].sizes.len()
            && k < new.vecs[c].sizes[n].slots.len() && #[trigger] new.vecs[c].sizes[n].slots[k]
            == old.vecs[c].sizes[n].slots[k]
}

/// Reading back a value pushed onto bytes that hold whole values.
pub proof fn lemma_push_then_read<T: Plain>(bytes: Seq<u8>, v: T)
    requires
        bytes.len() % T::spec_size() == 0,
    ensures
        read_at::<T>(bytes + v.spec_to_bytes(), bytes.len() as int) == v,
        (bytes + v.spec_to_bytes()).len() / T::spec_size() == bytes.len() / T::spec_size() + 1,
        (bytes + v.spec_to_bytes()).len() % T::spec_size() == 0,
        forall|i: int|
            0 <= i && (i + 1) * T::spec_size() <= bytes.len() ==> #[trigger] read_at::<T>(
                bytes + v.spec_to_bytes(),
                i * T::spec_size(),
            ) == read_at::<T>(bytes, i * T::spec_size()),
{
    T::lemma_roundtrip(v);
    let s = T::spec_size();
    let nb = bytes + v.spec_to_bytes();
    assert(nb.subrange(bytes.len() as int, (bytes.len() + s) as int) =~= v.spec_to_bytes());
    assert((bytes.len() + s) / s == bytes.len() / s + 1) by (nonlinear_arith)
        requires
            s >= 1,
            bytes.len() % s == 0,
    ;
    assert((bytes.len() + s) % s == 0) by (nonlinear_arith)
        requires
            s >= 1,
            bytes.len() % s == 0,
    ;
    assert forall|i: int| 0 <= i && (i + 1) * s <= bytes.len() implies #[trigger] read_at::<T>(nb, i * s)
        == read_at::<T>(bytes, i * s) by {
        assert(i * s + s == (i + 1) * s) by (nonlinear_arith);
        assert(i * s >= 0) by (nonlinear_arith)
            requires
                i >= 0,
                s >= 1,
        ;
        assert(nb.subrange(i * s, i * s + s) =~= bytes.subrange(i * s, i * s + s));
    }
}

/// Allocating `size` bytes in class `class`, writing `part` at the start of the
/// room and giving back what `part` does not fill keeps every earlier allocation,
/// and the new one holds `part`.
pub proof fn lemma_alloc_write(old: GuardView, new: GuardView, class: nat, size: nat, part: Seq<u8>)
    requires
        old.wf(),
        class < ALIGN_CLASSES,
        part.len() <= size,
        old.vals[class as int].last_used + size <= usize::MAX,
        new.vecs == old.vecs,
        new.alloc_seq == old.alloc_seq,
        ({
            let v = old.vals[class as int];
            let after = v.after_allocate(size);
            let (ch, off) = v.place(size);
            &&& ch < after.chunks.len()
            &&& off + size <= after.chunks[ch as int].len()
            &&& after.last_used >= size
            &&& new.vals == old.vals.update(
                class as int,
                ValView {
                    chunks: after.chunks.update(ch as int, written(after.chunks[ch as int], off as int, part)),
                    last_used: (after.last_used - (size - part.len())) as nat,
                    ..after
                },
            )
        }),
    ensures
        new.wf(),
        keeps_allocations(old, new),
        new.in_use(class, old.vals[class as int].place(size).0, old.vals[class as int].place(size).1, part.len()),
        new.vals[class as int].chunks[old.vals[class as int].place(size).0 as int].subrange(
            old.vals[class as int].place(size).1 as int,
            (old.vals[class as int].place(size).1 + part.len()) as int,
        ) == part,
{
    let v = old.vals[class as int];
    let after = v.after_allocate(size);
    let (ch, off) = v.place(size);
    let nv = new.vals[class as int];
    assert(v.wf());
    assert(nv.chunks.len() == after.chunks.len());
    assert(nv.chunks[ch as int] =~= written(after.chunks[ch as int], off as int, part));
    assert(nv.chunks[ch as int].subrange(off as int, (off + part.len()) as int) =~= part);
    if v.over(size) {
        assert(ch == nv.chunks.len() - 1);
        assert(nv.last_used == part.len());
    } else {
        assert(ch == nv.chunks.len() - 1);
        assert(nv.last_used == v.last_used + part.len());
        assert(off == v.last_used);
    }
    assert forall|i: int| 0 <= i < ALIGN_CLASSES implies #[trigger] new.vals[i].wf() by {
        if i == class {
            assert(nv.chunks.last().len() == after.chunks.last().len());
        }
    }
    assert forall|c: nat, chunk: nat, offset: nat, len: nat|
        #[trigger] old.in_use(c, chunk, offset, len) implies new.in_use(c, chunk, offset, len)
            && new.vals[c as int].chunks[chunk as int].subrange(offset as int, (offset + len) as int)
            == old.vals[c as int].chunks[chunk as int].subrange(offset as int, (offset + len) as int) by {
        if c == class {
            assert(chunk < v.chunks.len());
            assert(after.chunks[chunk as int] == v.chunks[chunk as int]);
            if chunk == ch {
                assert(!v.over(size));
                assert(chunk == v.chunks.len() - 1);
                assert(offset + len <= off);
                assert(nv.chunks[chunk as int].subrange(offset as int, (offset + len) as int) =~= v.chunks[chunk as int].subrange(offset as int, (offset + len) as int));
                assert(new.in_use(c, chunk, offset, len));
            } else {
                assert(nv.chunks[chunk as int] == v.chunks[chunk as int]);
                if v.over(size) {
                    assert(nv.chunks.len() == v.chunks.len() + 1);
                    assert(chunk != nv.chunks.len() - 1);
                    if chunk == v.chunks.len() - 1 {
                        assert(offset + len <= v.last_used);
                    }
                    assert(offset + len <= v.chunks[chunk as int].len());
                } else {
                    assert(nv.chunks.len() == v.chunks.len());
                }
                assert(new.in_use(c, chunk, offset, len));
            }
        } else {
            assert(new.vals[c as int] == old.vals[c as int]);
        }
    }
}

/// An index below the number of whole values in `len` bytes leaves room for
/// the value it points at.
pub proof fn lemma_index_fits(len: nat, s: nat, i: int)
    requires
        s >= 1,
        len % s == 0,
        0 <= i < len / s,
    ensures
        0 <= i * s,
        i * s + s <= len,
{
    assert(i * s + s <= len) by (nonlinear_arith)
        requires
            s >= 1,
            len % s == 0,
            0 <= i < len / s,
    ;
    assert(0 <= i * s) by (nonlinear_arith)
        requires
            s >= 1,
            0 <= i,
    ;
}

/// Appending the bytes of `extra` to bytes that hold whole values keeps the
/// values there and adds those of `extra` after them.
pub proof fn lemma_append_reads<T: Plain>(bytes: Seq<u8>, extra: Seq<T>)
    requires
        bytes.len() % T::spec_size() == 0,
    ensures
        (bytes + bytes_of(extra)).len() % T::spec_size() == 0,
        (bytes + bytes_of(extra)).len() / T::spec_size() == bytes.len() / T::spec_size() + extra.len(),
        forall|i: int|
            0 <= i < bytes.len() / T::spec_size() ==> #[trigger] read_at::<T>(
                bytes + bytes_of(extra),
                i * T::spec_size(),
            ) == read_at::<T>(bytes, i * T::spec_size()),
        forall|j: int|
            0 <= j < extra.len() ==> #[trigger] read_at::<T>(
                bytes + bytes_of(extra),
                (bytes.len() / T::spec_size() + j) * T::spec_size(),
            ) == extra[j],
{
    T::lemma_roundtrip(T::spec_from_bytes(Seq::empty()));
    lemma_bytes_of(extra);
    let s = T::spec_size();
    let n = bytes.len() / s;
    let nb = bytes + bytes_of(extra);
    assert(n * s == bytes.len()) by (nonlinear_arith)
        requires
            s >= 1,
            bytes.len() % s == 0,
            n == bytes.len() / s,
    ;
    assert(nb.len() == (n + extra.len()) * s) by (nonlinear_arith)
        requires
            nb.len() == bytes.len() + extra.len() * s,
            n * s == bytes.len(),
    ;
    assert(nb.len() % s == 0 && nb.len() / s == n + extra.len()) by (nonlinear_arith)
        requires
            s >= 1,
            nb.len() == (n + extra.len()) * s,
    ;
    assert(nb.subrange(bytes.len() as int, nb.len() as int) =~= bytes_of(extra));
    lemma_read_laid::<T>(nb, bytes.len() as int, extra);
    assert forall|j: int| 0 <= j < extra.len() implies #[trigger] read_at::<T>(nb, (n + j) * s) == extra[j] by {
        assert((n + j) * s == bytes.len() + j * s) by (nonlinear_arith)
            requires
                n * s == bytes.len(),
        ;
    }
    assert forall|i: int| 0 <= i < n implies #[trigger] read_at::<T>(nb, i * s) == read_at::<T>(bytes, i * s) by {
        lemma_index_fits(bytes.len(), s, i);
        assert(nb.subrange(i * s, i * s + s) =~= bytes.subrange(i * s, i * s + s));
    }
}

/// Writing the bytes of `v` over the value at index `i` changes that value
/// only.
pub proof fn lemma_write_reads<T: Plain>(bytes: Seq<u8>, i: int, v: T)
    requires
        bytes.len() % T::spec_size() == 0,
        0 <= i < bytes.len() / T::spec_size(),
    ensures
        written(bytes, i * T::spec_size(), v.spec_to_bytes()).len() == bytes.len(),
        read_at::<T>(written(bytes, i * T::spec_size(), v.spec_to_bytes()), i * T::spec_size()) == v,
        forall|j: int|
            0 <= j < bytes.len() / T::spec_size() && j != i ==> #[trigger] read_at::<T>(
                written(bytes, i * T::spec_size(), v.spec_to_bytes()),
                j * T::spec_size(),
            ) == read_at::<T>(bytes, j * T::spec_size()),
{
    T::lemma_roundtrip(v);
    let s = T::spec_size();
    lemma_index_fits(bytes.len(), s, i);
    let w = written(bytes, i * s, v.spec_to_bytes());
    assert(w.subrange(i * s, i * s + s) =~= v.spec_to_bytes());
    assert forall|j: int| 0 <= j < bytes.len() / s && j != i implies #[trigger] read_at::<T>(w, j * s)
        == read_at::<T>(bytes, j * s) by {
        lemma_index_fits(bytes.len(), s, j);
        if j < i {
            assert(j * s + s <= i * s) by (nonlinear_arith)
                requires
                    j < i,
                    s >= 1,
            ;
        } else {
            assert(i * s + s <= j * s) by (nonlinear_arith)
                requires
                    j > i,
                    s >= 1,
            ;
        }
        assert(w.subrange(j * s, j * s + s) =~= bytes.subrange(j * s, j * s + s));
    }
}

/// Starting a new allocation sequence empties the arena: once reset to a
/// sequence later than any its vectors were handed out in, nothing counts as
/// content and no vector slot as used.
pub proof fn lemma_reset_empties(g: GuardView, seq: nat)
    requires
        g.wf(),
        g.handed_out_before(seq),
    ensures
        g.after_reset(seq).content_bytes() == 0,
        vecs_used(g.after_reset(seq).vecs, seq) == 0,
{
    let r = g.after_reset(seq);
    assert forall|k: int| 0 <= k <= ALIGN_CLASSES implies vecs_content(#[trigger] g.vecs.take(k), seq) == 0
        && vecs_used(g.vecs.take(k), seq) == 0 by {
        lemma_vecs_empty_prefix(g, seq, k);
    }
    assert(g.vecs.take(ALIGN_CLASSES as int) =~= g.vecs);
    assert forall|k: int| 0 <= k <= ALIGN_CLASSES implies vals_content(#[trigger] r.vals.take(k)) == 0 by {
        lemma_vals_empty_prefix(g, seq, k);
    }
    assert(r.vals.take(ALIGN_CLASSES as int) =~= r.vals);
}

proof fn lemma_vecs_empty_prefix(g: GuardView, seq: nat, k: int)
    requires
        g.wf(),
        0 <= k <= ALIGN_CLASSES,
        forall|c: int, n: int|
            0 <= c < ALIGN_CLASSES && 0 <= n < g.vecs[c].sizes.len() ==> #[trigger] g.vecs[c].sizes[n].seq
                < seq,
    ensures
        vecs_content(g.vecs.take(k), seq) == 0,
        vecs_used(g.vecs.take(k), seq) == 0,
    decreases k,
{
    if k > 0 {
        assert(g.vecs.take(k).drop_last() =~= g.vecs.take(k - 1));
        lemma_vecs_empty_prefix(g, seq, k - 1);
        let sizes = g.vecs[k - 1].sizes;
        assert forall|n: int| 0 <= n < sizes.len() implies #[trigger] sizes[n].seq < seq by {
            assert(g.vecs[k - 1].sizes[n].seq < seq);
        }
        vecs::lemma_no_content_before(sizes, seq);
    }
}

proof fn lemma_vals_empty_prefix(g: GuardView, seq: nat, k: int)
    requires
        0 <= k <= g.vals.len(),
    ensures
        vals_content(g.after_reset(seq).vals.take(k)) == 0,
    decreases k,
{
    if k > 0 {
        let r = g.after_reset(seq);
        assert(r.vals.take(k).drop_last() =~= r.vals.take(k - 1));
        lemma_vals_empty_prefix(g, seq, k - 1);
        assert(r.vals[k - 1] == g.vals[k - 1].after_reset());
    }
}

/// Allocating never disturbs what was allocated before: a value or a slice
/// live before an allocation is still live after it and reads the same.
pub proof fn lemma_allocation_keeps_values<T: Plain>(old: GuardView, new: GuardView, v: ValRef<T>, sl: SliceRef<T>)
    requires
        old.wf(),
        new.wf(),
        keeps_allocations(old, new),
    ensures
        old.val_live(v) ==> new.val_live(v) && new.val_of(v) == old.val_of(v),
        old.slice_live(sl) ==> new.slice_live(sl) && forall|i: int|
            0 <= i < sl.len() ==> #[trigger] new.slice_elem(sl, i) == old.slice_elem(sl, i),
{
    let s = T::spec_size();
    if old.val_live(v) {
        assert(old.in_use(v.class(), v.chunk(), v.offset(), s));
        let oc = old.vals[v.class() as int].chunks[v.chunk() as int];
        let nc = new.vals[v.class() as int].chunks[v.chunk() as int];
        assert(nc.subrange(v.offset() as int, (v.offset() + s) as int) == oc.subrange(v.offset() as int, (v.offset() + s) as int));
    }
    if old.slice_live(sl) {
        let len = sl.len() * s;
        assert(old.in_use(sl.class(), sl.chunk(), sl.offset(), len));
        let oc = old.vals[sl.class() as int].chunks[sl.chunk() as int];
        let nc = new.vals[sl.class() as int].chunks[sl.chunk() as int];
        let off = sl.offset() as int;
        lemma_in_use_bounds(old, sl.class(), sl.chunk(), sl.offset(), len);
        lemma_in_use_bounds(new, sl.class(), sl.chunk(), sl.offset(), len);
        assert(nc.subrange(off, off + len) == oc.subrange(off, off + len));
        assert forall|i: int| 0 <= i < sl.len() implies #[trigger] new.slice_elem(sl, i) == old.slice_elem(sl, i) by {
            assert(i * s + s <= sl.len() * s) by (nonlinear_arith)
                requires
                    i < sl.len(),
            ;
            assert(0 <= i * s) by (nonlinear_arith)
                requires
                    0 <= i,
            ;
            assert(nc.subrange(off + i * s, off + i * s + s) =~= nc.subrange(off, off + len).subrange(i * s, i * s + s));
            assert(oc.subrange(off + i * s, off + i * s + s) =~= oc.subrange(off, off + len).subrange(i * s, i * s + s));
        }
    }
}

impl ArenaGuard {
    pub closed spec fn wf(&self) -> bool {
        &&& self@.wf()
        &&& self.vals@.len() == ALIGN_CLASSES
        &&& forall|i: int| 0 <= i < ALIGN_CLASSES ==> #[trigger] self.vals@[i].wf()
    }

    /// A well-formed guard has a well-formed state.
    pub proof fn lemma_wf(&self)
        requires
            self.wf(),
        ensures
            self@.wf(),
    {
    }

    /// An arena in allocation sequence 1 with nothing allocated.
    pub fn new() -> (g: ArenaGuard)
        ensures
            g.wf(),
            g@.wf(),
            g@.alloc_seq == 1,
            forall|i: int|
                0 <= i < ALIGN_CLASSES ==> #[trigger] g@.vals[i] == (ValView {
                    chunks: seq![val::zeros(16)],
                    last_used: 0,
                    total_content: 0,
                }),
            forall|i: int| 0 <= i < ALIGN_CLASSES ==> #[trigger] g@.vals[i].chunks.len() == 1,
            forall|i: int| 0 <= i < ALIGN_CLASSES ==> #[trigger] g@.vals[i].last_used == 0,
            forall|i: int| 0 <= i < ALIGN_CLASSES ==> #[trigger] g@.vecs[i].sizes.len() == 0,
            g@.content_bytes() == 0,
    {
        let mut vecs: Vec<vecs::ByAlign> = Vec::new();
        let mut vals: Vec<val::ByAlign> = Vec::new();
        let mut k: usize = 0;
        while k < ALIGN_CLASSES
            invariant
                k <= ALIGN_CLASSES,
                vecs@.len() == k,
                vals@.len() == k,
                forall|i: int| #![trigger vecs@[i]] 0 <= i < k ==> vecs@[i]@.wf() && vecs@[i]@.sizes.len() == 0,
                forall|i: int|
                    #![trigger vals@[i]]
                    0 <= i < k ==> vals@[i].wf() && vals@[i]@ == (ValView {
                        chunks: seq![val::zeros(16)],
                        last_used: 0,
                        total_content: 0,
                    }),
            decreases ALIGN_CLASSES - k,
        {
            vecs.push(vecs::ByAlign::new());
            let v = val::ByAlign::new();
            proof {
                v.lemma_wf();
            }
            vals.push(v);
            k = k + 1;
        }
        let g = ArenaGuard { alloc_seq: 1, vecs, vals };
        proof {
            assert forall|i: int| 0 <= i < ALIGN_CLASSES implies #[trigger] g@.vals[i].wf()
                && g@.vals[i] == (ValView { chunks: seq![val::zeros(16)], last_used: 0, total_content: 0 }) by {
                assert(g.vals@[i] == vals@[i]);
                g.vals@[i].lemma_wf();
                assert(g@.vals[i] == g.vals@[i]@);
            }
            assert forall|i: int| 0 <= i < ALIGN_CLASSES implies #[trigger] g@.vecs[i].wf()
                && g@.vecs[i].sizes.len() == 0 by {
                assert(g@.vecs[i] == g.vecs@[i]@);
            }
            lemma_empty_content(g@);
        }
        g
    }

    /// The value `r` refers to.
    pub fn val_get<T: Plain>(&self, r: &ValRef<T>) -> (v: T)
        requires
            self.wf(),
            self@.val_live(*r),
        ensures
            v == self@.val_of(*r),
    {
        proof {
            lemma_in_use_bounds(self@, r.class(), r.chunk(), r.offset(), T::spec_size());
            assert(self@.vals[r.class() as int] == self.vals@[r.class() as int]@);
        }
        let bytes = self.vals[r.class].read_bytes(r.chunk, r.offset, T::size());
        T::from_bytes(bytes.as_slice())
    }

    /// Overwrites the value `r` refers to.
    pub fn val_set<T: Plain>(&mut self, r: &ValRef<T>, v: T)
        requires
            old(self).wf(),
            old(self)@.val_live(*r),
        ensures
            final(self).wf(),
            final(self)@.val_of(*r) == v,
            old(self)@.same_shape(final(self)@),
            final(self)@.vecs == old(self)@.vecs,
            final(self)@.alloc_seq == old(self)@.alloc_seq,
            final(self)@.vals == old(self)@.vals.update(
                r.class() as int,
                ValView {
                    chunks: old(self)@.vals[r.class() as int].chunks.update(
                        r.chunk() as int,
                        written(
                            old(self)@.vals[r.class() as int].chunks[r.chunk() as int],
                            r.offset() as int,
                            v.spec_to_bytes(),
                        ),
                    ),
                    ..old(self)@.vals[r.class() as int]
                },
            ),
    {
        let bytes = v.to_bytes();
        proof {
            T::lemma_roundtrip(v);
            assert(old(self)@.vals[r.class() as int].wf());
        }
        self.vals[r.class].write_bytes(r.chunk, r.offset, bytes.as_slice());
        proof {
            let vv = old(self)@.vals[r.class() as int];
            let nv = ValView {
                chunks: vv.chunks.update(r.chunk() as int, written(vv.chunks[r.chunk() as int], r.offset() as int, bytes@)),
                ..vv
            };
            assert(self@.vals =~= old(self)@.vals.update(r.class() as int, nv));
            lemma_in_use_bounds(old(self)@, r.class(), r.chunk(), r.offset(), T::spec_size());
            assert(nv.chunks[r.chunk() as int].len() == vv.chunks[r.chunk() as int].len());
            assert(self@.vals[r.class() as int].chunks[r.chunk() as int].subrange(
                r.offset() as int,
                (r.offset() + T::spec_size()) as int,
            ) =~= bytes@);
            assert forall|i: int| 0 <= i < ALIGN_CLASSES implies #[trigger] self.vals@[i].wf() by {
                if i != r.class() {
                    assert(self.vals@[i] == old(self).vals@[i]);
                }
            }
            assert forall|i: int| 0 <= i < ALIGN_CLASSES implies #[trigger] self@.vals[i].wf() by {
                if i == r.class() {
                    assert(vv.wf());
                } else {
                    assert(self@.vals[i] == old(self)@.vals[i]);
                }
            }
        }
    }

    /// Copies `slice` into the arena and returns a reference to the copy.
    pub fn alloc_slice<T: Plain>(&mut self, slice: &[T]) -> (r: SliceRef<T>)
        requires
            old(self).wf(),
            slice@.len() * T::spec_size() <= usize::MAX,
            old(self)@.can_alloc_bytes(align_class(T::spec_align()), slice@.len() * T::spec_size()),
        ensures
            final(self).wf(),
            final(self)@.slice_live(r),
            r.len() == slice@.len(),
            r.class() == align_class(T::spec_align()),
            forall|i: int| 0 <= i < slice@.len() ==> #[trigger] final(self)@.slice_elem(r, i) == slice@[i],
            (r.chunk(), r.offset()) == old(self)@.vals[r.class() as int].place(slice@.len() * T::spec_size()),
            old(self)@.is_fresh(r.class(), r.chunk(), r.offset()),
            final(self)@ == old(self)@.after_alloc(r.class(), slice@.len() * T::spec_size(), bytes_of(slice@)),
            bytes_of(slice@).len() == slice@.len() * T::spec_size(),
            old(self)@.reserved(r.class(), slice@.len() * T::spec_size(), slice@.len() * T::spec_size()).same_shape(
                final(self)@,
            ),
            final(self)@.content_bytes() == old(self)@.content_bytes() + slice@.len() * T::spec_size(),
            keeps_values_of::<T>(old(self)@, final(self)@),
            keeps_allocations(old(self)@, final(self)@),
            final(self)@.vecs == old(self)@.vecs,
            final(self)@.alloc_seq == old(self)@.alloc_seq,
    {
        let n = slice.len();
        assert(slice@.take(n as int) =~= slice@);
        let r = self.alloc_items(n, slice, n);
        r
    }

    /// Copies the first `items.len()` items, at most `claimed_len`, into room
    /// reserved for `claimed_len` items, gives back the room left unused, and
    /// returns a reference to the copy. This is how an iterator that claims
    /// `claimed_len` items and yields `items` is collected.
    pub fn alloc_iter<T: Plain>(&mut self, claimed_len: usize, items: &[T]) -> (r: SliceRef<T>)
        requires
            old(self).wf(),
            claimed_len * T::spec_size() <= usize::MAX,
            old(self)@.can_alloc_bytes(align_class(T::spec_align()), (claimed_len * T::spec_size()) as nat),
        ensures
            final(self).wf(),
            final(self)@.slice_live(r),
            r.len() == (if items@.len() < claimed_len { items@.len() } else { claimed_len as nat }),
            r.class() == align_class(T::spec_align()),
            forall|i: int| 0 <= i < r.len() ==> #[trigger] final(self)@.slice_elem(r, i) == items@[i],
            (r.chunk(), r.offset()) == old(self)@.vals[r.class() as int].place((claimed_len * T::spec_size()) as nat),
            old(self)@.is_fresh(r.class(), r.chunk(), r.offset()),
            final(self)@ == old(self)@.after_alloc(
                r.class(),
                (claimed_len * T::spec_size()) as nat,
                bytes_of(items@.take(r.len() as int)),
            ),
            bytes_of(items@.take(r.len() as int)).len() == r.len() * T::spec_size(),
            old(self)@.reserved(r.class(), (claimed_len * T::spec_size()) as nat, r.len() * T::spec_size()).same_shape(
                final(self)@,
            ),
            final(self)@.content_bytes() == old(self)@.content_bytes() + r.len() * T::spec_size(),
            keeps_values_of::<T>(old(self)@, final(self)@),
            keeps_allocations(old(self)@, final(self)@),
            final(self)@.vecs == old(self)@.vecs,
            final(self)@.alloc_seq == old(self)@.alloc_seq,
    {
        let written = if items.len() < claimed_len { items.len() } else { claimed_len };
        self.alloc_items(claimed_len, items, written)
    }

    /// Reserves room for `reserved` items, writes the first `n` of `items` there,
    /// and gives the rest of the room back.
    fn alloc_items<T: Plain>(&mut self, reserved: usize, items: &[T], n: usize) -> (r: SliceRef<T>)
        requires
            old(self).wf(),
            n <= reserved,
            n <= items@.len(),
            reserved * T::spec_size() <= usize::MAX,
            old(self)@.can_alloc_bytes(align_class(T::spec_align()), (reserved * T::spec_size()) as nat),
        ensures
            final(self).wf(),
            final(self)@.slice_live(r),
            r.len() == n,
            r.class() == align_class(T::spec_align()),
            forall|i: int| 0 <= i < n ==> #[trigger] final(self)@.slice_elem(r, i) == items@[i],
            (r.chunk(), r.offset()) == old(self)@.vals[r.class() as int].place((reserved * T::spec_size()) as nat),
            old(self)@.is_fresh(r.class(), r.chunk(), r.offset()),
            final(self)@ == old(self)@.after_alloc(
                r.class(),
                (reserved * T::spec_size()) as nat,
                bytes_of(items@.take(n as int)),
            ),
            bytes_of(items@.take(n as int)).len() == n * T::spec_size(),
            old(self)@.reserved(r.class(), (reserved * T::spec_size()) as nat, (n * T::spec_size()) as nat).same_shape(
                final(self)@,
            ),
            final(self)@.content_bytes() == old(self)@.content_bytes() + n * T::spec_size(),
            keeps_values_of::<T>(old(self)@, final(self)@),
            keeps_allocations(old(self)@, final(self)@),
            final(self)@.vecs == old(self)@.vecs,
            final(self)@.alloc_seq == old(self)@.alloc_seq,
    {
        let size = T::size();
        let class = get_align_class(T::align());
        proof {
            assert(n * size <= reserved * size) by (nonlinear_arith)
                requires
                    n <= reserved,
            ;
        }
        let byte_size = reserved * size;
        let (chunk, offset) = self.vals[class].allocate_val(byte_size);
        let bytes = collect_bytes(items, n);
        proof {
            lemma_bytes_of(items@.take(n as int));
            assert(n * size <= byte_size);
        }
        self.vals[class].write_bytes(chunk, offset, bytes.as_slice());
        if n < reserved {
            self.vals[class].shrink_val(byte_size - n * size);
        }
        proof {
            let v = old(self)@.vals[class as int];
            let after = v.after_allocate(byte_size as nat);
            let cur = after.chunks[chunk as int];
            let placed = ValView {
                chunks: after.chunks.update(chunk as int, written(cur, offset as int, bytes@)),
                last_used: (after.last_used - (byte_size - bytes@.len())) as nat,
                ..after
            };
            assert(self@.vals =~= old(self)@.vals.update(class as int, placed));
            assert(self@ == old(self)@.after_alloc(class as nat, byte_size as nat, bytes@));
            lemma_alloc_write(old(self)@, self@, class as nat, byte_size as nat, bytes@);
            lemma_place_is_fresh(old(self)@, class as nat, byte_size as nat);
            lemma_after_alloc_content(old(self)@, class as nat, byte_size as nat, bytes@);
            lemma_after_alloc_shape(old(self)@, class as nat, byte_size as nat, bytes@);
            assert forall|i: int| 0 <= i < ALIGN_CLASSES implies #[trigger] self.vals@[i].wf() by {
                if i != class {
                    assert(self.vals@[i] == old(self).vals@[i]);
                }
            }
            lemma_bytes_of(items@.take(n as int));
            lemma_read_laid::<T>(self@.vals[class as int].chunks[chunk as int], offset as int, items@.take(n as int));
            let r = SliceRef::<T> { class, chunk, offset, len: n, _marker: PhantomData };
            assert forall|i: int| 0 <= i < n implies #[trigger] self@.slice_elem(r, i) == items@[i] by {
                assert(items@.take(n as int)[i] == items@[i]);
            }
        }
        proof {
            self.lemma_wf();
            old(self).lemma_wf();
            lemma_keeps_values::<T>(old(self)@, self@);
        }
        SliceRef { class, chunk, offset, len: n, _marker: PhantomData }
    }

    /// Stores `val` and returns a reference to it.
    pub fn alloc_val<T: Plain>(&mut self, val: T) -> (r: ValRef<T>)
        requires
            old(self).wf(),
            old(self)@.can_alloc_bytes(align_class(T::spec_align()), T::spec_size()),
        ensures
            final(self).wf(),
            final(self)@.val_live(r),
            final(self)@.val_of(r) == val,
            r.class() == align_class(T::spec_align()),
            (r.chunk(), r.offset()) == old(self)@.vals[r.class() as int].place(T::spec_size()),
            old(self)@.is_fresh(r.class(), r.chunk(), r.offset()),
            final(self)@ == old(self)@.after_alloc(r.class(), T::spec_size(), val.spec_to_bytes()),
            val.spec_to_bytes().len() == T::spec_size(),
            old(self)@.reserved(r.class(), T::spec_size(), T::spec_size()).same_shape(final(self)@),
            final(self)@.content_bytes() == old(self)@.content_bytes() + T::spec_size(),
            keeps_values_of::<T>(old(self)@, final(self)@),
            keeps_allocations(old(self)@, final(self)@),
            final(self)@.vecs == old(self)@.vecs,
            final(self)@.alloc_seq == old(self)@.alloc_seq,
    {
        let size = T::size();
        let class = get_align_class(T::align());
        let (chunk, offset) = self.vals[class].allocate_val(size);
        let bytes = val.to_bytes();
        self.vals[class].write_bytes(chunk, offset, bytes.as_slice());
        proof {
            T::lemma_roundtrip(val);
            let v = old(self)@.vals[class as int];
            let after = v.after_allocate(size as nat);
            let placed = ValView {
                chunks: after.chunks.update(chunk as int, written(after.chunks[chunk as int], offset as int, bytes@)),
                last_used: (after.last_used - (size - bytes@.len())) as nat,
                ..after
            };
            assert(self@.vals =~= old(self)@.vals.update(class as int, placed));
            assert(self@ == old(self)@.after_alloc(class as nat, size as nat, bytes@));
            lemma_alloc_write(old(self)@, self@, class as nat, size as nat, bytes@);
            lemma_place_is_fresh(old(self)@, class as nat, size as nat);
            lemma_after_alloc_content(old(self)@, class as nat, size as nat, bytes@);
            lemma_after_alloc_shape(old(self)@, class as nat, size as nat, bytes@);
            assert forall|i: int| 0 <= i < ALIGN_CLASSES implies #[trigger] self.vals@[i].wf() by {
                if i != class {
                    assert(self.vals@[i] == old(self).vals@[i]);
                }
            }
        }
        proof {
            self.lemma_wf();
            old(self).lemma_wf();
            lemma_keeps_values::<T>(old(self)@, self@);
        }
        ValRef { class, chunk, offset, _marker: PhantomData }
    }

    /// Gives back the last `bytes` bytes used in class `class`.
    fn give_back(&mut self, class: usize, bytes: usize)
        requires
            old(self).wf(),
            class < ALIGN_CLASSES,
            bytes <= old(self)@.vals[class as int].last_used,
        ensures
            final(self).wf(),
            final(self)@ == old(self)@.given_back(class as nat, bytes as nat),
    {
        proof {
            assert(self@.vals[class as int] == self.vals@[class as int]@);
        }
        self.vals[class].shrink_val(bytes);
        proof {
            lemma_given_back_keeps(old(self)@, class as nat, bytes as nat);
            assert(self@.vals =~= old(self)@.given_back(class as nat, bytes as nat).vals);
            assert forall|i: int| 0 <= i < ALIGN_CLASSES implies #[trigger] self.vals@[i].wf() by {
                if i != class {
                    assert(self.vals@[i] == old(self).vals@[i]);
                }
            }
        }
    }

    /// Starts a sink for values of type `T` at the end of what is used in their
    /// class; nothing is allocated until a value is pushed.
    pub fn alloc_sink<T: Plain>(&mut self) -> (r: SinkRef<T>)
        requires
            old(self).wf(),
        ensures
            final(self).wf(),
            final(self)@ == old(self)@,
            r.len() == 0,
            r.class() == align_class(T::spec_align()),
            final(self)@.sink_at_end(r),
    {
        let class = get_align_class(T::align());
        let (chunk, offset) = self.vals[class].position();
        let r = SinkRef { class, chunk, offset, len: 0, _marker: PhantomData };
        proof {
            assert(self@.vals[class as int] == self.vals@[class as int]@);
        }
        r
    }

    /// Pushes `v` after the values of the sink. Where the last chunk has no
    /// room for it, the values move, with `v` after them, to a new chunk, and
    /// the room they had is given back.
    pub fn sink_push<T: Plain>(&mut self, sink: &mut SinkRef<T>, v: T)
        requires
            old(self).wf(),
            old(self)@.sink_at_end(*old(sink)),
            (old(sink).len() + 1) * T::spec_size() <= usize::MAX,
            old(self)@.can_alloc_bytes(old(sink).class(), ((old(sink).len() + 1) * T::spec_size()) as nat),
        ensures
            final(self).wf(),
            final(self)@.sink_at_end(*final(sink)),
            final(self)@.slice_live(final(sink).spec_slice()),
            final(sink).len() == old(sink).len() + 1,
            final(sink).class() == old(sink).class(),
            forall|i: int|
                0 <= i < old(sink).len() ==> #[trigger] final(self)@.slice_elem(final(sink).spec_slice(), i)
                    == old(self)@.slice_elem(old(sink).spec_slice(), i),
            final(self)@.slice_elem(final(sink).spec_slice(), old(sink).len() as int) == v,
            keeps_allocations(
                old(self)@.given_back(old(sink).class(), old(sink).len() * T::spec_size()),
                final(self)@,
            ),
            final(self)@.content_bytes() == old(self)@.content_bytes() + T::spec_size(),
            old(self)@.after_sink_push(old(sink).class(), old(sink).len() * T::spec_size(), T::spec_size()).same_shape(
                final(self)@,
            ),
            final(self)@.vecs == old(self)@.vecs,
            final(self)@.alloc_seq == old(self)@.alloc_seq,
    {
        let size = T::size();
        let class = sink.class;
        let len = sink.len;
        let ghost old_slice = sink.spec_slice();
        proof {
            T::lemma_roundtrip(v);
            assert(self@.vals[class as int] == self.vals@[class as int]@);
            assert(size <= (len + 1) * size) by (nonlinear_arith)
                requires
                    size >= 1,
            ;
            assert((len + 1) * size == len * size + size) by (nonlinear_arith);
            assert(len + 1 <= (len + 1) * size) by (nonlinear_arith)
                requires
                    size >= 1,
            ;
            lemma_given_back_keeps(old(self)@, class as nat, (len * size) as nat);
        }
        if !self.vals[class].capacity_over(size) {
            let r = self.alloc_val(v);
            sink.len = len + 1;
            proof {
                assert(r.chunk() == old_slice.chunk() && r.offset() == old_slice.offset() + len * size);
                lemma_allocation_keeps_values(old(self)@, self@, r, old_slice);
                assert(sink.spec_slice().chunk() == old_slice.chunk());
                assert(sink.spec_slice().offset() == old_slice.offset());
                assert forall|i: int| 0 <= i < len implies #[trigger] self@.slice_elem(sink.spec_slice(), i)
                    == old(self)@.slice_elem(old_slice, i) by {
                    assert(self@.slice_elem(sink.spec_slice(), i) == self@.slice_elem(old_slice, i));
                }
                assert(self@.slice_elem(sink.spec_slice(), len as int) == self@.val_of(r));
                lemma_after_alloc_shape(old(self)@, class as nat, size as nat, v.spec_to_bytes());
                lemma_keeps_trans(old(self)@.given_back(class as nat, (len * size) as nat), old(self)@, self@);
            }
        } else {
            let slice = sink.as_slice();
            let mut items = self.slice_to_vec(&slice);
            items.push(v);
            let back = len * size;
            self.give_back(class, back);
            let ghost shrunk = self@;
            let sl = self.alloc_slice(items.as_slice());
            proof {
                assert(shrunk.vals[class as int].over(((len + 1) * size) as nat));
                lemma_bytes_of(items@);
                lemma_given_back_keeps(old(self)@, class as nat, (len * size) as nat);
                lemma_after_alloc_shape(shrunk, class as nat, ((len + 1) * size) as nat, bytes_of(items@));
                assert(items@.len() == len + 1);
            }
            *sink = SinkRef { class, chunk: sl.chunk, offset: sl.offset, len: len + 1, _marker: PhantomData };
            proof {
                assert(sink.spec_slice() == sl);
                assert forall|i: int| 0 <= i < len implies #[trigger] self@.slice_elem(sink.spec_slice(), i)
                    == old(self)@.slice_elem(old_slice, i) by {
                    assert(items@[i] == old(self)@.slice_elem(old_slice, i));
                }
                assert(items@[len as int] == v);
            }
        }
    }

    /// Whether `bytes` more bytes can be allocated in alignment class `class`
    /// with every size staying within `usize`.
    pub fn can_alloc_bytes(&self, class: usize, bytes: usize) -> (b: bool)
        requires
            self.wf(),
        ensures
            b == self@.can_alloc_bytes(class as nat, bytes as nat),
    {
        if class >= ALIGN_CLASSES {
            false
        } else {
            proof {
                assert(self@.vals[class as int] == self.vals@[class as int]@);
            }
            self.vals[class].can_allocate(bytes)
        }
    }

    /// Whether a vector for values of type `T` can be handed out with every
    /// count staying within `usize`.
    pub fn can_alloc_vec<T: Plain>(&self) -> (b: bool)
        requires
            self.wf(),
        ensures
            b == self@.vecs[align_class(T::spec_align()) as int].can_allocate(T::spec_size() / T::spec_align()),
    {
        let class = get_align_class(T::align());
        proof {
            assert(self@.vecs[class as int] == self.vecs@[class as int]@);
            assert(self@.vecs[class as int].wf());
        }
        self.vecs[class].can_allocate(T::size() / T::align())
    }

    /// Hands out an empty vector for values of type `T` in the current
    /// allocation sequence. Its slot keeps the capacity it had before.
    pub fn alloc_vec<T: Plain>(&mut self) -> (r: VecRef<T>)
        requires
            old(self).wf(),
            old(self)@.vecs[align_class(T::spec_align()) as int].can_allocate(T::spec_size() / T::spec_align()),
        ensures
            final(self).wf(),
            r.class() == align_class(T::spec_align()),
            r.n_size() == T::spec_size() / T::spec_align(),
            final(self)@.vec_valid(r),
            final(self)@.vec_bytes(r) == Seq::<u8>::empty(),
            final(self)@.vals == old(self)@.vals,
            final(self)@.alloc_seq == old(self)@.alloc_seq,
            ({
                let a = old(self)@.vecs[r.class() as int];
                let s = a.with_size(r.n_size())[r.n_size() as int].prepared(old(self)@.alloc_seq);
                &&& r.slot() == s.next_slot()
                &&& final(self)@.vecs == old(self)@.vecs.update(
                    r.class() as int,
                    AlignView {
                        sizes: a.with_size(r.n_size()).update(
                            r.n_size() as int,
                            SizeView { used: s.used + 1, slots: s.slots.update(r.slot() as int, Seq::empty()), ..s },
                        ),
                    },
                )
            }),
            keeps_vectors_but(old(self)@, final(self)@, r.class(), r.n_size(), r.slot()),
            keeps_handed_out_by(old(self)@, final(self)@),
    {
        let size = T::size();
        let align = T::align();
        let n_size = size / align;
        let class = get_align_class(align);
        let seq = self.alloc_seq;
        proof {
            assert(old(self)@.vecs[class as int] == old(self).vecs@[class as int]@);
        }
        let slot = self.vecs[class].allocate_vec(n_size, seq);
        let r = VecRef::<T> { class, n_size, slot, _marker: PhantomData };
        proof {
            let a = old(self)@.vecs[class as int];
            let s0 = a.with_size(n_size as nat)[n_size as int];
            let s = s0.prepared(seq as nat);
            let na = AlignView {
                sizes: a.with_size(n_size as nat).update(
                    n_size as int,
                    SizeView { used: s.used + 1, slots: s.slots.update(slot as int, Seq::empty()), ..s },
                ),
            };
            assert(self@.vecs =~= old(self)@.vecs.update(class as int, na));
            assert(self@.vals =~= old(self)@.vals);
            assert forall|i: int| 0 <= i < ALIGN_CLASSES implies #[trigger] self@.vecs[i].wf() by {
                if i != class {
                    assert(self@.vecs[i] == old(self)@.vecs[i]);
                }
            }
            assert(self@.vecs[class as int].wf());
            assert(s0.wf()) by {
                assert(a.wf());
                if n_size >= a.sizes.len() {
                    assert(spec_sum(Seq::<nat>::empty()) == 0);
                }
            }
            lemma_prepared_keeps(s0, seq as nat);
            assert forall|q: nat| old(self)@.alloc_seq <= q && #[trigger] handed_out_by(old(self)@, q)
                implies handed_out_by(self@, q) by {
                if n_size < a.sizes.len() {
                    assert(s0 == old(self)@.vecs[class as int].sizes[n_size as int]);
                }
                assert(s0.seq <= q);
                assert(s.seq <= q);
                assert forall|c: int, n: int| 0 <= c < self@.vecs.len() && 0 <= n < self@.vecs[c].sizes.len()
                    implies #[trigger] self@.vecs[c].sizes[n].seq <= q by {
                    if c == class {
                        if n != n_size && n < a.sizes.len() {
                            assert(self@.vecs[c].sizes[n] == a.sizes[n]);
                        }
                    } else {
                        assert(self@.vecs[c] == old(self)@.vecs[c]);
                    }
                }
            }
            assert forall|c: int, n: int, k: int|
                0 <= c < ALIGN_CLASSES && 0 <= n < old(self)@.vecs[c].sizes.len() && 0 <= k
                    < old(self)@.vecs[c].sizes[n].slots.len() && !(c == class && n == n_size && k == slot)
                    implies n < self@.vecs[c].sizes.len() && k < self@.vecs[c].sizes[n].slots.len()
                    && #[trigger] self@.vecs[c].sizes[n].slots[k] == old(self)@.vecs[c].sizes[n].slots[k] by {
                if c == class {
                    if n == n_size {
                        assert(s0 == a.sizes[n]);
                    } else {
                        assert(a.with_size(n_size as nat)[n] == a.sizes[n]);
                    }
                }
            }
            assert(self@.vec_bytes(r) =~= Seq::<u8>::empty());
        }
        r
    }

    /// The number of values in the vector `r` refers to.
    pub fn vec_len<T: Plain>(&self, r: &VecRef<T>) -> (n: usize)
        requires
            self.wf(),
            self@.vec_valid(*r),
        ensures
            n == self@.vec_len(*r),
    {
        proof {
            assert(self@.vecs[r.class() as int] == self.vecs@[r.class() as int]@);
        }
        self.vecs[r.class].slot_len(r.n_size, r.slot) / T::size()
    }

    /// The number of values the vector `r` refers to can hold without growing.
    pub fn vec_capacity<T: Plain>(&self, r: &VecRef<T>) -> (n: usize)
        requires
            self.wf(),
            self@.vec_valid(*r),
        ensures
            n >= self@.vec_len(*r),
    {
        proof {
            assert(self@.vecs[r.class() as int] == self.vecs@[r.class() as int]@);
        }
        let size = T::size();
        let c = self.vecs[r.class].slot_capacity(r.n_size, r.slot);
        proof {
            vstd::arithmetic::div_mod::lemma_div_is_ordered(
                self@.vec_bytes(*r).len() as int,
                c as int,
                T::spec_size() as int,
            );
        }
        c / size
    }

    /// Value `i` of the vector `r` refers to.
    pub fn vec_get<T: Plain>(&self, r: &VecRef<T>, i: usize) -> (v: T)
        requires
            self.wf(),
            self@.vec_valid(*r),
            i < self@.vec_len(*r),
        ensures
            v == self@.vec_elem(*r, i as int),
    {
        let size = T::size();
        proof {
            assert(self@.vecs[r.class() as int] == self.vecs@[r.class() as int]@);
            lemma_index_fits(self@.vec_bytes(*r).len(), size as nat, i as int);
            self.vecs@[r.class() as int].lemma_slot_len(r.n_size() as int, r.slot() as int);
        }
        let bytes = self.vecs[r.class].read_slot(r.n_size, r.slot, i * size, size);
        T::from_bytes(bytes.as_slice())
    }

    /// Appends `v` to the vector `r` refers to.
    pub fn vec_push<T: Plain>(&mut self, r: &VecRef<T>, v: T)
        requires
            old(self).wf(),
            old(self)@.vec_valid(*r),
            old(self)@.vec_bytes(*r).len() + T::spec_size() <= usize::MAX,
        ensures
            final(self).wf(),
            final(self)@ == old(self)@.with_slot(
                r.class(),
                r.n_size(),
                r.slot(),
                old(self)@.vec_bytes(*r) + v.spec_to_bytes(),
            ),
            final(self)@.vec_valid(*r),
            final(self)@.vec_len(*r) == old(self)@.vec_len(*r) + 1,
            final(self)@.vec_elem(*r, old(self)@.vec_len(*r) as int) == v,
            forall|i: int|
                0 <= i < old(self)@.vec_len(*r) ==> #[trigger] final(self)@.vec_elem(*r, i)
                    == old(self)@.vec_elem(*r, i),
            keeps_handed_out_by(old(self)@, final(self)@),
    {
        proof {
            old(self).lemma_wf();
            lemma_with_slot_keeps(old(self)@, r.class(), r.n_size(), r.slot(), old(self)@.vec_bytes(*r) + v.spec_to_bytes());
        }
        let bytes = v.to_bytes();
        proof {
            assert(old(self)@.vecs[r.class() as int] == old(self).vecs@[r.class() as int]@);
        }
        self.vecs[r.class].extend_slot(r.n_size, r.slot, bytes.as_slice());
        proof {
            self.lemma_vecs_updated(old(self), r.class());
            let ob = old(self)@.vec_bytes(*r);
            lemma_push_then_read(ob, v);
            let s = T::spec_size();
            assert forall|i: int| 0 <= i < old(self)@.vec_len(*r) implies #[trigger] self@.vec_elem(*r, i)
                == old(self)@.vec_elem(*r, i) by {
                lemma_index_fits(ob.len(), s, i);
                assert((i + 1) * s == i * s + s) by (nonlinear_arith);
            }
            assert(self@.vec_elem(*r, old(self)@.vec_len(*r) as int) == v) by {
                assert(ob.len() / s * s == ob.len()) by (nonlinear_arith)
                    requires
                        s >= 1,
                        ob.len() % s == 0,
                ;
            }
        }
    }

    /// Appends the values of `items` to the vector `r` refers to.
    pub fn vec_extend_from_slice<T: Plain>(&mut self, r: &VecRef<T>, items: &[T])
        requires
            old(self).wf(),
            old(self)@.vec_valid(*r),
            old(self)@.vec_bytes(*r).len() + items@.len() * T::spec_size() <= usize::MAX,
        ensures
            final(self).wf(),
            final(self)@ == old(self)@.with_slot(
                r.class(),
                r.n_size(),
                r.slot(),
                old(self)@.vec_bytes(*r) + bytes_of(items@),
            ),
            final(self)@.vec_valid(*r),
            final(self)@.vec_len(*r) == old(self)@.vec_len(*r) + items@.len(),
            forall|i: int|
                0 <= i < old(self)@.vec_len(*r) ==> #[trigger] final(self)@.vec_elem(*r, i)
                    == old(self)@.vec_elem(*r, i),
            forall|j: int|
                0 <= j < items@.len() ==> #[trigger] final(self)@.vec_elem(*r, old(self)@.vec_len(*r) + j)
                    == items@[j],
            keeps_handed_out_by(old(self)@, final(self)@),
    {
        proof {
            old(self).lemma_wf();
            lemma_with_slot_keeps(old(self)@, r.class(), r.n_size(), r.slot(), old(self)@.vec_bytes(*r) + bytes_of(items@));
        }
        let n = items.len();
        let bytes = collect_bytes(items, n);
        proof {
            assert(items@.take(n as int) =~= items@);
            lemma_bytes_of(items@);
            assert(old(self)@.vecs[r.class() as int] == old(self).vecs@[r.class() as int]@);
        }
        self.vecs[r.class].extend_slot(r.n_size, r.slot, bytes.as_slice());
        proof {
            self.lemma_vecs_updated(old(self), r.class());
            lemma_append_reads(old(self)@.vec_bytes(*r), items@);
        }
    }

    /// Overwrites value `i` of the vector `r` refers to.
    pub fn vec_set<T: Plain>(&mut self, r: &VecRef<T>, i: usize, v: T)
        requires
            old(self).wf(),
            old(self)@.vec_valid(*r),
            i < old(self)@.vec_len(*r),
        ensures
            final(self).wf(),
            final(self)@ == old(self)@.with_slot(
                r.class(),
                r.n_size(),
                r.slot(),
                written(old(self)@.vec_bytes(*r), i * T::spec_size(), v.spec_to_bytes()),
            ),
            final(self)@.vec_valid(*r),
            final(self)@.vec_len(*r) == old(self)@.vec_len(*r),
            final(self)@.vec_elem(*r, i as int) == v,
            forall|j: int|
                0 <= j < old(self)@.vec_len(*r) && j != i ==> #[trigger] final(self)@.vec_elem(*r, j)
                    == old(self)@.vec_elem(*r, j),
            keeps_handed_out_by(old(self)@, final(self)@),
    {
        proof {
            old(self).lemma_wf();
            lemma_with_slot_keeps(old(self)@, r.class(), r.n_size(), r.slot(), written(old(self)@.vec_bytes(*r), i * T::spec_size(), v.spec_to_bytes()));
        }
        let size = T::size();
        let bytes = v.to_bytes();
        proof {
            T::lemma_roundtrip(v);
            assert(old(self)@.vecs[r.class() as int] == old(self).vecs@[r.class() as int]@);
            lemma_index_fits(old(self)@.vec_bytes(*r).len(), size as nat, i as int);
            old(self).vecs@[r.class() as int].lemma_slot_len(r.n_size() as int, r.slot() as int);
        }
        self.vecs[r.class].write_slot(r.n_size, r.slot, i * size, bytes.as_slice());
        proof {
            self.lemma_vecs_updated(old(self), r.class());
            lemma_write_reads(old(self)@.vec_bytes(*r), i as int, v);
        }
    }

    /// The values of the vector `r` refers to.
    pub fn vec_to_vec<T: Plain>(&self, r: &VecRef<T>) -> (out: Vec<T>)
        requires
            self.wf(),
            self@.vec_valid(*r),
        ensures
            out@.len() == self@.vec_len(*r),
            forall|i: int| 0 <= i < out@.len() ==> #[trigger] out@[i] == self@.vec_elem(*r, i),
    {
        let n = self.vec_len(r);
        let mut out: Vec<T> = Vec::new();
        let mut i: usize = 0;
        while i < n
            invariant
                self.wf(),
                self@.vec_valid(*r),
                n == self@.vec_len(*r),
                i <= n,
                out@.len() == i,
                forall|j: int| 0 <= j < i ==> #[trigger] out@[j] == self@.vec_elem(*r, j),
            decreases n - i,
        {
            out.push(self.vec_get(r, i));
            i = i + 1;
        }
        out
    }

    /// After an update of the vectors of class `class` alone, this guard is
    /// well formed and its view differs from `old`'s in that class alone.
    proof fn lemma_vecs_updated(&self, old: &ArenaGuard, class: nat)
        requires
            old.wf(),
            class < ALIGN_CLASSES,
            self.vals == old.vals,
            self.alloc_seq == old.alloc_seq,
            self.vecs@.len() == old.vecs@.len(),
            self.vecs@[class as int]@.wf(),
            forall|i: int| 0 <= i < ALIGN_CLASSES && i != class ==> #[trigger] self.vecs@[i] == old.vecs@[i],
        ensures
            self.wf(),
            self@ == (GuardView { vecs: old@.vecs.update(class as int, self.vecs@[class as int]@), ..old@ }),
    {
        assert(self@.vecs =~= old@.vecs.update(class as int, self.vecs@[class as int]@));
        assert forall|i: int| 0 <= i < ALIGN_CLASSES implies #[trigger] self@.vecs[i].wf() by {
            if i != class {
                assert(self@.vecs[i] == old@.vecs[i]);
            }
        }
    }

    /// Value `i` of the slice `r` refers to.
    pub fn slice_get<T: Plain>(&self, r: &SliceRef<T>, i: usize) -> (v: T)
        requires
            self.wf(),
            self@.slice_live(*r),
            i < r.len(),
        ensures
            v == self@.slice_elem(*r, i as int),
    {
        let size = T::size();
        proof {
            lemma_in_use_bounds(self@, r.class(), r.chunk(), r.offset(), r.len() * T::spec_size());
            assert(self@.vals[r.class() as int] == self.vals@[r.class() as int]@);
            self.vals@[r.class() as int].lemma_chunk_len(r.chunk() as int);
            assert(i * size + size <= r.len() * size) by (nonlinear_arith)
                requires
                    i < r.len(),
            ;
        }
        let bytes = self.vals[r.class].read_bytes(r.chunk, r.offset + i * size, size);
        T::from_bytes(bytes.as_slice())
    }

    /// Overwrites value `i` of the slice `r` refers to.
    pub fn slice_set<T: Plain>(&mut self, r: &SliceRef<T>, i: usize, v: T)
        requires
            old(self).wf(),
            old(self)@.slice_live(*r),
            i < r.len(),
        ensures
            final(self).wf(),
            final(self)@ == old(self)@.with_val_bytes(
                r.class(),
                r.chunk(),
                (r.offset() + i * T::spec_size()) as nat,
                v.spec_to_bytes(),
            ),
            final(self)@.slice_live(*r),
            old(self)@.same_shape(final(self)@),
            final(self)@.slice_elem(*r, i as int) == v,
            forall|j: int|
                0 <= j < r.len() && j != i ==> #[trigger] final(self)@.slice_elem(*r, j)
                    == old(self)@.slice_elem(*r, j),
    {
        let size = T::size();
        let bytes = v.to_bytes();
        let ghost s = size as nat;
        let ghost off = r.offset() as int;
        proof {
            T::lemma_roundtrip(v);
            lemma_in_use_bounds(old(self)@, r.class(), r.chunk(), r.offset(), r.len() * s);
            assert(old(self)@.vals[r.class() as int] == old(self).vals@[r.class() as int]@);
            old(self).vals@[r.class() as int].lemma_chunk_len(r.chunk() as int);
            assert(i * s + s <= r.len() * s) by (nonlinear_arith)
                requires
                    i < r.len(),
            ;
        }
        self.vals[r.class].write_bytes(r.chunk, r.offset + i * size, bytes.as_slice());
        proof {
            let vv = old(self)@.vals[r.class() as int];
            let chunk = vv.chunks[r.chunk() as int];
            let w = written(chunk, off + i * s, bytes@);
            assert(self@.vals =~= old(self)@.with_val_bytes(r.class(), r.chunk(), (off + i * s) as nat, bytes@).vals);
            assert forall|k: int| 0 <= k < ALIGN_CLASSES implies #[trigger] self.vals@[k].wf() by {
                if k != r.class() {
                    assert(self.vals@[k] == old(self).vals@[k]);
                }
            }
            assert forall|k: int| 0 <= k < ALIGN_CLASSES implies #[trigger] self@.vals[k].wf() by {
                if k != r.class() {
                    assert(self@.vals[k] == old(self)@.vals[k]);
                } else {
                    self.vals@[k].lemma_wf();
                    assert(self@.vals[k] == self.vals@[k]@);
                }
            }
            assert(w.subrange(off + i * s, off + i * s + s) =~= v.spec_to_bytes());
            assert(w.len() == chunk.len());
            assert forall|j: int| 0 <= j < r.len() && j != i implies #[trigger] self@.slice_elem(*r, j)
                == old(self)@.slice_elem(*r, j) by {
                assert(j * s + s <= r.len() * s) by (nonlinear_arith)
                    requires
                        j < r.len(),
                ;
                assert(0 <= j * s) by (nonlinear_arith)
                    requires
                        0 <= j,
                ;
                if j < i {
                    assert(j * s + s <= i * s) by (nonlinear_arith)
                        requires
                            j < i,
                    ;
                } else {
                    assert(i * s + s <= j * s) by (nonlinear_arith)
                        requires
                            j > i,
                    ;
                }
                assert(w.subrange(off + j * s, off + j * s + s) =~= chunk.subrange(off + j * s, off + j * s + s));
            }
        }
    }

    /// The values of the slice `r` refers to.
    pub fn slice_to_vec<T: Plain>(&self, r: &SliceRef<T>) -> (out: Vec<T>)
        requires
            self.wf(),
            self@.slice_live(*r),
        ensures
            out@.len() == r.len(),
            forall|i: int| 0 <= i < out@.len() ==> #[trigger] out@[i] == self@.slice_elem(*r, i),
    {
        let n = r.length();
        let mut out: Vec<T> = Vec::new();
        let mut i: usize = 0;
        while i < n
            invariant
                self.wf(),
                self@.slice_live(*r),
                n == r.len(),
                i <= n,
                out@.len() == i,
                forall|j: int| 0 <= j < i ==> #[trigger] out@[j] == self@.slice_elem(*r, j),
            decreases n - i,
        {
            out.push(self.slice_get(r, i));
            i = i + 1;
        }
        out
    }

    /// Copies the bytes of `text` into the arena.
    pub fn alloc_str(&mut self, text: &str) -> (r: SliceRef<u8>)
        requires
            old(self).wf(),
            old(self)@.can_alloc_bytes(0, text.spec_bytes().len()),
        ensures
            final(self).wf(),
            final(self)@.slice_live(r),
            r.len() == text.spec_bytes().len(),
            r.class() == 0,
            forall|i: int| 0 <= i < r.len() ==> #[trigger] final(self)@.slice_elem(r, i) == text.spec_bytes()[i],
            keeps_allocations(old(self)@, final(self)@),
            final(self)@.vecs == old(self)@.vecs,
            final(self)@.alloc_seq == old(self)@.alloc_seq,
    {
        let bytes = text.as_bytes();
        self.alloc_slice(bytes)
    }

    /// Hands out a vector of bytes holding the bytes of `text`.
    pub fn alloc_string(&mut self, text: &str) -> (r: VecRef<u8>)
        requires
            old(self).wf(),
            old(self)@.vecs[0].can_allocate(1),
        ensures
            final(self).wf(),
            r.class() == 0,
            r.n_size() == 1,
            final(self)@.vec_valid(r),
            final(self)@.vec_bytes(r) == text.spec_bytes(),
            final(self)@.vals == old(self)@.vals,
            final(self)@.alloc_seq == old(self)@.alloc_seq,
            keeps_vectors_but(old(self)@, final(self)@, r.class(), r.n_size(), r.slot()),
            keeps_handed_out_by(old(self)@, final(self)@),
    {
        let r = self.alloc_vec::<u8>();
        let ghost mid = self@;
        let bytes = text.as_bytes();
        proof {
            assert(bytes@.len() == bytes.len());
        }
        self.vec_push_bytes(&r, bytes);
        proof {
            assert(self@.vec_bytes(r) =~= text.spec_bytes());
            assert forall|c: int, n: int, k: int|
                0 <= c < ALIGN_CLASSES && 0 <= n < old(self)@.vecs[c].sizes.len() && 0 <= k
                    < old(self)@.vecs[c].sizes[n].slots.len() && !(c == r.class() && n == r.n_size() && k == r.slot())
                    implies n < self@.vecs[c].sizes.len() && k < self@.vecs[c].sizes[n].slots.len()
                    && #[trigger] self@.vecs[c].sizes[n].slots[k] == old(self)@.vecs[c].sizes[n].slots[k] by {
                assert(mid.vecs[c].sizes[n].slots[k] == old(self)@.vecs[c].sizes[n].slots[k]);
            }
        }
        r
    }

    /// Appends the bytes of `text` to the vector of bytes `r` refers to.
    pub fn vec_push_str(&mut self, r: &VecRef<u8>, text: &str)
        requires
            old(self).wf(),
            old(self)@.vec_valid(*r),
            old(self)@.vec_bytes(*r).len() + text.spec_bytes().len() <= usize::MAX,
        ensures
            final(self).wf(),
            final(self)@ == old(self)@.with_slot(
                r.class(),
                r.n_size(),
                r.slot(),
                old(self)@.vec_bytes(*r) + text.spec_bytes(),
            ),
            final(self)@.vec_valid(*r),
            final(self)@.vec_bytes(*r) == old(self)@.vec_bytes(*r) + text.spec_bytes(),
            keeps_handed_out_by(old(self)@, final(self)@),
    {
        proof {
            old(self).lemma_wf();
            lemma_with_slot_keeps(old(self)@, r.class(), r.n_size(), r.slot(), old(self)@.vec_bytes(*r) + text.spec_bytes());
        }
        let bytes = text.as_bytes();
        self.vec_push_bytes(r, bytes);
    }

    /// Appends `bytes` to the vector of bytes `r` refers to.
    fn vec_push_bytes(&mut self, r: &VecRef<u8>, bytes: &[u8])
        requires
            old(self).wf(),
            old(self)@.vec_valid(*r),
            old(self)@.vec_bytes(*r).len() + bytes@.len() <= usize::MAX,
        ensures
            final(self).wf(),
            final(self)@ == old(self)@.with_slot(r.class(), r.n_size(), r.slot(), old(self)@.vec_bytes(*r) + bytes@),
            final(self)@.vec_valid(*r),
            final(self)@.vec_bytes(*r) == old(self)@.vec_bytes(*r) + bytes@,
    {
        proof {
            assert(old(self)@.vecs[r.class() as int] == old(self).vecs@[r.class() as int]@);
        }
        self.vecs[r.class].extend_slot(r.n_size, r.slot, bytes);
        proof {
            self.lemma_vecs_updated(old(self), r.class());
        }
    }

    /// Starts allocation sequence `seq`: what was allocated before is given
    /// up, and the storage is kept for reuse.
    pub fn reset(&mut self, seq: usize)
        requires
            old(self).wf(),
        ensures
            final(self).wf(),
            final(self)@ == old(self)@.after_reset(seq as nat),
    {
        self.alloc_seq = seq;
        let mut k: usize = 0;
        while k < ALIGN_CLASSES
            invariant
                k <= ALIGN_CLASSES,
                old(self).wf(),
                self.alloc_seq == seq,
                self.vecs == old(self).vecs,
                self.vals@.len() == ALIGN_CLASSES,
                forall|i: int| 0 <= i < ALIGN_CLASSES ==> #[trigger] self.vals@[i].wf(),
                forall|i: int| 0 <= i < k ==> #[trigger] self.vals@[i]@ == old(self)@.vals[i].after_reset(),
                forall|i: int| k <= i < ALIGN_CLASSES ==> #[trigger] self.vals@[i] == old(self).vals@[i],
            decreases ALIGN_CLASSES - k,
        {
            proof {
                assert(old(self)@.vals[k as int] == old(self).vals@[k as int]@);
            }
            self.vals[k].reset();
            k = k + 1;
        }
        proof {
            let after = old(self)@.after_reset(seq as nat);
            assert(self@.vals =~= after.vals);
            assert forall|i: int| 0 <= i < ALIGN_CLASSES implies #[trigger] self@.vals[i].wf() by {
                self.vals@[i].lemma_wf();
                assert(self@.vals[i] == self.vals@[i]@);
            }
        }
    }

    /// Adds the usage of the value storage to `usage`. Each sum saturates at
    /// `usize::MAX`.
    pub fn val_memory_usage(&self, usage: &mut MemoryUsage)
        requires
            self.wf(),
        ensures
            final(usage).capacity_bytes == sat_add(
                old(usage).capacity_bytes as nat,
                vals_capacity(self@.vals),
            ),
            final(usage).content_bytes == sat_add(old(usage).content_bytes as nat, vals_content(self@.vals)),
            final(usage).overhead_bytes >= old(usage).overhead_bytes,
    {
        let mut k: usize = 0;
        while k < ALIGN_CLASSES
            invariant
                self.wf(),
                k <= ALIGN_CLASSES,
                usage.capacity_bytes == sat_add(
                    old(usage).capacity_bytes as nat,
                    vals_capacity(self@.vals.take(k as int)),
                ),
                usage.content_bytes == sat_add(
                    old(usage).content_bytes as nat,
                    vals_content(self@.vals.take(k as int)),
                ),
                usage.overhead_bytes >= old(usage).overhead_bytes,
            decreases ALIGN_CLASSES - k,
        {
            proof {
                assert(self@.vals.take(k as int + 1).drop_last() =~= self@.vals.take(k as int));
                assert(self@.vals.take(k as int + 1).last() == self.vals@[k as int]@);
            }
            self.vals[k].memory_usage(usage);
            k = k + 1;
        }
        assert(self@.vals.take(ALIGN_CLASSES as int) =~= self@.vals);
    }

    /// Adds the usage of the vectors to `usage`, counting as content those
    /// handed out in the current allocation sequence. Each sum saturates at
    /// `usize::MAX`.
    pub fn vec_memory_usage(&self, usage: &mut MemoryUsage)
        requires
            self.wf(),
        ensures
            final(usage).capacity_bytes >= sat_add(old(usage).capacity_bytes as nat, vecs_held(self@.vecs)),
            final(usage).content_bytes == sat_add(
                old(usage).content_bytes as nat,
                vecs_content(self@.vecs, self@.alloc_seq),
            ),
            final(usage).overhead_bytes >= old(usage).overhead_bytes,
    {
        let mut k: usize = 0;
        while k < ALIGN_CLASSES
            invariant
                self.wf(),
                k <= ALIGN_CLASSES,
                usage.capacity_bytes >= sat_add(
                    old(usage).capacity_bytes as nat,
                    vecs_held(self@.vecs.take(k as int)),
                ),
                usage.content_bytes == sat_add(
                    old(usage).content_bytes as nat,
                    vecs_content(self@.vecs.take(k as int), self@.alloc_seq),
                ),
                usage.overhead_bytes >= old(usage).overhead_bytes,
            decreases ALIGN_CLASSES - k,
        {
            proof {
                assert(self@.vecs.take(k as int + 1).drop_last() =~= self@.vecs.take(k as int));
                assert(self@.vecs.take(k as int + 1).last() == self.vecs@[k as int]@);
            }
            self.vecs[k].memory_usage(self.alloc_seq, usage);
            k = k + 1;
        }
        assert(self@.vecs.take(ALIGN_CLASSES as int) =~= self@.vecs);
    }

    /// A report of the memory this arena holds. The vectors count as content
    /// only if they were handed out in the current allocation sequence.
    pub fn memory_usage(&self) -> (u: MemoryUsage)
        requires
            self.wf(),
        ensures
            u.content_bytes == sat_add(vecs_content(self@.vecs, self@.alloc_seq), vals_content(self@.vals)),
            u.capacity_bytes >= sat_add(vecs_held(self@.vecs), vals_capacity(self@.vals)),
            u.overhead_bytes >= core::mem::size_of::<ArenaGuard>(),
    {
        let mut usage = MemoryUsage { capacity_bytes: 0, content_bytes: 0, overhead_bytes: 0 };
        usage.overhead_bytes = core::mem::size_of::<ArenaGuard>();
        self.vec_memory_usage(&mut usage);
        self.val_memory_usage(&mut usage);
        usage
    }

    /// The counts of vector chunks, of vector slots, and of those handed out in
    /// the current allocation sequence, each saturating at `usize::MAX`.
    pub fn slot_stats(&self) -> (st: vecs::SlotStats)
        requires
            self.wf(),
        ensures
            st.chunks == sat_add(0, vecs_chunks(self@.vecs)),
            st.slots == sat_add(0, vecs_slots(self@.vecs)),
            st.used == sat_add(0, vecs_used(self@.vecs, self@.alloc_seq)),
    {
        let mut st = vecs::SlotStats { chunks: 0, slots: 0, used: 0 };
        let mut k: usize = 0;
        while k < ALIGN_CLASSES
            invariant
                self.wf(),
                k <= ALIGN_CLASSES,
                st.chunks == sat_add(0, vecs_chunks(self@.vecs.take(k as int))),
                st.slots == sat_add(0, vecs_slots(self@.vecs.take(k as int))),
                st.used == sat_add(0, vecs_used(self@.vecs.take(k as int), self@.alloc_seq)),
            decreases ALIGN_CLASSES - k,
        {
            proof {
                assert(self@.vecs.take(k as int + 1).drop_last() =~= self@.vecs.take(k as int));
                assert(self@.vecs.take(k as int + 1).last() == self.vecs@[k as int]@);
                assert(self@.vecs[k as int].wf());
            }
            self.vecs[k].add_slot_stats(self.alloc_seq, &mut st);
            k = k + 1;
        }
        assert(self@.vecs.take(ALIGN_CLASSES as int) =~= self@.vecs);
        st
    }
}

} // verus!

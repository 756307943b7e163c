//! Frame allocators handed to the logic thread, and their retirement once the
//! runtime thread has drawn the frame that used them.

use vstd::prelude::*;

use vstd::rwlock::{RwLock, RwLockPredicate};

use crate::arena::Arena;
use crate::arena::guard::{ALIGN_CLASSES, ArenaGuard, handed_out_by};
use crate::mem::Mem;

verus! {

/// The retirements the runtime thread has asked for and the logic thread has
/// not taken yet.
#[derive(Debug, Clone, Copy)]
pub struct RetireRequests {
    /// Every sequence up to this one is retired.
    pub up_to: usize,
    /// A single sequence retired ahead of the others; 0 when there is none.
    pub early: usize,
}

impl RetireRequests {
    /// The requests after asking to retire every sequence up to `seq`.
    pub open spec fn asked_up_to(self, seq: usize) -> RetireRequests {
        RetireRequests { up_to: if seq > self.up_to { seq } else { self.up_to }, ..self }
    }

    /// The requests after asking to retire the single sequence `seq`.
    pub open spec fn asked_early(self, seq: usize) -> RetireRequests {
        RetireRequests { early: if self.early == 0 { seq } else { self.early }, ..self }
    }

    /// The requests once taken: the early retirement is no longer pending.
    pub open spec fn taken(self) -> RetireRequests {
        RetireRequests { early: 0, ..self }
    }

    /// Nothing retired yet.
    pub fn new() -> (r: RetireRequests)
        ensures
            r.up_to == 0,
            r.early == 0,
    {
        RetireRequests { up_to: 0, early: 0 }
    }

    /// Asks to retire every sequence up to `seq`: the mark only ever grows.
    pub fn retire_up_to(&mut self, seq: usize)
        ensures
            final(self).up_to >= old(self).up_to,
            final(self).up_to >= seq,
            final(self).up_to == old(self).up_to || final(self).up_to == seq,
            final(self).early == old(self).early,
            *final(self) == old(self).asked_up_to(seq),
    {
        if seq > self.up_to {
            self.up_to = seq;
        }
    }

    /// Asks to retire the single sequence `seq`, unless an early retirement is
    /// still pending, which then wins.
    pub fn retire_early(&mut self, seq: usize)
        ensures
            old(self).early == 0 ==> final(self).early == seq,
            old(self).early != 0 ==> final(self).early == old(self).early,
            final(self).up_to == old(self).up_to,
            *final(self) == old(self).asked_early(seq),
    {
        if self.early == 0 {
            self.early = seq;
        }
    }

    /// Hands out what was asked for and takes the pending early retirement:
    /// none is pending afterwards, so the next early retirement asked for is
    /// accepted.
    pub fn take(&mut self) -> (r: (usize, usize))
        ensures
            r.0 == old(self).up_to,
            r.1 == old(self).early,
            final(self).up_to == old(self).up_to,
            final(self).early == 0,
            *final(self) == old(self).taken(),
    {
        let r = (self.up_to, self.early);
        self.early = 0;
        r
    }
}

/// Taking the requests consumes the pending early retirement: an early
/// retirement asked for after a take is the one the next take hands out,
/// whatever is asked up to in between, and the manager then retires it.
pub proof fn lemma_early_after_take(r: RetireRequests, early: usize, up_to: usize, seqs: Seq<nat>, up_mark: nat)
    requires
        early > 0,
    ensures
        r.taken().asked_early(early).asked_up_to(up_to).early == early,
        r.taken().asked_up_to(up_to).asked_early(early).early == early,
        !after_retire(seqs, up_mark, early as nat).contains(early as nat),
{
    let kept = seqs.filter(above(up_mark));
    let out = kept.filter(other_than(early as nat));
    if out.contains(early as nat) {
        let i = choose|i: int| 0 <= i < out.len() && out[i] == early as nat;
        kept.lemma_filter_pred(other_than(early as nat), i);
        assert(false);
    }
}

/// A pending early retirement wins: asking for another before it is taken
/// changes nothing, so at most one early retirement is pending at a time.
pub proof fn lemma_first_early_wins(r: RetireRequests, early: usize)
    requires
        r.early != 0,
    ensures
        r.asked_early(early) == r,
{
}

/// The mark of sequences retired never goes down, however the asks interleave.
pub proof fn lemma_up_to_grows(r: RetireRequests, a: usize, b: usize)
    ensures
        r.asked_up_to(a).up_to >= r.up_to,
        r.asked_up_to(a).asked_up_to(b).up_to == r.asked_up_to(b).asked_up_to(a).up_to,
        r.asked_up_to(a).taken().up_to == r.asked_up_to(a).up_to,
{
}

/// Any requests may be stored in the shared lock.
pub struct AnyRequests;

impl RwLockPredicate<RetireRequests> for AnyRequests {
    open spec fn inv(self, v: RetireRequests) -> bool {
        true
    }
}

/// What the runtime thread tells the logic thread about retired allocation
/// sequences.
pub struct SharedAllocState {
    requests: RwLock<RetireRequests, AnyRequests>,
}

impl SharedAllocState {
    /// Nothing retired yet.
    pub fn new() -> Self {
        SharedAllocState { requests: RwLock::new(RetireRequests::new(), Ghost(AnyRequests)) }
    }
}

/// Retires allocation sequences from the runtime thread.
pub struct AllocRetirer<'l> {
    shared: &'l SharedAllocState,
}

impl<'l> AllocRetirer<'l> {
    /// Retires every sequence up to `seq`.
    pub fn retire_up_to(&self, seq: usize) {
        let (mut r, handle) = self.shared.requests.acquire_write();
        r.retire_up_to(seq);
        handle.release_write(r);
    }

    /// Retires the single sequence `seq`, unless another early retirement is
    /// still pending.
    pub fn retire_early(&self, seq: usize) {
        let (mut r, handle) = self.shared.requests.acquire_write();
        r.retire_early(seq);
        handle.release_write(r);
    }
}

/// Retires everything when the program ends.
pub struct AllocCleanup<'l> {
    shared: &'l SharedAllocState,
}

impl<'l> AllocCleanup<'l> {
    /// Retires every sequence.
    pub fn cleanup(&self) {
        let (mut r, handle) = self.shared.requests.acquire_write();
        r.retire_up_to(usize::MAX);
        handle.release_write(r);
    }
}

/// The frame allocators of the logic thread: those in use, by increasing
/// allocation sequence, and those free for reuse.
pub struct AllocManager<'l> {
    alloc_seq: usize,
    shared: &'l SharedAllocState,
    free_pool: Vec<Arena>,
    in_use: Vec<Arena>,
}

/// The manager, retirer and cleaner sharing `shared`; nothing is in use yet.
pub fn make_alloc_tools<'l>(shared: &'l mut SharedAllocState) -> (r: (
    AllocManager<'l>,
    AllocRetirer<'l>,
    AllocCleanup<'l>,
))
    ensures
        r.0.wf(),
        r.0.seq() == 0,
        r.0.in_use_seqs() == Seq::<nat>::empty(),
        r.0.free_count() == 0,
{
    let shared: &'l SharedAllocState = shared;
    let m = AllocManager { alloc_seq: 0, shared, free_pool: Vec::new(), in_use: Vec::new() };
    assert(m.in_use_seqs() =~= Seq::<nat>::empty());
    (m, AllocRetirer { shared }, AllocCleanup { shared })
}

/// Whether a sequence number is above `up_to`.
pub open spec fn above(up_to: nat) -> spec_fn(nat) -> bool {
    |x: nat| x > up_to
}

/// Whether a sequence number is other than `e`.
pub open spec fn other_than(e: nat) -> spec_fn(nat) -> bool {
    |x: nat| x != e
}

/// Whether `s` increases strictly.
pub open spec fn increasing(s: Seq<nat>) -> bool {
    forall|i: int, j: int| 0 <= i < j < s.len() ==> s[i] < s[j]
}

/// Filtering keeps a sequence whose every element passes, and drops one whose
/// every element fails.
pub proof fn lemma_filter_uniform(s: Seq<nat>, p: spec_fn(nat) -> bool)
    ensures
        (forall|i: int| 0 <= i < s.len() ==> #[trigger] p(s[i])) ==> s.filter(p) == s,
        (forall|i: int| 0 <= i < s.len() ==> !#[trigger] p(s[i])) ==> s.filter(p) == Seq::<nat>::empty(),
    decreases s.len(),
{
    reveal_with_fuel(Seq::filter, 1);
    if s.len() > 0 {
        lemma_filter_uniform(s.drop_last(), p);
        if forall|i: int| 0 <= i < s.len() ==> #[trigger] p(s[i]) {
            assert forall|i: int| 0 <= i < s.drop_last().len() implies #[trigger] p(s.drop_last()[i]) by {
                assert(p(s[i]));
            }
            assert(p(s[s.len() - 1]));
            assert(s.drop_last().push(s.last()) =~= s);
        }
        if forall|i: int| 0 <= i < s.len() ==> !#[trigger] p(s[i]) {
            assert forall|i: int| 0 <= i < s.drop_last().len() implies !#[trigger] p(s.drop_last()[i]) by {
                assert(!p(s[i]));
            }
            assert(!p(s[s.len() - 1]));
        }
    }
}

/// In an increasing sequence whose first `k` elements are at most `up_to` and
/// whose others exceed it, those above `up_to` are the elements from `k` on.
pub proof fn lemma_filter_above(s: Seq<nat>, up_to: nat, k: int)
    requires
        increasing(s),
        0 <= k <= s.len(),
        forall|i: int| 0 <= i < k ==> #[trigger] s[i] <= up_to,
        k < s.len() ==> s[k] > up_to,
    ensures
        s.filter(above(up_to)) == s.skip(k),
{
    let p = above(up_to);
    assert(s =~= s.take(k) + s.skip(k));
    Seq::filter_distributes_over_add(s.take(k), s.skip(k), p);
    lemma_filter_uniform(s.take(k), p);
    lemma_filter_uniform(s.skip(k), p);
    assert forall|i: int| 0 <= i < s.skip(k).len() implies #[trigger] p(s.skip(k)[i]) by {
        assert(s.skip(k)[i] == s[k + i]);
        if i > 0 {
            assert(s[k] < s[k + i]);
        }
    }
    assert forall|i: int| 0 <= i < s.take(k).len() implies !#[trigger] p(s.take(k)[i]) by {
        assert(s.take(k)[i] == s[i]);
    }
    assert(s.take(k).filter(p) + s.skip(k).filter(p) =~= s.skip(k));
}

/// Removing the element at `idx` of an increasing sequence is filtering out
/// its value.
pub proof fn lemma_filter_out(s: Seq<nat>, idx: int, e: nat)
    requires
        increasing(s),
        0 <= idx < s.len(),
        s[idx] == e,
    ensures
        s.filter(other_than(e)) == s.remove(idx),
{
    let p = other_than(e);
    let a = s.take(idx);
    let b = s.skip(idx + 1);
    let one = seq![e];
    assert(s =~= a + (one + b));
    Seq::filter_distributes_over_add(a, one + b, p);
    Seq::filter_distributes_over_add(one, b, p);
    assert forall|i: int| 0 <= i < a.len() implies #[trigger] p(a[i]) by {
        assert(a[i] == s[i] && s[i] < s[idx]);
    }
    assert forall|i: int| 0 <= i < b.len() implies #[trigger] p(b[i]) by {
        assert(b[i] == s[idx + 1 + i] && s[idx] < s[idx + 1 + i]);
    }
    assert forall|i: int| 0 <= i < one.len() implies !#[trigger] p(one[i]) by {
        assert(one[i] == e);
    }
    lemma_filter_uniform(a, p);
    lemma_filter_uniform(b, p);
    lemma_filter_uniform(one, p);
    assert(a.filter(p) + (one.filter(p) + b.filter(p)) =~= s.remove(idx));
}

/// A value absent from a sequence is filtered out of it without change.
pub proof fn lemma_filter_absent(s: Seq<nat>, e: nat)
    requires
        !s.contains(e),
    ensures
        s.filter(other_than(e)) == s,
{
    let p = other_than(e);
    assert forall|i: int| 0 <= i < s.len() implies #[trigger] p(s[i]) by {
        if s[i] == e {
            assert(s.contains(e));
        }
    }
    lemma_filter_uniform(s, p);
}

/// The sequences left in use once every sequence up to `up_to`, and the single
/// sequence `early` if it is not 0, are retired.
pub open spec fn after_retire(seqs: Seq<nat>, up_to: nat, early: nat) -> Seq<nat> {
    let kept = seqs.filter(above(up_to));
    if early > 0 {
        kept.filter(other_than(early))
    } else {
        kept
    }
}

/// Whether `now` is what is left of `before` once some retirement is done.
pub open spec fn is_retirement_of(now: Seq<nat>, before: Seq<nat>) -> bool {
    exists|up_to: nat, early: nat| now == #[trigger] after_retire(before, up_to, early)
}

/// Retiring up to the greatest sequence, as cleanup does, leaves no allocator in
/// use, whatever retires early.
pub proof fn lemma_cleanup_retires_all(seqs: Seq<nat>, early: nat)
    requires
        forall|i: int| 0 <= i < seqs.len() ==> #[trigger] seqs[i] <= usize::MAX,
    ensures
        after_retire(seqs, usize::MAX as nat, early) == Seq::<nat>::empty(),
{
    let p = above(usize::MAX as nat);
    assert forall|i: int| 0 <= i < seqs.len() implies !#[trigger] p(seqs[i]) by {}
    lemma_filter_uniform(seqs, p);
    let kept = seqs.filter(p);
    lemma_filter_uniform(kept, other_than(early));
}

impl<'l> AllocManager<'l> {
    /// The last allocation sequence handed out.
    pub closed spec fn seq(&self) -> nat {
        self.alloc_seq as nat
    }

    /// The allocation sequences in use, oldest first.
    pub closed spec fn in_use_seqs(&self) -> Seq<nat> {
        self.in_use@.map_values(|a: Arena| a.seq())
    }

    /// The number of free allocators.
    pub closed spec fn free_count(&self) -> nat {
        self.free_pool@.len()
    }

    /// The sequences in use increase and none is newer than the last one handed
    /// out; every allocator is well formed.
    pub closed spec fn wf(&self) -> bool {
        &&& increasing(self.in_use_seqs())
        &&& forall|i: int| 0 <= i < self.in_use@.len() ==> #[trigger] self.in_use@[i].seq() <= self.alloc_seq
        &&& forall|i: int| 0 <= i < self.in_use@.len() ==> #[trigger] self.in_use@[i].wf()
        &&& forall|i: int| 0 <= i < self.free_pool@.len() ==> #[trigger] self.free_pool@[i].wf()
        &&& forall|i: int| 0 <= i < self.in_use@.len() ==> #[trigger] self.in_use@[i].high_seq() <= self.alloc_seq
        &&& forall|i: int| 0 <= i < self.free_pool@.len() ==> #[trigger] self.free_pool@[i].high_seq() <= self.alloc_seq
    }

    /// The last allocation sequence handed out.
    pub fn current_seq(&self) -> (s: usize)
        ensures
            s == self.seq(),
    {
        self.alloc_seq
    }

    /// The number of allocators in use.
    pub fn in_use_count(&self) -> (n: usize)
        ensures
            n == self.in_use_seqs().len(),
    {
        self.in_use.len()
    }

    /// The number of free allocators.
    pub fn free_pool_count(&self) -> (n: usize)
        ensures
            n == self.free_count(),
    {
        self.free_pool.len()
    }

    /// Moves the allocator of sequence `seq`, if one is in use, to the free pool.
    pub fn retire_single(&mut self, seq: usize)
        requires
            old(self).wf(),
        ensures
            final(self).wf(),
            final(self).seq() == old(self).seq(),
            final(self).in_use_seqs() == old(self).in_use_seqs().filter(other_than(seq as nat)),
            final(self).free_count() + final(self).in_use_seqs().len() == old(self).free_count()
                + old(self).in_use_seqs().len(),
    {
        let ghost s = self.in_use_seqs();
        let mut lo: usize = 0;
        let mut hi: usize = self.in_use.len();
        while lo < hi
            invariant
                *self == *old(self),
                old(self).wf(),
                s == self.in_use_seqs(),
                increasing(s),
                s.len() == self.in_use@.len(),
                0 <= lo <= hi <= s.len(),
                forall|i: int| 0 <= i < lo ==> #[trigger] s[i] < seq,
                forall|i: int| hi <= i < s.len() ==> #[trigger] s[i] > seq,
            decreases hi - lo,
        {
            let mid = lo + (hi - lo) / 2;
            let m = self.in_use[mid].current_seq();
            assert(s[mid as int] == m);
            if m == seq {
                let retired = self.in_use.remove(mid);
                self.free_pool.push(retired);
                proof {
                    lemma_filter_out(s, mid as int, seq as nat);
                    assert(self.in_use_seqs() =~= s.remove(mid as int));
                    assert forall|i: int| 0 <= i < self.free_pool@.len() implies #[trigger] self.free_pool@[i].wf() by {
                        if i < old(self).free_pool@.len() {
                            assert(self.free_pool@[i] == old(self).free_pool@[i]);
                        }
                    }
                    assert forall|i: int| 0 <= i < self.in_use@.len() implies #[trigger] self.in_use@[i].wf()
                        && self.in_use@[i].seq() <= self.alloc_seq by {
                        if i < mid {
                            assert(self.in_use@[i] == old(self).in_use@[i]);
                        } else {
                            assert(self.in_use@[i] == old(self).in_use@[i + 1]);
                        }
                    }
                }
                return;
            } else if m < seq {
                lo = mid + 1;
            } else {
                hi = mid;
            }
        }
        proof {
            assert(!s.contains(seq as nat));
            lemma_filter_absent(s, seq as nat);
        }
    }

    /// Moves every allocator of a sequence up to `retired_up_to`, then that of
    /// sequence `retired_early` if it is not 0, to the free pool.
    pub fn retire(&mut self, retired_up_to: usize, retired_early: usize)
        requires
            old(self).wf(),
        ensures
            final(self).wf(),
            final(self).seq() == old(self).seq(),
            final(self).in_use_seqs() == after_retire(
                old(self).in_use_seqs(),
                retired_up_to as nat,
                retired_early as nat,
            ),
            final(self).free_count() + final(self).in_use_seqs().len() == old(self).free_count()
                + old(self).in_use_seqs().len(),
    {
        let ghost s = self.in_use_seqs();
        let n0 = self.in_use.len();
        let mut k: usize = 0;
        while self.in_use.len() > 0 && self.in_use[0].current_seq() <= retired_up_to
            invariant
                self.wf(),
                increasing(s),
                s.len() == n0,
                k <= s.len(),
                self.in_use_seqs() == s.skip(k as int),
                forall|i: int| 0 <= i < k ==> #[trigger] s[i] <= retired_up_to,
                self.alloc_seq == old(self).alloc_seq,
                self.free_pool@.len() + self.in_use@.len() == old(self).free_pool@.len() + old(self).in_use@.len(),
            decreases self.in_use@.len(),
        {
            let ghost before = self.in_use@;
            let ghost before_seqs = self.in_use_seqs();
            proof {
                assert(self.in_use_seqs().len() == before.len());
                assert(s.skip(k as int).len() > 0);
                assert(self.in_use_seqs()[0] == s[k as int]);
            }
            let retired = self.in_use.remove(0);
            self.free_pool.push(retired);
            proof {
                assert(self.in_use@ =~= before.drop_first());
                assert(self.in_use_seqs() =~= before_seqs.drop_first());
                assert(self.in_use_seqs() =~= s.skip(k + 1));
                assert forall|i: int| 0 <= i < self.free_pool@.len() implies #[trigger] self.free_pool@[i].wf() by {
                    if i + 1 < self.free_pool@.len() {
                        assert(self.free_pool@[i] == self.free_pool@.drop_last()[i]);
                    }
                }
            }
            k = k + 1;
        }
        proof {
            if k < s.len() {
                assert(s[k as int] == self.in_use_seqs()[0]);
            }
            lemma_filter_above(s, retired_up_to as nat, k as int);
        }
        if retired_early > 0 {
            self.retire_single(retired_early);
        }
    }

    /// Reads what the runtime thread retired and retires it.
    pub fn process_retired(&mut self)
        requires
            old(self).wf(),
        ensures
            final(self).wf(),
            final(self).seq() == old(self).seq(),
            is_retirement_of(final(self).in_use_seqs(), old(self).in_use_seqs()),
            final(self).free_count() + final(self).in_use_seqs().len() == old(self).free_count()
                + old(self).in_use_seqs().len(),
    {
        let (retired_up_to, retired_early) = self.read_retired();
        self.retire(retired_up_to, retired_early);
    }

    /// The sequences retired up to, and the one retired early, which is taken.
    fn read_retired(&self) -> (r: (usize, usize)) {
        let (mut requests, handle) = self.shared.requests.acquire_write();
        let r = requests.take();
        handle.release_write(requests);
        r
    }

    /// Whether no allocator is in use any more.
    pub fn is_cleaned_up(&self) -> (b: bool)
        ensures
            b == (self.in_use_seqs().len() == 0),
    {
        self.in_use.len() == 0
    }

    /// Retires what the runtime thread retired, then hands out an allocator
    /// for the next allocation sequence: a free one if there is one, else a
    /// new one.
    pub fn get_alloc<'f>(&'f mut self) -> (m: Mem<'f>)
        requires
            old(self).wf(),
            old(self).seq() < usize::MAX,
        ensures
            m.alloc_seq == old(self).seq() + 1,
            final(self).seq() == old(self).seq() + 1,
            m.arena.wf(),
            m.arena@.alloc_seq == m.alloc_seq,
            forall|i: int| 0 <= i < ALIGN_CLASSES ==> #[trigger] m.arena@.vals[i].content_bytes() == 0,
            final(self).in_use_seqs().len() > 0,
            final(self).in_use_seqs().last() == m.alloc_seq,
            is_retirement_of(final(self).in_use_seqs().drop_last(), old(self).in_use_seqs()),
            ({
                // The allocators free once the retired ones joined the pool.
                let avail = old(self).free_count() + old(self).in_use_seqs().len() - final(self).in_use_seqs().drop_last().len();
                &&& avail > 0 ==> final(self).free_count() == avail - 1
                &&& avail <= 0 ==> final(self).free_count() == 0
            }),
            final(m.arena).wf() && handed_out_by(final(m.arena)@, m.alloc_seq as nat) ==> final(self).wf(),
    {
        self.process_retired();
        proof {
            let mid = self.in_use_seqs();
            assert(mid.push((self.alloc_seq + 1) as nat).drop_last() =~= mid);
        }
        self.next_alloc()
    }

    /// Hands out an allocator for the next allocation sequence without reading
    /// what was retired: the free allocator added last if there is one, which
    /// leaves the pool, else a new one.
    pub fn next_alloc<'f>(&'f mut self) -> (m: Mem<'f>)
        requires
            old(self).wf(),
            old(self).seq() < usize::MAX,
        ensures
            m.alloc_seq == old(self).seq() + 1,
            final(self).seq() == old(self).seq() + 1,
            m.arena.wf(),
            m.arena@.alloc_seq == m.alloc_seq,
            forall|i: int| 0 <= i < ALIGN_CLASSES ==> #[trigger] m.arena@.vals[i].content_bytes() == 0,
            final(self).in_use_seqs() == old(self).in_use_seqs().push(m.alloc_seq as nat),
            old(self).free_count() > 0 ==> final(self).free_count() == old(self).free_count() - 1,
            old(self).free_count() == 0 ==> final(self).free_count() == 0,
            final(m.arena).wf() && handed_out_by(final(m.arena)@, m.alloc_seq as nat) ==> final(self).wf(),
    {
        let ghost mid = self.in_use_seqs();
        let ghost before = self.in_use@;
        let mut arena = match self.free_pool.pop() {
            Some(a) => a,
            None => Arena::default(),
        };
        let seq = self.alloc_seq + 1;
        let ghost prev = arena.guard_view();
        proof {
            arena.lemma_wf();
        }
        arena.reset_to(seq);
        assert forall|i: int| 0 <= i < ALIGN_CLASSES implies #[trigger] arena.guard_view().vals[i].content_bytes()
            == 0 by {
            assert(arena.guard_view().vals[i] == prev.vals[i].after_reset());
        }
        self.alloc_seq = seq;
        self.in_use.push(arena);
        proof {
            assert(self.in_use@ =~= before.push(arena));
            assert(self.in_use_seqs() =~= mid.push(seq as nat));
            assert forall|i: int| 0 <= i < self.free_pool@.len() implies #[trigger] self.free_pool@[i].wf() by {
                assert(self.free_pool@[i] == self.free_pool@.subrange(0, self.free_pool@.len() as int)[i]);
            }
        }
        let guard = self.lend_last();
        Mem { alloc_seq: seq, arena: guard }
    }

    /// Lends out the guard of the newest allocator in use.
    fn lend_last(&mut self) -> (g: &mut ArenaGuard)
        requires
            old(self).in_use@.len() > 0,
        ensures
            g@ == old(self).in_use@.last().guard_view(),
            old(self).in_use@.last().wf() ==> g.wf(),
            final(self).alloc_seq == old(self).alloc_seq,
            final(self).free_pool@ == old(self).free_pool@,
            final(self).in_use@.len() == old(self).in_use@.len(),
            forall|i: int| 0 <= i < old(self).in_use@.len() - 1 ==> #[trigger] final(self).in_use@[i] == old(self).in_use@[i],
            final(self).in_use@.last().seq() == old(self).in_use@.last().seq(),
            final(self).in_use@.last().high_seq() == old(self).in_use@.last().high_seq(),
            final(g).wf() && handed_out_by(final(g)@, old(self).in_use@.last().high_seq())
                ==> final(self).in_use@.last().wf(),
            final(self).in_use_seqs() == old(self).in_use_seqs(),
            old(self).wf() && final(g).wf() && handed_out_by(final(g)@, old(self).in_use@.last().high_seq())
                ==> final(self).wf(),
    {
        let last = self.in_use.len() - 1;
        self.in_use[last].guard_mut()
    }
}

} // verus!

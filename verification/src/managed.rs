use vstd::prelude::*;
use vstd::string::StringExecFns;

use core::marker::PhantomData;

use crate::ffi::Erased;

verus! {

/// The greatest index and the greatest generation an `Id` can hold.
pub const ID_FIELD_MAX: u64 = 0xFFFFFF;

/// A typed handle to a value in a `Managed` arena. It packs the arena's id
/// (16 bits), the slot index (24 bits) and the slot's generation (24 bits).
#[derive(Debug, Hash, PartialOrd, Ord)]
pub struct Id<T> {
    id: u64,
    _marker: PhantomData<T>,
}

impl<T> Clone for Id<T> {
    fn clone(&self) -> (r: Self)
        ensures
            r == *self,
    {
        Id { id: self.id, _marker: PhantomData }
    }
}

impl<T> Copy for Id<T> {
}

impl<T> PartialEq for Id<T> {
    fn eq(&self, other: &Self) -> (r: bool) {
        self.id == other.id
    }
}

impl<T> vstd::std_specs::cmp::PartialEqSpecImpl for Id<T> {
    open spec fn obeys_eq_spec() -> bool {
        true
    }

    open spec fn eq_spec(&self, other: &Self) -> bool {
        self.spec_raw() == other.spec_raw()
    }
}

impl<T> Eq for Id<T> {
}

impl<T> Id<T> {
    /// The packed 64-bit representation.
    pub closed spec fn spec_raw(self) -> u64 {
        self.id
    }

    pub open spec fn spec_arena_id(self) -> u16 {
        (self.spec_raw() / 0x1_0000_0000_0000) as u16
    }

    pub open spec fn spec_idx(self) -> usize {
        ((self.spec_raw() / 0x100_0000) % 0x100_0000) as usize
    }

    pub open spec fn spec_gener(self) -> u32 {
        (self.spec_raw() % 0x100_0000) as u32
    }

    /// The id of generation `generation` of slot `idx` in arena `arena_id`.
    pub fn new(arena_id: u16, idx: usize, generation: u32) -> (id: Id<T>)
        requires
            idx <= ID_FIELD_MAX,
            generation <= ID_FIELD_MAX,
        ensures
            id.spec_raw() == arena_id * 0x1_0000_0000_0000 + idx * 0x100_0000 + generation,
            id.spec_arena_id() == arena_id,
            id.spec_idx() == idx,
            id.spec_gener() == generation,
    {
        let a = arena_id as u64;
        let i = idx as u64;
        let g = generation as u64;
        let id = (a << 48) | (i << 24) | g;
        proof {
            assert((a << 48) | (i << 24) | g == a * 0x1_0000_0000_0000 + i * 0x100_0000 + g)
                by (bit_vector)
                requires
                    a <= 0xFFFF,
                    i <= 0xFFFFFF,
                    g <= 0xFFFFFF,
            ;
            assert(((a * 0x1_0000_0000_0000 + i * 0x100_0000 + g) / 0x1_0000_0000_0000) as u16 == a
                && ((a * 0x1_0000_0000_0000 + i * 0x100_0000 + g) / 0x100_0000) % 0x100_0000 == i
                && (a * 0x1_0000_0000_0000 + i * 0x100_0000 + g) % 0x100_0000 == g) by (bit_vector)
                requires
                    a <= 0xFFFF,
                    i <= 0xFFFFFF,
                    g <= 0xFFFFFF,
            ;
        }
        Id { id, _marker: PhantomData }
    }

    pub fn arena_id(self) -> (a: u16)
        ensures
            a == self.spec_arena_id(),
    {
        let id = self.id;
        assert((id >> 48) as u16 == (id / 0x1_0000_0000_0000) as u16) by (bit_vector);
        (id >> 48) as u16
    }

    pub fn idx(self) -> (i: usize)
        ensures
            i == self.spec_idx(),
    {
        let id = self.id;
        assert((id >> 24) & 0xFFFFFF == (id / 0x100_0000) % 0x100_0000) by (bit_vector);
        ((id >> 24) & 0xFFFFFF) as usize
    }

    pub fn gener(self) -> (g: u32)
        ensures
            g == self.spec_gener(),
    {
        let id = self.id;
        assert(id & 0xFFFFFF == id % 0x100_0000) by (bit_vector);
        (id & 0xFFFFFF) as u32
    }

    pub fn parts(self) -> (p: (u16, usize, u32))
        ensures
            p == (self.spec_arena_id(), self.spec_idx(), self.spec_gener()),
    {
        (self.arena_id(), self.idx(), self.gener())
    }

    /// The same id, seen as the id of another type.
    pub fn cast<U>(self) -> (r: Id<U>)
        ensures
            r.spec_raw() == self.spec_raw(),
    {
        Id { id: self.id, _marker: PhantomData }
    }
}

/// The parts an id is made of are the parts it is read back as.
pub proof fn lemma_id_parts<T>(id: Id<T>, arena_id: u16, idx: usize, generation: u32)
    requires
        idx <= ID_FIELD_MAX,
        generation <= ID_FIELD_MAX,
        id.spec_raw() == arena_id * 0x1_0000_0000_0000 + idx * 0x100_0000 + generation,
    ensures
        id.spec_arena_id() == arena_id,
        id.spec_idx() == idx,
        id.spec_gener() == generation,
{
    let a = arena_id as u64;
    let i = idx as u64;
    let g = generation as u64;
    assert(((a * 0x1_0000_0000_0000 + i * 0x100_0000 + g) / 0x1_0000_0000_0000) as u16 == a
        && ((a * 0x1_0000_0000_0000 + i * 0x100_0000 + g) / 0x100_0000) % 0x100_0000 == i
        && (a * 0x1_0000_0000_0000 + i * 0x100_0000 + g) % 0x100_0000 == g) by (bit_vector)
        requires
            a <= 0xFFFF,
            i <= 0xFFFFFF,
            g <= 0xFFFFFF,
    ;
}

/// The character of decimal digit `d`.
pub open spec fn digit_char(d: nat) -> char {
    if d == 0 {
        '0'
    } else if d == 1 {
        '1'
    } else if d == 2 {
        '2'
    } else if d == 3 {
        '3'
    } else if d == 4 {
        '4'
    } else if d == 5 {
        '5'
    } else if d == 6 {
        '6'
    } else if d == 7 {
        '7'
    } else if d == 8 {
        '8'
    } else {
        '9'
    }
}

/// `n` written in decimal.
pub open spec fn spec_decimal(n: nat) -> Seq<char>
    decreases n,
{
    if n < 10 {
        seq![digit_char(n)]
    } else {
        spec_decimal(n / 10) + seq![digit_char(n % 10)]
    }
}

/// The text an id is shown as: its index, its generation and the name of the
/// type it refers to.
pub open spec fn id_debug_text(idx: nat, generation: nat, type_label: Seq<char>) -> Seq<char> {
    "Id(idx="@ + spec_decimal(idx) + ", gen="@ + spec_decimal(generation) + ", type="@ + type_label + ")"@
}

/// Appends decimal digit `d` to `s`.
fn push_digit(s: &mut String, d: u64)
    requires
        d < 10,
    ensures
        final(s)@ == old(s)@ + seq![digit_char(d as nat)],
{
    if d == 0 {
        proof {
            reveal_strlit("0");
        }
        s.append("0");
    } else if d == 1 {
        proof {
            reveal_strlit("1");
        }
        s.append("1");
    } else if d == 2 {
        proof {
            reveal_strlit("2");
        }
        s.append("2");
    } else if d == 3 {
        proof {
            reveal_strlit("3");
        }
        s.append("3");
    } else if d == 4 {
        proof {
            reveal_strlit("4");
        }
        s.append("4");
    } else if d == 5 {
        proof {
            reveal_strlit("5");
        }
        s.append("5");
    } else if d == 6 {
        proof {
            reveal_strlit("6");
        }
        s.append("6");
    } else if d == 7 {
        proof {
            reveal_strlit("7");
        }
        s.append("7");
    } else if d == 8 {
        proof {
            reveal_strlit("8");
        }
        s.append("8");
    } else {
        proof {
            reveal_strlit("9");
        }
        s.append("9");
    }
}

/// Appends `n`, written in decimal, to `s`.
fn append_decimal(s: &mut String, n: u64)
    ensures
        final(s)@ == old(s)@ + spec_decimal(n as nat),
    decreases n,
{
    if n >= 10 {
        append_decimal(s, n / 10);
    }
    push_digit(s, n % 10);
    proof {
        if n >= 10 {
            assert(old(s)@ + spec_decimal(n as nat) =~= old(s)@ + spec_decimal((n / 10) as nat) + seq![
                digit_char((n % 10) as nat),
            ]);
        }
    }
}

impl<T> Id<T> {
    /// The text this id is shown as, `Id(idx=…, gen=…, type=…)`, with
    /// `type_label` the name of the type it refers to, as the compiler writes it.
    pub fn debug_text(&self, type_label: &str) -> (s: String)
        ensures
            s@ == id_debug_text(self.spec_idx() as nat, self.spec_gener() as nat, type_label@),
    {
        let idx = self.idx();
        let gener = self.gener();
        let mut s = "Id(idx=".to_owned();
        append_decimal(&mut s, idx as u64);
        s.append(", gen=");
        append_decimal(&mut s, gener as u64);
        s.append(", type=");
        s.append(type_label);
        s.append(")");
        assert(s@ =~= id_debug_text(idx as nat, gener as nat, type_label@));
        s
    }
}

/// An id is its parts: two ids are equal exactly when their arena ids, indexes
/// and generations are, and ids order as their parts do, arena id first, then
/// index, then generation.
pub proof fn lemma_id_is_its_parts<T>(a: Id<T>, b: Id<T>)
    ensures
        a.spec_raw() == b.spec_raw() <==> (a.spec_arena_id() == b.spec_arena_id() && a.spec_idx()
            == b.spec_idx() && a.spec_gener() == b.spec_gener()),
        a.spec_raw() < b.spec_raw() <==> (a.spec_arena_id() < b.spec_arena_id() || (a.spec_arena_id()
            == b.spec_arena_id() && (a.spec_idx() < b.spec_idx() || (a.spec_idx() == b.spec_idx()
            && a.spec_gener() < b.spec_gener())))),
{
    let x = a.spec_raw();
    let y = b.spec_raw();
    assert(x == (x / 0x1_0000_0000_0000) * 0x1_0000_0000_0000 + ((x / 0x100_0000) % 0x100_0000) * 0x100_0000
        + x % 0x100_0000 && x / 0x1_0000_0000_0000 <= 0xFFFF) by (bit_vector);
    assert(y == (y / 0x1_0000_0000_0000) * 0x1_0000_0000_0000 + ((y / 0x100_0000) % 0x100_0000) * 0x100_0000
        + y % 0x100_0000 && y / 0x1_0000_0000_0000 <= 0xFFFF) by (bit_vector);
}

/// The abstract state of a `Managed` arena.
pub struct ManagedModel<T> {
    pub arena_id: u16,
    /// The value in each slot; `None` where the slot is free.
    pub slots: Seq<Option<T>>,
    /// The generation of each slot: even while the slot holds a value, odd once freed.
    pub gens: Seq<u32>,
    /// The freed slots waiting for reuse, the last one reused first.
    pub free: Seq<u32>,
    /// The slots marked to be freed at the next reaping.
    pub reap: Seq<u32>,
}

impl<T> ManagedModel<T> {
    pub open spec fn wf(self) -> bool {
        &&& self.slots.len() == self.gens.len()
        &&& self.slots.len() <= ID_FIELD_MAX
        &&& forall|i: int| 0 <= i < self.gens.len() ==> #[trigger] self.gens[i] <= ID_FIELD_MAX
        &&& forall|i: int|
            0 <= i < self.gens.len() ==> (#[trigger] self.gens[i] % 2 == 0 <==> self.slots[i] is Some)
        &&& forall|j: int|
            0 <= j < self.free.len() ==> #[trigger] self.free[j] < self.gens.len() && self.gens[self.free[j] as int] % 2 == 1
        &&& forall|j: int, k: int| 0 <= j < k < self.free.len() ==> self.free[j] != self.free[k]
        &&& forall|j: int|
            0 <= j < self.reap.len() ==> #[trigger] self.reap[j] < self.gens.len() && self.gens[self.reap[j] as int] % 2 == 0
    }

    /// Whether slot `idx` holds a value.
    pub open spec fn is_live(self, idx: int) -> bool {
        0 <= idx < self.gens.len() && self.gens[idx] % 2 == 0
    }

    /// The slot and generation the next allocation takes.
    pub open spec fn next_slot(self) -> (int, u32) {
        if self.free.len() == 0 {
            (self.slots.len() as int, 0)
        } else {
            let idx = self.free.last() as int;
            (idx, (self.gens[idx] + 1) as u32)
        }
    }

    /// Whether an allocation can proceed: the slot index and the generation it
    /// takes fit in an id.
    pub open spec fn can_alloc(self) -> bool {
        if self.free.len() == 0 {
            self.slots.len() < ID_FIELD_MAX
        } else {
            self.gens[self.free.last() as int] < ID_FIELD_MAX
        }
    }

    /// The state after allocating `val`.
    pub open spec fn after_alloc(self, val: T) -> ManagedModel<T> {
        let (idx, g) = self.next_slot();
        if self.free.len() == 0 {
            ManagedModel {
                slots: self.slots.push(Some(val)),
                gens: self.gens.push(0),
                ..self
            }
        } else {
            ManagedModel {
                slots: self.slots.update(idx, Some(val)),
                gens: self.gens.update(idx, g),
                free: self.free.drop_last(),
                ..self
            }
        }
    }

    /// The value `id` reads, if its generation is the slot's current one.
    pub open spec fn lookup(self, id: Id<T>) -> Option<T> {
        let idx = id.spec_idx() as int;
        if 0 <= idx < self.gens.len() && id.spec_gener() == self.gens[idx] {
            self.slots[idx]
        } else {
            None
        }
    }

    /// Whether `id` may be handed to this arena: it names this arena and one of its slots.
    pub open spec fn accepts(self, id: Id<T>) -> bool {
        id.spec_arena_id() == self.arena_id && id.spec_idx() < self.gens.len()
    }

    /// Whether `id` is one this arena could have handed out: its generation is
    /// even and not newer than the slot's.
    pub open spec fn issued(self, id: Id<T>) -> bool {
        self.accepts(id) && id.spec_gener() % 2 == 0 && id.spec_gener() <= self.gens[id.spec_idx() as int]
    }

    /// The set of slots marked to be freed.
    pub open spec fn reap_set(self) -> Set<int> {
        Set::new(|i: int| exists|j: int| 0 <= j < self.reap.len() && self.reap[j] == i)
    }
}

/// A sequence in strictly increasing order.
pub open spec fn strictly_increasing(s: Seq<u32>) -> bool {
    forall|j: int, k: int| 0 <= j < k < s.len() ==> s[j] < s[k]
}

/// A generational arena: values live in slots addressed by typed `Id`s, and a
/// slot freed and reused gets a new generation, so stale ids read nothing.
pub struct Managed<T, I = Erased> {
    arena_id: u16,
    store: Vec<Option<T>>,
    generations: Vec<u32>,
    free_list: Vec<u32>,
    reap_list: Vec<u32>,
    _iface_marker: PhantomData<I>,
}

impl<T, I> View for Managed<T, I> {
    type V = ManagedModel<T>;

    closed spec fn view(&self) -> ManagedModel<T> {
        ManagedModel {
            arena_id: self.arena_id,
            slots: self.store@,
            gens: self.generations@,
            free: self.free_list@,
            reap: self.reap_list@,
        }
    }
}

/// The state after reaping: every slot marked to be freed is emptied, gets a new
/// (odd) generation, and joins the free list in increasing order of index.
pub open spec fn reaped<T>(before: ManagedModel<T>, after: ManagedModel<T>) -> bool {
    &&& after.arena_id == before.arena_id
    &&& after.reap.len() == 0
    &&& after.slots.len() == before.slots.len()
    &&& after.gens.len() == before.gens.len()
    &&& forall|i: int|
        0 <= i < before.slots.len() ==> #[trigger] after.slots[i] == (if before.reap_set().contains(
            i,
        ) {
            None
        } else {
            before.slots[i]
        })
    &&& forall|i: int|
        0 <= i < before.gens.len() ==> #[trigger] after.gens[i] == (if before.reap_set().contains(
            i,
        ) {
            (before.gens[i] + 1) as u32
        } else {
            before.gens[i]
        })
    &&& after.free.len() >= before.free.len()
    &&& after.free.take(before.free.len() as int) == before.free
    &&& strictly_increasing(after.free.skip(before.free.len() as int))
    &&& forall|x: u32| after.free.skip(before.free.len() as int).contains(x) <==> before.reap.contains(x)
}

impl<T, I> Managed<T, I> {
    /// An empty arena whose ids carry `arena_id`.
    pub fn new(arena_id: u16) -> (m: Self)
        ensures
            m@.wf(),
            m@.arena_id == arena_id,
            m@.slots.len() == 0,
            m@.free.len() == 0,
            m@.reap.len() == 0,
    {
        Managed {
            arena_id,
            store: Vec::new(),
            generations: Vec::new(),
            free_list: Vec::new(),
            reap_list: Vec::new(),
            _iface_marker: PhantomData,
        }
    }

    /// Stores `val` in a free slot, reusing the most recently freed one, and
    /// returns its id.
    pub fn allocate(&mut self, val: T) -> (id: Id<T>)
        requires
            old(self)@.wf(),
            old(self)@.can_alloc(),
        ensures
            final(self)@ == old(self)@.after_alloc(val),
            final(self)@.wf(),
            id.spec_arena_id() == old(self)@.arena_id,
            id.spec_idx() == old(self)@.next_slot().0,
            id.spec_gener() == old(self)@.next_slot().1,
    {
        let arena_id = self.arena_id;
        if self.free_list.len() == 0 {
            let next_idx = self.store.len();
            self.store.push(Some(val));
            self.generations.push(0);
            proof {
                let m = self@;
                assert forall|i: int| 0 <= i < m.gens.len() implies #[trigger] m.gens[i] <= ID_FIELD_MAX && (m.gens[i] % 2 == 0 <==> m.slots[i] is Some) by {
                    if i < next_idx {
                        assert(m.gens[i] == old(self)@.gens[i]);
                    }
                }
                assert(m =~= old(self)@.after_alloc(val));
            }
            Id::new(arena_id, next_idx, 0)
        } else {
            let idx = self.free_list.pop().unwrap();
            let ghost old_free = old(self)@.free;
            assert(idx == old_free.last());
            let g = self.generations[idx as usize] + 1;
            self.store.set(idx as usize, Some(val));
            self.generations.set(idx as usize, g);
            proof {
                let m = self@;
                assert(m.free =~= old_free.drop_last());
                assert forall|j: int| 0 <= j < m.free.len() implies #[trigger] m.free[j] < m.gens.len() && m.gens[m.free[j] as int] % 2 == 1 by {
                    assert(m.free[j] == old_free[j]);
                    assert(old_free[j] != old_free[old_free.len() - 1]);
                }
                assert forall|j: int| 0 <= j < m.reap.len() implies #[trigger] m.reap[j] < m.gens.len() && m.gens[m.reap[j] as int] % 2 == 0 by {
                    assert(old(self)@.gens[old(self)@.reap[j] as int] % 2 == 0);
                }
                assert(m =~= old(self)@.after_alloc(val));
            }
            Id::new(arena_id, idx as usize, g)
        }
    }

    /// Stores `val` and returns its id seen as an id of the interface type.
    pub fn alloc_upcast(&mut self, val: T) -> (id: Id<I>)
        requires
            old(self)@.wf(),
            old(self)@.can_alloc(),
        ensures
            final(self)@ == old(self)@.after_alloc(val),
            final(self)@.wf(),
            id.spec_arena_id() == old(self)@.arena_id,
            id.spec_idx() == old(self)@.next_slot().0,
            id.spec_gener() == old(self)@.next_slot().1,
    {
        Self::upcast(self.allocate(val))
    }

    /// Frees every slot marked by `defer_free`, each once, and puts the freed
    /// slots on the free list in increasing order.
    pub fn reap_deferred_now(&mut self)
        requires
            old(self)@.wf(),
        ensures
            final(self)@.wf(),
            reaped(old(self)@, final(self)@),
    {
        let sorted = sorted_distinct(&self.reap_list);
        self.reap_list.clear();
        let ghost m0 = old(self)@;
        let mut k: usize = 0;
        while k < sorted.len()
            invariant
                k <= sorted@.len(),
                m0.wf(),
                strictly_increasing(sorted@),
                forall|x: u32| sorted@.contains(x) <==> m0.reap.contains(x),
                self.arena_id == m0.arena_id,
                self.reap_list@.len() == 0,
                self.store@.len() == m0.slots.len(),
                self.generations@.len() == m0.gens.len(),
                self.free_list@ == m0.free + sorted@.take(k as int),
                forall|i: int|
                    0 <= i < m0.slots.len() ==> #[trigger] self.store@[i] == (if sorted@.take(
                        k as int,
                    ).contains(i as u32) {
                        None
                    } else {
                        m0.slots[i]
                    }),
                forall|i: int|
                    0 <= i < m0.gens.len() ==> #[trigger] self.generations@[i] == (if sorted@.take(
                        k as int,
                    ).contains(i as u32) {
                        (m0.gens[i] + 1) as u32
                    } else {
                        m0.gens[i]
                    }),
            decreases sorted@.len() - k,
        {
            let idx = sorted[k];
            proof {
                assert(sorted@.contains(idx));
                assert(m0.reap.contains(idx));
                let j = choose|j: int| 0 <= j < m0.reap.len() && m0.reap[j] == idx;
                assert(m0.reap[j] < m0.gens.len());
                assert(!sorted@.take(k as int).contains(idx));
            }
            let g = self.generations[idx as usize];
            proof {
                let j = choose|j: int| 0 <= j < m0.reap.len() && m0.reap[j] == idx;
                assert(m0.gens[m0.reap[j] as int] % 2 == 0);
                assert(m0.gens[idx as int] <= ID_FIELD_MAX);
            }
            self.store.set(idx as usize, None);
            self.generations.set(idx as usize, g + 1);
            self.free_list.push(idx);
            proof {
                let t0 = sorted@.take(k as int);
                let t1 = sorted@.take(k as int + 1);
                assert(t1 =~= t0.push(idx));
                assert(self.free_list@ =~= m0.free + t1);
                assert forall|i: int| 0 <= i < m0.slots.len() implies #[trigger] self.store@[i] == (if t1.contains(i as u32) { None } else { m0.slots[i] }) by {
                    if i == idx as int {
                        assert(t1[k as int] == idx);
                    } else {
                        assert(t1.contains(i as u32) <==> t0.contains(i as u32)) by {
                            if t1.contains(i as u32) {
                                let q = choose|q: int| 0 <= q < t1.len() && t1[q] == i as u32;
                                assert(q < k);
                                assert(t0[q] == i as u32);
                            }
                            if t0.contains(i as u32) {
                                let q = choose|q: int| 0 <= q < t0.len() && t0[q] == i as u32;
                                assert(t1[q] == i as u32);
                            }
                        }
                    }
                }
                assert forall|i: int| 0 <= i < m0.gens.len() implies #[trigger] self.generations@[i] == (if t1.contains(i as u32) { (m0.gens[i] + 1) as u32 } else { m0.gens[i] }) by {
                    if i == idx as int {
                        assert(t1[k as int] == idx);
                    } else {
                        assert(t1.contains(i as u32) <==> t0.contains(i as u32)) by {
                            if t1.contains(i as u32) {
                                let q = choose|q: int| 0 <= q < t1.len() && t1[q] == i as u32;
                                assert(q < k);
                                assert(t0[q] == i as u32);
                            }
                            if t0.contains(i as u32) {
                                let q = choose|q: int| 0 <= q < t0.len() && t0[q] == i as u32;
                                assert(t1[q] == i as u32);
                            }
                        }
                    }
                }
            }
            k = k + 1;
        }
        proof {
            let m = self@;
            assert(sorted@.take(sorted@.len() as int) =~= sorted@);
            assert(m.free.take(m0.free.len() as int) =~= m0.free);
            assert(m.free.skip(m0.free.len() as int) =~= sorted@);
            assert forall|i: int| 0 <= i < m0.slots.len() implies (sorted@.contains(i as u32) <==> m0.reap_set().contains(i)) by {
                if sorted@.contains(i as u32) {
                    assert(m0.reap.contains(i as u32));
                    let j = choose|j: int| 0 <= j < m0.reap.len() && m0.reap[j] == i as u32;
                    assert(m0.reap[j] == i);
                }
                if m0.reap_set().contains(i) {
                    let j = choose|j: int| 0 <= j < m0.reap.len() && m0.reap[j] == i;
                    assert(m0.reap[j] == i as u32);
                    assert(m0.reap.contains(i as u32));
                }
            }
            assert forall|i: int| 0 <= i < m.gens.len() implies #[trigger] m.gens[i] <= ID_FIELD_MAX && (m.gens[i] % 2 == 0 <==> m.slots[i] is Some) by {
                if sorted@.contains(i as u32) {
                    let j = choose|j: int| 0 <= j < m0.reap.len() && m0.reap[j] == i as u32;
                    assert(m0.gens[m0.reap[j] as int] % 2 == 0);
                }
            }
            assert forall|j: int| 0 <= j < m.free.len() implies #[trigger] m.free[j] < m.gens.len() && m.gens[m.free[j] as int] % 2 == 1 by {
                if j < m0.free.len() {
                    let x = m0.free[j];
                    assert(m.free[j] == x);
                    assert(m0.gens[x as int] % 2 == 1);
                    if sorted@.contains(x) {
                        let q = choose|q: int| 0 <= q < m0.reap.len() && m0.reap[q] == x;
                        assert(m0.gens[m0.reap[q] as int] % 2 == 0);
                    }
                } else {
                    let x = sorted@[j - m0.free.len()];
                    assert(m.free[j] == x);
                    assert(sorted@.contains(x));
                    let q = choose|q: int| 0 <= q < m0.reap.len() && m0.reap[q] == x;
                    assert(m0.gens[m0.reap[q] as int] % 2 == 0);
                }
            }
            assert forall|j: int, k2: int| 0 <= j < k2 < m.free.len() implies m.free[j] != m.free[k2] by {
                if k2 < m0.free.len() {
                } else if j < m0.free.len() {
                    let x = m0.free[j];
                    let y = sorted@[k2 - m0.free.len()];
                    assert(sorted@.contains(y));
                    let q = choose|q: int| 0 <= q < m0.reap.len() && m0.reap[q] == y;
                    assert(m0.gens[m0.reap[q] as int] % 2 == 0);
                    assert(m0.gens[x as int] % 2 == 1);
                } else {
                    assert(sorted@[j - m0.free.len()] < sorted@[k2 - m0.free.len()]);
                }
            }
        }
    }

    /// Marks the value of `id` to be freed at the next `reap_deferred_now`.
    /// Returns `false`, and marks nothing, if the value was already freed.
    pub fn defer_free(&mut self, id: Id<T>) -> (r: bool)
        requires
            old(self)@.wf(),
            old(self)@.issued(id),
        ensures
            final(self)@.wf(),
            r == (id.spec_gener() >= old(self)@.gens[id.spec_idx() as int]),
            r ==> final(self)@ == (ManagedModel {
                reap: old(self)@.reap.push(id.spec_idx() as u32),
                ..old(self)@
            }),
            !r ==> final(self)@ == old(self)@,
    {
        let (_arena_id, idx, gener) = id.parts();
        if gener < self.generations[idx] {
            false
        } else {
            self.reap_list.push(idx as u32);
            proof {
                let m = self@;
                assert forall|j: int| 0 <= j < m.reap.len() implies #[trigger] m.reap[j] < m.gens.len() && m.gens[m.reap[j] as int] % 2 == 0 by {
                    if j < old(self)@.reap.len() {
                        assert(m.reap[j] == old(self)@.reap[j]);
                    }
                }
                assert(m =~= ManagedModel { reap: old(self)@.reap.push(id.spec_idx() as u32), ..old(self)@ });
            }
            true
        }
    }

    /// The value of `id`, or `None` if it has been freed.
    pub fn get(&self, id: Id<T>) -> (r: Option<&T>)
        requires
            self@.wf(),
            self@.accepts(id),
        ensures
            r is Some <==> self@.lookup(id) is Some,
            r matches Some(v) ==> self@.lookup(id) == Some(*v),
    {
        let (_arena_id, idx, gener) = id.parts();
        if gener == self.generations[idx] {
            self.store[idx].as_ref()
        } else {
            None
        }
    }

    /// A mutable reference to the value of `id`, or `None` if it has been freed.
    pub fn get_mut(&mut self, id: Id<T>) -> (r: Option<&mut T>)
        requires
            old(self)@.wf(),
            old(self)@.accepts(id),
        ensures
            r is Some <==> old(self)@.lookup(id) is Some,
            r matches Some(v) ==> old(self)@.lookup(id) == Some(*v) && final(self)@ == (ManagedModel {
                slots: old(self)@.slots.update(id.spec_idx() as int, Some(*final(v))),
                ..old(self)@
            }),
            r is None ==> final(self)@ == old(self)@,
    {
        let (_arena_id, idx, gener) = id.parts();
        if gener == self.generations[idx] && self.store[idx].is_some() {
            self.store[idx].as_mut()
        } else {
            None
        }
    }

    /// Whether slot `idx` holds a value.
    pub fn is_idx_live(&self, idx: usize) -> (r: bool)
        ensures
            r == self@.is_live(idx as int),
    {
        if idx < self.generations.len() {
            let g = self.generations[idx];
            assert(g & 1 == 0 <==> g % 2 == 0) by (bit_vector);
            g & 1 == 0
        } else {
            false
        }
    }

    pub fn upcast(id: Id<T>) -> (r: Id<I>)
        ensures
            r.spec_raw() == id.spec_raw(),
    {
        id.cast()
    }

    pub fn downcast(id: Id<I>) -> (r: Id<T>)
        ensures
            r.spec_raw() == id.spec_raw(),
    {
        id.cast()
    }
}

/// A value reads back through the id it was stored under.
pub proof fn lemma_alloc_then_get<T>(m: ManagedModel<T>, val: T, id: Id<T>)
    requires
        m.wf(),
        m.can_alloc(),
        id.spec_idx() == m.next_slot().0,
        id.spec_gener() == m.next_slot().1,
    ensures
        m.after_alloc(val).lookup(id) == Some(val),
        m.after_alloc(val).wf() ==> m.after_alloc(val).is_live(id.spec_idx() as int),
{
    if m.free.len() > 0 {
        let idx = m.free.last() as int;
        assert(m.free[m.free.len() - 1] < m.gens.len());
        assert(m.gens[idx] % 2 == 1);
    }
}

/// A value marked for freeing reads nothing once the arena has been reaped, and
/// its id is older than the slot's generation.
pub proof fn lemma_reaped_id_is_stale<T>(before: ManagedModel<T>, after: ManagedModel<T>, id: Id<T>)
    requires
        before.wf(),
        reaped(before, after),
        before.accepts(id),
        id.spec_gener() == before.gens[id.spec_idx() as int],
        before.reap.contains(id.spec_idx() as u32),
    ensures
        after.lookup(id) is None,
        id.spec_gener() < after.gens[id.spec_idx() as int],
        !after.is_live(id.spec_idx() as int),
{
    let i = id.spec_idx() as int;
    let j = choose|j: int| 0 <= j < before.reap.len() && before.reap[j] == i as u32;
    assert(before.reap[j] == i);
    assert(before.reap_set().contains(i));
    assert(before.gens[before.reap[j] as int] % 2 == 0);
}

/// An id older than its slot stays unreadable through any later allocation.
pub proof fn lemma_stale_stays_stale<T>(m: ManagedModel<T>, val: T, id: Id<T>)
    requires
        m.wf(),
        m.can_alloc(),
        m.accepts(id),
        id.spec_gener() < m.gens[id.spec_idx() as int],
    ensures
        m.after_alloc(val).lookup(id) is None,
        id.spec_gener() < m.after_alloc(val).gens[id.spec_idx() as int],
{
}

/// Allocating keeps every other slot's value and generation.
pub proof fn lemma_alloc_frame<T>(m: ManagedModel<T>, val: T, i: int)
    requires
        m.wf(),
        0 <= i < m.slots.len(),
        i != m.next_slot().0,
    ensures
        m.after_alloc(val).slots[i] == m.slots[i],
        m.after_alloc(val).gens[i] == m.gens[i],
{
}

/// The distinct values of `v`, in increasing order.
fn sorted_distinct(v: &Vec<u32>) -> (r: Vec<u32>)
    ensures
        strictly_increasing(r@),
        forall|x: u32| r@.contains(x) <==> v@.contains(x),
{
    let mut r: Vec<u32> = Vec::new();
    let mut i: usize = 0;
    while i < v.len()
        invariant
            i <= v@.len(),
            strictly_increasing(r@),
            forall|x: u32| r@.contains(x) <==> v@.take(i as int).contains(x),
        decreases v@.len() - i,
    {
        let x = v[i];
        let mut pos: usize = 0;
        while pos < r.len() && r[pos] < x
            invariant
                pos <= r@.len(),
                strictly_increasing(r@),
                forall|j: int| 0 <= j < pos ==> r@[j] < x,
            decreases r@.len() - pos,
        {
            pos = pos + 1;
        }
        let ghost before = r@;
        if pos == r.len() || r[pos] != x {
            r.insert(pos, x);
            proof {
                assert forall|j: int, k: int| 0 <= j < k < r@.len() implies r@[j] < r@[k] by {
                    if k < pos {
                    } else if j < pos && k == pos {
                    } else if j < pos {
                        assert(r@[k] == before[k - 1]);
                        assert(before[j] < before[k - 1] || j == k - 1);
                    } else if j == pos {
                        assert(r@[k] == before[k - 1]);
                        assert(before[pos as int] >= x);
                        assert(before[pos as int] <= before[k - 1]);
                    } else {
                        assert(r@[j] == before[j - 1] && r@[k] == before[k - 1]);
                    }
                }
            }
        }
        proof {
            let t0 = v@.take(i as int);
            let t1 = v@.take(i as int + 1);
            assert(t1 =~= t0.push(x));
            assert forall|y: u32| r@.contains(y) <==> t1.contains(y) by {
                if y == x {
                    if r@.contains(y) {
                        assert(t1[i as int] == x);
                    } else {
                        assert(r@[pos as int] == x);
                    }
                } else {
                    if r@.contains(y) {
                        let j = choose|j: int| 0 <= j < r@.len() && r@[j] == y;
                        if r@.len() > before.len() {
                            if j < pos {
                                assert(before[j] == y);
                            } else {
                                assert(before[j - 1] == y);
                            }
                        }
                        assert(before.contains(y));
                        assert(t0.contains(y));
                        let k = choose|k: int| 0 <= k < t0.len() && t0[k] == y;
                        assert(t1[k] == y);
                    } else {
                        if t1.contains(y) {
                            let k = choose|k: int| 0 <= k < t1.len() && t1[k] == y;
                            assert(k < i);
                            assert(t0[k] == y);
                            assert(before.contains(y));
                            let j = choose|j: int| 0 <= j < before.len() && before[j] == y;
                            if r@.len() > before.len() {
                                if j < pos {
                                    assert(r@[j] == y);
                                } else {
                                    assert(r@[j + 1] == y);
                                }
                            } else {
                                assert(r@[j] == y);
                            }
                        }
                    }
                }
            }
        }
        i = i + 1;
    }
    assert(v@.take(v@.len() as int) =~= v@);
    r
}

} // verus!

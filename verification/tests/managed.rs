use lib::ffi::{Erased, Tex};
use std::cmp::Ordering;
use std::collections::hash_map::DefaultHasher;
use std::hash::{Hash, Hasher};

use lib::managed::{Id, Managed};

#[derive(Debug, PartialEq, Eq, PartialOrd, Ord, Hash)]
struct Dummy;

#[test]
fn managed_drop_on_container_drop() {
    let mut managed = Managed::<_, Erased>::new(1);
    let _ = managed.allocate(String::from("Hello, World!"));
    drop(managed)
}

#[test]
fn managed_drop_on_free() {
    let mut managed = Managed::<_, Erased>::new(1);
    let id = managed.allocate(String::from("Hello, World!"));
    managed.defer_free(id);
    managed.reap_deferred_now();
}

#[test]
fn test_managed() {
    let mut managed = Managed::<_, Erased>::new(1);

    assert_eq!(managed.is_idx_live(0), false);
    assert_eq!(managed.is_idx_live(1), false);
    assert_eq!(managed.is_idx_live(2), false);
    let id = managed.allocate(5);
    assert_eq!(managed.is_idx_live(id.idx()), true);
    assert_eq!(managed.get(id), Some(&5));
    assert_eq!(managed.get_mut(id), Some(&mut 5));
    assert_eq!(managed.defer_free(id), true);
    assert_eq!(managed.get(id), Some(&5));
    assert_eq!(managed.is_idx_live(id.idx()), true);
    managed.reap_deferred_now();
    assert_eq!(managed.is_idx_live(id.idx()), false);
    assert_eq!(managed.defer_free(id), false);
    assert_eq!(managed.get(id), None);
    assert_eq!(managed.get_mut(id), None);
    let id2 = managed.allocate(6);
    let id3 = managed.allocate(7);
    assert_eq!(managed.is_idx_live(id.idx()), true); // Because the slot is being reused
    assert_eq!(managed.is_idx_live(id2.idx()), true);
    assert_eq!(managed.is_idx_live(id3.idx()), true);
    assert_eq!(managed.get(id2), Some(&6));
    assert_ne!(id, id2);
    assert_eq!(managed.is_idx_live(0), true);
    assert_eq!(managed.is_idx_live(1), true);
    assert_eq!(managed.is_idx_live(2), false);
}

#[test]
fn id_packs_and_unpacks_its_parts() {
    struct Dummy;
    let id: Id<Dummy> = Id::new(1, 3, 5);
    assert_eq!(id.parts(), (1, 3, 5));
    let id: Id<Dummy> = Id::new(0xFFFF, 0xFFFFFF, 0xFFFFFF);
    assert_eq!(id.arena_id(), 0xFFFF);
    assert_eq!(id.idx(), 0xFFFFFF);
    assert_eq!(id.gener(), 0xFFFFFF);
    let copy = id;
    assert!(copy == id);
    assert!(Id::<Dummy>::new(1, 3, 5) != Id::<Dummy>::new(1, 3, 7));
}

#[test]
fn reaping_frees_each_slot_once_in_increasing_order() {
    let mut managed = Managed::<u32, Erased>::new(2);
    let a = managed.allocate(10);
    let b = managed.allocate(11);
    let c = managed.allocate(12);
    assert!(managed.defer_free(c));
    assert!(managed.defer_free(a));
    assert!(managed.defer_free(c));
    managed.reap_deferred_now();
    assert_eq!(managed.get(a), None);
    assert_eq!(managed.get(c), None);
    assert_eq!(managed.get(b), Some(&11));
    // The free list now holds slots 0 and 2; slot 2 is reused first.
    let d = managed.allocate(13);
    assert_eq!(d.parts(), (2, 2, 2));
    let e = managed.allocate(14);
    assert_eq!(e.parts(), (2, 0, 2));
    let f = managed.allocate(15);
    assert_eq!(f.parts(), (2, 3, 0));
    assert_eq!(managed.get(a), None);
    assert_eq!(managed.get(e), Some(&14));
}

#[test]
fn upcast_and_downcast_keep_the_id() {
    struct Iface;
    let mut managed = Managed::<u8, Iface>::new(3);
    let up = managed.alloc_upcast(9);
    let down = Managed::<u8, Iface>::downcast(up);
    assert_eq!(down.parts(), up.parts());
    assert_eq!(managed.get(down), Some(&9));
    if let Some(v) = managed.get_mut(down) {
        *v = 10;
    }
    assert_eq!(managed.get(down), Some(&10));
    let again = Managed::<u8, Iface>::upcast(down);
    assert_eq!(again.parts(), up.parts());
}

#[test]
fn test_id() {
    let id: Id<Dummy> = Id::new(1, 3, 5);
    let _id2 = id.clone();
    let _id3 = id; // using Copy trait
    assert!(id.eq(&_id2)); // Using Eq trait
    assert_eq!(id.cmp(&_id2), Ordering::Equal); // Using Ord trait
    assert_eq!(id.partial_cmp(&_id2), Some(Ordering::Equal)); // Using PartialOrd trait
    let mut state = DefaultHasher::new();
    id.hash(&mut state);
    let mut state2 = DefaultHasher::new();
    ((1u64 << 48) | (3u64 << 24) | 5u64).hash(&mut state2);
    assert_eq!(state.finish(), state2.finish());
    assert_eq!(id.parts(), (1, 3, 5));
    assert_eq!(
        id.debug_text("arena::managed::tests::test_id::Dummy"),
        "Id(idx=3, gen=5, type=arena::managed::tests::test_id::Dummy)"
    );
}

#[test]
fn ids_are_equal_and_ordered_by_their_parts() {
    let a = Id::<Dummy>::new(1, 3, 5);
    assert_eq!(a, Id::<Dummy>::new(1, 3, 5));
    assert_ne!(a, Id::<Dummy>::new(1, 3, 6));
    assert_ne!(a, Id::<Dummy>::new(1, 4, 5));
    assert_ne!(a, Id::<Dummy>::new(2, 3, 5));
    assert_eq!(a.cmp(&Id::new(1, 3, 6)), Ordering::Less);
    assert_eq!(a.cmp(&Id::new(1, 4, 0)), Ordering::Less);
    assert_eq!(a.cmp(&Id::new(2, 0, 0)), Ordering::Less);
    assert_eq!(Id::<Dummy>::new(1, 0xFFFFFF, 0xFFFFFF).cmp(&Id::new(2, 0, 0)), Ordering::Less);
    assert_eq!(a.cmp(&Id::new(1, 2, 0xFFFFFF)), Ordering::Greater);
}

#[test]
fn debug_text_writes_numbers_in_decimal() {
    let id = Id::<Dummy>::new(7, 1234, 0xFFFFFF);
    assert_eq!(id.debug_text("T"), "Id(idx=1234, gen=16777215, type=T)");
    let id = Id::<Dummy>::new(0, 0, 10);
    assert_eq!(id.debug_text(""), "Id(idx=0, gen=10, type=)");
}

#[test]
fn texture_ids_can_be_ordered_and_hashed() {
    let a: Id<Tex> = Id::new(0, 1, 2);
    let b: Id<Tex> = Id::new(0, 1, 4);
    assert_eq!(a.cmp(&b), Ordering::Less);
    let mut h1 = DefaultHasher::new();
    a.hash(&mut h1);
    let mut h2 = DefaultHasher::new();
    a.hash(&mut h2);
    assert_eq!(h1.finish(), h2.finish());
}

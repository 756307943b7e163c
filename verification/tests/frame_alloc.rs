use lib::arena::Arena;
use lib::mem::Mem;
use lib::rt_common::frame_alloc::{SharedAllocState, make_alloc_tools};

#[test]
fn test_alloc_manager() {
    let mut shared = SharedAllocState::new();
    let (mut manager, retirer, cleanup) = make_alloc_tools(&mut shared);

    let alloc = manager.get_alloc();
    assert_eq!(alloc.alloc_seq, 1);
    assert_eq!(manager.in_use_count(), 1);

    let alloc = manager.get_alloc();
    assert_eq!(alloc.alloc_seq, 2);
    assert_eq!(manager.in_use_count(), 2);

    let alloc = manager.get_alloc();
    assert_eq!(alloc.alloc_seq, 3);
    assert_eq!(manager.in_use_count(), 3);
    assert_eq!(manager.free_pool_count(), 0);

    retirer.retire_early(2);

    let alloc = manager.get_alloc();
    assert_eq!(alloc.alloc_seq, 4);
    assert_eq!(manager.in_use_count(), 3);
    assert_eq!(manager.free_pool_count(), 0);

    retirer.retire_up_to(3);

    let alloc = manager.get_alloc();
    assert_eq!(alloc.alloc_seq, 5);
    assert_eq!(manager.in_use_count(), 2);
    assert_eq!(manager.free_pool_count(), 1);

    retirer.retire_up_to(5);

    let alloc = manager.get_alloc();
    assert_eq!(alloc.alloc_seq, 6);
    assert_eq!(manager.in_use_count(), 1);
    assert_eq!(manager.free_pool_count(), 2);

    let alloc = manager.get_alloc();
    assert_eq!(alloc.alloc_seq, 7);
    assert_eq!(manager.in_use_count(), 2);
    assert_eq!(manager.free_pool_count(), 1);

    let alloc = manager.get_alloc();
    assert_eq!(alloc.alloc_seq, 8);
    assert_eq!(manager.in_use_count(), 3);
    assert_eq!(manager.free_pool_count(), 0);

    retirer.retire_early(7);
    retirer.retire_up_to(8);

    let alloc = manager.get_alloc();
    assert_eq!(alloc.alloc_seq, 9);
    assert_eq!(manager.in_use_count(), 1);
    assert_eq!(manager.free_pool_count(), 2);

    cleanup.cleanup();
    manager.process_retired();
    assert!(manager.is_cleaned_up());
}

#[test]
fn retiring_moves_the_named_sequences_to_the_free_pool() {
    let mut shared = SharedAllocState::new();
    let (mut manager, _retirer, _cleanup) = make_alloc_tools(&mut shared);
    for _ in 0..5 {
        let _ = manager.get_alloc();
    }
    manager.retire(2, 4);
    assert_eq!(manager.in_use_count(), 2);
    assert_eq!(manager.free_pool_count(), 3);
    manager.retire_single(9);
    assert_eq!(manager.in_use_count(), 2);
    manager.retire(0, 3);
    assert_eq!(manager.in_use_count(), 1);
    manager.retire(5, 0);
    assert!(manager.is_cleaned_up());
    assert_eq!(manager.free_pool_count(), 5);
}

#[test]
fn a_reused_allocator_starts_empty() {
    let mut shared = SharedAllocState::new();
    let (mut manager, retirer, _cleanup) = make_alloc_tools(&mut shared);
    let mem = manager.get_alloc();
    let v = mem.arena.alloc_val(7u32);
    assert_eq!(mem.arena.val_get(&v), 7);
    retirer.retire_up_to(1);
    let mem = manager.get_alloc();
    assert_eq!(mem.alloc_seq, 2);
    assert_eq!(mem.arena.memory_usage().content_bytes, 0);
}

#[test]
fn test_mem() {
    let mut arena = Arena::default();
    let ag = arena.fresh_arena(1);
    let mut mem = Mem::new(ag);

    let vec = mem.vec();
    mem.arena.vec_push(&vec, 69);
    let val = mem.val(420);
    let slice = mem.slice(&[1, 2, 3]);
    let slice_from_iter = mem.from_iter(&[4, 5, 6]);

    assert_eq!(mem.arena.vec_to_vec(&vec), &[69]);
    assert_eq!(mem.arena.val_get(&val), 420);
    assert_eq!(mem.arena.slice_to_vec(&slice), &[1, 2, 3]);
    assert_eq!(mem.arena.slice_to_vec(&slice_from_iter), &[4, 5, 6]);
}

#[test]
fn next_alloc_reuses_a_retired_allocator() {
    let mut shared = SharedAllocState::new();
    let (mut m, _r, _c) = make_alloc_tools(&mut shared);
    for expected in 1..=3 {
        let mem = m.next_alloc();
        assert_eq!(mem.alloc_seq, expected);
    }
    assert_eq!((m.in_use_count(), m.free_pool_count()), (3, 0));

    m.retire(0, 2);
    assert_eq!((m.in_use_count(), m.free_pool_count()), (2, 1));
    assert_eq!(m.next_alloc().alloc_seq, 4);
    assert_eq!((m.in_use_count(), m.free_pool_count()), (3, 0));

    m.retire(3, 0);
    assert_eq!(m.next_alloc().alloc_seq, 5);
    assert_eq!((m.in_use_count(), m.free_pool_count()), (2, 1));
}

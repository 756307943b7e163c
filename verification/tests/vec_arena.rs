use lib::vec_arena::{Allocator, VecArena};

#[test]
fn lib_test_no_allocation() {
    let mut arena = VecArena::new();
    let _vec = arena.allocate_vec::<u32>();

    drop(arena);
}

#[test]
fn test_empty_allocation() {
    let arena = VecArena::new();

    drop(arena);
}

#[test]
fn test_basic_allocation() {
    let mut arena = VecArena::new();

    let vec = arena.allocate_vec::<u32>();
    assert_eq!(arena.vec_len(&vec), 0);

    arena.vec_push(&vec, 42);
    arena.vec_push(&vec, 100);

    assert_eq!(arena.vec_len(&vec), 2);
    assert_eq!(arena.vec_get(&vec, 0), 42);
    assert_eq!(arena.vec_get(&vec, 1), 100);

    drop(arena);
}

#[test]
fn test_same_layout() {
    let mut arena = VecArena::new();

    let vec1 = arena.allocate_vec::<u8>();
    let vec2 = arena.allocate_vec::<u8>();

    arena.vec_extend_from_slice(&vec1, &[1, 2, 3]);
    arena.vec_extend_from_slice(&vec2, &[4, 5, 6]);

    assert_eq!(arena.vec_to_vec(&vec1), &[1, 2, 3]);
    assert_eq!(arena.vec_to_vec(&vec2), &[4, 5, 6]);
}

#[test]
fn test_multiple_allocations() {
    let mut arena = VecArena::new();

    let vec1 = arena.allocate_vec::<u8>();
    let vec2 = arena.allocate_vec::<u16>();
    let vec3 = arena.allocate_vec::<u32>();
    let vec4 = arena.allocate_vec::<u64>();
    let vec5 = arena.allocate_vec::<u8>();

    arena.vec_extend_from_slice(&vec1, &[1, 2, 3]);
    arena.vec_extend_from_slice(&vec2, &[10, 20, 30]);
    arena.vec_extend_from_slice(&vec3, &[100, 200, 300]);
    arena.vec_extend_from_slice(&vec4, &[1000, 2000, 3000]);
    arena.vec_extend_from_slice(&vec5, &[4, 5, 6]);

    assert_eq!(arena.vec_to_vec(&vec1), &[1, 2, 3]);
    assert_eq!(arena.vec_to_vec(&vec2), &[10, 20, 30]);
    assert_eq!(arena.vec_to_vec(&vec3), &[100, 200, 300]);
    assert_eq!(arena.vec_to_vec(&vec4), &[1000, 2000, 3000]);
    assert_eq!(arena.vec_to_vec(&vec5), &[4, 5, 6]);
}

#[test]
fn test_reset() {
    let mut alloc = Allocator::default();
    let arena = alloc.new_arena();

    let vec = arena.allocate_vec::<u32>();
    arena.vec_push(&vec, 42);
    assert_eq!(arena.vec_len(&vec), 1);

    let arena = alloc.new_arena();
    let vec = arena.allocate_vec::<u32>();
    assert_eq!(arena.vec_len(&vec), 0);
}

#[test]
fn test_different_alignments() {
    let mut arena = VecArena::new();

    let vec1 = arena.allocate_vec::<u8>();
    let vec2 = arena.allocate_vec::<u16>();
    let vec4 = arena.allocate_vec::<u32>();
    let vec8 = arena.allocate_vec::<u64>();
    let vec16 = arena.allocate_vec::<u128>();

    arena.vec_push(&vec1, 1);
    arena.vec_push(&vec2, 2);
    arena.vec_push(&vec4, 4);
    arena.vec_push(&vec8, 8);
    arena.vec_push(&vec16, 16);

    assert_eq!(arena.vec_get(&vec1, 0), 1);
    assert_eq!(arena.vec_get(&vec2, 0), 2);
    assert_eq!(arena.vec_get(&vec4, 0), 4);
    assert_eq!(arena.vec_get(&vec8, 0), 8);
    assert_eq!(arena.vec_get(&vec16, 0), 16);
}

#[test]
fn test_large_allocation() {
    let mut arena = VecArena::new();

    let vec = arena.allocate_vec::<u32>();
    for i in 0..1000 {
        arena.vec_push(&vec, i);
    }

    assert_eq!(arena.vec_len(&vec), 1000);
    for i in 0..1000 {
        assert_eq!(arena.vec_get(&vec, i), i as u32);
    }
}

#[test]
fn lib_test_multiple_vectors_same_type() {
    let mut arena = VecArena::new();

    let vectors: Vec<_> = (0..10)
        .map(|i| {
            let vec = arena.allocate_vec::<u32>();
            arena.vec_push(&vec, i);
            vec
        })
        .collect();

    for (i, vec) in vectors.iter().enumerate() {
        assert_eq!(arena.vec_len(vec), 1);
        assert_eq!(arena.vec_get(vec, 0), i as u32);
    }
}

#[test]
fn lib_test_vector_capacity_reuse() {
    let mut alloc = Allocator::default();

    let arena = alloc.new_arena();

    let vec_u32_a = arena.allocate_vec::<u32>();
    let vec_u32_b = arena.allocate_vec::<u32>();
    for i in 0..1000 {
        arena.vec_push(&vec_u32_a, i);
    }
    for i in 0..500 {
        arena.vec_push(&vec_u32_b, i);
    }

    let arena = alloc.new_arena();
    let vec_u32 = arena.allocate_vec::<u32>();
    // i32 has the size and alignment of u32 and shares its slots.
    let vec_i32 = arena.allocate_vec::<i32>();
    assert!(arena.vec_capacity(&vec_u32) >= 1000, "u32 vector capacity should be reused");
    assert!(
        arena.vec_capacity(&vec_i32) >= 500,
        "Vectors with same alignment should share capacity pool"
    );
}

#[test]
fn test_memory_usage() {
    let mut alloc = Allocator::default();
    let arena = alloc.new_arena();

    let initial_usage = arena.memory_usage();
    assert_eq!(initial_usage.used_slots, 0);
    assert_eq!(initial_usage.chunk_count, 0);
    assert_eq!(initial_usage.total_slots, 0);
    let initial_slot_utilization = initial_usage.used_slots as f64 / initial_usage.total_slots as f64;
    assert!(initial_slot_utilization.is_nan());

    let vec1 = arena.allocate_vec::<u8>();
    arena.vec_extend_from_slice(&vec1, &[1, 2, 3, 4, 5]);
    let _vec1_2 = arena.allocate_vec::<u8>();
    let _vec2 = arena.allocate_vec::<u32>();
    let _vec3 = arena.allocate_vec::<u64>();
    let _vec3_2 = arena.allocate_vec::<(u64, u64)>();

    let after_alloc = arena.memory_usage();
    assert_eq!(after_alloc.used_slots, 5);
    assert_eq!(after_alloc.chunk_count, 4);

    let arena = alloc.new_arena();
    let vec1 = arena.allocate_vec::<u8>();
    let vec2 = arena.allocate_vec::<u32>();
    let vec3 = arena.allocate_vec::<u64>();

    arena.vec_extend_from_slice(&vec1, &[1, 2, 3, 4, 5]);
    arena.vec_extend_from_slice(&vec2, &[10, 20, 30]);
    arena.vec_extend_from_slice(&vec3, &[100, 200]);

    let after_data = arena.memory_usage();

    let expected_content_bytes = 5 * std::mem::size_of::<u8>()
        + 3 * std::mem::size_of::<u32>()
        + 2 * std::mem::size_of::<u64>();

    assert_eq!(after_data.vector_content_bytes, expected_content_bytes);
    assert!(after_data.vector_capacity_bytes >= expected_content_bytes);
    assert!(after_data.overhead_bytes > 0);
    let memory_utilization = after_data.vector_content_bytes as f64 / after_data.total_bytes() as f64;
    assert!(memory_utilization > 0.0);
    let slot_utilization = after_data.used_slots as f64 / after_data.total_slots as f64;
    assert!(slot_utilization > 0.0);

    let arena = alloc.new_arena();
    let after_reset = arena.memory_usage();
    let slot_utilization = after_reset.used_slots as f64 / after_reset.total_slots as f64;
    assert!(slot_utilization == 0.0);

    assert_eq!(after_reset.vector_content_bytes, 0, "Vector content bytes should be 0 after reset");
    assert!(after_reset.vector_capacity_bytes > 0, "Vector capacity bytes should be preserved");
    assert!(after_reset.total_slots > 0, "Total slots should be preserved after reset");
    assert_eq!(after_reset.used_slots, 0, "Used slots should be 0 after reset");
    assert!(after_reset.overhead_bytes > 0, "Overhead bytes should exist after reset");

    for _ in 0..10 {
        let vec = arena.allocate_vec::<u32>();
        for _ in 0..100 {
            arena.vec_push(&vec, 42);
        }
    }

    let alloc_usage = alloc.memory_usage();
    assert_eq!(alloc_usage.used_slots, 10);
    assert_eq!(alloc_usage.vector_content_bytes, 10 * 100 * std::mem::size_of::<u32>());
    assert!(alloc_usage.chunk_count > 0);
}

#[test]
fn lib_test_chunk_consolidation() {
    let mut alloc = Allocator::default();

    let arena = alloc.new_arena();
    for _ in 0..100 {
        let vec_u32 = arena.allocate_vec::<u32>();
        let vec_u64 = arena.allocate_vec::<u64>();
        for i in 0..20 {
            arena.vec_push(&vec_u32, i);
            arena.vec_push(&vec_u64, i as u64);
        }
    }

    let arena = alloc.new_arena();
    for _ in 0..100 {
        let vec_u32 = arena.allocate_vec::<u32>();
        let vec_u64 = arena.allocate_vec::<u64>();
        assert!(arena.vec_capacity(&vec_u32) >= 20);
        assert!(arena.vec_capacity(&vec_u64) >= 20);
    }

    let arena = alloc.new_arena();
    for _ in 0..100 {
        let vec_u32 = arena.allocate_vec::<u32>();
        let vec_u64 = arena.allocate_vec::<u64>();
        assert!(arena.vec_capacity(&vec_u32) >= 20);
        assert!(arena.vec_capacity(&vec_u64) >= 20);
    }
}

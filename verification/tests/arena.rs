use lib::arena::guard::ArenaGuard;
use lib::arena::val::ByAlign;
use lib::arena::{Arena, MemoryUsage};

#[test]
fn tests_test_no_allocation() {
    let mut alloc = Arena::default();
    let _arena = alloc.fresh_arena(1);
}

#[test]
fn test_empty_vec_allocation() {
    let mut alloc = Arena::default();
    let arena = alloc.fresh_arena(1);
    let _vec = arena.alloc_vec::<u32>();
}

#[test]
fn test_basic_vec_allocation() {
    let mut alloc = Arena::default();
    let arena = alloc.fresh_arena(1);

    let vec = arena.alloc_vec::<u32>();
    assert_eq!(arena.vec_len(&vec), 0);

    arena.vec_push(&vec, 42);
    arena.vec_push(&vec, 100);

    assert_eq!(arena.vec_len(&vec), 2);
    assert_eq!(arena.vec_get(&vec, 0), 42);
    assert_eq!(arena.vec_get(&vec, 1), 100);
}

#[test]
fn test_basic_val_allocation() {
    let mut alloc = Arena::default();
    let arena = alloc.fresh_arena(1);

    let val1 = arena.alloc_val(42u32);
    let val2 = arena.alloc_val(100u32);

    assert_eq!(arena.val_get(&val1), 42);
    assert_eq!(arena.val_get(&val2), 100);

    arena.val_set(&val1, 99);
    assert_eq!(arena.val_get(&val1), 99);
    assert_eq!(arena.val_get(&val2), 100);
}

#[test]
fn test_same_vec_layout() {
    let mut alloc = Arena::default();
    let arena = alloc.fresh_arena(1);

    let vec1 = arena.alloc_vec::<u8>();
    let vec2 = arena.alloc_vec::<u8>();

    arena.vec_extend_from_slice(&vec1, &[1, 2, 3]);
    arena.vec_extend_from_slice(&vec2, &[4, 5, 6]);

    assert_eq!(arena.vec_to_vec(&vec1), &[1, 2, 3]);
    assert_eq!(arena.vec_to_vec(&vec2), &[4, 5, 6]);
}

#[test]
fn test_multiple_vec_allocations() {
    let mut alloc = Arena::default();
    let arena = alloc.fresh_arena(1);

    let vec1 = arena.alloc_vec::<u8>();
    let vec2 = arena.alloc_vec::<u16>();
    let vec3 = arena.alloc_vec::<u32>();
    let vec4 = arena.alloc_vec::<u64>();
    let vec5 = arena.alloc_vec::<u8>();

    arena.vec_extend_from_slice(&vec1, &[1, 2, 3]);
    arena.vec_extend_from_slice(&vec2, &[10, 20, 30]);
    arena.vec_extend_from_slice(&vec3, &[100, 200, 300]);
    arena.vec_extend_from_slice(&vec4, &[1000, 2000, 3000]);
    arena.vec_extend_from_slice(&vec5, &[4, 5, 6]);

    assert_eq!(arena.vec_to_vec(&vec1), &[1, 2, 3]);
    assert_eq!(arena.vec_to_vec(&vec2), &[10, 20, 30]);
    assert_eq!(arena.vec_to_vec(&vec3), &[100, 200, 300]);
    assert_eq!(arena.vec_to_vec(&vec4), &[1000, 2000, 3000]);
    assert_eq!(arena.vec_to_vec(&vec5), &[4, 5, 6]);
}

#[test]
fn test_different_vec_alignments() {
    let mut alloc = Arena::default();
    let arena = alloc.fresh_arena(1);

    let vec1 = arena.alloc_vec::<u8>();
    let vec2 = arena.alloc_vec::<u16>();
    let vec4 = arena.alloc_vec::<u32>();
    let vec8 = arena.alloc_vec::<u64>();
    let vec16 = arena.alloc_vec::<u128>();
    let vec8_8 = arena.alloc_vec::<[u64; 2]>();

    arena.vec_push(&vec1, 1);
    arena.vec_push(&vec2, 2);
    arena.vec_push(&vec4, 4);
    arena.vec_push(&vec8, 8);
    arena.vec_push(&vec16, 16);
    arena.vec_push(&vec8_8, [16, 16]);

    assert_eq!(arena.vec_get(&vec1, 0), 1);
    assert_eq!(arena.vec_get(&vec2, 0), 2);
    assert_eq!(arena.vec_get(&vec4, 0), 4);
    assert_eq!(arena.vec_get(&vec8, 0), 8);
    assert_eq!(arena.vec_get(&vec16, 0), 16);
    assert_eq!(arena.vec_get(&vec8_8, 0), [16, 16]);
}

#[test]
fn test_different_val_alignments() {
    let mut alloc = Arena::default();
    let arena = alloc.fresh_arena(1);

    let val1 = arena.alloc_val(0x42_u8);
    let val2 = arena.alloc_val(0x4243_u16);
    let val3 = arena.alloc_val(0x42434445_u32);
    let val4 = arena.alloc_val(0x4243444546474849_u64);
    let val5 = arena.alloc_val(0x42434445464748495051525354555657_u128);

    assert_eq!(arena.val_get(&val1), 0x42u8);
    assert_eq!(arena.val_get(&val2), 0x4243u16);
    assert_eq!(arena.val_get(&val3), 0x42434445u32);
    assert_eq!(arena.val_get(&val4), 0x4243444546474849u64);
    assert_eq!(arena.val_get(&val5), 0x42434445464748495051525354555657_u128);

    let mut usage = MemoryUsage::default();
    arena.val_memory_usage(&mut usage);

    let expected_content = size_of::<u8>()
        + size_of::<u16>()
        + size_of::<u32>()
        + size_of::<u64>()
        + size_of::<u128>();
    assert_eq!(usage.content_bytes, expected_content);

    arena.val_set(&val1, 0x11);
    arena.val_set(&val2, 0x2222);
    arena.val_set(&val3, 0x33333333);
    arena.val_set(&val4, 0x4444444444444444);
    arena.val_set(&val5, 0x55555555555555555555555555555555);

    assert_eq!(arena.val_get(&val1), 0x11);
    assert_eq!(arena.val_get(&val2), 0x2222);
    assert_eq!(arena.val_get(&val3), 0x33333333);
    assert_eq!(arena.val_get(&val4), 0x4444444444444444);
    assert_eq!(arena.val_get(&val5), 0x55555555555555555555555555555555);

    let mut usage = MemoryUsage::default();
    arena.val_memory_usage(&mut usage);
    assert_eq!(usage.content_bytes, expected_content);
}

#[test]
fn test_vec_reset() {
    let mut alloc = Arena::default();
    let arena = alloc.fresh_arena(1);

    let vec = arena.alloc_vec::<u32>();
    arena.vec_push(&vec, 42);
    assert_eq!(arena.vec_len(&vec), 1);

    let arena = alloc.fresh_arena(2);
    let vec = arena.alloc_vec::<u32>();
    assert_eq!(arena.vec_len(&vec), 0);
}

#[test]
fn tests_test_val_reset() {
    let mut alloc = Arena::default();
    let arena = alloc.fresh_arena(1);

    let val1 = arena.alloc_val(42u32);
    let val2 = arena.alloc_val(43u64);
    assert_eq!(arena.val_get(&val1), 42u32);
    assert_eq!(arena.val_get(&val2), 43u64);

    let arena = alloc.fresh_arena(2);

    let new_val1 = arena.alloc_val(100u32);
    let new_val2 = arena.alloc_val(200u64);
    assert_eq!(arena.val_get(&new_val1), 100u32);
    assert_eq!(arena.val_get(&new_val2), 200u64);
}

#[test]
fn test_large_vec_allocation() {
    let mut alloc = Arena::default();
    let arena = alloc.fresh_arena(1);

    let vec = arena.alloc_vec::<u32>();
    for i in 0..1000 {
        arena.vec_push(&vec, i);
    }

    for i in 0..1000 {
        assert_eq!(arena.vec_get(&vec, i), i as u32);
    }

    let usage = alloc.memory_usage();
    let expected_content = 1000 * size_of::<u32>();
    assert_eq!(usage.content_bytes, expected_content);
}

#[test]
fn test_large_val_allocation() {
    let mut alloc = Arena::default();
    let arena = alloc.fresh_arena(1);

    let large_value = arena.alloc_slice(&[42u64; 32]);

    assert_eq!(arena.slice_get(&large_value, 0), 42);
    assert_eq!(arena.slice_get(&large_value, 31), 42);

    arena.slice_set(&large_value, 10, 100);
    arena.slice_set(&large_value, 20, 200);

    assert_eq!(arena.slice_get(&large_value, 10), 100);
    assert_eq!(arena.slice_get(&large_value, 20), 200);

    let large_value2 = arena.alloc_slice(&[84u64; 32]);

    assert_eq!(arena.slice_get(&large_value, 10), 100);
    assert_eq!(arena.slice_get(&large_value, 20), 200);
    assert_eq!(arena.slice_get(&large_value2, 10), 84);
    assert_eq!(arena.slice_get(&large_value2, 20), 84);

    arena.slice_set(&large_value2, 10, 1010);
    arena.slice_set(&large_value2, 20, 2020);

    assert_eq!(arena.slice_get(&large_value, 10), 100);
    assert_eq!(arena.slice_get(&large_value, 20), 200);
    assert_eq!(arena.slice_get(&large_value2, 10), 1010);
    assert_eq!(arena.slice_get(&large_value2, 20), 2020);

    let usage = alloc.memory_usage();
    let expected_content = 2 * 32 * size_of::<u64>();
    assert_eq!(usage.content_bytes, expected_content);
}

#[test]
fn test_mixed_vec_and_val_allocation() {
    let mut alloc = Arena::default();
    let arena = alloc.fresh_arena(1);

    let vec1 = arena.alloc_vec::<u32>();
    let val1 = arena.alloc_val(42u64);
    let vec2 = arena.alloc_vec::<u8>();
    let val2 = arena.alloc_val(43u16);

    arena.vec_push(&vec1, 100);
    arena.vec_push(&vec1, 200);
    arena.vec_push(&vec2, 10);
    arena.vec_push(&vec2, 20);
    arena.vec_push(&vec2, 30);

    assert_eq!(arena.vec_len(&vec1), 2);
    assert_eq!(arena.vec_get(&vec1, 0), 100);
    assert_eq!(arena.vec_get(&vec1, 1), 200);

    assert_eq!(arena.vec_len(&vec2), 3);
    assert_eq!(arena.vec_get(&vec2, 0), 10);
    assert_eq!(arena.vec_get(&vec2, 1), 20);
    assert_eq!(arena.vec_get(&vec2, 2), 30);

    assert_eq!(arena.val_get(&val1), 42u64);
    assert_eq!(arena.val_get(&val2), 43u16);

    let usage = arena.memory_usage();
    let expected_content =
        size_of::<u64>() + size_of::<u16>() + (2 * size_of::<u32>()) + (3 * size_of::<u8>());
    assert_eq!(usage.content_bytes, expected_content);

    arena.val_set(&val1, 99);
    arena.val_set(&val2, 999);

    assert_eq!(arena.val_get(&val1), 99u64);
    assert_eq!(arena.val_get(&val2), 999u16);
}

#[test]
fn test_val_memory_usage() {
    let mut alloc = Arena::default();
    let arena = alloc.fresh_arena(1);

    let mut empty_usage = MemoryUsage::default();
    arena.val_memory_usage(&mut empty_usage);
    assert_eq!(empty_usage.content_bytes, 0);
    assert_eq!(empty_usage.capacity_bytes, 80);

    let _val1 = arena.alloc_val(1u8);
    let _val2 = arena.alloc_val(2u16);
    let _val3 = arena.alloc_val(3u32);

    let mut small_alloc_usage = MemoryUsage::default();
    arena.val_memory_usage(&mut small_alloc_usage);
    assert!(small_alloc_usage.capacity_bytes > 0);

    let expected_small_content = size_of::<u8>() + size_of::<u16>() + size_of::<u32>();
    assert_eq!(small_alloc_usage.content_bytes, expected_small_content);
    assert!(small_alloc_usage.total_bytes() == empty_usage.total_bytes());

    let _large_val = arena.alloc_slice(&[42u64; 64]);

    let mut large_alloc_usage = MemoryUsage::default();
    arena.val_memory_usage(&mut large_alloc_usage);
    assert!(large_alloc_usage.capacity_bytes > small_alloc_usage.capacity_bytes);

    let expected_large_content = expected_small_content + 64 * size_of::<u64>();
    assert_eq!(large_alloc_usage.content_bytes, expected_large_content);
    assert!(large_alloc_usage.total_bytes() > small_alloc_usage.total_bytes());

    let arena1 = alloc.fresh_arena(2);

    let _v1 = arena1.alloc_val(100u32);
    let _v2 = arena1.alloc_val(200u64);

    let usage1 = alloc.memory_usage();
    let expected_content1 = size_of::<u32>() + size_of::<u64>();
    assert_eq!(usage1.content_bytes, expected_content1);

    let arena2 = alloc.fresh_arena(3);

    let _v3 = arena2.alloc_val(300u32);

    let usage2 = alloc.memory_usage();
    let expected_content2 = size_of::<u32>();
    assert_eq!(usage2.content_bytes, expected_content2);

    assert!(usage2.total_bytes() == usage1.total_bytes());
}

#[test]
fn tests_test_multiple_vectors_same_type() {
    let mut alloc = Arena::default();
    let arena = alloc.fresh_arena(1);

    let vectors: Vec<_> = (0..10)
        .map(|i| {
            let vec = arena.alloc_vec::<u32>();
            arena.vec_push(&vec, i);
            vec
        })
        .collect();

    for (i, vec) in vectors.iter().enumerate() {
        assert_eq!(arena.vec_len(vec), 1);
        assert_eq!(arena.vec_get(vec, 0), i as u32);
    }
}

#[test]
fn tests_test_vector_capacity_reuse() {
    let mut alloc = Arena::default();
    let arena = alloc.fresh_arena(1);

    let vec_u32_a = arena.alloc_vec::<u32>();
    let vec_u32_b = arena.alloc_vec::<u32>();
    for i in 0..1000 {
        arena.vec_push(&vec_u32_a, i);
    }
    for i in 0..500 {
        arena.vec_push(&vec_u32_b, i);
    }

    let arena = alloc.fresh_arena(2);
    let vec_u32 = arena.alloc_vec::<u32>();
    // i32 has the size and alignment of u32 and shares its slots.
    let vec_i32 = arena.alloc_vec::<i32>();
    assert!(arena.vec_capacity(&vec_u32) >= 1000, "u32 vector capacity should be reused");
    assert!(
        arena.vec_capacity(&vec_i32) >= 500,
        "Vectors with same alignment should share capacity pool"
    );
}

#[test]
fn test_vec_memory_usage() {
    let mut alloc = Arena::default();
    let initial_usage = alloc.memory_usage();
    let arena = alloc.fresh_arena(1);

    assert_eq!(initial_usage.content_bytes, 0);
    assert_eq!(initial_usage.capacity_bytes, 5 * 4 * 4);

    let vec1 = arena.alloc_vec::<u8>();
    arena.vec_extend_from_slice(&vec1, &[1, 2, 3, 4, 5]);
    let _vec1_2 = arena.alloc_vec::<u8>();
    let _vec2 = arena.alloc_vec::<u32>();
    let _vec3 = arena.alloc_vec::<u64>();
    let _vec3_2 = arena.alloc_vec::<(u64, u64)>();

    let after_alloc = alloc.memory_usage();
    assert!(after_alloc.capacity_bytes > 0);
    assert_eq!(after_alloc.content_bytes, 5);

    let arena = alloc.fresh_arena(2);
    let vec1 = arena.alloc_vec::<u8>();
    let vec2 = arena.alloc_vec::<u32>();
    let vec3 = arena.alloc_vec::<u64>();

    arena.vec_extend_from_slice(&vec1, &[1, 2, 3, 4, 5]);
    arena.vec_extend_from_slice(&vec2, &[10, 20, 30]);
    arena.vec_extend_from_slice(&vec3, &[100, 200]);

    let after_data = alloc.memory_usage();

    let expected_content_bytes = 5 * size_of::<u8>() + 3 * size_of::<u32>() + 2 * size_of::<u64>();

    assert_eq!(after_data.content_bytes, expected_content_bytes);
    assert!(after_data.capacity_bytes >= expected_content_bytes);
    assert!(after_data.overhead_bytes > 0);
    let utilization = after_data.content_bytes as f64 / after_data.total_bytes() as f64;
    assert!(utilization > 0.0);

    let _ = alloc.fresh_arena(3);
    let after_reset = alloc.memory_usage();

    assert_eq!(after_reset.content_bytes, 0, "Content bytes should be 0 after reset");
    assert!(after_reset.capacity_bytes > 0, "Capacity bytes should be preserved");
    assert!(after_reset.overhead_bytes > 0, "Overhead bytes should exist after reset");
    let arena = alloc.fresh_arena(4);

    for _ in 0..10 {
        let vec = arena.alloc_vec::<u32>();
        for _ in 0..100 {
            arena.vec_push(&vec, 42);
        }
    }

    let alloc_usage = alloc.memory_usage();
    let expected_content = 10 * 100 * size_of::<u32>();
    assert_eq!(alloc_usage.content_bytes, expected_content);
    assert!(alloc_usage.capacity_bytes >= expected_content);
}

#[test]
fn tests_test_chunk_consolidation() {
    let mut alloc = Arena::default();

    let arena = alloc.fresh_arena(1);
    for _ in 0..100 {
        let vec_u32 = arena.alloc_vec::<u32>();
        let vec_u64 = arena.alloc_vec::<u64>();
        for i in 0..20 {
            arena.vec_push(&vec_u32, i);
            arena.vec_push(&vec_u64, i as u64);
        }
    }

    let arena = alloc.fresh_arena(2);
    for _ in 0..100 {
        let vec_u32 = arena.alloc_vec::<u32>();
        let vec_u64 = arena.alloc_vec::<u64>();
        assert!(arena.vec_capacity(&vec_u32) >= 20);
        assert!(arena.vec_capacity(&vec_u64) >= 20);
    }

    let arena = alloc.fresh_arena(3);
    for _ in 0..100 {
        let vec_u32 = arena.alloc_vec::<u32>();
        let vec_u64 = arena.alloc_vec::<u64>();
        assert!(arena.vec_capacity(&vec_u32) >= 20);
        assert!(arena.vec_capacity(&vec_u64) >= 20);
    }
}

#[test]
fn test_alloc_slice() {
    let mut alloc = Arena::default();
    let arena = alloc.fresh_arena(1);
    let slice1 = arena.alloc_slice(&[1, 2, 3]);
    assert_eq!(arena.slice_to_vec(&slice1), &[1, 2, 3]);
    arena.slice_set(&slice1, 1, 99);
    assert_eq!(arena.slice_to_vec(&slice1), &[1, 99, 3]);
    let slice2 = arena.alloc_slice(&[4, 5, 6, 7]);
    let val = arena.alloc_val(100);
    let slice3 = arena.alloc_slice::<u32>(&[]);
    // Plain 32- and 64-bit values stand for the floats of the same sizes.
    let slice4 = arena.alloc_slice(&[1u32, 2, 3]);
    let slice5 = arena.alloc_slice(&[4u64, 5, 6]);
    assert_eq!(arena.slice_to_vec(&slice1), &[1, 99, 3]);
    assert_eq!(arena.slice_to_vec(&slice2), &[4, 5, 6, 7]);
    assert_eq!(arena.val_get(&val), 100);
    assert_eq!(arena.slice_to_vec(&slice3), Vec::<u32>::new());
    assert_eq!(arena.slice_to_vec(&slice4), &[1, 2, 3]);
    assert_eq!(arena.slice_to_vec(&slice5), &[4, 5, 6]);

    let usage = alloc.memory_usage();
    let expected_bytes = 8 * size_of::<u32>() + 3 * size_of::<f32>() + 3 * size_of::<u64>();
    assert_eq!(usage.content_bytes, expected_bytes);
}

#[test]
fn test_from_faulty_iter() {
    let mut alloc = Arena::default();
    let arena = alloc.fresh_arena(1);

    // An iterator that claims one item and yields three.
    let a = arena.alloc_iter(1, &[1u32, 2, 3]);
    assert_eq!(arena.slice_to_vec(&a), &[1]);

    let mut usage_before = MemoryUsage::default();
    arena.val_memory_usage(&mut usage_before);
    assert_eq!(usage_before.content_bytes, 1 * size_of::<u32>());

    // An iterator that claims a hundred items and yields three.
    let b = arena.alloc_iter(100, &[4u32, 5, 6]);
    assert_eq!(arena.slice_to_vec(&b), &[4, 5, 6]);

    let mut usage_after = MemoryUsage::default();
    arena.val_memory_usage(&mut usage_after);
    assert_eq!(usage_after.content_bytes, 4 * size_of::<u32>());
    let reserved = 100 * size_of::<u32>();
    assert!(usage_before.capacity_bytes + reserved <= usage_after.capacity_bytes);

    // An iterator that tells its length right.
    let c = arena.alloc_iter(97, &[7u32; 97]);
    assert_eq!(c.length(), 97);

    let mut usage_last = MemoryUsage::default();
    arena.val_memory_usage(&mut usage_last);
    assert!(usage_after.capacity_bytes == usage_last.capacity_bytes);
}

#[test]
fn test_memory_usage_invalidation() {
    let mut arena = ArenaGuard::new();

    let vec = arena.alloc_vec::<i32>();
    arena.vec_extend_from_slice(&vec, &[42, 43, 44, 45, 46]);
    let _ = arena.memory_usage();
    arena.vec_set(&vec, 2, 99);
    assert_eq!(arena.vec_to_vec(&vec), &[42, 43, 99, 45, 46]);
}

#[test]
fn test_alloc_str_slice() {
    let mut arena = ArenaGuard::new();
    let text = arena.alloc_str("Hello, world!");
    assert_eq!(arena.slice_to_vec(&text), b"Hello, world!");
}

#[test]
fn test_alloc_string() {
    let mut arena = ArenaGuard::new();
    let string = arena.alloc_string("Hello");
    assert_eq!(arena.vec_to_vec(&string), b"Hello");
    arena.vec_push_str(&string, ", world!");
    assert_eq!(String::from_utf8(arena.vec_to_vec(&string)).unwrap(), "Hello, world!");
}

#[test]
fn val_test_val_basic() {
    let mut by_align = ByAlign::new();

    let val0 = by_align.allocate_val(4);
    by_align.write_bytes(val0.0, val0.1, &42u32.to_le_bytes());
    let val1 = by_align.allocate_val(4);
    by_align.write_bytes(val1.0, val1.1, &43u32.to_le_bytes());
    by_align.write_bytes(val0.0, val0.1, &44u32.to_le_bytes());
    assert_eq!(by_align.read_bytes(val0.0, val0.1, 4), 44u32.to_le_bytes());
    assert_eq!(by_align.read_bytes(val1.0, val1.1, 4), 43u32.to_le_bytes());

    by_align.reset();

    let val3 = by_align.allocate_val(4);
    by_align.write_bytes(val3.0, val3.1, &45u32.to_le_bytes());
    assert_eq!(by_align.read_bytes(val3.0, val3.1, 4), 45u32.to_le_bytes());
    assert_eq!(val0, val3);
}

#[test]
fn test_val_growth_patterns() {
    let mut align = ByAlign::new();
    assert_eq!(align.cap_bytes(), 16);
    assert_eq!(align.content_bytes(), 0);
    for _ in 0..16 {
        align.allocate_val(1);
    }
    assert_eq!(align.cap_bytes(), 16);
    assert_eq!(align.content_bytes(), 16);
    align.allocate_val(1);
    assert_eq!(align.cap_bytes(), 48);
    assert_eq!(align.content_bytes(), 17);
    align.allocate_val(31);
    assert_eq!(align.cap_bytes(), 48);
    assert_eq!(align.content_bytes(), 48);
    align.allocate_val(1);
    assert_eq!(align.cap_bytes(), 112);
    assert_eq!(align.content_bytes(), 49);
    align.allocate_val(64);
    assert_eq!(align.cap_bytes(), 240);
    assert_eq!(align.content_bytes(), 113);
    align.allocate_val(130);
    assert_eq!(align.cap_bytes(), 512);
    assert_eq!(align.content_bytes(), 243);
    align.allocate_val(550);
    assert_eq!(align.cap_bytes(), 1616);
    assert_eq!(align.content_bytes(), 793);
    align.allocate_val(554);
    assert_eq!(align.cap_bytes(), 1616);
    assert_eq!(align.content_bytes(), 1347);
    align.allocate_val(1);
    assert_eq!(align.cap_bytes(), 3824);
    assert_eq!(align.content_bytes(), 1348);
}

#[test]
fn val_test_val_reset() {
    let mut align = ByAlign::new();
    assert_eq!(align.cap_bytes(), 16);
    assert_eq!(align.content_bytes(), 0);
    align.allocate_val(100);
    assert_eq!(align.cap_bytes(), 224);
    assert_eq!(align.content_bytes(), 100);

    align.reset();

    assert_eq!(align.cap_bytes(), 224);
    assert_eq!(align.content_bytes(), 0);
    align.allocate_val(220);
    assert_eq!(align.cap_bytes(), 224);
    assert_eq!(align.content_bytes(), 220);
}

#[test]
fn vectors_of_one_sequence_do_not_share_storage() {
    let mut alloc = Arena::default();
    let arena = alloc.fresh_arena(1);
    let handles: Vec<_> = (0..12u32).map(|_| arena.alloc_vec::<u32>()).collect();
    for (i, h) in handles.iter().enumerate() {
        arena.vec_push(h, i as u32);
    }
    for (i, h) in handles.iter().enumerate() {
        assert_eq!(arena.vec_to_vec(h), vec![i as u32]);
    }
}

#[test]
fn a_fresh_sequence_has_no_content() {
    let mut alloc = Arena::default();
    let arena = alloc.fresh_arena(1);
    let v = arena.alloc_vec::<u64>();
    arena.vec_push(&v, 5);
    let _ = arena.alloc_val(9u16);
    assert_eq!(arena.memory_usage().content_bytes, 10);
    let arena = alloc.fresh_arena(2);
    assert_eq!(arena.memory_usage().content_bytes, 0);
}

#[test]
fn room_checks_allow_ordinary_allocations() {
    let mut arena = ArenaGuard::new();
    assert!(arena.can_alloc_bytes(2, 4));
    assert!(!arena.can_alloc_bytes(5, 4));
    assert!(!arena.can_alloc_bytes(0, usize::MAX));
    assert!(arena.can_alloc_vec::<u64>());
    let v = arena.alloc_vec::<u64>();
    arena.vec_push(&v, 1);
    assert!(arena.can_alloc_vec::<u64>());
}

#[test]
fn pairs_are_stored_as_two_numbers() {
    let mut alloc = Arena::default();
    let arena = alloc.fresh_arena(1);

    let pair = arena.alloc_val((3u64, 4u64));
    let array = arena.alloc_val([5u32, 6u32]);
    assert_eq!(arena.val_get(&pair), (3, 4));
    assert_eq!(arena.val_get(&array), [5, 6]);

    arena.val_set(&pair, (7, 8));
    assert_eq!(arena.val_get(&pair), (7, 8));
    assert_eq!(arena.val_get(&array), [5, 6]);

    let mut usage = MemoryUsage::default();
    arena.val_memory_usage(&mut usage);
    assert_eq!(usage.content_bytes, 16 + 8);
}

#[test]
fn a_new_sequence_frees_no_capacity() {
    let mut alloc = Arena::default();
    let arena = alloc.fresh_arena(1);
    let vec = arena.alloc_vec::<u32>();
    for i in 0..100 {
        arena.vec_push(&vec, i);
    }
    let _ = arena.alloc_slice(&[7u64; 50]);
    let _ = arena.alloc_val(3u16);
    let before = alloc.memory_usage();

    let _ = alloc.fresh_arena(2);
    let after = alloc.memory_usage();
    assert_eq!(after.content_bytes, 0);
    assert!(after.capacity_bytes >= before.capacity_bytes);
}

#[test]
fn test_sink() {
    let mut arena = ArenaGuard::new();
    let _ = arena.alloc_val(123);
    let mut sink = arena.alloc_sink::<i32>();
    arena.sink_push(&mut sink, 1);
    arena.slice_set(&sink.as_slice(), 0, 99);
    assert_eq!(arena.slice_to_vec(&sink.as_slice()), &[99]);
    arena.slice_set(&sink.as_slice(), 0, 101);
    for i in 2..50 {
        arena.sink_push(&mut sink, i);
    }

    let slice = sink.into_slice();
    let _ = arena.alloc_val(3); // Arena is usable again!
    let mut expected = Vec::new();
    for i in 1..50 {
        expected.push(i);
    }
    expected[0] = 101;
    assert_eq!(arena.slice_to_vec(&slice), expected)
}

#[test]
fn a_sink_counts_each_value_once_when_it_moves() {
    let mut arena = ArenaGuard::new();
    let _ = arena.alloc_val(123u32);
    let mut sink = arena.alloc_sink::<u32>();
    for i in 0..40 {
        arena.sink_push(&mut sink, i);
    }
    assert_eq!(sink.length(), 40);
    assert_eq!(arena.slice_to_vec(&sink.as_slice()), (0..40).collect::<Vec<u32>>());
    let mut usage = MemoryUsage::default();
    arena.val_memory_usage(&mut usage);
    assert_eq!(usage.content_bytes, 4 + 40 * 4);
}

#[test]
fn test_from_iter() {
    let mut alloc = Arena::default();
    let arena = alloc.fresh_arena(1);
    let a = arena.alloc_iter(1, &[(0, 0)]);
    let b = arena.alloc_iter(3, &[(1, 1), (2, 2), (3, 3)]);
    let c = arena.alloc_iter(1, &[(4, 4)]);

    assert_eq!(arena.slice_to_vec(&a), &[(0, 0)]);
    assert_eq!(arena.slice_to_vec(&b), &[(1, 1), (2, 2), (3, 3)]);
    assert_eq!(arena.slice_to_vec(&c), &[(4, 4)]);
}

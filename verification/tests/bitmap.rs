use allocator::{AllocError, Bitmap};

#[test]
fn create_within_ceiling_succeeds() {
    // Any logical capacity up to storage_bytes * 8 is accepted, and every
    // tracked bit starts free.
    let bm = Bitmap::new(0x1000, 8, 64).unwrap();
    for bit in 0..64 {
        assert!(bm.check_free(bit));
    }
    let bm2 = Bitmap::new(0x1000, 8, 0).unwrap();
    assert!(bm2.check_free(0));
}

#[test]
fn create_beyond_ceiling_rejected() {
    let r = Bitmap::new(0x1000, 8, 65);
    assert!(matches!(r, Err(AllocError::InvalidParam)));
}

#[test]
fn alloc_first_fit_and_marking() {
    let mut bm = Bitmap::new(0, 16, 100).unwrap();
    assert_eq!(bm.alloc_contiguous(5), Ok(0));
    for bit in 0..5 {
        assert!(!bm.check_free(bit));
    }
    for bit in 5..100 {
        assert!(bm.check_free(bit));
    }
}

#[test]
fn successive_allocs_are_disjoint() {
    let mut bm = Bitmap::new(0, 16, 100).unwrap();
    let a = bm.alloc_contiguous(4).unwrap();
    let b = bm.alloc_contiguous(6).unwrap();
    assert_eq!(a, 0);
    assert_eq!(b, 4);
    // The two unit ranges share no index.
    assert!(a + 4 <= b || b + 6 <= a);
}

#[test]
fn alloc_release_round_trip() {
    let mut bm = Bitmap::new(0, 16, 100).unwrap();
    let a = bm.alloc_contiguous(5).unwrap();
    let b = bm.alloc_contiguous(3).unwrap();
    assert_eq!(bm.dealloc(b, 3), Ok(()));
    assert_eq!(bm.dealloc(a, 5), Ok(()));
    for bit in 0..100 {
        assert!(bm.check_free(bit));
    }
    // The whole range is one free run again.
    assert_eq!(bm.alloc_contiguous(100), Ok(0));
}

#[test]
fn alloc_skips_occupied_runs() {
    let mut bm = Bitmap::new(0, 16, 100).unwrap();
    assert_eq!(bm.alloc_contiguous(2), Ok(0));
    assert_eq!(bm.alloc_contiguous(2), Ok(2));
    assert_eq!(bm.dealloc(0, 2), Ok(()));
    // A three-unit request does not fit the two-unit hole at the front.
    assert_eq!(bm.alloc_contiguous(3), Ok(4));
    // A two-unit request reuses the hole (first fit).
    assert_eq!(bm.alloc_contiguous(2), Ok(0));
}

#[test]
fn alloc_exhaustion_returns_no_memory() {
    let mut bm = Bitmap::new(0, 16, 10).unwrap();
    assert!(matches!(bm.alloc_contiguous(11), Err(AllocError::NoMemory)));
    // The failed scan changed nothing.
    for bit in 0..10 {
        assert!(bm.check_free(bit));
    }
    assert_eq!(bm.alloc_contiguous(10), Ok(0));
    assert!(matches!(bm.alloc_contiguous(1), Err(AllocError::NoMemory)));
}

#[test]
fn release_with_free_bit_rejected_without_mutation() {
    let mut bm = Bitmap::new(0, 16, 100).unwrap();
    assert_eq!(bm.alloc_contiguous(4), Ok(0));
    // Bits 4 and 5 are free, so the range [2, 6) is not fully occupied.
    assert!(matches!(bm.dealloc(2, 4), Err(AllocError::MemoryOverlap)));
    // Atomic failure: the occupied prefix is untouched, nothing was cleared.
    for bit in 0..4 {
        assert!(!bm.check_free(bit));
    }
    for bit in 4..100 {
        assert!(bm.check_free(bit));
    }
    // Double release of an already-free range is rejected the same way.
    assert_eq!(bm.dealloc(0, 4), Ok(()));
    assert!(matches!(bm.dealloc(0, 4), Err(AllocError::MemoryOverlap)));
}

#[test]
fn release_out_of_range_rejected() {
    let mut bm = Bitmap::new(0, 16, 10).unwrap();
    // Bits beyond the logical range read as free, so they can never pass the
    // all-occupied check.
    assert!(matches!(bm.dealloc(200, 3), Err(AllocError::MemoryOverlap)));
}

#[test]
fn grow_capacity_adds_the_difference() {
    let mut bm = Bitmap::new(0, 2, 8).unwrap();
    // 2 bytes of storage give a ceiling of 16 bits.
    assert_eq!(bm.grow_capacity(16), 8);
    // Newly exposed bits are free: a run longer than the old capacity fits.
    assert_eq!(bm.alloc_contiguous(12), Ok(0));
}

#[test]
fn grow_capacity_rejects_beyond_ceiling_and_non_growth() {
    let mut bm = Bitmap::new(0, 2, 8).unwrap();
    assert_eq!(bm.grow_capacity(17), 0);
    assert_eq!(bm.grow_capacity(8), 0);
    assert_eq!(bm.grow_capacity(5), 0);
    // At the physical ceiling every request is a no-op.
    let mut full = Bitmap::new(0, 2, 16).unwrap();
    assert_eq!(full.grow_capacity(20), 0);
    assert_eq!(full.grow_capacity(16), 0);
}

#[test]
fn set_bits_and_query() {
    let mut bm = Bitmap::new(0, 4, 20).unwrap();
    bm.set_bits(2, 5, true);
    assert!(bm.check_free(0));
    assert!(bm.check_free(1));
    for bit in 2..5 {
        assert!(!bm.check_free(bit));
    }
    assert!(bm.check_free(5));
    bm.set_bits(2, 5, false);
    for bit in 0..20 {
        assert!(bm.check_free(bit));
    }
}

#[test]
fn boundary_bit_is_inclusive() {
    let mut bm = Bitmap::new(0, 2, 10).unwrap();
    // The per-bit range check is strict, so index 10 itself is still written
    // and read, while higher indices are ignored and read as free.
    bm.set_bits(10, 11, true);
    assert!(!bm.check_free(10));
    assert!(bm.check_free(11));
    bm.set_bits(20, 21, true);
    assert!(bm.check_free(20));
}

#[test]
fn clone_preserves_occupancy() {
    let mut bm = Bitmap::new(0, 4, 20).unwrap();
    assert_eq!(bm.alloc_contiguous(3), Ok(0));
    let copy = bm.clone();
    for bit in 0..3 {
        assert!(!copy.check_free(bit));
    }
    for bit in 3..20 {
        assert!(copy.check_free(bit));
    }
}

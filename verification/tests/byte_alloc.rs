use allocator::arith::{align_up, div_round_up};
use allocator::{AllocError, SimpleByteAllocator};

const BASE: usize = 1 << 20;
const BITMAP_BYTES: usize = 24576;

#[test]
fn end_to_end_region() {
    // A 200000-byte region: 24576 bytes of bitmap prefix, the rest split
    // into 32-byte units.
    let mut a = SimpleByteAllocator::new();
    a.init(BASE, 200000);
    assert_eq!(a.total_bytes(), 200000);
    assert_eq!(a.available_bytes(), 5482 * 32);
    assert_eq!(a.used_bytes(), 0);

    let data_base = BASE + BITMAP_BYTES;
    let first = a.alloc_bytes(32, 8).unwrap();
    assert_eq!(first, data_base);
    assert_eq!(a.used_bytes(), 32);

    let second = a.alloc_bytes(32, 8).unwrap();
    assert_eq!(second, data_base + 32);
    assert_eq!(a.used_bytes(), 64);

    a.dealloc(first, 32, 8);
    assert_eq!(a.used_bytes(), 32);

    // First-fit reuse: the freed leading unit is handed out again.
    let third = a.alloc_bytes(32, 8).unwrap();
    assert_eq!(third, data_base);
    assert_eq!(a.used_bytes(), 64);
}

#[test]
fn exhaustion_leaves_counters_unchanged() {
    // Two units of data space.
    let mut a = SimpleByteAllocator::new();
    a.init(BASE, BITMAP_BYTES + 64);
    assert_eq!(a.available_bytes(), 64);

    // unit_count + 1 units can never be satisfied.
    let r = a.alloc_bytes(96, 8);
    assert!(matches!(r, Err(AllocError::NoMemory)));
    assert_eq!(a.used_bytes(), 0);

    assert_eq!(a.alloc_bytes(64, 8), Ok(BASE + BITMAP_BYTES));
    let r2 = a.alloc_bytes(32, 8);
    assert!(matches!(r2, Err(AllocError::NoMemory)));
    assert_eq!(a.used_bytes(), 64);
}

#[test]
fn sizes_round_up_to_whole_units() {
    let mut a = SimpleByteAllocator::new();
    a.init(BASE, BITMAP_BYTES + 320);
    let first = a.alloc_bytes(1, 1).unwrap();
    assert_eq!(first, BASE + BITMAP_BYTES);
    assert_eq!(a.used_bytes(), 32);
    let second = a.alloc_bytes(33, 1).unwrap();
    assert_eq!(second, BASE + BITMAP_BYTES + 32);
    assert_eq!(a.used_bytes(), 96);
}

#[test]
fn init_with_small_region_stays_unusable() {
    let mut a = SimpleByteAllocator::new();
    a.init(BASE, 1000);
    assert_eq!(a.total_bytes(), 1000);
    assert_eq!(a.available_bytes(), 0);
    assert_eq!(a.used_bytes(), 0);
    assert!(matches!(a.alloc_bytes(32, 8), Err(AllocError::NoMemory)));
}

#[test]
fn add_memory_grows_contiguous_region() {
    let mut a = SimpleByteAllocator::new();
    a.init(BASE, BITMAP_BYTES + 64);
    assert_eq!(a.available_bytes(), 64);

    // The new range must start exactly at the end of the managed region,
    // measured from the bitmap base.
    assert_eq!(a.add_memory(BASE + BITMAP_BYTES + 64, 64), Ok(()));
    assert_eq!(a.total_bytes(), BITMAP_BYTES + 128);
    assert_eq!(a.available_bytes(), 128);
    assert_eq!(a.used_bytes(), 0);

    // The grown space is allocatable.
    assert_eq!(a.alloc_bytes(128, 8), Ok(BASE + BITMAP_BYTES));
}

#[test]
fn add_memory_rejects_non_contiguous_region() {
    let mut a = SimpleByteAllocator::new();
    a.init(BASE, BITMAP_BYTES + 64);
    let r = a.add_memory(BASE + BITMAP_BYTES + 128, 64);
    assert!(matches!(r, Err(AllocError::InvalidParam)));
    assert_eq!(a.available_bytes(), 64);
}

#[test]
fn add_memory_rejects_uninitialized_allocator() {
    let mut a = SimpleByteAllocator::new();
    let r = a.add_memory(0, 64);
    assert!(matches!(r, Err(AllocError::InvalidParam)));
}

#[test]
fn add_memory_rejects_growth_at_physical_ceiling() {
    // 24576 bitmap bytes track at most 196608 units; start exactly there.
    let mut a = SimpleByteAllocator::new();
    a.init(BASE, BITMAP_BYTES + 196608 * 32);
    assert_eq!(a.available_bytes(), 196608 * 32);
    let end = BASE + BITMAP_BYTES + 196608 * 32;
    let r = a.add_memory(end, 64);
    assert!(matches!(r, Err(AllocError::InvalidParam)));
    assert_eq!(a.available_bytes(), 196608 * 32);
}

#[test]
fn dealloc_absorbs_bad_release() {
    let mut a = SimpleByteAllocator::new();
    a.init(BASE, BITMAP_BYTES + 320);
    let p = a.alloc_bytes(32, 8).unwrap();
    // Releasing two units where only one is occupied is swallowed whole.
    a.dealloc(p, 64, 8);
    assert_eq!(a.used_bytes(), 32);
    // Releasing an address that was never handed out changes nothing.
    a.dealloc(p + 96, 32, 8);
    assert_eq!(a.used_bytes(), 32);
    // The proper release still works afterwards.
    a.dealloc(p, 32, 8);
    assert_eq!(a.used_bytes(), 0);
}

#[test]
fn double_free_is_absorbed() {
    let mut a = SimpleByteAllocator::new();
    a.init(BASE, BITMAP_BYTES + 320);
    let p = a.alloc_bytes(64, 8).unwrap();
    a.dealloc(p, 64, 8);
    assert_eq!(a.used_bytes(), 0);
    a.dealloc(p, 64, 8);
    assert_eq!(a.used_bytes(), 0);
}

#[test]
fn returned_addresses_are_unit_aligned_and_in_range() {
    let mut a = SimpleByteAllocator::new();
    a.init(BASE, BITMAP_BYTES + 3200);
    let data_base = BASE + BITMAP_BYTES;
    for _ in 0..10 {
        let p = a.alloc_bytes(40, 8).unwrap();
        assert!(p != 0);
        assert!(p >= data_base);
        assert!(p + 64 <= data_base + 3200);
        assert_eq!((p - data_base) % 32, 0);
    }
}

#[test]
fn align_up_rounds_to_multiples() {
    assert_eq!(align_up(0, 32), 0);
    assert_eq!(align_up(1, 32), 32);
    assert_eq!(align_up(32, 32), 32);
    assert_eq!(align_up(33, 32), 64);
    assert_eq!(align_up(7, 8), 8);
}

#[test]
fn div_round_up_rounds_quotients() {
    assert_eq!(div_round_up(0, 32), 0);
    assert_eq!(div_round_up(1, 32), 1);
    assert_eq!(div_round_up(64, 32), 2);
    assert_eq!(div_round_up(65, 32), 3);
}

#[test]
fn net_filter_passes_its_inner_through() {
    let filter = allocator::NetFilter { inner: 7usize };
    assert_eq!(filter.inner, 7);
}

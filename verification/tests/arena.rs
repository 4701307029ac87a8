use axtensor::arena::{get_bin_size, GpuMemoryArena, SlabRequest};

#[test]
fn small_requests_share_the_floor_bin() {
    assert_eq!(get_bin_size(0), 512);
    assert_eq!(get_bin_size(1), 512);
    assert_eq!(get_bin_size(512), 512);
}

#[test]
fn larger_requests_round_up_to_a_power_of_two() {
    assert_eq!(get_bin_size(513), 1024);
    assert_eq!(get_bin_size(1024), 1024);
    assert_eq!(get_bin_size(4000), 4096);
    assert_eq!(get_bin_size(4010), 4096);
    assert_eq!(get_bin_size(4097), 8192);
    assert_eq!(get_bin_size(1 << 63), 1 << 63);
    assert_eq!(get_bin_size((1 << 62) + 1), 1 << 63);
}

#[test]
fn binning_is_idempotent_and_monotone() {
    let mut prev = 0;
    for r in [0u64, 100, 511, 512, 513, 700, 1023, 1024, 1025, 5000, 70000] {
        let b = get_bin_size(r);
        assert_eq!(get_bin_size(b), b);
        assert!(b >= prev);
        assert!(b >= r);
        assert!(b.is_power_of_two());
        prev = b;
    }
}

fn size_of<B>(r: &SlabRequest<B>) -> u64 {
    r.size()
}

#[test]
fn empty_arena_asks_for_a_new_slab() {
    let mut arena: GpuMemoryArena<u32> = GpuMemoryArena::new();
    match arena.allocate(4000) {
        SlabRequest::Create { size } => assert_eq!(size, 4096),
        SlabRequest::Reused { .. } => panic!("nothing was cached"),
    }
}

#[test]
fn a_freed_slab_is_reused_for_its_bin() {
    let mut arena: GpuMemoryArena<u32> = GpuMemoryArena::new();
    arena.free(7, 4096);
    // A 4,010-byte request lands in the 4,096-byte bin and gets the cached slab.
    match arena.allocate(4010) {
        SlabRequest::Reused { buffer, size } => {
            assert_eq!(buffer, 7);
            assert_eq!(size, 4096);
        }
        SlabRequest::Create { .. } => panic!("the slab should be reused"),
    }
    // It was handed out: the bin is empty again.
    let again = arena.allocate(4010);
    assert!(matches!(again, SlabRequest::Create { size: 4096 }));
}

#[test]
fn slabs_of_other_bins_are_not_used() {
    let mut arena: GpuMemoryArena<u32> = GpuMemoryArena::new();
    arena.free(1, 512);
    let r = arena.allocate(600);
    assert!(matches!(r, SlabRequest::Create { size: 1024 }));
    assert_eq!(size_of(&r), 1024);
    let r = arena.allocate(10);
    assert!(matches!(r, SlabRequest::Reused { buffer: 1, size: 512 }));
}

#[test]
fn most_recently_freed_slab_comes_first() {
    let mut arena: GpuMemoryArena<&str> = GpuMemoryArena::new();
    arena.free("first", 1024);
    arena.free("second", 1024);
    assert!(matches!(arena.allocate(1000), SlabRequest::Reused { buffer: "second", .. }));
    assert!(matches!(arena.allocate(1000), SlabRequest::Reused { buffer: "first", .. }));
    assert!(matches!(arena.allocate(1000), SlabRequest::Create { size: 1024 }));
}

#[test]
fn reset_drops_every_cached_slab() {
    let mut arena: GpuMemoryArena<u32> = GpuMemoryArena::new();
    arena.free(1, 512);
    arena.free(2, 2048);
    arena.reset();
    assert!(matches!(arena.allocate(100), SlabRequest::Create { size: 512 }));
    assert!(matches!(arena.allocate(2000), SlabRequest::Create { size: 2048 }));
}

#[test]
fn cache_statistics() {
    let mut a: GpuMemoryArena<u32> = GpuMemoryArena::new();
    assert_eq!(a.cached_bins(), 0);
    assert_eq!(a.free_slab_count(), 0);
    a.free(1, 512);
    a.free(2, 512);
    a.free(3, 4096);
    assert_eq!(a.cached_bins(), 2);
    assert_eq!(a.free_slab_count(), 3);
    // Emptying a bin keeps its stack.
    let _ = a.allocate(4000);
    assert_eq!(a.cached_bins(), 2);
    assert_eq!(a.free_slab_count(), 2);
    a.reset();
    assert_eq!(a.cached_bins(), 0);
    assert_eq!(a.free_slab_count(), 0);
}

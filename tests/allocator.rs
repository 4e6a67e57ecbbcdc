use dlmalloc::chunk::{request_chunk_size, round_to_pages, ALIGNMENT, HEADER, MAX_FOOTPRINT};
use dlmalloc::heap::Dlmalloc;

const LIMIT: usize = 1 << 24;

fn fill(h: &mut Dlmalloc, p: usize, len: usize, seed: u8) {
    for k in 0..len {
        h.write(p, k, seed.wrapping_add(k as u8));
    }
}

fn holds(h: &Dlmalloc, p: usize, len: usize, seed: u8) -> bool {
    (0..len).all(|k| h.read(p, k) == seed.wrapping_add(k as u8))
}

#[test]
fn freed_address_is_reused() {
    let mut h = Dlmalloc::new(LIMIT);
    let a = h.malloc(16, 8);
    let b = h.malloc(16, 8);
    assert!(a != 0 && b != 0 && a != b);
    let before = h.footprint_bytes();
    let segments = h.segment_count();
    h.free(a, 16, 8);
    let c = h.malloc(16, 8);
    assert_eq!(c, a);
    assert_eq!(h.footprint_bytes(), before);
    assert_eq!(h.segment_count(), segments);
}

#[test]
fn first_large_request_acquires_one_segment() {
    let mut h = Dlmalloc::new(LIMIT);
    assert_eq!(h.segment_count(), 0);
    assert_eq!(h.footprint_bytes(), 0);
    let p = h.malloc(4096, 8);
    assert!(p != 0);
    assert_eq!(h.segment_count(), 1);
    assert!(h.footprint_bytes() >= 4096 + HEADER);
    assert_eq!(h.footprint_bytes(), 8192);
}

#[test]
fn payloads_meet_every_power_of_two_alignment() {
    let mut h = Dlmalloc::new(LIMIT);
    let mut align: usize = 1;
    while align <= 8192 {
        for size in [1usize, 7, 64, 300] {
            let p = h.malloc(size, align);
            assert!(p != 0);
            assert_eq!(p % align, 0, "align {} size {}", align, size);
            assert!(h.usable_size(p) >= size);
        }
        align *= 2;
    }
}

#[test]
fn written_pattern_reads_back_across_other_operations() {
    let mut h = Dlmalloc::new(LIMIT);
    let p = h.malloc(100, 8);
    fill(&mut h, p, 100, 3);
    let q = h.malloc(50, 8);
    fill(&mut h, q, 50, 200);
    let r = h.malloc(1000, 64);
    fill(&mut h, r, 1000, 77);
    h.free(q, 50, 8);
    let s = h.calloc(40, 8);
    assert!(s != 0);
    h.free(r, 1000, 64);
    assert!(holds(&h, p, 100, 3));
}

#[test]
fn full_size_writes_leave_neighbours_intact() {
    let mut h = Dlmalloc::new(LIMIT);
    for size in [1usize, 15, 16, 17, 100, 4096, 8192] {
        let left = h.malloc(32, 8);
        fill(&mut h, left, 32, 11);
        let p = h.malloc(size, 8);
        let right = h.malloc(32, 8);
        fill(&mut h, right, 32, 99);
        fill(&mut h, p, size, 5);
        assert!(holds(&h, left, 32, 11));
        assert!(holds(&h, right, 32, 99));
        assert!(holds(&h, p, size, 5));
    }
}

fn coalesce_case(first_a: bool) {
    let mut h = Dlmalloc::new(LIMIT);
    let a = h.malloc(48, 8);
    let b = h.malloc(48, 8);
    let guard = h.malloc(48, 8);
    assert!(guard != 0);
    assert_eq!(a + h.usable_size(a) + HEADER, b);
    let combined = h.usable_size(a) + h.usable_size(b) + HEADER;
    if first_a {
        h.free(a, 48, 8);
        h.free(b, 48, 8);
    } else {
        h.free(b, 48, 8);
        h.free(a, 48, 8);
    }
    let footprint = h.footprint_bytes();
    let segments = h.segment_count();
    let c = h.malloc(combined, 8);
    assert_eq!(c, a);
    assert!(h.usable_size(c) >= combined);
    assert_eq!(h.footprint_bytes(), footprint);
    assert_eq!(h.segment_count(), segments);
}

#[test]
fn neighbours_freed_in_order_coalesce() {
    coalesce_case(true);
}

#[test]
fn neighbours_freed_in_reverse_order_coalesce() {
    coalesce_case(false);
}

#[test]
fn churn_does_not_grow_backing_memory() {
    let mut h = Dlmalloc::new(LIMIT);
    let keep = h.malloc(24, 8);
    assert!(keep != 0);
    let p = h.malloc(64, 8);
    h.free(p, 64, 8);
    let footprint = h.footprint_bytes();
    let segments = h.segment_count();
    for _ in 0..10_000 {
        let p = h.malloc(64, 8);
        assert!(p != 0);
        h.free(p, 64, 8);
    }
    assert_eq!(h.footprint_bytes(), footprint);
    assert_eq!(h.segment_count(), segments);
}

#[test]
fn realloc_keeps_prefix_through_grow_and_shrink() {
    let mut h = Dlmalloc::new(LIMIT);
    let p = h.malloc(64, 8);
    fill(&mut h, p, 64, 40);
    let blocker = h.malloc(16, 8);
    assert!(blocker != 0);
    let q = h.realloc(p, 64, 8, 256);
    assert!(q != 0);
    assert!(holds(&h, q, 64, 40));
    let r = h.realloc(q, 256, 8, 32);
    assert!(r != 0);
    assert!(holds(&h, r, 32, 40));
}

#[test]
fn realloc_shrink_stays_in_place() {
    let mut h = Dlmalloc::new(LIMIT);
    let p = h.malloc(400, 8);
    fill(&mut h, p, 400, 1);
    let q = h.realloc(p, 400, 8, 20);
    assert_eq!(q, p);
    assert!(h.usable_size(q) < 400);
    assert!(holds(&h, q, 20, 1));
}

#[test]
fn realloc_grows_into_free_successor() {
    let mut h = Dlmalloc::new(LIMIT);
    let p = h.malloc(64, 8);
    let next = h.malloc(200, 8);
    let guard = h.malloc(16, 8);
    assert!(guard != 0);
    fill(&mut h, p, 64, 9);
    h.free(next, 200, 8);
    let footprint = h.footprint_bytes();
    let q = h.realloc(p, 64, 8, 200);
    assert_eq!(q, p);
    assert!(h.usable_size(q) >= 200);
    assert!(holds(&h, q, 64, 9));
    assert_eq!(h.footprint_bytes(), footprint);
}

#[test]
fn realloc_moves_when_blocked() {
    let mut h = Dlmalloc::new(LIMIT);
    let p = h.malloc(64, 8);
    let blocker = h.malloc(16, 8);
    fill(&mut h, blocker, 16, 123);
    fill(&mut h, p, 64, 60);
    let q = h.realloc(p, 64, 8, 1000);
    assert!(q != 0 && q != p);
    assert!(holds(&h, q, 64, 60));
    assert!(holds(&h, blocker, 16, 123));
}

#[test]
fn realloc_with_large_alignment_keeps_alignment_and_prefix() {
    let mut h = Dlmalloc::new(LIMIT);
    let p = h.malloc(100, 256);
    assert_eq!(p % 256, 0);
    fill(&mut h, p, 100, 17);
    let q = h.realloc(p, 100, 256, 500);
    assert!(q != 0);
    assert_eq!(q % 256, 0);
    assert!(holds(&h, q, 100, 17));
}

#[test]
fn provider_exhaustion_is_reported_and_recoverable() {
    let mut h = Dlmalloc::new(4096);
    assert_eq!(h.malloc(5000, 8), 0);
    assert_eq!(h.footprint_bytes(), 0);
    assert_eq!(h.segment_count(), 0);
    let p = h.malloc(100, 8);
    assert!(p != 0);
    assert_eq!(h.footprint_bytes(), 4096);
    assert_eq!(h.malloc(4000, 8), 0);
    h.free(p, 100, 8);
    assert!(h.malloc(4000, 8) != 0);
}

#[test]
fn requests_beyond_the_provider_fail() {
    let mut h = Dlmalloc::new(LIMIT);
    assert_eq!(h.malloc(LIMIT + 1, 8), 0);
    assert_eq!(h.malloc(usize::MAX, 8), 0);
    assert_eq!(h.malloc(16, MAX_FOOTPRINT * 2), 0);
    let p = h.malloc(16, 8);
    fill(&mut h, p, 16, 8);
    assert_eq!(h.realloc(p, 16, 8, LIMIT + 1), 0);
    assert_eq!(h.realloc(p, 16, 8, usize::MAX), 0);
    assert_eq!(h.footprint_bytes(), 4096);
    assert!(h.is_live(p));
    assert!(holds(&h, p, 16, 8));
}

#[test]
fn large_request_within_the_limit_succeeds() {
    let mut h = Dlmalloc::new(LIMIT);
    let p = h.malloc(LIMIT / 2, 8);
    assert!(p != 0);
    assert!(h.usable_size(p) >= LIMIT / 2);
    assert_eq!(h.segment_count(), 1);
}

#[test]
fn over_aligned_shrink_stays_in_place() {
    let mut h = Dlmalloc::new(LIMIT);
    let p = h.malloc(300, 256);
    assert_eq!(p % 256, 0);
    fill(&mut h, p, 300, 21);
    let footprint = h.footprint_bytes();
    let q = h.realloc(p, 300, 256, 40);
    assert_eq!(q, p);
    assert!(h.usable_size(q) < 300);
    assert!(holds(&h, q, 40, 21));
    assert_eq!(h.footprint_bytes(), footprint);
}

#[test]
fn calloc_zeroes_reused_memory() {
    let mut h = Dlmalloc::new(LIMIT);
    let p = h.malloc(128, 8);
    fill(&mut h, p, 128, 0xAB);
    h.free(p, 128, 8);
    let q = h.calloc(128, 8);
    assert_eq!(q, p);
    assert!((0..128).all(|k| h.read(q, k) == 0));
}

#[test]
fn best_fit_prefers_the_smallest_free_chunk() {
    let mut h = Dlmalloc::new(LIMIT);
    let big = h.malloc(200, 8);
    let g1 = h.malloc(16, 8);
    let small = h.malloc(64, 8);
    let g2 = h.malloc(16, 8);
    assert!(g1 != 0 && g2 != 0);
    h.free(big, 200, 8);
    h.free(small, 64, 8);
    assert_eq!(h.malloc(60, 8), small);
    assert_eq!(h.malloc(60, 8), big);
}

#[test]
fn request_sizes_round_to_granularity() {
    assert_eq!(request_chunk_size(0), 32);
    assert_eq!(request_chunk_size(16), 32);
    assert_eq!(request_chunk_size(17), 48);
    assert_eq!(request_chunk_size(100), 128);
    assert_eq!(request_chunk_size(4096), 4112);
    assert_eq!(round_to_pages(1), 4096);
    assert_eq!(round_to_pages(4096), 4096);
    assert_eq!(round_to_pages(4097), 8192);
}

#[test]
fn native_alignment_is_sixteen() {
    let h = Dlmalloc::new(LIMIT);
    assert_eq!(h.malloc_alignment(), ALIGNMENT);
    assert_eq!(ALIGNMENT, 16);
}

#[test]
fn limit_is_capped() {
    let mut h = Dlmalloc::new(usize::MAX);
    let p = h.malloc(10, 8);
    assert!(p != 0);
    assert_eq!(h.usable_size(p), 16);
}

#[test]
fn liveness_follows_allocation_and_free() {
    let mut h = Dlmalloc::new(LIMIT);
    let p = h.malloc(40, 8);
    assert!(h.is_live(p));
    assert!(!h.is_live(p + 16));
    assert!(!h.is_live(0));
    h.free(p, 40, 8);
    assert!(!h.is_live(p));
}

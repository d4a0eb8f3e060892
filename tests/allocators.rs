use std::collections::HashMap;
use std::mem::MaybeUninit;

use kernel_memory::allocator::bump::Bumper;
use kernel_memory::allocator::slab::{slab_index, Route, Slabber};
use kernel_memory::allocator::{align, Alloc, Release};
use linked_list_allocator::Heap;

fn fallback_heap(bytes: usize) -> Heap {
    let mem: &'static mut [MaybeUninit<u8>] =
        Box::leak(vec![MaybeUninit::<u8>::uninit(); bytes].into_boxed_slice());
    Heap::from_slice(mem)
}

fn slabber(bytes: usize) -> (Slabber, usize, usize) {
    let heap = fallback_heap(bytes);
    let bottom = heap.bottom() as usize;
    let top = heap.top() as usize;
    let mut s = Slabber::new();
    s.init(heap);
    (s, bottom, top)
}

#[test]
fn align_rounds_up_to_multiple() {
    assert_eq!(align(13, 8), 16);
    assert_eq!(align(16, 8), 16);
    assert_eq!(align(0, 4096), 0);
    assert_eq!(align(4097, 4096), 8192);
    assert_eq!(align(10, 3), 12);
}

#[test]
fn bump_three_blocks_then_reclaim() {
    let base = 0x1000;
    let mut b = Bumper::new();
    b.init(base, 1024);
    let a1 = b.allocate(300, 8);
    let a2 = b.allocate(300, 8);
    let a3 = b.allocate(300, 8);
    assert_eq!(a1, base);
    assert_eq!(a2, base + 304);
    assert_eq!(a3, base + 608);
    // a fourth block no longer fits below the end of the heap
    assert_eq!(b.allocate(300, 8), 0);
    assert_eq!(b.live_count(), 3);
    b.deallocate(a1, 300, 8);
    b.deallocate(a2, 300, 8);
    b.deallocate(a3, 300, 8);
    assert_eq!(b.live_count(), 0);
    assert_eq!(b.allocate(1000, 8), base);
}

#[test]
fn bump_blocks_never_overlap() {
    let mut b = Bumper::new();
    b.init(0x2000, 4096);
    let mut blocks: Vec<(usize, usize)> = Vec::new();
    for (size, to) in [(1usize, 1usize), (7, 8), (64, 64), (3, 2), (100, 16), (0, 32)] {
        let a = b.allocate(size, to);
        assert_ne!(a, 0);
        assert_eq!(a % to, 0);
        blocks.push((a, a + size));
    }
    for i in 0..blocks.len() {
        for j in (i + 1)..blocks.len() {
            let (x, y) = (blocks[i], blocks[j]);
            assert!(x.1 <= y.0 || y.1 <= x.0 || x.0 == x.1 || y.0 == y.1);
        }
        assert!(blocks[i].1 <= 0x2000 + 4096);
    }
}

#[test]
fn bump_region_pinned_until_last_free() {
    let mut b = Bumper::new();
    b.init(0x4000, 256);
    let a = b.allocate(100, 8);
    let c = b.allocate(100, 8);
    b.deallocate(a, 100, 8);
    // one block is still live, so nothing is reclaimed
    assert_eq!(b.allocate(100, 8), 0);
    b.deallocate(c, 100, 8);
    assert_eq!(b.allocate(256, 1), 0x4000);
}

#[test]
fn bump_rejects_oversized_and_overflowing_requests() {
    let mut b = Bumper::new();
    b.init(0x4000, 256);
    assert_eq!(b.allocate(257, 1), 0);
    assert_eq!(b.allocate(1, usize::MAX), 0);
    assert_eq!(b.allocate(usize::MAX, 1), 0);
    assert_eq!(b.live_count(), 0);
    assert_eq!(b.allocate(256, 1), 0x4000);
}

#[test]
fn bump_through_trait() {
    let mut b = Bumper::new();
    b.init(0x8000, 64);
    assert_eq!(b.link_for(16, 16), None);
    let a = b.alloc_block(16, 16, 0);
    assert_eq!(a, 0x8000);
    assert_eq!(b.dealloc_block(a, 16, 16), Release::Done);
    assert_eq!(b.live_count(), 0);
}

#[test]
fn slab_index_picks_smallest_covering_class() {
    assert_eq!(slab_index(1, 1), Some(0));
    assert_eq!(slab_index(8, 8), Some(0));
    assert_eq!(slab_index(9, 1), Some(1));
    assert_eq!(slab_index(24, 8), Some(2));
    assert_eq!(slab_index(4, 64), Some(3));
    assert_eq!(slab_index(2048, 1), Some(8));
    assert_eq!(slab_index(2049, 1), None);
    assert_eq!(slab_index(8, 4096), None);
    assert_eq!(slab_index(0, 1), Some(0));
}

/// The slab allocator together with the memory its free lists live in: the
/// link word stored at the start of each free block.
struct SlabHeap {
    slab: Slabber,
    links: HashMap<usize, usize>,
}

impl SlabHeap {
    fn new(bytes: usize) -> (SlabHeap, usize, usize) {
        let (slab, bottom, top) = slabber(bytes);
        (SlabHeap { slab, links: HashMap::new() }, bottom, top)
    }

    fn take(&mut self, size: usize, to: usize) -> usize {
        let link = match self.slab.link_to_read(size, to) {
            Some(block) => self.links[&block],
            None => 0,
        };
        self.slab.allocate(size, to, link)
    }

    fn free(&mut self, ptr: usize, size: usize, to: usize) -> Release {
        let r = self.slab.deallocate(ptr, size, to);
        if let Release::Link { block, next } = r {
            self.links.insert(block, next);
        }
        r
    }
}

#[test]
fn slab_thousand_objects_one_fallback_call() {
    let (mut h, bottom, top) = SlabHeap::new(64 * 1024);
    assert_eq!(h.slab.route(24, 8), Route::Carve(2));
    let used_before = h.slab.fallback.used();
    let first = h.take(24, 8);
    assert_ne!(first, 0);
    assert_eq!(h.free(first, 24, 8), Release::Link { block: first, next: 0 });
    let used_after_first = h.slab.fallback.used();
    assert!(used_after_first > used_before);
    for _ in 1..1000 {
        assert_eq!(h.slab.route(24, 8), Route::Recycle(2));
        let a = h.take(24, 8);
        assert_eq!(a, first);
        assert_eq!(h.free(a, 24, 8), Release::Link { block: first, next: 0 });
    }
    assert_eq!(h.slab.fallback.used(), used_after_first);
    assert!(bottom <= first && first + 32 <= top);
    assert_eq!(first % 32, 0);
}

#[test]
fn slab_freed_block_comes_back() {
    let (mut h, _, _) = SlabHeap::new(16 * 1024);
    let a = h.take(100, 4);
    let b = h.take(128, 128);
    assert_ne!(a, b);
    assert_eq!(h.free(a, 100, 4), Release::Link { block: a, next: 0 });
    // same class (128 bytes), other layout
    assert_eq!(h.take(128, 128), a);
    assert_eq!(h.free(b, 128, 128), Release::Link { block: b, next: 0 });
    assert_eq!(h.take(65, 1), b);
}

#[test]
fn slab_free_list_is_last_in_first_out() {
    let (mut h, _, _) = SlabHeap::new(16 * 1024);
    let a = h.take(16, 16);
    let b = h.take(16, 16);
    let c = h.take(16, 16);
    assert_eq!(h.free(a, 16, 16), Release::Link { block: a, next: 0 });
    assert_eq!(h.free(b, 16, 16), Release::Link { block: b, next: a });
    assert_eq!(h.free(c, 16, 16), Release::Link { block: c, next: b });
    assert_eq!(h.slab.link_to_read(16, 16), Some(c));
    assert_eq!(h.take(16, 16), c);
    assert_eq!(h.take(16, 16), b);
    assert_eq!(h.take(16, 16), a);
    assert_eq!(h.slab.link_to_read(16, 16), None);
    assert_eq!(h.slab.route(16, 16), Route::Carve(1));
}

#[test]
fn slab_oversized_goes_to_fallback() {
    let (mut h, bottom, top) = SlabHeap::new(64 * 1024);
    for to in [1usize, 8, 64, 2048, 4096] {
        assert_eq!(h.slab.route(4096, to), Route::Fallback);
    }
    let a = h.take(4096, 8);
    assert_ne!(a, 0);
    assert!(bottom <= a && a + 4096 <= top);
    assert_eq!(h.free(a, 4096, 8), Release::Fallback);
    assert_eq!(h.slab.route(4096, 8), Route::Fallback);
}

#[test]
fn slab_results_aligned_and_inside_heap() {
    let (mut h, bottom, top) = SlabHeap::new(64 * 1024);
    for (size, to) in [(1usize, 1usize), (3, 4), (24, 8), (33, 32), (1, 1024), (600, 2), (3000, 16), (100, 4096)] {
        let a = h.take(size, to);
        assert_ne!(a, 0);
        assert_eq!(a % to, 0);
        assert!(bottom <= a && a + size <= top);
    }
}

#[test]
fn slab_empty_heap_fails() {
    let mut s = Slabber::new();
    assert_eq!(s.allocate(16, 8, 0), 0);
    assert_eq!(s.allocate(5000, 8, 0), 0);
    assert_eq!(s.link_for(16, 8), None);
    assert_eq!(s.alloc_block(16, 8, 0), 0);
}

#[test]
fn slab_reuse_leaves_fallback_alone() {
    let (mut h, _, _) = SlabHeap::new(16 * 1024);
    let a = h.take(64, 8);
    h.free(a, 64, 8);
    let used = h.slab.fallback.used();
    let free = h.slab.fallback.free();
    assert_eq!(h.take(64, 64), a);
    assert_eq!(h.slab.fallback.used(), used);
    assert_eq!(h.slab.fallback.free(), free);
}

#[test]
fn slab_blocks_never_overlap() {
    let (mut h, _, _) = SlabHeap::new(64 * 1024);
    let layouts = [(24usize, 8usize), (8, 8), (100, 4), (3000, 8), (24, 8), (512, 512), (1, 1), (2048, 16)];
    let mut spans: Vec<(usize, usize)> = Vec::new();
    for round in 0..3 {
        for (n, &(size, to)) in layouts.iter().enumerate() {
            let a = h.take(size, to);
            assert_ne!(a, 0);
            let len = match slab_index(size, to) {
                Some(i) => 8 << i,
                None => size,
            };
            spans.push((a, a + len));
            if (n + round) % 3 == 0 {
                h.free(a, size, to);
                spans.pop();
            }
        }
    }
    for i in 0..spans.len() {
        for j in (i + 1)..spans.len() {
            assert!(spans[i].1 <= spans[j].0 || spans[j].1 <= spans[i].0);
        }
    }
}

#[test]
fn slab_exhausted_fallback_returns_null() {
    let (mut h, _, _) = SlabHeap::new(4096);
    assert_eq!(h.take(8192, 8), 0);
    assert_ne!(h.take(2048, 2048), 0);
}

use vstd::arithmetic::power2::{lemma_pow2_pos, pow2};
use vstd::prelude::*;

use super::{align, align_up, disjoint, is_power_of_two, lemma_align_up, Alloc, Release};

verus! {

/// Whether a block of `size` bytes aligned to `to` fits between the cursor
/// `next` and the end of the heap.
pub open spec fn bump_fits(next: int, end: int, size: int, to: int) -> bool {
    align_up(next, to) + size <= end
}

/// The address a bump allocation returns: the aligned cursor, or 0 when the
/// block does not fit.
pub open spec fn bump_result(next: int, end: int, size: int, to: int) -> int {
    if bump_fits(next, end, size, to) {
        align_up(next, to)
    } else {
        0
    }
}

/// A bump allocator: hands out memory by advancing a cursor and reclaims the
/// whole region only once every allocation has been freed.
pub struct Bumper {
    heap_start: usize,
    heap_end: usize,
    next: usize,
    allocs: usize,
    /// The blocks handed out since the cursor was last reset.
    window: Ghost<Seq<(int, int)>>,
}

impl Bumper {
    pub closed spec fn start(&self) -> int {
        self.heap_start as int
    }

    pub closed spec fn end(&self) -> int {
        self.heap_end as int
    }

    pub closed spec fn cursor(&self) -> int {
        self.next as int
    }

    pub closed spec fn live(&self) -> int {
        self.allocs as int
    }

    /// The blocks handed out since the region was last reclaimed.
    pub closed spec fn window(&self) -> Seq<(int, int)> {
        self.window@
    }

    /// The cursor stays inside the heap, and the blocks handed out since the
    /// last reset lie below the cursor and never overlap one another.
    pub closed spec fn wf(&self) -> bool {
        &&& self.heap_start <= self.next <= self.heap_end
        &&& self.allocs == 0 ==> self.next == self.heap_start && self.window@.len() == 0
        &&& forall|i: int|
            #![trigger self.window@[i]]
            0 <= i < self.window@.len() ==> self.heap_start <= self.window@[i].0
                <= self.window@[i].1 <= self.next
        &&& forall|i: int, j: int|
            0 <= i < j < self.window@.len() ==> disjoint(
                #[trigger] self.window@[i],
                #[trigger] self.window@[j],
            )
    }

    /// An allocator over an empty region.
    pub fn new() -> (r: Self)
        ensures
            r.wf(),
            r.start() == 0,
            r.end() == 0,
            r.cursor() == 0,
            r.live() == 0,
    {
        Bumper { heap_start: 0, heap_end: 0, next: 0, allocs: 0, window: Ghost(Seq::empty()) }
    }

    /// Hands the region `[heap_start, heap_start + heap_size)` to the allocator.
    pub fn init(&mut self, heap_start: usize, heap_size: usize)
        requires
            heap_start + heap_size <= usize::MAX,
            old(self).live() == 0,
        ensures
            final(self).wf(),
            final(self).start() == heap_start,
            final(self).end() == heap_start + heap_size,
            final(self).cursor() == heap_start,
            final(self).live() == 0,
    {
        self.heap_start = heap_start;
        self.heap_end = heap_start + heap_size;
        self.next = heap_start;
        self.window = Ghost(Seq::empty());
    }

    /// Number of allocations not yet freed.
    pub fn live_count(&self) -> (r: usize)
        ensures
            r == self.live(),
    {
        self.allocs
    }

    /// Whether `allocate` serves a request: the block fits below the end of
    /// the heap and the count of live blocks can grow.
    pub open spec fn serves(&self, size: int, to: int) -> bool {
        self.live() < usize::MAX && bump_fits(self.cursor(), self.end(), size, to)
    }

    /// Reserves `size` bytes aligned to `to`; returns the block's address, or 0
    /// when it does not fit below the end of the heap (or the count of live
    /// blocks is at its limit). A new block never overlaps a block handed out
    /// since the region was last reclaimed.
    pub fn allocate(&mut self, size: usize, to: usize) -> (r: usize)
        requires
            old(self).wf(),
            to > 0,
        ensures
            final(self).wf(),
            old(self).live() < usize::MAX ==> r == bump_result(
                old(self).cursor(),
                old(self).end(),
                size as int,
                to as int,
            ),
            final(self).start() == old(self).start(),
            final(self).end() == old(self).end(),
            old(self).serves(size as int, to as int) ==> {
                &&& r % to == 0
                &&& final(self).cursor() == r + size
                &&& final(self).live() == old(self).live() + 1
                &&& final(self).window() == old(self).window().push((r as int, r + size))
                &&& forall|i: int|
                    0 <= i < old(self).window().len() ==> disjoint(
                        #[trigger] old(self).window()[i],
                        (r as int, r + size),
                    )
            },
            !old(self).serves(size as int, to as int) ==> r == 0 && *final(self) == *old(self),
    {
        if self.allocs == usize::MAX {
            return 0;
        }
        proof {
            lemma_align_up(self.next as int, to as int);
        }
        let rem = self.next % to;
        if rem != 0 && to - rem > usize::MAX - self.next {
            return 0;
        }
        let start = align(self.next, to);
        if start > self.heap_end || size > self.heap_end - start {
            return 0;
        }
        let end = start + size;
        proof {
            let old_window = self.window@;
            let block = (start as int, end as int);
            assert forall|i: int| 0 <= i < old_window.len() implies disjoint(
                #[trigger] old_window[i],
                block,
            ) by {
                assert(old_window[i].1 <= self.next);
            }
            self.window = Ghost(old_window.push(block));
            assert forall|i: int, j: int| 0 <= i < j < self.window@.len() implies disjoint(
                #[trigger] self.window@[i],
                #[trigger] self.window@[j],
            ) by {
                if j == old_window.len() {
                    assert(old_window[i] == self.window@[i]);
                } else {
                    assert(old_window[i] == self.window@[i]);
                    assert(old_window[j] == self.window@[j]);
                }
            }
        }
        self.next = end;
        self.allocs = self.allocs + 1;
        start
    }

    /// Records that one block was freed; when none is left the cursor goes
    /// back to the start of the heap and the whole region is free again.
    pub fn deallocate(&mut self, _ptr: usize, _size: usize, _to: usize)
        requires
            old(self).wf(),
            old(self).live() > 0,
        ensures
            final(self).wf(),
            final(self).live() == old(self).live() - 1,
            final(self).start() == old(self).start(),
            final(self).end() == old(self).end(),
            final(self).live() == 0 ==> final(self).cursor() == final(self).start(),
            final(self).live() > 0 ==> final(self).cursor() == old(self).cursor()
                && final(self).window() == old(self).window(),
    {
        self.allocs = self.allocs - 1;
        if self.allocs == 0 {
            self.next = self.heap_start;
            self.window = Ghost(Seq::empty());
        }
    }
}

impl Alloc for Bumper {
    open spec fn ready(&self) -> bool {
        self.wf()
    }

    open spec fn can_alloc(&self, size: usize, to: usize, link: usize) -> bool {
        true
    }

    open spec fn can_free(&self, ptr: usize, size: usize, to: usize) -> bool {
        self.live() > 0
    }

    open spec fn link_spec(&self, size: usize, to: usize) -> Option<usize> {
        None
    }

    open spec fn alloc_post(&self, after: Self, size: usize, to: usize, link: usize, r: usize) -> bool {
        &&& after.start() == self.start()
        &&& after.end() == self.end()
        &&& if self.serves(size as int, to as int) {
            &&& r == align_up(self.cursor(), to as int)
            &&& after.cursor() == r + size
            &&& after.live() == self.live() + 1
            &&& after.window() == self.window().push((r as int, r + size))
        } else {
            r == 0 && after == *self
        }
    }

    open spec fn dealloc_post(&self, after: Self, ptr: usize, size: usize, to: usize, r: Release) -> bool {
        &&& r == Release::Done
        &&& after.start() == self.start()
        &&& after.end() == self.end()
        &&& after.live() == self.live() - 1
        &&& after.live() == 0 ==> after.cursor() == after.start()
        &&& after.live() > 0 ==> after.cursor() == self.cursor() && after.window() == self.window()
    }

    fn link_for(&self, size: usize, to: usize) -> (r: Option<usize>) {
        None
    }

    fn alloc_block(&mut self, size: usize, to: usize, link: usize) -> (r: usize) {
        proof {
            let k = choose|k: nat| pow2(k) == to;
            lemma_pow2_pos(k);
            lemma_align_up(self.cursor(), to as int);
            assert(0int % (to as int) == 0);
        }
        self.allocate(size, to)
    }

    fn dealloc_block(&mut self, ptr: usize, size: usize, to: usize) -> (r: Release) {
        self.deallocate(ptr, size, to);
        Release::Done
    }
}

/// In every well-formed state the cursor lies inside the heap, and the blocks
/// handed out since the region was last reclaimed lie below the cursor and
/// never overlap one another.
pub proof fn lemma_bump_window(b: Bumper)
    requires
        b.wf(),
    ensures
        b.start() <= b.cursor() <= b.end(),
        forall|i: int|
            0 <= i < b.window().len() ==> b.start() <= (#[trigger] b.window()[i]).0 <= b.window()[i].1
                <= b.cursor(),
        forall|i: int, j: int|
            0 <= i < j < b.window().len() ==> disjoint(
                #[trigger] b.window()[i],
                #[trigger] b.window()[j],
            ),
{
    assert forall|i: int| 0 <= i < b.window().len() implies b.start() <= (#[trigger] b.window()[i]).0
        <= b.window()[i].1 <= b.cursor() by {
        assert(b.window@[i] == b.window()[i]);
    }
}

/// Once every block has been freed, any request that fits in the heap from
/// its start, with an alignment the start already meets, is served at the
/// start of the heap.
pub proof fn lemma_bump_reclaims(b: Bumper, size: int, to: int)
    requires
        b.wf(),
        b.live() == 0,
        to > 0,
        0 <= size <= b.end() - b.start(),
        b.start() % to == 0,
    ensures
        bump_fits(b.cursor(), b.end(), size, to),
        bump_result(b.cursor(), b.end(), size, to) == b.start(),
{
}

} // verus!

use vstd::arithmetic::power2::{lemma_pow2_adds, lemma_pow2_pos, lemma_pow2_strictly_increases, pow2};
use vstd::prelude::*;

use crate::error::{Error, MapError};
use crate::memory::{page_of, PAGE_SIZE};

pub mod bump;
pub mod fallback;
pub mod slab;

verus! {

/// Virtual address at which the kernel heap begins.
pub const HEAP_START: u64 = 0x4444_4444_0000;

/// Size of the kernel heap in bytes.
pub const HEAP_SIZE: u64 = 100 * 1024;

/// The smallest multiple of `to` that is at least `addr`.
pub open spec fn align_up(addr: int, to: int) -> int {
    if addr % to == 0 {
        addr
    } else {
        addr - addr % to + to
    }
}

/// Two byte ranges `[a.0, a.1)` and `[b.0, b.1)` share no byte.
pub open spec fn disjoint(a: (int, int), b: (int, int)) -> bool {
    a.1 <= b.0 || b.1 <= a.0 || a.0 == a.1 || b.0 == b.1
}

/// `n` is a power of two, as every layout alignment is.
pub open spec fn is_power_of_two(n: int) -> bool {
    exists|k: nat| pow2(k) == n
}

/// An address aligned to a power of two is aligned to every smaller power of two.
pub proof fn lemma_aligned_to_smaller(a: int, k: nat, n: nat)
    requires
        a >= 0,
        pow2(k) <= pow2(n),
        a % (pow2(n) as int) == 0,
    ensures
        a % (pow2(k) as int) == 0,
{
    if n < k {
        lemma_pow2_strictly_increases(n, k);
    }
    let d = (n - k) as nat;
    lemma_pow2_adds(k, d);
    lemma_pow2_pos(n);
    lemma_pow2_pos(k);
    let pn = pow2(n) as int;
    let pk = pow2(k) as int;
    let pd = pow2(d) as int;
    assert(k + d == n);
    assert(pn == pk * pd);
    vstd::arithmetic::div_mod::lemma_fundamental_div_mod(a, pn);
    let q = a / pn;
    assert(a == pk * (pd * q)) by (nonlinear_arith)
        requires
            a == pn * q + 0,
            pn == pk * pd,
    ;
    vstd::arithmetic::div_mod::lemma_mod_multiples_basic(pd * q, pk);
    assert((pd * q) * pk == pk * (pd * q)) by (nonlinear_arith);
}

pub proof fn lemma_align_up(addr: int, to: int)
    requires
        addr >= 0,
        to > 0,
    ensures
        align_up(addr, to) % to == 0,
        addr <= align_up(addr, to) < addr + to,
{
    vstd::arithmetic::div_mod::lemma_fundamental_div_mod(addr, to);
    vstd::arithmetic::div_mod::lemma_mod_bound(addr, to);
    if addr % to != 0 {
        vstd::arithmetic::div_mod::lemma_mod_multiples_vanish(addr / to + 1, 0, to);
        assert(addr - addr % to + to == to * (addr / to + 1)) by (nonlinear_arith)
            requires
                addr == to * (addr / to) + addr % to,
        ;
        vstd::arithmetic::div_mod::lemma_mod_multiples_basic(addr / to + 1, to);
    }
}

/// Rounds `addr` up to the next multiple of `to`.
pub fn align(addr: usize, to: usize) -> (r: usize)
    requires
        to > 0,
        align_up(addr as int, to as int) <= usize::MAX,
    ensures
        r == align_up(addr as int, to as int),
        r % to == 0,
        addr <= r < addr + to,
{
    proof {
        lemma_align_up(addr as int, to as int);
    }
    let rem = addr % to;
    if rem == 0 {
        addr
    } else {
        assert(rem <= addr) by {
            vstd::arithmetic::div_mod::lemma_mod_decreases(addr as nat, to as nat);
        }
        addr - rem + to
    }
}

/// What the caller does with a block's memory after freeing it.
#[derive(Clone, Copy, Debug, PartialEq, Eq, Structural)]
pub enum Release {
    /// Nothing more to do.
    Done,
    /// The block joined a free list: store `next` in its first word.
    Link { block: usize, next: usize },
    /// The block belongs to the fallback heap: release it there.
    Fallback,
}

/// The allocate/deallocate contract both allocator strategies meet.
///
/// An allocator may keep free blocks in lists threaded through the blocks'
/// own memory, which the caller owns: `link_for` names the block whose first
/// word the next `alloc_block` needs, and `dealloc_block` says what to store.
pub trait Alloc: Sized {
    /// The allocator's internal invariant.
    spec fn ready(&self) -> bool;

    /// The allocator can serve this request with `link` as the word read.
    spec fn can_alloc(&self, size: usize, to: usize, link: usize) -> bool;

    /// `ptr` is a live block that was handed out for `size` bytes aligned to `to`.
    spec fn can_free(&self, ptr: usize, size: usize, to: usize) -> bool;

    /// The block whose first word `alloc_block` needs for this request, if any.
    spec fn link_spec(&self, size: usize, to: usize) -> Option<usize>;

    /// What an allocation does: the block returned and the state after it.
    spec fn alloc_post(&self, after: Self, size: usize, to: usize, link: usize, r: usize) -> bool;

    /// What freeing a block does: the state after it and the answer given.
    spec fn dealloc_post(&self, after: Self, ptr: usize, size: usize, to: usize, r: Release) -> bool;

    /// The block whose first word the caller reads and passes to
    /// `alloc_block` as `link`, if any.
    fn link_for(&self, size: usize, to: usize) -> (r: Option<usize>)
        requires
            self.ready(),
        ensures
            r == self.link_spec(size, to),
    ;

    /// Reserves `size` bytes aligned to `to`; 0 when there is no room.
    fn alloc_block(&mut self, size: usize, to: usize, link: usize) -> (r: usize)
        requires
            old(self).ready(),
            old(self).can_alloc(size, to, link),
            is_power_of_two(to as int),
            size + to - 1 <= isize::MAX,
        ensures
            final(self).ready(),
            r % to == 0,
            old(self).alloc_post(*final(self), size, to, link, r),
    ;

    /// Frees a block, and says what the caller does with its memory.
    fn dealloc_block(&mut self, ptr: usize, size: usize, to: usize) -> (r: Release)
        requires
            old(self).ready(),
            old(self).can_free(ptr, size, to),
        ensures
            final(self).ready(),
            old(self).dealloc_post(*final(self), ptr, size, to, r),
    ;
}

/// The start of page `i` of the heap that begins at `start`.
pub open spec fn heap_page(start: int, i: int) -> int {
    page_of(start) + 4096 * i
}

/// The number of pages that cover `[start, start + size)`.
pub open spec fn heap_page_count(start: int, size: int) -> int {
    (page_of(start + size - 1) - page_of(start)) / 4096 + 1
}

/// What the heap set-up asks of the page-table code next.
#[derive(Clone, Copy, Debug, PartialEq, Eq, Structural)]
pub enum Step {
    /// Take a frame from the frame source, map this page to it present and
    /// writable, and flush the page's stale translation; then report the outcome.
    MapPage(u64),
    /// Every page is mapped: hand the region to the allocator.
    Install { start: u64, size: u64 },
}

/// What came of a `Step::MapPage`.
#[derive(Clone, Copy, Debug, PartialEq, Eq, Structural)]
pub enum PageOutcome {
    Mapped,
    /// The frame source had no frame left.
    NoFrame,
    MapFailed(MapError),
}

/// The mapped-page count and the result after one page's outcome.
pub open spec fn after_outcome(mapped: int, outcome: PageOutcome) -> (int, Result<(), Error>) {
    match outcome {
        PageOutcome::Mapped => (mapped + 1, Ok(())),
        PageOutcome::NoFrame => (mapped, Err(Error::OutOfFrames)),
        PageOutcome::MapFailed(e) => (mapped, Err(Error::MapTo(e))),
    }
}

/// A whole set-up of `count` pages fed `outcomes` in order: how many pages
/// end up mapped, and the error it stops with, if any. It stops at the
/// first error, or once every page is mapped.
pub open spec fn init_run(mapped: int, count: int, outcomes: Seq<PageOutcome>) -> (int, Option<Error>)
    decreases outcomes.len(),
{
    if mapped >= count || outcomes.len() == 0 {
        (mapped, None)
    } else {
        let (m, r) = after_outcome(mapped, outcomes[0]);
        match r {
            Ok(()) => init_run(m, count, outcomes.drop_first()),
            Err(e) => (m, Some(e)),
        }
    }
}

/// When the frame source runs dry at page `k` of `count`, the set-up reports
/// `OutOfFrames`, pages `0..k` stay mapped, and the allocator is never
/// installed, whatever outcomes would have followed.
pub proof fn lemma_init_stops_at_missing_frame(count: int, k: int, rest: Seq<PageOutcome>)
    requires
        0 <= k < count,
    ensures
        init_run(
            0,
            count,
            Seq::new(k as nat, |i: int| PageOutcome::Mapped) + seq![PageOutcome::NoFrame] + rest,
        ) == (k, Some(Error::OutOfFrames)),
{
    lemma_init_run_mapped_prefix(0, count, k, seq![PageOutcome::NoFrame] + rest);
    assert(Seq::new(k as nat, |i: int| PageOutcome::Mapped) + seq![PageOutcome::NoFrame] + rest
        =~= Seq::new(k as nat, |i: int| PageOutcome::Mapped) + (seq![PageOutcome::NoFrame] + rest));
    assert((seq![PageOutcome::NoFrame] + rest)[0] == PageOutcome::NoFrame);
}

proof fn lemma_init_run_mapped_prefix(mapped: int, count: int, k: int, tail: Seq<PageOutcome>)
    requires
        0 <= mapped,
        0 <= k,
        mapped + k < count,
    ensures
        init_run(mapped, count, Seq::new(k as nat, |i: int| PageOutcome::Mapped) + tail) == init_run(
            mapped + k,
            count,
            tail,
        ),
    decreases k,
{
    let s = Seq::new(k as nat, |i: int| PageOutcome::Mapped) + tail;
    if k > 0 {
        assert(s[0] == PageOutcome::Mapped);
        assert(s.drop_first() =~= Seq::new((k - 1) as nat, |i: int| PageOutcome::Mapped) + tail);
        lemma_init_run_mapped_prefix(mapped + 1, count, k - 1, tail);
    } else {
        assert(s =~= tail);
    }
}

/// The heap set-up in progress: maps the pages of the heap region in order,
/// stops at the first failure without undoing the pages already mapped, and
/// only once every page is mapped asks for the allocator to be installed.
pub struct HeapInit {
    start: u64,
    size: u64,
    first_page: u64,
    pages: u64,
    mapped: u64,
    failed: bool,
}

impl HeapInit {
    pub closed spec fn start(&self) -> int {
        self.start as int
    }

    pub closed spec fn size(&self) -> int {
        self.size as int
    }

    pub closed spec fn page_count(&self) -> int {
        self.pages as int
    }

    /// A page could not be mapped: the set-up is over and is never retried.
    pub closed spec fn failed(&self) -> bool {
        self.failed
    }

    /// How many pages, from the first, are mapped.
    pub closed spec fn mapped(&self) -> int {
        self.mapped as int
    }

    pub closed spec fn wf(&self) -> bool {
        &&& self.size > 0
        &&& self.start + self.size <= u64::MAX
        &&& self.first_page == page_of(self.start as int)
        &&& self.pages == heap_page_count(self.start as int, self.size as int)
        &&& self.mapped <= self.pages
    }

    /// The set-up of the heap `[start, start + size)`, with no page mapped yet.
    pub fn new(start: u64, size: u64) -> (r: Self)
        requires
            size > 0,
            start + size <= u64::MAX,
        ensures
            r.wf(),
            r.start() == start,
            r.size() == size,
            r.page_count() == heap_page_count(start as int, size as int),
            r.mapped() == 0,
            !r.failed(),
    {
        let first_page = start - start % PAGE_SIZE;
        let last = start + size - 1;
        let last_page = last - last % PAGE_SIZE;
        proof {
            assert(page_of(start as int) <= page_of(last as int)) by (nonlinear_arith)
                requires
                    start <= last,
                    page_of(start as int) == start - start % 4096,
                    page_of(last as int) == last - last % 4096,
            ;
        }
        HeapInit {
            start,
            size,
            first_page,
            pages: (last_page - first_page) / PAGE_SIZE + 1,
            mapped: 0,
            failed: false,
        }
    }

    /// The set-up of the kernel heap at `HEAP_START`, `HEAP_SIZE` bytes long.
    pub fn kernel_heap() -> (r: Self)
        ensures
            r.wf(),
            r.start() == HEAP_START,
            r.size() == HEAP_SIZE,
            r.page_count() == heap_page_count(HEAP_START as int, HEAP_SIZE as int),
            r.mapped() == 0,
            !r.failed(),
    {
        HeapInit::new(HEAP_START, HEAP_SIZE)
    }

    /// Whether a page could not be mapped, which ends the set-up.
    pub fn has_failed(&self) -> (r: bool)
        ensures
            r == self.failed(),
    {
        self.failed
    }

    /// Number of pages mapped so far.
    pub fn mapped_pages(&self) -> (r: u64)
        ensures
            r == self.mapped(),
    {
        self.mapped
    }

    /// The next page to map, in order; once all are mapped, the region to
    /// hand to the allocator.
    pub fn next_step(&self) -> (r: Step)
        requires
            self.wf(),
            !self.failed(),
        ensures
            self.mapped() < self.page_count() ==> r == Step::MapPage(
                heap_page(self.start(), self.mapped()) as u64,
            ),
            self.mapped() == self.page_count() ==> r == (Step::Install {
                start: self.start() as u64,
                size: self.size() as u64,
            }),
    {
        if self.mapped < self.pages {
            proof {
                assert(heap_page(self.start as int, self.mapped as int) <= self.start + self.size)
                    by (nonlinear_arith)
                    requires
                        self.mapped < self.pages,
                        self.pages == (page_of(self.start + self.size - 1) - page_of(self.start as int)) / 4096 + 1,
                        page_of(self.start + self.size - 1) <= self.start + self.size - 1,
                        page_of(self.start + self.size - 1) >= page_of(self.start as int),
                        heap_page(self.start as int, self.mapped as int) == page_of(self.start as int) + 4096 * self.mapped,
                ;
            }
            Step::MapPage(self.first_page + PAGE_SIZE * self.mapped)
        } else {
            Step::Install { start: self.start, size: self.size }
        }
    }

    /// Records what came of mapping the next page. A mapped page moves the
    /// set-up on; a missing frame or a refused mapping ends it with that
    /// error and leaves the pages already mapped as they are.
    pub fn record(&mut self, outcome: PageOutcome) -> (r: Result<(), Error>)
        requires
            old(self).wf(),
            old(self).mapped() < old(self).page_count(),
            !old(self).failed(),
        ensures
            final(self).wf(),
            final(self).failed() == r is Err,
            final(self).start() == old(self).start(),
            final(self).size() == old(self).size(),
            final(self).page_count() == old(self).page_count(),
            (final(self).mapped(), r) == after_outcome(old(self).mapped(), outcome),
            outcome == PageOutcome::Mapped ==> r is Ok && final(self).mapped() == old(self).mapped() + 1,
            outcome == PageOutcome::NoFrame ==> r == Err::<(), Error>(Error::OutOfFrames)
                && final(self).mapped() == old(self).mapped(),
            outcome matches PageOutcome::MapFailed(e) ==> r == Err::<(), Error>(Error::MapTo(e))
                && final(self).mapped() == old(self).mapped(),
    {
        match outcome {
            PageOutcome::Mapped => {
                self.mapped = self.mapped + 1;
                Ok(())
            },
            PageOutcome::NoFrame => {
                self.failed = true;
                Err(Error::OutOfFrames)
            },
            PageOutcome::MapFailed(e) => {
                self.failed = true;
                Err(Error::MapTo(e))
            },
        }
    }
}

} // verus!

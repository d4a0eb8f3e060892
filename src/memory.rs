use vstd::prelude::*;

verus! {

/// Size of a physical frame and of a virtual page, in bytes.
pub const PAGE_SIZE: u64 = 4096;

/// The start of the page or frame that holds address `a`.
pub open spec fn page_of(a: int) -> int {
    a - a % 4096
}

/// One range `[start, end)` of the firmware's memory map.
#[derive(Clone, Copy, Debug, PartialEq, Eq, Structural)]
pub struct Region {
    pub start: u64,
    pub end: u64,
    /// Free for the kernel to use (every other kind is reserved).
    pub usable: bool,
}

/// The number of frame-sized steps from `r.start` that stay below `r.end`.
pub open spec fn step_count(r: Region) -> int {
    if r.end > r.start {
        (r.end - r.start - 1) / 4096 + 1
    } else {
        0
    }
}

/// The frames a region contributes: none if it is reserved, else the frame
/// of each address `start + 4096 * k` below `end`.
pub open spec fn region_frames(r: Region) -> Seq<int> {
    if r.usable {
        Seq::new(step_count(r) as nat, |k: int| page_of(r.start + 4096 * k))
    } else {
        Seq::empty()
    }
}

/// Every usable frame of a memory map, region after region, in map order.
pub open spec fn usable_frames(rs: Seq<Region>) -> Seq<int>
    decreases rs.len(),
{
    if rs.len() == 0 {
        Seq::empty()
    } else {
        usable_frames(rs.drop_last()) + region_frames(rs.last())
    }
}

proof fn lemma_usable_frames_prefix(rs: Seq<Region>, n: int)
    requires
        0 <= n <= rs.len(),
    ensures
        usable_frames(rs.take(n)).len() <= usable_frames(rs).len(),
        forall|j: int|
            0 <= j < usable_frames(rs.take(n)).len() ==> #[trigger] usable_frames(rs.take(n))[j]
                == usable_frames(rs)[j],
    decreases rs.len(),
{
    if n < rs.len() {
        lemma_usable_frames_prefix(rs.drop_last(), n);
        assert(rs.drop_last().take(n) =~= rs.take(n));
    } else {
        assert(rs.take(n) =~= rs);
    }
}

/// Hands out the usable frames of the memory map one by one, in order, and
/// never the same frame twice. Frames are never given back.
pub struct BootInfoFrameAllocator<'a> {
    regions: &'a [Region],
    next: usize,
}

impl<'a> BootInfoFrameAllocator<'a> {
    pub closed spec fn map(&self) -> Seq<Region> {
        self.regions@
    }

    /// How many frames were asked for so far.
    pub closed spec fn issued(&self) -> int {
        self.next as int
    }

    /// A frame source over the memory map `regions`, with no frame issued yet.
    pub fn init(regions: &'a [Region]) -> (r: Self)
        ensures
            r.map() == regions@,
            r.issued() == 0,
    {
        BootInfoFrameAllocator { regions, next: 0 }
    }

    /// How many frames were asked for so far.
    pub fn issued_count(&self) -> (r: usize)
        ensures
            r == self.issued(),
    {
        self.next
    }

    /// The next usable frame: the one after those issued before, or `None`
    /// once the usable regions are exhausted.
    pub fn allocate_frame(&mut self) -> (r: Option<u64>)
        requires
            old(self).issued() < usize::MAX,
        ensures
            final(self).map() == old(self).map(),
            final(self).issued() == old(self).issued() + 1,
            old(self).issued() < usable_frames(old(self).map()).len() ==> (r matches Some(f) && f
                == usable_frames(old(self).map())[old(self).issued()]),
            old(self).issued() >= usable_frames(old(self).map()).len() ==> r is None,
    {
        let ghost rs = self.regions@;
        let n = self.next;
        self.next = n + 1;
        let mut skip: u64 = n as u64;
        let mut i: usize = 0;
        while i < self.regions.len()
            invariant
                rs == self.regions@,
                rs == old(self).regions@,
                n == old(self).next,
                self.next == n + 1,
                i <= rs.len(),
                skip + usable_frames(rs.take(i as int)).len() == n,
            decreases rs.len() - i,
        {
            let r = self.regions[i];
            proof {
                assert(rs.take(i + 1).drop_last() =~= rs.take(i as int));
                assert(rs.take(i + 1).last() == r);
            }
            if r.usable && r.end > r.start {
                let count: u64 = (r.end - r.start - 1) / PAGE_SIZE + 1;
                if skip < count {
                    proof {
                        let d = r.end - r.start - 1;
                        assert(4096 * skip <= d) by (nonlinear_arith)
                            requires
                                skip < d / 4096 + 1,
                                d >= 0,
                        ;
                        lemma_usable_frames_prefix(rs, i + 1);
                        let pre = usable_frames(rs.take(i as int));
                        assert(usable_frames(rs.take(i + 1)) == pre + region_frames(r));
                        assert(usable_frames(rs.take(i + 1))[n as int] == region_frames(r)[skip as int]);
                    }
                    let a = r.start + PAGE_SIZE * skip;
                    return Some(a - a % PAGE_SIZE);
                }
                skip = skip - count;
            }
            i = i + 1;
        }
        proof {
            assert(rs.take(rs.len() as int) =~= rs);
        }
        None
    }
}

/// The entry index of `addr` in the table of `level` (4 is the top level,
/// 1 the last): nine bits of the address above the 12-bit page offset.
pub open spec fn table_index(addr: int, level: int) -> int {
    (addr / pow2_of_level(level)) % 512
}

/// The span of addresses one entry of a table of `level` covers.
pub open spec fn pow2_of_level(level: int) -> int {
    if level == 1 {
        0x1000
    } else if level == 2 {
        0x20_0000
    } else if level == 3 {
        0x4000_0000
    } else {
        0x80_0000_0000
    }
}

/// Largest physical address bit width on x86_64: physical addresses are below 2^52.
pub const PHYS_LIMIT: u64 = 0x10_0000_0000_0000;

/// What a page-table entry holds.
#[derive(Clone, Copy, Debug, PartialEq, Eq, Structural)]
pub enum Entry {
    NotPresent,
    /// The physical frame the entry points to: the next table, or at the
    /// last level the page's frame.
    Frame(u64),
    /// A huge-page leaf above the last level.
    HugeFrame,
}

/// Where a translation walk stands after reading an entry.
#[derive(Clone, Copy, Debug, PartialEq, Eq, Structural)]
pub enum WalkStep {
    /// Read the next level's entry.
    Descend,
    /// The address is mapped to this physical address.
    Mapped(u64),
    /// An entry on the way is not present.
    Unmapped,
    /// A huge page was met: such mappings are not supported.
    HugePage,
}

/// A walk of the four translation levels for one virtual address.
pub struct Translation {
    addr: u64,
    level: u64,
    frame: u64,
}

impl Translation {
    pub closed spec fn addr(&self) -> int {
        self.addr as int
    }

    /// The level whose table is read next, 4 down to 1.
    pub closed spec fn level(&self) -> int {
        self.level as int
    }

    /// The frame of the table read next.
    pub closed spec fn frame(&self) -> int {
        self.frame as int
    }

    pub closed spec fn wf(&self) -> bool {
        1 <= self.level <= 4
    }

    /// A walk for `addr` from the top-level table in frame `root`.
    pub fn new(addr: u64, root: u64) -> (r: Self)
        ensures
            r.wf(),
            r.addr() == addr,
            r.level() == 4,
            r.frame() == root,
    {
        Translation { addr, level: 4, frame: root }
    }

    /// The frame of the table to read next.
    pub fn table(&self) -> (r: u64)
        ensures
            r == self.frame(),
    {
        self.frame
    }

    /// The entry to read in that table.
    pub fn index(&self) -> (r: u64)
        requires
            self.wf(),
        ensures
            r == table_index(self.addr(), self.level()),
            r < 512,
    {
        let span: u64 = if self.level == 1 {
            0x1000
        } else if self.level == 2 {
            0x20_0000
        } else if self.level == 3 {
            0x4000_0000
        } else {
            0x80_0000_0000
        };
        self.addr / span % 512
    }

    /// Takes the entry read at the current level. A frame at the last level
    /// gives the physical address, the frame plus the offset in the page; a
    /// frame above it is the next table; an absent entry ends the walk
    /// unmapped; a huge page ends it unsupported.
    pub fn advance(&mut self, entry: Entry) -> (r: WalkStep)
        requires
            old(self).wf(),
            entry matches Entry::Frame(f) ==> f < PHYS_LIMIT,
        ensures
            final(self).addr() == old(self).addr(),
            entry == Entry::NotPresent ==> r == WalkStep::Unmapped,
            entry == Entry::HugeFrame ==> r == WalkStep::HugePage,
            entry matches Entry::Frame(f) ==> if old(self).level() == 1 {
                r == WalkStep::Mapped((f + old(self).addr() % 4096) as u64)
            } else {
                &&& r == WalkStep::Descend
                &&& final(self).wf()
                &&& final(self).level() == old(self).level() - 1
                &&& final(self).frame() == f
            },
    {
        match entry {
            Entry::NotPresent => WalkStep::Unmapped,
            Entry::HugeFrame => WalkStep::HugePage,
            Entry::Frame(f) => {
                if self.level == 1 {
                    WalkStep::Mapped(f + self.addr % PAGE_SIZE)
                } else {
                    self.level = self.level - 1;
                    self.frame = f;
                    WalkStep::Descend
                }
            },
        }
    }
}

} // verus!

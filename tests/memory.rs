use kernel_memory::allocator::{HeapInit, PageOutcome, Step, HEAP_SIZE, HEAP_START};
use kernel_memory::error::{Error, MapError};
use kernel_memory::interrupt::{InterruptIndex, PIC_1_OFFSET, PIC_2_OFFSET};
use kernel_memory::memory::{BootInfoFrameAllocator, Entry, Region, Translation, WalkStep};
use kernel_memory::vga_buffer::{Color, ColorCode};
use kernel_memory::QemuExitCode;

fn region(start: u64, end: u64, usable: bool) -> Region {
    Region { start, end, usable }
}

#[test]
fn frames_in_order_skipping_reserved() {
    let map = vec![
        region(0x1000, 0x3000, true),
        region(0x3000, 0x5000, false),
        region(0x5000, 0x6800, true),
    ];
    let mut f = BootInfoFrameAllocator::init(&map);
    assert_eq!(f.allocate_frame(), Some(0x1000));
    assert_eq!(f.allocate_frame(), Some(0x2000));
    assert_eq!(f.allocate_frame(), Some(0x5000));
    assert_eq!(f.allocate_frame(), Some(0x6000));
    assert_eq!(f.allocate_frame(), None);
    assert_eq!(f.allocate_frame(), None);
    assert_eq!(f.issued_count(), 6);
}

#[test]
fn frames_of_unaligned_region_round_down() {
    let map = [region(0x1800, 0x3000, true)];
    let mut f = BootInfoFrameAllocator::init(&map);
    assert_eq!(f.allocate_frame(), Some(0x1000));
    assert_eq!(f.allocate_frame(), Some(0x2000));
    assert_eq!(f.allocate_frame(), None);
}

#[test]
fn frames_of_empty_map() {
    let map = [region(0x1000, 0x1000, true), region(0, 0x9000, false)];
    let mut f = BootInfoFrameAllocator::init(&map);
    assert_eq!(f.allocate_frame(), None);
}

#[test]
fn heap_init_maps_every_page_then_installs() {
    let mut h = HeapInit::new(0x10000, 3 * 4096 + 1);
    for i in 0..4u64 {
        assert_eq!(h.next_step(), Step::MapPage(0x10000 + 4096 * i));
        assert_eq!(h.record(PageOutcome::Mapped), Ok(()));
    }
    assert_eq!(h.mapped_pages(), 4);
    assert_eq!(h.next_step(), Step::Install { start: 0x10000, size: 3 * 4096 + 1 });
}

#[test]
fn heap_init_unaligned_region_covers_partial_pages() {
    let mut h = HeapInit::new(0x10ff0, 0x20);
    assert_eq!(h.next_step(), Step::MapPage(0x10000));
    assert_eq!(h.record(PageOutcome::Mapped), Ok(()));
    assert_eq!(h.next_step(), Step::MapPage(0x11000));
    assert_eq!(h.record(PageOutcome::Mapped), Ok(()));
    assert_eq!(h.next_step(), Step::Install { start: 0x10ff0, size: 0x20 });
}

#[test]
fn heap_init_stops_at_missing_frame() {
    let mut h = HeapInit::new(0x10000, 5 * 4096);
    assert_eq!(h.record(PageOutcome::Mapped), Ok(()));
    assert_eq!(h.record(PageOutcome::Mapped), Ok(()));
    assert_eq!(h.next_step(), Step::MapPage(0x12000));
    assert_eq!(h.record(PageOutcome::NoFrame), Err(Error::OutOfFrames));
    // the two pages already mapped stay mapped, and the set-up is over
    assert_eq!(h.mapped_pages(), 2);
    assert!(h.has_failed());
}

#[test]
fn heap_init_reports_map_error() {
    let mut h = HeapInit::new(0x10000, 4096);
    let e = MapError::PageAlreadyMapped(0x7000);
    assert!(!h.has_failed());
    assert_eq!(h.record(PageOutcome::MapFailed(e)), Err(Error::MapTo(e)));
    assert_eq!(h.mapped_pages(), 0);
    assert!(h.has_failed());
    assert_eq!(Error::from(MapError::FrameAllocationFailed), Error::MapTo(MapError::FrameAllocationFailed));
}

#[test]
fn kernel_heap_has_twenty_five_pages() {
    assert_eq!(HEAP_START, 0x4444_4444_0000);
    assert_eq!(HEAP_SIZE, 100 * 1024);
    let mut h = HeapInit::kernel_heap();
    let mut n = 0;
    while let Step::MapPage(p) = h.next_step() {
        assert_eq!(p, HEAP_START + 4096 * n);
        assert_eq!(h.record(PageOutcome::Mapped), Ok(()));
        n += 1;
    }
    assert_eq!(n, 25);
    assert_eq!(h.next_step(), Step::Install { start: HEAP_START, size: HEAP_SIZE });
}

#[test]
fn translation_walks_four_levels() {
    let addr: u64 = (3 << 39) | (5 << 30) | (7 << 21) | (9 << 12) | 0x123;
    let mut t = Translation::new(addr, 0x1000);
    assert_eq!(t.table(), 0x1000);
    assert_eq!(t.index(), 3);
    assert_eq!(t.advance(Entry::Frame(0x2000)), WalkStep::Descend);
    assert_eq!(t.table(), 0x2000);
    assert_eq!(t.index(), 5);
    assert_eq!(t.advance(Entry::Frame(0x3000)), WalkStep::Descend);
    assert_eq!(t.index(), 7);
    assert_eq!(t.advance(Entry::Frame(0x4000)), WalkStep::Descend);
    assert_eq!(t.index(), 9);
    assert_eq!(t.advance(Entry::Frame(0x9000)), WalkStep::Mapped(0x9123));
}

#[test]
fn translation_stops_on_absent_or_huge_entry() {
    let mut t = Translation::new(0xdead_b000, 0x1000);
    assert_eq!(t.advance(Entry::Frame(0x2000)), WalkStep::Descend);
    assert_eq!(t.advance(Entry::NotPresent), WalkStep::Unmapped);
    let mut u = Translation::new(0xdead_b000, 0x1000);
    assert_eq!(u.advance(Entry::HugeFrame), WalkStep::HugePage);
}

#[test]
fn interrupt_vectors() {
    assert_eq!(PIC_1_OFFSET, 32);
    assert_eq!(PIC_2_OFFSET, 40);
    assert_eq!(InterruptIndex::Timer.as_u8(), 32);
    assert_eq!(InterruptIndex::Keyboard.as_u8(), 33);
    assert_eq!(InterruptIndex::Keyboard.as_usize(), 33);
}

#[test]
fn exit_codes_and_colors() {
    assert_eq!(QemuExitCode::Success.code(), 0x10);
    assert_eq!(QemuExitCode::Failed.code(), 0x11);
    assert_eq!(ColorCode::new(Color::Yellow, Color::Black), ColorCode(0x0e));
    assert_eq!(ColorCode::new(Color::White, Color::Blue), ColorCode(0x1f));
    assert_eq!(Color::Pink.as_u8(), 13);
}

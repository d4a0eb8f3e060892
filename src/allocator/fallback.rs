use vstd::prelude::*;

use linked_list_allocator::Heap;

use super::is_power_of_two;

verus! {

/// The first-fit heap of `linked_list_allocator`, carried as an opaque value.
#[verifier::external_type_specification]
#[verifier::external_body]
pub struct ExHeap(linked_list_allocator::Heap);

/// The address `Heap::bottom` reports: the lowest address the heap hands out.
pub uninterp spec fn heap_bottom(h: Heap) -> int;

/// The address `Heap::top` reports: just past the memory the heap owns.
pub uninterp spec fn heap_top(h: Heap) -> int;

/// Relies on `Heap::empty`: a heap that owns no memory, whose bottom and top
/// are both the null address.
#[verifier::external_body]
pub(crate) fn empty_heap() -> (r: Heap)
    ensures
        heap_bottom(r) == 0,
        heap_top(r) == 0,
{
    Heap::empty()
}

/// The bytes of the blocks the heap has handed out and not taken back: every
/// byte in `[bottom, top)` that lies in none of its holes.
pub uninterp spec fn heap_held(h: Heap) -> Set<int>;

/// Room above a heap's top for a first-fit search of `size` bytes aligned to
/// `to`: the search rounds hole addresses up and writes hole headers past the
/// block, and none of those addresses may pass the end of the address space.
pub open spec fn search_fits(top: int, size: int, to: int) -> bool {
    top + size + to + 64 <= usize::MAX
}

/// Relies on `Heap::top`: the end of the memory the heap owns.
#[verifier::external_body]
pub(crate) fn top_of(h: &Heap) -> (r: usize)
    ensures
        r == heap_top(*h),
{
    h.top() as usize
}

/// Relies on `Heap::allocate_first_fit`: a block it returns is non-null,
/// aligned as the layout asks, and holds at least the layout's size between
/// the heap's bottom and top; the heap's bounds do not move. The layout is
/// valid (`Layout::from_size_align` succeeds) under the stated requirements,
/// and `search_fits` keeps the search's address arithmetic from wrapping.
/// The block is cut out of a hole, so none of its bytes was held before the
/// call; afterwards they are held, and bytes held before stay held. A failed
/// search changes nothing.
#[verifier::external_body]
pub(crate) fn first_fit(h: &mut Heap, size: usize, to: usize) -> (r: Option<usize>)
    requires
        is_power_of_two(to as int),
        size + to - 1 <= isize::MAX,
        search_fits(heap_top(*old(h)), size as int, to as int),
    ensures
        heap_bottom(*final(h)) == heap_bottom(*old(h)),
        heap_top(*final(h)) == heap_top(*old(h)),
        heap_held(*old(h)).subset_of(heap_held(*final(h))),
        r is None ==> heap_held(*final(h)) == heap_held(*old(h)),
        r matches Some(a) ==> forall|b: int|
            a <= b < a + size ==> !heap_held(*old(h)).contains(b) && #[trigger] heap_held(
                *final(h),
            ).contains(b),
        r matches Some(a) ==> {
            &&& a != 0
            &&& a % to == 0
            &&& heap_bottom(*old(h)) <= a
            &&& a + size <= heap_top(*old(h))
        },
{
    match core::alloc::Layout::from_size_align(size, to) {
        Ok(layout) => match h.allocate_first_fit(layout) {
            Ok(p) => Some(p.as_ptr() as usize),
            Err(()) => None,
        },
        Err(_) => None,
    }
}

} // verus!

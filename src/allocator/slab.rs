use vstd::arithmetic::power2::{lemma2_to64, lemma_pow2_pos, lemma_pow2_unfold, pow2};
use vstd::prelude::*;

use linked_list_allocator::Heap;

use super::fallback::{empty_heap, first_fit, heap_bottom, heap_held, heap_top, search_fits, top_of};
use super::{disjoint, is_power_of_two, lemma_aligned_to_smaller, Alloc, Release};

verus! {

/// Number of size classes: 8, 16, 32, ..., 2048 bytes.
pub const CLASS_COUNT: usize = 9;

/// Block size (and alignment) of class `i`: 8 bytes doubled `i` times.
pub open spec fn block_size(i: int) -> int {
    pow2((i + 3) as nat) as int
}

/// The first class at or after `i` whose blocks hold `need` bytes.
pub open spec fn first_class(need: int, i: int) -> Option<int>
    decreases CLASS_COUNT - i,
{
    if i < 0 || i >= CLASS_COUNT {
        None
    } else if block_size(i) >= need {
        Some(i)
    } else {
        first_class(need, i + 1)
    }
}

/// The class serving a request: the smallest whose block size covers both
/// the size and the alignment, if any does.
pub open spec fn class_of(size: int, to: int) -> Option<int> {
    first_class(if size >= to { size } else { to }, 0)
}

/// The block a request occupies: a whole class block, or exactly the request
/// when no class serves it.
pub open spec fn block_of(size: int, to: int) -> (int, int) {
    match class_of(size, to) {
        Some(i) => (block_size(i), block_size(i)),
        None => (size, to),
    }
}

/// `a` starts a block of `block.0` bytes, aligned to `block.1`, inside `[bottom, top)`.
pub open spec fn placed(a: int, block: (int, int), bottom: int, top: int) -> bool {
    &&& a % block.1 == 0
    &&& bottom <= a
    &&& a + block.0 <= top
}

/// Every byte of `[x, x + len)` is in `held`.
pub open spec fn within(x: int, len: int, held: Set<int>) -> bool {
    forall|b: int| x <= b < x + len ==> #[trigger] held.contains(b)
}

/// The bytes a free block of class `i` at `a` occupies.
pub open spec fn free_span(a: usize, i: int) -> (int, int) {
    (a as int, a + block_size(i))
}

/// The bytes a live block at `a` occupies, given its request.
pub open spec fn live_span(a: int, req: (int, int)) -> (int, int) {
    (a, a + block_of(req.0, req.1).0)
}

/// Free and live blocks are all held by the fallback heap and share no byte:
/// no block is twice on the free lists, and no live block is on one.
pub open spec fn blocks_apart(lists: Seq<Seq<usize>>, live: Map<int, (int, int)>, held: Set<int>) -> bool {
    &&& forall|i: int, k: int|
        0 <= i < CLASS_COUNT && 0 <= k < lists[i].len() ==> within(
            #[trigger] lists[i][k] as int,
            block_size(i),
            held,
        )
    &&& forall|a: int|
        #[trigger] live.contains_key(a) ==> live[a].0 >= 0 && within(a, block_of(live[a].0, live[a].1).0, held)
    &&& forall|i: int, k: int, j: int, m: int|
        0 <= i < CLASS_COUNT && 0 <= k < lists[i].len() && 0 <= j < CLASS_COUNT && 0 <= m < lists[j].len()
            && (i != j || k != m) ==> disjoint(
            free_span(#[trigger] lists[i][k], i),
            free_span(#[trigger] lists[j][m], j),
        )
    &&& forall|i: int, k: int, a: int|
        0 <= i < CLASS_COUNT && 0 <= k < lists[i].len() && #[trigger] live.contains_key(a) ==> disjoint(
            free_span(#[trigger] lists[i][k], i),
            live_span(a, live[a]),
        )
    &&& forall|a: int, b: int|
        #[trigger] live.contains_key(a) && #[trigger] live.contains_key(b) && a != b ==> disjoint(
            live_span(a, live[a]),
            live_span(b, live[b]),
        )
}

proof fn lemma_block_len(size: int, to: int)
    requires
        size >= 0,
    ensures
        block_of(size, to).0 >= 0,
{
    if let Some(i) = class_of(size, to) {
        let need = if size >= to {
            size
        } else {
            to
        };
        lemma_first_class(need, 0);
        lemma_pow2_pos((i + 3) as nat);
    }
}

proof fn lemma_fresh_apart(held: Set<int>, x: int, lx: int, y: int, ly: int)
    requires
        lx >= 0,
        ly >= 0,
        within(x, lx, held),
        forall|b: int| y <= b < y + ly ==> !held.contains(b),
    ensures
        disjoint((x, x + lx), (y, y + ly)),
        disjoint((y, y + ly), (x, x + lx)),
{
    if !disjoint((x, x + lx), (y, y + ly)) {
        let b = if x >= y {
            x
        } else {
            y
        };
        assert(held.contains(b));
    }
}

proof fn lemma_apart_pop(
    lists: Seq<Seq<usize>>,
    live: Map<int, (int, int)>,
    held: Set<int>,
    i: int,
    size: int,
    to: int,
)
    requires
        blocks_apart(lists, live, held),
        lists.len() == CLASS_COUNT,
        0 <= i < CLASS_COUNT,
        lists[i].len() > 0,
        size >= 0,
        block_of(size, to) == (block_size(i), block_size(i)),
    ensures
        blocks_apart(
            lists.update(i, lists[i].drop_last()),
            live.insert(lists[i].last() as int, (size, to)),
            held,
        ),
{
    let h = lists[i].last();
    let last = lists[i].len() - 1;
    let l2 = lists.update(i, lists[i].drop_last());
    let v2 = live.insert(h as int, (size, to));
    assert forall|j: int, m: int| 0 <= j < CLASS_COUNT && 0 <= m < l2[j].len() implies #[trigger] l2[j][m]
        == lists[j][m] && m < lists[j].len() && (j != i || m != last) by {}
    assert(lists[i][last] == h);
    assert forall|a: int| #[trigger] v2.contains_key(a) implies v2[a].0 >= 0 && within(
        a,
        block_of(v2[a].0, v2[a].1).0,
        held,
    ) by {
        if a != h as int {
            assert(live.contains_key(a));
        }
    }
    assert forall|j: int, m: int, a: int|
        0 <= j < CLASS_COUNT && 0 <= m < l2[j].len() && #[trigger] v2.contains_key(a) implies disjoint(
        free_span(#[trigger] l2[j][m], j),
        live_span(a, v2[a]),
    ) by {
        assert(l2[j][m] == lists[j][m]);
        if a == h as int {
            assert(disjoint(free_span(lists[j][m], j), free_span(lists[i][last], i)));
        } else {
            assert(live.contains_key(a));
        }
    }
    assert forall|a: int, b: int|
        #[trigger] v2.contains_key(a) && #[trigger] v2.contains_key(b) && a != b implies disjoint(
        live_span(a, v2[a]),
        live_span(b, v2[b]),
    ) by {
        if a == h as int {
            assert(live.contains_key(b));
            assert(disjoint(free_span(lists[i][last], i), live_span(b, live[b])));
        } else if b == h as int {
            assert(live.contains_key(a));
            assert(disjoint(free_span(lists[i][last], i), live_span(a, live[a])));
        } else {
            assert(live.contains_key(a) && live.contains_key(b));
        }
    }
    assert forall|j: int, m: int, jj: int, mm: int|
        0 <= j < CLASS_COUNT && 0 <= m < l2[j].len() && 0 <= jj < CLASS_COUNT && 0 <= mm < l2[jj].len()
            && (j != jj || m != mm) implies disjoint(
        free_span(#[trigger] l2[j][m], j),
        free_span(#[trigger] l2[jj][mm], jj),
    ) by {
        assert(l2[j][m] == lists[j][m]);
        assert(l2[jj][mm] == lists[jj][mm]);
    }
    assert forall|j: int, m: int| 0 <= j < CLASS_COUNT && 0 <= m < l2[j].len() implies within(
        #[trigger] l2[j][m] as int,
        block_size(j),
        held,
    ) by {
        assert(l2[j][m] == lists[j][m]);
    }
}

proof fn lemma_apart_fresh(
    lists: Seq<Seq<usize>>,
    live: Map<int, (int, int)>,
    held: Set<int>,
    held2: Set<int>,
    a: int,
    size: int,
    to: int,
)
    requires
        blocks_apart(lists, live, held),
        held.subset_of(held2),
        size >= 0,
        forall|b: int| a <= b < a + block_of(size, to).0 ==> !held.contains(b) && held2.contains(b),
    ensures
        blocks_apart(lists, live.insert(a, (size, to)), held2),
{
    let v2 = live.insert(a, (size, to));
    lemma_block_len(size, to);
    let len = block_of(size, to).0;
    assert forall|j: int, m: int| 0 <= j < CLASS_COUNT && 0 <= m < lists[j].len() implies within(
        #[trigger] lists[j][m] as int,
        block_size(j),
        held2,
    ) by {
        assert(within(lists[j][m] as int, block_size(j), held));
    }
    assert forall|c: int| #[trigger] v2.contains_key(c) implies v2[c].0 >= 0 && within(
        c,
        block_of(v2[c].0, v2[c].1).0,
        held2,
    ) by {
        if c != a {
            assert(live.contains_key(c));
            assert(within(c, block_of(live[c].0, live[c].1).0, held));
        }
    }
    assert forall|j: int, m: int, c: int|
        0 <= j < CLASS_COUNT && 0 <= m < lists[j].len() && #[trigger] v2.contains_key(c) implies disjoint(
        free_span(#[trigger] lists[j][m], j),
        live_span(c, v2[c]),
    ) by {
        if c == a {
            lemma_pow2_pos((j + 3) as nat);
            lemma_fresh_apart(held, lists[j][m] as int, block_size(j), a, len);
        } else {
            assert(live.contains_key(c));
        }
    }
    assert forall|c: int, d: int|
        #[trigger] v2.contains_key(c) && #[trigger] v2.contains_key(d) && c != d implies disjoint(
        live_span(c, v2[c]),
        live_span(d, v2[d]),
    ) by {
        if c == a {
            assert(live.contains_key(d));
            lemma_block_len(live[d].0, live[d].1);
            lemma_fresh_apart(held, d, block_of(live[d].0, live[d].1).0, a, len);
        } else if d == a {
            assert(live.contains_key(c));
            lemma_block_len(live[c].0, live[c].1);
            lemma_fresh_apart(held, c, block_of(live[c].0, live[c].1).0, a, len);
        } else {
            assert(live.contains_key(c) && live.contains_key(d));
        }
    }
}

proof fn lemma_apart_push(
    lists: Seq<Seq<usize>>,
    live: Map<int, (int, int)>,
    held: Set<int>,
    i: int,
    ptr: usize,
)
    requires
        blocks_apart(lists, live, held),
        lists.len() == CLASS_COUNT,
        0 <= i < CLASS_COUNT,
        live.contains_key(ptr as int),
        block_of(live[ptr as int].0, live[ptr as int].1).0 == block_size(i),
    ensures
        blocks_apart(lists.update(i, lists[i].push(ptr)), live.remove(ptr as int), held),
{
    let l2 = lists.update(i, lists[i].push(ptr));
    let v2 = live.remove(ptr as int);
    let last = lists[i].len() as int;
    assert forall|j: int, m: int| 0 <= j < CLASS_COUNT && 0 <= m < l2[j].len() implies #[trigger] l2[j][m]
        == if j == i && m == last {
        ptr
    } else {
        lists[j][m]
    } by {}
    assert forall|j: int, m: int| 0 <= j < CLASS_COUNT && 0 <= m < l2[j].len() implies within(
        #[trigger] l2[j][m] as int,
        block_size(j),
        held,
    ) by {
        if j == i && m == last {
        } else {
            assert(within(lists[j][m] as int, block_size(j), held));
        }
    }
    assert forall|c: int| #[trigger] v2.contains_key(c) implies v2[c].0 >= 0 && within(
        c,
        block_of(v2[c].0, v2[c].1).0,
        held,
    ) by {
        assert(live.contains_key(c));
    }
    assert forall|j: int, m: int, jj: int, mm: int|
        0 <= j < CLASS_COUNT && 0 <= m < l2[j].len() && 0 <= jj < CLASS_COUNT && 0 <= mm < l2[jj].len()
            && (j != jj || m != mm) implies disjoint(
        free_span(#[trigger] l2[j][m], j),
        free_span(#[trigger] l2[jj][mm], jj),
    ) by {
        if j == i && m == last {
            assert(disjoint(free_span(lists[jj][mm], jj), live_span(ptr as int, live[ptr as int])));
        } else if jj == i && mm == last {
            assert(disjoint(free_span(lists[j][m], j), live_span(ptr as int, live[ptr as int])));
        } else {
            assert(disjoint(free_span(lists[j][m], j), free_span(lists[jj][mm], jj)));
        }
    }
    assert forall|j: int, m: int, c: int|
        0 <= j < CLASS_COUNT && 0 <= m < l2[j].len() && #[trigger] v2.contains_key(c) implies disjoint(
        free_span(#[trigger] l2[j][m], j),
        live_span(c, v2[c]),
    ) by {
        assert(live.contains_key(c));
        if j == i && m == last {
            assert(disjoint(live_span(ptr as int, live[ptr as int]), live_span(c, live[c])));
        } else {
            assert(disjoint(free_span(lists[j][m], j), live_span(c, live[c])));
        }
    }
    assert forall|c: int, d: int|
        #[trigger] v2.contains_key(c) && #[trigger] v2.contains_key(d) && c != d implies disjoint(
        live_span(c, v2[c]),
        live_span(d, v2[d]),
    ) by {
        assert(live.contains_key(c) && live.contains_key(d));
    }
}

proof fn lemma_apart_remove(lists: Seq<Seq<usize>>, live: Map<int, (int, int)>, held: Set<int>, ptr: int)
    requires
        blocks_apart(lists, live, held),
    ensures
        blocks_apart(lists, live.remove(ptr), held),
{
    let v2 = live.remove(ptr);
    assert forall|c: int| #[trigger] v2.contains_key(c) implies v2[c].0 >= 0 && within(
        c,
        block_of(v2[c].0, v2[c].1).0,
        held,
    ) by {
        assert(live.contains_key(c));
    }
    assert forall|j: int, m: int, c: int|
        0 <= j < CLASS_COUNT && 0 <= m < lists[j].len() && #[trigger] v2.contains_key(c) implies disjoint(
        free_span(#[trigger] lists[j][m], j),
        live_span(c, v2[c]),
    ) by {
        assert(live.contains_key(c));
    }
    assert forall|c: int, d: int|
        #[trigger] v2.contains_key(c) && #[trigger] v2.contains_key(d) && c != d implies disjoint(
        live_span(c, v2[c]),
        live_span(d, v2[d]),
    ) by {
        assert(live.contains_key(c) && live.contains_key(d));
    }
}

/// Where a request goes.
#[derive(Clone, Copy, Debug, PartialEq, Eq, Structural)]
pub enum Route {
    /// Pop a freed block of this class.
    Recycle(usize),
    /// Carve a fresh block of this class from the fallback heap.
    Carve(usize),
    /// Too large for any class: the fallback heap serves the request as is.
    Fallback,
}

/// The route a request takes, given the free lists.
pub open spec fn route_of(lists: Seq<Seq<usize>>, size: int, to: int) -> Route {
    match class_of(size, to) {
        Some(i) => if lists[i].len() > 0 {
            Route::Recycle(i as usize)
        } else {
            Route::Carve(i as usize)
        },
        None => Route::Fallback,
    }
}

/// A freed block taken back for reuse: the block popped and the lists left,
/// or `None` when the request has no freed block to reuse.
pub open spec fn reuse(lists: Seq<Seq<usize>>, size: int, to: int) -> Option<(usize, Seq<Seq<usize>>)> {
    match class_of(size, to) {
        Some(i) => if lists[i].len() > 0 {
            Some((lists[i].last(), lists.update(i, lists[i].drop_last())))
        } else {
            None
        },
        None => None,
    }
}

/// The free lists after a block is freed: pushed onto its class, or left
/// alone when the block belongs to the fallback heap.
pub open spec fn recycle(lists: Seq<Seq<usize>>, ptr: usize, size: int, to: int) -> Seq<Seq<usize>> {
    match class_of(size, to) {
        Some(i) => lists.update(i, lists[i].push(ptr)),
        None => lists,
    }
}

proof fn lemma_first_class(need: int, i: int)
    requires
        0 <= i,
    ensures
        first_class(need, i) matches Some(c) ==> i <= c < CLASS_COUNT && block_size(c) >= need,
    decreases CLASS_COUNT - i,
{
    if i < CLASS_COUNT && block_size(i) < need {
        lemma_first_class(need, i + 1);
    }
}

/// The class of a request, if any: the smallest block size of 8, 16, ...,
/// 2048 that covers both its size and its alignment.
pub fn slab_index(size: usize, to: usize) -> (r: Option<usize>)
    ensures
        r matches Some(i) ==> class_of(size as int, to as int) == Some(i as int),
        r is None ==> class_of(size as int, to as int) is None,
{
    let need = if size >= to {
        size
    } else {
        to
    };
    let mut i: usize = 0;
    let mut s: usize = 8;
    proof {
        lemma2_to64();
        assert(class_of(size as int, to as int) == first_class(need as int, 0));
    }
    while i < CLASS_COUNT
        invariant
            i <= CLASS_COUNT,
            s == block_size(i as int),
            s <= 4096,
            class_of(size as int, to as int) == first_class(need as int, 0),
            first_class(need as int, 0) == first_class(need as int, i as int),
        decreases CLASS_COUNT - i,
    {
        if s >= need {
            assert(first_class(need as int, i as int) == Some(i as int));
            return Some(i);
        }
        proof {
            lemma_pow2_unfold((i + 4) as nat);
            lemma2_to64();
        }
        i = i + 1;
        s = s * 2;
    }
    None
}

/// The head of a free list: its most recently freed block, or 0 when empty.
pub open spec fn head_of(list: Seq<usize>) -> usize {
    if list.len() > 0 {
        list.last()
    } else {
        0
    }
}

/// The link word stored in a list's head block: the block freed before it,
/// or 0 when the head is the only block.
pub open spec fn link_of(list: Seq<usize>) -> usize {
    if list.len() > 1 {
        list[list.len() - 2]
    } else {
        0
    }
}

/// The size-classed allocator: one free list per class, seeded from a
/// first-fit fallback heap that also serves requests too large for any class.
///
/// Each free list is threaded through the free blocks themselves: the first
/// word of a free block holds the address of the block freed before it in
/// the same class, or 0. The allocator keeps only the head of each list;
/// the caller that owns the memory reads and writes the link words, as
/// `link_to_read` and `deallocate` direct.
pub struct Slabber {
    heads: [usize; CLASS_COUNT],
    /// The first-fit heap behind the classes. A block for which `deallocate`
    /// answers `Release::Fallback` belongs to it and is released to it.
    pub fallback: Heap,
    /// The blocks of each free list, oldest first.
    lists: Ghost<Seq<Seq<usize>>>,
    /// The blocks handed out and not yet freed, with their size and alignment.
    live: Ghost<Map<int, (int, int)>>,
}

impl Slabber {
    /// The free list of each class, oldest block first.
    pub closed spec fn lists(&self) -> Seq<Seq<usize>> {
        self.lists@
    }

    /// The blocks handed out and not yet freed, by address.
    pub closed spec fn live(&self) -> Map<int, (int, int)> {
        self.live@
    }

    /// The fallback heap.
    pub closed spec fn heap(&self) -> Heap {
        self.fallback
    }

    pub closed spec fn bottom(&self) -> int {
        heap_bottom(self.fallback)
    }

    pub closed spec fn top(&self) -> int {
        heap_top(self.fallback)
    }

    /// One list per class, whose head the allocator keeps; every free or live
    /// block is non-null, aligned as its class (or its request) demands, lies
    /// inside the fallback heap, is held by it, and shares no byte with any
    /// other free or live block.
    pub closed spec fn wf(&self) -> bool {
        &&& self.lists@.len() == CLASS_COUNT
        &&& blocks_apart(self.lists@, self.live@, heap_held(self.fallback))
        &&& forall|i: int| 0 <= i < CLASS_COUNT ==> #[trigger] self.heads@[i] == head_of(self.lists@[i])
        &&& forall|i: int, k: int|
            0 <= i < CLASS_COUNT && 0 <= k < self.lists@[i].len() ==> {
                &&& #[trigger] self.lists@[i][k] != 0
                &&& placed(
                    self.lists@[i][k] as int,
                    (block_size(i), block_size(i)),
                    self.bottom(),
                    self.top(),
                )
            }
        &&& forall|a: int|
            #[trigger] self.live@.contains_key(a) ==> a != 0 && placed(
                a,
                block_of(self.live@[a].0, self.live@[a].1),
                self.bottom(),
                self.top(),
            )
    }

    /// An allocator whose classes are empty and whose fallback heap owns no memory.
    pub fn new() -> (r: Self)
        ensures
            r.wf(),
            r.lists() == Seq::new(CLASS_COUNT as nat, |i: int| Seq::<usize>::empty()),
            r.live().is_empty(),
            r.bottom() == 0,
            r.top() == 0,
    {
        Slabber {
            heads: [0usize; CLASS_COUNT],
            fallback: empty_heap(),
            lists: Ghost(Seq::new(CLASS_COUNT as nat, |i: int| Seq::<usize>::empty())),
            live: Ghost(Map::empty()),
        }
    }

    /// Hands the allocator the heap that seeds its classes; the classes start empty.
    pub fn init(&mut self, fallback: Heap)
        ensures
            final(self).wf(),
            final(self).lists() == Seq::new(CLASS_COUNT as nat, |i: int| Seq::<usize>::empty()),
            final(self).live().is_empty(),
            final(self).bottom() == heap_bottom(fallback),
            final(self).top() == heap_top(fallback),
    {
        let mut fresh = Slabber::new();
        fresh.fallback = fallback;
        *self = fresh;
    }

    /// Where a request of `size` bytes aligned to `to` is served from.
    pub fn route(&self, size: usize, to: usize) -> (r: Route)
        requires
            self.wf(),
        ensures
            r == route_of(self.lists(), size as int, to as int),
    {
        match slab_index(size, to) {
            Some(i) => {
                proof {
                    lemma_first_class(
                        if size >= to {
                            size as int
                        } else {
                            to as int
                        },
                        0,
                    );
                    if self.lists@[i as int].len() > 0 {
                        assert(self.lists@[i as int][self.lists@[i as int].len() - 1] != 0);
                    }
                }
                if self.heads[i] != 0 {
                    Route::Recycle(i)
                } else {
                    Route::Carve(i)
                }
            },
            None => Route::Fallback,
        }
    }

    /// The block whose link word the next `allocate` of this request needs:
    /// the head of the class's free list when the request reuses a block.
    pub fn link_to_read(&self, size: usize, to: usize) -> (r: Option<usize>)
        requires
            self.wf(),
        ensures
            route_of(self.lists(), size as int, to as int) matches Route::Recycle(i) ==> r == Some(
                head_of(self.lists()[i as int]),
            ),
            !(route_of(self.lists(), size as int, to as int) is Recycle) ==> r is None,
    {
        proof {
            lemma_first_class(
                if size >= to {
                    size as int
                } else {
                    to as int
                },
                0,
            );
        }
        match self.route(size, to) {
            Route::Recycle(i) => Some(self.heads[i]),
            _ => None,
        }
    }

    /// Reserves `size` bytes aligned to `to`. A request that a class serves
    /// pops that class's most recently freed block, whose link word the
    /// caller passes as `link`, or else carves a block of the class's size and
    /// alignment from the fallback heap; any other request goes to the
    /// fallback heap as it is. Returns 0 when the fallback heap has no room,
    /// or when its top lies too close to the end of the address space for the
    /// first-fit search to run without its address arithmetic wrapping.
    pub fn allocate(&mut self, size: usize, to: usize, link: usize) -> (r: usize)
        requires
            old(self).wf(),
            is_power_of_two(to as int),
            size + to - 1 <= isize::MAX,
            route_of(old(self).lists(), size as int, to as int) matches Route::Recycle(i) ==> link
                == link_of(old(self).lists()[i as int]),
        ensures
            final(self).wf(),
            final(self).bottom() == old(self).bottom(),
            final(self).top() == old(self).top(),
            reuse(old(self).lists(), size as int, to as int) matches Some(hit) ==> r == hit.0
                && final(self).lists() == hit.1,
            reuse(old(self).lists(), size as int, to as int) is None ==> final(self).lists()
                == old(self).lists(),
            reuse(old(self).lists(), size as int, to as int) is Some || r != 0 ==> {
                &&& r % to == 0
                &&& old(self).bottom() <= r
                &&& r + size <= old(self).top()
                &&& placed(r as int, block_of(size as int, to as int), old(self).bottom(), old(self).top())
                &&& final(self).live() == old(self).live().insert(r as int, (size as int, to as int))
            },
            reuse(old(self).lists(), size as int, to as int) is None && r == 0 ==> final(self).live()
                == old(self).live(),
            reuse(old(self).lists(), size as int, to as int) is Some ==> final(self).heap()
                == old(self).heap(),
            reuse(old(self).lists(), size as int, to as int) is None && !search_fits(
                old(self).top(),
                block_of(size as int, to as int).0,
                block_of(size as int, to as int).1,
            ) ==> r == 0 && *final(self) == *old(self),
    {
        let ghost need: int = if size >= to {
            size as int
        } else {
            to as int
        };
        let ghost k: nat = choose|k: nat| pow2(k) == to;
        let ghost lists = self.lists@;
        let ghost live0 = self.live@;
        let ghost held0 = heap_held(self.fallback);
        match slab_index(size, to) {
            Some(i) => {
                proof {
                    lemma_first_class(need, 0);
                }
                let head = self.heads[i];
                if head != 0 {
                    proof {
                        let list = lists[i as int];
                        lemma_apart_pop(lists, live0, held0, i as int, size as int, to as int);
                        assert(list.len() > 0);
                        assert(placed(head as int, (block_size(i as int), block_size(i as int)), self.bottom(), self.top()));
                        lemma_aligned_to_smaller(head as int, k, (i + 3) as nat);
                        self.live = Ghost(self.live@.insert(head as int, (size as int, to as int)));
                        self.lists = Ghost(lists.update(i as int, list.drop_last()));
                        assert(head_of(list.drop_last()) == link_of(list));
                    }
                    self.heads[i] = link;
                    proof {
                        assert forall|j: int| 0 <= j < CLASS_COUNT implies #[trigger] self.heads@[j] == head_of(self.lists@[j]) by {
                            if j != i {
                                assert(self.lists@[j] == lists[j]);
                            }
                        }
                        assert forall|j: int, m: int| 0 <= j < CLASS_COUNT && 0 <= m < self.lists@[j].len() implies {
                            &&& #[trigger] self.lists@[j][m] != 0
                            &&& placed(self.lists@[j][m] as int, (block_size(j), block_size(j)), self.bottom(), self.top())
                        } by {
                            assert(self.lists@[j][m] == lists[j][m]);
                        }
                    }
                    return head;
                }
                let bs = class_bytes(i);
                proof {
                    assert(is_power_of_two(bs as int));
                    lemma2_to64();
                    lemma_first_class(need, 0);
                }
                let top = top_of(&self.fallback);
                if top > usize::MAX - 64 - 2 * bs {
                    return 0;
                }
                match first_fit(&mut self.fallback, bs, bs) {
                    Some(a) => {
                        proof {
                            lemma_apart_fresh(lists, live0, held0, heap_held(self.fallback), a as int, size as int, to as int);
                            lemma_aligned_to_smaller(a as int, k, (i + 3) as nat);
                            self.live = Ghost(self.live@.insert(a as int, (size as int, to as int)));
                        }
                        a
                    },
                    None => 0,
                }
            },
            None => {
                let top = top_of(&self.fallback);
                if top > usize::MAX - 64 || size > usize::MAX - 64 - top || to > usize::MAX - 64 - top
                    - size {
                    return 0;
                }
                match first_fit(&mut self.fallback, size, to) {
                    Some(a) => {
                        proof {
                            lemma_apart_fresh(lists, live0, held0, heap_held(self.fallback), a as int, size as int, to as int);
                            self.live = Ghost(self.live@.insert(a as int, (size as int, to as int)));
                        }
                        a
                    },
                    None => 0,
                }
            },
        }
    }

    /// Frees a block handed out for `size` bytes aligned to `to`. A block of
    /// a class becomes the head of that class's free list, and the caller
    /// stores the previous head in its first word (`Release::Link`); any
    /// other block belongs to the fallback heap, the lists stay as they are,
    /// and the caller releases it there (`Release::Fallback`).
    pub fn deallocate(&mut self, ptr: usize, size: usize, to: usize) -> (r: Release)
        requires
            old(self).wf(),
            old(self).live().contains_key(ptr as int),
            old(self).live()[ptr as int] == (size as int, to as int),
        ensures
            final(self).wf(),
            final(self).bottom() == old(self).bottom(),
            final(self).top() == old(self).top(),
            final(self).lists() == recycle(old(self).lists(), ptr, size as int, to as int),
            final(self).live() == old(self).live().remove(ptr as int),
            final(self).heap() == old(self).heap(),
            class_of(size as int, to as int) matches Some(i) ==> r == (Release::Link {
                block: ptr,
                next: head_of(old(self).lists()[i]),
            }),
            class_of(size as int, to as int) is None ==> r == Release::Fallback,
    {
        let ghost lists = self.lists@;
        let ghost live0 = self.live@;
        proof {
            self.live = Ghost(self.live@.remove(ptr as int));
        }
        match slab_index(size, to) {
            Some(i) => {
                let ghost need: int = if size >= to {
                    size as int
                } else {
                    to as int
                };
                proof {
                    lemma_first_class(need, 0);
                    lemma_apart_push(lists, live0, heap_held(self.fallback), i as int, ptr);
                    self.lists = Ghost(lists.update(i as int, lists[i as int].push(ptr)));
                }
                let next = self.heads[i];
                self.heads[i] = ptr;
                proof {
                    assert forall|j: int| 0 <= j < CLASS_COUNT implies #[trigger] self.heads@[j] == head_of(self.lists@[j]) by {
                        if j != i {
                            assert(self.lists@[j] == lists[j]);
                        }
                    }
                    assert forall|j: int, m: int| 0 <= j < CLASS_COUNT && 0 <= m < self.lists@[j].len() implies {
                        &&& #[trigger] self.lists@[j][m] != 0
                        &&& placed(self.lists@[j][m] as int, (block_size(j), block_size(j)), self.bottom(), self.top())
                    } by {
                        if j != i || m < lists[j].len() {
                            assert(self.lists@[j][m] == lists[j][m]);
                        }
                    }
                }
                Release::Link { block: ptr, next }
            },
            None => {
                proof {
                    lemma_apart_remove(lists, live0, heap_held(self.fallback), ptr as int);
                }
                Release::Fallback
            },
        }
    }
}

impl Alloc for Slabber {
    open spec fn ready(&self) -> bool {
        self.wf()
    }

    open spec fn can_alloc(&self, size: usize, to: usize, link: usize) -> bool {
        route_of(self.lists(), size as int, to as int) matches Route::Recycle(i) ==> link == link_of(
            self.lists()[i as int],
        )
    }

    open spec fn can_free(&self, ptr: usize, size: usize, to: usize) -> bool {
        &&& self.live().contains_key(ptr as int)
        &&& self.live()[ptr as int] == (size as int, to as int)
    }

    open spec fn link_spec(&self, size: usize, to: usize) -> Option<usize> {
        match route_of(self.lists(), size as int, to as int) {
            Route::Recycle(i) => Some(head_of(self.lists()[i as int])),
            _ => None,
        }
    }

    open spec fn alloc_post(&self, after: Self, size: usize, to: usize, link: usize, r: usize) -> bool {
        &&& after.bottom() == self.bottom()
        &&& after.top() == self.top()
        &&& match reuse(self.lists(), size as int, to as int) {
            Some(hit) => {
                &&& r == hit.0
                &&& after.lists() == hit.1
                &&& after.heap() == self.heap()
            },
            None => after.lists() == self.lists(),
        }
        &&& if reuse(self.lists(), size as int, to as int) is Some || r != 0 {
            &&& placed(r as int, block_of(size as int, to as int), self.bottom(), self.top())
            &&& r + size <= self.top()
            &&& after.live() == self.live().insert(r as int, (size as int, to as int))
        } else {
            after.live() == self.live()
        }
        &&& reuse(self.lists(), size as int, to as int) is None && !search_fits(
            self.top(),
            block_of(size as int, to as int).0,
            block_of(size as int, to as int).1,
        ) ==> r == 0 && after == *self
    }

    open spec fn dealloc_post(&self, after: Self, ptr: usize, size: usize, to: usize, r: Release) -> bool {
        &&& after.bottom() == self.bottom()
        &&& after.top() == self.top()
        &&& after.heap() == self.heap()
        &&& after.lists() == recycle(self.lists(), ptr, size as int, to as int)
        &&& after.live() == self.live().remove(ptr as int)
        &&& match class_of(size as int, to as int) {
            Some(i) => r == (Release::Link { block: ptr, next: head_of(self.lists()[i]) }),
            None => r == Release::Fallback,
        }
    }

    fn link_for(&self, size: usize, to: usize) -> (r: Option<usize>) {
        self.link_to_read(size, to)
    }

    fn alloc_block(&mut self, size: usize, to: usize, link: usize) -> (r: usize) {
        proof {
            let k = choose|k: nat| pow2(k) == to;
            vstd::arithmetic::power2::lemma_pow2_pos(k);
            assert(0int % (to as int) == 0);
        }
        self.allocate(size, to, link)
    }

    fn dealloc_block(&mut self, ptr: usize, size: usize, to: usize) -> (r: Release) {
        self.deallocate(ptr, size, to)
    }
}

/// A well-formed slab allocator holds one free list per class.
pub proof fn lemma_slab_lists(s: Slabber)
    requires
        s.wf(),
    ensures
        s.lists().len() == CLASS_COUNT,
{
}

/// In a well-formed slab allocator free and live blocks share no byte and
/// are all held by the fallback heap; in particular a live block that is not
/// empty is on no free list, and no block is on the free lists twice.
pub proof fn lemma_slab_apart(s: Slabber)
    requires
        s.wf(),
    ensures
        blocks_apart(s.lists(), s.live(), heap_held(s.heap())),
        forall|i: int, k: int, a: int|
            0 <= i < CLASS_COUNT && 0 <= k < s.lists()[i].len() && #[trigger] s.live().contains_key(a)
                && block_of(s.live()[a].0, s.live()[a].1).0 > 0 ==> #[trigger] s.lists()[i][k] != a,
        forall|i: int, k: int, j: int, m: int|
            0 <= i < CLASS_COUNT && 0 <= k < s.lists()[i].len() && 0 <= j < CLASS_COUNT && 0 <= m
                < s.lists()[j].len() && (i != j || k != m) ==> #[trigger] s.lists()[i][k]
                != #[trigger] s.lists()[j][m],
{
    assert forall|i: int, k: int, j: int, m: int|
        0 <= i < CLASS_COUNT && 0 <= k < s.lists()[i].len() && 0 <= j < CLASS_COUNT && 0 <= m
            < s.lists()[j].len() && (i != j || k != m) implies #[trigger] s.lists()[i][k]
            != #[trigger] s.lists()[j][m] by {
        lemma_pow2_pos((i + 3) as nat);
        lemma_pow2_pos((j + 3) as nat);
        assert(disjoint(free_span(s.lists()[i][k], i), free_span(s.lists()[j][m], j)));
    }
    assert forall|i: int, k: int, a: int|
        0 <= i < CLASS_COUNT && 0 <= k < s.lists()[i].len() && #[trigger] s.live().contains_key(a)
            && block_of(s.live()[a].0, s.live()[a].1).0 > 0 implies #[trigger] s.lists()[i][k] != a by {
        lemma_pow2_pos((i + 3) as nat);
        assert(disjoint(free_span(s.lists()[i][k], i), live_span(a, s.live()[a])));
    }
}

/// A block freed and then requested again with a layout of the same class
/// comes back at once, and the free lists are as they were before the free.
pub proof fn lemma_slab_reuse(
    lists: Seq<Seq<usize>>,
    ptr: usize,
    size: int,
    to: int,
    size2: int,
    to2: int,
)
    requires
        lists.len() == CLASS_COUNT,
        class_of(size, to) is Some,
        class_of(size2, to2) == class_of(size, to),
    ensures
        reuse(recycle(lists, ptr, size, to), size2, to2) == Some((ptr, lists)),
{
    let need = if size >= to {
        size
    } else {
        to
    };
    lemma_first_class(need, 0);
    let i = class_of(size, to)->Some_0;
    let freed = recycle(lists, ptr, size, to);
    assert(freed[i] == lists[i].push(ptr));
    assert(freed[i].drop_last() =~= lists[i]);
    assert(freed.update(i, freed[i].drop_last()) =~= lists);
}

/// Freeing a block of a class and then allocating with a layout of the same
/// class hands the same block back at once, and leaves the free lists and
/// the fallback heap exactly as they were before the free.
pub proof fn lemma_slab_free_then_reuse(
    s0: Slabber,
    s1: Slabber,
    s2: Slabber,
    ptr: usize,
    size: usize,
    to: usize,
    rel: Release,
    size2: usize,
    to2: usize,
    link: usize,
    r: usize,
)
    requires
        s0.wf(),
        s0.dealloc_post(s1, ptr, size, to, rel),
        s1.alloc_post(s2, size2, to2, link, r),
        class_of(size as int, to as int) is Some,
        class_of(size2 as int, to2 as int) == class_of(size as int, to as int),
    ensures
        r == ptr,
        s2.lists() == s0.lists(),
        s2.heap() == s0.heap(),
{
    lemma_slab_lists(s0);
    lemma_slab_reuse(s0.lists(), ptr, size as int, to as int, size2 as int, to2 as int);
}

/// A request whose size exceeds the largest class goes to the fallback heap,
/// whatever its alignment and whatever the free lists hold.
pub proof fn lemma_oversized_to_fallback(lists: Seq<Seq<usize>>, size: int, to: int)
    requires
        size > 2048,
    ensures
        route_of(lists, size, to) == Route::Fallback,
        reuse(lists, size, to) is None,
{
    let need = if size >= to {
        size
    } else {
        to
    };
    lemma_first_class(need, 0);
    lemma2_to64();
    if let Some(c) = class_of(size, to) {
        assert(c == 0 || c == 1 || c == 2 || c == 3 || c == 4 || c == 5 || c == 6 || c == 7 || c == 8);
        assert(block_size(c) <= 2048);
    }
}

/// Byte size of the blocks of class `i`.
fn class_bytes(i: usize) -> (r: usize)
    requires
        i < CLASS_COUNT,
    ensures
        r == block_size(i as int),
        8 <= r <= 2048,
{
    let mut s: usize = 8;
    let mut j: usize = 0;
    proof {
        lemma2_to64();
    }
    while j < i
        invariant
            j <= i < CLASS_COUNT,
            s == block_size(j as int),
            8 <= s <= 2048,
        decreases i - j,
    {
        proof {
            lemma_pow2_unfold((j + 4) as nat);
            lemma2_to64();
        }
        s = s * 2;
        j = j + 1;
    }
    s
}

} // verus!

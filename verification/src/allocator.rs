//! The heap region, the exclusion wrapper around the active allocation
//! strategy, and the address-alignment arithmetic that every strategy shares.

use vstd::prelude::*;
use crate::memory::{
    lemma_distinct_pages_differ, lemma_nth_frame_increasing, nth_frame, same_path, total_frames,
    walk, walk_writable, wf_memory_map, BootInfoFrameAllocator, FrameError, MapToError, Mapper,
    PageTableFlags,
};
use crate::allocator::linked_list::{LinkedListAllocator, ListNode};

pub mod bump;
pub mod fixed_size_block;
pub mod linked_list;

verus! {

/// Start virtual address of the kernel heap; fixed at boot, page-aligned.
pub const HEAP_START: usize = 0x4444_0000;

/// Size of the kernel heap in bytes; an exact multiple of the page size.
pub const HEAP_SIZE: usize = 100 * 1024;

/// Number of pages the heap spans.
pub const HEAP_PAGES: usize = 100 * 1024 / 4096;

/// The start address of the `k`th page of the heap region.
pub open spec fn heap_page(k: int) -> u64 {
    (HEAP_START + 4096 * k) as u64
}

/// The boot state owes a successful heap setup: no heap page is mapped
/// or blocked yet, and the memory map has frames to spare for every
/// heap page and its tables.
pub open spec fn can_init_heap(m: Mapper, fa: BootInfoFrameAllocator) -> bool {
    &&& forall|j: int|
        0 <= j < HEAP_PAGES ==> walk(m.level_4_table, 4, #[trigger] heap_page(j)) == Err::<
            u64,
            FrameError,
        >(FrameError::FrameNotPresent)
    &&& fa.next + 4 * HEAP_PAGES <= total_frames(fa.memory_map@)
}

/// The least multiple of `align` that is at least `addr`.
pub open spec fn spec_align_up(addr: int, align: int) -> int
    recommends
        align > 0,
{
    if addr % align == 0 {
        addr
    } else {
        addr - addr % align + align
    }
}

/// `align` evenly divides the rounded address, which never moves down and
/// moves up by less than one whole `align` step.
pub proof fn lemma_align_up_properties(addr: int, align: int)
    requires
        addr >= 0,
        align > 0,
    ensures
        spec_align_up(addr, align) % align == 0,
        addr <= spec_align_up(addr, align) < addr + align,
{
    let q = addr / align;
    let r = addr % align;
    vstd::arithmetic::div_mod::lemma_fundamental_div_mod(addr, align);
    vstd::arithmetic::div_mod::lemma_mod_bound(addr, align);
    if r != 0 {
        assert(addr - r + align == (q + 1) * align) by (nonlinear_arith)
            requires
                addr == q * align + r,
        ;
        vstd::arithmetic::div_mod::lemma_mod_multiples_basic(q + 1, align);
    }
}

/// Anything that divides `align` also divides the rounded address.
pub proof fn lemma_align_up_divides(addr: int, align: int, d: int)
    requires
        addr >= 0,
        align > 0,
        d > 0,
        align % d == 0,
    ensures
        spec_align_up(addr, align) % d == 0,
{
    lemma_align_up_properties(addr, align);
    let v = spec_align_up(addr, align);
    let k = v / align;
    let j = align / d;
    vstd::arithmetic::div_mod::lemma_fundamental_div_mod(v, align);
    vstd::arithmetic::div_mod::lemma_fundamental_div_mod(align, d);
    assert(v == (k * j) * d) by (nonlinear_arith)
        requires
            v == k * align,
            align == j * d,
    ;
    vstd::arithmetic::div_mod::lemma_mod_multiples_basic(k * j, d);
}

/// A positive power of two: 1, 2, 4, 8, ...
pub open spec fn is_power_of_two(n: int) -> bool
    decreases n,
{
    if n <= 0 {
        false
    } else if n == 1 {
        true
    } else {
        n % 2 == 0 && is_power_of_two(n / 2)
    }
}

/// A larger power of two is a multiple of a smaller one.
pub proof fn lemma_pow2_le_divides(a: int, b: int)
    requires
        is_power_of_two(a),
        is_power_of_two(b),
        a <= b,
    ensures
        b % a == 0,
    decreases b,
{
    if a == b {
        vstd::arithmetic::div_mod::lemma_mod_multiples_basic(1, a);
    } else {
        assert(b != 1);
        let h = b / 2;
        assert(b == 2 * h);
        if a > h {
            // both powers of two with h < a < b == 2*h is impossible
            lemma_pow2_between(a, h);
        } else {
            lemma_pow2_le_divides(a, h);
            let k = h / a;
            vstd::arithmetic::div_mod::lemma_fundamental_div_mod(h, a);
            assert(b == (2 * k) * a) by (nonlinear_arith)
                requires
                    b == 2 * h,
                    h == k * a,
            ;
            vstd::arithmetic::div_mod::lemma_mod_multiples_basic(2 * k, a);
        }
    }
}

/// No power of two lies strictly between a power of two `h` and `2 * h`.
proof fn lemma_pow2_between(a: int, h: int)
    requires
        is_power_of_two(a),
        is_power_of_two(h),
        h < a,
    ensures
        a >= 2 * h,
    decreases a,
{
    if h == 1 {
        assert(a % 2 == 0);
    } else {
        lemma_pow2_between(a / 2, h / 2);
    }
}

/// Rounds `addr` up to the next multiple of `align`.
pub fn align_up(addr: usize, align: usize) -> (r: usize)
    requires
        align > 0,
        addr + align <= usize::MAX + 1,
    ensures
        r == spec_align_up(addr as int, align as int),
        r % align == 0,
        addr <= r < addr + align,
{
    proof {
        lemma_align_up_properties(addr as int, align as int);
        vstd::arithmetic::div_mod::lemma_mod_decreases(addr as nat, align as nat);
    }
    let rem = addr % align;
    if rem == 0 {
        addr
    } else {
        addr - rem + align
    }
}

/// The exclusion wrapper: all access to the active allocation strategy is
/// serialized through it. On bare metal this is a busy-wait lock held for
/// the span of one allocate or free call; here exclusive access is what the
/// `&mut` receiver of each entry point grants, which models the same
/// discipline: no two operations on the wrapped strategy ever interleave.
/// The fallback path inside the size-classed strategy deliberately works on
/// the inner state directly and never re-enters a wrapper entry point.
pub struct Locked<A> {
    pub inner: A,
}

impl<A> Locked<A> {
    /// Wraps an allocation strategy.
    pub fn new(inner: A) -> (r: Locked<A>)
        ensures
            r.inner == inner,
    {
        Locked { inner }
    }

    /// Grants exclusive access to the wrapped strategy for the span of
    /// the borrow: the lock acquisition of the bare-metal build.
    pub fn lock(&mut self) -> (r: &mut A)
        ensures
            *r == old(self).inner,
            final(self).inner == *final(r),
    {
        &mut self.inner
    }
}

/// Two different heap pages part ways somewhere on the four-level walk.
proof fn lemma_heap_pages_not_same_path(a: int, b: int)
    requires
        0 <= a < HEAP_PAGES,
        0 <= b < HEAP_PAGES,
        a != b,
    ensures
        !same_path(heap_page(a), heap_page(b), 4),
{
    lemma_heap_page_facts(a);
    lemma_heap_page_facts(b);
    assert(4096 * a != 4096 * b) by (nonlinear_arith)
        requires
            a != b,
    ;
    lemma_distinct_pages_differ(heap_page(a), heap_page(b));
}

/// Every heap page is page-aligned and canonical.
proof fn lemma_heap_page_facts(a: int)
    requires
        0 <= a < HEAP_PAGES,
    ensures
        heap_page(a) == HEAP_START + 4096 * a,
        heap_page(a) % 4096 == 0,
        heap_page(a) < 0x1000000000000,
{
    assert(0 <= 4096 * a <= 4096 * 25) by (nonlinear_arith)
        requires
            0 <= a < 25,
    ;
    vstd::arithmetic::div_mod::lemma_mod_multiples_vanish(a, HEAP_START as int, 4096);
}

/// Prepares the kernel heap: maps every page of
/// `[HEAP_START, HEAP_START + HEAP_SIZE)` to its own freshly allocated
/// physical frame with present-and-writable flags, flushing each, and
/// only when the whole range is backed hands it to the free-list
/// strategy's `init`. The first frame or mapping failure aborts the
/// initialization with that failure's error, leaving the strategy
/// untouched and no translation outside the touched heap pages changed;
/// when the boot state has the frames to spare and the range clear,
/// initialization cannot fail.
pub fn init_heap(
    mapper: &mut Mapper,
    frame_allocator: &mut BootInfoFrameAllocator,
    allocator: &mut Locked<LinkedListAllocator>,
) -> (r: Result<(), MapToError>)
    requires
        old(mapper).wf(),
        wf_memory_map(old(frame_allocator).memory_map@),
        old(frame_allocator).next + 4 * HEAP_PAGES + 4 <= usize::MAX,
        old(allocator).inner.free_list@.len() == 0,
        old(allocator).inner.live@ == Map::<int, int>::empty(),
    ensures
        final(mapper).wf(),
        final(frame_allocator).memory_map == old(frame_allocator).memory_map,
        old(frame_allocator).next <= final(frame_allocator).next <= old(frame_allocator).next + 4
            * HEAP_PAGES,
        r is Ok ==> (forall|k: int|
            0 <= k < HEAP_PAGES ==> walk(final(mapper).level_4_table, 4, #[trigger] heap_page(k))
                is Ok),
        r is Ok ==> (forall|k: int|
            0 <= k < HEAP_PAGES ==> walk_writable(
                final(mapper).level_4_table,
                4,
                #[trigger] heap_page(k),
            )),
        r is Ok ==> (forall|k: int|
            0 <= k < HEAP_PAGES ==> exists|idx: int|
                {
                    &&& old(frame_allocator).next <= idx < final(frame_allocator).next
                    &&& idx < total_frames(old(frame_allocator).memory_map@)
                    &&& walk(final(mapper).level_4_table, 4, #[trigger] heap_page(k))->Ok_0
                        == #[trigger] nth_frame(old(frame_allocator).memory_map@, idx)
                }),
        r is Ok ==> (forall|k1: int, k2: int|
            0 <= k1 < k2 < HEAP_PAGES ==> walk(
                final(mapper).level_4_table,
                4,
                #[trigger] heap_page(k1),
            )->Ok_0 < walk(final(mapper).level_4_table, 4, #[trigger] heap_page(k2))->Ok_0),
        r is Ok ==> final(allocator).inner.wf() && final(allocator).inner.heap_start == HEAP_START
            && final(allocator).inner.heap_end == HEAP_START + HEAP_SIZE,
        r is Ok ==> final(allocator).inner.free_list@ =~= seq![
            ListNode { start_addr: HEAP_START, size: HEAP_SIZE },
        ] && final(allocator).inner.live@ == Map::<int, int>::empty(),
        r is Err ==> *final(allocator) == *old(allocator),
        r == Err::<(), MapToError>(MapToError::FrameAllocationFailed) ==> total_frames(
            old(frame_allocator).memory_map@,
        ) < old(frame_allocator).next + 4 * HEAP_PAGES,
        r == Err::<(), MapToError>(MapToError::PageAlreadyMapped) ==> exists|j: int|
            0 <= j < HEAP_PAGES && walk(old(mapper).level_4_table, 4, #[trigger] heap_page(j))
                is Ok,
        r == Err::<(), MapToError>(MapToError::ParentEntryHugePage) ==> exists|j: int|
            0 <= j < HEAP_PAGES && walk(old(mapper).level_4_table, 4, #[trigger] heap_page(j))
                == Err::<u64, FrameError>(FrameError::HugeFrame),
        can_init_heap(*old(mapper), *old(frame_allocator)) ==> r is Ok,
        forall|v: u64|
            (forall|j: int| 0 <= j < HEAP_PAGES ==> !same_path(v, #[trigger] heap_page(j), 4))
                ==> walk(final(mapper).level_4_table, 4, v) == walk(
                old(mapper).level_4_table,
                4,
                v,
            ),
{
    let ghost owed = can_init_heap(*old(mapper), *old(frame_allocator));
    let ghost boot_map = old(frame_allocator).memory_map@;
    let mut k: usize = 0;
    while k < HEAP_PAGES
        invariant
            0 <= k <= HEAP_PAGES,
            mapper.wf(),
            wf_memory_map(boot_map),
            boot_map == old(frame_allocator).memory_map@,
            frame_allocator.memory_map == old(frame_allocator).memory_map,
            old(frame_allocator).next <= frame_allocator.next <= old(frame_allocator).next + 4 * k,
            old(frame_allocator).next + 4 * HEAP_PAGES + 4 <= usize::MAX,
            owed == can_init_heap(*old(mapper), *old(frame_allocator)),
            owed ==> frame_allocator.next + 4 * (HEAP_PAGES - k) <= total_frames(boot_map),
            forall|j: int|
                0 <= j < k ==> walk(mapper.level_4_table, 4, #[trigger] heap_page(j)) is Ok,
            forall|j: int|
                0 <= j < k ==> walk_writable(mapper.level_4_table, 4, #[trigger] heap_page(j)),
            forall|j: int|
                0 <= j < k ==> exists|idx: int|
                    {
                        &&& old(frame_allocator).next <= idx < frame_allocator.next
                        &&& idx < total_frames(boot_map)
                        &&& walk(mapper.level_4_table, 4, #[trigger] heap_page(j))->Ok_0
                            == #[trigger] nth_frame(boot_map, idx)
                    },
            forall|j1: int, j2: int|
                0 <= j1 < j2 < k ==> walk(mapper.level_4_table, 4, #[trigger] heap_page(j1))->Ok_0
                    < walk(mapper.level_4_table, 4, #[trigger] heap_page(j2))->Ok_0,
            forall|j: int|
                k <= j < HEAP_PAGES ==> walk(mapper.level_4_table, 4, #[trigger] heap_page(j))
                    == walk(old(mapper).level_4_table, 4, heap_page(j)),
            forall|v: u64|
                (forall|j: int| 0 <= j < HEAP_PAGES ==> !same_path(v, #[trigger] heap_page(j), 4))
                    ==> walk(mapper.level_4_table, 4, v) == walk(old(mapper).level_4_table, 4, v),
            *allocator == *old(allocator),
        decreases HEAP_PAGES - k,
    {
        let page: u64 = (HEAP_START as u64) + 4096u64 * (k as u64);
        proof {
            lemma_heap_page_facts(k as int);
            assert(page == heap_page(k as int));
        }
        let ghost mapper_before = *mapper;
        let ghost fa_before = *frame_allocator;
        let frame = match frame_allocator.allocate_frame() {
            Some(f) => f,
            None => {
                proof {
                    assert(fa_before.next >= total_frames(boot_map));
                    assert(total_frames(boot_map) < old(frame_allocator).next + 4 * HEAP_PAGES);
                    if owed {
                        assert(false);
                    }
                }
                return Err(MapToError::FrameAllocationFailed);
            },
        };
        let ghost cursor = fa_before.next as int;
        let flags = PageTableFlags { present: true, writable: true };
        let ghost fa_mid = *frame_allocator;
        match mapper.map_to(page, frame, flags, frame_allocator) {
            Ok(flush) => flush.flush(),
            Err(e) => {
                proof {
                    crate::memory::lemma_missing_tables_bound(
                        mapper_before.level_4_table,
                        4,
                        page,
                    );
                    assert(walk(mapper_before.level_4_table, 4, page) == walk(
                        old(mapper).level_4_table,
                        4,
                        page,
                    ));
                    assert(e == MapToError::FrameAllocationFailed || e
                        == MapToError::PageAlreadyMapped || e == MapToError::ParentEntryHugePage);
                    if e == MapToError::PageAlreadyMapped {
                        assert(walk(old(mapper).level_4_table, 4, heap_page(k as int)) is Ok);
                    } else if e == MapToError::ParentEntryHugePage {
                        assert(walk(old(mapper).level_4_table, 4, heap_page(k as int)) == Err::<
                            u64,
                            FrameError,
                        >(FrameError::HugeFrame));
                    } else {
                        assert(total_frames(boot_map) < old(frame_allocator).next + 4
                            * HEAP_PAGES);
                    }
                    if owed {
                        assert(false);
                    }
                }
                return Err(e);
            },
        }
        proof {
            crate::memory::lemma_missing_tables_bound(mapper_before.level_4_table, 4, page);
            assert(frame.start == nth_frame(boot_map, cursor));
            assert forall|j: int| 0 <= j < k + 1 implies walk(
                mapper.level_4_table,
                4,
                #[trigger] heap_page(j),
            ) is Ok by {
                if j < k {
                    lemma_heap_pages_not_same_path(j, k as int);
                }
            }
            assert forall|j: int| 0 <= j < k + 1 implies walk_writable(
                mapper.level_4_table,
                4,
                #[trigger] heap_page(j),
            ) by {
                if j < k {
                    lemma_heap_pages_not_same_path(j, k as int);
                }
            }
            assert forall|j: int| 0 <= j < k + 1 implies exists|idx: int|
                {
                    &&& old(frame_allocator).next <= idx < frame_allocator.next
                    &&& idx < total_frames(boot_map)
                    &&& walk(mapper.level_4_table, 4, #[trigger] heap_page(j))->Ok_0
                        == #[trigger] nth_frame(boot_map, idx)
                } by {
                if j < k {
                    lemma_heap_pages_not_same_path(j, k as int);
                    assert(walk(mapper.level_4_table, 4, heap_page(j)) == walk(
                        mapper_before.level_4_table,
                        4,
                        heap_page(j),
                    ));
                    let idx0 = choose|idx: int|
                        {
                            &&& old(frame_allocator).next <= idx < fa_before.next
                            &&& idx < total_frames(boot_map)
                            &&& walk(mapper_before.level_4_table, 4, heap_page(j))->Ok_0
                                == nth_frame(boot_map, idx)
                        };
                    assert(old(frame_allocator).next <= idx0 < frame_allocator.next && idx0
                        < total_frames(boot_map) && walk(
                        mapper.level_4_table,
                        4,
                        heap_page(j),
                    )->Ok_0 == nth_frame(boot_map, idx0));
                } else {
                    assert(walk(mapper.level_4_table, 4, heap_page(j))->Ok_0 == frame.start);
                    assert(old(frame_allocator).next <= cursor < frame_allocator.next && cursor
                        < total_frames(boot_map) && walk(
                        mapper.level_4_table,
                        4,
                        heap_page(j),
                    )->Ok_0 == nth_frame(boot_map, cursor));
                }
            }
            assert forall|j1: int, j2: int| 0 <= j1 < j2 < k + 1 implies walk(
                mapper.level_4_table,
                4,
                #[trigger] heap_page(j1),
            )->Ok_0 < walk(mapper.level_4_table, 4, #[trigger] heap_page(j2))->Ok_0 by {
                lemma_heap_pages_not_same_path(j1, k as int);
                if j2 < k {
                    lemma_heap_pages_not_same_path(j2, k as int);
                    assert(walk(mapper.level_4_table, 4, heap_page(j1)) == walk(
                        mapper_before.level_4_table,
                        4,
                        heap_page(j1),
                    ));
                    assert(walk(mapper.level_4_table, 4, heap_page(j2)) == walk(
                        mapper_before.level_4_table,
                        4,
                        heap_page(j2),
                    ));
                } else {
                    assert(walk(mapper.level_4_table, 4, heap_page(j1)) == walk(
                        mapper_before.level_4_table,
                        4,
                        heap_page(j1),
                    ));
                    let idx0 = choose|idx: int|
                        {
                            &&& old(frame_allocator).next <= idx < fa_before.next
                            &&& idx < total_frames(boot_map)
                            &&& walk(mapper_before.level_4_table, 4, heap_page(j1))->Ok_0
                                == nth_frame(boot_map, idx)
                        };
                    lemma_nth_frame_increasing(boot_map, idx0, cursor);
                    assert(walk(mapper.level_4_table, 4, heap_page(j2))->Ok_0 == nth_frame(
                        boot_map,
                        cursor,
                    ));
                }
            }
            assert forall|j: int| k + 1 <= j < HEAP_PAGES implies walk(
                mapper.level_4_table,
                4,
                #[trigger] heap_page(j),
            ) == walk(old(mapper).level_4_table, 4, heap_page(j)) by {
                lemma_heap_pages_not_same_path(j, k as int);
            }
        }
        k = k + 1;
    }
    allocator.init(HEAP_START, HEAP_SIZE);
    Ok(())
}

/// A backend that refuses every request; it serves configurations that must
/// boot without a heap, where any allocation attempt is an error.
pub struct DummyAllocator;

impl DummyAllocator {
    /// Always fails: the dummy backend owns no memory. Freeing through the
    /// dummy backend is not part of its interface, since no allocation it
    /// hands out can ever exist.
    pub fn allocate(&self, size: usize, align: usize) -> (r: Option<usize>)
        ensures
            r is None,
    {
        None
    }
}

} // verus!

//! The address-ordered-by-recency free-list strategy: one free node per
//! free region, most recently freed first, first-fit allocation, no
//! coalescing.
//!
//! On bare metal each node is a header written into the first bytes of the
//! free region it describes; here the node is an explicit
//! (start address, size) record, and the header's footprint survives as
//! the constants `NODE_SIZE` and `NODE_ALIGN`: every free region must be
//! able to hold a header, so sizes stay at or above `NODE_SIZE` and start
//! addresses stay `NODE_ALIGN`-aligned.
//!
//! The allocator also carries a ghost ledger of live allocations, the
//! domain of which is exactly the set of outstanding pointers; the
//! well-formedness invariant ties the ledger and the free list together:
//! all ranges lie inside the heap and no two of them overlap.

use vstd::prelude::*;
use crate::allocator::{
    is_power_of_two, lemma_align_up_divides, lemma_align_up_properties, lemma_pow2_le_divides,
    spec_align_up, Locked,
};

verus! {

/// Bytes a free-region header occupies: two machine words of the 64-bit
/// target (the region size and the next link).
pub const NODE_SIZE: usize = 16;

/// Alignment a free-region header demands.
pub const NODE_ALIGN: usize = 8;

/// One free region: `[start_addr, start_addr + size)`.
#[derive(Clone, Copy, PartialEq, Eq, Structural)]
pub struct ListNode {
    pub start_addr: usize,
    pub size: usize,
}

impl ListNode {
    /// A node describing the free region `[start_addr, start_addr + size)`.
    pub fn new(start_addr: usize, size: usize) -> (r: ListNode)
        ensures
            r.start_addr == start_addr,
            r.size == size,
    {
        ListNode { start_addr, size }
    }

    /// First address of the region.
    pub fn start_address(&self) -> (r: usize)
        ensures
            r == self.start_addr,
    {
        self.start_addr
    }

    /// First address past the region.
    pub fn end_address(&self) -> (r: usize)
        requires
            self.start_addr + self.size <= usize::MAX,
        ensures
            r == self.start_addr + self.size,
    {
        self.start_addr + self.size
    }
}

/// First address past the region a node describes.
pub open spec fn node_end(n: ListNode) -> int {
    n.start_addr + n.size
}

/// Two byte ranges do not overlap.
pub open spec fn ranges_disjoint(a1: int, s1: int, a2: int, s2: int) -> bool {
    a1 + s1 <= a2 || a2 + s2 <= a1
}

/// The request's alignment, raised to at least the header's.
pub open spec fn norm_align(align: int) -> int {
    if align < NODE_ALIGN {
        NODE_ALIGN as int
    } else {
        align
    }
}

/// The request's size, padded to the raised alignment and raised to at
/// least the header's size, so any block handed out can later hold a
/// header when freed.
pub open spec fn norm_size(size: int, align: int) -> int {
    let padded = spec_align_up(size, norm_align(align));
    if padded < NODE_SIZE {
        NODE_SIZE as int
    } else {
        padded
    }
}

/// Normalization leaves a self-aligned request essentially alone: the
/// alignment stays, and the size only rises to the header minimum.
pub proof fn lemma_norm_identity(bs: int)
    requires
        bs >= 8,
    ensures
        norm_align(bs) == bs,
        norm_size(bs, bs) == if bs < 16 {
            16int
        } else {
            bs
        },
{
    vstd::arithmetic::div_mod::lemma_mod_multiples_basic(1, bs);
    assert(bs % bs == 0);
}

/// Whether a request of `size` bytes at alignment `align` (both already
/// normalized) can be carved from the node: the aligned start plus the
/// size must fit, and any unused tail must itself be able to hold a
/// header.
pub open spec fn region_fits(n: ListNode, size: int, align: int) -> bool {
    let start = spec_align_up(n.start_addr as int, align);
    let end = start + size;
    &&& end <= node_end(n)
    &&& (node_end(n) - end == 0 || node_end(n) - end >= NODE_SIZE)
}

/// The first-fit scan found node `i`: nothing before it fits, it fits,
/// and it came out of the list, leaving `post_list`.
pub open spec fn found_region(
    pre: LinkedListAllocator,
    post_list: Seq<ListNode>,
    size: int,
    align: int,
    node: ListNode,
    start: usize,
    i: int,
) -> bool {
    &&& 0 <= i < pre.free_list@.len()
    &&& forall|j: int| 0 <= j < i ==> !region_fits(#[trigger] pre.free_list@[j], size, align)
    &&& region_fits(pre.free_list@[i], size, align)
    &&& node == pre.free_list@[i]
    &&& start == spec_align_up(node.start_addr as int, align)
    &&& post_list == pre.free_list@.remove(i)
}

/// The free-list strategy's state: the heap bounds it was initialized
/// over, the free list (index 0 is the most recently freed node), and the
/// ghost ledger of live allocations (pointer, normalized size).
pub struct LinkedListAllocator {
    pub heap_start: usize,
    pub heap_end: usize,
    pub free_list: Vec<ListNode>,
    pub live: Ghost<Map<int, int>>,
}

impl LinkedListAllocator {
    /// Node `i` lies inside the heap, can hold a header, and is aligned
    /// for one.
    pub open spec fn wf_node(self, i: int) -> bool {
        let n = self.free_list@[i];
        &&& self.heap_start <= n.start_addr
        &&& n.start_addr + n.size <= self.heap_end
        &&& n.size >= NODE_SIZE
        &&& n.start_addr as int % (NODE_ALIGN as int) == 0
    }

    /// Live allocation at `a` lies inside the heap and could hold a
    /// header once freed.
    pub open spec fn wf_live_at(self, a: int) -> bool {
        &&& self.heap_start <= a
        &&& a + self.live@[a] <= self.heap_end
        &&& self.live@[a] >= NODE_SIZE
        &&& a as int % (NODE_ALIGN as int) == 0
    }

    /// The strategy's invariant: every free node and every live
    /// allocation lies inside the heap, and all of those ranges are
    /// pairwise disjoint.
    pub open spec fn wf(self) -> bool {
        &&& self.heap_start <= self.heap_end <= usize::MAX
        &&& forall|i: int| 0 <= i < self.free_list@.len() ==> self.wf_node(i)
        &&& forall|i: int, j: int|
            0 <= i < j < self.free_list@.len() ==> ranges_disjoint(
                (#[trigger] self.free_list@[i]).start_addr as int,
                self.free_list@[i].size as int,
                (#[trigger] self.free_list@[j]).start_addr as int,
                self.free_list@[j].size as int,
            )
        &&& forall|a: int| self.live@.dom().contains(a) ==> self.wf_live_at(a)
        &&& forall|a1: int, a2: int|
            self.live@.dom().contains(a1) && self.live@.dom().contains(a2) && a1 != a2
                ==> ranges_disjoint(a1, #[trigger] self.live@[a1], a2, #[trigger] self.live@[a2])
        &&& forall|i: int, a: int|
            0 <= i < self.free_list@.len() && self.live@.dom().contains(a) ==> ranges_disjoint(
                (#[trigger] self.free_list@[i]).start_addr as int,
                self.free_list@[i].size as int,
                a,
                #[trigger] self.live@[a],
            )
    }

    /// An empty allocator that owns no heap yet.
    pub fn new() -> (r: LinkedListAllocator)
        ensures
            r.heap_start == 0,
            r.heap_end == 0,
            r.free_list@.len() == 0,
            r.live@ == Map::<int, int>::empty(),
            r.wf(),
    {
        LinkedListAllocator {
            heap_start: 0,
            heap_end: 0,
            free_list: Vec::new(),
            live: Ghost(Map::empty()),
        }
    }

    /// Hands the allocator its heap: one free node spanning the whole
    /// range. To be called exactly once, on a freshly created allocator.
    pub fn init(&mut self, heap_start: usize, heap_size: usize)
        requires
            old(self).free_list@.len() == 0,
            old(self).live@ == Map::<int, int>::empty(),
            heap_start as int % (NODE_ALIGN as int) == 0,
            heap_size >= NODE_SIZE,
            heap_start + heap_size <= usize::MAX,
        ensures
            final(self).heap_start == heap_start,
            final(self).heap_end == heap_start + heap_size,
            final(self).free_list@ =~= seq![ListNode { start_addr: heap_start, size: heap_size }],
            final(self).live@ == Map::<int, int>::empty(),
            final(self).wf(),
    {
        self.heap_start = heap_start;
        self.heap_end = heap_start + heap_size;
        self.add_free_region(heap_start, heap_size);
    }

    /// Prepends the free region `[addr, addr + size)` to the list head.
    /// The caller owns the region: it must be disjoint from every free
    /// node and every live allocation.
    pub fn add_free_region(&mut self, addr: usize, size: usize)
        requires
            old(self).wf(),
            addr as int % (NODE_ALIGN as int) == 0,
            size >= NODE_SIZE,
            old(self).heap_start <= addr,
            addr + size <= old(self).heap_end,
            forall|i: int|
                0 <= i < old(self).free_list@.len() ==> ranges_disjoint(
                    addr as int,
                    size as int,
                    (#[trigger] old(self).free_list@[i]).start_addr as int,
                    old(self).free_list@[i].size as int,
                ),
            forall|a: int|
                old(self).live@.dom().contains(a) ==> ranges_disjoint(
                    addr as int,
                    size as int,
                    a,
                    #[trigger] old(self).live@[a],
                ),
        ensures
            final(self).heap_start == old(self).heap_start,
            final(self).heap_end == old(self).heap_end,
            final(self).live == old(self).live,
            final(self).free_list@ =~= seq![ListNode { start_addr: addr, size: size }].add(
                old(self).free_list@,
            ),
            final(self).wf(),
    {
        let node = ListNode::new(addr, size);
        self.free_list.insert(0, node);
        proof {
            assert(self.free_list@ =~= seq![ListNode { start_addr: addr, size: size }].add(
                old(self).free_list@,
            ));
            assert forall|a: int| self.live@.dom().contains(a) implies self.wf_live_at(a) by {
                assert(old(self).wf_live_at(a));
            }
            assert forall|i: int| 0 <= i < self.free_list@.len() implies self.wf_node(i) by {
                if i > 0 {
                    assert(self.free_list@[i] == old(self).free_list@[i - 1]);
                    assert(old(self).wf_node(i - 1));
                }
            }
            assert forall|i: int, j: int| 0 <= i < j < self.free_list@.len() implies ranges_disjoint(
                (#[trigger] self.free_list@[i]).start_addr as int,
                self.free_list@[i].size as int,
                (#[trigger] self.free_list@[j]).start_addr as int,
                self.free_list@[j].size as int,
            ) by {
                assert(self.free_list@[j] == old(self).free_list@[j - 1]);
                if i > 0 {
                    assert(self.free_list@[i] == old(self).free_list@[i - 1]);
                }
            }
            assert forall|i: int, a: int|
                0 <= i < self.free_list@.len() && self.live@.dom().contains(a) implies
                ranges_disjoint(
                (#[trigger] self.free_list@[i]).start_addr as int,
                self.free_list@[i].size as int,
                a,
                #[trigger] self.live@[a],
            ) by {
                if i > 0 {
                    assert(self.free_list@[i] == old(self).free_list@[i - 1]);
                }
            }
        }
    }

    /// First-fit scan: finds the first node the (normalized) request can
    /// be carved from, unlinks it, and returns it with the aligned start
    /// address the request would occupy inside it.
    pub fn find_region(&mut self, size: usize, align: usize) -> (r: Option<(ListNode, usize)>)
        requires
            old(self).wf(),
            align > 0,
        ensures
            final(self).heap_start == old(self).heap_start,
            final(self).heap_end == old(self).heap_end,
            final(self).live == old(self).live,
            final(self).wf(),
            r is None ==> final(self).free_list == old(self).free_list && forall|j: int|
                0 <= j < old(self).free_list@.len() ==> !region_fits(
                    #[trigger] old(self).free_list@[j],
                    size as int,
                    align as int,
                ),
            r is Some ==> exists|i: int|
                found_region(
                    *old(self),
                    final(self).free_list@,
                    size as int,
                    align as int,
                    r.unwrap().0,
                    r.unwrap().1,
                    i,
                ),
    {
        let mut i: usize = 0;
        while i < self.free_list.len()
            invariant
                self.wf(),
                align > 0,
                *self == *old(self),
                0 <= i <= self.free_list@.len(),
                forall|j: int|
                    0 <= j < i ==> !region_fits(
                        #[trigger] old(self).free_list@[j],
                        size as int,
                        align as int,
                    ),
            decreases self.free_list@.len() - i,
        {
            let node = self.free_list[i];
            proof {
                assert(self.wf_node(i as int));
            }
            match Self::alloc_from_region(&node, size, align) {
                Ok(start) => {
                    let removed = self.free_list.remove(i);
                    proof {
                        let orig = old(self).free_list@;
                        assert(removed == orig[i as int]);
                        assert(self.free_list@ == orig.remove(i as int));
            assert forall|a: int| self.live@.dom().contains(a) implies self.wf_live_at(a) by {
                assert(old(self).wf_live_at(a));
            }
                        assert forall|k: int| 0 <= k < self.free_list@.len() implies self.wf_node(
                            k,
                        ) by {
                            if k < i {
                                assert(self.free_list@[k] == orig[k]);
                                assert(old(self).wf_node(k));
                            } else {
                                assert(self.free_list@[k] == orig[k + 1]);
                                assert(old(self).wf_node(k + 1));
                            }
                        }
                        assert forall|k: int, j: int|
                            0 <= k < j < self.free_list@.len() implies ranges_disjoint(
                            (#[trigger] self.free_list@[k]).start_addr as int,
                            self.free_list@[k].size as int,
                            (#[trigger] self.free_list@[j]).start_addr as int,
                            self.free_list@[j].size as int,
                        ) by {
                            let k0: int = if k < i { k } else { k + 1 };
                            let j0: int = if j < i { j } else { j + 1 };
                            assert(self.free_list@[k] == orig[k0]);
                            assert(self.free_list@[j] == orig[j0]);
                        }
                        assert forall|k: int, a: int|
                            0 <= k < self.free_list@.len() && self.live@.dom().contains(a) implies
                            ranges_disjoint(
                            (#[trigger] self.free_list@[k]).start_addr as int,
                            self.free_list@[k].size as int,
                            a,
                            #[trigger] self.live@[a],
                        ) by {
                            let k0: int = if k < i { k } else { k + 1 };
                            assert(self.free_list@[k] == orig[k0]);
                        }
                        assert(found_region(
                            *old(self),
                            self.free_list@,
                            size as int,
                            align as int,
                            removed,
                            start,
                            i as int,
                        ));
                        let rr: Option<(ListNode, usize)> = Some((removed, start));
                        assert(rr.unwrap().0 == removed);
                        assert(rr.unwrap().1 == start);
                        assert(exists|k: int|
                            found_region(
                                *old(self),
                                self.free_list@,
                                size as int,
                                align as int,
                                rr.unwrap().0,
                                rr.unwrap().1,
                                k,
                            ));
                    }
                    return Some((removed, start));
                },
                Err(()) => {
                    i = i + 1;
                },
            }
        }
        None
    }

    /// Whether (and where) a normalized request fits in one region. The
    /// aligned candidate start is computed inside the region; the request
    /// fits when start plus size stays inside and the leftover tail, if
    /// any, is at least header-sized.
    pub fn alloc_from_region(region: &ListNode, size: usize, align: usize) -> (r: Result<
        usize,
        (),
    >)
        requires
            align > 0,
            region.start_addr + region.size <= usize::MAX,
        ensures
            r is Ok <==> region_fits(*region, size as int, align as int),
            r is Ok ==> r.unwrap() == spec_align_up(region.start_addr as int, align as int),
    {
        proof {
            lemma_align_up_properties(region.start_addr as int, align as int);
        }
        let rem = region.start_addr % align;
        let start_addr_opt = if rem == 0 {
            Some(region.start_addr)
        } else {
            region.start_addr.checked_add(align - rem)
        };
        let start_addr = match start_addr_opt {
            Some(s) => s,
            None => {
                return Err(());
            },
        };
        let end_addr = match start_addr.checked_add(size) {
            Some(e) => e,
            None => {
                return Err(());
            },
        };
        let region_end = region.end_address();
        if end_addr > region_end {
            return Err(());
        }
        let excess = region_end - end_addr;
        if excess != 0 && excess < NODE_SIZE {
            return Err(());
        }
        Ok(start_addr)
    }

    /// Raises a request to the header's alignment and pads its size, so
    /// that whatever is handed out can hold a header when it comes back.
    pub fn size_align(size: usize, align: usize) -> (r: (usize, usize))
        requires
            align > 0,
            is_power_of_two(align as int),
            size <= usize::MAX / 2,
            align <= usize::MAX / 2,
        ensures
            r.0 == norm_size(size as int, align as int),
            r.1 == norm_align(align as int),
            r.0 >= NODE_SIZE,
            r.0 as int % (NODE_ALIGN as int) == 0,
            r.1 as int % (NODE_ALIGN as int) == 0,
            r.1 >= NODE_ALIGN,
            is_power_of_two(r.1 as int),
    {
        let nalign = if align < NODE_ALIGN {
            NODE_ALIGN
        } else {
            align
        };
        proof {
            reveal_with_fuel(is_power_of_two, 5);
            assert(is_power_of_two(8));
            if align >= NODE_ALIGN {
                lemma_pow2_le_divides(8, align as int);
            }
        }
        let padded = crate::allocator::align_up(size, nalign);
        proof {
            lemma_align_up_divides(size as int, nalign as int, NODE_ALIGN as int);
        }
        let nsize = if padded < NODE_SIZE {
            NODE_SIZE
        } else {
            padded
        };
        (nsize, nalign)
    }
}

/// The first-fit scan chose node `i` for the allocation that returned
/// `p`: nothing before `i` fits the normalized request, node `i` does,
/// `p` is the aligned start inside it, and the list afterwards is the old
/// list without node `i`, with the leftover tail (if any) prepended as a
/// fresh node.
pub open spec fn alloc_chosen(
    pre: LinkedListAllocator,
    post: LinkedListAllocator,
    size: int,
    align: int,
    p: usize,
    i: int,
) -> bool {
    let nsize = norm_size(size, align);
    let nalign = norm_align(align);
    let node = pre.free_list@[i];
    let start = spec_align_up(node.start_addr as int, nalign);
    let end = start + nsize;
    let excess = node_end(node) - end;
    &&& 0 <= i < pre.free_list@.len()
    &&& forall|j: int| 0 <= j < i ==> !region_fits(#[trigger] pre.free_list@[j], nsize, nalign)
    &&& region_fits(node, nsize, nalign)
    &&& p == start
    &&& post.free_list@ == if excess > 0 {
        seq![ListNode { start_addr: end as usize, size: excess as usize }].add(
            pre.free_list@.remove(i),
        )
    } else {
        pre.free_list@.remove(i)
    }
}

/// What one allocation call does, stated over the request before
/// normalization. A failure leaves the allocator untouched and means no
/// node fits the normalized request; a success returns the aligned start
/// of the first fitting node, inside the heap, disjoint from every
/// allocation still live, and records it in the live ledger.
pub open spec fn alloc_transition(
    pre: LinkedListAllocator,
    post: LinkedListAllocator,
    size: int,
    align: int,
    r: Option<usize>,
) -> bool {
    let nsize = norm_size(size, align);
    let nalign = norm_align(align);
    match r {
        None => {
            &&& post.free_list@ == pre.free_list@
            &&& post.live == pre.live
            &&& post.heap_start == pre.heap_start
            &&& post.heap_end == pre.heap_end
            &&& forall|j: int|
                0 <= j < pre.free_list@.len() ==> !region_fits(
                    #[trigger] pre.free_list@[j],
                    nsize,
                    nalign,
                )
        },
        Some(p) => {
            &&& exists|i: int| alloc_chosen(pre, post, size, align, p, i)
            &&& pre.heap_start <= p
            &&& p + nsize <= pre.heap_end
            &&& p as int % nalign == 0
            &&& p as int % align == 0
            &&& post.live@ == pre.live@.insert(p as int, nsize)
            &&& post.heap_start == pre.heap_start
            &&& post.heap_end == pre.heap_end
            &&& forall|a: int|
                pre.live@.dom().contains(a) ==> ranges_disjoint(
                    p as int,
                    nsize,
                    a,
                    #[trigger] pre.live@[a],
                )
        },
    }
}

/// What one free call does: the freed range, at its normalized size,
/// becomes a fresh node at the head of the list, and leaves the live
/// ledger.
pub open spec fn dealloc_transition(
    pre: LinkedListAllocator,
    post: LinkedListAllocator,
    ptr: usize,
    size: int,
    align: int,
) -> bool {
    let nsize = norm_size(size, align);
    &&& post.free_list@ == seq![ListNode { start_addr: ptr, size: nsize as usize }].add(
        pre.free_list@,
    )
    &&& post.live@ == pre.live@.remove(ptr as int)
    &&& post.heap_start == pre.heap_start
    &&& post.heap_end == pre.heap_end
}

impl LinkedListAllocator {
    /// Serves a request: normalizes it, scans the free list first-fit,
    /// carves the aligned span out of the chosen node and prepends any
    /// leftover tail as a new head node. Fails exactly when no node fits
    /// the normalized request, leaving the allocator untouched.
    pub fn allocate(&mut self, size: usize, align: usize) -> (r: Option<usize>)
        requires
            old(self).wf(),
            align > 0,
            is_power_of_two(align as int),
            size <= usize::MAX / 2,
            align <= usize::MAX / 2,
        ensures
            final(self).wf(),
            alloc_transition(*old(self), *final(self), size as int, align as int, r),
    {
        let (nsize, nalign) = Self::size_align(size, align);
        match self.find_region(nsize, nalign) {
            None => None,
            Some((region, start)) => {
                let ghost pre = *old(self);
                let ghost i = choose|i: int|
                    found_region(
                        pre,
                        self.free_list@,
                        nsize as int,
                        nalign as int,
                        region,
                        start,
                        i,
                    );
                proof {
                    assert(found_region(
                        pre,
                        self.free_list@,
                        nsize as int,
                        nalign as int,
                        region,
                        start,
                        i,
                    ));
                    assert(pre.wf_node(i));
                    lemma_align_up_properties(region.start_addr as int, nalign as int);
                    lemma_align_up_divides(
                        region.start_addr as int,
                        nalign as int,
                        NODE_ALIGN as int,
                    );
                    if align < NODE_ALIGN {
                        lemma_pow2_le_divides(align as int, NODE_ALIGN as int);
                        assert(norm_align(align as int) as int % (align as int) == 0);
                    } else {
                        vstd::arithmetic::div_mod::lemma_mod_multiples_basic(1, align as int);
                    }
                    lemma_align_up_divides(region.start_addr as int, nalign as int, align as int);
                }
                let end = start + nsize;
                let region_end = region.start_addr + region.size;
                proof {
                    vstd::arithmetic::div_mod::lemma_mod_adds(
                        start as int,
                        nsize as int,
                        NODE_ALIGN as int,
                    );
                }
                if region_end > end {
                    let excess = region_end - end;
                    proof {
                        assert forall|k: int|
                            0 <= k < self.free_list@.len() implies ranges_disjoint(
                            end as int,
                            excess as int,
                            (#[trigger] self.free_list@[k]).start_addr as int,
                            self.free_list@[k].size as int,
                        ) by {
                            let k0: int = if k < i {
                                k
                            } else {
                                k + 1
                            };
                            assert(self.free_list@[k] == pre.free_list@[k0]);
                        }
                        assert forall|a: int| self.live@.dom().contains(a) implies ranges_disjoint(
                            end as int,
                            excess as int,
                            a,
                            #[trigger] self.live@[a],
                        ) by {
                            assert(ranges_disjoint(
                                region.start_addr as int,
                                region.size as int,
                                a,
                                pre.live@[a],
                            ));
                        }
                    }
                    self.add_free_region(end, excess);
                }
                let ghost carved = *self;
                self.live = Ghost(self.live@.insert(start as int, nsize as int));
                proof {
                    assert forall|k: int| 0 <= k < self.free_list@.len() implies self.wf_node(
                        k,
                    ) by {
                        assert(carved.wf_node(k));
                    }
                    assert forall|a: int|
                        self.live@.dom().contains(a) implies self.wf_live_at(a) by {
                        if a != start as int {
                            assert(carved.wf_live_at(a));
                        }
                    }
                    assert forall|a1: int, a2: int|
                        self.live@.dom().contains(a1) && self.live@.dom().contains(a2) && a1
                            != a2 implies ranges_disjoint(
                        a1,
                        #[trigger] self.live@[a1],
                        a2,
                        #[trigger] self.live@[a2],
                    ) by {
                        if a1 == start as int {
                            assert(ranges_disjoint(
                                region.start_addr as int,
                                region.size as int,
                                a2,
                                pre.live@[a2],
                            ));
                        } else if a2 == start as int {
                            assert(ranges_disjoint(
                                region.start_addr as int,
                                region.size as int,
                                a1,
                                pre.live@[a1],
                            ));
                        }
                    }
                    assert forall|k: int, a: int|
                        0 <= k < self.free_list@.len() && self.live@.dom().contains(a) implies
                        ranges_disjoint(
                        (#[trigger] self.free_list@[k]).start_addr as int,
                        self.free_list@[k].size as int,
                        a,
                        #[trigger] self.live@[a],
                    ) by {
                        assert(carved.wf_node(k));
                        if a != start as int {
                            assert(ranges_disjoint(
                                self.free_list@[k].start_addr as int,
                                self.free_list@[k].size as int,
                                a,
                                carved.live@[a],
                            ));
                        } else {
                            if region_end > end {
                                if k == 0 {
                                    assert(self.free_list@[0].start_addr == end);
                                } else {
                                    let k0: int = if k - 1 < i {
                                        k - 1
                                    } else {
                                        k
                                    };
                                    assert(self.free_list@[k] == pre.free_list@[k0]);
                                    assert(ranges_disjoint(
                                        pre.free_list@[k0].start_addr as int,
                                        pre.free_list@[k0].size as int,
                                        region.start_addr as int,
                                        region.size as int,
                                    ));
                                }
                            } else {
                                let k0: int = if k < i {
                                    k
                                } else {
                                    k + 1
                                };
                                assert(self.free_list@[k] == pre.free_list@[k0]);
                                assert(ranges_disjoint(
                                    pre.free_list@[k0].start_addr as int,
                                    pre.free_list@[k0].size as int,
                                    region.start_addr as int,
                                    region.size as int,
                                ));
                            }
                        }
                    }
                    assert(alloc_chosen(pre, *self, size as int, align as int, start, i));
                    assert forall|a: int| pre.live@.dom().contains(a) implies ranges_disjoint(
                        start as int,
                        nsize as int,
                        a,
                        #[trigger] pre.live@[a],
                    ) by {
                        assert(ranges_disjoint(
                            region.start_addr as int,
                            region.size as int,
                            a,
                            pre.live@[a],
                        ));
                    }
                }
                Some(start)
            },
        }
    }

    /// Returns a span to the allocator: the freed range, wrapped as a
    /// node of its normalized size, is prepended to the list head in
    /// constant time, with no search and no coalescing. The caller frees
    /// exactly what it was handed: `ptr` with the allocation's original
    /// layout.
    pub fn deallocate(&mut self, ptr: usize, size: usize, align: usize)
        requires
            old(self).wf(),
            align > 0,
            is_power_of_two(align as int),
            size <= usize::MAX / 2,
            align <= usize::MAX / 2,
            old(self).live@.dom().contains(ptr as int),
            old(self).live@[ptr as int] == norm_size(size as int, align as int),
        ensures
            final(self).wf(),
            dealloc_transition(*old(self), *final(self), ptr, size as int, align as int),
    {
        let (nsize, _nalign) = Self::size_align(size, align);
        proof {
            assert(old(self).wf_live_at(ptr as int));
        }
        self.live = Ghost(self.live@.remove(ptr as int));
        proof {
            assert forall|k: int| 0 <= k < self.free_list@.len() implies self.wf_node(k) by {
                assert(old(self).wf_node(k));
            }
            assert forall|a: int| self.live@.dom().contains(a) implies self.wf_live_at(a) by {
                assert(old(self).wf_live_at(a));
            }
        }
        self.add_free_region(ptr, nsize);
    }

    /// Law: whatever sequence of allocate and free calls produced a
    /// well-formed allocator state, every live allocation lies inside
    /// `[heap_start, heap_end)`, and no two live allocations overlap.
    pub proof fn lemma_live_allocations_safe(a: LinkedListAllocator)
        requires
            a.wf(),
        ensures
            forall|p: int|
                #[trigger] a.live@.dom().contains(p) ==> a.heap_start <= p && p + a.live@[p]
                    <= a.heap_end,
            forall|p1: int, p2: int|
                a.live@.dom().contains(p1) && a.live@.dom().contains(p2) && p1 != p2
                    ==> ranges_disjoint(p1, #[trigger] a.live@[p1], p2, #[trigger] a.live@[p2]),
    {
        assert forall|p: int| #[trigger] a.live@.dom().contains(p) implies a.heap_start <= p && p
            + a.live@[p] <= a.heap_end by {
            assert(a.wf_live_at(p));
        }
    }
}

impl Locked<LinkedListAllocator> {
    /// Hands the wrapped allocator its heap; see
    /// [`LinkedListAllocator::init`].
    pub fn init(&mut self, heap_start: usize, heap_size: usize)
        requires
            old(self).inner.free_list@.len() == 0,
            old(self).inner.live@ == Map::<int, int>::empty(),
            heap_start as int % (NODE_ALIGN as int) == 0,
            heap_size >= NODE_SIZE,
            heap_start + heap_size <= usize::MAX,
        ensures
            final(self).inner.heap_start == heap_start,
            final(self).inner.heap_end == heap_start + heap_size,
            final(self).inner.free_list@ =~= seq![
                ListNode { start_addr: heap_start, size: heap_size },
            ],
            final(self).inner.live@ == Map::<int, int>::empty(),
            final(self).inner.wf(),
    {
        self.lock().init(heap_start, heap_size);
    }

    /// The global allocation hook, serialized through the wrapper; see
    /// [`LinkedListAllocator::allocate`].
    pub fn allocate(&mut self, size: usize, align: usize) -> (r: Option<usize>)
        requires
            old(self).inner.wf(),
            align > 0,
            is_power_of_two(align as int),
            size <= usize::MAX / 2,
            align <= usize::MAX / 2,
        ensures
            final(self).inner.wf(),
            alloc_transition(old(self).inner, final(self).inner, size as int, align as int, r),
    {
        self.lock().allocate(size, align)
    }

    /// The global free hook, serialized through the wrapper; see
    /// [`LinkedListAllocator::deallocate`].
    pub fn free(&mut self, ptr: usize, size: usize, align: usize)
        requires
            old(self).inner.wf(),
            align > 0,
            is_power_of_two(align as int),
            size <= usize::MAX / 2,
            align <= usize::MAX / 2,
            old(self).inner.live@.dom().contains(ptr as int),
            old(self).inner.live@[ptr as int] == norm_size(size as int, align as int),
        ensures
            final(self).inner.wf(),
            dealloc_transition(old(self).inner, final(self).inner, ptr, size as int, align as int),
    {
        self.lock().deallocate(ptr, size, align)
    }
}


} // verus!

//! The size-classed strategy: one LIFO stack of free blocks per size
//! class, with an embedded linked-list allocator as the fallback for
//! empty stacks and for requests beyond the largest class.
//!
//! A block of class `c` is `block_sizes()[c]` bytes, aligned to its own
//! size; because every class is a power of two, serving the size also
//! serves any alignment up to it. Freed class blocks go back onto their
//! class stack and never return to the fallback pool: a bounded,
//! permanent per-class fragmentation ceiling accepted by design.

use vstd::prelude::*;
use crate::allocator::{is_power_of_two, Locked};
use crate::allocator::linked_list::{
    alloc_transition, dealloc_transition, norm_size, LinkedListAllocator, ListNode, NODE_ALIGN,
    NODE_SIZE,
};

verus! {

/// The fixed block size classes, in ascending order: strictly
/// increasing, all powers of two.
pub open spec fn block_sizes() -> Seq<int> {
    seq![8, 16, 32, 64, 128, 256, 512, 1024, 2048]
}

/// Every class size is a positive power of two.
pub proof fn lemma_block_sizes_pow2()
    ensures
        forall|c: int| 0 <= c < block_sizes().len() ==> is_power_of_two(#[trigger] block_sizes()[c]),
{
    reveal_with_fuel(is_power_of_two, 13);
    assert forall|c: int| 0 <= c < block_sizes().len() implies is_power_of_two(
        #[trigger] block_sizes()[c],
    ) by {
        if c == 0 {
            assert(is_power_of_two(8));
        } else if c == 1 {
            assert(is_power_of_two(16));
        } else if c == 2 {
            assert(is_power_of_two(32));
        } else if c == 3 {
            assert(is_power_of_two(64));
        } else if c == 4 {
            assert(is_power_of_two(128));
        } else if c == 5 {
            assert(is_power_of_two(256));
        } else if c == 6 {
            assert(is_power_of_two(512));
        } else if c == 7 {
            assert(is_power_of_two(1024));
        } else {
            assert(is_power_of_two(2048));
        }
    }
}

/// The class size at index `c`.
pub fn block_size(c: usize) -> (r: usize)
    requires
        c < block_sizes().len(),
    ensures
        r == block_sizes()[c as int],
{
    match c {
        0 => 8,
        1 => 16,
        2 => 32,
        3 => 64,
        4 => 128,
        5 => 256,
        6 => 512,
        7 => 1024,
        _ => 2048,
    }
}

/// The smallest class that serves a request, or `None` when the request
/// outgrows every class and must go to the fallback allocator: class
/// selection rounds `max(size, align)` up to the next class size.
pub open spec fn spec_list_index(size: int, align: int) -> Option<int> {
    let m = if size > align {
        size
    } else {
        align
    };
    if m <= 8 {
        Some(0)
    } else if m <= 16 {
        Some(1)
    } else if m <= 32 {
        Some(2)
    } else if m <= 64 {
        Some(3)
    } else if m <= 128 {
        Some(4)
    } else if m <= 256 {
        Some(5)
    } else if m <= 512 {
        Some(6)
    } else if m <= 1024 {
        Some(7)
    } else if m <= 2048 {
        Some(8)
    } else {
        None
    }
}

/// Picks the class for a request: the smallest class at least
/// `max(size, align)`. The same function routes allocation and free, so
/// a block always returns to the stack it was served for.
pub fn list_index(size: usize, align: usize) -> (r: Option<usize>)
    ensures
        r is Some <==> spec_list_index(size as int, align as int) is Some,
        r is Some ==> r.unwrap() == spec_list_index(size as int, align as int).unwrap()
            && r.unwrap() < block_sizes().len(),
{
    let m = if size > align {
        size
    } else {
        align
    };
    if m <= 8 {
        Some(0)
    } else if m <= 16 {
        Some(1)
    } else if m <= 32 {
        Some(2)
    } else if m <= 64 {
        Some(3)
    } else if m <= 128 {
        Some(4)
    } else if m <= 256 {
        Some(5)
    } else if m <= 512 {
        Some(6)
    } else if m <= 1024 {
        Some(7)
    } else if m <= 2048 {
        Some(8)
    } else {
        None
    }
}

/// The size-classed strategy's state: one stack of free block addresses
/// per class (the last element is the stack head), and the fallback
/// allocator whose heap all blocks are carved from.
pub struct FixedSizeAllocator {
    pub lists_allocator: Vec<Vec<usize>>,
    pub fallback_allocator: LinkedListAllocator,
}

impl FixedSizeAllocator {
    /// Stack entry `k` of class `c` is a class-aligned block lying
    /// inside the heap.
    pub open spec fn wf_stack_entry(self, c: int, k: int) -> bool {
        let addr = self.lists_allocator@[c]@[k];
        let bs = block_sizes()[c];
        &&& self.fallback_allocator.heap_start <= addr
        &&& addr + bs <= self.fallback_allocator.heap_end
        &&& addr as int % bs == 0
    }

    /// Entries `k1` and `k2` of class `c`'s stack are different blocks.
    pub open spec fn wf_stack_distinct(self, c: int, k1: int, k2: int) -> bool {
        (self.lists_allocator@[c])@[k1] != (self.lists_allocator@[c])@[k2]
    }

    /// One stack per class, a well-formed fallback, every stacked block
    /// class-aligned inside the heap, and no block sitting twice on one
    /// stack.
    pub open spec fn wf(self) -> bool {
        &&& self.lists_allocator@.len() == block_sizes().len()
        &&& self.fallback_allocator.wf()
        &&& forall|c: int, k: int|
            0 <= c < block_sizes().len() && 0 <= k < (self.lists_allocator@[c])@.len()
                ==> #[trigger] self.wf_stack_entry(c, k)
        &&& forall|c: int, k1: int, k2: int|
            0 <= c < block_sizes().len() && 0 <= k1 < k2 < (self.lists_allocator@[c])@.len()
                ==> #[trigger] self.wf_stack_distinct(c, k1, k2)
    }

    /// An empty allocator: every class stack empty, the fallback not yet
    /// initialized.
    pub fn new() -> (r: FixedSizeAllocator)
        ensures
            r.wf(),
            forall|c: int| 0 <= c < block_sizes().len() ==> (#[trigger] r.lists_allocator@[c])@.len()
                == 0,
            r.fallback_allocator.free_list@.len() == 0,
            r.fallback_allocator.live@ == Map::<int, int>::empty(),
            r.fallback_allocator.heap_start == 0,
            r.fallback_allocator.heap_end == 0,
    {
        let mut lists: Vec<Vec<usize>> = Vec::new();
        lists.push(Vec::new());
        lists.push(Vec::new());
        lists.push(Vec::new());
        lists.push(Vec::new());
        lists.push(Vec::new());
        lists.push(Vec::new());
        lists.push(Vec::new());
        lists.push(Vec::new());
        lists.push(Vec::new());
        let r = FixedSizeAllocator { lists_allocator: lists, fallback_allocator: LinkedListAllocator::new() };
        proof {
            assert forall|c: int| 0 <= c < block_sizes().len() implies (
            #[trigger] r.lists_allocator@[c])@.len() == 0 by {
                assert(r.lists_allocator@.len() == 9);
            }
        }
        r
    }

    /// Hands the fallback allocator the heap; the class stacks start
    /// empty and fill only as blocks are freed.
    pub fn init(&mut self, heap_start: usize, heap_size: usize)
        requires
            old(self).wf(),
            old(self).fallback_allocator.free_list@.len() == 0,
            old(self).fallback_allocator.live@ == Map::<int, int>::empty(),
            forall|c: int|
                0 <= c < block_sizes().len() ==> (#[trigger] old(
                    self,
                ).lists_allocator@[c])@.len() == 0,
            heap_start as int % (NODE_ALIGN as int) == 0,
            heap_size >= NODE_SIZE,
            heap_start + heap_size <= usize::MAX,
        ensures
            final(self).wf(),
            final(self).lists_allocator == old(self).lists_allocator,
            final(self).fallback_allocator.heap_start == heap_start,
            final(self).fallback_allocator.heap_end == heap_start + heap_size,
            final(self).fallback_allocator.free_list@ =~= seq![
                crate::allocator::linked_list::ListNode {
                    start_addr: heap_start,
                    size: heap_size,
                },
            ],
            final(self).fallback_allocator.live@ == Map::<int, int>::empty(),
    {
        self.fallback_allocator.init(heap_start, heap_size);
        proof {
            assert forall|c: int, k: int|
                0 <= c < block_sizes().len() && 0 <= k < (self.lists_allocator@[c])@.len() implies
                self.wf_stack_entry(c, k) by {
                assert((old(self).lists_allocator@[c])@.len() == 0);
            }
        }
    }

    /// Serves a request straight from the fallback allocator, with the
    /// layout the caller chose; used for oversize requests and for empty
    /// class stacks. Operates on the inner state directly: this is the
    /// path that must not re-enter the exclusion wrapper.
    pub fn fallback_alloc(&mut self, size: usize, align: usize) -> (r: Option<usize>)
        requires
            old(self).wf(),
            align > 0,
            is_power_of_two(align as int),
            size <= usize::MAX / 2,
            align <= usize::MAX / 2,
        ensures
            final(self).wf(),
            final(self).lists_allocator == old(self).lists_allocator,
            alloc_transition(
                old(self).fallback_allocator,
                final(self).fallback_allocator,
                size as int,
                align as int,
                r,
            ),
    {
        let r = self.fallback_allocator.allocate(size, align);
        proof {
            assert forall|c: int, k: int|
                0 <= c < block_sizes().len() && 0 <= k < (self.lists_allocator@[c])@.len() implies
                self.wf_stack_entry(c, k) by {
                assert(old(self).wf_stack_entry(c, k));
            }
            assert forall|c: int, k1: int, k2: int|
                0 <= c < block_sizes().len() && 0 <= k1 < k2 < (
                self.lists_allocator@[c])@.len() implies self.wf_stack_distinct(c, k1, k2) by {
                assert(old(self).wf_stack_distinct(c, k1, k2));
            }
        }
        r
    }
}

/// What one size-classed allocation does. A request within some class
/// `c` pops the head of stack `c` if one is there (LIFO reuse), else it
/// asks the fallback for exactly one class-sized, class-aligned block; a
/// request beyond every class goes to the fallback with its own layout.
pub open spec fn fixed_alloc_transition(
    pre: FixedSizeAllocator,
    post: FixedSizeAllocator,
    size: int,
    align: int,
    r: Option<usize>,
) -> bool {
    match spec_list_index(size, align) {
        Some(c) => {
            if pre.lists_allocator@[c]@.len() > 0 {
                &&& r is Some
                &&& r.unwrap() == pre.lists_allocator@[c]@.last()
                &&& post.lists_allocator@.len() == pre.lists_allocator@.len()
                &&& post.lists_allocator@[c]@ == pre.lists_allocator@[c]@.drop_last()
                &&& forall|d: int|
                    0 <= d < pre.lists_allocator@.len() && d != c
                        ==> #[trigger] post.lists_allocator@[d] == pre.lists_allocator@[d]
                &&& post.fallback_allocator == pre.fallback_allocator
            } else {
                &&& alloc_transition(
                    pre.fallback_allocator,
                    post.fallback_allocator,
                    block_sizes()[c],
                    block_sizes()[c],
                    r,
                )
                &&& post.lists_allocator@.len() == pre.lists_allocator@.len()
                &&& forall|d: int|
                    0 <= d < pre.lists_allocator@.len()
                        ==> (#[trigger] post.lists_allocator@[d])@ == (pre.lists_allocator@[d])@
            }
        },
        None => {
            &&& alloc_transition(pre.fallback_allocator, post.fallback_allocator, size, align, r)
            &&& post.lists_allocator == pre.lists_allocator
        },
    }
}

/// What one size-classed free does: the same class selection that routed
/// the allocation routes the free — a class block is pushed back onto
/// its class stack (never the fallback pool), an oversize block goes
/// back to the fallback allocator.
pub open spec fn fixed_free_transition(
    pre: FixedSizeAllocator,
    post: FixedSizeAllocator,
    ptr: usize,
    size: int,
    align: int,
) -> bool {
    match spec_list_index(size, align) {
        Some(c) => {
            &&& post.lists_allocator@.len() == pre.lists_allocator@.len()
            &&& post.lists_allocator@[c]@ == pre.lists_allocator@[c]@.push(ptr)
            &&& forall|d: int|
                0 <= d < pre.lists_allocator@.len() && d != c
                    ==> #[trigger] post.lists_allocator@[d] == pre.lists_allocator@[d]
            &&& post.fallback_allocator == pre.fallback_allocator
        },
        None => {
            &&& dealloc_transition(pre.fallback_allocator, post.fallback_allocator, ptr, size, align)
            &&& post.lists_allocator == pre.lists_allocator
        },
    }
}

impl Locked<FixedSizeAllocator> {
    /// Hands the wrapped allocator its heap; see
    /// [`FixedSizeAllocator::init`].
    pub fn init(&mut self, heap_start: usize, heap_size: usize)
        requires
            old(self).inner.wf(),
            old(self).inner.fallback_allocator.free_list@.len() == 0,
            old(self).inner.fallback_allocator.live@ == Map::<int, int>::empty(),
            forall|c: int|
                0 <= c < block_sizes().len() ==> (#[trigger] old(
                    self,
                ).inner.lists_allocator@[c])@.len() == 0,
            heap_start as int % (NODE_ALIGN as int) == 0,
            heap_size >= NODE_SIZE,
            heap_start + heap_size <= usize::MAX,
        ensures
            final(self).inner.wf(),
            final(self).inner.lists_allocator == old(self).inner.lists_allocator,
            final(self).inner.fallback_allocator.heap_start == heap_start,
            final(self).inner.fallback_allocator.heap_end == heap_start + heap_size,
    {
        self.lock().init(heap_start, heap_size);
    }

    /// The global allocation hook for the size-classed strategy: pop the
    /// class stack, or fall back to one fresh class-sized block, or pass
    /// oversize requests through untouched.
    pub fn allocate(&mut self, size: usize, align: usize) -> (r: Option<usize>)
        requires
            old(self).inner.wf(),
            align > 0,
            is_power_of_two(align as int),
            size <= usize::MAX / 2,
            align <= usize::MAX / 2,
        ensures
            final(self).inner.wf(),
            fixed_alloc_transition(old(self).inner, final(self).inner, size as int, align as int, r),
            r is Some ==> (spec_list_index(size as int, align as int) matches Some(c)
                ==> r.unwrap() as int % block_sizes()[c] == 0
                    && old(self).inner.fallback_allocator.heap_start <= r.unwrap()
                    && r.unwrap() + block_sizes()[c]
                    <= old(self).inner.fallback_allocator.heap_end),
    {
        let idx_opt = list_index(size, align);
        match idx_opt {
            Some(idx) => {
                let popped = self.inner.lists_allocator[idx].pop();
                match popped {
                    Some(head) => {
                        proof {
                            assert(old(self).inner.wf_stack_entry(
                                idx as int,
                                old(self).inner.lists_allocator@[idx as int]@.len() - 1,
                            ));
                            assert forall|c: int, k: int|
                                0 <= c < block_sizes().len() && 0 <= k
                                    < self.inner.lists_allocator@[c]@.len() implies
                                self.inner.wf_stack_entry(c, k) by {
                                assert(old(self).inner.wf_stack_entry(c, k));
                            }
                            assert forall|c: int, k1: int, k2: int|
                                0 <= c < block_sizes().len() && 0 <= k1 < k2
                                    < self.inner.lists_allocator@[c]@.len() implies
                                self.inner.wf_stack_distinct(c, k1, k2) by {
                                assert(self.inner.lists_allocator@[c]@[k1] == old(
                                    self,
                                ).inner.lists_allocator@[c]@[k1]);
                                assert(self.inner.lists_allocator@[c]@[k2] == old(
                                    self,
                                ).inner.lists_allocator@[c]@[k2]);
                                assert(old(self).inner.wf_stack_distinct(c, k1, k2));
                            }
                        }
                        Some(head)
                    },
                    None => {
                        let bs = block_size(idx);
                        proof {
                            lemma_block_sizes_pow2();
                            assert forall|c: int, k: int|
                                0 <= c < block_sizes().len() && 0 <= k
                                    < (self.inner.lists_allocator@[c])@.len() implies
                                self.inner.wf_stack_entry(c, k) by {
                                assert((self.inner.lists_allocator@[c])@ == (old(
                                    self,
                                ).inner.lists_allocator@[c])@);
                                assert(old(self).inner.wf_stack_entry(c, k));
                            }
                            assert forall|c: int, k1: int, k2: int|
                                0 <= c < block_sizes().len() && 0 <= k1 < k2 < (
                                self.inner.lists_allocator@[c])@.len() implies
                                self.inner.wf_stack_distinct(c, k1, k2) by {
                                assert((self.inner.lists_allocator@[c])@ == (old(
                                    self,
                                ).inner.lists_allocator@[c])@);
                                assert(old(self).inner.wf_stack_distinct(c, k1, k2));
                            }
                        }
                        let ghost mid = self.inner;
                        let r = self.inner.fallback_alloc(bs, bs);
                        proof {
                            crate::allocator::linked_list::lemma_norm_identity(bs as int);
                            assert forall|d: int|
                                0 <= d < self.inner.lists_allocator@.len() implies (
                            #[trigger] self.inner.lists_allocator@[d])@ == (old(
                                self,
                            ).inner.lists_allocator@[d])@ by {
                                assert(self.inner.lists_allocator@[d] == mid.lists_allocator@[d]);
                            }
                        }
                        r
                    },
                }
            },
            None => self.inner.fallback_alloc(size, align),
        }
    }

    /// The global free hook for the size-classed strategy: recompute the
    /// class from the original request layout and push the block back
    /// onto that class's stack, or hand an oversize block back to the
    /// fallback allocator. The caller frees exactly what it was handed:
    /// `ptr` with the allocation's original layout, at most once before
    /// the block is served again — a class block about to be freed is
    /// never already sitting free on its stack.
    pub fn free(&mut self, ptr: usize, size: usize, align: usize)
        requires
            old(self).inner.wf(),
            align > 0,
            is_power_of_two(align as int),
            size <= usize::MAX / 2,
            align <= usize::MAX / 2,
            match spec_list_index(size as int, align as int) {
                Some(c) => {
                    &&& old(self).inner.fallback_allocator.heap_start <= ptr
                    &&& ptr + block_sizes()[c] <= old(self).inner.fallback_allocator.heap_end
                    &&& ptr as int % block_sizes()[c] == 0
                    &&& forall|k: int|
                        0 <= k < (old(self).inner.lists_allocator@[c])@.len() ==> #[trigger] (old(
                            self,
                        ).inner.lists_allocator@[c])@[k] != ptr
                },
                None => {
                    &&& old(self).inner.fallback_allocator.live@.dom().contains(ptr as int)
                    &&& old(self).inner.fallback_allocator.live@[ptr as int] == norm_size(
                        size as int,
                        align as int,
                    )
                },
            },
        ensures
            final(self).inner.wf(),
            fixed_free_transition(old(self).inner, final(self).inner, ptr, size as int, align as int),
    {
        let idx_opt = list_index(size, align);
        match idx_opt {
            Some(idx) => {
                self.inner.lists_allocator[idx].push(ptr);
                proof {
                    assert forall|c: int, k: int|
                        0 <= c < block_sizes().len() && 0 <= k
                            < self.inner.lists_allocator@[c]@.len() implies
                        self.inner.wf_stack_entry(c, k) by {
                        if c == idx as int && k == self.inner.lists_allocator@[c]@.len() - 1 {
                        } else {
                            assert(old(self).inner.wf_stack_entry(c, k));
                        }
                    }
                    assert forall|c: int, k1: int, k2: int|
                        0 <= c < block_sizes().len() && 0 <= k1 < k2
                            < self.inner.lists_allocator@[c]@.len() implies
                        self.inner.wf_stack_distinct(c, k1, k2) by {
                        assert(self.inner.lists_allocator@[c]@[k1] == old(
                            self,
                        ).inner.lists_allocator@[c]@[k1]);
                        if c == idx as int && k2 == self.inner.lists_allocator@[c]@.len() - 1 {
                            assert(self.inner.lists_allocator@[c]@[k2] == ptr);
                        } else {
                            assert(self.inner.lists_allocator@[c]@[k2] == old(
                                self,
                            ).inner.lists_allocator@[c]@[k2]);
                            assert(old(self).inner.wf_stack_distinct(c, k1, k2));
                        }
                    }
                }
            },
            None => {
                self.inner.fallback_allocator.deallocate(ptr, size, align);
                proof {
                    assert forall|c: int, k: int|
                        0 <= c < block_sizes().len() && 0 <= k
                            < self.inner.lists_allocator@[c]@.len() implies
                        self.inner.wf_stack_entry(c, k) by {
                        assert(old(self).inner.wf_stack_entry(c, k));
                    }
                    assert forall|c: int, k1: int, k2: int|
                        0 <= c < block_sizes().len() && 0 <= k1 < k2
                            < self.inner.lists_allocator@[c]@.len() implies
                        self.inner.wf_stack_distinct(c, k1, k2) by {
                        assert(old(self).inner.wf_stack_distinct(c, k1, k2));
                    }
                }
            },
        }
    }
}

} // verus!

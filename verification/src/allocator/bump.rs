//! The monotonic bump strategy: a cursor that only moves forward, and a
//! live-allocation counter whose return to zero is the single reclamation
//! event, resetting the cursor to the heap start.

use vstd::prelude::*;
use crate::allocator::{lemma_align_up_properties, spec_align_up, Locked};

verus! {

/// The bump strategy's state: heap bounds, the next-free cursor, and how
/// many allocations are outstanding.
pub struct BumpAllocator {
    pub heap_start: usize,
    pub heap_end: usize,
    pub next: usize,
    pub allocations: usize,
}

impl BumpAllocator {
    /// The cursor stays inside the heap, and sits at the heap start
    /// whenever nothing is outstanding.
    pub open spec fn wf(self) -> bool {
        &&& self.heap_start <= self.next <= self.heap_end
        &&& (self.allocations == 0 ==> self.next == self.heap_start)
    }

    /// An empty bump allocator that owns no heap yet.
    pub fn new() -> (r: BumpAllocator)
        ensures
            r.heap_start == 0,
            r.heap_end == 0,
            r.next == 0,
            r.allocations == 0,
            r.wf(),
    {
        BumpAllocator { heap_start: 0, heap_end: 0, next: 0, allocations: 0 }
    }

    /// Hands the allocator its heap; the cursor starts at the heap start.
    /// To be called exactly once, before any allocation.
    pub fn init(&mut self, heap_start: usize, heap_size: usize)
        requires
            old(self).allocations == 0,
            heap_start + heap_size <= usize::MAX,
        ensures
            final(self).heap_start == heap_start,
            final(self).heap_end == heap_start + heap_size,
            final(self).next == heap_start,
            final(self).allocations == 0,
            final(self).wf(),
    {
        self.heap_start = heap_start;
        self.heap_end = heap_start + heap_size;
        self.next = heap_start;
    }
}

/// What one bump allocation does: the cursor is rounded up to the
/// alignment; if the request then fits before the heap end, that span is
/// reserved, the cursor advances past it and the counter grows, else the
/// state is untouched and the request fails — no reuse is ever attempted.
pub open spec fn bump_alloc_transition(
    pre: BumpAllocator,
    post: BumpAllocator,
    size: int,
    align: int,
    r: Option<usize>,
) -> bool {
    let start = spec_align_up(pre.next as int, align);
    if start + size <= pre.heap_end {
        &&& r is Some
        &&& r.unwrap() == start
        &&& post.heap_start == pre.heap_start
        &&& post.heap_end == pre.heap_end
        &&& post.next == start + size
        &&& post.allocations == pre.allocations + 1
    } else {
        &&& r is None
        &&& post == pre
    }
}

/// What one bump free does: the counter shrinks by one; when it reaches
/// zero the cursor snaps back to the heap start — the only reclamation
/// this strategy has — and otherwise nothing moves.
pub open spec fn bump_free_transition(pre: BumpAllocator, post: BumpAllocator) -> bool {
    &&& post.heap_start == pre.heap_start
    &&& post.heap_end == pre.heap_end
    &&& post.allocations == pre.allocations - 1
    &&& post.next == if post.allocations == 0 {
        pre.heap_start as int
    } else {
        pre.next as int
    }
}

impl Locked<BumpAllocator> {
    /// Hands the wrapped allocator its heap; see [`BumpAllocator::init`].
    pub fn init(&mut self, heap_start: usize, heap_size: usize)
        requires
            old(self).inner.allocations == 0,
            heap_start + heap_size <= usize::MAX,
        ensures
            final(self).inner.heap_start == heap_start,
            final(self).inner.heap_end == heap_start + heap_size,
            final(self).inner.next == heap_start,
            final(self).inner.allocations == 0,
            final(self).inner.wf(),
    {
        self.lock().init(heap_start, heap_size);
    }

    /// Reserves `[aligned cursor, aligned cursor + size)` if it fits,
    /// advancing the cursor; fails without reuse otherwise.
    pub fn allocate(&mut self, size: usize, align: usize) -> (r: Option<usize>)
        requires
            old(self).inner.wf(),
            align > 0,
            old(self).inner.allocations < usize::MAX,
        ensures
            final(self).inner.wf(),
            bump_alloc_transition(old(self).inner, final(self).inner, size as int, align as int, r),
    {
        proof {
            lemma_align_up_properties(self.inner.next as int, align as int);
        }
        let rem = self.inner.next % align;
        let start_opt = if rem == 0 {
            Some(self.inner.next)
        } else {
            self.inner.next.checked_add(align - rem)
        };
        let start = match start_opt {
            Some(s) => s,
            None => {
                return None;
            },
        };
        let end = match start.checked_add(size) {
            Some(e) => e,
            None => {
                return None;
            },
        };
        if end > self.inner.heap_end {
            return None;
        }
        self.inner.next = end;
        self.inner.allocations = self.inner.allocations + 1;
        Some(start)
    }

    /// Releases one outstanding allocation. Only when the last
    /// outstanding allocation is freed does the cursor reset to the heap
    /// start; until then every freed span stays unusable.
    pub fn free(&mut self, ptr: usize, size: usize, align: usize)
        requires
            old(self).inner.wf(),
            old(self).inner.allocations >= 1,
        ensures
            final(self).inner.wf(),
            bump_free_transition(old(self).inner, final(self).inner),
    {
        self.inner.allocations = self.inner.allocations - 1;
        if self.inner.allocations == 0 {
            self.inner.next = self.inner.heap_start;
        }
    }
}

/// Law: starting from a drained bump allocator, allocate A then B, free
/// them both (in either role order: two frees drain the counter), and
/// the next allocation at A's alignment is handed A's exact starting
/// offset. The counter reaches zero only at the second free: after the
/// first, the cursor has not moved.
pub proof fn lemma_bump_drain_reuses_first_offset(
    b0: BumpAllocator,
    b1: BumpAllocator,
    b2: BumpAllocator,
    b3: BumpAllocator,
    b4: BumpAllocator,
    b5: BumpAllocator,
    sa: int,
    aa: int,
    sb: int,
    ab: int,
    s2: int,
    pa: Option<usize>,
    pb: Option<usize>,
    p2: Option<usize>,
)
    requires
        b0.wf(),
        b0.allocations == 0,
        aa > 0,
        ab > 0,
        0 <= s2 <= sa,
        bump_alloc_transition(b0, b1, sa, aa, pa),
        pa is Some,
        bump_alloc_transition(b1, b2, sb, ab, pb),
        pb is Some,
        bump_free_transition(b2, b3),
        bump_free_transition(b3, b4),
        bump_alloc_transition(b4, b5, s2, aa, p2),
    ensures
        b3.allocations == 1 && b3.next == b2.next,
        b4.allocations == 0 && b4.next == b4.heap_start,
        p2 is Some && p2.unwrap() == pa.unwrap(),
{
    lemma_align_up_properties(b0.next as int, aa);
    lemma_align_up_properties(b4.next as int, aa);
}

} // verus!

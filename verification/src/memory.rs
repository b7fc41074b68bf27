//! Physical memory: the boot memory map, the frame allocator that hands out
//! usable 4096-byte frames one at a time, and the four-level page-table
//! model with its translator and mapper.
//!
//! The page-table hierarchy that hardware keeps in physical memory is held
//! here as owned nested tables, each tagged with the base address of the
//! frame that holds it, so every walk and every update is over plain values.

use vstd::prelude::*;

verus! {

/// Size of a physical frame and of a virtual page, in bytes.
pub const PAGE_SIZE: u64 = 4096;

/// What the boot memory map says a physical region is used for. Only
/// usable regions may serve frame allocation.
#[derive(Clone, Copy, PartialEq, Eq, Structural)]
pub enum MemoryRegionKind {
    Usable,
    Reserved,
}

/// One record of the boot memory map: the physical addresses
/// `[start, end)` and how the region may be used. Read-only input.
#[derive(Clone, Copy, PartialEq, Eq, Structural)]
pub struct MemoryRegion {
    pub start: u64,
    pub end: u64,
    pub kind: MemoryRegionKind,
}

/// A 4096-byte, page-aligned unit of physical memory, identified by its
/// starting physical address.
#[derive(Clone, Copy, PartialEq, Eq, Structural)]
pub struct PhysFrame {
    pub start: u64,
}

impl PhysFrame {
    /// The physical address at which the frame begins.
    pub fn start_address(&self) -> (r: u64)
        ensures
            r == self.start,
    {
        self.start
    }
}

/// How many whole frames a region contributes: usable regions are carved
/// into 4096-byte strides, other regions contribute none.
pub open spec fn region_frames(r: MemoryRegion) -> int {
    if r.kind is Usable && r.start <= r.end {
        (r.end - r.start) / (PAGE_SIZE as int)
    } else {
        0
    }
}

/// Total number of usable frames the whole memory map offers.
pub open spec fn total_frames(regions: Seq<MemoryRegion>) -> int
    decreases regions.len(),
{
    if regions.len() == 0 {
        0
    } else {
        region_frames(regions[0]) + total_frames(regions.drop_first())
    }
}

/// The starting address of the `n`th usable frame, counting region by
/// region in map order and frame by frame inside each region.
pub open spec fn nth_frame(regions: Seq<MemoryRegion>, n: int) -> int
    decreases regions.len(),
{
    if regions.len() == 0 {
        0
    } else if n < region_frames(regions[0]) {
        regions[0].start + (PAGE_SIZE as int) * n
    } else {
        nth_frame(regions.drop_first(), n - region_frames(regions[0]))
    }
}

/// A well-formed boot memory map: every region is page-aligned and ordered
/// inside itself, and the usable regions appear in increasing address
/// order without overlap.
pub open spec fn wf_memory_map(regions: Seq<MemoryRegion>) -> bool {
    &&& forall|i: int|
        0 <= i < regions.len() ==> (#[trigger] regions[i]).start % (PAGE_SIZE as u64) == 0
            && regions[i].end % (PAGE_SIZE as u64) == 0 && regions[i].start <= regions[i].end
    &&& forall|i: int, j: int|
        0 <= i < j < regions.len() && (#[trigger] regions[i]).kind is Usable
            && (#[trigger] regions[j]).kind is Usable ==> regions[i].end <= regions[j].start
}

/// A memory map never offers a negative number of frames.
proof fn lemma_total_frames_nonneg(regions: Seq<MemoryRegion>)
    ensures
        total_frames(regions) >= 0,
    decreases regions.len(),
{
    if regions.len() > 0 {
        lemma_total_frames_nonneg(regions.drop_first());
        if regions[0].kind is Usable && regions[0].start <= regions[0].end {
            vstd::arithmetic::div_mod::lemma_div_pos_is_pos(
                regions[0].end - regions[0].start,
                PAGE_SIZE as int,
            );
        }
    }
}

/// Frame `n` of a usable region lies wholly inside that region.
proof fn lemma_nth_in_region(r: MemoryRegion, n: int)
    requires
        r.start <= r.end,
        0 <= n < region_frames(r),
    ensures
        r.start + (PAGE_SIZE as int) * n + PAGE_SIZE <= r.end,
{
    let c = region_frames(r);
    vstd::arithmetic::div_mod::lemma_fundamental_div_mod(r.end - r.start, PAGE_SIZE as int);
    vstd::arithmetic::div_mod::lemma_mod_bound(r.end - r.start, PAGE_SIZE as int);
    assert((PAGE_SIZE as int) * n + PAGE_SIZE <= (PAGE_SIZE as int) * c) by (nonlinear_arith)
        requires
            n < c,
    ;
}

/// Every usable frame of a map whose usable regions all start at or above
/// `b` itself lies at or above `b`.
proof fn lemma_nth_frame_lower_bound(regions: Seq<MemoryRegion>, n: int, b: int)
    requires
        0 <= n < total_frames(regions),
        forall|i: int|
            0 <= i < regions.len() && (#[trigger] regions[i]).kind is Usable ==> b <= regions[i].start,
        forall|i: int|
            0 <= i < regions.len() ==> (#[trigger] regions[i]).start <= regions[i].end,
    ensures
        b <= nth_frame(regions, n),
    decreases regions.len(),
{
    let c0 = region_frames(regions[0]);
    if n < c0 {
        assert(regions[0].kind is Usable);
        assert((PAGE_SIZE as int) * n >= 0) by (nonlinear_arith)
            requires
                n >= 0,
        ;
    } else {
        lemma_nth_frame_lower_bound(regions.drop_first(), n - c0, b);
    }
}

/// Frames come out in strictly increasing address order: two distinct
/// cursor positions name two distinct frames.
pub proof fn lemma_nth_frame_increasing(regions: Seq<MemoryRegion>, n: int, m: int)
    requires
        wf_memory_map(regions),
        0 <= n < m < total_frames(regions),
    ensures
        nth_frame(regions, n) + PAGE_SIZE <= nth_frame(regions, m),
    decreases regions.len(),
{
    let r0 = regions[0];
    let c0 = region_frames(r0);
    let rest = regions.drop_first();
    assert(wf_memory_map(rest)) by {
        assert forall|i: int, j: int|
            0 <= i < j < rest.len() && (#[trigger] rest[i]).kind is Usable
                && (#[trigger] rest[j]).kind is Usable implies rest[i].end <= rest[j].start by {
            assert(rest[i] == regions[i + 1]);
            assert(rest[j] == regions[j + 1]);
        }
        assert forall|i: int| 0 <= i < rest.len() implies (#[trigger] rest[i]).start % (
        PAGE_SIZE as u64) == 0 && rest[i].end % (PAGE_SIZE as u64) == 0 && rest[i].start
            <= rest[i].end by {
            assert(rest[i] == regions[i + 1]);
        }
    }
    if m < c0 {
        assert((PAGE_SIZE as int) * n < (PAGE_SIZE as int) * m) by (nonlinear_arith)
            requires
                n < m,
        ;
        assert((PAGE_SIZE as int) * n + PAGE_SIZE <= (PAGE_SIZE as int) * m) by (nonlinear_arith)
            requires
                n < m,
        ;
    } else if n < c0 {
        assert(r0.kind is Usable);
        lemma_nth_in_region(r0, n);
        assert forall|i: int|
            0 <= i < rest.len() && (#[trigger] rest[i]).kind is Usable implies r0.end
            <= rest[i].start by {
            assert(rest[i] == regions[i + 1]);
        }
        lemma_nth_frame_lower_bound(rest, m - c0, r0.end as int);
    } else {
        lemma_nth_frame_increasing(rest, n - c0, m - c0);
    }
}

/// A frame source that owns nothing: every request fails. It serves paths
/// that must refuse to allocate intermediate page tables.
pub struct EmptyFrameAllocator;

impl EmptyFrameAllocator {
    /// Always reports exhaustion.
    pub fn allocate_frame(&mut self) -> (r: Option<PhysFrame>)
        ensures
            r is None,
    {
        None
    }
}

/// The boot-supplied frame allocator: filters the memory map to usable
/// regions, flattens them into 4096-byte-stride candidates, and serves the
/// `next`th candidate, advancing the cursor on every call.
pub struct BootInfoFrameAllocator {
    pub memory_map: Vec<MemoryRegion>,
    pub next: usize,
}

impl BootInfoFrameAllocator {
    /// Builds the allocator over a boot memory map. The caller vouches for
    /// the map: page-aligned regions, usable ones ordered and disjoint.
    pub fn new(memory_map: Vec<MemoryRegion>) -> (r: BootInfoFrameAllocator)
        requires
            wf_memory_map(memory_map@),
        ensures
            r.memory_map == memory_map,
            r.next == 0,
    {
        BootInfoFrameAllocator { memory_map, next: 0 }
    }

    /// The `n`th usable frame candidate of the map, or `None` when fewer
    /// than `n + 1` usable frames exist.
    pub fn usable_frame(&self, n: usize) -> (r: Option<PhysFrame>)
        requires
            wf_memory_map(self.memory_map@),
        ensures
            n < total_frames(self.memory_map@) ==> r is Some && r.unwrap().start == nth_frame(
                self.memory_map@,
                n as int,
            ),
            n >= total_frames(self.memory_map@) ==> r is None,
    {
        let regions = &self.memory_map;
        let ghost all = self.memory_map@;
        let mut rem: u64 = n as u64;
        let mut i: usize = 0;
        proof {
            assert(all.skip(0) =~= all);
        }
        while i < regions.len()
            invariant
                wf_memory_map(all),
                regions@ == all,
                all == self.memory_map@,
                0 <= i <= all.len(),
                rem <= n,
                n < total_frames(all) ==> rem < total_frames(all.skip(i as int))
                    && nth_frame(all, n as int) == nth_frame(all.skip(i as int), rem as int),
                n >= total_frames(all) ==> rem >= total_frames(all.skip(i as int)),
            decreases regions@.len() - i,
        {
            let r = regions[i];
            let ghost sub = all.skip(i as int);
            proof {
                assert(sub[0] == all[i as int]);
                assert(sub.drop_first() =~= all.skip(i as int + 1));
            }
            let count: u64 = match r.kind {
                MemoryRegionKind::Usable => (r.end - r.start) / PAGE_SIZE,
                MemoryRegionKind::Reserved => 0,
            };
            if rem < count {
                proof {
                    assert(all[i as int].start <= all[i as int].end);
                    assert(count as int == region_frames(sub[0]));
                    lemma_nth_in_region(r, rem as int);
                    lemma_total_frames_nonneg(sub.drop_first());
                    assert(total_frames(sub) == region_frames(sub[0]) + total_frames(
                        sub.drop_first(),
                    ));
                    assert(rem < total_frames(sub));
                    assert(n < total_frames(all));
                    assert(nth_frame(sub, rem as int) == sub[0].start + (PAGE_SIZE as int) * (
                    rem as int));
                    assert(nth_frame(all, n as int) == r.start + (PAGE_SIZE as int) * (
                    rem as int));
                }
                let found = PhysFrame { start: r.start + PAGE_SIZE * rem };
                proof {
                    assert(found.start == nth_frame(all, n as int));
                    assert(n < total_frames(all));
                }
                return Some(found);
            }
            rem = rem - count;
            i = i + 1;
        }
        proof {
            assert(all.skip(i as int) =~= Seq::<MemoryRegion>::empty());
        }
        None
    }

    /// Every frame candidate is page-aligned: regions start aligned and
    /// candidates advance in whole-page strides.
    proof fn lemma_nth_frame_aligned(regions: Seq<MemoryRegion>, n: int)
        requires
            0 <= n < total_frames(regions),
            forall|i: int|
                0 <= i < regions.len() ==> (#[trigger] regions[i]).start % (PAGE_SIZE as u64) == 0,
        ensures
            nth_frame(regions, n) % (PAGE_SIZE as int) == 0,
        decreases regions.len(),
    {
        let c0 = region_frames(regions[0]);
        if n < c0 {
            vstd::arithmetic::div_mod::lemma_mod_multiples_vanish(
                n,
                regions[0].start as int,
                PAGE_SIZE as int,
            );
        } else {
            Self::lemma_nth_frame_aligned(regions.drop_first(), n - c0);
        }
    }

    /// Serves the frame at the cursor and advances the cursor, whether or
    /// not a frame was left to serve: a failed call also consumes a step,
    /// so exhaustion is permanent.
    pub fn allocate_frame(&mut self) -> (r: Option<PhysFrame>)
        requires
            wf_memory_map(old(self).memory_map@),
            old(self).next < usize::MAX,
        ensures
            final(self).memory_map == old(self).memory_map,
            final(self).next == old(self).next + 1,
            old(self).next < total_frames(old(self).memory_map@) ==> r is Some
                && r.unwrap().start == nth_frame(old(self).memory_map@, old(self).next as int)
                && r.unwrap().start % (PAGE_SIZE as u64) == 0,
            old(self).next >= total_frames(old(self).memory_map@) ==> r is None,
    {
        let frame = self.usable_frame(self.next);
        proof {
            if self.next < total_frames(self.memory_map@) {
                Self::lemma_nth_frame_aligned(self.memory_map@, self.next as int);
            }
        }
        self.next = self.next + 1;
        frame
    }
}

/// Why a page-table walk stopped: the entry for the address is absent,
/// or a huge-page entry was met, a capability this design never produces
/// and must treat as fatal rather than misread.
#[derive(Clone, Copy, PartialEq, Eq, Structural, Debug)]
pub enum FrameError {
    FrameNotPresent,
    HugeFrame,
}

/// Why a mapping could not be installed.
#[derive(Clone, Copy, PartialEq, Eq, Structural, Debug)]
pub enum MapToError {
    FrameAllocationFailed,
    ParentEntryHugePage,
    PageAlreadyMapped,
}

/// The flags a mapping is installed with: a mapping is always present,
/// and writable unless read-only semantics are explicitly wanted.
#[derive(Clone, Copy, PartialEq, Eq, Structural)]
pub struct PageTableFlags {
    pub present: bool,
    pub writable: bool,
}

/// One page-table entry. A `Frame` entry at the lowest level maps a
/// 4096-byte page; a `Frame` entry at any higher level is a huge page,
/// representable here but never produced by this mapper. A `Table` entry
/// points to the next lower table, which this model holds inline,
/// tagged with the physical base address of the frame that holds it on
/// the machine.
pub enum PageTableEntry {
    NotPresent,
    Frame { addr: u64, writable: bool },
    Table { addr: u64, writable: bool, table: PageTable },
}

/// One page table: 512 entries.
pub struct PageTable {
    pub entries: Vec<PageTableEntry>,
}

/// The nine-bit slice of the virtual address that indexes the table at
/// `level`, counted from the most significant slice (level 4) down to
/// the one just above the page offset (level 1).
pub open spec fn table_index(vaddr: u64, level: int) -> u64 {
    if level == 1 {
        (vaddr >> 12) & 0x1ff
    } else if level == 2 {
        (vaddr >> 21) & 0x1ff
    } else if level == 3 {
        (vaddr >> 30) & 0x1ff
    } else {
        (vaddr >> 39) & 0x1ff
    }
}

/// Each table index is a valid position in a 512-entry table.
pub proof fn lemma_table_index_bound(vaddr: u64, level: int)
    ensures
        table_index(vaddr, level) < 512,
{
    assert((vaddr >> 12) & 0x1ff < 512) by (bit_vector);
    assert((vaddr >> 21) & 0x1ff < 512) by (bit_vector);
    assert((vaddr >> 30) & 0x1ff < 512) by (bit_vector);
    assert((vaddr >> 39) & 0x1ff < 512) by (bit_vector);
}

/// The low twelve bits: the byte's position inside its page.
pub open spec fn page_offset(vaddr: u64) -> u64 {
    vaddr & 0xfff
}

/// A well-formed table at `level`: 512 entries, every recorded physical
/// base page-aligned, and every child table well-formed one level down.
pub open spec fn wf_table(t: PageTable, level: int) -> bool
    decreases level, 1int,
{
    &&& t.entries@.len() == 512
    &&& level >= 1
    &&& forall|i: int| 0 <= i < 512 ==> wf_entry(#[trigger] t.entries@[i], level)
}

/// A well-formed entry at `level`; `Table` entries exist only above the
/// lowest level.
pub open spec fn wf_entry(e: PageTableEntry, level: int) -> bool
    decreases level, 0int,
{
    match e {
        PageTableEntry::NotPresent => true,
        PageTableEntry::Frame { addr, .. } => addr % (PAGE_SIZE as u64) == 0,
        PageTableEntry::Table { addr, table, .. } => addr % (PAGE_SIZE as u64) == 0 && level >= 2
            && wf_table(table, level - 1),
    }
}

/// The four-level walk from the table at `level` down: at each level the
/// entry picked by the address's index slice either stops the walk
/// (absent, or a huge page) or names the next table; at the lowest level
/// a `Frame` entry yields the mapped frame's base address.
pub open spec fn walk(t: PageTable, level: int, vaddr: u64) -> Result<u64, FrameError>
    decreases level,
{
    let idx = table_index(vaddr, level) as int;
    if idx < 0 || idx >= t.entries@.len() {
        Err(FrameError::FrameNotPresent)
    } else {
        match t.entries@[idx] {
            PageTableEntry::NotPresent => Err(FrameError::FrameNotPresent),
            PageTableEntry::Frame { addr, .. } => if level == 1 {
                Ok(addr)
            } else {
                Err(FrameError::HugeFrame)
            },
            PageTableEntry::Table { table, .. } => if level <= 1 {
                Err(FrameError::FrameNotPresent)
            } else {
                walk(table, level - 1, vaddr)
            },
        }
    }
}

/// Two addresses take the same table slots at every level from `level`
/// down to 1 — they name the same page within that subtree.
pub open spec fn same_path(v1: u64, v2: u64, level: int) -> bool {
    forall|l: int| 1 <= l <= level ==> #[trigger] table_index(v1, l) == table_index(v2, l)
}

/// Whether the walk for `vaddr` ends in a present, writable mapping:
/// the flag the mapping was installed with, `false` wherever no mapping
/// is present.
pub open spec fn walk_writable(t: PageTable, level: int, vaddr: u64) -> bool
    decreases level,
{
    let idx = table_index(vaddr, level) as int;
    if idx < 0 || idx >= t.entries@.len() {
        false
    } else {
        match t.entries@[idx] {
            PageTableEntry::NotPresent => false,
            PageTableEntry::Frame { writable, .. } => level == 1 && writable,
            PageTableEntry::Table { table, .. } => level > 1 && walk_writable(
                table,
                level - 1,
                vaddr,
            ),
        }
    }
}

/// How many intermediate tables a mapping of `vaddr` still has to
/// create below the table at `level`.
pub open spec fn missing_tables(t: PageTable, level: int, vaddr: u64) -> int
    decreases level,
{
    let idx = table_index(vaddr, level) as int;
    if level <= 1 || idx < 0 || idx >= t.entries@.len() {
        0
    } else {
        match t.entries@[idx] {
            PageTableEntry::NotPresent => level - 1,
            PageTableEntry::Frame { .. } => 0,
            PageTableEntry::Table { table, .. } => missing_tables(table, level - 1, vaddr),
        }
    }
}

/// A mapping never needs more tables than there are levels below the
/// current one.
pub proof fn lemma_missing_tables_bound(t: PageTable, level: int, vaddr: u64)
    requires
        level >= 1,
    ensures
        0 <= missing_tables(t, level, vaddr) <= level - 1,
    decreases level,
{
    let idx = table_index(vaddr, level) as int;
    if !(level <= 1 || idx < 0 || idx >= t.entries@.len()) {
        match t.entries@[idx] {
            PageTableEntry::Table { table, .. } => {
                lemma_missing_tables_bound(table, level - 1, vaddr);
            },
            _ => {},
        }
    }
}

/// Two distinct page-aligned canonical addresses part ways at some
/// level: their four index slices cannot all agree.
pub proof fn lemma_distinct_pages_differ(v1: u64, v2: u64)
    requires
        v1 % 4096 == 0,
        v2 % 4096 == 0,
        v1 < 0x1000000000000,
        v2 < 0x1000000000000,
        v1 != v2,
    ensures
        !same_path(v1, v2, 4),
{
    if same_path(v1, v2, 4) {
        assert(table_index(v1, 1) == table_index(v2, 1));
        assert(table_index(v1, 2) == table_index(v2, 2));
        assert(table_index(v1, 3) == table_index(v2, 3));
        assert(table_index(v1, 4) == table_index(v2, 4));
        assert(v1 == v2) by (bit_vector)
            requires
                (v1 >> 12) & 0x1ff == (v2 >> 12) & 0x1ff,
                (v1 >> 21) & 0x1ff == (v2 >> 21) & 0x1ff,
                (v1 >> 30) & 0x1ff == (v2 >> 30) & 0x1ff,
                (v1 >> 39) & 0x1ff == (v2 >> 39) & 0x1ff,
                v1 % 4096 == 0,
                v2 % 4096 == 0,
                v1 < 0x1000000000000,
                v2 < 0x1000000000000,
        ;
    }
}

/// The nine-bit index slice, computed for the running walk.
fn table_index_exec(vaddr: u64, level: u64) -> (r: usize)
    requires
        1 <= level <= 4,
    ensures
        r == table_index(vaddr, level as int),
        r < 512,
    no_unwind
{
    proof {
        lemma_table_index_bound(vaddr, level as int);
    }
    let shifted: u64 = match level {
        1 => (vaddr >> 12) & 0x1ff,
        2 => (vaddr >> 21) & 0x1ff,
        3 => (vaddr >> 30) & 0x1ff,
        _ => (vaddr >> 39) & 0x1ff,
    };
    shifted as usize
}

/// A table with every entry absent, well-formed at any level.
fn empty_table() -> (r: PageTable)
    ensures
        r.entries@.len() == 512,
        forall|i: int| 0 <= i < 512 ==> r.entries@[i] is NotPresent,
        forall|lvl: int| lvl >= 1 ==> wf_table(r, lvl),
{
    let mut entries: Vec<PageTableEntry> = Vec::new();
    let mut i: usize = 0;
    while i < 512
        invariant
            i <= 512,
            entries@.len() == i,
            forall|j: int| 0 <= j < i ==> entries@[j] is NotPresent,
        decreases 512 - i,
    {
        entries.push(PageTableEntry::NotPresent);
        i = i + 1;
    }
    let r = PageTable { entries };
    proof {
        assert forall|lvl: int| lvl >= 1 implies wf_table(r, lvl) by {
            assert forall|k: int| 0 <= k < 512 implies wf_entry(#[trigger] r.entries@[k], lvl) by {
                assert(r.entries@[k] is NotPresent);
            }
        }
    }
    r
}

/// The address translator and mapper over the four-level hierarchy,
/// rooted at the active level-4 table.
pub struct Mapper {
    pub level_4_table: PageTable,
}

/// The translation token handed back by a successful mapping: before the
/// page's first use, the translation cache entry for it must be
/// invalidated. This model keeps no such cache, so the flush itself has
/// nothing left to do; the token survives so no caller can forget the
/// obligation.
#[must_use]
pub struct MapperFlush {
    pub page: u64,
}

impl MapperFlush {
    /// Invalidates the stale cached translation for the mapped page.
    pub fn flush(self) {
    }
}

impl Mapper {
    /// Every table reachable from the root is well-formed.
    pub open spec fn wf(self) -> bool {
        wf_table(self.level_4_table, 4)
    }

    /// A mapper over a fresh, empty level-4 table: nothing mapped.
    pub fn new() -> (r: Mapper)
        ensures
            r.wf(),
            forall|v: u64| walk(r.level_4_table, 4, v) == Err::<u64, FrameError>(
                FrameError::FrameNotPresent,
            ),
    {
        let t = empty_table();
        let r = Mapper { level_4_table: t };
        proof {
            assert forall|v: u64| walk(r.level_4_table, 4, v) == Err::<u64, FrameError>(
                FrameError::FrameNotPresent,
            ) by {
                lemma_table_index_bound(v, 4);
                assert(r.level_4_table.entries@[table_index(v, 4) as int] is NotPresent);
            }
        }
        r
    }

    /// Installs the translation `page -> frame`, allocating any missing
    /// intermediate tables from `frame_allocator`. Fails without
    /// changing any translation: when the page is already mapped, when a
    /// huge-page entry blocks the walk, or when frames run out
    /// mid-walk; and succeeds exactly otherwise, provided enough frames
    /// remain. No translation of any other page ever changes.
    pub fn map_to(
        &mut self,
        page: u64,
        frame: PhysFrame,
        flags: PageTableFlags,
        frame_allocator: &mut BootInfoFrameAllocator,
    ) -> (r: Result<MapperFlush, MapToError>)
        requires
            old(self).wf(),
            wf_memory_map(old(frame_allocator).memory_map@),
            old(frame_allocator).next + 4 <= usize::MAX,
            frame.start % (PAGE_SIZE as u64) == 0,
            flags.present,
        ensures
            final(self).wf(),
            final(frame_allocator).memory_map == old(frame_allocator).memory_map,
            old(frame_allocator).next <= final(frame_allocator).next <= old(frame_allocator).next
                + 3,
            forall|v: u64|
                !same_path(v, page, 4) ==> walk(final(self).level_4_table, 4, v) == walk(
                    old(self).level_4_table,
                    4,
                    v,
                ) && walk_writable(final(self).level_4_table, 4, v) == walk_writable(
                    old(self).level_4_table,
                    4,
                    v,
                ),
            r is Ok ==> walk(final(self).level_4_table, 4, page) == Ok::<u64, FrameError>(
                frame.start,
            ) && walk_writable(final(self).level_4_table, 4, page) == flags.writable && walk(
                old(self).level_4_table,
                4,
                page,
            ) == Err::<u64, FrameError>(FrameError::FrameNotPresent) && final(frame_allocator).next
                == old(frame_allocator).next + missing_tables(old(self).level_4_table, 4, page)
                && r.unwrap().page == page,
            r == Err::<MapperFlush, MapToError>(MapToError::PageAlreadyMapped) ==> walk(
                old(self).level_4_table,
                4,
                page,
            ) is Ok && (forall|v: u64|
                walk(final(self).level_4_table, 4, v) == walk(old(self).level_4_table, 4, v))
                && *final(frame_allocator) == *old(frame_allocator),
            r == Err::<MapperFlush, MapToError>(MapToError::ParentEntryHugePage) ==> walk(
                old(self).level_4_table,
                4,
                page,
            ) == Err::<u64, FrameError>(FrameError::HugeFrame) && (forall|v: u64|
                walk(final(self).level_4_table, 4, v) == walk(old(self).level_4_table, 4, v))
                && *final(frame_allocator) == *old(frame_allocator),
            r == Err::<MapperFlush, MapToError>(MapToError::FrameAllocationFailed) ==> walk(
                old(self).level_4_table,
                4,
                page,
            ) == Err::<u64, FrameError>(FrameError::FrameNotPresent) && (forall|v: u64|
                walk(final(self).level_4_table, 4, v) == walk(old(self).level_4_table, 4, v))
                && old(frame_allocator).next + missing_tables(old(self).level_4_table, 4, page)
                > total_frames(old(frame_allocator).memory_map@),
    {
        match map_to_rec(&mut self.level_4_table, 4, page, frame, flags, frame_allocator) {
            Ok(()) => Ok(MapperFlush { page }),
            Err(e) => Err(e),
        }
    }
}

/// What translating an address yields: the mapped frame's base plus the
/// address's page offset, or nothing when the address is unmapped or
/// blocked by a huge-page entry.
pub open spec fn translate_spec(m: Mapper, virt_addr: u64) -> Option<u64> {
    match walk(m.level_4_table, 4, virt_addr) {
        Ok(f) => Some((f + page_offset(virt_addr)) as u64),
        Err(_) => None,
    }
}

/// A successful walk lands on a page-aligned frame base: every recorded
/// base in a well-formed hierarchy is aligned.
proof fn lemma_walk_frame_aligned(t: PageTable, level: int, vaddr: u64)
    requires
        wf_table(t, level),
        walk(t, level, vaddr) is Ok,
    ensures
        (walk(t, level, vaddr)->Ok_0) % (PAGE_SIZE as u64) == 0,
    decreases level,
{
    lemma_table_index_bound(vaddr, level);
    let idx = table_index(vaddr, level) as int;
    assert(wf_entry(t.entries@[idx], level));
    match t.entries@[idx] {
        PageTableEntry::Table { table, .. } => {
            lemma_walk_frame_aligned(table, level - 1, vaddr);
        },
        _ => {},
    }
}

/// The running four-level walk.
fn walk_table(t: &PageTable, level: u64, vaddr: u64) -> (r: Result<u64, FrameError>)
    requires
        wf_table(*t, level as int),
        1 <= level <= 4,
    ensures
        r == walk(*t, level as int, vaddr),
    decreases level,
{
    let idx = table_index_exec(vaddr, level);
    proof {
        assert(wf_entry(t.entries@[idx as int], level as int));
    }
    match &t.entries[idx] {
        PageTableEntry::NotPresent => Err(FrameError::FrameNotPresent),
        PageTableEntry::Frame { addr, .. } => {
            if level == 1 {
                Ok(*addr)
            } else {
                Err(FrameError::HugeFrame)
            }
        },
        PageTableEntry::Table { table, .. } => walk_table(table, level - 1, vaddr),
    }
}

/// The raw translation walk: descends the four levels for the address's
/// index slices and reports exactly how far it got — an absent entry as
/// `FrameNotPresent`, a huge-page entry as `HugeFrame`, and otherwise
/// the physical address the hardware would use.
pub fn translate_virtaddr_inner(mapper: &Mapper, virt_addr: u64) -> (r: Result<u64, FrameError>)
    requires
        mapper.wf(),
    ensures
        r == match walk(mapper.level_4_table, 4, virt_addr) {
            Ok(f) => Ok::<u64, FrameError>((f + page_offset(virt_addr)) as u64),
            Err(e) => Err::<u64, FrameError>(e),
        },
{
    match walk_table(&mapper.level_4_table, 4, virt_addr) {
        Ok(f) => {
            proof {
                lemma_walk_frame_aligned(mapper.level_4_table, 4, virt_addr);
                assert(f % 4096 == 0 ==> f + (virt_addr & 0xfff) <= u64::MAX) by (bit_vector);
            }
            Ok(f + (virt_addr & 0xfff))
        },
        Err(e) => Err(e),
    }
}

/// Resolves a virtual address to the physical address it is mapped at,
/// or `None` when it has no mapping. A huge-page entry on the walk is an
/// unsupported capability, fatal rather than misread: this mapper never
/// produces one, and the caller rules them out.
pub fn translate_virtaddr(mapper: &Mapper, virt_addr: u64) -> (r: Option<u64>)
    requires
        mapper.wf(),
        walk(mapper.level_4_table, 4, virt_addr) != Err::<u64, FrameError>(FrameError::HugeFrame),
    ensures
        r == translate_spec(*mapper, virt_addr),
{
    match translate_virtaddr_inner(mapper, virt_addr) {
        Ok(pa) => Some(pa),
        Err(FrameError::FrameNotPresent) => None,
        Err(FrameError::HugeFrame) => {
            proof {
                assert(false);
            }
            None
        },
    }
}

/// Maps `page` to the fixed platform frame at `0xb8000` with
/// present-and-writable flags, flushing the page's stale translation.
/// The caller supplies a page that is not yet mapped, a walk free of
/// huge entries, and enough frames for the missing tables; mapping then
/// cannot fail.
pub fn create_example_mapping(
    page: u64,
    mapper: &mut Mapper,
    page_frame_allocator: &mut BootInfoFrameAllocator,
)
    requires
        old(mapper).wf(),
        wf_memory_map(old(page_frame_allocator).memory_map@),
        old(page_frame_allocator).next + 4 <= usize::MAX,
        walk(old(mapper).level_4_table, 4, page) == Err::<u64, FrameError>(
            FrameError::FrameNotPresent,
        ),
        old(page_frame_allocator).next + missing_tables(old(mapper).level_4_table, 4, page)
            <= total_frames(old(page_frame_allocator).memory_map@),
    ensures
        final(mapper).wf(),
        final(page_frame_allocator).memory_map == old(page_frame_allocator).memory_map,
        walk(final(mapper).level_4_table, 4, page) == Ok::<u64, FrameError>(0xb8000),
        forall|v: u64|
            !same_path(v, page, 4) ==> walk(final(mapper).level_4_table, 4, v) == walk(
                old(mapper).level_4_table,
                4,
                v,
            ),
{
    let flags = PageTableFlags { present: true, writable: true };
    let frame = PhysFrame { start: 0xb8000 };
    let res = mapper.map_to(page, frame, flags, page_frame_allocator);
    match res {
        Ok(flush) => flush.flush(),
        Err(e) => {
            proof {
                lemma_missing_tables_bound(old(mapper).level_4_table, 4, page);
                assert(e == MapToError::FrameAllocationFailed || e == MapToError::PageAlreadyMapped
                    || e == MapToError::ParentEntryHugePage);
                assert(res == Err::<MapperFlush, MapToError>(e));
                assert(false);
            }
        },
    }
}

/// Law: mapping a page then immediately translating its start virtual
/// address returns a physical address equal to the mapped frame's base —
/// the walk lands on the frame and the page offset of the aligned start
/// is zero.
pub proof fn lemma_map_then_translate(m: Mapper, page: u64, frame: PhysFrame)
    requires
        page % (PAGE_SIZE as u64) == 0,
        walk(m.level_4_table, 4, page) == Ok::<u64, FrameError>(frame.start),
    ensures
        translate_spec(m, page) == Some(frame.start),
{
    assert(page % 4096 == 0 ==> page & 0xfff == 0) by (bit_vector);
}

/// One step of the mapping walk: handles the entry the address picks in
/// the table at `level`, creating the child table there if it is
/// missing, and recurses until the lowest level installs the frame.
fn map_to_rec(
    t: &mut PageTable,
    level: u64,
    vaddr: u64,
    frame: PhysFrame,
    flags: PageTableFlags,
    fa: &mut BootInfoFrameAllocator,
) -> (r: Result<(), MapToError>)
    requires
        wf_table(*old(t), level as int),
        1 <= level <= 4,
        wf_memory_map(old(fa).memory_map@),
        old(fa).next + level <= usize::MAX,
        frame.start % (PAGE_SIZE as u64) == 0,
        flags.present,
    ensures
        wf_table(*final(t), level as int),
        final(fa).memory_map == old(fa).memory_map,
        old(fa).next <= final(fa).next <= old(fa).next + (level - 1),
        forall|v: u64|
            !same_path(v, vaddr, level as int) ==> walk(*final(t), level as int, v) == walk(
                *old(t),
                level as int,
                v,
            ) && walk_writable(*final(t), level as int, v) == walk_writable(
                *old(t),
                level as int,
                v,
            ),
        r is Ok ==> walk(*final(t), level as int, vaddr) == Ok::<u64, FrameError>(frame.start)
            && walk_writable(*final(t), level as int, vaddr) == flags.writable && walk(
            *old(t),
            level as int,
            vaddr,
        ) == Err::<u64, FrameError>(FrameError::FrameNotPresent) && final(fa).next == old(fa).next
            + missing_tables(*old(t), level as int, vaddr),
        r == Err::<(), MapToError>(MapToError::PageAlreadyMapped) ==> walk(
            *old(t),
            level as int,
            vaddr,
        ) is Ok && (forall|v: u64|
            walk(*final(t), level as int, v) == walk(*old(t), level as int, v)) && *final(fa)
            == *old(fa),
        r == Err::<(), MapToError>(MapToError::ParentEntryHugePage) ==> walk(
            *old(t),
            level as int,
            vaddr,
        ) == Err::<u64, FrameError>(FrameError::HugeFrame) && (forall|v: u64|
            walk(*final(t), level as int, v) == walk(*old(t), level as int, v)) && *final(fa)
            == *old(fa),
        r == Err::<(), MapToError>(MapToError::FrameAllocationFailed) ==> walk(
            *old(t),
            level as int,
            vaddr,
        ) == Err::<u64, FrameError>(FrameError::FrameNotPresent) && (forall|v: u64|
            walk(*final(t), level as int, v) == walk(*old(t), level as int, v)) && old(fa).next
            + missing_tables(*old(t), level as int, vaddr) > total_frames(old(fa).memory_map@),
    decreases level,
{
    proof {
        lemma_table_index_bound(vaddr, level as int);
        assert(wf_entry(old(t).entries@[table_index(vaddr, level as int) as int], level as int));
    }
    let idx = table_index_exec(vaddr, level);
    if level == 1 {
        let entry = t.entries.remove(idx);
        match entry {
            PageTableEntry::NotPresent => {
                t.entries.insert(
                    idx,
                    PageTableEntry::Frame { addr: frame.start, writable: flags.writable },
                );
                proof {
                    assert(t.entries@ =~= old(t).entries@.update(
                        idx as int,
                        PageTableEntry::Frame { addr: frame.start, writable: flags.writable },
                    ));
                    assert forall|i: int| 0 <= i < 512 implies wf_entry(
                        #[trigger] t.entries@[i],
                        level as int,
                    ) by {
                        if i != idx as int {
                            assert(t.entries@[i] == old(t).entries@[i]);
                            assert(wf_entry(old(t).entries@[i], level as int));
                        }
                    }
                }
                Ok(())
            },
            PageTableEntry::Frame { addr, writable } => {
                t.entries.insert(idx, PageTableEntry::Frame { addr, writable });
                proof {
                    assert(t.entries@ =~= old(t).entries@);
                    assert forall|i: int| 0 <= i < 512 implies wf_entry(
                        #[trigger] t.entries@[i],
                        level as int,
                    ) by {
                        assert(t.entries@[i] == old(t).entries@[i]);
                        assert(wf_entry(old(t).entries@[i], level as int));
                    }
                }
                Err(MapToError::PageAlreadyMapped)
            },
            PageTableEntry::Table { addr, writable, table } => {
                proof {
                    assert(false);
                }
                t.entries.insert(idx, PageTableEntry::Table { addr, writable, table });
                Err(MapToError::PageAlreadyMapped)
            },
        }
    } else {
        let entry = t.entries.remove(idx);
        match entry {
            PageTableEntry::Frame { addr, writable } => {
                t.entries.insert(idx, PageTableEntry::Frame { addr, writable });
                proof {
                    assert(t.entries@ =~= old(t).entries@);
                    assert forall|i: int| 0 <= i < 512 implies wf_entry(
                        #[trigger] t.entries@[i],
                        level as int,
                    ) by {
                        assert(t.entries@[i] == old(t).entries@[i]);
                        assert(wf_entry(old(t).entries@[i], level as int));
                    }
                }
                Err(MapToError::ParentEntryHugePage)
            },
            PageTableEntry::NotPresent => {
                match fa.allocate_frame() {
                    None => {
                        t.entries.insert(idx, PageTableEntry::NotPresent);
                        proof {
                            let lvl = level as int;
                            assert(t.entries@ =~= old(t).entries@);
                            assert forall|i: int| 0 <= i < 512 implies wf_entry(
                                #[trigger] t.entries@[i],
                                lvl,
                            ) by {
                                assert(t.entries@[i] == old(t).entries@[i]);
                                assert(wf_entry(old(t).entries@[i], lvl));
                            }
                            assert forall|v: u64| walk(*t, lvl, v) == walk(*old(t), lvl, v) by {
                                lemma_table_index_bound(v, lvl);
                                assert(t.entries@[table_index(v, lvl) as int] == old(
                                    t,
                                ).entries@[table_index(v, lvl) as int]);
                            }
                            assert(missing_tables(*old(t), lvl, vaddr) == lvl - 1);
                        }
                        Err(MapToError::FrameAllocationFailed)
                    },
                    Some(table_frame) => {
                        let mut child = empty_table();
                        let ghost child0 = child;
                        let res = map_to_rec(&mut child, level - 1, vaddr, frame, flags, fa);
                        let ghost childv = child;
                        t.entries.insert(
                            idx,
                            PageTableEntry::Table {
                                addr: table_frame.start,
                                writable: true,
                                table: child,
                            },
                        );
                        proof {
                            let lvl = level as int;
                            assert((level - 1) as int == lvl - 1);
                            let newentry = PageTableEntry::Table {
                                addr: table_frame.start,
                                writable: true,
                                table: childv,
                            };
                            assert(t.entries@ =~= old(t).entries@.update(idx as int, newentry));
                            assert forall|i: int| 0 <= i < 512 implies wf_entry(
                                #[trigger] t.entries@[i],
                                lvl,
                            ) by {
                                if i != idx as int {
                                    assert(t.entries@[i] == old(t).entries@[i]);
                                    assert(wf_entry(old(t).entries@[i], lvl));
                                }
                            }
                            assert forall|v: u64| !same_path(v, vaddr, lvl) implies walk(
                                *t,
                                lvl,
                                v,
                            ) == walk(*old(t), lvl, v) && walk_writable(*t, lvl, v)
                                == walk_writable(*old(t), lvl, v) by {
                                lemma_table_index_bound(v, lvl);
                                if table_index(v, lvl) == table_index(vaddr, lvl) {
                                    assert(!same_path(v, vaddr, lvl - 1)) by {
                                        let l0 = choose|l: int|
                                            1 <= l <= lvl && table_index(v, l) != table_index(
                                                vaddr,
                                                l,
                                            );
                                        assert(1 <= l0 <= lvl - 1);
                                    }
                                    assert(walk(childv, lvl - 1, v) == Err::<u64, FrameError>(
                                        FrameError::FrameNotPresent,
                                    ));
                                    assert(walk(*t, lvl, v) == walk(childv, lvl - 1, v));
                                    assert(walk(*old(t), lvl, v) == Err::<u64, FrameError>(
                                        FrameError::FrameNotPresent,
                                    ));
                                    assert(walk_writable(childv, lvl - 1, v) == walk_writable(
                                        child0,
                                        lvl - 1,
                                        v,
                                    ));
                                    assert(!walk_writable(child0, lvl - 1, v));
                                    assert(walk_writable(*t, lvl, v) == walk_writable(
                                        childv,
                                        lvl - 1,
                                        v,
                                    ));
                                    assert(!walk_writable(*old(t), lvl, v));
                                } else {
                                    assert(t.entries@[table_index(v, lvl) as int] == old(
                                        t,
                                    ).entries@[table_index(v, lvl) as int]);
                                }
                            }
                            assert(missing_tables(*old(t), lvl, vaddr) == lvl - 1);
                            lemma_table_index_bound(vaddr, lvl - 1);
                            assert(child0.entries@[table_index(vaddr, lvl - 1) as int]
                                is NotPresent);
                            assert(missing_tables(child0, lvl - 1, vaddr) == if lvl - 1 <= 1 {
                                0int
                            } else {
                                lvl - 2
                            });
                            assert(walk(child0, lvl - 1, vaddr) == Err::<u64, FrameError>(
                                FrameError::FrameNotPresent,
                            ));
                            assert(walk(*old(t), lvl, vaddr) == Err::<u64, FrameError>(
                                FrameError::FrameNotPresent,
                            ));
                            if res is Ok {
                                assert(walk(*t, lvl, vaddr) == walk(childv, lvl - 1, vaddr));
                                assert(walk_writable(*t, lvl, vaddr) == walk_writable(
                                    childv,
                                    lvl - 1,
                                    vaddr,
                                ));
                            } else {
                                assert forall|v: u64| walk(*t, lvl, v) == walk(*old(t), lvl, v) by {
                                    lemma_table_index_bound(v, lvl);
                                    if table_index(v, lvl) == table_index(vaddr, lvl) {
                                        if res == Err::<(), MapToError>(
                                            MapToError::PageAlreadyMapped,
                                        ) {
                                            assert(walk(childv, lvl - 1, v) == walk(
                                                child0,
                                                lvl - 1,
                                                v,
                                            ));
                                        } else if res == Err::<(), MapToError>(
                                            MapToError::ParentEntryHugePage,
                                        ) {
                                            assert(walk(childv, lvl - 1, v) == walk(
                                                child0,
                                                lvl - 1,
                                                v,
                                            ));
                                        } else {
                                            assert(res is Err);
                                            let e = res->Err_0;
                                            assert(e == MapToError::FrameAllocationFailed || e
                                                == MapToError::PageAlreadyMapped || e
                                                == MapToError::ParentEntryHugePage);
                                            assert(res == Err::<(), MapToError>(e));
                                            assert(walk(childv, lvl - 1, v) == walk(
                                                child0,
                                                lvl - 1,
                                                v,
                                            ));
                                        }
                                        assert(walk(child0, lvl - 1, v) == Err::<u64, FrameError>(
                                            FrameError::FrameNotPresent,
                                        ));
                                        assert(walk(*t, lvl, v) == walk(childv, lvl - 1, v));
                                        assert(walk(*old(t), lvl, v) == Err::<u64, FrameError>(
                                            FrameError::FrameNotPresent,
                                        ));
                                    } else {
                                        assert(t.entries@[table_index(v, lvl) as int] == old(
                                            t,
                                        ).entries@[table_index(v, lvl) as int]);
                                    }
                                }
                            }
                        }
                        res
                    },
                }
            },
            PageTableEntry::Table { addr, writable, table } => {
                let mut child = table;
                let ghost child0 = child;
                let res = map_to_rec(&mut child, level - 1, vaddr, frame, flags, fa);
                let ghost childv = child;
                t.entries.insert(
                    idx,
                    PageTableEntry::Table { addr, writable, table: child },
                );
                proof {
                    let lvl = level as int;
                    assert((level - 1) as int == lvl - 1);
                    let newentry = PageTableEntry::Table { addr, writable, table: childv };
                    assert(t.entries@ =~= old(t).entries@.update(idx as int, newentry));
                    assert forall|i: int| 0 <= i < 512 implies wf_entry(
                        #[trigger] t.entries@[i],
                        lvl,
                    ) by {
                        if i != idx as int {
                            assert(t.entries@[i] == old(t).entries@[i]);
                            assert(wf_entry(old(t).entries@[i], lvl));
                        }
                    }
                    assert forall|v: u64| !same_path(v, vaddr, lvl) implies walk(*t, lvl, v)
                        == walk(*old(t), lvl, v) && walk_writable(*t, lvl, v) == walk_writable(
                        *old(t),
                        lvl,
                        v,
                    ) by {
                        lemma_table_index_bound(v, lvl);
                        if table_index(v, lvl) == table_index(vaddr, lvl) {
                            assert(!same_path(v, vaddr, lvl - 1)) by {
                                let l0 = choose|l: int|
                                    1 <= l <= lvl && table_index(v, l) != table_index(vaddr, l);
                                assert(1 <= l0 <= lvl - 1);
                            }
                            assert(walk(*t, lvl, v) == walk(childv, lvl - 1, v));
                            assert(walk(*old(t), lvl, v) == walk(child0, lvl - 1, v));
                            assert(walk_writable(*t, lvl, v) == walk_writable(childv, lvl - 1, v));
                            assert(walk_writable(*old(t), lvl, v) == walk_writable(
                                child0,
                                lvl - 1,
                                v,
                            ));
                        } else {
                            assert(t.entries@[table_index(v, lvl) as int] == old(
                                t,
                            ).entries@[table_index(v, lvl) as int]);
                        }
                    }
                    assert(walk(*old(t), lvl, vaddr) == walk(child0, lvl - 1, vaddr));
                    assert(walk(*t, lvl, vaddr) == walk(childv, lvl - 1, vaddr));
                    assert(walk_writable(*t, lvl, vaddr) == walk_writable(childv, lvl - 1, vaddr));
                    assert(missing_tables(*old(t), lvl, vaddr) == missing_tables(
                        child0,
                        lvl - 1,
                        vaddr,
                    ));
                    if !(res is Ok) {
                        assert forall|v: u64| walk(*t, lvl, v) == walk(*old(t), lvl, v) by {
                            lemma_table_index_bound(v, lvl);
                            if table_index(v, lvl) == table_index(vaddr, lvl) {
                                if res == Err::<(), MapToError>(MapToError::PageAlreadyMapped) {
                                    assert(walk(childv, lvl - 1, v) == walk(child0, lvl - 1, v));
                                } else if res == Err::<(), MapToError>(
                                    MapToError::ParentEntryHugePage,
                                ) {
                                    assert(walk(childv, lvl - 1, v) == walk(child0, lvl - 1, v));
                                } else {
                                    assert(res is Err);
                                    let e = res->Err_0;
                                    assert(e == MapToError::FrameAllocationFailed || e
                                        == MapToError::PageAlreadyMapped || e
                                        == MapToError::ParentEntryHugePage);
                                    assert(res == Err::<(), MapToError>(e));
                                    assert(res == Err::<(), MapToError>(
                                        MapToError::FrameAllocationFailed,
                                    ));
                                    assert(walk(childv, lvl - 1, v) == walk(child0, lvl - 1, v));
                                }
                                assert(walk(*t, lvl, v) == walk(childv, lvl - 1, v));
                                assert(walk(*old(t), lvl, v) == walk(child0, lvl - 1, v));
                            } else {
                                assert(t.entries@[table_index(v, lvl) as int] == old(
                                    t,
                                ).entries@[table_index(v, lvl) as int]);
                            }
                        }
                    }
                }
                res
            },
        }
    }
}

} // verus!

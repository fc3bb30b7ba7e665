//! An address space: the memory regions of one task, layered on one page
//! table. It keeps the regions apart, backs every page of a region with a
//! frame of its own, and gives every frame back when a page goes away.

use vstd::prelude::*;
use crate::accounting::{
    frames_distinct, frames_fit, frames_needed, lemma_frames_needed_step, lemma_owned_add_table,
    lemma_owned_drop_table, lemma_owned_map_page, lemma_owned_unmap_page, missing_tables,
    owned_frames, page_mapped, page_unmapped, pages_mapped, pages_unmapped, tables_follow, Paging,
};
use crate::config::{
    page_aligned, page_count, pages_for, ADDRESS_LIMIT, HEAP_PERMISSION, MAX_FRAMES, MAX_VPN,
    PAGE_SIZE, TABLE_ENTRIES,
};
use crate::frame::FrameAllocator;
use crate::page_table::{
    permission_ok, table_in_use, table_index, translation, valid_permission, PageTable,
    PageTableEntry,
};
use crate::region::{
    carve, covered, lemma_regions_without, lemma_regions_without_apart, mmap_backed, piece_of,
    range_mmap_backed, range_overlaps, regions_wf, regions_without, MemoryRegion, RegionKind,
};

verus! {

/// Why a mapping request was refused.
#[derive(Clone, Copy, PartialEq, Eq, Structural, Debug)]
pub enum MmapError {
    /// The start is not page-aligned, or the range does not fit into the
    /// address space.
    InvalidAddress,
    /// The access bits are zero or hold bits outside the mask `0b111`.
    InvalidPermission,
    /// The range shares a page with an existing region.
    Overlap,
    /// Not enough frames are free.
    OutOfMemory,
}

/// Why an unmapping request was refused.
#[derive(Clone, Copy, PartialEq, Eq, Structural, Debug)]
pub enum MunmapError {
    /// The start is not page-aligned.
    InvalidAddress,
    /// Some page of the range does not lie in a region created by a
    /// mapping request.
    NotMapped,
}

/// `after` is `before` with the `n` pages from `first` on added, each with
/// access bits `perms`.
pub open spec fn mappings_extended(
    before: Map<int, PageTableEntry>,
    after: Map<int, PageTableEntry>,
    first: int,
    n: int,
    perms: usize,
) -> bool {
    &&& forall|vpn: int| #[trigger]
        after.contains_key(vpn) <==> before.contains_key(vpn) || first <= vpn < first + n
    &&& forall|vpn: int| #[trigger] before.contains_key(vpn) ==> after[vpn] == before[vpn]
    &&& forall|vpn: int| first <= vpn < first + n ==> (#[trigger] after[vpn]).perms == perms
}

/// `after` is `before` without the `n` pages from `first` on.
pub open spec fn mappings_reduced(
    before: Map<int, PageTableEntry>,
    after: Map<int, PageTableEntry>,
    first: int,
    n: int,
) -> bool {
    &&& forall|vpn: int| #[trigger]
        after.contains_key(vpn) <==> before.contains_key(vpn) && !(first <= vpn < first + n)
    &&& forall|vpn: int| #[trigger] after.contains_key(vpn) ==> after[vpn] == before[vpn]
}

/// Every leaf table of `before` is still there in `after`, in the same
/// frame.
pub open spec fn tables_kept(before: Map<int, usize>, after: Map<int, usize>) -> bool {
    forall|d: int| #[trigger]
        before.contains_key(d) ==> after.contains_key(d) && after[d] == before[d]
}

/// The page table and free list after the pages of the regions from
/// position `from` on are unmapped, region by region in the order of the
/// list.
pub open spec fn regions_unmapped(p: Paging, regions: Seq<MemoryRegion>, from: int) -> Paging
    decreases regions.len() - from,
{
    if from < 0 || from >= regions.len() {
        p
    } else {
        regions_unmapped(
            pages_unmapped(p, regions[from].start as int, regions[from].end - regions[from].start),
            regions,
            from + 1,
        )
    }
}

/// The state of an address space as contracts see it.
pub struct SpaceView {
    /// The regions, heap first, then in the order of their creation.
    pub regions: Seq<MemoryRegion>,
    /// The valid page-table entries, by virtual page number.
    pub mappings: Map<int, PageTableEntry>,
    /// The frame of each leaf table, by directory slot.
    pub tables: Map<int, usize>,
    /// The frame of the page table's directory.
    pub root: usize,
    /// The lowest address of the heap.
    pub heap_bottom: usize,
    /// The program break: the first address above the heap.
    pub brk: usize,
}

impl SpaceView {
    /// The frames the address space holds.
    pub open spec fn owned(self) -> Set<usize> {
        owned_frames(self.mappings, self.tables, self.root)
    }

    /// The page table of the address space, with the free list `free`.
    pub open spec fn paging(self, free: Seq<usize>) -> Paging {
        Paging { mappings: self.mappings, tables: self.tables, free }
    }

    /// The free list after the address space is given up: every region is
    /// unmapped, in the order of the list, and the frame of the page
    /// table's directory is put on top.
    pub open spec fn released_free(self, free: Seq<usize>) -> Seq<usize> {
        regions_unmapped(self.paging(free), self.regions, 0).free.push(self.root)
    }

    /// The regions never overlap; a page is mapped exactly if a region
    /// holds it, with the region's access bits; the heap region spans the
    /// pages between the heap's bottom and the program break; no frame is
    /// used twice; and a leaf table exists exactly where a page needs it.
    pub open spec fn wf(self) -> bool {
        &&& regions_wf(self.regions)
        &&& page_aligned(self.heap_bottom as int)
        &&& self.heap_bottom <= self.brk <= MAX_VPN * PAGE_SIZE
        &&& self.regions[0].start * PAGE_SIZE == self.heap_bottom
        &&& self.regions[0].end == page_count(self.brk as int)
        &&& self.regions[0].perms == HEAP_PERMISSION
        &&& forall|vpn: int| #[trigger] self.mappings.contains_key(vpn) <==> covered(self.regions, vpn)
        &&& forall|i: int, vpn: int|
            0 <= i < self.regions.len() && #[trigger] self.regions[i].contains(vpn)
                ==> self.mappings[vpn].perms == self.regions[i].perms
        &&& frames_distinct(self.mappings, self.tables, self.root)
        &&& tables_follow(self.mappings, self.tables)
    }

    /// Every frame the address space holds exists in a machine of `total`
    /// frames and is absent from the free set.
    pub open spec fn fits(self, total: nat, free: Set<usize>) -> bool {
        frames_fit(self.mappings, self.tables, self.root, total, free)
    }

    /// Why a request to map `len` bytes at `start` with access bits `port`
    /// is refused whatever the allocator holds, or `None` if the request is
    /// acceptable.
    pub open spec fn mmap_refusal(self, start: usize, len: usize, port: usize) -> Option<MmapError> {
        let first = start as int / PAGE_SIZE as int;
        let n = page_count(len as int);
        if !page_aligned(start as int) || first + n > MAX_VPN {
            Some(MmapError::InvalidAddress)
        } else if !valid_permission(port) {
            Some(MmapError::InvalidPermission)
        } else if range_overlaps(self.regions, first, n) {
            Some(MmapError::Overlap)
        } else {
            None
        }
    }

    /// Why a request to map `len` bytes at `start` with access bits `port`
    /// fails when `free_count` frames are free, or `None` if it is carried
    /// out.
    pub open spec fn mmap_failure(self, free_count: nat, start: usize, len: usize, port: usize) -> Option<
        MmapError,
    > {
        match self.mmap_refusal(start, len, port) {
            Some(e) => Some(e),
            None => if free_count < frames_needed(
                self.tables.dom(),
                start as int / PAGE_SIZE as int,
                page_count(len as int),
            ) {
                Some(MmapError::OutOfMemory)
            } else {
                None
            },
        }
    }

    /// The region that a request for `len` bytes at `start` asks for.
    pub open spec fn requested(start: usize, len: usize, port: usize, kind: RegionKind) -> MemoryRegion {
        MemoryRegion {
            start: (start as int / PAGE_SIZE as int) as usize,
            end: (start as int / PAGE_SIZE as int + page_count(len as int)) as usize,
            perms: port,
            kind,
        }
    }

    /// What adding `region` makes of the address space `self` and the free
    /// list `free`: the region stands behind the others (an empty one is
    /// not recorded), its pages are mapped with its access bits, lowest
    /// page first, each page and each leaf table that was missing taking
    /// the frame then on top of the free list, and nothing else is touched.
    pub open spec fn region_added(
        self,
        free: Seq<usize>,
        region: MemoryRegion,
        after: SpaceView,
        after_free: Seq<usize>,
    ) -> bool {
        &&& after.regions == if region.start == region.end {
            self.regions
        } else {
            self.regions.push(region)
        }
        &&& mappings_extended(
            self.mappings,
            after.mappings,
            region.start as int,
            region.end - region.start,
            region.perms,
        )
        &&& tables_kept(self.tables, after.tables)
        &&& after.root == self.root
        &&& after.heap_bottom == self.heap_bottom
        &&& after.brk == self.brk
        &&& after.owned().union(after_free.to_set()) == self.owned().union(free.to_set())
        &&& after_free.len() + frames_needed(
            self.tables.dom(),
            region.start as int,
            region.end - region.start,
        ) == free.len()
        &&& after.paging(after_free) == pages_mapped(
            self.paging(free),
            region.start as int,
            region.end - region.start,
            region.perms,
        )
    }

    /// What a successful request to map `len` bytes at `start` with access
    /// bits `port` makes of the address space `self` and the free list
    /// `free`.
    pub open spec fn mmapped(
        self,
        free: Seq<usize>,
        start: usize,
        len: usize,
        port: usize,
        after: SpaceView,
        after_free: Seq<usize>,
    ) -> bool {
        self.region_added(free, Self::requested(start, len, port, RegionKind::Mmap), after, after_free)
    }

    /// Why a request to unmap `len` bytes at `start` is refused, or `None`
    /// if it is carried out.
    pub open spec fn munmap_failure(self, start: usize, len: usize) -> Option<MunmapError> {
        if !page_aligned(start as int) {
            Some(MunmapError::InvalidAddress)
        } else if !range_mmap_backed(
            self.regions,
            start as int / PAGE_SIZE as int,
            page_count(len as int),
        ) {
            Some(MunmapError::NotMapped)
        } else {
            None
        }
    }

    /// What a successful request to unmap `len` bytes at `start` makes of
    /// the address space `self` and the free list `free`: the pages are
    /// gone from the regions and from the page table, highest page first,
    /// and the frame of each page, and before it that of a leaf table left
    /// without pages, is put on top of the free list.
    pub open spec fn munmapped(
        self,
        free: Seq<usize>,
        start: usize,
        len: usize,
        after: SpaceView,
        after_free: Seq<usize>,
    ) -> bool {
        let first = start as int / PAGE_SIZE as int;
        let n = page_count(len as int);
        &&& after.regions == regions_without(self.regions, first as usize, (first + n) as usize)
        &&& mappings_reduced(self.mappings, after.mappings, first, n)
        &&& tables_kept(after.tables, self.tables)
        &&& after.root == self.root
        &&& after.heap_bottom == self.heap_bottom
        &&& after.brk == self.brk
        &&& after.owned().union(after_free.to_set()) == self.owned().union(free.to_set())
        &&& after_free.len() == free.len() + frames_needed(after.tables.dom(), first, n)
        &&& after.paging(after_free) == pages_unmapped(self.paging(free), first, n)
    }

    /// The state of a fresh address space: an empty heap at `heap_bottom`
    /// and nothing mapped.
    pub open spec fn fresh(self, root: usize, heap_bottom: usize) -> bool {
        &&& self.regions == seq![
            MemoryRegion {
                start: (heap_bottom as int / PAGE_SIZE as int) as usize,
                end: (heap_bottom as int / PAGE_SIZE as int) as usize,
                perms: HEAP_PERMISSION,
                kind: RegionKind::Heap,
            },
        ]
        &&& self.mappings == Map::<int, PageTableEntry>::empty()
        &&& self.tables == Map::<int, usize>::empty()
        &&& self.root == root
        &&& self.heap_bottom == heap_bottom
        &&& self.brk == heap_bottom
    }

    /// Whether moving the program break by `delta` bytes fails when
    /// `free_count` frames are free: the break would fall below the heap's
    /// bottom or leave the address space, or the heap would grow into
    /// another region, or the free frames would not suffice.
    pub open spec fn break_failure(self, free_count: nat, delta: int) -> bool {
        let target = self.brk + delta;
        let old_end = page_count(self.brk as int);
        let new_end = page_count(target);
        ||| target < self.heap_bottom
        ||| target > ADDRESS_LIMIT
        ||| new_end > old_end && range_overlaps(self.regions, old_end, new_end - old_end)
        ||| new_end > old_end && free_count < frames_needed(
            self.tables.dom(),
            old_end,
            new_end - old_end,
        )
    }

    /// What moving the program break by `delta` bytes makes of the address
    /// space `self` and the free list `free`: the heap region ends at the
    /// page boundary at or above the new break, the pages it gained are
    /// mapped readable and writable with frames from the top of the free
    /// list, and the pages it lost are unmapped and their frames put back
    /// on top of it.
    pub open spec fn break_adjusted(
        self,
        free: Seq<usize>,
        delta: int,
        after: SpaceView,
        after_free: Seq<usize>,
    ) -> bool {
        let old_end = page_count(self.brk as int);
        let new_end = page_count(self.brk + delta);
        &&& after.brk == self.brk + delta
        &&& after.heap_bottom == self.heap_bottom
        &&& after.root == self.root
        &&& after.regions == self.regions.update(
            0,
            MemoryRegion {
                start: self.regions[0].start,
                end: new_end as usize,
                perms: self.regions[0].perms,
                kind: self.regions[0].kind,
            },
        )
        &&& new_end >= old_end ==> {
            &&& mappings_extended(
                self.mappings,
                after.mappings,
                old_end,
                new_end - old_end,
                HEAP_PERMISSION,
            )
            &&& tables_kept(self.tables, after.tables)
            &&& after_free.len() + frames_needed(self.tables.dom(), old_end, new_end - old_end)
                == free.len()
            &&& after.paging(after_free) == pages_mapped(
                self.paging(free),
                old_end,
                new_end - old_end,
                HEAP_PERMISSION,
            )
        }
        &&& new_end < old_end ==> {
            &&& mappings_reduced(self.mappings, after.mappings, new_end, old_end - new_end)
            &&& tables_kept(after.tables, self.tables)
            &&& after_free.len() == free.len() + frames_needed(
                after.tables.dom(),
                new_end,
                old_end - new_end,
            )
            &&& after.paging(after_free) == pages_unmapped(
                self.paging(free),
                new_end,
                old_end - new_end,
            )
        }
        &&& after.owned().union(after_free.to_set()) == self.owned().union(free.to_set())
    }
}

/// Maps the `n` pages from `first` on, each to a frame of its own taken
/// from `frames`. The caller has made sure that the pages are unmapped and
/// that enough frames are free, so the request cannot fail half-way.
fn map_pages(
    table: &mut PageTable,
    frames: &mut FrameAllocator,
    first: usize,
    n: usize,
    perms: usize,
) -> (r: Result<(), MmapError>)
    requires
        old(table).wf(),
        old(frames).wf(),
        first + n <= MAX_VPN,
        valid_permission(perms),
        forall|vpn: int| first <= vpn < first + n ==> !old(table).mappings().contains_key(vpn),
        frames_distinct(old(table).mappings(), old(table).tables(), old(table).root()),
        frames_fit(
            old(table).mappings(),
            old(table).tables(),
            old(table).root(),
            old(frames).total(),
            old(frames).free_set(),
        ),
        old(frames).free_count() >= frames_needed(old(table).tables().dom(), first as int, n as int),
    ensures
        r is Ok,
        final(table).wf(),
        final(frames).wf(),
        final(frames).total() == old(frames).total(),
        final(table).root() == old(table).root(),
        frames_distinct(final(table).mappings(), final(table).tables(), final(table).root()),
        frames_fit(
            final(table).mappings(),
            final(table).tables(),
            final(table).root(),
            final(frames).total(),
            final(frames).free_set(),
        ),
        mappings_extended(
            old(table).mappings(),
            final(table).mappings(),
            first as int,
            n as int,
            perms,
        ),
        tables_kept(old(table).tables(), final(table).tables()),
        owned_frames(final(table).mappings(), final(table).tables(), final(table).root()).union(
            final(frames).free_set(),
        ) == owned_frames(old(table).mappings(), old(table).tables(), old(table).root()).union(
            old(frames).free_set(),
        ),
        final(frames).free_count() + frames_needed(
            old(table).tables().dom(),
            first as int,
            n as int,
        ) == old(frames).free_count(),
        (Paging {
            mappings: final(table).mappings(),
            tables: final(table).tables(),
            free: final(frames).free_list(),
        }) == pages_mapped(
            Paging {
                mappings: old(table).mappings(),
                tables: old(table).tables(),
                free: old(frames).free_list(),
            },
            first as int,
            n as int,
            perms,
        ),
{
    let ghost start = Paging {
        mappings: old(table).mappings(),
        tables: old(table).tables(),
        free: old(frames).free_list(),
    };
    let ghost before = old(table).mappings();
    let ghost before_tables = old(table).tables();
    let ghost root = old(table).root();
    let ghost pool = owned_frames(before, before_tables, root).union(old(frames).free_set());
    let ghost cost = frames_needed(before_tables.dom(), first as int, n as int);
    let mut i: usize = 0;
    while i < n
        invariant
            i <= n,
            first + n <= MAX_VPN,
            valid_permission(perms),
            table.wf(),
            frames.wf(),
            frames.total() == old(frames).total(),
            table.root() == root,
            frames_distinct(table.mappings(), table.tables(), root),
            frames_fit(table.mappings(), table.tables(), root, frames.total(), frames.free_set()),
            mappings_extended(before, table.mappings(), first as int, i as int, perms),
            tables_kept(before_tables, table.tables()),
            forall|vpn: int| first <= vpn < first + n ==> !before.contains_key(vpn),
            owned_frames(table.mappings(), table.tables(), root).union(frames.free_set()) == pool,
            frames.free_count() >= frames_needed(table.tables().dom(), first + i, n - i),
            frames.free_count() + cost == old(frames).free_count() + frames_needed(
                table.tables().dom(),
                first + i,
                n - i,
            ),
            pages_mapped(
                Paging {
                    mappings: table.mappings(),
                    tables: table.tables(),
                    free: frames.free_list(),
                },
                first + i,
                n - i,
                perms,
            ) == pages_mapped(start, first as int, n as int, perms),
        decreases n - i,
    {
        let vpn: usize = first + i;
        let ghost m0 = table.mappings();
        let ghost t0 = table.tables();
        let ghost now = Paging { mappings: m0, tables: t0, free: frames.free_list() };
        proof {
            lemma_frames_needed_step(t0.dom(), vpn as int, n - i);
        }
        let frame = match frames.allocate() {
            Some(frame) => frame,
            None => {
                return Err(MmapError::OutOfMemory);
            },
        };
        proof {
            assert(!m0.contains_key(vpn as int));
        }
        match table.map(frames, vpn, frame, perms) {
            Ok(()) => {},
            Err(_) => {
                return Err(MmapError::OutOfMemory);
            },
        }
        proof {
            let entry = PageTableEntry { frame, perms };
            let d = table_index(vpn as int);
            let m1 = table.mappings();
            let t1 = table.tables();
            lemma_owned_map_page(m0, t0, root, vpn as int, entry);
            assert(Paging { mappings: m1, tables: t1, free: frames.free_list() } == page_mapped(
                now,
                vpn as int,
                perms,
            ));
            if t0.contains_key(d) {
                assert(t1.dom() =~= t0.dom().insert(d));
                assert(owned_frames(m1, t1, root).union(frames.free_set()) =~= pool);
            } else {
                let tf = t1[d];
                lemma_owned_add_table(m1, t0, root, d, tf);
                assert(t1.dom() =~= t0.dom().insert(d));
                assert(owned_frames(m1, t1, root).union(frames.free_set()) =~= pool);
            }
        }
        i = i + 1;
    }
    Ok(())
}

/// Unmaps the `n` pages from `first` on, last page first, and returns
/// their frames to `frames`. The caller has made sure that every page of
/// the run is mapped.
fn unmap_pages(table: &mut PageTable, frames: &mut FrameAllocator, first: usize, n: usize) -> (r:
    Result<(), MunmapError>)
    requires
        old(table).wf(),
        old(frames).wf(),
        first + n <= MAX_VPN,
        forall|vpn: int| first <= vpn < first + n ==> old(table).mappings().contains_key(vpn),
        frames_distinct(old(table).mappings(), old(table).tables(), old(table).root()),
        frames_fit(
            old(table).mappings(),
            old(table).tables(),
            old(table).root(),
            old(frames).total(),
            old(frames).free_set(),
        ),
    ensures
        r is Ok,
        final(table).wf(),
        final(frames).wf(),
        final(frames).total() == old(frames).total(),
        final(table).root() == old(table).root(),
        frames_distinct(final(table).mappings(), final(table).tables(), final(table).root()),
        frames_fit(
            final(table).mappings(),
            final(table).tables(),
            final(table).root(),
            final(frames).total(),
            final(frames).free_set(),
        ),
        mappings_reduced(old(table).mappings(), final(table).mappings(), first as int, n as int),
        tables_kept(final(table).tables(), old(table).tables()),
        owned_frames(final(table).mappings(), final(table).tables(), final(table).root()).union(
            final(frames).free_set(),
        ) == owned_frames(old(table).mappings(), old(table).tables(), old(table).root()).union(
            old(frames).free_set(),
        ),
        final(frames).free_count() == old(frames).free_count() + frames_needed(
            final(table).tables().dom(),
            first as int,
            n as int,
        ),
        (Paging {
            mappings: final(table).mappings(),
            tables: final(table).tables(),
            free: final(frames).free_list(),
        }) == pages_unmapped(
            Paging {
                mappings: old(table).mappings(),
                tables: old(table).tables(),
                free: old(frames).free_list(),
            },
            first as int,
            n as int,
        ),
{
    let ghost start = Paging {
        mappings: old(table).mappings(),
        tables: old(table).tables(),
        free: old(frames).free_list(),
    };
    let ghost before = old(table).mappings();
    let ghost before_tables = old(table).tables();
    let ghost root = old(table).root();
    let ghost pool = owned_frames(before, before_tables, root).union(old(frames).free_set());
    let mut i: usize = n;
    while i > 0
        invariant
            i <= n,
            first + n <= MAX_VPN,
            table.wf(),
            frames.wf(),
            frames.total() == old(frames).total(),
            table.root() == root,
            frames_distinct(table.mappings(), table.tables(), root),
            frames_fit(table.mappings(), table.tables(), root, frames.total(), frames.free_set()),
            mappings_reduced(before, table.mappings(), first + i, n - i),
            tables_kept(table.tables(), before_tables),
            forall|vpn: int| first <= vpn < first + n ==> before.contains_key(vpn),
            owned_frames(table.mappings(), table.tables(), root).union(frames.free_set()) == pool,
            frames.free_count() == old(frames).free_count() + frames_needed(
                table.tables().dom(),
                first + i,
                n - i,
            ),
            pages_unmapped(
                Paging {
                    mappings: table.mappings(),
                    tables: table.tables(),
                    free: frames.free_list(),
                },
                first as int,
                i as int,
            ) == pages_unmapped(start, first as int, n as int),
        decreases i,
    {
        let ghost now = Paging {
            mappings: table.mappings(),
            tables: table.tables(),
            free: frames.free_list(),
        };
        i = i - 1;
        let vpn: usize = first + i;
        let ghost m0 = table.mappings();
        let ghost t0 = table.tables();
        let ghost d = table_index(vpn as int);
        proof {
            table.lemma_wf();
            assert(m0.contains_key(vpn as int));
            assert(t0.contains_key(d));
        }
        let frame = match table.unmap(frames, vpn) {
            Ok(frame) => frame,
            Err(_) => {
                return Err(MunmapError::NotMapped);
            },
        };
        proof {
            assert(frame == m0[vpn as int].frame);
            assert(m0[vpn as int].frame != t0[d]);
        }
        frames.free(frame);
        proof {
            let m1 = table.mappings();
            let t1 = table.tables();
            lemma_owned_unmap_page(m0, t0, root, vpn as int);
            assert(Paging { mappings: m1, tables: t1, free: frames.free_list() } == page_unmapped(
                now,
                vpn as int,
            ));
            assert(frames_distinct(m1, t0, root));
            if !t1.contains_key(d) {
                lemma_owned_drop_table(m1, t0, root, d);
            }
            assert(owned_frames(m1, t1, root).union(frames.free_set()) =~= pool);
            assert(t1.dom().insert(d) =~= t0.dom());
            lemma_frames_needed_step(t1.dom(), vpn as int, n - i);
        }
    }
    Ok(())
}

/// One task's virtual memory: a page table and the regions mapped in it.
pub struct AddressSpace {
    table: PageTable,
    regions: Vec<MemoryRegion>,
    heap_bottom: usize,
    brk: usize,
}

impl View for AddressSpace {
    type V = SpaceView;

    closed spec fn view(&self) -> SpaceView {
        SpaceView {
            regions: self.regions@,
            mappings: self.table.mappings(),
            tables: self.table.tables(),
            root: self.table.root(),
            heap_bottom: self.heap_bottom,
            brk: self.brk,
        }
    }
}

impl AddressSpace {
    /// The page table is sound and the state it shows is well-formed.
    pub closed spec fn wf(&self) -> bool {
        &&& self.table.wf()
        &&& self@.wf()
    }

    /// Every frame the address space holds exists in the allocator's
    /// machine and is not free.
    pub open spec fn fits(&self, frames: &FrameAllocator) -> bool {
        self@.fits(frames.total(), frames.free_set())
    }

    /// A well-formed address space shows a well-formed state.
    pub proof fn lemma_wf(&self)
        requires
            self.wf(),
        ensures
            self@.wf(),
    {
    }

    /// An address space with an empty heap at `heap_bottom` and nothing
    /// mapped; the directory of its page table takes one frame.
    ///
    /// Fails with `InvalidAddress` if `heap_bottom` is not page-aligned or
    /// lies beyond the address space, and with `OutOfMemory` if no frame is
    /// free; a failure leaves the allocator as it was.
    pub fn new(frames: &mut FrameAllocator, heap_bottom: usize) -> (r: Result<AddressSpace, MmapError>)
        requires
            old(frames).wf(),
        ensures
            final(frames).wf(),
            final(frames).total() == old(frames).total(),
            r is Err ==> final(frames).free_list() == old(frames).free_list(),
            r matches Err(e) ==> e == if !page_aligned(heap_bottom as int) || heap_bottom
                > ADDRESS_LIMIT {
                MmapError::InvalidAddress
            } else {
                MmapError::OutOfMemory
            },
            r is Ok <==> page_aligned(heap_bottom as int) && heap_bottom <= ADDRESS_LIMIT && old(
                frames,
            ).free_count() > 0,
            r matches Ok(space) ==> {
                &&& space.wf()
                &&& space.fits(final(frames))
                &&& space@.fresh(old(frames).free_list().last(), heap_bottom)
                &&& final(frames).free_list() == old(frames).free_list().drop_last()
                &&& final(frames).free_set() == old(frames).free_set().remove(space@.root)
            },
    {
        if heap_bottom % PAGE_SIZE != 0 || heap_bottom > ADDRESS_LIMIT {
            return Err(MmapError::InvalidAddress);
        }
        let table = match PageTable::new(frames) {
            Some(table) => table,
            None => {
                return Err(MmapError::OutOfMemory);
            },
        };
        let bottom_page: usize = heap_bottom / PAGE_SIZE;
        let mut regions: Vec<MemoryRegion> = Vec::new();
        regions.push(
            MemoryRegion {
                start: bottom_page,
                end: bottom_page,
                perms: HEAP_PERMISSION,
                kind: RegionKind::Heap,
            },
        );
        let space = AddressSpace { table, regions, heap_bottom, brk: heap_bottom };
        proof {
            let v = space@;
            assert(v.regions =~= seq![v.regions[0]]);
            assert(forall|vpn: int| !v.regions[0].contains(vpn));
            assert(!table_in_use(v.mappings, 0)) by {
                assert(forall|vpn: int| !v.mappings.contains_key(vpn));
            }
            assert forall|d: int| !table_in_use(v.mappings, d) by {
                assert(forall|vpn: int| !v.mappings.contains_key(vpn));
            }
        }
        Ok(space)
    }

    /// The program break.
    pub fn program_break(&self) -> (brk: usize)
        ensures
            brk == self@.brk,
    {
        self.brk
    }

    /// The lowest address of the heap.
    pub fn heap_bottom(&self) -> (bottom: usize)
        ensures
            bottom == self@.heap_bottom,
    {
        self.heap_bottom
    }

    /// Number of regions, the heap included.
    pub fn region_count(&self) -> (n: usize)
        ensures
            n == self@.regions.len(),
    {
        self.regions.len()
    }

    /// The region at position `index` of the list, if there is one.
    pub fn region(&self, index: usize) -> (r: Option<MemoryRegion>)
        ensures
            r == if index < self@.regions.len() {
                Some(self@.regions[index as int])
            } else {
                None
            },
    {
        if index < self.regions.len() {
            Some(self.regions[index])
        } else {
            None
        }
    }

    /// The page-table entry of virtual page `vpn`, if the page is mapped.
    pub fn lookup(&self, vpn: usize) -> (r: Option<PageTableEntry>)
        requires
            self.wf(),
        ensures
            r == if self@.mappings.contains_key(vpn as int) {
                Some(self@.mappings[vpn as int])
            } else {
                None
            },
    {
        self.table.lookup(vpn)
    }

    /// The physical address of the byte at virtual address `va`, or `None`
    /// if its page is not mapped. One call resolves one page: whoever moves
    /// an object that may cross a page boundary translates each page of it.
    pub fn translate(&self, va: usize) -> (r: Option<usize>)
        requires
            self.wf(),
        ensures
            r is Some <==> translation(self@.mappings, va as int) is Some,
            r matches Some(pa) ==> translation(self@.mappings, va as int) == Some(pa as int),
    {
        self.table.translate(va)
    }

    /// A mapped page lies inside the address space.
    pub proof fn lemma_mapped_pages(&self, vpn: int)
        requires
            self.wf(),
            self@.mappings.contains_key(vpn),
        ensures
            0 <= vpn < MAX_VPN,
            self@.mappings[vpn].frame < MAX_FRAMES,
    {
        self.table.lemma_wf();
    }

    /// Tells whether a region shares a page with the pages from `first` up
    /// to but not including `end`.
    fn overlaps(&self, first: usize, end: usize) -> (b: bool)
        requires
            first <= end,
        ensures
            b == range_overlaps(self@.regions, first as int, end - first),
    {
        let mut i: usize = 0;
        while i < self.regions.len()
            invariant
                i <= self.regions.len(),
                first <= end,
                forall|j: int| 0 <= j < i ==> !(#[trigger] self.regions@[j].meets(first as int, end - first)),
            decreases self.regions.len() - i,
        {
            if self.regions[i].intersects(first, end) {
                return true;
            }
            i = i + 1;
        }
        false
    }

    /// Number of frames that mapping the `n` pages from `first` on would
    /// take: one per page and one per leaf table still missing.
    fn frames_for(&self, first: usize, n: usize) -> (cost: usize)
        requires
            self.table.wf(),
            first + n <= MAX_VPN,
        ensures
            cost == frames_needed(self@.tables.dom(), first as int, n as int),
    {
        if n == 0 {
            return 0;
        }
        let lo: usize = first / TABLE_ENTRIES;
        let hi: usize = (first + n - 1) / TABLE_ENTRIES + 1;
        let mut missing: usize = 0;
        let mut d: usize = lo;
        while d < hi
            invariant
                lo <= d <= hi <= TABLE_ENTRIES,
                self.table.wf(),
                missing == missing_tables(self.table.tables().dom(), lo as int, d as int),
                missing <= d - lo,
            decreases hi - d,
        {
            if !self.table.has_table(d) {
                missing = missing + 1;
            }
            d = d + 1;
        }
        n + missing
    }

    /// Adds the region that a request for `len` bytes at `start` asks for.
    /// The request is checked in full before anything is touched, so a
    /// refused request changes nothing and an accepted one cannot run out
    /// of frames half-way.
    fn map_region(
        &mut self,
        frames: &mut FrameAllocator,
        start: usize,
        len: usize,
        port: usize,
        kind: RegionKind,
    ) -> (r: Result<(), MmapError>)
        requires
            old(self).wf(),
            old(frames).wf(),
            old(self).fits(old(frames)),
            kind != RegionKind::Heap,
        ensures
            final(self).wf(),
            final(frames).wf(),
            final(self).fits(final(frames)),
            final(frames).total() == old(frames).total(),
            r == match old(self)@.mmap_failure(old(frames).free_count(), start, len, port) {
                Some(e) => Err::<(), MmapError>(e),
                None => Ok(()),
            },
            r is Err ==> final(self)@ == old(self)@ && final(frames).free_list() == old(
                frames,
            ).free_list(),
            r is Ok ==> old(self)@.region_added(
                old(frames).free_list(),
                SpaceView::requested(start, len, port, kind),
                final(self)@,
                final(frames).free_list(),
            ),
    {
        if start % PAGE_SIZE != 0 {
            return Err(MmapError::InvalidAddress);
        }
        let first: usize = start / PAGE_SIZE;
        let n: usize = pages_for(len);
        if first > MAX_VPN || n > MAX_VPN - first {
            return Err(MmapError::InvalidAddress);
        }
        if !permission_ok(port) {
            return Err(MmapError::InvalidPermission);
        }
        if self.overlaps(first, first + n) {
            return Err(MmapError::Overlap);
        }
        if frames.available() < self.frames_for(first, n) {
            return Err(MmapError::OutOfMemory);
        }
        if n == 0 {
            proof {
                assert(mappings_extended(self@.mappings, self@.mappings, first as int, 0, port));
            }
            return Ok(());
        }
        proof {
            assert forall|vpn: int| first <= vpn < first + n implies !self.table.mappings().contains_key(
                vpn,
            ) by {
                if covered(self@.regions, vpn) {
                    let i = choose|i: int|
                        0 <= i < self@.regions.len() && #[trigger] self@.regions[i].contains(vpn);
                    assert(self@.regions[i].meets(first as int, n as int));
                }
            }
        }
        // The frames were counted above, so this cannot fail.
        if let Err(e) = map_pages(&mut self.table, frames, first, n, port) {
            return Err(e);
        }
        let region = MemoryRegion { start: first, end: first + n, perms: port, kind };
        self.regions.push(region);
        proof {
            self.table.lemma_wf();
            let pre = old(self)@;
            let post = self@;
            assert(region == SpaceView::requested(start, len, port, kind));
            assert(post.regions == pre.regions.push(region));
            let last = pre.regions.len() as int;
            assert(post.regions[last] == region);
            assert forall|i: int| 0 <= i < pre.regions.len() implies post.regions[i] == pre.regions[i] by {}
            assert(regions_wf(post.regions)) by {
                assert forall|i: int, j: int, vpn: int|
                    0 <= i < post.regions.len() && 0 <= j < post.regions.len() && i != j
                        && #[trigger] post.regions[i].contains(vpn) implies !(#[trigger] post.regions[j].contains(
                    vpn,
                )) by {
                    if i == last {
                        if pre.regions[j].contains(vpn) {
                            assert(pre.regions[j].meets(first as int, n as int));
                        }
                    } else if j == last {
                        if region.contains(vpn) {
                            assert(pre.regions[i].meets(first as int, n as int));
                        }
                    } else {
                        assert(pre.regions[i].contains(vpn));
                    }
                }
            }
            assert forall|vpn: int| #[trigger] post.mappings.contains_key(vpn) <==> covered(
                post.regions,
                vpn,
            ) by {
                if post.mappings.contains_key(vpn) {
                    if pre.mappings.contains_key(vpn) {
                        let i = choose|i: int|
                            0 <= i < pre.regions.len() && #[trigger] pre.regions[i].contains(vpn);
                        assert(post.regions[i].contains(vpn));
                    } else {
                        assert(post.regions[last].contains(vpn));
                    }
                }
                if covered(post.regions, vpn) {
                    let i = choose|i: int|
                        0 <= i < post.regions.len() && #[trigger] post.regions[i].contains(vpn);
                    if i != last {
                        assert(pre.regions[i].contains(vpn));
                        assert(covered(pre.regions, vpn));
                    }
                }
            }
            assert forall|i: int, vpn: int|
                0 <= i < post.regions.len() && #[trigger] post.regions[i].contains(vpn) implies post.mappings[vpn].perms
                == post.regions[i].perms by {
                if i != last {
                    assert(pre.regions[i].contains(vpn));
                    assert(covered(pre.regions, vpn));
                    assert(pre.mappings.contains_key(vpn));
                }
            }
        }
        Ok(())
    }

    /// Maps `len` bytes, rounded up to whole pages, at `start` with access
    /// bits `port` (bit 0 readable, bit 1 writable, bit 2 executable) as a
    /// new region of its own, each page backed by a frame from `frames`.
    ///
    /// Fails with `InvalidAddress` if `start` is not page-aligned or the
    /// range leaves the address space, with `InvalidPermission` if `port`
    /// is zero or has a bit outside `0b111`, with `Overlap` if the range
    /// shares a page with a region, and with `OutOfMemory` if the free
    /// frames do not suffice for the pages and the leaf tables they need.
    /// A failed request leaves the address space and the allocator exactly
    /// as they were. A request for no bytes succeeds and changes nothing.
    pub fn mmap(&mut self, frames: &mut FrameAllocator, start: usize, len: usize, port: usize) -> (r:
        Result<(), MmapError>)
        requires
            old(self).wf(),
            old(frames).wf(),
            old(self).fits(old(frames)),
        ensures
            final(self).wf(),
            final(frames).wf(),
            final(self).fits(final(frames)),
            final(frames).total() == old(frames).total(),
            r == match old(self)@.mmap_failure(old(frames).free_count(), start, len, port) {
                Some(e) => Err::<(), MmapError>(e),
                None => Ok(()),
            },
            r is Err ==> final(self)@ == old(self)@ && final(frames).free_list() == old(
                frames,
            ).free_list(),
            r is Ok ==> old(self)@.mmapped(
                old(frames).free_list(),
                start,
                len,
                port,
                final(self)@,
                final(frames).free_list(),
            ),
    {
        self.map_region(frames, start, len, port, RegionKind::Mmap)
    }

    /// The index of the region that holds virtual page `vpn`, if any.
    fn find_region(&self, vpn: usize) -> (r: Option<usize>)
        ensures
            r is None ==> !covered(self@.regions, vpn as int),
            r matches Some(i) ==> i < self@.regions.len() && self@.regions[i as int].contains(vpn as int),
    {
        let mut i: usize = 0;
        while i < self.regions.len()
            invariant
                i <= self.regions.len(),
                forall|j: int| 0 <= j < i ==> !(#[trigger] self.regions@[j].contains(vpn as int)),
            decreases self.regions.len() - i,
        {
            let r = &self.regions[i];
            if r.start <= vpn && vpn < r.end {
                return Some(i);
            }
            i = i + 1;
        }
        None
    }

    /// Tells whether every page from `first` up to but not including `end`
    /// lies in a region created by a mapping request.
    fn backed_by_mmap(&self, first: usize, end: usize) -> (b: bool)
        requires
            self.wf(),
            first <= end,
        ensures
            b == range_mmap_backed(self@.regions, first as int, end - first),
    {
        let mut pos: usize = first;
        while pos < end
            invariant
                first <= pos <= end,
                self.wf(),
                forall|vpn: int| first <= vpn < pos ==> #[trigger] mmap_backed(self@.regions, vpn),
            decreases end - pos,
        {
            match self.find_region(pos) {
                None => {
                    proof {
                        assert(!mmap_backed(self@.regions, pos as int));
                    }
                    return false;
                },
                Some(i) => {
                    let r = &self.regions[i];
                    if r.kind != RegionKind::Mmap {
                        proof {
                            if mmap_backed(self@.regions, pos as int) {
                                let j = choose|j: int|
                                    0 <= j < self@.regions.len() && #[trigger] self@.regions[j].contains(
                                        pos as int,
                                    ) && self@.regions[j].kind == RegionKind::Mmap;
                                assert(self@.regions[i as int].contains(pos as int));
                                assert(false);
                            }
                        }
                        return false;
                    }
                    let ghost from = pos;
                    pos = if r.end < end {
                        r.end
                    } else {
                        end
                    };
                    proof {
                        assert forall|vpn: int| from <= vpn < pos implies #[trigger] mmap_backed(
                            self@.regions,
                            vpn,
                        ) by {
                            assert(self@.regions[i as int].contains(vpn));
                        }
                    }
                },
            }
        }
        true
    }

    /// Unmaps `len` bytes, rounded up to whole pages, at `start`, returns
    /// their frames to `frames`, and takes the pages out of the regions:
    /// a region may shrink, split in two or vanish.
    ///
    /// Fails with `InvalidAddress` if `start` is not page-aligned and with
    /// `NotMapped` unless every page of the range lies in a region that a
    /// mapping request created. A failed request unmaps nothing. A request
    /// for no bytes succeeds and changes nothing.
    pub fn munmap(&mut self, frames: &mut FrameAllocator, start: usize, len: usize) -> (r: Result<
        (),
        MunmapError,
    >)
        requires
            old(self).wf(),
            old(frames).wf(),
            old(self).fits(old(frames)),
        ensures
            final(self).wf(),
            final(frames).wf(),
            final(self).fits(final(frames)),
            final(frames).total() == old(frames).total(),
            r == match old(self)@.munmap_failure(start, len) {
                Some(e) => Err::<(), MunmapError>(e),
                None => Ok(()),
            },
            r is Err ==> final(self)@ == old(self)@ && final(frames).free_list() == old(
                frames,
            ).free_list(),
            r is Ok ==> old(self)@.munmapped(
                old(frames).free_list(),
                start,
                len,
                final(self)@,
                final(frames).free_list(),
            ),
    {
        if start % PAGE_SIZE != 0 {
            return Err(MunmapError::InvalidAddress);
        }
        let first: usize = start / PAGE_SIZE;
        let n: usize = pages_for(len);
        let end: usize = first + n;
        if !self.backed_by_mmap(first, end) {
            return Err(MunmapError::NotMapped);
        }
        let ghost pre = self@;
        if n == 0 {
            proof {
                lemma_regions_without_apart(pre.regions, first, end);
                assert(mappings_reduced(pre.mappings, pre.mappings, first as int, 0));
            }
            return Ok(());
        }
        proof {
            assert forall|vpn: int| first <= vpn < first + n implies self.table.mappings().contains_key(
                vpn,
            ) && vpn < MAX_VPN by {
                assert(mmap_backed(pre.regions, vpn));
                let i = choose|i: int|
                    0 <= i < pre.regions.len() && #[trigger] pre.regions[i].contains(vpn)
                        && pre.regions[i].kind == RegionKind::Mmap;
                assert(covered(pre.regions, vpn));
            }
            assert(self.table.mappings().contains_key(first + n - 1));
        }
        // Every page of the run is mapped, so this cannot fail.
        if let Err(e) = unmap_pages(&mut self.table, frames, first, n) {
            return Err(e);
        }
        let mut kept: Vec<MemoryRegion> = Vec::new();
        let mut i: usize = 0;
        while i < self.regions.len()
            invariant
                i <= self.regions.len(),
                first < end,
                self.regions@ == pre.regions,
                kept@ == regions_without(pre.regions.take(i as int), first, end),
            decreases self.regions.len() - i,
        {
            let r = self.regions[i];
            proof {
                assert(pre.regions.take(i + 1).drop_last() =~= pre.regions.take(i as int));
                assert(pre.regions.take(i + 1).last() == r);
            }
            if r.kind != RegionKind::Mmap {
                kept.push(r);
            } else {
                let ghost so_far = kept@;
                if r.start < first {
                    kept.push(
                        MemoryRegion {
                            start: r.start,
                            end: if r.end < first {
                                r.end
                            } else {
                                first
                            },
                            perms: r.perms,
                            kind: r.kind,
                        },
                    );
                }
                if end < r.end {
                    kept.push(
                        MemoryRegion {
                            start: if r.start < end {
                                end
                            } else {
                                r.start
                            },
                            end: r.end,
                            perms: r.perms,
                            kind: r.kind,
                        },
                    );
                }
                proof {
                    assert(kept@ =~= so_far + carve(r, first, end));
                }
            }
            i = i + 1;
        }
        proof {
            assert(pre.regions.take(pre.regions.len() as int) =~= pre.regions);
        }
        self.regions = kept;
        proof {
            self.table.lemma_wf();
            let post = self@;
            lemma_regions_without(pre.regions, first, end);
            assert(regions_wf(post.regions)) by {
                assert forall|k: int| 0 <= k < post.regions.len() implies {
                    let r = #[trigger] post.regions[k];
                    &&& r.start <= r.end <= MAX_VPN
                    &&& valid_permission(r.perms)
                    &&& k >= 1 ==> r.kind != RegionKind::Heap && r.start < r.end
                } by {
                    let o = choose|o: int|
                        0 <= o < pre.regions.len() && (k >= 1 ==> o >= 1) && piece_of(
                            post.regions[k],
                            #[trigger] pre.regions[o],
                            first,
                            end,
                        );
                }
            }
            assert forall|vpn: int| #[trigger] post.mappings.contains_key(vpn) <==> covered(
                post.regions,
                vpn,
            ) by {
                if post.mappings.contains_key(vpn) {
                    assert(covered(pre.regions, vpn));
                    let o = choose|o: int|
                        0 <= o < pre.regions.len() && #[trigger] pre.regions[o].contains(vpn);
                    assert(covered(post.regions, vpn));
                }
                if covered(post.regions, vpn) {
                    let k = choose|k: int|
                        0 <= k < post.regions.len() && #[trigger] post.regions[k].contains(vpn);
                    let o = choose|o: int|
                        0 <= o < pre.regions.len() && (k >= 1 ==> o >= 1) && piece_of(
                            post.regions[k],
                            #[trigger] pre.regions[o],
                            first,
                            end,
                        );
                    assert(pre.regions[o].contains(vpn));
                    assert(covered(pre.regions, vpn));
                    if first <= vpn < end {
                        assert(mmap_backed(pre.regions, vpn));
                        let j = choose|j: int|
                            0 <= j < pre.regions.len() && #[trigger] pre.regions[j].contains(vpn)
                                && pre.regions[j].kind == RegionKind::Mmap;
                        assert(false);
                    }
                }
            }
            assert forall|k: int, vpn: int|
                0 <= k < post.regions.len() && #[trigger] post.regions[k].contains(vpn) implies post.mappings[vpn].perms
                == post.regions[k].perms by {
                let o = choose|o: int|
                    0 <= o < pre.regions.len() && (k >= 1 ==> o >= 1) && piece_of(
                        post.regions[k],
                        #[trigger] pre.regions[o],
                        first,
                        end,
                    );
                assert(pre.regions[o].contains(vpn));
                assert(covered(post.regions, vpn));
                assert(post.mappings.contains_key(vpn));
            }
        }
        Ok(())
    }

    /// Places program text or data: like `mmap`, but the region is marked
    /// as code.
    pub fn map_code(&mut self, frames: &mut FrameAllocator, start: usize, len: usize, port: usize) -> (r:
        Result<(), MmapError>)
        requires
            old(self).wf(),
            old(frames).wf(),
            old(self).fits(old(frames)),
        ensures
            final(self).wf(),
            final(frames).wf(),
            final(self).fits(final(frames)),
            final(frames).total() == old(frames).total(),
            r == match old(self)@.mmap_failure(old(frames).free_count(), start, len, port) {
                Some(e) => Err::<(), MmapError>(e),
                None => Ok(()),
            },
            r is Err ==> final(self)@ == old(self)@ && final(frames).free_list() == old(
                frames,
            ).free_list(),
            r is Ok ==> old(self)@.region_added(
                old(frames).free_list(),
                SpaceView::requested(start, len, port, RegionKind::Code),
                final(self)@,
                final(frames).free_list(),
            ),
    {
        self.map_region(frames, start, len, port, RegionKind::Code)
    }

    /// Places the user stack: like `mmap`, but the region is marked as
    /// stack.
    pub fn map_stack(&mut self, frames: &mut FrameAllocator, start: usize, len: usize, port: usize) -> (r:
        Result<(), MmapError>)
        requires
            old(self).wf(),
            old(frames).wf(),
            old(self).fits(old(frames)),
        ensures
            final(self).wf(),
            final(frames).wf(),
            final(self).fits(final(frames)),
            final(frames).total() == old(frames).total(),
            r == match old(self)@.mmap_failure(old(frames).free_count(), start, len, port) {
                Some(e) => Err::<(), MmapError>(e),
                None => Ok(()),
            },
            r is Err ==> final(self)@ == old(self)@ && final(frames).free_list() == old(
                frames,
            ).free_list(),
            r is Ok ==> old(self)@.region_added(
                old(frames).free_list(),
                SpaceView::requested(start, len, port, RegionKind::Stack),
                final(self)@,
                final(frames).free_list(),
            ),
    {
        self.map_region(frames, start, len, port, RegionKind::Stack)
    }

    /// Moves the program break by `delta` bytes and returns the break as
    /// it was before. Growing the heap maps the pages it gains, readable
    /// and writable; shrinking it unmaps the pages it loses and returns
    /// their frames.
    ///
    /// Fails, changing nothing, if the new break would lie below the
    /// heap's bottom or beyond the address space, if the heap would grow
    /// into another region, or if the free frames do not suffice.
    pub fn adjust_break(&mut self, frames: &mut FrameAllocator, delta: isize) -> (r: Option<usize>)
        requires
            old(self).wf(),
            old(frames).wf(),
            old(self).fits(old(frames)),
        ensures
            final(self).wf(),
            final(frames).wf(),
            final(self).fits(final(frames)),
            final(frames).total() == old(frames).total(),
            r is None <==> old(self)@.break_failure(old(frames).free_count(), delta as int),
            r is None ==> final(self)@ == old(self)@ && final(frames).free_list() == old(
                frames,
            ).free_list(),
            r matches Some(previous) ==> {
                &&& previous == old(self)@.brk
                &&& old(self)@.break_adjusted(
                    old(frames).free_list(),
                    delta as int,
                    final(self)@,
                    final(frames).free_list(),
                )
            },
    {
        let previous: usize = self.brk;
        let target: usize = if delta >= 0 {
            let grow: usize = delta as usize;
            if grow > ADDRESS_LIMIT - previous {
                return None;
            }
            previous + grow
        } else {
            if delta == isize::MIN {
                return None;
            }
            let shrink: usize = (-delta) as usize;
            if shrink > previous - self.heap_bottom {
                return None;
            }
            previous - shrink
        };
        let old_end: usize = pages_for(previous);
        let new_end: usize = pages_for(target);
        let ghost pre = self@;
        if new_end > old_end {
            if self.overlaps(old_end, new_end) {
                return None;
            }
            if frames.available() < self.frames_for(old_end, new_end - old_end) {
                return None;
            }
            proof {
                assert forall|vpn: int| old_end <= vpn < new_end implies !self.table.mappings().contains_key(
                    vpn,
                ) by {
                    if covered(pre.regions, vpn) {
                        let i = choose|i: int|
                            0 <= i < pre.regions.len() && #[trigger] pre.regions[i].contains(vpn);
                        assert(pre.regions[i].meets(old_end as int, new_end - old_end));
                    }
                }
            }
            // The frames were counted above, so this cannot fail.
            if map_pages(&mut self.table, frames, old_end, new_end - old_end, HEAP_PERMISSION).is_err() {
                return None;
            }
        } else if new_end < old_end {
            proof {
                assert forall|vpn: int| new_end <= vpn < old_end implies self.table.mappings().contains_key(
                    vpn,
                ) by {
                    assert(pre.regions[0].contains(vpn));
                }
            }
            // Every page of the heap is mapped, so this cannot fail.
            if unmap_pages(&mut self.table, frames, new_end, old_end - new_end).is_err() {
                return None;
            }
        } else {
            proof {
                assert(mappings_extended(pre.mappings, pre.mappings, old_end as int, 0, HEAP_PERMISSION));
            }
        }
        self.regions[0].end = new_end;
        self.brk = target;
        proof {
            self.table.lemma_wf();
            let post = self@;
            let heap = post.regions[0];
            assert(heap.start == pre.regions[0].start);
            assert(heap.end == new_end);
            assert(heap.perms == pre.regions[0].perms);
            assert(heap.kind == pre.regions[0].kind);
            assert(post.regions =~= pre.regions.update(0, heap));
            if new_end > old_end {
                assert(mappings_extended(pre.mappings, post.mappings, old_end as int, new_end - old_end, HEAP_PERMISSION));
            } else if new_end < old_end {
                assert(mappings_reduced(pre.mappings, post.mappings, new_end as int, old_end - new_end));
            } else {
                assert(post.mappings == pre.mappings);
            }
            assert forall|i: int| 1 <= i < pre.regions.len() implies post.regions[i] == pre.regions[i] by {}
            assert(regions_wf(post.regions)) by {
                assert forall|i: int, j: int, vpn: int|
                    0 <= i < post.regions.len() && 0 <= j < post.regions.len() && i != j
                        && #[trigger] post.regions[i].contains(vpn) implies !(#[trigger] post.regions[j].contains(
                    vpn,
                )) by {
                    if i == 0 {
                        if pre.regions[j].contains(vpn) && heap.contains(vpn) {
                            if vpn >= old_end {
                                assert(pre.regions[j].meets(old_end as int, new_end - old_end));
                            } else {
                                assert(pre.regions[0].contains(vpn));
                            }
                        }
                    } else if j == 0 {
                        if pre.regions[i].contains(vpn) && heap.contains(vpn) {
                            if vpn >= old_end {
                                assert(pre.regions[i].meets(old_end as int, new_end - old_end));
                            } else {
                                assert(pre.regions[0].contains(vpn));
                            }
                        }
                    } else {
                        assert(pre.regions[i].contains(vpn));
                    }
                }
            }
            assert forall|vpn: int| #[trigger] post.mappings.contains_key(vpn) <==> covered(
                post.regions,
                vpn,
            ) by {
                if post.mappings.contains_key(vpn) {
                    if pre.mappings.contains_key(vpn) {
                        let i = choose|i: int|
                            0 <= i < pre.regions.len() && #[trigger] pre.regions[i].contains(vpn);
                        if i == 0 {
                            assert(post.regions[0].contains(vpn));
                        } else {
                            assert(post.regions[i].contains(vpn));
                        }
                    } else {
                        assert(post.regions[0].contains(vpn));
                    }
                }
                if covered(post.regions, vpn) {
                    let i = choose|i: int|
                        0 <= i < post.regions.len() && #[trigger] post.regions[i].contains(vpn);
                    if i != 0 {
                        assert(pre.regions[i].contains(vpn));
                        assert(!pre.regions[0].contains(vpn));
                        assert(covered(pre.regions, vpn));
                    } else if vpn < old_end {
                        assert(pre.regions[0].contains(vpn));
                        assert(covered(pre.regions, vpn));
                    }
                }
            }
            assert forall|i: int, vpn: int|
                0 <= i < post.regions.len() && #[trigger] post.regions[i].contains(vpn) implies post.mappings[vpn].perms
                == post.regions[i].perms by {
                assert(covered(post.regions, vpn));
                assert(post.mappings.contains_key(vpn));
                if i != 0 {
                    assert(pre.regions[i].contains(vpn));
                    assert(!pre.regions[0].contains(vpn));
                    assert(covered(pre.regions, vpn));
                } else if vpn < old_end {
                    assert(pre.regions[0].contains(vpn));
                    assert(covered(pre.regions, vpn));
                }
            }
        }
        Some(previous)
    }

    /// Gives the whole address space up: every page is unmapped and every
    /// frame it held, those of the page table included, goes back to
    /// `frames`.
    pub fn release(self, frames: &mut FrameAllocator)
        requires
            self.wf(),
            old(frames).wf(),
            self.fits(old(frames)),
        ensures
            final(frames).wf(),
            final(frames).total() == old(frames).total(),
            final(frames).free_set() == old(frames).free_set().union(self@.owned()),
            final(frames).free_list() == self@.released_free(old(frames).free_list()),
    {
        let ghost pre = self@;
        let ghost start = pre.paging(frames.free_list());
        let ghost pool = pre.owned().union(frames.free_set());
        let mut table = self.table;
        let regions = self.regions;
        let mut i: usize = 0;
        while i < regions.len()
            invariant
                i <= regions.len(),
                regions@ == pre.regions,
                regions_wf(pre.regions),
                table.wf(),
                frames.wf(),
                frames.total() == old(frames).total(),
                table.root() == pre.root,
                frames_distinct(table.mappings(), table.tables(), pre.root),
                frames_fit(table.mappings(), table.tables(), pre.root, frames.total(), frames.free_set()),
                forall|vpn: int| #[trigger]
                    table.mappings().contains_key(vpn) <==> exists|j: int|
                        i <= j < regions.len() && #[trigger] pre.regions[j].contains(vpn),
                owned_frames(table.mappings(), table.tables(), pre.root).union(frames.free_set())
                    == pool,
                pool == pre.owned().union(old(frames).free_set()),
                start == pre.paging(old(frames).free_list()),
                regions_unmapped(
                    Paging {
                        mappings: table.mappings(),
                        tables: table.tables(),
                        free: frames.free_list(),
                    },
                    pre.regions,
                    i as int,
                ) == regions_unmapped(start, pre.regions, 0),
            decreases regions.len() - i,
        {
            let r = regions[i];
            let ghost m0 = table.mappings();
            proof {
                assert forall|vpn: int| r.start <= vpn < r.start + (r.end - r.start) implies m0.contains_key(
                    vpn,
                ) by {
                    assert(pre.regions[i as int].contains(vpn));
                }
            }
            // Every page of a region is mapped, so this cannot fail.
            let _ = unmap_pages(&mut table, frames, r.start, r.end - r.start);
            proof {
                assert forall|vpn: int| #[trigger]
                    table.mappings().contains_key(vpn) <==> exists|j: int|
                        i + 1 <= j < regions.len() && #[trigger] pre.regions[j].contains(vpn) by {
                    if table.mappings().contains_key(vpn) {
                        assert(m0.contains_key(vpn));
                        let j = choose|j: int|
                            i <= j < regions.len() && #[trigger] pre.regions[j].contains(vpn);
                        assert(j != i);
                    }
                    if exists|j: int|
                        i + 1 <= j < regions.len() && #[trigger] pre.regions[j].contains(vpn) {
                        let j = choose|j: int|
                            i + 1 <= j < regions.len() && #[trigger] pre.regions[j].contains(vpn);
                        assert(!pre.regions[i as int].contains(vpn));
                        assert(m0.contains_key(vpn));
                    }
                }
            }
            i = i + 1;
        }
        proof {
            table.lemma_wf();
            assert(table.mappings().dom() =~= Set::<int>::empty());
            assert forall|d: int| !table.tables().contains_key(d) by {
                if table_in_use(table.mappings(), d) {
                    let vpn = choose|vpn: int| #[trigger]
                        table.mappings().contains_key(vpn) && table_index(vpn) == d;
                    assert(false);
                }
            }
            assert(owned_frames(table.mappings(), table.tables(), pre.root) =~= set![pre.root]);
        }
        let ghost free_before = frames.free_set();
        table.release(frames);
        proof {
            assert(set![pre.root].union(free_before) == pool);
            assert(frames.free_set() == free_before.insert(pre.root));
            assert(frames.free_set() =~= pool);
            assert(pool =~= old(frames).free_set().union(pre.owned()));
        }
    }
}

} // verus!

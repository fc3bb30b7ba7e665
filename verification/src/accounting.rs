//! Frame accounting for one address space: which frames its page table
//! holds, that no frame is held twice, how many frames a run of pages
//! costs, and which frames exactly a run of pages takes from the free list
//! and gives back to it.

use vstd::prelude::*;
use crate::config::TABLE_ENTRIES;
use crate::page_table::{table_in_use, table_index, PageTableEntry};

verus! {

/// Every frame is held once: no two pages share a frame, no two leaf
/// tables do, and no frame serves as both page and table or as the
/// directory and anything else.
pub open spec fn frames_distinct(
    mappings: Map<int, PageTableEntry>,
    tables: Map<int, usize>,
    root: usize,
) -> bool {
    &&& forall|v: int, w: int|
        #![trigger mappings[v], mappings[w]]
        mappings.contains_key(v) && mappings.contains_key(w) && v != w ==> mappings[v].frame
            != mappings[w].frame
    &&& forall|v: int, d: int|
        #![trigger mappings[v], tables[d]]
        mappings.contains_key(v) && tables.contains_key(d) ==> mappings[v].frame != tables[d]
    &&& forall|v: int| #![trigger mappings[v]] mappings.contains_key(v) ==> mappings[v].frame != root
    &&& forall|c: int, d: int|
        #![trigger tables[c], tables[d]]
        tables.contains_key(c) && tables.contains_key(d) && c != d ==> tables[c] != tables[d]
    &&& forall|d: int| #![trigger tables[d]] tables.contains_key(d) ==> tables[d] != root
}

/// The frames an address space holds: the directory's, the leaf tables'
/// and those that back its pages.
pub open spec fn owned_frames(
    mappings: Map<int, PageTableEntry>,
    tables: Map<int, usize>,
    root: usize,
) -> Set<usize> {
    Set::new(
        |f: usize|
            f == root || (exists|v: int| #[trigger] mappings.contains_key(v) && mappings[v].frame == f)
                || (exists|d: int| #[trigger] tables.contains_key(d) && tables[d] == f),
    )
}

/// Every frame held exists in a machine of `total` frames and is absent
/// from the free set.
pub open spec fn frames_fit(
    mappings: Map<int, PageTableEntry>,
    tables: Map<int, usize>,
    root: usize,
    total: nat,
    free: Set<usize>,
) -> bool {
    &&& root < total
    &&& !free.contains(root)
    &&& forall|v: int|
        #![trigger mappings[v]]
        mappings.contains_key(v) ==> mappings[v].frame < total && !free.contains(mappings[v].frame)
    &&& forall|d: int|
        #![trigger tables[d]]
        tables.contains_key(d) ==> tables[d] < total && !free.contains(tables[d])
}

/// A leaf table exists exactly where a page in its span is mapped.
pub open spec fn tables_follow(mappings: Map<int, PageTableEntry>, tables: Map<int, usize>) -> bool {
    forall|d: int| #[trigger] tables.contains_key(d) <==> table_in_use(mappings, d)
}

/// Number of directory slots from `lo` up to but not including `hi` that
/// have no leaf table.
pub open spec fn missing_tables(tables: Set<int>, lo: int, hi: int) -> nat
    decreases hi - lo,
{
    if hi <= lo {
        0
    } else {
        missing_tables(tables, lo, hi - 1) + if tables.contains(hi - 1) {
            0nat
        } else {
            1nat
        }
    }
}

/// Frames that mapping the `n` pages from `first` on costs: one per page
/// and one per leaf table that does not exist yet.
pub open spec fn frames_needed(tables: Set<int>, first: int, n: int) -> nat {
    if n <= 0 {
        0
    } else {
        (n + missing_tables(tables, table_index(first), table_index(first + n - 1) + 1)) as nat
    }
}

/// The count of missing tables in a span depends only on the slots in it.
pub proof fn lemma_missing_tables_local(a: Set<int>, b: Set<int>, lo: int, hi: int)
    requires
        forall|d: int| lo <= d < hi ==> (a.contains(d) <==> b.contains(d)),
    ensures
        missing_tables(a, lo, hi) == missing_tables(b, lo, hi),
    decreases hi - lo,
{
    if lo < hi {
        lemma_missing_tables_local(a, b, lo, hi - 1);
    }
}

/// The count over a span is the sum of the counts over its two parts.
pub proof fn lemma_missing_tables_split(tables: Set<int>, lo: int, mid: int, hi: int)
    requires
        lo <= mid <= hi,
    ensures
        missing_tables(tables, lo, hi) == missing_tables(tables, lo, mid) + missing_tables(
            tables,
            mid,
            hi,
        ),
    decreases hi - mid,
{
    if mid < hi {
        lemma_missing_tables_split(tables, lo, mid, hi - 1);
    }
}

/// A span has at most as many missing tables as it has slots.
pub proof fn lemma_missing_tables_bound(tables: Set<int>, lo: int, hi: int)
    requires
        lo <= hi,
    ensures
        missing_tables(tables, lo, hi) <= hi - lo,
    decreases hi - lo,
{
    if lo < hi {
        lemma_missing_tables_bound(tables, lo, hi - 1);
    }
}

/// Mapping the first page of a run leaves the cost of the rest: the page
/// takes one frame, and one more if its leaf table was missing.
pub proof fn lemma_frames_needed_step(tables: Set<int>, first: int, n: int)
    requires
        n > 0,
        first >= 0,
    ensures
        frames_needed(tables, first, n) == 1 + (if tables.contains(table_index(first)) {
            0nat
        } else {
            1nat
        }) + frames_needed(tables.insert(table_index(first)), first + 1, n - 1),
{
    let d = table_index(first);
    let hi = table_index(first + n - 1) + 1;
    let after = tables.insert(d);
    assert(d <= table_index(first + n - 1)) by {
        assert(first / (TABLE_ENTRIES as int) <= (first + n - 1) / (TABLE_ENTRIES as int));
    }
    lemma_missing_tables_split(tables, d, d + 1, hi);
    assert(missing_tables(tables, d, d + 1) == missing_tables(tables, d, d) + if tables.contains(d) {
        0nat
    } else {
        1nat
    });
    lemma_missing_tables_local(tables, after, d + 1, hi);
    if n == 1 {
        assert(missing_tables(tables, d + 1, hi) == 0);
    } else {
        let e = table_index(first + 1);
        assert(e == d || e == d + 1);
        if e == d {
            lemma_missing_tables_split(after, d, d + 1, hi);
            assert(missing_tables(after, d, d + 1) == missing_tables(after, d, d));
        }
    }
}

/// Mapping one more page adds its frame to the frames held.
pub proof fn lemma_owned_map_page(
    mappings: Map<int, PageTableEntry>,
    tables: Map<int, usize>,
    root: usize,
    vpn: int,
    entry: PageTableEntry,
)
    requires
        !mappings.contains_key(vpn),
    ensures
        owned_frames(mappings.insert(vpn, entry), tables, root) == owned_frames(
            mappings,
            tables,
            root,
        ).insert(entry.frame),
{
    let after = mappings.insert(vpn, entry);
    assert forall|f: usize|
        owned_frames(after, tables, root).contains(f) <==> owned_frames(
            mappings,
            tables,
            root,
        ).insert(entry.frame).contains(f) by {
        if owned_frames(after, tables, root).contains(f) && f != entry.frame {
            if exists|v: int| #[trigger] after.contains_key(v) && after[v].frame == f {
                let v = choose|v: int| #[trigger] after.contains_key(v) && after[v].frame == f;
                assert(mappings.contains_key(v) && mappings[v].frame == f);
            }
        }
        if owned_frames(mappings, tables, root).contains(f) {
            if exists|v: int| #[trigger] mappings.contains_key(v) && mappings[v].frame == f {
                let v = choose|v: int| #[trigger] mappings.contains_key(v) && mappings[v].frame == f;
                assert(after.contains_key(v) && after[v].frame == f);
            }
        }
        if f == entry.frame {
            assert(after.contains_key(vpn) && after[vpn].frame == f);
        }
    }
    assert(owned_frames(after, tables, root) =~= owned_frames(mappings, tables, root).insert(
        entry.frame,
    ));
}

/// A new leaf table adds its frame to the frames held.
pub proof fn lemma_owned_add_table(
    mappings: Map<int, PageTableEntry>,
    tables: Map<int, usize>,
    root: usize,
    d: int,
    frame: usize,
)
    requires
        !tables.contains_key(d),
    ensures
        owned_frames(mappings, tables.insert(d, frame), root) == owned_frames(
            mappings,
            tables,
            root,
        ).insert(frame),
{
    let after = tables.insert(d, frame);
    assert forall|f: usize|
        owned_frames(mappings, after, root).contains(f) <==> owned_frames(
            mappings,
            tables,
            root,
        ).insert(frame).contains(f) by {
        if owned_frames(mappings, after, root).contains(f) && f != frame {
            if exists|c: int| #[trigger] after.contains_key(c) && after[c] == f {
                let c = choose|c: int| #[trigger] after.contains_key(c) && after[c] == f;
                assert(tables.contains_key(c) && tables[c] == f);
            }
        }
        if owned_frames(mappings, tables, root).contains(f) {
            if exists|c: int| #[trigger] tables.contains_key(c) && tables[c] == f {
                let c = choose|c: int| #[trigger] tables.contains_key(c) && tables[c] == f;
                assert(after.contains_key(c) && after[c] == f);
            }
        }
        if f == frame {
            assert(after.contains_key(d) && after[d] == f);
        }
    }
    assert(owned_frames(mappings, after, root) =~= owned_frames(mappings, tables, root).insert(
        frame,
    ));
}

/// Unmapping a page takes its frame out of the frames held.
pub proof fn lemma_owned_unmap_page(
    mappings: Map<int, PageTableEntry>,
    tables: Map<int, usize>,
    root: usize,
    vpn: int,
)
    requires
        mappings.contains_key(vpn),
        frames_distinct(mappings, tables, root),
    ensures
        owned_frames(mappings.remove(vpn), tables, root) == owned_frames(
            mappings,
            tables,
            root,
        ).remove(mappings[vpn].frame),
{
    let after = mappings.remove(vpn);
    let gone = mappings[vpn].frame;
    assert forall|f: usize|
        owned_frames(after, tables, root).contains(f) <==> owned_frames(
            mappings,
            tables,
            root,
        ).remove(gone).contains(f) by {
        if owned_frames(after, tables, root).contains(f) {
            if exists|v: int| #[trigger] after.contains_key(v) && after[v].frame == f {
                let v = choose|v: int| #[trigger] after.contains_key(v) && after[v].frame == f;
                assert(mappings.contains_key(v) && mappings[v].frame == f);
                assert(mappings[v].frame != mappings[vpn].frame);
            } else if exists|c: int| #[trigger] tables.contains_key(c) && tables[c] == f {
                let c = choose|c: int| #[trigger] tables.contains_key(c) && tables[c] == f;
                assert(mappings[vpn].frame != tables[c]);
            }
        }
        if owned_frames(mappings, tables, root).contains(f) && f != gone {
            if exists|v: int| #[trigger] mappings.contains_key(v) && mappings[v].frame == f {
                let v = choose|v: int| #[trigger] mappings.contains_key(v) && mappings[v].frame == f;
                assert(after.contains_key(v) && after[v].frame == f);
            }
        }
    }
    assert(owned_frames(after, tables, root) =~= owned_frames(mappings, tables, root).remove(gone));
}

/// Dropping a leaf table takes its frame out of the frames held.
pub proof fn lemma_owned_drop_table(
    mappings: Map<int, PageTableEntry>,
    tables: Map<int, usize>,
    root: usize,
    d: int,
)
    requires
        tables.contains_key(d),
        frames_distinct(mappings, tables, root),
    ensures
        owned_frames(mappings, tables.remove(d), root) == owned_frames(
            mappings,
            tables,
            root,
        ).remove(tables[d]),
{
    let after = tables.remove(d);
    let gone = tables[d];
    assert forall|f: usize|
        owned_frames(mappings, after, root).contains(f) <==> owned_frames(
            mappings,
            tables,
            root,
        ).remove(gone).contains(f) by {
        if owned_frames(mappings, after, root).contains(f) {
            if exists|c: int| #[trigger] after.contains_key(c) && after[c] == f {
                let c = choose|c: int| #[trigger] after.contains_key(c) && after[c] == f;
                assert(tables.contains_key(c) && tables[c] == f);
                assert(tables[c] != tables[d]);
            } else if exists|v: int| #[trigger] mappings.contains_key(v) && mappings[v].frame == f {
                let v = choose|v: int| #[trigger] mappings.contains_key(v) && mappings[v].frame == f;
                assert(mappings[v].frame != tables[d]);
            }
        }
        if owned_frames(mappings, tables, root).contains(f) && f != gone {
            if exists|c: int| #[trigger] tables.contains_key(c) && tables[c] == f {
                let c = choose|c: int| #[trigger] tables.contains_key(c) && tables[c] == f;
                assert(after.contains_key(c) && after[c] == f);
            }
        }
    }
    assert(owned_frames(mappings, after, root) =~= owned_frames(mappings, tables, root).remove(
        gone,
    ));
}

/// Frames that are held exist and are not free, so the frames held and
/// the free frames have no member in common.
pub proof fn lemma_owned_apart_from_free(
    mappings: Map<int, PageTableEntry>,
    tables: Map<int, usize>,
    root: usize,
    total: nat,
    free: Set<usize>,
)
    requires
        frames_fit(mappings, tables, root, total, free),
    ensures
        owned_frames(mappings, tables, root).disjoint(free),
        forall|f: usize| #[trigger] owned_frames(mappings, tables, root).contains(f) ==> f < total,
{
    assert forall|f: usize| owned_frames(mappings, tables, root).contains(f) implies !free.contains(
        f,
    ) && f < total by {
        if exists|v: int| #[trigger] mappings.contains_key(v) && mappings[v].frame == f {
            let v = choose|v: int| #[trigger] mappings.contains_key(v) && mappings[v].frame == f;
            assert(!free.contains(mappings[v].frame));
        } else if exists|d: int| #[trigger] tables.contains_key(d) && tables[d] == f {
            let d = choose|d: int| #[trigger] tables.contains_key(d) && tables[d] == f;
            assert(!free.contains(tables[d]));
        }
    }
}

/// If every frame held exists and is not free, the frames of the pages,
/// of the leaf tables and of the directory each do and are not.
pub proof fn lemma_fit_from_owned(
    mappings: Map<int, PageTableEntry>,
    tables: Map<int, usize>,
    root: usize,
    total: nat,
    free: Set<usize>,
)
    requires
        forall|f: usize| #[trigger]
            owned_frames(mappings, tables, root).contains(f) ==> f < total && !free.contains(f),
    ensures
        frames_fit(mappings, tables, root, total, free),
{
    assert(owned_frames(mappings, tables, root).contains(root));
    assert forall|v: int| #![trigger mappings[v]] mappings.contains_key(v) implies mappings[v].frame
        < total && !free.contains(mappings[v].frame) by {
        assert(owned_frames(mappings, tables, root).contains(mappings[v].frame));
    }
    assert forall|d: int| #![trigger tables[d]] tables.contains_key(d) implies tables[d] < total
        && !free.contains(tables[d]) by {
        assert(owned_frames(mappings, tables, root).contains(tables[d]));
    }
}

/// A page table together with the free list it draws its frames from.
pub struct Paging {
    /// The valid entries, by virtual page number.
    pub mappings: Map<int, PageTableEntry>,
    /// The frame of each leaf table, by directory slot.
    pub tables: Map<int, usize>,
    /// The free list, top of the stack last.
    pub free: Seq<usize>,
}

/// Mapping one page: the page takes the frame on top of the free list,
/// and if its leaf table is missing, the table takes the next one.
pub open spec fn page_mapped(s: Paging, vpn: int, perms: usize) -> Paging {
    let d = table_index(vpn);
    let entry = PageTableEntry { frame: s.free.last(), perms };
    let rest = s.free.drop_last();
    if s.tables.contains_key(d) {
        Paging { mappings: s.mappings.insert(vpn, entry), tables: s.tables, free: rest }
    } else {
        Paging {
            mappings: s.mappings.insert(vpn, entry),
            tables: s.tables.insert(d, rest.last()),
            free: rest.drop_last(),
        }
    }
}

/// Mapping the `n` pages from `first` on, lowest page first.
pub open spec fn pages_mapped(s: Paging, first: int, n: int, perms: usize) -> Paging
    decreases n,
{
    if n <= 0 {
        s
    } else {
        pages_mapped(page_mapped(s, first, perms), first + 1, n - 1, perms)
    }
}

/// Unmapping one page: if that leaves its leaf table without any entry,
/// the table goes and its frame is put on the free list; then the page's
/// frame is put on top.
pub open spec fn page_unmapped(s: Paging, vpn: int) -> Paging {
    let d = table_index(vpn);
    let left = s.mappings.remove(vpn);
    if table_in_use(left, d) {
        Paging { mappings: left, tables: s.tables, free: s.free.push(s.mappings[vpn].frame) }
    } else {
        Paging {
            mappings: left,
            tables: s.tables.remove(d),
            free: s.free.push(s.tables[d]).push(s.mappings[vpn].frame),
        }
    }
}

/// Unmapping the `n` pages from `first` on, highest page first.
pub open spec fn pages_unmapped(s: Paging, first: int, n: int) -> Paging
    decreases n,
{
    if n <= 0 {
        s
    } else {
        pages_unmapped(page_unmapped(s, first + n - 1), first, n - 1)
    }
}

/// Mapping a page keeps the leaf tables where the pages are.
pub proof fn lemma_page_mapped_follows(s: Paging, vpn: int, perms: usize)
    requires
        tables_follow(s.mappings, s.tables),
    ensures
        tables_follow(page_mapped(s, vpn, perms).mappings, page_mapped(s, vpn, perms).tables),
        page_mapped(s, vpn, perms).tables.dom() == s.tables.dom().insert(table_index(vpn)),
{
    let after = page_mapped(s, vpn, perms);
    assert(after.mappings.contains_key(vpn));
    assert forall|d: int| #[trigger] after.tables.contains_key(d) <==> table_in_use(
        after.mappings,
        d,
    ) by {
        if after.tables.contains_key(d) {
            if d == table_index(vpn) {
                assert(after.mappings.contains_key(vpn) && table_index(vpn) == d);
            } else {
                assert(table_in_use(s.mappings, d));
                let v = choose|v: int| #[trigger] s.mappings.contains_key(v) && table_index(v) == d;
                assert(after.mappings.contains_key(v) && table_index(v) == d);
            }
        }
        if table_in_use(after.mappings, d) {
            let v = choose|v: int| #[trigger] after.mappings.contains_key(v) && table_index(v) == d;
            if v != vpn {
                assert(s.mappings.contains_key(v) && table_index(v) == d);
                assert(table_in_use(s.mappings, d));
            }
        }
    }
    assert(after.tables.dom() =~= s.tables.dom().insert(table_index(vpn)));
}

/// Unmapping a page that was just mapped undoes the mapping: the page
/// table and the free list are what they were.
pub proof fn lemma_page_round_trip(s: Paging, vpn: int, perms: usize)
    requires
        !s.mappings.contains_key(vpn),
        tables_follow(s.mappings, s.tables),
        s.free.len() >= frames_needed(s.tables.dom(), vpn, 1),
        vpn >= 0,
    ensures
        page_unmapped(page_mapped(s, vpn, perms), vpn) == s,
{
    let d = table_index(vpn);
    let mapped = page_mapped(s, vpn, perms);
    let back = page_unmapped(mapped, vpn);
    lemma_frames_needed_step(s.tables.dom(), vpn, 1);
    assert(mapped.mappings.remove(vpn) =~= s.mappings);
    assert(table_in_use(s.mappings, d) <==> s.tables.contains_key(d));
    if s.tables.contains_key(d) {
        assert(s.free.len() >= 1);
        assert(back.free =~= s.free);
    } else {
        assert(s.free.len() >= 2);
        assert(back.tables =~= s.tables);
        assert(back.free =~= s.free);
    }
}

/// Unmapping a run highest page first ends with unmapping its lowest page.
pub proof fn lemma_pages_unmapped_lowest_last(s: Paging, first: int, n: int)
    requires
        n >= 1,
    ensures
        pages_unmapped(s, first, n) == page_unmapped(pages_unmapped(s, first + 1, n - 1), first),
    decreases n,
{
    if n > 1 {
        lemma_pages_unmapped_lowest_last(page_unmapped(s, first + n - 1), first, n - 1);
    } else {
        assert(pages_unmapped(s, first, 1) == pages_unmapped(page_unmapped(s, first), first, 0));
    }
}

/// Unmapping a run of pages that was just mapped undoes the mapping: the
/// page table and the free list, in its order, are what they were.
pub proof fn lemma_pages_round_trip(s: Paging, first: int, n: int, perms: usize)
    requires
        first >= 0,
        forall|vpn: int| first <= vpn < first + n ==> !s.mappings.contains_key(vpn),
        tables_follow(s.mappings, s.tables),
        s.free.len() >= frames_needed(s.tables.dom(), first, n),
    ensures
        pages_unmapped(pages_mapped(s, first, n, perms), first, n) == s,
    decreases n,
{
    if n > 0 {
        let one = page_mapped(s, first, perms);
        lemma_frames_needed_step(s.tables.dom(), first, n);
        lemma_page_mapped_follows(s, first, perms);
        assert(frames_needed(s.tables.dom(), first, 1) <= frames_needed(s.tables.dom(), first, n))
            by {
            lemma_frames_needed_step(s.tables.dom(), first, 1);
        }
        lemma_pages_round_trip(one, first + 1, n - 1, perms);
        lemma_pages_unmapped_lowest_last(pages_mapped(s, first, n, perms), first, n);
        lemma_page_round_trip(s, first, perms);
    }
}

/// Unmapping a page keeps the leaf tables where the pages are.
pub proof fn lemma_page_unmapped_follows(s: Paging, vpn: int)
    requires
        tables_follow(s.mappings, s.tables),
    ensures
        tables_follow(page_unmapped(s, vpn).mappings, page_unmapped(s, vpn).tables),
{
    let after = page_unmapped(s, vpn);
    let d0 = table_index(vpn);
    assert forall|d: int| #[trigger] after.tables.contains_key(d) <==> table_in_use(
        after.mappings,
        d,
    ) by {
        if after.tables.contains_key(d) {
            assert(s.tables.contains_key(d));
            assert(table_in_use(s.mappings, d));
            if d != d0 {
                let v = choose|v: int| #[trigger] s.mappings.contains_key(v) && table_index(v) == d;
                assert(after.mappings.contains_key(v) && table_index(v) == d);
            }
        }
        if table_in_use(after.mappings, d) {
            let v = choose|v: int| #[trigger] after.mappings.contains_key(v) && table_index(v) == d;
            assert(s.mappings.contains_key(v) && table_index(v) == d);
            assert(table_in_use(s.mappings, d));
        }
    }
}

/// Mapping a page that was just unmapped, with the access bits it had,
/// undoes the unmapping: the page gets its frame back, and so does its
/// leaf table.
pub proof fn lemma_page_round_trip_back(s: Paging, vpn: int, perms: usize)
    requires
        s.mappings.contains_key(vpn),
        s.mappings[vpn].perms == perms,
        tables_follow(s.mappings, s.tables),
    ensures
        page_mapped(page_unmapped(s, vpn), vpn, perms) == s,
{
    let d = table_index(vpn);
    let unmapped = page_unmapped(s, vpn);
    let back = page_mapped(unmapped, vpn, perms);
    assert(table_in_use(s.mappings, d));
    assert(s.tables.contains_key(d));
    assert(back.mappings =~= s.mappings);
    assert(back.tables =~= s.tables);
    assert(back.free =~= s.free);
}

/// Mapping a run lowest page first ends with mapping its highest page.
pub proof fn lemma_pages_mapped_highest_last(s: Paging, first: int, n: int, perms: usize)
    requires
        n >= 1,
    ensures
        pages_mapped(s, first, n, perms) == page_mapped(
            pages_mapped(s, first, n - 1, perms),
            first + n - 1,
            perms,
        ),
    decreases n,
{
    if n > 1 {
        lemma_pages_mapped_highest_last(page_mapped(s, first, perms), first + 1, n - 1, perms);
    } else {
        assert(pages_mapped(s, first, 1, perms) == pages_mapped(
            page_mapped(s, first, perms),
            first + 1,
            0,
            perms,
        ));
    }
}

/// Mapping a run of pages that was just unmapped, with the access bits
/// the pages had, undoes the unmapping: the page table and the free list,
/// in its order, are what they were.
pub proof fn lemma_pages_round_trip_back(s: Paging, first: int, n: int, perms: usize)
    requires
        forall|vpn: int|
            first <= vpn < first + n ==> #[trigger] s.mappings.contains_key(vpn)
                && s.mappings[vpn].perms == perms,
        tables_follow(s.mappings, s.tables),
    ensures
        pages_mapped(pages_unmapped(s, first, n), first, n, perms) == s,
    decreases n,
{
    if n > 0 {
        let top = first + n - 1;
        let one = page_unmapped(s, top);
        assert(s.mappings.contains_key(top));
        lemma_page_unmapped_follows(s, top);
        assert forall|vpn: int| first <= vpn < first + (n - 1) implies #[trigger] one.mappings.contains_key(
            vpn,
        ) && one.mappings[vpn].perms == perms by {
            assert(s.mappings.contains_key(vpn));
        }
        lemma_pages_round_trip_back(one, first, n - 1, perms);
        lemma_pages_mapped_highest_last(pages_unmapped(s, first, n), first, n, perms);
        lemma_page_round_trip_back(s, top, perms);
    }
}

} // verus!

//! Memory regions: runs of virtual pages with one set of access bits and
//! one purpose, and the bookkeeping of a list of them.

use vstd::prelude::*;
use crate::config::MAX_VPN;
use crate::page_table::valid_permission;

verus! {

/// What a region is for.
#[derive(Clone, Copy, PartialEq, Eq, Structural, Debug)]
pub enum RegionKind {
    /// Program text and data placed by the loader.
    Code,
    /// The user stack placed by the loader.
    Stack,
    /// The heap, whose upper end is the program break.
    Heap,
    /// A region created by a mapping request of the program.
    Mmap,
}

/// The virtual pages from `start` up to but not including `end`.
#[derive(Clone, Copy, PartialEq, Eq, Structural, Debug)]
pub struct MemoryRegion {
    pub start: usize,
    pub end: usize,
    pub perms: usize,
    pub kind: RegionKind,
}

impl MemoryRegion {
    /// Whether virtual page `vpn` lies in the region.
    pub open spec fn contains(self, vpn: int) -> bool {
        self.start <= vpn < self.end
    }

    /// Whether the region shares a page with the `n` pages from `first` on.
    pub open spec fn meets(self, first: int, n: int) -> bool {
        self.start < self.end && self.start < first + n && first < self.end && n > 0
    }

    /// Tells whether the region shares a page with the pages from `first`
    /// up to but not including `end`.
    pub fn intersects(&self, first: usize, end: usize) -> (b: bool)
        ensures
            b == self.meets(first as int, end - first),
    {
        self.start < self.end && first < end && self.start < end && first < self.end
    }
}

/// Whether some region holds virtual page `vpn`.
pub open spec fn covered(regions: Seq<MemoryRegion>, vpn: int) -> bool {
    exists|i: int| 0 <= i < regions.len() && #[trigger] regions[i].contains(vpn)
}

/// Whether virtual page `vpn` lies in a region that a mapping request
/// created.
pub open spec fn mmap_backed(regions: Seq<MemoryRegion>, vpn: int) -> bool {
    exists|i: int|
        0 <= i < regions.len() && #[trigger] regions[i].contains(vpn) && regions[i].kind
            == RegionKind::Mmap
}

/// Whether any region shares a page with the `n` pages from `first` on.
pub open spec fn range_overlaps(regions: Seq<MemoryRegion>, first: int, n: int) -> bool {
    exists|i: int| 0 <= i < regions.len() && #[trigger] regions[i].meets(first, n)
}

/// Whether each of the `n` pages from `first` on lies in a region that a
/// mapping request created.
pub open spec fn range_mmap_backed(regions: Seq<MemoryRegion>, first: int, n: int) -> bool {
    forall|vpn: int| first <= vpn < first + n ==> #[trigger] mmap_backed(regions, vpn)
}

/// No page lies in two regions.
pub open spec fn regions_disjoint(regions: Seq<MemoryRegion>) -> bool {
    forall|i: int, j: int, vpn: int|
        0 <= i < regions.len() && 0 <= j < regions.len() && i != j && #[trigger] regions[i].contains(vpn)
            ==> !(#[trigger] regions[j].contains(vpn))
}

/// The list starts with the heap, which alone may be empty; every region
/// lies inside the address space with acceptable access bits; and no page
/// lies in two regions.
pub open spec fn regions_wf(regions: Seq<MemoryRegion>) -> bool {
    &&& regions.len() >= 1
    &&& regions[0].kind == RegionKind::Heap
    &&& forall|i: int|
        0 <= i < regions.len() ==> {
            let r = #[trigger] regions[i];
            &&& r.start <= r.end <= MAX_VPN
            &&& valid_permission(r.perms)
            &&& i >= 1 ==> r.kind != RegionKind::Heap && r.start < r.end
        }
    &&& regions_disjoint(regions)
}

/// What is left of region `r` once the pages from `lo` up to `hi` are
/// taken out of it: nothing, one piece or two. Only regions created by
/// mapping requests give pages up.
pub open spec fn carve(r: MemoryRegion, lo: usize, hi: usize) -> Seq<MemoryRegion> {
    if r.kind != RegionKind::Mmap || hi <= lo {
        seq![r]
    } else {
        let left = if r.start < lo {
            seq![MemoryRegion { start: r.start, end: if r.end < lo { r.end } else { lo }, perms: r.perms, kind: r.kind }]
        } else {
            Seq::<MemoryRegion>::empty()
        };
        let right = if hi < r.end {
            seq![MemoryRegion { start: if r.start < hi { hi } else { r.start }, end: r.end, perms: r.perms, kind: r.kind }]
        } else {
            Seq::<MemoryRegion>::empty()
        };
        left + right
    }
}

/// The region list after the pages from `lo` up to `hi` are taken out of
/// the regions created by mapping requests: each region is replaced, in
/// place, by what is left of it.
pub open spec fn regions_without(regions: Seq<MemoryRegion>, lo: usize, hi: usize) -> Seq<
    MemoryRegion,
>
    decreases regions.len(),
{
    if regions.len() == 0 {
        Seq::<MemoryRegion>::empty()
    } else {
        regions_without(regions.drop_last(), lo, hi) + carve(regions.last(), lo, hi)
    }
}

/// `p` is a part of `r` that kept its access bits and purpose and that the
/// pages from `lo` to `hi` were taken out of.
pub open spec fn piece_of(p: MemoryRegion, r: MemoryRegion, lo: usize, hi: usize) -> bool {
    &&& r.start <= p.start
    &&& p.end <= r.end
    &&& p.start <= p.end
    &&& p.kind == r.kind
    &&& p.perms == r.perms
    &&& r.start < r.end ==> p.start < p.end
    &&& p.kind == RegionKind::Mmap ==> p.end <= lo || hi <= p.start
    &&& p.kind != RegionKind::Mmap ==> p == r
}

/// Taking pages out of a list that starts with a region of another kind
/// than `Mmap` keeps that first region in front, makes every region of
/// the result a piece of a region of the list, pieces behind the first of
/// regions behind the first, keeps every page that was not taken out, and
/// keeps the regions disjoint.
pub proof fn lemma_regions_without(regions: Seq<MemoryRegion>, lo: usize, hi: usize)
    requires
        regions.len() >= 1,
        regions[0].kind != RegionKind::Mmap,
        lo < hi,
        forall|i: int| 0 <= i < regions.len() ==> (#[trigger] regions[i]).start <= regions[i].end,
        regions_disjoint(regions),
    ensures
        regions_without(regions, lo, hi).len() >= 1,
        regions_without(regions, lo, hi)[0] == regions[0],
        forall|k: int|
            0 <= k < regions_without(regions, lo, hi).len() ==> exists|i: int|
                0 <= i < regions.len() && (k >= 1 ==> i >= 1) && piece_of(
                    #[trigger] regions_without(regions, lo, hi)[k],
                    #[trigger] regions[i],
                    lo,
                    hi,
                ),
        forall|i: int, vpn: int|
            0 <= i < regions.len() && #[trigger] regions[i].contains(vpn) && !(regions[i].kind
                == RegionKind::Mmap && lo <= vpn < hi) ==> #[trigger] covered(
                regions_without(regions, lo, hi),
                vpn,
            ),
        regions_disjoint(regions_without(regions, lo, hi)),
    decreases regions.len(),
{
    let res = regions_without(regions, lo, hi);
    let last = regions.last();
    let front = regions.drop_last();
    let prev = regions_without(front, lo, hi);
    let tail = carve(last, lo, hi);
    assert(res == prev + tail);
    if regions.len() == 1 {
        assert(front.len() == 0);
        assert(prev.len() == 0);
        assert(tail == seq![last]);
        assert(res =~= seq![regions[0]]);
        assert forall|k: int| 0 <= k < res.len() implies exists|i: int|
            0 <= i < regions.len() && (k >= 1 ==> i >= 1) && piece_of(
                #[trigger] res[k],
                #[trigger] regions[i],
                lo,
                hi,
            ) by {
            assert(piece_of(res[0], regions[0], lo, hi));
        }
        assert forall|i: int, vpn: int|
            0 <= i < regions.len() && #[trigger] regions[i].contains(vpn) && !(regions[i].kind
                == RegionKind::Mmap && lo <= vpn < hi) implies #[trigger] covered(res, vpn) by {
            assert(res[0].contains(vpn));
        }
    } else {
        assert(front[0] == regions[0]);
        assert forall|i: int| 0 <= i < front.len() implies (#[trigger] front[i]).start
            <= front[i].end by {
            assert(front[i] == regions[i]);
        }
        assert(regions_disjoint(front)) by {
            assert forall|i: int, j: int, vpn: int|
                0 <= i < front.len() && 0 <= j < front.len() && i != j && #[trigger] front[i].contains(vpn)
                implies !(#[trigger] front[j].contains(vpn)) by {
                assert(front[i] == regions[i] && front[j] == regions[j]);
            }
        }
        lemma_regions_without(front, lo, hi);
        let n = regions.len() - 1;
        assert(res[0] == prev[0]);
        assert forall|k: int| 0 <= k < res.len() implies exists|i: int|
            0 <= i < regions.len() && (k >= 1 ==> i >= 1) && piece_of(
                #[trigger] res[k],
                #[trigger] regions[i],
                lo,
                hi,
            ) by {
            if k < prev.len() {
                assert(res[k] == prev[k]);
                let i = choose|i: int|
                    0 <= i < front.len() && (k >= 1 ==> i >= 1) && piece_of(
                        prev[k],
                        #[trigger] front[i],
                        lo,
                        hi,
                    );
                assert(front[i] == regions[i]);
                assert(piece_of(res[k], regions[i], lo, hi));
            } else {
                assert(res[k] == tail[k - prev.len()]);
                assert(piece_of(res[k], regions[n], lo, hi));
            }
        }
        assert forall|i: int, vpn: int|
            0 <= i < regions.len() && #[trigger] regions[i].contains(vpn) && !(regions[i].kind
                == RegionKind::Mmap && lo <= vpn < hi) implies #[trigger] covered(res, vpn) by {
            if i < n {
                assert(front[i] == regions[i]);
                assert(covered(prev, vpn));
                let k = choose|k: int| 0 <= k < prev.len() && #[trigger] prev[k].contains(vpn);
                assert(res[k] == prev[k]);
                assert(res[k].contains(vpn));
            } else {
                if last.kind != RegionKind::Mmap {
                    assert(res[prev.len() as int] == last);
                    assert(res[prev.len() as int].contains(vpn));
                } else if vpn < lo {
                    assert(tail[0].contains(vpn));
                    assert(res[prev.len() as int] == tail[0]);
                    assert(res[prev.len() as int].contains(vpn));
                } else {
                    let t = tail.len() - 1;
                    assert(tail[t].contains(vpn));
                    assert(res[prev.len() + t] == tail[t]);
                    assert(res[prev.len() + t].contains(vpn));
                }
            }
        }
        assert forall|a: int, b: int, vpn: int|
            0 <= a < res.len() && 0 <= b < res.len() && a != b && #[trigger] res[a].contains(
                vpn,
            ) implies !(#[trigger] res[b].contains(vpn)) by {
            if a < prev.len() && b < prev.len() {
                assert(res[a] == prev[a] && res[b] == prev[b]);
            } else if a >= prev.len() && b >= prev.len() {
                assert(res[a] == tail[a - prev.len()] && res[b] == tail[b - prev.len()]);
            } else {
                let (inner, outer) = if a < prev.len() {
                    (a, b)
                } else {
                    (b, a)
                };
                assert(res[inner] == prev[inner]);
                assert(res[outer] == tail[outer - prev.len()]);
                let i = choose|i: int|
                    0 <= i < front.len() && (inner >= 1 ==> i >= 1) && piece_of(
                        prev[inner],
                        #[trigger] front[i],
                        lo,
                        hi,
                    );
                assert(front[i] == regions[i]);
                if res[inner].contains(vpn) && res[outer].contains(vpn) {
                    assert(regions[i].contains(vpn));
                    assert(regions[n].contains(vpn));
                }
            }
        }
    }
}

/// Taking out pages that no region created by a mapping request holds
/// leaves the list as it is.
pub proof fn lemma_regions_without_apart(regions: Seq<MemoryRegion>, lo: usize, hi: usize)
    requires
        forall|i: int|
            0 <= i < regions.len() && (#[trigger] regions[i]).kind == RegionKind::Mmap
                ==> regions[i].start < regions[i].end && !regions[i].meets(lo as int, hi - lo),
    ensures
        regions_without(regions, lo, hi) == regions,
    decreases regions.len(),
{
    if regions.len() > 0 {
        let front = regions.drop_last();
        assert forall|i: int|
            0 <= i < front.len() && (#[trigger] front[i]).kind == RegionKind::Mmap implies front[i].start
            < front[i].end && !front[i].meets(lo as int, hi - lo) by {
            assert(front[i] == regions[i]);
        }
        lemma_regions_without_apart(front, lo, hi);
        let last = regions.last();
        assert(last == regions[regions.len() - 1]);
        assert(carve(last, lo, hi) =~= seq![last]);
        assert(regions_without(regions, lo, hi) =~= regions);
    } else {
        assert(regions_without(regions, lo, hi) =~= regions);
    }
}

} // verus!

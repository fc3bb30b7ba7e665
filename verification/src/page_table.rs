//! A two-level page table: a directory of leaf tables, each leaf holding
//! the entries of `TABLE_ENTRIES` consecutive virtual pages.
//!
//! The table owns the frame of its directory and one frame per leaf table.
//! A leaf table comes into being when the first page in its span is mapped
//! and goes away, frame included, when its last page is unmapped, so the
//! set of leaf tables is a function of what is mapped.

use vstd::prelude::*;
use crate::config::{MAX_FRAMES, MAX_VPN, PAGE_SIZE, TABLE_ENTRIES};
use crate::frame::FrameAllocator;

verus! {

/// Why a page-table operation was refused.
#[derive(Clone, Copy, PartialEq, Eq, Structural, Debug)]
pub enum PageTableError {
    /// The virtual page or the frame lies outside the machine's range.
    InvalidAddress,
    /// The permission bits grant no access or hold bits outside the mask.
    InvalidPermission,
    /// The virtual page already has a valid entry.
    AlreadyMapped,
    /// The virtual page has no valid entry.
    NotMapped,
    /// A leaf table was needed and no frame was free.
    OutOfMemory,
}

/// One valid entry: the frame a page is backed by and its permission bits
/// (bit 0 readable, bit 1 writable, bit 2 executable).
#[derive(Clone, Copy, PartialEq, Eq, Structural, Debug)]
pub struct PageTableEntry {
    pub frame: usize,
    pub perms: usize,
}

impl PageTableEntry {
    /// Whether the page may be read.
    pub open spec fn spec_readable(&self) -> bool {
        self.perms & 1 != 0
    }

    /// Whether the page may be written.
    pub open spec fn spec_writable(&self) -> bool {
        self.perms & 2 != 0
    }

    /// Whether the page may be executed.
    pub open spec fn spec_executable(&self) -> bool {
        self.perms & 4 != 0
    }

    /// Whether the page may be read.
    #[verifier::when_used_as_spec(spec_readable)]
    pub fn readable(&self) -> (yes: bool)
        ensures
            yes == self.spec_readable(),
    {
        self.perms & 1 != 0
    }

    /// Whether the page may be written.
    #[verifier::when_used_as_spec(spec_writable)]
    pub fn writable(&self) -> (yes: bool)
        ensures
            yes == self.spec_writable(),
    {
        self.perms & 2 != 0
    }

    /// Whether the page may be executed.
    #[verifier::when_used_as_spec(spec_executable)]
    pub fn executable(&self) -> (yes: bool)
        ensures
            yes == self.spec_executable(),
    {
        self.perms & 4 != 0
    }
}

/// Permission bits are acceptable when at least one of the three access
/// bits is set and no other bit is.
pub open spec fn valid_permission(perms: usize) -> bool {
    1 <= perms <= 7
}

/// The directory slot that the leaf table of `vpn` hangs from.
pub open spec fn table_index(vpn: int) -> int {
    vpn / (TABLE_ENTRIES as int)
}

/// Whether some page in the span of directory slot `d` is mapped.
pub open spec fn table_in_use(mappings: Map<int, PageTableEntry>, d: int) -> bool {
    exists|vpn: int| #[trigger] mappings.contains_key(vpn) && table_index(vpn) == d
}

/// The physical address that `va` translates to under `mappings`, if its
/// page is mapped: the page's frame, at the same offset within the page.
pub open spec fn translation(mappings: Map<int, PageTableEntry>, va: int) -> Option<int> {
    if mappings.contains_key(va / (PAGE_SIZE as int)) {
        Some(mappings[va / (PAGE_SIZE as int)].frame * PAGE_SIZE + va % (PAGE_SIZE as int))
    } else {
        None
    }
}

/// The valid permission values are those that a mask test accepts: some
/// bit inside `0b111` is set and no bit outside it.
pub proof fn lemma_valid_permission_mask(perms: usize)
    by (bit_vector)
    ensures
        (1 <= perms <= 7) <==> ((perms & 7 != 0) && (perms & !7usize == 0)),
{
}

/// An entry with acceptable permission bits grants some access.
pub proof fn lemma_valid_permission_grants(entry: PageTableEntry)
    requires
        valid_permission(entry.perms),
    ensures
        entry.readable() || entry.writable() || entry.executable(),
{
    let perms = entry.perms;
    assert(1 <= perms <= 7 ==> (perms & 1 != 0 || perms & 2 != 0 || perms & 4 != 0)) by (bit_vector);
}

/// Tells whether `perms` is an acceptable combination of access bits.
pub fn permission_ok(perms: usize) -> (ok: bool)
    ensures
        ok == valid_permission(perms),
{
    1 <= perms && perms <= 7
}

struct LeafTable {
    frame: usize,
    entries: Vec<Option<PageTableEntry>>,
}

impl LeafTable {
    spec fn wf(&self) -> bool {
        &&& self.entries@.len() == TABLE_ENTRIES
        &&& self.frame < MAX_FRAMES
        &&& forall|s: int|
            0 <= s < TABLE_ENTRIES ==> ((#[trigger] self.entries@[s]) matches Some(e) ==> e.frame
                < MAX_FRAMES && valid_permission(e.perms))
    }

    spec fn in_use(&self) -> bool {
        exists|s: int| 0 <= s < TABLE_ENTRIES && (#[trigger] self.entries@[s]) is Some
    }

    fn new(frame: usize) -> (leaf: LeafTable)
        requires
            frame < MAX_FRAMES,
        ensures
            leaf.wf(),
            leaf.frame == frame,
            forall|s: int| 0 <= s < TABLE_ENTRIES ==> (#[trigger] leaf.entries@[s]) is None,
    {
        let mut entries: Vec<Option<PageTableEntry>> = Vec::new();
        let mut s: usize = 0;
        while s < TABLE_ENTRIES
            invariant
                s <= TABLE_ENTRIES,
                entries@.len() == s,
                forall|t: int| 0 <= t < s ==> (#[trigger] entries@[t]) is None,
            decreases TABLE_ENTRIES - s,
        {
            entries.push(None);
            s = s + 1;
        }
        LeafTable { frame, entries }
    }

    fn is_empty(&self) -> (empty: bool)
        requires
            self.wf(),
        ensures
            empty == !self.in_use(),
    {
        let mut s: usize = 0;
        while s < TABLE_ENTRIES
            invariant
                s <= TABLE_ENTRIES,
                self.entries@.len() == TABLE_ENTRIES,
                forall|t: int| 0 <= t < s ==> (#[trigger] self.entries@[t]) is None,
            decreases TABLE_ENTRIES - s,
        {
            if self.entries[s].is_some() {
                return false;
            }
            s = s + 1;
        }
        true
    }
}

/// A two-level page table.
pub struct PageTable {
    root_frame: usize,
    dir: Vec<Option<LeafTable>>,
}

impl PageTable {
    /// The frame that holds the directory.
    pub closed spec fn root(&self) -> usize {
        self.root_frame
    }

    /// The valid entries, by virtual page number.
    pub closed spec fn mappings(&self) -> Map<int, PageTableEntry> {
        Map::new(
            |vpn: int|
                0 <= vpn < MAX_VPN && self.dir@[table_index(vpn)] is Some && self.dir@[table_index(
                    vpn,
                )]->0.entries@[vpn % (TABLE_ENTRIES as int)] is Some,
            |vpn: int| self.dir@[table_index(vpn)]->0.entries@[vpn % (TABLE_ENTRIES as int)]->0,
        )
    }

    /// The frame of each leaf table, by directory slot.
    pub closed spec fn tables(&self) -> Map<int, usize> {
        Map::new(
            |d: int| 0 <= d < TABLE_ENTRIES && self.dir@[d] is Some,
            |d: int| self.dir@[d]->0.frame,
        )
    }

    /// The table's own frames (the directory's and the leaf tables') exist
    /// in the allocator's machine and none of them is free.
    pub open spec fn fits(&self, frames: &FrameAllocator) -> bool {
        &&& self.root() < frames.total()
        &&& !frames.free_set().contains(self.root())
        &&& forall|d: int| #[trigger]
            self.tables().contains_key(d) ==> self.tables()[d] < frames.total()
                && !frames.free_set().contains(self.tables()[d])
    }

    /// Why `map` would refuse a request, or `None` if it would carry it
    /// out. `free_count` is the number of frames the allocator has free.
    pub open spec fn map_failure(
        &self,
        free_count: nat,
        vpn: usize,
        frame: usize,
        perms: usize,
    ) -> Option<PageTableError> {
        if vpn >= MAX_VPN || frame >= MAX_FRAMES {
            Some(PageTableError::InvalidAddress)
        } else if !valid_permission(perms) {
            Some(PageTableError::InvalidPermission)
        } else if self.mappings().contains_key(vpn as int) {
            Some(PageTableError::AlreadyMapped)
        } else if !self.tables().contains_key(table_index(vpn as int)) && free_count == 0 {
            Some(PageTableError::OutOfMemory)
        } else {
            None
        }
    }

    /// The structure is sound: every leaf table present holds at least one
    /// valid entry, and no two tables share a frame.
    pub closed spec fn wf(&self) -> bool {
        &&& self.dir@.len() == TABLE_ENTRIES
        &&& self.root_frame < MAX_FRAMES
        &&& forall|d: int|
            0 <= d < TABLE_ENTRIES ==> ((#[trigger] self.dir@[d]) matches Some(leaf) ==> leaf.wf()
                && leaf.in_use() && leaf.frame != self.root_frame)
        &&& forall|c: int, d: int|
            0 <= c < TABLE_ENTRIES && 0 <= d < TABLE_ENTRIES && c != d && (#[trigger] self.dir@[c]) is Some
                && (#[trigger] self.dir@[d]) is Some ==> self.dir@[c]->0.frame != self.dir@[d]->0.frame
    }

    /// What soundness means in terms of the table's contents.
    pub proof fn lemma_wf(&self)
        requires
            self.wf(),
        ensures
            self.root() < MAX_FRAMES,
            forall|vpn: int| #[trigger]
                self.mappings().contains_key(vpn) ==> 0 <= vpn < MAX_VPN
                    && self.mappings()[vpn].frame < MAX_FRAMES && valid_permission(
                    self.mappings()[vpn].perms,
                ),
            forall|d: int| #[trigger]
                self.tables().contains_key(d) ==> 0 <= d < TABLE_ENTRIES && self.tables()[d]
                    < MAX_FRAMES && self.tables()[d] != self.root(),
            forall|d: int| #[trigger]
                self.tables().contains_key(d) <==> table_in_use(self.mappings(), d),
            forall|c: int, d: int|
                c != d && #[trigger] self.tables().contains_key(c) && #[trigger] self.tables().contains_key(d)
                    ==> self.tables()[c] != self.tables()[d],
    {
        assert forall|vpn: int| #[trigger] self.mappings().contains_key(vpn) implies 0 <= vpn
            < MAX_VPN && self.mappings()[vpn].frame < MAX_FRAMES && valid_permission(
            self.mappings()[vpn].perms,
        ) by {
            let leaf = self.dir@[table_index(vpn)]->0;
            assert(leaf.entries@[vpn % (TABLE_ENTRIES as int)] is Some);
        }
        assert forall|d: int| #[trigger] self.tables().contains_key(d) <==> table_in_use(
            self.mappings(),
            d,
        ) by {
            if self.tables().contains_key(d) {
                let leaf = self.dir@[d]->0;
                let s = choose|s: int| 0 <= s < TABLE_ENTRIES && (#[trigger] leaf.entries@[s]) is Some;
                let vpn = d * TABLE_ENTRIES + s;
                assert(table_index(vpn) == d && vpn % (TABLE_ENTRIES as int) == s);
                assert(self.mappings().contains_key(vpn));
            }
            if table_in_use(self.mappings(), d) {
                let vpn = choose|vpn: int| #[trigger]
                    self.mappings().contains_key(vpn) && table_index(vpn) == d;
                assert(self.dir@[d] is Some);
            }
        }
    }

    /// An empty page table, its directory in a frame taken from `frames`.
    /// `None`, with nothing changed, when no frame is free.
    pub fn new(frames: &mut FrameAllocator) -> (r: Option<PageTable>)
        requires
            old(frames).wf(),
        ensures
            final(frames).wf(),
            final(frames).total() == old(frames).total(),
            r is None <==> old(frames).free_count() == 0,
            r is None ==> final(frames).free_list() == old(frames).free_list(),
            r matches Some(table) ==> {
                &&& table.wf()
                &&& table.fits(final(frames))
                &&& table.root() == old(frames).free_list().last()
                &&& table.mappings() == Map::<int, PageTableEntry>::empty()
                &&& table.tables() == Map::<int, usize>::empty()
                &&& final(frames).free_list() == old(frames).free_list().drop_last()
                &&& final(frames).free_set() == old(frames).free_set().remove(table.root())
            },
    {
        match frames.allocate() {
            None => None,
            Some(root_frame) => {
                let mut dir: Vec<Option<LeafTable>> = Vec::new();
                let mut d: usize = 0;
                while d < TABLE_ENTRIES
                    invariant
                        d <= TABLE_ENTRIES,
                        dir@.len() == d,
                        forall|c: int| 0 <= c < d ==> (#[trigger] dir@[c]) is None,
                    decreases TABLE_ENTRIES - d,
                {
                    dir.push(None);
                    d = d + 1;
                }
                let table = PageTable { root_frame, dir };
                proof {
                    assert(table.mappings() =~= Map::<int, PageTableEntry>::empty());
                    assert(table.tables() =~= Map::<int, usize>::empty());
                }
                Some(table)
            },
        }
    }

    /// The entry of virtual page `vpn`, or `None` if the page is not mapped.
    pub fn lookup(&self, vpn: usize) -> (r: Option<PageTableEntry>)
        requires
            self.wf(),
        ensures
            r is Some <==> self.mappings().contains_key(vpn as int),
            r matches Some(e) ==> e == self.mappings()[vpn as int],
    {
        if vpn >= MAX_VPN {
            return None;
        }
        match &self.dir[vpn / TABLE_ENTRIES] {
            None => None,
            Some(leaf) => leaf.entries[vpn % TABLE_ENTRIES],
        }
    }

    /// Walks the table for the page of `va` and gives the physical address
    /// of that byte, or `None` when a level of the walk finds no valid entry.
    /// One call resolves one page: an object that crosses a page boundary is
    /// translated page by page.
    pub fn translate(&self, va: usize) -> (r: Option<usize>)
        requires
            self.wf(),
        ensures
            r is Some <==> translation(self.mappings(), va as int) is Some,
            r matches Some(pa) ==> translation(self.mappings(), va as int) == Some(pa as int),
    {
        proof {
            self.lemma_wf();
        }
        match self.lookup(va / PAGE_SIZE) {
            None => None,
            Some(e) => Some(e.frame * PAGE_SIZE + va % PAGE_SIZE),
        }
    }

    /// Installs the mapping of virtual page `vpn` to `frame` with access
    /// bits `perms`. A leaf table that does not exist yet takes one frame
    /// from `frames`. A refused request changes nothing.
    pub fn map(
        &mut self,
        frames: &mut FrameAllocator,
        vpn: usize,
        frame: usize,
        perms: usize,
    ) -> (r: Result<(), PageTableError>)
        requires
            old(self).wf(),
            old(frames).wf(),
            old(self).fits(old(frames)),
        ensures
            final(self).wf(),
            final(frames).wf(),
            final(self).fits(final(frames)),
            final(frames).total() == old(frames).total(),
            final(self).root() == old(self).root(),
            r == match old(self).map_failure(old(frames).free_count(), vpn, frame, perms) {
                Some(e) => Err::<(), PageTableError>(e),
                None => Ok(()),
            },
            r is Err ==> {
                &&& final(self).mappings() == old(self).mappings()
                &&& final(self).tables() == old(self).tables()
                &&& final(frames).free_list() == old(frames).free_list()
            },
            r is Ok ==> {
                &&& final(self).mappings() == old(self).mappings().insert(
                    vpn as int,
                    PageTableEntry { frame, perms },
                )
                &&& old(self).tables().contains_key(table_index(vpn as int)) ==> {
                    &&& final(self).tables() == old(self).tables()
                    &&& final(frames).free_list() == old(frames).free_list()
                }
                &&& !old(self).tables().contains_key(table_index(vpn as int)) ==> {
                    &&& final(self).tables() == old(self).tables().insert(
                        table_index(vpn as int),
                        old(frames).free_list().last(),
                    )
                    &&& final(frames).free_list() == old(frames).free_list().drop_last()
                    &&& old(frames).free_set().contains(old(frames).free_list().last())
                    &&& final(frames).free_set() == old(frames).free_set().remove(
                        old(frames).free_list().last(),
                    )
                }
            },
    {
        if vpn >= MAX_VPN || frame >= MAX_FRAMES {
            return Err(PageTableError::InvalidAddress);
        }
        if !permission_ok(perms) {
            return Err(PageTableError::InvalidPermission);
        }
        let d: usize = vpn / TABLE_ENTRIES;
        let s: usize = vpn % TABLE_ENTRIES;
        let entry = PageTableEntry { frame, perms };
        let mut leaf = match self.dir[d].take() {
            Some(leaf) => {
                if leaf.entries[s].is_some() {
                    self.dir[d] = Some(leaf);
                    proof {
                        assert(self.dir@ =~= old(self).dir@);
                        assert(self.mappings() =~= old(self).mappings());
                        assert(self.tables() =~= old(self).tables());
                    }
                    return Err(PageTableError::AlreadyMapped);
                }
                leaf
            },
            None => {
                proof {
                    assert(self.dir@ =~= old(self).dir@);
                }
                match frames.allocate() {
                    None => {
                        proof {
                            assert(self.mappings() =~= old(self).mappings());
                            assert(self.tables() =~= old(self).tables());
                            }
                        return Err(PageTableError::OutOfMemory);
                    },
                    Some(table_frame) => LeafTable::new(table_frame),
                }
            },
        };
        leaf.entries[s] = Some(entry);
        proof {
            assert(leaf.entries@[s as int] is Some);
        }
        self.dir[d] = Some(leaf);
        proof {
            let fresh = !old(self).tables().contains_key(d as int);
            assert(self.mappings() =~= old(self).mappings().insert(vpn as int, entry)) by {
                assert forall|k: int| #[trigger]
                    self.mappings().contains_key(k) <==> old(self).mappings().insert(
                        vpn as int,
                        entry,
                    ).contains_key(k) by {
                    if 0 <= k < MAX_VPN && table_index(k) == d && k != vpn {
                        assert(k % (TABLE_ENTRIES as int) != s);
                    }
                }
                assert forall|k: int| #[trigger]
                    self.mappings().contains_key(k) implies self.mappings()[k] == old(
                    self,
                ).mappings().insert(vpn as int, entry)[k] by {
                    if table_index(k) == d && k != vpn {
                        assert(k % (TABLE_ENTRIES as int) != s);
                    }
                }
            }
            if fresh {
                let tf = old(frames).free_list().last();
                assert(self.tables() =~= old(self).tables().insert(d as int, tf));
                assert forall|c: int|
                    0 <= c < TABLE_ENTRIES && c != d && (#[trigger] self.dir@[c]) is Some implies self.dir@[c]->0.frame
                    != tf by {
                    assert(old(self).tables().contains_key(c));
                }
            } else {
                assert(self.tables() =~= old(self).tables());
            }
            assert forall|c: int| #[trigger] self.tables().contains_key(c) implies self.tables()[c]
                < frames.total() && !frames.free_set().contains(self.tables()[c]) by {
                if c != d || !fresh {
                    assert(old(self).tables().contains_key(c));
                }
            }
        }
        Ok(())
    }

    /// Clears the entry of virtual page `vpn` and hands the frame it was
    /// backed by to the caller for disposal. A leaf table left without any
    /// valid entry is removed and its frame returned to `frames`.
    /// Fails with `NotMapped`, changing nothing, if the page has no entry.
    pub fn unmap(&mut self, frames: &mut FrameAllocator, vpn: usize) -> (r: Result<
        usize,
        PageTableError,
    >)
        requires
            old(self).wf(),
            old(frames).wf(),
            old(self).fits(old(frames)),
        ensures
            final(self).wf(),
            final(frames).wf(),
            final(self).fits(final(frames)),
            final(frames).total() == old(frames).total(),
            final(self).root() == old(self).root(),
            r is Ok <==> old(self).mappings().contains_key(vpn as int),
            r matches Err(e) ==> {
                &&& e == PageTableError::NotMapped
                &&& final(self).mappings() == old(self).mappings()
                &&& final(self).tables() == old(self).tables()
                &&& final(frames).free_list() == old(frames).free_list()
            },
            r matches Ok(frame) ==> {
                &&& frame == old(self).mappings()[vpn as int].frame
                &&& final(self).mappings() == old(self).mappings().remove(vpn as int)
                &&& table_in_use(final(self).mappings(), table_index(vpn as int)) ==> {
                    &&& final(self).tables() == old(self).tables()
                    &&& final(frames).free_list() == old(frames).free_list()
                }
                &&& !table_in_use(final(self).mappings(), table_index(vpn as int)) ==> {
                    &&& final(self).tables() == old(self).tables().remove(table_index(vpn as int))
                    &&& final(frames).free_list() == old(frames).free_list().push(
                        old(self).tables()[table_index(vpn as int)],
                    )
                    &&& final(frames).free_set() == old(frames).free_set().insert(
                        old(self).tables()[table_index(vpn as int)],
                    )
                }
            },
    {
        if vpn >= MAX_VPN {
            return Err(PageTableError::NotMapped);
        }
        let d: usize = vpn / TABLE_ENTRIES;
        let s: usize = vpn % TABLE_ENTRIES;
        let mut leaf = match self.dir[d].take() {
            None => {
                proof {
                    assert(self.dir@ =~= old(self).dir@);
                    assert(self.mappings() =~= old(self).mappings());
                    assert(self.tables() =~= old(self).tables());
                }
                return Err(PageTableError::NotMapped);
            },
            Some(leaf) => leaf,
        };
        let frame = match leaf.entries[s] {
            None => {
                self.dir[d] = Some(leaf);
                proof {
                    assert(self.dir@ =~= old(self).dir@);
                    assert(self.mappings() =~= old(self).mappings());
                    assert(self.tables() =~= old(self).tables());
                }
                return Err(PageTableError::NotMapped);
            },
            Some(e) => e.frame,
        };
        leaf.entries[s] = None;
        if leaf.is_empty() {
            proof {
                assert(old(self).tables().contains_key(d as int));
            }
            frames.free(leaf.frame);
            proof {
                assert(self.mappings() =~= old(self).mappings().remove(vpn as int)) by {
                    assert forall|k: int| #[trigger]
                        old(self).mappings().remove(vpn as int).contains_key(
                            k,
                        ) implies self.mappings().contains_key(k) by {
                        if table_index(k) == d {
                            assert(k % (TABLE_ENTRIES as int) != s);
                            assert(leaf.entries@[k % (TABLE_ENTRIES as int)] is None);
                        }
                    }
                }
                assert(self.tables() =~= old(self).tables().remove(d as int));
                assert(!table_in_use(self.mappings(), d as int));
            }
        } else {
            self.dir[d] = Some(leaf);
            proof {
                assert(self.mappings() =~= old(self).mappings().remove(vpn as int)) by {
                    assert forall|k: int| #[trigger]
                        old(self).mappings().remove(vpn as int).contains_key(
                            k,
                        ) implies self.mappings().contains_key(k) && self.mappings()[k] == old(
                        self,
                    ).mappings()[k] by {
                        if table_index(k) == d {
                            assert(k % (TABLE_ENTRIES as int) != s);
                        }
                    }
                }
                assert(self.tables() =~= old(self).tables());
                let t = choose|t: int| 0 <= t < TABLE_ENTRIES && (#[trigger] leaf.entries@[t]) is Some;
                let k = d * TABLE_ENTRIES + t;
                assert(table_index(k) == d && k % (TABLE_ENTRIES as int) == t);
                assert(self.mappings().contains_key(k));
                assert(table_in_use(self.mappings(), d as int));
            }
        }
        proof {
            assert forall|c: int| #[trigger] self.tables().contains_key(c) implies self.tables()[c]
                < frames.total() && !frames.free_set().contains(self.tables()[c]) by {
                assert(old(self).tables().contains_key(c));
            }
        }
        Ok(frame)
    }

    /// Gives up a page table in which nothing is mapped any more: the
    /// frame of its directory goes back to `frames`.
    pub fn release(self, frames: &mut FrameAllocator)
        requires
            self.wf(),
            old(frames).wf(),
            self.fits(old(frames)),
            self.mappings().dom() == Set::<int>::empty(),
        ensures
            final(frames).wf(),
            final(frames).total() == old(frames).total(),
            final(frames).free_list() == old(frames).free_list().push(self.root()),
            final(frames).free_set() == old(frames).free_set().insert(self.root()),
    {
        frames.free(self.root_frame);
    }

    /// Whether the leaf table of directory slot `d` exists.
    pub fn has_table(&self, d: usize) -> (present: bool)
        requires
            self.wf(),
        ensures
            present == self.tables().contains_key(d as int),
    {
        d < TABLE_ENTRIES && self.dir[d].is_some()
    }
}

} // verus!

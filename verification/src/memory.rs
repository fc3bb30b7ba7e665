//! Physical memory, and moving bytes between it and the virtual addresses
//! of an address space, one page at a time.

use vstd::prelude::*;
use crate::address_space::AddressSpace;
use crate::config::{ADDRESS_LIMIT, MAX_FRAMES, PAGE_SIZE};
use crate::page_table::{translation, PageTableEntry};

verus! {

/// Every byte of the `len` bytes at virtual address `va` lies in a mapped
/// page whose frame is inside a memory of `size` bytes.
pub open spec fn reachable(mappings: Map<int, PageTableEntry>, size: int, va: int, len: int) -> bool {
    forall|i: int| 0 <= i < len ==> #[trigger] byte_reachable(mappings, size, va + i)
}

/// The byte at virtual address `va` lies in a mapped page whose frame is
/// inside a memory of `size` bytes.
pub open spec fn byte_reachable(mappings: Map<int, PageTableEntry>, size: int, va: int) -> bool {
    translation(mappings, va) is Some && translation(mappings, va)->0 < size
}

/// Virtual page `vpn` is mapped to a frame that lies inside a memory of
/// `size` bytes.
pub open spec fn page_backed(mappings: Map<int, PageTableEntry>, size: int, vpn: int) -> bool {
    mappings.contains_key(vpn) && mappings[vpn].frame * PAGE_SIZE + PAGE_SIZE <= size
}

/// The physical address of the byte at virtual address `va`.
pub open spec fn physical(mappings: Map<int, PageTableEntry>, va: int) -> int {
    translation(mappings, va)->0
}

/// The `len` bytes that memory `mem` holds at virtual address `va`.
pub open spec fn bytes_at(mem: Seq<u8>, mappings: Map<int, PageTableEntry>, va: int, len: int) -> Seq<
    u8,
> {
    Seq::new(len as nat, |i: int| mem[physical(mappings, va + i)])
}

/// Memory `after` is memory `before` with the first `count` bytes of
/// `data` stored at virtual address `va` and no other byte changed.
pub open spec fn stored(
    before: Seq<u8>,
    after: Seq<u8>,
    mappings: Map<int, PageTableEntry>,
    va: int,
    data: Seq<u8>,
    count: int,
) -> bool {
    &&& after.len() == before.len()
    &&& forall|i: int| 0 <= i < count ==> after[#[trigger] physical(mappings, va + i)] == data[i]
    &&& forall|pa: int|
        0 <= pa < before.len() && (forall|i: int|
            0 <= i < count ==> #[trigger] physical(mappings, va + i) != pa) ==> #[trigger] after[pa]
            == before[pa]
}

/// Two different virtual addresses in mapped pages have different physical
/// addresses when no two pages share a frame.
pub proof fn lemma_translation_injective(mappings: Map<int, PageTableEntry>, a: int, b: int)
    requires
        a != b,
        0 <= a,
        0 <= b,
        translation(mappings, a) is Some,
        translation(mappings, b) is Some,
        forall|v: int, w: int|
            #![trigger mappings[v], mappings[w]]
            mappings.contains_key(v) && mappings.contains_key(w) && v != w ==> mappings[v].frame
                != mappings[w].frame,
    ensures
        physical(mappings, a) != physical(mappings, b),
{
    let pa = a / (PAGE_SIZE as int);
    let pb = b / (PAGE_SIZE as int);
    if pa != pb {
        assert(mappings[pa].frame != mappings[pb].frame);
    }
}

/// The bytes of physical memory, frame after frame.
pub struct PhysMemory {
    bytes: Vec<u8>,
}

impl View for PhysMemory {
    type V = Seq<u8>;

    closed spec fn view(&self) -> Seq<u8> {
        self.bytes@
    }
}

impl PhysMemory {
    /// The memory is made of whole frames.
    pub open spec fn wf(&self) -> bool {
        self@.len() % (PAGE_SIZE as nat) == 0
    }

    /// The memory of a machine with `frames` frames, every byte zero, or
    /// `None` if that is more than `MAX_FRAMES`.
    pub fn new(frames: usize) -> (r: Option<PhysMemory>)
        ensures
            r is Some <==> frames <= MAX_FRAMES,
            r matches Some(memory) ==> {
                &&& memory.wf()
                &&& memory@.len() == frames * PAGE_SIZE
                &&& forall|pa: int| 0 <= pa < memory@.len() ==> memory@[pa] == 0
            },
    {
        if frames > MAX_FRAMES {
            return None;
        }
        let bytes: Vec<u8> = vec![0u8; frames * PAGE_SIZE];
        Some(PhysMemory { bytes })
    }

    /// Number of bytes of memory.
    pub fn size(&self) -> (n: usize)
        ensures
            n == self@.len(),
    {
        self.bytes.len()
    }

    /// The byte at physical address `pa`, or `None` beyond the memory.
    pub fn read(&self, pa: usize) -> (r: Option<u8>)
        ensures
            r == if pa < self@.len() {
                Some(self@[pa as int])
            } else {
                None
            },
    {
        if pa < self.bytes.len() {
            Some(self.bytes[pa])
        } else {
            None
        }
    }

    /// Stores `value` at physical address `pa`; tells `false`, storing
    /// nothing, beyond the memory.
    pub fn write(&mut self, pa: usize, value: u8) -> (done: bool)
        ensures
            done == (pa < old(self)@.len()),
            final(self)@ == if done {
                old(self)@.update(pa as int, value)
            } else {
                old(self)@
            },
    {
        if pa < self.bytes.len() {
            self.bytes[pa] = value;
            true
        } else {
            false
        }
    }

    /// Tells whether all of the `len` bytes at virtual address `va` of
    /// `space` lie in mapped pages backed by this memory, looking at each
    /// page of the range once.
    pub fn can_reach(&self, space: &AddressSpace, va: usize, len: usize) -> (ok: bool)
        requires
            self.wf(),
            space.wf(),
        ensures
            ok == reachable(space@.mappings, self@.len() as int, va as int, len as int),
    {
        if len == 0 {
            return true;
        }
        proof {
            space.lemma_wf();
        }
        let ghost mappings = space@.mappings;
        let ghost size = self@.len() as int;
        if va >= ADDRESS_LIMIT || len > ADDRESS_LIMIT - va {
            proof {
                let i = len - 1;
                let top = (va + i) / (PAGE_SIZE as int);
                if mappings.contains_key(top) {
                    space.lemma_mapped_pages(top);
                }
                assert(!byte_reachable(mappings, size, va + i));
            }
            return false;
        }
        let first: usize = va / PAGE_SIZE;
        let last: usize = (va + len - 1) / PAGE_SIZE;
        let mut page: usize = first;
        while page <= last
            invariant
                first <= page <= last + 1,
                len > 0,
                va + len <= ADDRESS_LIMIT,
                first == va / PAGE_SIZE,
                last == (va + len - 1) / (PAGE_SIZE as int),
                self.wf(),
                space.wf(),
                mappings == space@.mappings,
                size == self@.len(),
                forall|q: int| first <= q < page ==> #[trigger] page_backed(mappings, size, q),
            decreases last + 1 - page,
        {
            let ghost at = if page == first {
                va as int
            } else {
                page * PAGE_SIZE
            };
            proof {
                assert(at / (PAGE_SIZE as int) == page);
                assert(0 <= at - va < len);
            }
            match space.lookup(page) {
                None => {
                    proof {
                        assert(!byte_reachable(mappings, size, va + (at - va)));
                    }
                    return false;
                },
                Some(entry) => {
                    proof {
                        space.lemma_mapped_pages(page as int);
                    }
                    if entry.frame * PAGE_SIZE + PAGE_SIZE > self.bytes.len() {
                        proof {
                            assert(!byte_reachable(mappings, size, va + (at - va)));
                        }
                        return false;
                    }
                },
            }
            proof {
                assert(page_backed(mappings, size, page as int));
            }
            page = page + 1;
        }
        proof {
            assert forall|i: int| 0 <= i < len implies #[trigger] byte_reachable(
                mappings,
                size,
                va + i,
            ) by {
                let q = (va + i) / (PAGE_SIZE as int);
                assert(first <= q <= last);
                assert(page_backed(mappings, size, q));
            }
        }
        true
    }

    /// Stores `data` at virtual address `va` of `space`. The range may
    /// cross page boundaries: it is checked page by page first, then each
    /// page's share is translated and copied on its own.
    ///
    /// Tells `false`, storing nothing, unless every byte of the range lies
    /// in a mapped page backed by this memory.
    pub fn store(&mut self, space: &AddressSpace, va: usize, data: &Vec<u8>) -> (done: bool)
        requires
            old(self).wf(),
            space.wf(),
        ensures
            final(self).wf(),
            done == reachable(space@.mappings, old(self)@.len() as int, va as int, data@.len() as int),
            done ==> stored(old(self)@, final(self)@, space@.mappings, va as int, data@, data@.len() as int),
            !done ==> final(self)@ == old(self)@,
    {
        let len: usize = data.len();
        if !self.can_reach(space, va, len) {
            return false;
        }
        proof {
            space.lemma_wf();
        }
        let ghost mappings = space@.mappings;
        let ghost before = self@;
        let mut copied: usize = 0;
        while copied < len
            invariant
                copied <= len,
                len == data@.len(),
                space.wf(),
                space@.wf(),
                mappings == space@.mappings,
                reachable(mappings, before.len() as int, va as int, len as int),
                stored(before, self@, mappings, va as int, data@, copied as int),
            decreases len - copied,
        {
            proof {
                assert(byte_reachable(mappings, before.len() as int, va + copied));
                assert(mappings.contains_key((va + copied) / (PAGE_SIZE as int)));
                space.lemma_mapped_pages((va + copied) / (PAGE_SIZE as int));
            }
            let at: usize = va + copied;
            let offset: usize = at % PAGE_SIZE;
            let room: usize = PAGE_SIZE - offset;
            let chunk: usize = if len - copied < room {
                len - copied
            } else {
                room
            };
            let base: usize = match space.translate(at) {
                Some(pa) => pa,
                None => {
                    return false;
                },
            };
            let mut k: usize = 0;
            while k < chunk
                invariant
                    k <= chunk,
                    copied + chunk <= len,
                    len == data@.len(),
                    at == va + copied,
                    offset == at % PAGE_SIZE,
                    offset + chunk <= PAGE_SIZE,
                    space@.wf(),
                    mappings == space@.mappings,
                    translation(mappings, at as int) == Some(base as int),
                    reachable(mappings, before.len() as int, va as int, len as int),
                    stored(before, self@, mappings, va as int, data@, copied + k),
                decreases chunk - k,
            {
                let ghost now = self@;
                proof {
                    let i = copied + k;
                    assert(byte_reachable(mappings, before.len() as int, va + i));
                    assert((at + k) / (PAGE_SIZE as int) == (at as int) / (PAGE_SIZE as int));
                    assert((at + k) % (PAGE_SIZE as int) == offset + k);
                    assert(physical(mappings, va + i) == base + k);
                }
                self.bytes[base + k] = data[copied + k];
                proof {
                    let i = copied + k;
                    let target = base + k;
                    assert forall|j: int| 0 <= j < i + 1 implies self@[#[trigger] physical(
                        mappings,
                        va + j,
                    )] == data@[j] by {
                        if j < i {
                            assert(byte_reachable(mappings, before.len() as int, va + j));
                            lemma_translation_injective(mappings, va + j, va + i);
                            assert(now[physical(mappings, va + j)] == data@[j]);
                        }
                    }
                    assert forall|pa: int|
                        0 <= pa < before.len() && (forall|j: int|
                            0 <= j < i + 1 ==> #[trigger] physical(mappings, va + j) != pa) implies #[trigger] self@[pa]
                        == before[pa] by {
                        assert(physical(mappings, va + i) != pa);
                        assert(now[pa] == before[pa]);
                    }
                }
                k = k + 1;
            }
            copied = copied + chunk;
        }
        true
    }

    /// The `len` bytes at virtual address `va` of `space`, read page by
    /// page, or `None` unless every byte of the range lies in a mapped
    /// page backed by this memory.
    pub fn load(&self, space: &AddressSpace, va: usize, len: usize) -> (r: Option<Vec<u8>>)
        requires
            self.wf(),
            space.wf(),
        ensures
            r is Some <==> reachable(space@.mappings, self@.len() as int, va as int, len as int),
            r matches Some(bytes) ==> bytes@ == bytes_at(self@, space@.mappings, va as int, len as int),
    {
        if !self.can_reach(space, va, len) {
            return None;
        }
        proof {
            space.lemma_wf();
        }
        let ghost mappings = space@.mappings;
        let mut out: Vec<u8> = Vec::new();
        let mut copied: usize = 0;
        while copied < len
            invariant
                copied <= len,
                space.wf(),
                space@.wf(),
                mappings == space@.mappings,
                reachable(mappings, self@.len() as int, va as int, len as int),
                out@ == bytes_at(self@, mappings, va as int, copied as int),
            decreases len - copied,
        {
            proof {
                assert(byte_reachable(mappings, self@.len() as int, va + copied));
                assert(mappings.contains_key((va + copied) / (PAGE_SIZE as int)));
                space.lemma_mapped_pages((va + copied) / (PAGE_SIZE as int));
            }
            let at: usize = va + copied;
            let offset: usize = at % PAGE_SIZE;
            let room: usize = PAGE_SIZE - offset;
            let chunk: usize = if len - copied < room {
                len - copied
            } else {
                room
            };
            let base: usize = match space.translate(at) {
                Some(pa) => pa,
                None => {
                    return None;
                },
            };
            let mut k: usize = 0;
            while k < chunk
                invariant
                    k <= chunk,
                    copied + chunk <= len,
                    at == va + copied,
                    offset == at % PAGE_SIZE,
                    offset + chunk <= PAGE_SIZE,
                    mappings == space@.mappings,
                    translation(mappings, at as int) == Some(base as int),
                    reachable(mappings, self@.len() as int, va as int, len as int),
                    out@ == bytes_at(self@, mappings, va as int, copied + k),
                decreases chunk - k,
            {
                proof {
                    let i = copied + k;
                    assert(byte_reachable(mappings, self@.len() as int, va + i));
                    assert((at + k) / (PAGE_SIZE as int) == (at as int) / (PAGE_SIZE as int));
                    assert((at + k) % (PAGE_SIZE as int) == offset + k);
                    assert(physical(mappings, va + i) == base + k);
                }
                out.push(self.bytes[base + k]);
                proof {
                    assert(out@ =~= bytes_at(self@, mappings, va as int, copied + k + 1));
                }
                k = k + 1;
            }
            copied = copied + chunk;
        }
        Some(out)
    }
}

/// Bytes stored at a virtual address are the bytes read back from it.
pub proof fn lemma_load_after_store(
    before: Seq<u8>,
    after: Seq<u8>,
    mappings: Map<int, PageTableEntry>,
    va: int,
    data: Seq<u8>,
)
    requires
        stored(before, after, mappings, va, data, data.len() as int),
    ensures
        bytes_at(after, mappings, va, data.len() as int) == data,
{
    assert(bytes_at(after, mappings, va, data.len() as int) =~= data);
}

} // verus!

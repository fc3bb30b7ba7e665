//! The physical frame allocator: a free list of frame numbers.

use vstd::prelude::*;
use crate::config::MAX_FRAMES;

verus! {

/// Hands out and takes back physical frames, identified by their number.
///
/// The allocator is a stack of free frame numbers: `allocate` pops the top,
/// `free` pushes onto it.
pub struct FrameAllocator {
    total: usize,
    free: Vec<usize>,
}

impl FrameAllocator {
    /// Number of frames the machine has; valid frame numbers are below it.
    pub closed spec fn total(&self) -> nat {
        self.total as nat
    }

    /// The free list, bottom of the stack first.
    pub closed spec fn free_list(&self) -> Seq<usize> {
        self.free@
    }

    /// The frames that are free, without their order.
    pub open spec fn free_set(&self) -> Set<usize> {
        self.free_list().to_set()
    }

    /// How many frames are free.
    pub open spec fn free_count(&self) -> nat {
        self.free_list().len()
    }

    /// Every free frame exists, and none is listed twice.
    pub open spec fn wf(&self) -> bool {
        &&& self.total() <= MAX_FRAMES
        &&& self.free_list().no_duplicates()
        &&& forall|i: int| 0 <= i < self.free_list().len() ==> (#[trigger] self.free_list()[i]) < self.total()
    }

    /// In a well-formed allocator the members of the free set are exactly
    /// the entries of the free list, all of them valid frame numbers.
    pub proof fn lemma_free_set(&self)
        requires
            self.wf(),
        ensures
            self.free_set().finite(),
            self.free_set().len() == self.free_count(),
            forall|f: usize| self.free_set().contains(f) ==> f < self.total(),
    {
        self.free_list().unique_seq_to_set();
        assert forall|f: usize| self.free_set().contains(f) implies f < self.total() by {
            let i = choose|i: int| 0 <= i < self.free_list().len() && self.free_list()[i] == f;
            assert(self.free_list()[i] < self.total());
        }
    }

    /// An allocator for a machine with `total` frames, all of them free.
    /// Frames are handed out in ascending order, frame 0 first.
    /// `None` if the machine would have more than `MAX_FRAMES` frames.
    pub fn new(total: usize) -> (r: Option<FrameAllocator>)
        ensures
            r is Some <==> total <= MAX_FRAMES,
            r matches Some(a) ==> {
                &&& a.wf()
                &&& a.total() == total
                &&& a.free_list() == Seq::new(total as nat, |i: int| (total - 1 - i) as usize)
            },
    {
        if total > MAX_FRAMES {
            return None;
        }
        let mut free: Vec<usize> = Vec::new();
        let mut next: usize = total;
        while next > 0
            invariant
                next <= total,
                free@ == Seq::new((total - next) as nat, |i: int| (total - 1 - i) as usize),
            decreases next,
        {
            next = next - 1;
            free.push(next);
        }
        Some(FrameAllocator { total, free })
    }

    /// Number of frames of the machine.
    pub fn total_frames(&self) -> (n: usize)
        ensures
            n == self.total(),
    {
        self.total
    }

    /// Number of frames that are free.
    pub fn available(&self) -> (n: usize)
        ensures
            n == self.free_count(),
    {
        self.free.len()
    }

    /// Whether `frame` is on the free list.
    pub fn is_free(&self, frame: usize) -> (b: bool)
        ensures
            b == self.free_set().contains(frame),
    {
        let mut i: usize = 0;
        while i < self.free.len()
            invariant
                i <= self.free.len(),
                forall|j: int| 0 <= j < i ==> self.free@[j] != frame,
            decreases self.free.len() - i,
        {
            if self.free[i] == frame {
                return true;
            }
            i = i + 1;
        }
        false
    }

    /// Takes the frame on top of the free list, or `None` when no frame is
    /// free; in that case nothing changes.
    pub fn allocate(&mut self) -> (r: Option<usize>)
        requires
            old(self).wf(),
        ensures
            final(self).wf(),
            final(self).total() == old(self).total(),
            r is None <==> old(self).free_count() == 0,
            r is None ==> final(self).free_list() == old(self).free_list(),
            r matches Some(f) ==> {
                &&& f == old(self).free_list().last()
                &&& f < old(self).total()
                &&& final(self).free_list() == old(self).free_list().drop_last()
                &&& old(self).free_set().contains(f)
                &&& final(self).free_set() == old(self).free_set().remove(f)
            },
    {
        let r = self.free.pop();
        proof {
            if r is Some {
                let before = old(self).free_list();
                let after = self.free_list();
                assert(after == before.drop_last());
                assert(before[before.len() - 1] == r->0);
                assert(after.to_set() =~= before.to_set().remove(r->0)) by {
                    assert forall|f: usize| after.to_set().contains(f) <==> before.to_set().remove(
                        r->0,
                    ).contains(f) by {
                        if after.to_set().contains(f) {
                            let i = choose|i: int| 0 <= i < after.len() && after[i] == f;
                            assert(before[i] == f);
                        }
                        if before.to_set().remove(r->0).contains(f) {
                            let i = choose|i: int| 0 <= i < before.len() && before[i] == f;
                            assert(after[i] == f);
                        }
                    }
                }
            }
        }
        r
    }

    /// Puts `frame` back on top of the free list.
    ///
    /// Freeing a frame that does not exist or that is already free is the
    /// caller's error, ruled out here.
    pub fn free(&mut self, frame: usize)
        requires
            old(self).wf(),
            frame < old(self).total(),
            !old(self).free_set().contains(frame),
        ensures
            final(self).wf(),
            final(self).total() == old(self).total(),
            final(self).free_list() == old(self).free_list().push(frame),
            final(self).free_set() == old(self).free_set().insert(frame),
    {
        self.free.push(frame);
        proof {
            let before = old(self).free_list();
            let after = self.free_list();
            assert(after.to_set() =~= before.to_set().insert(frame)) by {
                assert forall|f: usize| after.to_set().contains(f) <==> before.to_set().insert(
                    frame,
                ).contains(f) by {
                    if after.to_set().contains(f) {
                        let i = choose|i: int| 0 <= i < after.len() && after[i] == f;
                        if i < before.len() {
                            assert(before[i] == f);
                        }
                    }
                    if before.to_set().contains(f) {
                        let i = choose|i: int| 0 <= i < before.len() && before[i] == f;
                        assert(after[i] == f);
                    }
                    if f == frame {
                        assert(after[before.len() as int] == f);
                    }
                }
            }
            assert forall|i: int, j: int|
                0 <= i < after.len() && 0 <= j < after.len() && i != j implies after[i]
                != after[j] by {
                if i == before.len() {
                    assert(before[j] == after[j]);
                    assert(before.to_set().contains(before[j]));
                } else if j == before.len() {
                    assert(before[i] == after[i]);
                    assert(before.to_set().contains(before[i]));
                }
            }
        }
    }
}

} // verus!

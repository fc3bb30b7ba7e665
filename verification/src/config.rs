//! Sizes and numbers shared by every layer of the kernel core.

use vstd::prelude::*;

verus! {

/// Bytes in one page of virtual memory and in one physical frame.
pub const PAGE_SIZE: usize = 4096;

/// Entries in one table of the two-level page table.
pub const TABLE_ENTRIES: usize = 512;

/// Number of virtual pages an address space can hold; virtual page numbers
/// run from 0 to `MAX_VPN - 1`.
pub const MAX_VPN: usize = 262144;

/// First address beyond the address space: `MAX_VPN` pages of `PAGE_SIZE`
/// bytes.
pub const ADDRESS_LIMIT: usize = 0x4000_0000;

/// Largest number of physical frames a machine may have.
pub const MAX_FRAMES: usize = 262144;

/// Number of distinct syscall ids that are counted per task.
pub const MAX_SYSCALL_NUM: usize = 500;

/// Microseconds in one second.
pub const MICROS_PER_SEC: usize = 1_000_000;

/// Permission bits that user-requested heap growth maps its pages with
/// (readable and writable).
pub const HEAP_PERMISSION: usize = 3;

pub const SYSCALL_EXIT: usize = 93;

pub const SYSCALL_YIELD: usize = 124;

pub const SYSCALL_GET_TIME: usize = 169;

pub const SYSCALL_SBRK: usize = 214;

pub const SYSCALL_MUNMAP: usize = 215;

pub const SYSCALL_MMAP: usize = 222;

pub const SYSCALL_TASK_INFO: usize = 410;

/// Number of pages needed to hold `len` bytes.
pub open spec fn page_count(len: int) -> int {
    (len + PAGE_SIZE - 1) / (PAGE_SIZE as int)
}

/// Whether `addr` lies on a page boundary.
pub open spec fn page_aligned(addr: int) -> bool {
    addr % (PAGE_SIZE as int) == 0
}

/// Rounds a byte length up to whole pages.
pub fn pages_for(len: usize) -> (n: usize)
    ensures
        n == page_count(len as int),
        n * PAGE_SIZE >= len,
        n * PAGE_SIZE < len + PAGE_SIZE,
{
    let whole: usize = len / PAGE_SIZE;
    if len % PAGE_SIZE == 0 {
        whole
    } else {
        whole + 1
    }
}

} // verus!

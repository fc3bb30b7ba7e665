//! The process- and virtual-memory-management core of a small single-CPU
//! kernel, with every operation carrying a machine-checked contract.
//!
//! Layers, leaves first: [`frame`] hands out physical page frames and holds
//! their contents, [`page_table`] maps virtual pages to frames, [`address_space`]
//! layers non-overlapping memory regions on one page table, [`task`] keeps the
//! task control blocks and the round-robin scheduler, and [`syscall`] is the
//! boundary that turns results into the integer codes user programs see.

pub mod config;
pub mod accounting;
pub mod address_space;
pub mod frame;
pub mod memory;
pub mod page_table;
pub mod region;
pub mod syscall;
pub mod task;
pub mod theorems;

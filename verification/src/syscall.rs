//! The syscall boundary: what user programs call, with every outcome
//! turned into the integer code they see.

pub mod process;

//! Detection of performance ("P") and efficiency ("E") cores on hybrid
//! CPUs, the thread split between BLAKE3's internal tree parallelism and
//! concurrent-file parallelism, and the layout of pinned worker pools.
//!
//! Everything here works on plain values: what the operating system
//! reports (sysfs text on Linux, the CPU-set table on Windows) is read by
//! the caller and handed in, and the decisions are computed and proved.

pub mod cpulist;
pub mod split;
pub mod affinity;
pub mod layout;
pub mod digest;

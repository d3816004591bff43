//! Verified core of a hardware burn-in tool: the pseudo-random generator that
//! drives the stress workloads, the memory-pattern passes, the parsing of the
//! command line and of kernel status files, and the progress clock.

pub mod rng;
pub mod duration;
pub mod text;
pub mod args;
pub mod sysinfo;
pub mod memtest;
pub mod monitor;

pub use args::Args;
pub use duration::format_duration;
pub use memtest::MemoryStress;
pub use monitor::{Monitor, TickAction};
pub use rng::SimpleRng;
pub use sysinfo::{cpu_times, get_memory_info, parse_millidegrees};

//! Rugus: the arch-agnostic logic of a small embedded kernel, verified.

pub mod auth;
pub mod block;
pub mod bytes;
pub mod channel;
pub mod cli;
pub mod cortex_m;
pub mod crc;
pub mod crypto;
pub mod domain;
pub mod errno;
pub mod fault;
pub mod faultlog;
pub mod hal;
pub mod sched;
pub mod rufs;
pub mod syscall;
pub mod telemetry;

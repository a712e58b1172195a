//! Daemon-side live-patch lifecycle engine.
//!
//! The library models installed patches, the state machine that drives every
//! patch through its legal states, the kernel and user patch drivers, the
//! per-target registries used for conflict and override detection, the kernel
//! patch ELF resolver, and the status persistence codec.  All decisions are
//! made over plain values; the surrounding process performs the actual
//! system calls and hands their outcomes back to the engine.
use vstd::prelude::*;

pub mod bytestr;
pub mod codec;
pub mod pkg;
pub mod registry;
pub mod toolkit;
pub mod sm;
pub mod elf;
pub mod entity;
pub mod kdriver;
pub mod kpatch;
pub mod manager;
pub mod error;
pub mod status;
pub mod transaction;
pub mod udriver;
pub mod world;

verus! {

} // verus!

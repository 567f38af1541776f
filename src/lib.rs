//! A simulated virtual-memory manager: per-process address spaces backed by a
//! shared pool of physical frames, filled on demand and reclaimed with the
//! clock (second-chance) replacement policy.

pub mod clock;
pub mod pages;
pub mod process;
pub mod virt_pages;

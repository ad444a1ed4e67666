//! Process-level synchronisation and process-management system calls of a
//! teaching kernel, with the resource bookkeeping behind deadlock detection.
pub mod banker;
pub mod memory;
pub mod process;
pub mod resources;
pub mod sync;

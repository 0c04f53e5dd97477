//! A small task tracker: tasks with a name, a due time and a work weight,
//! kept in a human-readable record file, shown sorted by urgency.
//!
//! The crate holds the verified core: the task model, the ordering
//! strategies, the record format with its encoder and decoder, the storage
//! logic around that format, and the command processing. A thin unverified
//! shell supplies the command line, the clock and the file system.

pub mod task;
pub mod sorting;
pub mod codec;
pub mod storage;
pub mod command;
pub mod display;

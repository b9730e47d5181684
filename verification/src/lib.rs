//! Concatenation of byte streams.
//!
//! A copy moves a source to a destination through a transfer buffer of
//! `BLOCK_SIZE` bytes. Unbuffered, it writes each read through at once;
//! otherwise it gathers reads in an accumulation buffer and writes that out
//! whenever a full block has come together, and once more at the end.
//!
//! - `batching` states the buffering policy over sequences of bytes.
//! - `copier` holds `StreamCopier`, which applies the policy one read at a
//!   time and leaves the reading and writing to its driver.
//! - `stream` describes sources and sinks, `memory` gives one of each, and
//!   `transfer` holds `copy_reader`, which drives a copier over them.
//! - `trace` says what a copy leaves behind, for every way it can end, and
//!   proves what follows from that.
//! - `invocation` reads the command line.

pub mod batching;
pub mod copier;
pub mod invocation;
pub mod memory;
pub mod stream;
pub mod trace;
pub mod transfer;

pub use batching::BLOCK_SIZE;
pub use copier::{Action, StreamCopier};
pub use trace::CopyError;
pub use transfer::copy_reader;

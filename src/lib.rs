//! An embeddable key-value store of strings, persisted as append-only logs.
//!
//! Every mutation is appended as one record to the log of the active
//! generation; an in-memory index maps each live key to its last `Set`
//! record. Opening the store replays the logs of earlier generations, oldest
//! first, and starts a new generation. The host reads and writes the files:
//! the store takes the logs' bytes at `open` and hands back, through
//! `take_unsynced`, the bytes to append to the active generation's file.
pub mod codec;
pub mod command;
pub mod error;
pub mod index;
pub mod layout;
pub mod positional;
pub mod replay;
pub mod store;

pub use command::Command;
pub use error::KvsError;
pub use index::LogSection;
pub use layout::{log_file_name, log_file_path, parse_generation, sorted_log_generations};
pub use positional::{TrackingBufReader, TrackingBufWriter};
pub use store::{load, KvStore};

//! Reading and writing AFS archives: a header, a table of (offset, size)
//! pairs, and blob data aligned to 0x800-byte boundaries from 0x80000 on.
use vstd::prelude::*;

pub mod afs_reader;
pub mod afs_writer;
pub mod format;

pub use afs_reader::{AfsEntry, AfsReader};
pub use afs_writer::AfsWriter;
pub use format::AfsError;

verus! {

} // verus!

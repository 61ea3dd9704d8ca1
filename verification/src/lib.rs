//! Decoder for DRS archives: one file that bundles many graphics, sound and
//! other binary resources, grouped into tables by file type and indexed by a
//! numeric file id.
//!
//! A file is decoded from memory in one forward pass: header, table headers,
//! entry directories, contents. Every function states in its contract which
//! bytes it reads, what it returns, and on which inputs it fails.

pub mod archive;
pub mod either_specs;
pub mod error;
pub mod header;
pub mod layout;
pub mod round_trip;
pub mod sums;
pub mod table;
pub mod validate;
pub mod wire;

pub use crate::archive::DrsFile;
pub use crate::error::DrsError;
pub use crate::header::DrsGameType;
pub use crate::header::DrsHeader;
pub use crate::table::DrsFileContents;
pub use crate::table::DrsFileType;
pub use crate::table::DrsLogicalTable;
pub use crate::table::DrsTableEntry;
pub use crate::table::DrsTableHeader;

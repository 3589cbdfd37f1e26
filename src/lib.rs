//! Removes the embedded source sections from a PDB-style e-book container,
//! compacting the buffer and keeping its section table consistent.

pub mod bytes;
pub mod section;
pub mod mobi;
pub mod container;
pub mod laws;

pub use bytes::FormatError;
pub use section::Section;
pub use mobi::{MobiFile, is_source};
pub use container::process_mobi_file;

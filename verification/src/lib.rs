//! A read-only archive filesystem: a flat, immutable container format holding
//! named byte blobs, exposed as a browsable directory tree.
//!
//! The crate is organised leaves-first:
//! - [`io`] is the injected I/O capability the format reader is driven by:
//!   seek-absolute, seek-relative and read-exact over one shared byte stream.
//! - [`format`] decodes the container: the fixed 16-byte header, the 12-byte
//!   entry records, and the length-prefixed file names.
//! - [`inode`] is the stateless bijection between 64-bit inode numbers and
//!   file/directory references.
//! - [`tree`] holds the name-ordered directory mapping.
//! - [`fs`] builds the directory forest at mount time and serves the four
//!   request handlers: lookup, attribute query, read, and directory listing.

pub mod format;
pub mod fs;
pub mod inode;
pub mod io;
pub mod tree;

pub use crate::format::Entry;
pub use crate::format::Header;
pub use crate::format::Iter;
pub use crate::format::ParseHeaderError;
pub use crate::fs::Attr;
pub use crate::fs::Fs;
pub use crate::fs::FsError;
pub use crate::fs::ListingItem;
pub use crate::fs::MountError;
pub use crate::fs::READ_CAP;
pub use crate::inode::FileKind;
pub use crate::inode::Node;
pub use crate::io::BufIo;
pub use crate::io::Io;

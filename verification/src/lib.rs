//! A flat binary container format for a filesystem subtree.
//!
//! An archive is a plain sequence of entries, one for each object of the
//! subtree: a header record, the raw path, the body of a file, and a footer
//! record. [`recursive_archive`] writes the archive of a subtree, all
//! directories first; [`read`] walks an archive and reports its entries.
//! [`roundtrip`] states what holds between the two.

pub mod crc32;
pub mod decode;
pub mod encode;
pub mod endian;
pub mod flags;
pub mod metadata;
pub mod roundtrip;
pub mod tree;

pub use decode::{read, read1, read_meta, ByteStream, DecodeError, Entry, Slot};
pub use encode::{append_to_archive, recursive_archive, EncodeError, MAX_PATH_LEN};
pub use metadata::{Metadata, MAGIC, PAYLOAD_SIZE, RECORD_SIZE};
pub use tree::{find, FsObject};

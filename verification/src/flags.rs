//! Bit assignments of a record's `flags` word.
//!
//! Bits 0 and 1 hold the kind of the archived object, bit 3 tells a header
//! from a footer. Every other bit is reserved and written as zero.

use vstd::prelude::*;

verus! {

/// Indicates that the archived object is a physical file.
pub const FILE: u32 = 0x0;

/// Indicates that the archived object is a directory.
pub const DIR: u32 = 0x1;

/// Indicates that the archived object is a soft link.
pub const SOFT_LINK: u32 = 0x2;

/// Indicates that the archived object is a hard link.
pub const HARD_LINK: u32 = 0x3;

/// Indicates that the metadata is the header of the object.
/// If this bit is unset this means it is the footer.
pub const HEADER: u32 = 0x8;

/// Mask that selects the kind bits of a `flags` word.
pub const KIND_MASK: u32 = 0x3;

} // verus!

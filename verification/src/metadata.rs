//! The metadata record that opens and closes every entry of an archive.
//!
//! A record occupies forty bytes. All integers are little-endian:
//!
//! | offset | width | field         |
//! |-------:|------:|---------------|
//! |      0 |     8 | `modified_at` |
//! |      8 |     8 | `file_size`   |
//! |     16 |     2 | `path_len`    |
//! |     18 |     2 | `perms`       |
//! |     20 |     2 | `owner`       |
//! |     22 |     2 | `group`       |
//! |     24 |     4 | `magic`       |
//! |     28 |     4 | `flags`       |
//! |     32 |     4 | `checksum`    |
//! |     36 |     4 | reserved      |
//!
//! The checksum covers the thirty-two bytes in front of it. The reserved
//! bytes are written as zero and ignored when a record is read.

use crate::crc32::{crc32, digest, lemma_single_byte_change};
use crate::endian::{
    get_le, le_bytes, le_value, lemma_le_bytes_len, lemma_le_value_bound, lemma_le_value_of_bytes,
    lemma_pow256_widths, put_le,
};
use crate::flags::{DIR, FILE, HEADER, KIND_MASK, SOFT_LINK};
use vstd::prelude::*;

verus! {

/// Randomly generated, every byte is unique.
pub const MAGIC: u32 = 0x2f_96_8b_6a;

/// The length of a record in bytes.
pub const RECORD_SIZE: usize = 40;

/// The length of the part of a record that the checksum covers.
pub const PAYLOAD_SIZE: usize = 32;

/// The description of one archived object.
#[derive(Clone, Copy, Debug, PartialEq, Eq, Structural)]
pub struct Metadata {
    /// Seconds since the Unix epoch.
    pub modified_at: u64,
    /// Length of the body in bytes; zero for everything but a file.
    pub file_size: u64,
    /// Length in bytes of the path that follows the header.
    pub path_len: u16,
    /// Reserved, zero.
    pub perms: u16,
    /// Reserved, zero.
    pub owner: u16,
    /// Reserved, zero.
    pub group: u16,
    /// [`MAGIC`] in every well-formed record.
    pub magic: u32,
    /// See [`crate::flags`].
    pub flags: u32,
    /// Metadata checksum.
    pub checksum: u32,
}

/// The name of the kind that the two lowest bits of `flags` hold.
pub open spec fn kind_label(flags: u32) -> Seq<char> {
    let kind = flags & KIND_MASK;
    if kind == FILE {
        "File"@
    } else if kind == DIR {
        "Directory"@
    } else if kind == SOFT_LINK {
        "Soft Link"@
    } else {
        "Hard Link"@
    }
}

impl Default for Metadata {
    /// The record with every field zero.
    fn default() -> (meta: Metadata)
        ensures
            meta == (Metadata {
                modified_at: 0,
                file_size: 0,
                path_len: 0,
                perms: 0,
                owner: 0,
                group: 0,
                magic: 0,
                flags: 0,
                checksum: 0,
            }),
    {
        Metadata {
            modified_at: 0,
            file_size: 0,
            path_len: 0,
            perms: 0,
            owner: 0,
            group: 0,
            magic: 0,
            flags: 0,
            checksum: 0,
        }
    }
}

impl Metadata {
    /// The thirty-two bytes that the checksum covers: every field in front
    /// of the checksum, in order.
    pub open spec fn payload(self) -> Seq<u8> {
        le_bytes(self.modified_at as nat, 8) + le_bytes(self.file_size as nat, 8) + le_bytes(
            self.path_len as nat,
            2,
        ) + le_bytes(self.perms as nat, 2) + le_bytes(self.owner as nat, 2) + le_bytes(
            self.group as nat,
            2,
        ) + le_bytes(self.magic as nat, 4) + le_bytes(self.flags as nat, 4)
    }

    /// The forty bytes of the record: the payload, the checksum and four
    /// zero bytes.
    pub open spec fn record(self) -> Seq<u8> {
        self.payload() + le_bytes(self.checksum as nat, 4) + seq![0u8, 0u8, 0u8, 0u8]
    }

    /// The record that forty bytes spell.
    pub open spec fn parsed(bytes: Seq<u8>) -> Metadata {
        Metadata {
            modified_at: le_value(bytes.subrange(0, 8)) as u64,
            file_size: le_value(bytes.subrange(8, 16)) as u64,
            path_len: le_value(bytes.subrange(16, 18)) as u16,
            perms: le_value(bytes.subrange(18, 20)) as u16,
            owner: le_value(bytes.subrange(20, 22)) as u16,
            group: le_value(bytes.subrange(22, 24)) as u16,
            magic: le_value(bytes.subrange(24, 28)) as u32,
            flags: le_value(bytes.subrange(28, 32)) as u32,
            checksum: le_value(bytes.subrange(32, 36)) as u32,
        }
    }

    /// The checksum that belongs to the other fields as they stand.
    pub open spec fn expected_checksum(self) -> u32 {
        crc32(self.payload())
    }

    /// Whether the stored checksum is the one that belongs to the other
    /// fields.
    pub open spec fn checksum_valid(self) -> bool {
        self.checksum == self.expected_checksum()
    }

    /// Whether the record carries the magic constant.
    pub open spec fn well_formed(self) -> bool {
        self.magic == MAGIC
    }

    /// Tells whether the record carries the magic constant. The record is
    /// left as it is.
    pub fn check(&mut self) -> (result: Result<(), ()>)
        ensures
            *final(self) == *old(self),
            result is Ok <==> old(self).well_formed(),
    {
        if self.magic == MAGIC {
            Ok(())
        } else {
            Err(())
        }
    }

    /// The name of the kind of the archived object.
    pub fn kind(&self) -> (label: &'static str)
        ensures
            label@ == kind_label(self.flags),
    {
        let file_flag = self.flags & KIND_MASK;
        if file_flag == FILE {
            "File"
        } else if file_flag == DIR {
            "Directory"
        } else if file_flag == SOFT_LINK {
            "Soft Link"
        } else {
            "Hard Link"
        }
    }

    /// Computes the checksum that belongs to the other fields.
    pub fn compute_checksum(&self) -> (crc: u32)
        ensures
            crc == self.expected_checksum(),
    {
        let bytes = self.as_bytes_without_checksum();
        digest(bytes.as_slice())
    }

    /// Stores the checksum that belongs to the other fields.
    pub fn set_checksum(&mut self)
        ensures
            *final(self) == (Metadata { checksum: old(self).expected_checksum(), ..*old(self) }),
            final(self).checksum_valid(),
    {
        self.checksum = self.compute_checksum();
        self.assert_checksum_valid();
    }

    /// Marks a place where the stored checksum must be the one that belongs
    /// to the other fields.
    pub fn assert_checksum_valid(&self)
        requires
            self.checksum_valid(),
    {
    }

    /// Serializes every field in front of the checksum.
    pub fn as_bytes_without_checksum(&self) -> (bytes: Vec<u8>)
        ensures
            bytes@ == self.payload(),
            bytes@.len() == PAYLOAD_SIZE,
    {
        let mut bytes: Vec<u8> = Vec::new();
        put_le(&mut bytes, self.modified_at, 8);
        put_le(&mut bytes, self.file_size, 8);
        put_le(&mut bytes, self.path_len as u64, 2);
        put_le(&mut bytes, self.perms as u64, 2);
        put_le(&mut bytes, self.owner as u64, 2);
        put_le(&mut bytes, self.group as u64, 2);
        put_le(&mut bytes, self.magic as u64, 4);
        put_le(&mut bytes, self.flags as u64, 4);
        proof {
            self.lemma_lengths();
        }
        bytes
    }

    /// Serializes the record. The checksum must have been set.
    pub fn as_bytes(&self) -> (bytes: Vec<u8>)
        requires
            self.checksum_valid(),
        ensures
            bytes@ == self.record(),
            bytes@.len() == RECORD_SIZE,
    {
        self.assert_checksum_valid();
        let mut bytes = self.as_bytes_without_checksum();
        put_le(&mut bytes, self.checksum as u64, 4);
        put_le(&mut bytes, 0, 4);
        proof {
            self.lemma_lengths();
            reveal_with_fuel(le_bytes, 5);
            assert(le_bytes(0, 4) =~= seq![0u8, 0u8, 0u8, 0u8]);
        }
        bytes
    }

    /// Reads a record from exactly forty bytes.
    pub fn from_bytes(bytes: &[u8]) -> (meta: Option<Metadata>)
        ensures
            bytes@.len() == RECORD_SIZE ==> meta == Some(Metadata::parsed(bytes@)),
            bytes@.len() != RECORD_SIZE ==> meta is None,
    {
        if bytes.len() != RECORD_SIZE {
            return None;
        }
        proof {
            lemma_pow256_widths();
            lemma_le_value_bound(bytes@.subrange(16, 18));
            lemma_le_value_bound(bytes@.subrange(18, 20));
            lemma_le_value_bound(bytes@.subrange(20, 22));
            lemma_le_value_bound(bytes@.subrange(22, 24));
            lemma_le_value_bound(bytes@.subrange(24, 28));
            lemma_le_value_bound(bytes@.subrange(28, 32));
            lemma_le_value_bound(bytes@.subrange(32, 36));
        }
        Some(
            Metadata {
                modified_at: get_le(bytes, 0, 8),
                file_size: get_le(bytes, 8, 8),
                path_len: get_le(bytes, 16, 2) as u16,
                perms: get_le(bytes, 18, 2) as u16,
                owner: get_le(bytes, 20, 2) as u16,
                group: get_le(bytes, 22, 2) as u16,
                magic: get_le(bytes, 24, 4) as u32,
                flags: get_le(bytes, 28, 4) as u32,
                checksum: get_le(bytes, 32, 4) as u32,
            },
        )
    }

    /// The payload is thirty-two bytes long and the record forty.
    pub proof fn lemma_lengths(self)
        ensures
            self.payload().len() == PAYLOAD_SIZE,
            self.record().len() == RECORD_SIZE,
    {
        lemma_le_bytes_len(self.modified_at as nat, 8);
        lemma_le_bytes_len(self.file_size as nat, 8);
        lemma_le_bytes_len(self.path_len as nat, 2);
        lemma_le_bytes_len(self.perms as nat, 2);
        lemma_le_bytes_len(self.owner as nat, 2);
        lemma_le_bytes_len(self.group as nat, 2);
        lemma_le_bytes_len(self.magic as nat, 4);
        lemma_le_bytes_len(self.flags as nat, 4);
        lemma_le_bytes_len(self.checksum as nat, 4);
    }

    /// The checksum field has no part in the payload: whatever is stored in
    /// it, the bytes that the checksum covers stay the same.
    pub proof fn lemma_payload_ignores_checksum(self, checksum: u32)
        ensures
            (Metadata { checksum, ..self }).payload() == self.payload(),
            (Metadata { checksum, ..self }).expected_checksum() == self.expected_checksum(),
    {
    }

    /// The bit that tells a header from a footer changes the checksum: two
    /// records that differ in that bit alone never share their checksum.
    pub proof fn lemma_header_bit_changes_checksum(self)
        ensures
            (Metadata { flags: self.flags ^ HEADER, ..self }).expected_checksum()
                != self.expected_checksum(),
    {
        let other = Metadata { flags: self.flags ^ HEADER, ..self };
        let flags = self.flags;
        self.lemma_lengths();
        other.lemma_lengths();
        lemma_le_bytes_len(self.modified_at as nat, 8);
        lemma_le_bytes_len(self.file_size as nat, 8);
        lemma_le_bytes_len(self.path_len as nat, 2);
        lemma_le_bytes_len(self.perms as nat, 2);
        lemma_le_bytes_len(self.owner as nat, 2);
        lemma_le_bytes_len(self.group as nat, 2);
        lemma_le_bytes_len(self.magic as nat, 4);
        lemma_le_bytes_len(self.flags as nat, 4);
        lemma_le_bytes_len(other.flags as nat, 4);
        assert((flags ^ HEADER) % 256 != flags % 256 && (flags ^ HEADER) / 256 == flags / 256)
            by (bit_vector);
        let mine = le_bytes(self.flags as nat, 4);
        let theirs = le_bytes(other.flags as nat, 4);
        assert(mine[0] != theirs[0] && mine.skip(1) == theirs.skip(1)) by {
            assert(mine.skip(1) =~= le_bytes((self.flags / 256) as nat, 3));
            assert(theirs.skip(1) =~= le_bytes((other.flags / 256) as nat, 3));
        }
        assert forall|j: int| 0 <= j < 32 && j != 28 implies self.payload()[j] == other.payload()[j] by {
            if j > 28 {
                assert(self.payload()[j] == mine.skip(1)[j - 29]);
                assert(other.payload()[j] == theirs.skip(1)[j - 29]);
            }
        }
        assert(self.payload()[28] == mine[0]);
        assert(other.payload()[28] == theirs[0]);
        lemma_single_byte_change(self.payload(), other.payload(), 28);
    }

    /// Reading undoes writing: the record that the bytes of `self` spell is
    /// `self`.
    pub proof fn lemma_parse_record(self)
        ensures
            Metadata::parsed(self.record()) == self,
    {
        let bytes = self.record();
        self.lemma_lengths();
        lemma_le_bytes_len(self.modified_at as nat, 8);
        lemma_le_bytes_len(self.file_size as nat, 8);
        lemma_le_bytes_len(self.path_len as nat, 2);
        lemma_le_bytes_len(self.perms as nat, 2);
        lemma_le_bytes_len(self.owner as nat, 2);
        lemma_le_bytes_len(self.group as nat, 2);
        lemma_le_bytes_len(self.magic as nat, 4);
        lemma_le_bytes_len(self.flags as nat, 4);
        lemma_le_bytes_len(self.checksum as nat, 4);
        assert(bytes.subrange(0, 8) =~= le_bytes(self.modified_at as nat, 8));
        assert(bytes.subrange(8, 16) =~= le_bytes(self.file_size as nat, 8));
        assert(bytes.subrange(16, 18) =~= le_bytes(self.path_len as nat, 2));
        assert(bytes.subrange(18, 20) =~= le_bytes(self.perms as nat, 2));
        assert(bytes.subrange(20, 22) =~= le_bytes(self.owner as nat, 2));
        assert(bytes.subrange(22, 24) =~= le_bytes(self.group as nat, 2));
        assert(bytes.subrange(24, 28) =~= le_bytes(self.magic as nat, 4));
        assert(bytes.subrange(28, 32) =~= le_bytes(self.flags as nat, 4));
        assert(bytes.subrange(32, 36) =~= le_bytes(self.checksum as nat, 4));
        lemma_pow256_widths();
        lemma_le_value_of_bytes(self.modified_at as nat, 8);
        lemma_le_value_of_bytes(self.file_size as nat, 8);
        lemma_le_value_of_bytes(self.path_len as nat, 2);
        lemma_le_value_of_bytes(self.perms as nat, 2);
        lemma_le_value_of_bytes(self.owner as nat, 2);
        lemma_le_value_of_bytes(self.group as nat, 2);
        lemma_le_value_of_bytes(self.magic as nat, 4);
        lemma_le_value_of_bytes(self.flags as nat, 4);
        lemma_le_value_of_bytes(self.checksum as nat, 4);
    }
}

} // verus!

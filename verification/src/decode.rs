//! The decoder: from the bytes of an archive back to its entries.
//!
//! An archive has no index and no end mark. The decoder reads one entry
//! after the other and stops at the first place where no entry stands,
//! whether the bytes have run out there or are not those of an entry. An
//! attempt that fails leaves the stream where it found it.

use crate::metadata::{kind_label, Metadata, RECORD_SIZE};
use vstd::prelude::*;
use vstd::slice::slice_subrange;
use vstd::utf8::{decode_utf8, valid_utf8};

verus! {

/// Why no entry could be read.
#[derive(Clone, Copy, Debug, PartialEq, Eq, Structural)]
pub enum DecodeError {
    /// No further entries: the bytes ran out where a record was to begin.
    Exhausted,
    /// The header does not carry the magic constant.
    Header,
    /// The footer does not carry the magic constant.
    Footer,
    /// Faulty checksum. The decoder does not test checksums and never
    /// reports this.
    Checksum,
    /// Cut off in the middle of a path or of a body.
    Crop,
}

/// Which of the two records of an entry is being read.
#[derive(Clone, Copy, Debug, PartialEq, Eq, Structural)]
pub enum Slot {
    /// The record in front of path and body.
    Header,
    /// The record behind path and body.
    Footer,
}

/// A sequence of bytes and a place in it, from which reading goes on. The
/// place may lie behind the last byte; nothing is left to read there.
#[derive(Debug)]
pub struct ByteStream {
    /// All the bytes.
    pub bytes: Vec<u8>,
    /// How many of them lie in front of the place.
    pub pos: usize,
}

/// One entry as the decoder reports it. The body is passed over and not
/// kept.
#[derive(Debug, PartialEq, Eq)]
pub struct Entry {
    /// The header record.
    pub header: Metadata,
    /// The raw path.
    pub path: Vec<u8>,
}

/// What an [`Entry`] holds.
pub struct EntryView {
    /// The header record.
    pub header: Metadata,
    /// The raw path.
    pub path: Seq<u8>,
}

impl View for Entry {
    type V = EntryView;

    open spec fn view(&self) -> EntryView {
        EntryView { header: self.header, path: self.path@ }
    }
}

/// The text that `String::from_utf8_lossy` makes of `bytes`: what they spell
/// as UTF-8, with U+FFFD in the place of every part that is no UTF-8.
pub uninterp spec fn lossy_text(bytes: Seq<u8>) -> Seq<char>;

/// `String::from_utf8_lossy` of the standard library, made into an owned
/// string. The result depends on the bytes alone, and bytes that are valid
/// UTF-8 give the text that they spell. Nothing else is claimed of it.
#[verifier::external_body]
fn lossy(bytes: &[u8]) -> (text: String)
    ensures
        text@ == lossy_text(bytes@),
        valid_utf8(bytes@) ==> text@ == decode_utf8(bytes@),
{
    String::from_utf8_lossy(bytes).into_owned()
}

impl Entry {
    /// The name of the kind of the archived object.
    pub fn kind(&self) -> (label: &'static str)
        ensures
            label@ == kind_label(self.header.flags),
    {
        self.header.kind()
    }

    /// The length of the body in bytes.
    pub fn size(&self) -> (size: u64)
        ensures
            size == self.header.file_size,
    {
        self.header.file_size
    }

    /// The path as text, as far as it is text: every part of it that is no
    /// UTF-8 is replaced by U+FFFD.
    pub fn path_text(&self) -> (text: String)
        ensures
            text@ == lossy_text(self.path@),
            valid_utf8(self.path@) ==> text@ == decode_utf8(self.path@),
    {
        lossy(self.path.as_slice())
    }
}

/// What each of `entries` holds.
pub open spec fn views(entries: Seq<Entry>) -> Seq<EntryView> {
    entries.map_values(|e: Entry| e@)
}

/// Whether `count` bytes lie between the place `pos` and the end of
/// `bytes`.
pub open spec fn holds(bytes: Seq<u8>, pos: int, count: int) -> bool {
    pos + count <= bytes.len()
}

/// The error for a record without the magic constant.
pub open spec fn malformed(slot: Slot) -> DecodeError {
    match slot {
        Slot::Header => DecodeError::Header,
        Slot::Footer => DecodeError::Footer,
    }
}

/// The record that begins at `pos`. Fewer than forty bytes there are
/// `Exhausted`; forty bytes without the magic constant are the error of the
/// slot.
pub open spec fn record_at(bytes: Seq<u8>, pos: int, slot: Slot) -> Result<Metadata, DecodeError> {
    if !holds(bytes, pos, RECORD_SIZE as int) {
        Err(DecodeError::Exhausted)
    } else {
        let meta = Metadata::parsed(bytes.subrange(pos, pos + RECORD_SIZE));
        if meta.well_formed() {
            Ok(meta)
        } else {
            Err(malformed(slot))
        }
    }
}

/// The entry that begins at `pos`, and the place behind it: a header, as
/// many bytes of path as the header says, as many bytes of body as it says,
/// and a footer.
pub open spec fn entry_at(bytes: Seq<u8>, pos: int) -> Result<(EntryView, int), DecodeError> {
    match record_at(bytes, pos, Slot::Header) {
        Err(e) => Err(e),
        Ok(header) => {
            let path_at = pos + RECORD_SIZE;
            let body_at = path_at + header.path_len;
            let footer_at = body_at + header.file_size;
            if !holds(bytes, path_at, header.path_len as int) {
                Err(DecodeError::Crop)
            } else if !holds(bytes, body_at, header.file_size as int) {
                Err(DecodeError::Crop)
            } else {
                match record_at(bytes, footer_at, Slot::Footer) {
                    Err(e) => Err(e),
                    Ok(_) => Ok(
                        (
                            EntryView { header, path: bytes.subrange(path_at, body_at) },
                            footer_at + RECORD_SIZE,
                        ),
                    ),
                }
            }
        },
    }
}

/// The entries that stand one after the other from `pos` on, up to the
/// first place where none stands.
pub open spec fn entries_from(bytes: Seq<u8>, pos: int) -> Seq<EntryView>
    decreases bytes.len() - pos,
{
    match entry_at(bytes, pos) {
        Ok((entry, next)) => seq![entry] + entries_from(bytes, next),
        Err(_) => Seq::empty(),
    }
}

/// The place behind the last of the entries that stand one after the other
/// from `pos` on.
pub open spec fn end_of_entries(bytes: Seq<u8>, pos: int) -> int
    decreases bytes.len() - pos,
{
    match entry_at(bytes, pos) {
        Ok((_, next)) => end_of_entries(bytes, next),
        Err(_) => pos,
    }
}

impl ByteStream {
    /// A stream over `bytes`, placed at their start.
    pub fn new(bytes: Vec<u8>) -> (stream: ByteStream)
        ensures
            stream.bytes == bytes,
            stream.pos == 0,
    {
        ByteStream { bytes, pos: 0 }
    }

    /// Reads the next `count` bytes. Where fewer are left, nothing is read.
    pub fn read_exact(&mut self, count: usize) -> (read: Option<Vec<u8>>)
        ensures
            final(self).bytes == old(self).bytes,
            read is Some <==> holds(old(self).bytes@, old(self).pos as int, count as int),
            read matches Some(bytes) ==> bytes@ == old(self).bytes@.subrange(
                old(self).pos as int,
                old(self).pos + count,
            ) && final(self).pos == old(self).pos + count,
            read is None ==> final(self).pos == old(self).pos,
    {
        let len: usize = self.bytes.len();
        if self.pos > len || count > len - self.pos {
            return None;
        }
        let end: usize = self.pos + count;
        let mut bytes: Vec<u8> = Vec::new();
        bytes.extend_from_slice(slice_subrange(self.bytes.as_slice(), self.pos, end));
        assert(bytes@ =~= self.bytes@.subrange(self.pos as int, end as int));
        self.pos = end;
        Some(bytes)
    }

    /// Passes over the next `count` bytes without reading them. Where fewer
    /// are left, the stream stays where it is.
    pub fn skip(&mut self, count: u64) -> (done: bool)
        ensures
            final(self).bytes == old(self).bytes,
            done <==> holds(old(self).bytes@, old(self).pos as int, count as int),
            done ==> final(self).pos == old(self).pos + count,
            !done ==> final(self).pos == old(self).pos,
    {
        let len: usize = self.bytes.len();
        if self.pos > len || count > (len - self.pos) as u64 {
            return false;
        }
        self.pos = self.pos + count as usize;
        true
    }
}

/// Reads the record at which `archive` stands. A record without the magic
/// constant is the error of `slot`; fewer than forty bytes are `Exhausted`.
/// On an error `archive` stays where it was.
pub fn read_meta(slot: Slot, archive: &mut ByteStream) -> (result: Result<Metadata, DecodeError>)
    ensures
        final(archive).bytes == old(archive).bytes,
        result == record_at(old(archive).bytes@, old(archive).pos as int, slot),
        result is Ok ==> final(archive).pos == old(archive).pos + RECORD_SIZE,
        result is Err ==> final(archive).pos == old(archive).pos,
{
    let start: usize = archive.pos;
    let parsed = match archive.read_exact(RECORD_SIZE) {
        Some(bytes) => Metadata::from_bytes(bytes.as_slice()),
        None => None,
    };
    match parsed {
        Some(meta) => {
            let mut meta = meta;
            match meta.check() {
                Ok(()) => Ok(meta),
                Err(()) => {
                    archive.pos = start;
                    match slot {
                        Slot::Header => Err(DecodeError::Header),
                        Slot::Footer => Err(DecodeError::Footer),
                    }
                },
            }
        },
        None => Err(DecodeError::Exhausted),
    }
}

/// Reads the entry at which `archive` stands and leaves `archive` behind it.
/// On an error `archive` stays where it was.
pub fn read1(archive: &mut ByteStream) -> (result: Result<Entry, DecodeError>)
    ensures
        final(archive).bytes == old(archive).bytes,
        match entry_at(old(archive).bytes@, old(archive).pos as int) {
            Ok((entry, next)) => result matches Ok(read) && read@ == entry && final(archive).pos
                == next,
            Err(e) => result matches Err(err) && err == e && final(archive).pos == old(
                archive,
            ).pos,
        },
{
    let start: usize = archive.pos;
    let header = match read_meta(Slot::Header, archive) {
        Ok(header) => header,
        Err(e) => {
            return Err(e);
        },
    };

    let path = match archive.read_exact(header.path_len as usize) {
        Some(path) => path,
        None => {
            archive.pos = start;
            return Err(DecodeError::Crop);
        },
    };

    if !archive.skip(header.file_size) {
        archive.pos = start;
        return Err(DecodeError::Crop);
    }

    match read_meta(Slot::Footer, archive) {
        Ok(_) => Ok(Entry { header, path }),
        Err(e) => {
            archive.pos = start;
            Err(e)
        },
    }
}

/// Reads entry after entry from where `archive` stands, up to the first
/// place where none stands, and leaves `archive` there.
pub fn read(archive: &mut ByteStream) -> (entries: Vec<Entry>)
    ensures
        final(archive).bytes == old(archive).bytes,
        views(entries@) == entries_from(old(archive).bytes@, old(archive).pos as int),
        final(archive).pos == end_of_entries(old(archive).bytes@, old(archive).pos as int),
{
    let mut entries: Vec<Entry> = Vec::new();
    assert(views(entries@) =~= Seq::<EntryView>::empty());
    loop
        invariant
            archive.bytes == old(archive).bytes,
            views(entries@) + entries_from(archive.bytes@, archive.pos as int) == entries_from(
                old(archive).bytes@,
                old(archive).pos as int,
            ),
            end_of_entries(archive.bytes@, archive.pos as int) == end_of_entries(
                old(archive).bytes@,
                old(archive).pos as int,
            ),
        ensures
            archive.bytes == old(archive).bytes,
            views(entries@) == entries_from(old(archive).bytes@, old(archive).pos as int),
            archive.pos == end_of_entries(old(archive).bytes@, old(archive).pos as int),
        decreases archive.bytes@.len() - archive.pos,
    {
        let ghost before = views(entries@);
        let ghost rest = entries_from(archive.bytes@, archive.pos as int);
        match read1(archive) {
            Ok(entry) => {
                entries.push(entry);
                assert(views(entries@) =~= before.push(entry@));
                assert(before.push(entry@) + entries_from(archive.bytes@, archive.pos as int)
                    =~= before + rest);
            },
            Err(_) => {
                assert(before + rest =~= before);
                break ;
            },
        }
    }
    entries
}

} // verus!

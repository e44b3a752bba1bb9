//! The encoder: from filesystem objects to the bytes of an archive.
//!
//! An entry is a header record, the raw path, the body of a file, and a
//! footer record. Header and footer describe the same object; the header
//! carries the header bit, the footer does not, and each has the checksum of
//! its own bytes. An archive is one entry after the other and nothing else.

use crate::flags::{DIR, FILE, HEADER};
use crate::metadata::{Metadata, MAGIC};
use crate::tree::{directories, find, others, preorder, targets, write_order, FsObject};
use vstd::prelude::*;

verus! {

/// The longest path, in bytes, that a record can describe.
pub const MAX_PATH_LEN: usize = 0xFFFF;

/// Why an object was not written.
#[derive(Clone, Copy, Debug, PartialEq, Eq, Structural)]
pub enum EncodeError {
    /// The path is longer than [`MAX_PATH_LEN`] bytes.
    PathTooLong,
}

/// Whether an entry can describe `object`: its path must not be longer than
/// the path length field can say.
pub open spec fn fits(object: FsObject) -> bool {
    object.path_bytes().len() <= MAX_PATH_LEN
}

/// Whether an entry can describe each of `objects`.
pub open spec fn all_fit(objects: Seq<FsObject>) -> bool {
    forall|i: int| 0 <= i < objects.len() ==> fits(#[trigger] objects[i])
}

/// The kind bits for `object`.
pub open spec fn kind_flags(object: FsObject) -> u32 {
    if object.is_dir() {
        DIR
    } else {
        FILE
    }
}

/// The fields that header and footer of `object` share, with the flags of
/// the footer and no checksum yet.
pub open spec fn description(object: FsObject) -> Metadata {
    Metadata {
        modified_at: object.mtime(),
        file_size: object.body_bytes().len() as u64,
        path_len: object.path_bytes().len() as u16,
        perms: 0,
        owner: 0,
        group: 0,
        magic: MAGIC,
        flags: kind_flags(object),
        checksum: 0,
    }
}

/// `meta` with the checksum that belongs to its other fields.
pub open spec fn sealed(meta: Metadata) -> Metadata {
    Metadata { checksum: meta.expected_checksum(), ..meta }
}

/// The header record of `object`.
pub open spec fn header_of(object: FsObject) -> Metadata {
    sealed(Metadata { flags: kind_flags(object) | HEADER, ..description(object) })
}

/// The footer record of `object`.
pub open spec fn footer_of(object: FsObject) -> Metadata {
    sealed(description(object))
}

/// The bytes of the entry for `object`.
pub open spec fn entry_bytes(object: FsObject) -> Seq<u8> {
    header_of(object).record() + object.path_bytes() + object.body_bytes() + footer_of(
        object,
    ).record()
}

/// The bytes of the entries for `objects`, one after the other.
pub open spec fn archive_of(objects: Seq<FsObject>) -> Seq<u8>
    decreases objects.len(),
{
    if objects.len() == 0 {
        Seq::empty()
    } else {
        archive_of(objects.drop_last()) + entry_bytes(objects.last())
    }
}

/// The objects at the front of `objects` up to the first that no entry can
/// describe: what is written before the encoder gives up.
pub open spec fn accepted(objects: Seq<FsObject>) -> Seq<FsObject>
    decreases objects.len(),
{
    if objects.len() == 0 || !fits(objects[0]) {
        Seq::empty()
    } else {
        seq![objects[0]] + accepted(objects.skip(1))
    }
}

/// Where every object fits, all of them are written.
pub proof fn lemma_accepted_all(objects: Seq<FsObject>)
    requires
        all_fit(objects),
    ensures
        accepted(objects) == objects,
    decreases objects.len(),
{
    if objects.len() > 0 {
        lemma_accepted_all(objects.skip(1));
        assert(seq![objects[0]] + objects.skip(1) =~= objects);
    }
}

/// Nothing is written from the first object on that does not fit.
pub proof fn lemma_accepted_stops(
    front: Seq<FsObject>,
    rejected: FsObject,
    rest: Seq<FsObject>,
)
    requires
        all_fit(front),
        !fits(rejected),
    ensures
        accepted(front + seq![rejected] + rest) == front,
    decreases front.len(),
{
    let objects = front + seq![rejected] + rest;
    if front.len() == 0 {
        assert(objects[0] == rejected);
        assert(accepted(objects) =~= front);
    } else {
        assert(objects[0] == front[0]);
        assert(objects.skip(1) =~= front.skip(1) + seq![rejected] + rest);
        lemma_accepted_stops(front.skip(1), rejected, rest);
        assert(seq![front[0]] + front.skip(1) =~= front);
    }
}

/// An archive grows by one entry with every object.
pub proof fn lemma_archive_of_push(objects: Seq<FsObject>, object: FsObject)
    ensures
        archive_of(objects.push(object)) == archive_of(objects) + entry_bytes(object),
{
    assert(objects.push(object).drop_last() =~= objects);
}

/// Header and footer of an entry agree in every field but two: the header
/// carries the header bit and the footer does not, and their checksums
/// differ.
pub proof fn lemma_header_and_footer(object: FsObject)
    ensures
        header_of(object).modified_at == footer_of(object).modified_at,
        header_of(object).file_size == footer_of(object).file_size,
        header_of(object).path_len == footer_of(object).path_len,
        header_of(object).perms == footer_of(object).perms,
        header_of(object).owner == footer_of(object).owner,
        header_of(object).group == footer_of(object).group,
        header_of(object).magic == footer_of(object).magic,
        header_of(object).flags == footer_of(object).flags | HEADER,
        footer_of(object).flags & HEADER == 0,
        header_of(object).flags & HEADER == HEADER,
        header_of(object).checksum != footer_of(object).checksum,
        header_of(object).checksum_valid(),
        footer_of(object).checksum_valid(),
{
    let base = description(object);
    let kind = base.flags;
    assert(kind == 0 || kind == 1);
    assert((kind == 0 || kind == 1) ==> (kind | HEADER) == (kind ^ HEADER) && kind & HEADER == 0
        && (kind | HEADER) & HEADER == HEADER) by (bit_vector);
    base.lemma_header_bit_changes_checksum();
}

/// Appends the entry for `object` to `archive`: header, path, body of a
/// file, footer. An object whose path is too long for the path length field
/// is rejected, and `archive` is left as it was.
pub fn append_to_archive(archive: &mut Vec<u8>, object: &FsObject) -> (result: Result<
    (),
    EncodeError,
>)
    ensures
        result is Ok <==> fits(*object),
        result is Ok ==> final(archive)@ == old(archive)@ + entry_bytes(*object),
        result is Err ==> result == Err::<(), EncodeError>(EncodeError::PathTooLong),
        result is Err ==> final(archive)@ == old(archive)@,
{
    let path_len: usize = match object {
        FsObject::File { path, .. } => path.len(),
        FsObject::Directory { path, .. } => path.len(),
    };
    if path_len > MAX_PATH_LEN {
        return Err(EncodeError::PathTooLong);
    }
    let flags: u32;
    let file_size: u64;
    let modified_at: u64;
    match object {
        FsObject::File { body, modified_at: at, .. } => {
            flags = FILE;
            file_size = body.len() as u64;
            modified_at = *at;
        },
        FsObject::Directory { modified_at: at, .. } => {
            flags = DIR;
            file_size = 0;
            modified_at = *at;
        },
    }

    let meta = Metadata {
        modified_at,
        file_size,
        path_len: path_len as u16,
        perms: 0,
        owner: 0,
        group: 0,
        magic: MAGIC,
        flags,
        // needs to be calculated for header and footer separately.
        checksum: 0,
    };
    assert(meta == description(*object));

    let mut header_meta = meta;
    header_meta.flags = header_meta.flags | HEADER;
    header_meta.set_checksum();

    let mut footer_meta = meta;
    footer_meta.set_checksum();

    // actual writing of stuff down here.
    let header_bytes = header_meta.as_bytes();
    let footer_bytes = footer_meta.as_bytes();
    write(archive, header_bytes.as_slice());
    match object {
        FsObject::File { path, body, .. } => {
            write(archive, path.as_slice());
            write(archive, body.as_slice());
        },
        FsObject::Directory { path, .. } => {
            write(archive, path.as_slice());
            assert(archive@ =~= archive@ + object.body_bytes());
        },
    }
    write(archive, footer_bytes.as_slice());
    Ok(())
}

/// Appends `bytes` to `archive`.
fn write(archive: &mut Vec<u8>, bytes: &[u8])
    ensures
        final(archive)@ == old(archive)@ + bytes@,
{
    archive.extend_from_slice(bytes);
    assert(archive@ =~= old(archive)@ + bytes@);
}

/// Archives the subtree below `root`, `root` included: first every
/// directory, then everything else, either group in the order of discovery.
/// The first object that does not fit ends the work; what was written
/// before it stays in `archive`.
pub fn recursive_archive(archive: &mut Vec<u8>, root: &FsObject) -> (result: Result<
    (),
    EncodeError,
>)
    ensures
        final(archive)@ == old(archive)@ + archive_of(accepted(write_order(*root))),
        result is Ok <==> all_fit(write_order(*root)),
        result is Err ==> result == Err::<(), EncodeError>(EncodeError::PathTooLong),
{
    let mut entries: Vec<&FsObject> = Vec::new();
    find(root, &mut entries);
    let ghost found = targets(entries@);
    assert(found =~= preorder(*root));

    let mut i: usize = 0;
    while i < entries.len()
        invariant
            i <= entries.len(),
            found == targets(entries@),
            found == preorder(*root),
            all_fit(directories(found.take(i as int))),
            archive@ == old(archive)@ + archive_of(directories(found.take(i as int))),
        decreases entries.len() - i,
    {
        let e = entries[i];
        proof {
            lemma_take_step(found, i as int);
        }
        if e.is_dir() {
            match append_to_archive(archive, e) {
                Ok(()) => {
                    proof {
                        lemma_archive_of_push(directories(found.take(i as int)), *e);
                    }
                },
                Err(err) => {
                    proof {
                        lemma_stops_among_directories(found, i as int);
                    }
                    return Err(err);
                },
            }
        }
        i = i + 1;
    }
    assert(found.take(i as int) =~= found);

    let ghost dirs = directories(found);
    let mut i: usize = 0;
    while i < entries.len()
        invariant
            i <= entries.len(),
            found == targets(entries@),
            found == preorder(*root),
            dirs == directories(found),
            all_fit(dirs + others(found.take(i as int))),
            archive@ == old(archive)@ + archive_of(dirs + others(found.take(i as int))),
        decreases entries.len() - i,
    {
        let e = entries[i];
        let ghost written = dirs + others(found.take(i as int));
        proof {
            lemma_take_step(found, i as int);
        }
        if !e.is_dir() {
            match append_to_archive(archive, e) {
                Ok(()) => {
                    proof {
                        lemma_archive_of_push(written, *e);
                        assert(written.push(*e) =~= dirs + others(found.take(i as int)).push(*e));
                    }
                },
                Err(err) => {
                    proof {
                        lemma_stops_among_others(found, i as int);
                    }
                    return Err(err);
                },
            }
        }
        i = i + 1;
    }
    proof {
        assert(found.take(i as int) =~= found);
        lemma_accepted_all(write_order(*root));
    }
    Ok(())
}

/// One more object of a list joins the directories or the others of what
/// came before it.
proof fn lemma_take_step(found: Seq<FsObject>, i: int)
    requires
        0 <= i < found.len(),
    ensures
        directories(found.take(i + 1)) == if found[i].is_dir() {
            directories(found.take(i)).push(found[i])
        } else {
            directories(found.take(i))
        },
        others(found.take(i + 1)) == if found[i].is_dir() {
            others(found.take(i))
        } else {
            others(found.take(i)).push(found[i])
        },
{
    assert(found.take(i + 1) =~= found.take(i).push(found[i]));
    found.take(i).lemma_filter_push(found[i], |o: FsObject| o.is_dir());
    found.take(i).lemma_filter_push(found[i], |o: FsObject| !o.is_dir());
}

/// The directories and the others of a list, each split at a place `i`.
proof fn lemma_split_at(found: Seq<FsObject>, i: int)
    requires
        0 <= i < found.len(),
    ensures
        directories(found) == directories(found.take(i + 1)) + directories(found.skip(i + 1)),
        others(found) == others(found.take(i + 1)) + others(found.skip(i + 1)),
{
    assert(found =~= found.take(i + 1) + found.skip(i + 1));
    Seq::filter_distributes_over_add(
        found.take(i + 1),
        found.skip(i + 1),
        |o: FsObject| o.is_dir(),
    );
    Seq::filter_distributes_over_add(
        found.take(i + 1),
        found.skip(i + 1),
        |o: FsObject| !o.is_dir(),
    );
}

/// Where the directory at place `i` is the first object that does not fit,
/// the directories before it are all that is written.
proof fn lemma_stops_among_directories(found: Seq<FsObject>, i: int)
    requires
        0 <= i < found.len(),
        found[i].is_dir(),
        !fits(found[i]),
        all_fit(directories(found.take(i))),
    ensures
        accepted(directories(found) + others(found)) == directories(found.take(i)),
        !all_fit(directories(found) + others(found)),
{
    lemma_take_step(found, i);
    lemma_split_at(found, i);
    let front = directories(found.take(i));
    let rest = directories(found.skip(i + 1)) + others(found);
    let order = directories(found) + others(found);
    assert(order =~= front + seq![found[i]] + rest);
    lemma_accepted_stops(front, found[i], rest);
    assert(order[front.len() as int] == found[i]);
}

/// Where the object at place `i`, no directory, is the first that does not
/// fit, all directories and the others before it are all that is written.
proof fn lemma_stops_among_others(found: Seq<FsObject>, i: int)
    requires
        0 <= i < found.len(),
        !found[i].is_dir(),
        !fits(found[i]),
        all_fit(directories(found) + others(found.take(i))),
    ensures
        accepted(directories(found) + others(found)) == directories(found) + others(
            found.take(i),
        ),
        !all_fit(directories(found) + others(found)),
{
    lemma_take_step(found, i);
    lemma_split_at(found, i);
    let front = directories(found) + others(found.take(i));
    let rest = others(found.skip(i + 1));
    let order = directories(found) + others(found);
    assert(order =~= front + seq![found[i]] + rest);
    lemma_accepted_stops(front, found[i], rest);
    assert(order[front.len() as int] == found[i]);
}

} // verus!

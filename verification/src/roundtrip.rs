//! What holds between the encoder and the decoder: an archive that the
//! encoder wrote is read back entry for entry, and an archive that was cut
//! off inside an entry is read back up to that entry.

use crate::decode::{end_of_entries, entries_from, entry_at, DecodeError, EntryView};
use crate::encode::{all_fit, archive_of, entry_bytes, fits, footer_of, header_of, kind_flags};
use crate::flags::KIND_MASK;
use crate::tree::{directories, others, preorder, write_order, FsObject};
use vstd::prelude::*;

verus! {

/// What the decoder reports of the entry for `object`.
pub open spec fn report(object: FsObject) -> EntryView {
    EntryView { header: header_of(object), path: object.path_bytes() }
}

/// What the decoder reports of the entries for `objects`.
pub open spec fn reports(objects: Seq<FsObject>) -> Seq<EntryView> {
    objects.map_values(|o: FsObject| report(o))
}

/// The length of the entry for an object that fits: two records, the path
/// and the body.
pub proof fn lemma_entry_len(object: FsObject)
    requires
        fits(object),
    ensures
        entry_bytes(object).len() == 80 + object.path_bytes().len() + object.body_bytes().len(),
        header_of(object).path_len == object.path_bytes().len(),
        header_of(object).file_size == object.body_bytes().len(),
        header_of(object).well_formed(),
        footer_of(object).well_formed(),
{
    header_of(object).lemma_lengths();
    footer_of(object).lemma_lengths();
    match object {
        FsObject::File { body, .. } => {
            assert(body@.len() == body.len());
        },
        FsObject::Directory { .. } => {},
    }
}

/// An archive begins with the entry for its first object.
pub proof fn lemma_archive_of_first(objects: Seq<FsObject>)
    requires
        objects.len() > 0,
    ensures
        archive_of(objects) == entry_bytes(objects[0]) + archive_of(objects.skip(1)),
    decreases objects.len(),
{
    if objects.len() == 1 {
        assert(objects.drop_last() =~= Seq::<FsObject>::empty());
        assert(objects.skip(1) =~= Seq::<FsObject>::empty());
        assert(archive_of(objects) =~= entry_bytes(objects[0]) + archive_of(objects.skip(1)));
    } else {
        lemma_archive_of_first(objects.drop_last());
        assert(objects.drop_last().skip(1) =~= objects.skip(1).drop_last());
        assert(archive_of(objects) =~= entry_bytes(objects[0]) + archive_of(objects.skip(1)));
    }
}

/// The entry for an object that fits is read back where it stands, whatever
/// stands in front of it and behind it.
pub proof fn lemma_entry_read_back(front: Seq<u8>, object: FsObject, behind: Seq<u8>)
    requires
        fits(object),
    ensures
        entry_at(front + entry_bytes(object) + behind, front.len() as int) == Ok::<
            (EntryView, int),
            DecodeError,
        >((report(object), (front.len() + entry_bytes(object).len()) as int)),
{
    let header = header_of(object);
    let footer = footer_of(object);
    let path = object.path_bytes();
    let body = object.body_bytes();
    let bytes = front + entry_bytes(object) + behind;
    let pos = front.len() as int;
    lemma_entry_len(object);
    header.lemma_lengths();
    footer.lemma_lengths();
    header.lemma_parse_record();
    footer.lemma_parse_record();
    let path_at = pos + 40;
    let body_at = path_at + path.len();
    let footer_at = body_at + body.len();
    assert(bytes.subrange(pos, pos + 40) =~= header.record());
    assert(bytes.subrange(path_at, body_at) =~= path);
    assert(bytes.subrange(footer_at, footer_at + 40) =~= footer.record());
}

/// The entry for an object that fits, cut off anywhere inside, is not read
/// back: a cut inside the header or the footer is `Exhausted`, a cut inside
/// the path or the body is `Crop`.
pub proof fn lemma_cut_entry_fails(front: Seq<u8>, object: FsObject, cut: int)
    requires
        fits(object),
        0 <= cut < entry_bytes(object).len(),
    ensures
        entry_at(front + entry_bytes(object).take(cut), front.len() as int) is Err,
        entry_at(front + entry_bytes(object).take(cut), front.len() as int) == Err::<
            (EntryView, int),
            DecodeError,
        >(
            if cut < 40 || cut >= 40 + object.path_bytes().len() + object.body_bytes().len() {
                DecodeError::Exhausted
            } else {
                DecodeError::Crop
            },
        ),
{
    let header = header_of(object);
    let bytes = front + entry_bytes(object).take(cut);
    let pos = front.len() as int;
    lemma_entry_len(object);
    header.lemma_lengths();
    header.lemma_parse_record();
    if cut >= 40 {
        assert(bytes.subrange(pos, pos + 40) =~= header.record());
    }
}

/// Bytes in four parts, grouped in three ways.
proof fn lemma_regroup(a: Seq<u8>, b: Seq<u8>, c: Seq<u8>, d: Seq<u8>)
    ensures
        a + (b + c) + d == a + b + (c + d),
        a + (b + c) + d == (a + b) + c + d,
        (a + b).len() == a.len() + b.len(),
        (b + c).len() == b.len() + c.len(),
{
    assert(a + (b + c) + d =~= a + b + (c + d));
    assert(a + (b + c) + d =~= (a + b) + c + d);
}

/// The objects behind the first of a row that fits fit too, and their
/// reports follow the report of the first.
proof fn lemma_rest(objects: Seq<FsObject>)
    requires
        objects.len() > 0,
        all_fit(objects),
    ensures
        fits(objects[0]),
        all_fit(objects.skip(1)),
        reports(objects) == seq![report(objects[0])] + reports(objects.skip(1)),
{
    let rest = objects.skip(1);
    assert forall|i: int| 0 <= i < rest.len() implies fits(#[trigger] rest[i]) by {
        assert(rest[i] == objects[i + 1]);
    }
    assert(reports(objects) =~= seq![report(objects[0])] + reports(rest));
}

/// Where the entries for objects that fit are followed by bytes at which no
/// entry stands, exactly those entries are read back, in their order.
pub proof fn lemma_read_back_until(front: Seq<u8>, objects: Seq<FsObject>, behind: Seq<u8>)
    requires
        all_fit(objects),
        entry_at(
            front + archive_of(objects) + behind,
            (front.len() + archive_of(objects).len()) as int,
        ) is Err,
    ensures
        entries_from(front + archive_of(objects) + behind, front.len() as int) == reports(
            objects,
        ),
        end_of_entries(front + archive_of(objects) + behind, front.len() as int) == front.len()
            + archive_of(objects).len(),
    decreases objects.len(),
{
    let bytes = front + archive_of(objects) + behind;
    if objects.len() == 0 {
        assert(reports(objects) =~= Seq::<EntryView>::empty());
        assert(archive_of(objects).len() == 0);
    } else {
        let first = objects[0];
        let rest = objects.skip(1);
        let entry = entry_bytes(first);
        let tail = archive_of(rest);
        lemma_rest(objects);
        lemma_archive_of_first(objects);
        lemma_regroup(front, entry, tail, behind);
        lemma_entry_read_back(front, first, tail + behind);
        lemma_read_back_until(front + entry, rest, behind);
    }
}

/// Round trip: the archive of objects that fit is read back as exactly
/// their entries, one for each object and in the order in which they were
/// written, and the decoder ends behind the last byte.
pub proof fn lemma_round_trip(objects: Seq<FsObject>)
    requires
        all_fit(objects),
    ensures
        entries_from(archive_of(objects), 0) == reports(objects),
        entries_from(archive_of(objects), 0).len() == objects.len(),
        end_of_entries(archive_of(objects), 0) == archive_of(objects).len(),
{
    let none = Seq::<u8>::empty();
    assert(none + archive_of(objects) + none =~= archive_of(objects));
    lemma_read_back_until(none, objects, none);
}

/// Round trip of a subtree: where every object of the subtree below `root`
/// fits, its archive is read back as one entry for each directory, in the
/// order of discovery, followed by one entry for each other object, in the
/// order of discovery. Kind, path and size of every entry are those of its
/// object.
pub proof fn lemma_round_trip_of_subtree(root: FsObject)
    requires
        all_fit(write_order(root)),
    ensures
        entries_from(archive_of(write_order(root)), 0) == reports(directories(preorder(root)))
            + reports(others(preorder(root))),
        entries_from(archive_of(write_order(root)), 0).len() == directories(
            preorder(root),
        ).len() + others(preorder(root)).len(),
        forall|i: int|
            0 <= i < write_order(root).len() ==> {
                let entry = #[trigger] entries_from(archive_of(write_order(root)), 0)[i];
                let object = write_order(root)[i];
                &&& entry.path == object.path_bytes()
                &&& entry.header.file_size == object.body_bytes().len()
                &&& entry.header.flags & KIND_MASK == kind_flags(
                    object,
                )
            },
{
    let order = write_order(root);
    lemma_round_trip(order);
    assert(reports(order) =~= reports(directories(preorder(root))) + reports(
        others(preorder(root)),
    ));
    assert forall|i: int| 0 <= i < order.len() implies {
        let entry = #[trigger] entries_from(archive_of(order), 0)[i];
        let object = order[i];
        &&& entry.path == object.path_bytes()
        &&& entry.header.file_size == object.body_bytes().len()
        &&& entry.header.flags & KIND_MASK == kind_flags(object)
    } by {
        let object = order[i];
        assert(fits(object));
        lemma_entry_len(object);
        let kind = kind_flags(object);
        assert((kind == 0 || kind == 1) ==> (kind | 8u32) & 3u32 == kind) by (bit_vector);
    }
}

/// An archive that was cut off inside its last entry is read back up to
/// that entry: the entries in front of it are reported, the one that was
/// cut is not, and the decoder ends where the cut entry begins.
pub proof fn lemma_cut_archive(objects: Seq<FsObject>, last: FsObject, cut: int)
    requires
        all_fit(objects),
        fits(last),
        0 <= cut < entry_bytes(last).len(),
    ensures
        entries_from(archive_of(objects) + entry_bytes(last).take(cut), 0) == reports(objects),
        end_of_entries(archive_of(objects) + entry_bytes(last).take(cut), 0) == archive_of(
            objects,
        ).len(),
{
    let none = Seq::<u8>::empty();
    let tail = entry_bytes(last).take(cut);
    assert(none + archive_of(objects) + tail =~= archive_of(objects) + tail);
    lemma_cut_entry_fails(archive_of(objects), last, cut);
    lemma_read_back_until(none, objects, tail);
}

} // verus!

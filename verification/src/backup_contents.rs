//! The contents that a backup is written from: their records, their counts, and
//! whether they are whole.
use crate::backup::{counted, empty_state, EntryModel, ExportState, MAX_LOGICAL_BYTES};
use crate::backup_format::{
    attachment_bytes, chunk_bytes, chunks_valid, data_bytes, described, item_bytes, revision_bytes,
    CHUNK, MAX_RECORD,
};
use crate::backup_history::{digest_set, holds_event, referenced, row_bytes, EventRow, SqlValue};
use crate::backup_laws::distinct;
use crate::backup_verify::{
    pair_key, ExpectedFile, FileCheck, ItemCheck, RecordDigests, RevisionCheck, StreamRecord,
};
use crate::content::{kind_name, AttachmentModel, RecordKind};
use crate::history::lifecycle_named;
use vstd::prelude::*;

verus! {

/// How digests are taken: the digest of bytes, and what stands where none is
/// asked for.
pub struct Hashing {
    pub hash: spec_fn(Seq<u8>) -> [u8; 32],
    pub other: [u8; 32],
}

/// A chunk of a file.
pub struct ChunkContent {
    pub id: [u8; 16],
    pub content: Seq<u8>,
}

/// A file of a revision and its content, chunk by chunk.
pub struct FileContent {
    pub id: [u8; 16],
    pub item: [u8; 16],
    pub revision: [u8; 16],
    pub attachment: [u8; 16],
    pub name: Seq<char>,
    pub mime: Seq<char>,
    pub size: u64,
    pub sha256: [u8; 32],
    pub chunks: Seq<ChunkContent>,
}

/// A part of what a backup is written from.
pub enum Part {
    Item { id: [u8; 16], visible: [u8; 16], kind: RecordKind, status: Seq<char> },
    Revision {
        id: [u8; 16],
        item: [u8; 16],
        issuer: [u8; 16],
        modified: i64,
        descriptor: Seq<u8>,
    },
    File(FileContent),
    Event { id: [u8; 16], row: Seq<SqlValue>, event: EventRow },
    Other { kind: Seq<char>, id: [u8; 16], payload: Seq<u8> },
}

/// A data record as it is written, with the digests of the event and of the
/// file content that end in it.
pub struct Written {
    pub kind: Seq<char>,
    pub id: [u8; 16],
    pub payload: Seq<u8>,
    pub event: [u8; 32],
    pub content: [u8; 32],
}

/// The bytes of a record.
pub open spec fn bytes_of(w: Written) -> Seq<u8> {
    data_bytes(w.kind, w.id, w.payload)
}

/// The digests that a record is checked with.
pub open spec fn digests_for(w: Written, h: Hashing) -> RecordDigests {
    RecordDigests {
        record: (h.hash)(bytes_of(w)),
        event: w.event,
        content: w.content,
        pages: h.other,
    }
}

/// A record as it is read.
pub open spec fn read_as(w: Written, h: Hashing) -> StreamRecord {
    StreamRecord { bytes: bytes_of(w), digests: digests_for(w, h) }
}

/// The inventory entry of a record.
pub open spec fn entry_for(w: Written, h: Hashing) -> EntryModel {
    EntryModel {
        kind: w.kind,
        id: w.id,
        hash: (h.hash)(bytes_of(w)),
        size: bytes_of(w).len() as u64,
    }
}

/// Records as they are read.
pub open spec fn all_read_as(v: Seq<Written>, h: Hashing) -> Seq<StreamRecord> {
    Seq::new(v.len(), |i: int| read_as(v[i], h))
}

/// The inventory of records.
pub open spec fn inventory_of(v: Seq<Written>, h: Hashing) -> Seq<EntryModel> {
    Seq::new(v.len(), |i: int| entry_for(v[i], h))
}

/// The content of the first `n` chunks of a file.
pub open spec fn content_of(v: Seq<ChunkContent>, n: nat) -> Seq<u8>
    decreases n,
{
    if n == 0 {
        Seq::empty()
    } else {
        content_of(v, (n - 1) as nat) + v[n - 1].content
    }
}

/// The digest that a chunk brings: that of the whole content with the last one.
pub open spec fn chunk_digest(f: FileContent, i: int, h: Hashing) -> [u8; 32] {
    if i + 1 == f.chunks.len() {
        (h.hash)(content_of(f.chunks, f.chunks.len()))
    } else {
        h.other
    }
}

/// The record of a chunk.
pub open spec fn chunk_record(f: FileContent, i: int, h: Hashing) -> Written {
    Written {
        kind: "attachment_chunk"@,
        id: f.chunks[i].id,
        payload: chunk_bytes(f.revision, f.attachment, i as u64, f.chunks[i].content),
        event: h.other,
        content: chunk_digest(f, i, h),
    }
}

/// The records of the first `n` chunks of a file.
pub open spec fn chunk_records(f: FileContent, n: nat, h: Hashing) -> Seq<Written> {
    Seq::new(n, |i: int| chunk_record(f, i, h))
}

/// The first record of a part, which for all but files is the only one.
pub open spec fn first_record(p: Part, h: Hashing) -> Written {
    match p {
        Part::Item { id, visible, kind, status } => Written {
            kind: "item"@,
            id,
            payload: item_bytes(visible, kind_name(kind), status),
            event: h.other,
            content: h.other,
        },
        Part::Revision { id, item, issuer, modified, descriptor } => Written {
            kind: "revision"@,
            id,
            payload: revision_bytes(item, issuer, modified, descriptor),
            event: h.other,
            content: h.other,
        },
        Part::File(f) => Written {
            kind: "attachment"@,
            id: f.id,
            payload: attachment_bytes(
                f.item,
                f.revision,
                f.attachment,
                f.name,
                f.mime,
                f.size,
                f.sha256,
                f.chunks.len() as u64,
            ),
            event: h.other,
            content: h.other,
        },
        Part::Event { id, row, event } => Written {
            kind: "authority_history"@,
            id,
            payload: row_bytes(row)->0,
            event: (h.hash)(event.event),
            content: h.other,
        },
        Part::Other { kind, id, payload } => Written {
            kind,
            id,
            payload,
            event: h.other,
            content: h.other,
        },
    }
}

/// The records of a part.
pub open spec fn records_of(p: Part, h: Hashing) -> Seq<Written> {
    match p {
        Part::File(f) => seq![first_record(p, h)] + chunk_records(f, f.chunks.len(), h),
        _ => seq![first_record(p, h)],
    }
}

/// The records of all parts, one part after the other.
pub open spec fn all_records(v: Seq<Part>, h: Hashing) -> Seq<Written>
    decreases v.len(),
{
    if v.len() == 0 {
        Seq::empty()
    } else {
        all_records(v.drop_last(), h) + records_of(v.last(), h)
    }
}

/// The counts with further records, within the limits.
pub open spec fn all_counted(s: ExportState, v: Seq<Written>) -> Option<ExportState>
    decreases v.len(),
{
    if v.len() == 0 {
        Some(s)
    } else {
        match all_counted(s, v.drop_last()) {
            Some(t) => counted(t, v.last().kind, bytes_of(v.last()).len() as int),
            None => None,
        }
    }
}

/// The counts after a part; the bytes of a file are added when it ends.
pub open spec fn part_counted(s: ExportState, p: Part, h: Hashing) -> Option<ExportState> {
    match all_counted(s, records_of(p, h)) {
        Some(t) => match p {
            Part::File(f) => if t.attachment_bytes + f.size <= MAX_LOGICAL_BYTES {
                Some(
                    ExportState {
                        attachment_bytes: (t.attachment_bytes + f.size) as u64,
                        ..t
                    },
                )
            } else {
                None
            },
            _ => Some(t),
        },
        None => None,
    }
}

/// The counts after all parts have been written.
pub open spec fn written(v: Seq<Part>, h: Hashing) -> Option<ExportState>
    decreases v.len(),
{
    if v.len() == 0 {
        Some(empty_state())
    } else {
        match written(v.drop_last(), h) {
            Some(s) => part_counted(s, v.last(), h),
            None => None,
        }
    }
}

/// The items among parts.
pub open spec fn items_of(v: Seq<Part>) -> Map<Seq<u8>, ItemCheck>
    decreases v.len(),
{
    if v.len() == 0 {
        Map::empty()
    } else {
        match v.last() {
            Part::Item { id, visible, kind, .. } => items_of(v.drop_last()).insert(
                id@,
                ItemCheck { visible, kind },
            ),
            _ => items_of(v.drop_last()),
        }
    }
}

/// The revisions among parts.
pub open spec fn revisions_of(v: Seq<Part>) -> Map<Seq<u8>, RevisionCheck>
    decreases v.len(),
{
    if v.len() == 0 {
        Map::empty()
    } else {
        match v.last() {
            Part::Revision { id, item, descriptor, .. } => revisions_of(v.drop_last()).insert(
                id@,
                RevisionCheck { item, kind: (described(descriptor)->0).kind },
            ),
            _ => revisions_of(v.drop_last()),
        }
    }
}

/// Files that are announced, with the first `n` of a revision.
pub open spec fn announce(
    expected: Map<Seq<u8>, ExpectedFile>,
    revision: [u8; 16],
    item: [u8; 16],
    files: Seq<AttachmentModel>,
    n: nat,
) -> Map<Seq<u8>, ExpectedFile>
    decreases n,
{
    if n == 0 {
        expected
    } else {
        let f = files[n - 1];
        announce(expected, revision, item, files, (n - 1) as nat).insert(
            pair_key(revision, f.id),
            ExpectedFile { item, size: f.size, sha256: f.sha256 },
        )
    }
}

/// The files that the revisions among parts announce and that are not among
/// the parts.
pub open spec fn missing_of(v: Seq<Part>) -> Map<Seq<u8>, ExpectedFile>
    decreases v.len(),
{
    if v.len() == 0 {
        Map::empty()
    } else {
        let before = missing_of(v.drop_last());
        match v.last() {
            Part::Revision { id, item, descriptor, .. } => {
                let files = (described(descriptor)->0).attachments;
                announce(before, id, item, files, files.len())
            },
            Part::File(f) => before.remove(pair_key(f.revision, f.attachment)),
            _ => before,
        }
    }
}

/// What has been seen of a file that is complete.
pub open spec fn complete_file(f: FileContent, h: Hashing) -> FileCheck {
    FileCheck {
        size: f.size,
        sha256: f.sha256,
        chunks: f.chunks.len() as u64,
        seen: f.chunks.len() as u64,
        bytes: content_of(f.chunks, f.chunks.len()).len() as u64,
        digest: (h.hash)(content_of(f.chunks, f.chunks.len())),
    }
}

/// The files among parts.
pub open spec fn files_of(v: Seq<Part>, h: Hashing) -> Map<Seq<u8>, FileCheck>
    decreases v.len(),
{
    if v.len() == 0 {
        Map::empty()
    } else {
        match v.last() {
            Part::File(f) => files_of(v.drop_last(), h).insert(
                pair_key(f.revision, f.attachment),
                complete_file(f, h),
            ),
            _ => files_of(v.drop_last(), h),
        }
    }
}

/// The digests of the events among parts.
pub open spec fn digests_of(v: Seq<Part>) -> Set<Seq<u8>>
    decreases v.len(),
{
    if v.len() == 0 {
        Set::empty()
    } else {
        match v.last() {
            Part::Event { event, .. } => digests_of(v.drop_last()).insert(event.digest@),
            _ => digests_of(v.drop_last()),
        }
    }
}

/// The events that the events among parts refer to.
pub open spec fn references_of(v: Seq<Part>) -> Set<Seq<u8>>
    decreases v.len(),
{
    if v.len() == 0 {
        Set::empty()
    } else {
        match v.last() {
            Part::Event { event, .. } => references_of(v.drop_last()).union(
                digest_set(referenced(event.previous, event.parents)),
            ),
            _ => references_of(v.drop_last()),
        }
    }
}

/// Whether records of a type are carried along as they are.
pub open spec fn other_type(kind: Seq<char>) -> bool {
    kind == "partial_history"@ || kind == "organization"@ || kind == "settings"@ || kind
        == "audit_bundle"@ || kind == "identity_metadata"@
}

/// Whether a file is whole: it has as many chunks as its size asks for, none of
/// them too long, and together they have its size and its digest.
pub open spec fn file_whole(f: FileContent, h: Hashing) -> bool {
    &&& f.chunks.len() <= u64::MAX
    &&& chunks_valid(f.size, f.chunks.len() as u64)
    &&& forall|i: int|
        0 <= i < f.chunks.len() ==> (#[trigger] f.chunks[i]).content.len() <= CHUNK
    &&& content_of(f.chunks, f.chunks.len()).len() == f.size
    &&& (h.hash)(content_of(f.chunks, f.chunks.len())) == f.sha256
}

/// Whether a part may follow others: an item has a status, a revision has the
/// descriptor of a record, a file is whole and one that a revision announced,
/// an event stands under its own digest, and no record is too long.
pub open spec fn part_sound(before: Seq<Part>, p: Part, h: Hashing) -> bool {
    &&& forall|i: int|
        0 <= i < records_of(p, h).len() ==> bytes_of(#[trigger] records_of(p, h)[i]).len()
            <= MAX_RECORD
    &&& match p {
        Part::Item { status, .. } => lifecycle_named(status) is Some,
        Part::Revision { descriptor, .. } => described(descriptor) is Some,
        Part::File(f) => {
            let key = pair_key(f.revision, f.attachment);
            &&& missing_of(before).contains_key(key)
            &&& missing_of(before)[key] == (ExpectedFile {
                item: f.item,
                size: f.size,
                sha256: f.sha256,
            })
            &&& file_whole(f, h)
        },
        Part::Event { id, row, event } => {
            &&& holds_event(row, event)
            &&& (h.hash)(event.event) == event.digest
            &&& id@ == event.digest@.take(16)
        },
        Part::Other { kind, .. } => other_type(kind),
    }
}

/// Whether parts can be written one after the other: each may follow those
/// before it, none has the type and the identifier of another, and all are
/// within the limits.
pub open spec fn parts_sound(v: Seq<Part>, h: Hashing) -> bool {
    &&& forall|i: int| 0 <= i < v.len() ==> part_sound(v.take(i), #[trigger] v[i], h)
    &&& distinct(inventory_of(all_records(v, h), h))
    &&& written(v, h) is Some
}

/// Whether the items and the revisions among parts refer to each other and have
/// the same kinds.
pub open spec fn parts_fit(v: Seq<Part>) -> bool {
    forall|i: int|
        0 <= i < v.len() ==> match #[trigger] v[i] {
            Part::Item { id, visible, kind, .. } => {
                &&& revisions_of(v).contains_key(visible@)
                &&& revisions_of(v)[visible@] == (RevisionCheck { item: id, kind })
            },
            Part::Revision { item, descriptor, .. } => {
                &&& items_of(v).contains_key(item@)
                &&& items_of(v)[item@].kind == (described(descriptor)->0).kind
            },
            _ => true,
        }
}

/// Whether parts are the whole contents of a vault: they can be written, items
/// and revisions fit, every file that is announced is there, and so is every
/// event that is referred to.
pub open spec fn contents_whole(v: Seq<Part>, h: Hashing) -> bool {
    &&& parts_sound(v, h)
    &&& parts_fit(v)
    &&& missing_of(v) == Map::<Seq<u8>, ExpectedFile>::empty()
    &&& references_of(v).subset_of(digests_of(v))
}

} // verus!

//! Verification of a backup, record by record.
use crate::backup::{
    consistent, counted, empty_state, entries_tail, entry_then, page_bytes, summarized,
    BackupSummary, EntryModel, ExportState, SummaryModel,
};
use crate::backup_format::{
    attachment_of, chunk_of, data_of, data_type, decode_attachment, decode_attachment_chunk,
    decode_data, decode_item, decode_revision, end_bytes, frame_at, frame_length, is_data_type,
    item_of, peek_type, revision_of, type_of, BackupAttachment, BackupItem, BackupRevisionModel,
    CHUNK, ChunkModel, INVENTORY_PAGE,
};
use crate::backup_history::{
    decode_authority_history, digest_set, history_event, history_of, history_read,
};
use crate::bytes::{same, same_str};
use crate::cbor::{
    array_head, bytes_item, lemma_array, lemma_bytes_within, lemma_map, lemma_text_within,
    lemma_uint, map_head, take_map_of, take_uint_to, text_item, uint_item, Reader,
};
use crate::content::{Attachment, AttachmentModel, RecordKind};
use crate::errors::HumanCommitError;
use crate::lists::{
    after, lemma_array_of, next_array, next_bytes, next_fixed, next_int, next_key, next_text,
    next_uint, take_digest, take_id,
};
use crate::ordered::same_array;
use crate::table::Table;
use crate::views::views;
use crate::wipe::wipe_bytes;
use vstd::prelude::*;
use vstd::slice::slice_to_vec;
use vstd::utf8::encode_utf8;

verus! {

/// A record that the inventory has yet to list.
#[derive(Clone, Copy)]
pub struct Observed {
    pub hash: [u8; 32],
    pub size: u64,
}

/// What is known of an item.
#[derive(Clone, Copy)]
pub struct ItemCheck {
    pub visible: [u8; 16],
    pub kind: RecordKind,
}

/// What is known of a revision.
#[derive(Clone, Copy)]
pub struct RevisionCheck {
    pub item: [u8; 16],
    pub kind: RecordKind,
}

/// A file that a revision announces.
#[derive(Clone, Copy)]
pub struct ExpectedFile {
    pub item: [u8; 16],
    pub size: u64,
    pub sha256: [u8; 32],
}

/// What has been seen of a file.
#[derive(Clone, Copy)]
pub struct FileCheck {
    pub size: u64,
    pub sha256: [u8; 32],
    pub chunks: u64,
    pub seen: u64,
    pub bytes: u64,
    pub digest: [u8; 32],
}

/// The digests that a record is checked with: that of the record, that of the
/// event in it, that of the content of its file up to it, and that of all
/// framed inventory pages before it.
#[derive(Clone, Copy)]
pub struct RecordDigests {
    pub record: [u8; 32],
    pub event: [u8; 32],
    pub content: [u8; 32],
    pub pages: [u8; 32],
}

/// The key under which a record is observed.
pub open spec fn entry_key(kind: Seq<char>, id: [u8; 16]) -> Seq<u8> {
    id@ + encode_utf8(kind)
}

/// The key of a file of a revision.
pub open spec fn pair_key(revision: [u8; 16], attachment: [u8; 16]) -> Seq<u8> {
    revision@ + attachment@
}

/// The key under which a record is observed.
fn make_entry_key(kind: &str, id: &[u8; 16]) -> (r: Vec<u8>)
    ensures
        r@ == entry_key(kind@, *id),
{
    let mut out = slice_to_vec(id.as_slice());
    out.extend_from_slice(kind.as_bytes());
    assert(out@ =~= entry_key(kind@, *id));
    out
}

/// The key of a file of a revision.
pub fn make_pair_key(revision: &[u8; 16], attachment: &[u8; 16]) -> (r: Vec<u8>)
    ensures
        r@ == pair_key(*revision, *attachment),
{
    let mut out = slice_to_vec(revision.as_slice());
    out.extend_from_slice(attachment.as_slice());
    assert(out@ =~= pair_key(*revision, *attachment));
    out
}

/// What has been verified of a backup.
pub struct VerifierModel {
    pub backup_id: [u8; 16],
    pub vault: [u8; 16],
    pub outer_hash: [u8; 32],
    pub input: Seq<u8>,
    pub start_seen: bool,
    pub end_seen: bool,
    pub observed: Map<Seq<u8>, Observed>,
    pub items: Map<Seq<u8>, ItemCheck>,
    pub revisions: Map<Seq<u8>, RevisionCheck>,
    pub expected: Map<Seq<u8>, ExpectedFile>,
    pub files: Map<Seq<u8>, FileCheck>,
    pub active: Option<([u8; 16], [u8; 16])>,
    pub digests: Set<Seq<u8>>,
    pub references: Set<Seq<u8>>,
    pub next_page: u64,
    pub state: ExportState,
}

/// Verifies a backup record by record.
pub struct RecordVerifier {
    backup_id: [u8; 16],
    vault: [u8; 16],
    outer_hash: [u8; 32],
    input: Vec<u8>,
    start_seen: bool,
    end_seen: bool,
    observed: Table<Observed>,
    items: Table<ItemCheck>,
    revisions: Table<RevisionCheck>,
    expected: Table<ExpectedFile>,
    files: Table<FileCheck>,
    active: Option<([u8; 16], [u8; 16])>,
    digests: Table<()>,
    references: Table<()>,
    next_page: u64,
    state: ExportState,
}

impl View for RecordVerifier {
    type V = VerifierModel;

    closed spec fn view(&self) -> VerifierModel {
        VerifierModel {
            backup_id: self.backup_id,
            vault: self.vault,
            outer_hash: self.outer_hash,
            input: self.input@,
            start_seen: self.start_seen,
            end_seen: self.end_seen,
            observed: self.observed@,
            items: self.items@,
            revisions: self.revisions@,
            expected: self.expected@,
            files: self.files@,
            active: self.active,
            digests: self.digests@.dom(),
            references: self.references@.dom(),
            next_page: self.next_page,
            state: self.state,
        }
    }
}

impl Drop for RecordVerifier {
    /// Erases what no record has taken when the verifier is released.
    fn drop(&mut self)
        ensures
            final(self)@ == (VerifierModel { input: Seq::empty(), ..old(self)@ }),
        opens_invariants none
        no_unwind
    {
        wipe_bytes(&mut self.input);
    }
}

/// A verifier that has seen nothing.
pub open spec fn fresh(backup_id: [u8; 16], vault: [u8; 16],
    outer_hash: [u8; 32]) -> VerifierModel {
    VerifierModel {
        backup_id,
        vault,
        outer_hash,
        input: Seq::empty(),
        start_seen: false,
        end_seen: false,
        observed: Map::empty(),
        items: Map::empty(),
        revisions: Map::empty(),
        expected: Map::empty(),
        files: Map::empty(),
        active: None,
        digests: Set::empty(),
        references: Set::empty(),
        next_page: 0,
        state: empty_state(),
    }
}

/// After a file: all its chunks must have been seen.
pub open spec fn settled(m: VerifierModel) -> Result<VerifierModel, HumanCommitError> {
    match m.active {
        Some((revision, attachment)) => {
            let key = pair_key(revision, attachment);
            if m.files.contains_key(key) && m.files[key].seen == m.files[key].chunks {
                Ok(VerifierModel { active: None, ..m })
            } else {
                Err(HumanCommitError::Integrity)
            }
        },
        None => Ok(m),
    }
}

/// After the first record, which names the backup, its vault and the digest of
/// the outer header.
pub open spec fn started(m: VerifierModel, b: Seq<u8>) -> Result<VerifierModel, HumanCommitError> {
    let kind = next_key(next_key(take_map_of(b, 10), "type"@), "manifest_start"@);
    let v = match next_key(kind, "v"@) {
        Some(b) => take_uint_to(b, u8::MAX as u64),
        None => None,
    };
    let backup = next_fixed::<16>(next_key(after(v), "backup_id"@));
    let snapshot = next_fixed::<16>(next_key(after(backup), "snapshot_id"@));
    let created = next_int(next_key(after(snapshot), "created_at"@));
    let outer = next_fixed::<32>(next_key(after(created), "outer_sha256"@));
    let vault = next_fixed::<16>(next_key(after(outer), "source_vault"@));
    let frontier = next_bytes(next_key(after(vault), "content_frontier"@));
    let checkpoint = next_bytes(next_key(after(frontier), "authority_checkpoint_ref"@));
    let end = next_key(next_key(after(checkpoint), "scope"@), "full"@);
    if m.start_seen || m.observed != Map::<Seq<u8>, Observed>::empty() {
        Err(HumanCommitError::InvalidInput)
    } else if v is None || (v->0).0 != 1 || backup is None {
        Err(HumanCommitError::InvalidInput)
    } else if (backup->0).0 != m.backup_id {
        Err(HumanCommitError::Integrity)
    } else if outer is None {
        Err(HumanCommitError::InvalidInput)
    } else if (outer->0).0 != m.outer_hash {
        Err(HumanCommitError::Integrity)
    } else if vault is None {
        Err(HumanCommitError::InvalidInput)
    } else if (vault->0).0 != m.vault {
        Err(HumanCommitError::Integrity)
    } else if end is None || (end->0).len() != 0 {
        Err(HumanCommitError::InvalidInput)
    } else {
        Ok(VerifierModel { start_seen: true, ..m })
    }
}

/// The inventory entry at the front of `b` and what follows it.
pub open spec fn page_entry_at(b: Seq<u8>) -> Option<(EntryModel, Seq<u8>)> {
    let kind = next_text(next_key(take_map_of(b, 4), "type"@));
    let id = next_fixed::<16>(next_key(after(kind), "id"@));
    let hash = next_fixed::<32>(next_key(after(id), "record_sha256"@));
    match next_uint(next_key(after(hash), "logical_size"@)) {
        Some((size, t)) => Some(
            (EntryModel { kind: (kind->0).0, id: (id->0).0, hash: (hash->0).0, size }, t),
        ),
        None => None,
    }
}

/// What is left of the observed records after the `n` entries at the front of
/// `b`, each of which must be one of them, and what follows the entries.
pub open spec fn crossed(observed: Map<Seq<u8>, Observed>, b: Seq<u8>, n: nat) -> Result<
    (Map<Seq<u8>, Observed>, Seq<u8>),
    HumanCommitError,
>
    decreases n,
{
    if n == 0 {
        Ok((observed, b))
    } else {
        match page_entry_at(b) {
            Some((e, t)) => {
                let key = entry_key(e.kind, e.id);
                if observed.contains_key(key) && observed[key].hash == e.hash && observed[key].size
                    == e.size {
                    crossed(observed.remove(key), t, (n - 1) as nat)
                } else {
                    Err(HumanCommitError::Integrity)
                }
            },
            None => Err(HumanCommitError::InvalidInput),
        }
    }
}

/// After an inventory page.
pub open spec fn paged(m: VerifierModel, b: Seq<u8>) -> Result<VerifierModel, HumanCommitError> {
    let kind = next_key(next_key(take_map_of(b, 3), "type"@), "inventory_page"@);
    let index = next_uint(next_key(kind, "index"@));
    let count = next_array(next_key(after(index), "entries"@));
    if !m.start_seen || m.end_seen || index is None {
        Err(HumanCommitError::InvalidInput)
    } else if (index->0).0 != m.next_page {
        Err(HumanCommitError::Integrity)
    } else if count is None || !(0 < (count->0).0 <= INVENTORY_PAGE) {
        Err(HumanCommitError::InvalidInput)
    } else {
        match crossed(m.observed, (count->0).1, (count->0).0 as nat) {
            Ok((observed, rest)) => if rest.len() == 0 && m.next_page < u64::MAX {
                Ok(VerifierModel { observed, next_page: (m.next_page + 1) as u64, ..m })
            } else {
                Err(HumanCommitError::InvalidInput)
            },
            Err(e) => Err(e),
        }
    }
}

/// After the last record, whose counts and digest must be those of what was
/// seen.
pub open spec fn ended(m: VerifierModel, b: Seq<u8>, pages_digest: [u8; 32]) -> Result<
    VerifierModel,
    HumanCommitError,
> {
    let kind = next_key(next_key(take_map_of(b, 6), "type"@), "manifest_end"@);
    let records = next_uint(next_key(kind, "record_count"@));
    let attachments = next_uint(next_key(after(records), "attachment_count"@));
    let logical = next_uint(next_key(after(attachments), "logical_bytes"@));
    let pages = next_fixed::<32>(next_key(after(logical), "inventory_pages_sha256"@));
    let bytes = next_uint(next_key(after(pages), "attachment_bytes"@));
    if !m.start_seen || m.end_seen || m.observed != Map::<Seq<u8>, Observed>::empty() {
        Err(HumanCommitError::Integrity)
    } else if records is None {
        Err(HumanCommitError::InvalidInput)
    } else if (records->0).0 != m.state.records {
        Err(HumanCommitError::Integrity)
    } else if attachments is None {
        Err(HumanCommitError::InvalidInput)
    } else if (attachments->0).0 != m.state.attachments {
        Err(HumanCommitError::Integrity)
    } else if logical is None {
        Err(HumanCommitError::InvalidInput)
    } else if (logical->0).0 != m.state.logical_bytes {
        Err(HumanCommitError::Integrity)
    } else if bytes is None {
        Err(HumanCommitError::InvalidInput)
    } else if (bytes->0).0 != m.state.attachment_bytes || (bytes->0).1.len() != 0 || (pages->0).0
        != pages_digest {
        Err(HumanCommitError::Integrity)
    } else {
        Ok(VerifierModel { end_seen: true, ..m })
    }
}

/// After a data record of a type was noted: its identifier and its payload. A
/// record of the same type and identifier must not have been seen.
pub open spec fn noted(m: VerifierModel, kind: Seq<char>, b: Seq<u8>,
    record_digest: [u8; 32]) -> Result<
    (VerifierModel, [u8; 16], Seq<u8>),
    HumanCommitError,
> {
    match data_of(b, kind) {
        Some((id, payload)) => {
            let key = entry_key(kind, id);
            if m.observed.contains_key(key) {
                Err(HumanCommitError::Integrity)
            } else {
                match counted(m.state, kind, b.len() as int) {
                    Some(state) => Ok(
                        (
                            VerifierModel {
                                observed: m.observed.insert(
                                    key,
                                    Observed { hash: record_digest, size: b.len() as u64 },
                                ),
                                state,
                                ..m
                            },
                            id,
                            payload,
                        ),
                    ),
                    None => Err(HumanCommitError::InvalidInput),
                }
            }
        },
        None => Err(HumanCommitError::InvalidInput),
    }
}

/// The files that a revision announces, with the first `n` of a list.
pub open spec fn announced(
    expected: Map<Seq<u8>, ExpectedFile>,
    revision: [u8; 16],
    item: [u8; 16],
    files: Seq<AttachmentModel>,
    n: nat,
) -> Option<Map<Seq<u8>, ExpectedFile>>
    decreases n,
{
    if n == 0 {
        Some(expected)
    } else {
        match announced(expected, revision, item, files, (n - 1) as nat) {
            Some(before) => {
                let f = files[n - 1];
                let key = pair_key(revision, f.id);
                if before.contains_key(key) {
                    None
                } else {
                    Some(before.insert(key, ExpectedFile { item, size: f.size, sha256: f.sha256 }))
                }
            },
            None => None,
        }
    }
}

/// After an item.
pub open spec fn after_item(m: VerifierModel, id: [u8; 16], payload: Seq<u8>) -> Result<
    VerifierModel,
    HumanCommitError,
> {
    match item_of(payload) {
        Some(i) => if m.items.contains_key(id@) {
            Err(HumanCommitError::Integrity)
        } else {
            Ok(
                VerifierModel {
                    items: m.items.insert(id@, ItemCheck { visible: i.visible, kind: i.kind }),
                    ..m
                },
            )
        },
        None => Err(HumanCommitError::InvalidInput),
    }
}

/// After a revision.
pub open spec fn after_revision(m: VerifierModel, id: [u8; 16], payload: Seq<u8>) -> Result<
    VerifierModel,
    HumanCommitError,
> {
    match revision_of(payload) {
        Some(v) => if m.revisions.contains_key(id@) {
            Err(HumanCommitError::Integrity)
        } else {
            match announced(
                m.expected,
                id,
                v.item,
                v.record.attachments,
                v.record.attachments.len(),
            ) {
                Some(expected) => Ok(
                    VerifierModel {
                        revisions: m.revisions.insert(
                            id@,
                            RevisionCheck { item: v.item, kind: v.record.kind },
                        ),
                        expected,
                        ..m
                    },
                ),
                None => Err(HumanCommitError::Integrity),
            }
        },
        None => Err(HumanCommitError::InvalidInput),
    }
}

/// After the description of a file, which must be as its revision announced.
pub open spec fn after_file(m: VerifierModel, payload: Seq<u8>) -> Result<
    VerifierModel,
    HumanCommitError,
> {
    match attachment_of(payload) {
        Some(a) => {
            let key = pair_key(a.revision, a.attachment);
            if !m.expected.contains_key(key) || m.expected[key] != (ExpectedFile {
                item: a.item,
                size: a.size,
                sha256: a.sha256,
            }) || m.files.contains_key(key) {
                Err(HumanCommitError::Integrity)
            } else if m.state.attachment_bytes + a.size > u64::MAX {
                Err(HumanCommitError::InvalidInput)
            } else {
                Ok(
                    VerifierModel {
                        expected: m.expected.remove(key),
                        files: m.files.insert(key, unseen(a.size, a.sha256, a.chunks)),
                        active: Some((a.revision, a.attachment)),
                        state: ExportState {
                            attachment_bytes: (m.state.attachment_bytes + a.size) as u64,
                            ..m.state
                        },
                        ..m
                    },
                )
            }
        },
        None => Err(HumanCommitError::InvalidInput),
    }
}

/// A file of which nothing has been seen.
pub open spec fn unseen(size: u64, sha256: [u8; 32], chunks: u64) -> FileCheck {
    FileCheck { size, sha256, chunks, seen: 0, bytes: 0, digest: sha256 }
}

/// After a chunk, which must be the next one of the file that was described
/// last.
pub open spec fn after_chunk(m: VerifierModel, payload: Seq<u8>,
    content_digest: [u8; 32]) -> Result<
    VerifierModel,
    HumanCommitError,
> {
    match chunk_of(payload) {
        Some(c) => {
            let key = pair_key(c.revision, c.attachment);
            if m.active != Some((c.revision, c.attachment)) || !m.files.contains_key(key) {
                Err(HumanCommitError::Integrity)
            } else {
                let f = m.files[key];
                if c.index != f.seen || c.content.len() > CHUNK {
                    Err(HumanCommitError::Integrity)
                } else if f.seen == u64::MAX || f.bytes + c.content.len() > u64::MAX {
                    Err(HumanCommitError::InvalidInput)
                } else {
                    Ok(
                        VerifierModel {
                            files: m.files.insert(
                                key,
                                FileCheck {
                                    seen: (f.seen + 1) as u64,
                                    bytes: (f.bytes + c.content.len()) as u64,
                                    digest: content_digest,
                                    ..f
                                },
                            ),
                            ..m
                        },
                    )
                }
            }
        },
        None => Err(HumanCommitError::InvalidInput),
    }
}

/// After an authority event, which is identified by its digest.
pub open spec fn after_event(
    m: VerifierModel,
    id: [u8; 16],
    payload: Seq<u8>,
    event_digest: [u8; 32],
) -> Result<VerifierModel, HumanCommitError> {
    match history_read(payload, event_digest) {
        Ok((digest, references)) => if id@ != digest@.take(16) || m.digests.contains(digest@) {
            Err(HumanCommitError::Integrity)
        } else {
            Ok(
                VerifierModel {
                    digests: m.digests.insert(digest@),
                    references: m.references.union(references),
                    ..m
                },
            )
        },
        Err(e) => Err(e),
    }
}

/// After the payload of a data record of a type.
pub open spec fn applied(
    m: VerifierModel,
    kind: Seq<char>,
    id: [u8; 16],
    payload: Seq<u8>,
    digests: RecordDigests,
) -> Result<VerifierModel, HumanCommitError> {
    if kind == "item"@ {
        after_item(m, id, payload)
    } else if kind == "revision"@ {
        after_revision(m, id, payload)
    } else if kind == "attachment"@ {
        after_file(m, payload)
    } else if kind == "attachment_chunk"@ {
        after_chunk(m, payload, digests.content)
    } else if kind == "authority_history"@ {
        after_event(m, id, payload, digests.event)
    } else {
        Ok(m)
    }
}

/// After a data record of a type, with what it holds.
pub open spec fn data_taken(
    m: VerifierModel,
    kind: Seq<char>,
    b: Seq<u8>,
    digests: RecordDigests,
) -> Result<(VerifierModel, [u8; 16], Seq<u8>), HumanCommitError> {
    if !m.start_seen || m.next_page != 0 || m.end_seen || !data_type(kind) {
        Err(HumanCommitError::InvalidInput)
    } else {
        match (if kind == "attachment_chunk"@ {
            Ok(m)
        } else {
            settled(m)
        }) {
            Ok(m) => match noted(m, kind, b, digests.record) {
                Ok((m, id, payload)) => match applied(m, kind, id, payload, digests) {
                    Ok(m) => Ok((m, id, payload)),
                    Err(e) => Err(e),
                },
                Err(e) => Err(e),
            },
            Err(e) => Err(e),
        }
    }
}

/// After any record.
pub open spec fn consumed(m: VerifierModel, b: Seq<u8>, digests: RecordDigests) -> Result<
    VerifierModel,
    HumanCommitError,
> {
    match type_of(b) {
        Some(kind) => if kind == "manifest_start"@ {
            started(m, b)
        } else if kind == "inventory_page"@ {
            match settled(m) {
                Ok(m) => paged(m, b),
                Err(e) => Err(e),
            }
        } else if kind == "manifest_end"@ {
            match settled(m) {
                Ok(m) => ended(m, b, digests.pages),
                Err(e) => Err(e),
            }
        } else {
            match data_taken(m, kind, b, digests) {
                Ok((m, _, _)) => Ok(m),
                Err(e) => Err(e),
            }
        },
        None => Err(HumanCommitError::InvalidInput),
    }
}

/// A data record: its type, its bytes and the digests taken from it.
pub struct DataRecord {
    pub kind: Seq<char>,
    pub bytes: Seq<u8>,
    pub digests: RecordDigests,
}

/// After data records that follow each other.
pub open spec fn all_taken(m: VerifierModel, records: Seq<DataRecord>) -> Result<
    VerifierModel,
    HumanCommitError,
>
    decreases records.len(),
{
    if records.len() == 0 {
        Ok(m)
    } else {
        match all_taken(m, records.drop_last()) {
            Ok(n) => {
                let last = records.last();
                match data_taken(n, last.kind, last.bytes, last.digests) {
                    Ok((after, _, _)) => Ok(after),
                    Err(e) => Err(e),
                }
            },
            Err(e) => Err(e),
        }
    }
}

/// What was observed stays observed while data records come, and so does what
/// came last.
proof fn lemma_observed_stays(m: VerifierModel, r: DataRecord)
    requires
        data_taken(m, r.kind, r.bytes, r.digests) is Ok,
    ensures
        ({
            let (after, id, _) = data_taken(m, r.kind, r.bytes, r.digests)->Ok_0;
            &&& after.start_seen && after.next_page == 0 && !after.end_seen
            &&& data_type(r.kind)
            &&& data_of(r.bytes, r.kind) is Some
            &&& (data_of(r.bytes, r.kind)->0).0 == id
            &&& after.observed == m.observed.insert(
                entry_key(r.kind, id),
                Observed { hash: r.digests.record, size: r.bytes.len() as u64 },
            )
        }),
{
}

/// Data records that were all accepted were all observed.
proof fn lemma_all_observed(m: VerifierModel, records: Seq<DataRecord>, i: int)
    requires
        all_taken(m, records) is Ok,
        0 <= i < records.len(),
    ensures
        ({
            let after = all_taken(m, records)->Ok_0;
            let r = records[i];
            &&& after.start_seen && after.next_page == 0 && !after.end_seen
            &&& data_type(r.kind)
            &&& data_of(r.bytes, r.kind) is Some
            &&& after.observed.contains_key(entry_key(r.kind, (data_of(r.bytes, r.kind)->0).0))
        }),
    decreases records.len(),
{
    let before = all_taken(m, records.drop_last())->Ok_0;
    lemma_observed_stays(before, records.last());
    if i < records.len() - 1 {
        lemma_all_observed(m, records.drop_last(), i);
        assert(records.drop_last()[i] == records[i]);
    }
}

/// While data records come, one with the type and the identifier of an accepted
/// one is refused, whether its bytes are the same or not.
pub proof fn lemma_no_second_record(
    m: VerifierModel,
    records: Seq<DataRecord>,
    i: int,
    again: DataRecord,
)
    requires
        all_taken(m, records) is Ok,
        0 <= i < records.len(),
        again.kind == records[i].kind,
        data_of(again.bytes, again.kind) is Some,
        (data_of(again.bytes, again.kind)->0).0 == (data_of(
            records[i].bytes,
            records[i].kind,
        )->0).0,
    ensures
        data_taken(
            all_taken(m, records)->Ok_0,
            again.kind,
            again.bytes,
            again.digests,
        ) is Err,
        data_taken(all_taken(m, records)->Ok_0, again.kind, again.bytes, again.digests)->Err_0
            is Integrity,
{
    lemma_all_observed(m, records, i);
}

/// Whether items and revisions refer to each other, have the same kinds, and
/// all files are complete and have the digests that were announced.
pub open spec fn graph_valid(m: VerifierModel) -> bool {
    &&& forall|item: Seq<u8>| #[trigger]
        m.items.contains_key(item) ==> item_valid(m, item)
    &&& forall|revision: Seq<u8>| #[trigger]
        m.revisions.contains_key(revision) ==> revision_valid(m, revision)
    &&& forall|file: Seq<u8>| #[trigger] m.files.contains_key(file) ==> file_valid(m, file)
}

/// Whether the visible revision of an item is one of its own, of its kind.
pub open spec fn item_valid(m: VerifierModel, item: Seq<u8>) -> bool {
    let visible = m.items[item].visible@;
    &&& m.revisions.contains_key(visible)
    &&& m.revisions[visible].item@ == item
    &&& m.revisions[visible].kind == m.items[item].kind
}

/// Whether the item of a revision is there and has its kind.
pub open spec fn revision_valid(m: VerifierModel, revision: Seq<u8>) -> bool {
    let item = m.revisions[revision].item@;
    m.items.contains_key(item) && m.items[item].kind == m.revisions[revision].kind
}

/// Whether a file is complete and has the digest that was announced.
pub open spec fn file_valid(m: VerifierModel, file: Seq<u8>) -> bool {
    let f = m.files[file];
    &&& m.revisions.contains_key(file.take(16))
    &&& f.seen == f.chunks
    &&& f.bytes == f.size
    &&& f.digest == f.sha256
}

/// What a whole backup is verified as.
pub open spec fn finished(m: VerifierModel) -> Result<SummaryModel, HumanCommitError> {
    match settled(m) {
        Ok(m) => if m.input.len() > 0 || !m.end_seen || m.observed != Map::<
            Seq<u8>,
            Observed,
        >::empty() || m.expected != Map::<Seq<u8>, ExpectedFile>::empty()
            || !m.references.subset_of(m.digests) {
            Err(HumanCommitError::InvalidInput)
        } else if graph_valid(m) {
            Ok(summarized(m.state, m.backup_id, m.vault))
        } else {
            Err(HumanCommitError::Integrity)
        },
        Err(e) => Err(e),
    }
}

/// A record of a backup, and the digests taken from it.
pub struct StreamRecord {
    pub bytes: Seq<u8>,
    pub digests: RecordDigests,
}

/// After the records of a backup.
pub open spec fn all_read(m: VerifierModel, records: Seq<StreamRecord>) -> Result<
    VerifierModel,
    HumanCommitError,
>
    decreases records.len(),
{
    if records.len() == 0 {
        Ok(m)
    } else {
        match all_read(m, records.drop_last()) {
            Ok(n) => consumed(n, records.last().bytes, records.last().digests),
            Err(e) => Err(e),
        }
    }
}

/// Where all records of a backup are accepted, so are the first ones.
proof fn lemma_first_read(m: VerifierModel, records: Seq<StreamRecord>, k: int)
    requires
        0 <= k <= records.len(),
        all_read(m, records) is Ok,
        m.end_seen ==> m.start_seen,
    ensures
        all_read(m, records.take(k)) is Ok,
        (all_read(m, records)->Ok_0).end_seen ==> (all_read(m, records)->Ok_0).start_seen,
        k < records.len() ==> consumed(
            all_read(m, records.take(k))->Ok_0,
            records[k].bytes,
            records[k].digests,
        ) is Ok,
    decreases records.len(),
{
    if k == records.len() {
        assert(records.take(k) =~= records);
        if k > 0 {
            lemma_first_read(m, records.drop_last(), k - 1);
        }
    } else {
        lemma_first_read(m, records.drop_last(), k);
        assert(records.drop_last().take(k) =~= records.take(k));
        if k == records.len() - 1 {
            assert(records.take(k) =~= records.drop_last());
        } else {
            assert(records.drop_last()[k] == records[k]);
        }
    }
}

/// A backup that is accepted is complete and ends there: with records or bytes
/// missing at its end it is not accepted, and no record may follow it.
pub proof fn lemma_complete(m: VerifierModel, records: Seq<StreamRecord>, more: StreamRecord)
    requires
        !m.start_seen,
        !m.end_seen,
        all_read(m, records) is Ok,
        finished(all_read(m, records)->Ok_0) is Ok,
    ensures
        forall|k: int|
            0 <= k < records.len() ==> (#[trigger] all_read(m, records.take(k))) is Ok
                && !(all_read(m, records.take(k))->Ok_0).end_seen && finished(
                all_read(m, records.take(k))->Ok_0,
            ) is Err,
        forall|n: VerifierModel| n.input.len() > 0 ==> (#[trigger] finished(n)) is Err,
        all_read(m, records.push(more)) is Err,
{
    assert forall|k: int| 0 <= k < records.len() implies (#[trigger] all_read(
        m,
        records.take(k),
    )) is Ok && !(all_read(m, records.take(k))->Ok_0).end_seen && finished(
        all_read(m, records.take(k))->Ok_0,
    ) is Err by {
        lemma_first_read(m, records, k);
        lemma_first_read(m, records.take(k), k);
        let n = all_read(m, records.take(k))->Ok_0;
        assert(!n.end_seen) by {
            if n.end_seen {
                assert(consumed(n, records[k].bytes, records[k].digests) is Err);
            }
        }
    }
    lemma_first_read(m, records, records.len() as int);
    assert(records.push(more).drop_last() =~= records);
}

/// A value that must be there.
fn need<T>(value: Option<T>) -> (r: Result<T, HumanCommitError>)
    ensures
        match value {
            Some(v) => r == Ok::<T, HumanCommitError>(v),
            None => r is Err && r->Err_0 is InvalidInput,
        },
{
    match value {
        Some(v) => Ok(v),
        None => Err(HumanCommitError::InvalidInput),
    }
}

/// An inventory entry as it is read.
struct PageEntry<'a> {
    kind: &'a str,
    id: [u8; 16],
    hash: [u8; 32],
    size: u64,
}

/// Reads an inventory entry.
fn read_entry<'a>(d: &mut Reader<'a>) -> (r: Option<PageEntry<'a>>)
    ensures
        match page_entry_at(old(d).rest()) {
            Some((e, t)) => r is Some && (r->0).kind@ == e.kind && (r->0).id == e.id && (r->0).hash
                == e.hash && (r->0).size == e.size && final(d).rest() == t,
            None => r is None,
        },
{
    d.map_of(4)?;
    d.key("type")?;
    let kind = d.str()?;
    d.key("id")?;
    let id = take_id(d)?;
    d.key("record_sha256")?;
    let hash = take_digest(d)?;
    d.key("logical_size")?;
    let size: u64 = d.u64()?;
    Some(PageEntry { kind, id, hash, size })
}

/// What must be hashed before a record can be verified.
pub enum Demand {
    /// Nothing but the record.
    Nothing,
    /// The event of an authority record.
    Event(Vec<u8>),
    /// The content of a chunk, as part of the content of its file.
    Content { bytes: Vec<u8>, first: bool, last: bool },
    /// The frames of all inventory pages, which the record ends.
    Pages,
}

/// What a verified record was.
pub enum Consumed {
    Start,
    Page,
    End,
    Data { kind: String, id: [u8; 16], payload: Vec<u8> },
}

/// Whether one of the keys of a table is missing in another.
fn keys_within(a: &Table<()>, b: &Table<()>) -> (r: bool)
    requires
        a.wf(),
        b.wf(),
    ensures
        r == a@.dom().subset_of(b@.dom()),
{
    let mut i: usize = 0;
    while i < a.slots()
        invariant
            a.wf(),
            b.wf(),
            i <= a.spec_slots(),
            forall|j: int|
                0 <= j < i && (#[trigger] a.slot(j)) is Some ==> b@.contains_key(a.slot(j)->0),
        decreases a.spec_slots() - i,
    {
        match a.at(i) {
            Some((key, _)) => if b.get(key).is_none() {
                assert(a@.dom().contains(key@) && !b@.dom().contains(key@));
                return false;
            },
            None => {},
        }
        i += 1;
    }
    proof {
        a.lemma_slots();
        assert forall|k: Seq<u8>| a@.dom().contains(k) implies b@.dom().contains(k) by {
            assert(a@.contains_key(k));
            let j = choose|j: int| 0 <= j < a.spec_slots() && #[trigger] a.slot(j) == Some(k);
            assert(b@.contains_key(a.slot(j)->0));
        }
    }
    true
}

impl RecordVerifier {
    /// Whether the tables of the verifier and its counts are in order and files
    /// stand under their keys.
    pub closed spec fn wf(&self) -> bool {
        &&& forall|file: Seq<u8>| #[trigger] self.files@.contains_key(file) ==> file.len() == 32
        &&& self.observed.wf()
        &&& self.items.wf()
        &&& self.revisions.wf()
        &&& self.expected.wf()
        &&& self.files.wf()
        &&& self.digests.wf()
        &&& self.references.wf()
        &&& consistent(self.state)
    }

    /// A verifier of a backup whose outer header has that digest.
    pub fn new(backup_id: [u8; 16], vault: [u8; 16], outer_hash: [u8; 32]) -> (r: RecordVerifier)
        ensures
            r.wf(),
            r@ == fresh(backup_id, vault, outer_hash),
    {
        let r = RecordVerifier {
            backup_id,
            vault,
            outer_hash,
            input: Vec::new(),
            start_seen: false,
            end_seen: false,
            observed: Table::new(),
            items: Table::new(),
            revisions: Table::new(),
            expected: Table::new(),
            files: Table::new(),
            active: None,
            digests: Table::new(),
            references: Table::new(),
            next_page: 0,
            state: ExportState::new(),
        };
        assert(r@.input =~= Seq::empty());
        assert(r@.digests =~= Set::empty());
        assert(r@.references =~= Set::empty());
        r
    }

    /// Appends the bytes of an opened chunk; behind the last record there are
    /// none.
    pub fn feed(&mut self, bytes: &[u8]) -> (r: Result<(), HumanCommitError>)
        requires
            old(self).wf(),
        ensures
            final(self).wf(),
            if old(self)@.end_seen && bytes@.len() > 0 {
                r is Err && r->Err_0 is InvalidInput && final(self)@ == old(self)@
            } else {
                r is Ok && final(self)@ == (VerifierModel {
                    input: old(self)@.input + bytes@,
                    ..old(self)@
                })
            },
    {
        if self.end_seen && bytes.len() > 0 {
            return Err(HumanCommitError::InvalidInput);
        }
        let ghost before = self.input@;
        self.input.extend_from_slice(bytes);
        assert(self.input@ =~= before + bytes@);
        Ok(())
    }

    /// Takes the next record off the input, once it is complete.
    pub fn next_record(&mut self) -> (r: Result<Option<Vec<u8>>, HumanCommitError>)
        requires
            old(self).wf(),
        ensures
            final(self).wf(),
            match frame_at(old(self)@.input) {
                Ok(Some((record, rest))) => r is Ok && r->Ok_0 is Some && (r->Ok_0->0)@ == record
                    && final(self)@ == (VerifierModel { input: rest, ..old(self)@ }),
                Ok(None) => r is Ok && r->Ok_0 is None && final(self)@ == old(self)@,
                Err(e) => r is Err && r->Err_0 == e && final(self)@ == old(self)@,
            },
    {
        let ghost before = self.input@;
        let n: usize = match frame_length(self.input.as_slice()) {
            Ok(Some(n)) => n,
            Ok(None) => return Ok(None),
            Err(e) => return Err(e),
        };
        let mut rest = self.input.split_off(4 + n);
        let record = self.input.split_off(4);
        self.input.clear();
        self.input.append(&mut rest);
        assert(record@ =~= before.subrange(4, 4 + n as int));
        assert(self.input@ =~= before.skip(4 + n as int));
        Ok(Some(record))
    }

    /// What must be hashed before a record can be verified.
    pub fn demand(&self, record: &[u8]) -> (r: Demand)
        requires
            self.wf(),
        ensures
            ({
                let event = type_of(record@) == Some("authority_history"@) && data_of(
                    record@,
                    "authority_history"@,
                ) is Some && history_of((data_of(record@, "authority_history"@)->0).1) is Some;
                let chunk = type_of(record@) == Some("attachment_chunk"@) && data_of(
                    record@,
                    "attachment_chunk"@,
                ) is Some && chunk_of((data_of(record@, "attachment_chunk"@)->0).1) is Some;
                &&& event ==> r is Event && (r->Event_0)@ == history_of(
                    (data_of(record@, "authority_history"@)->0).1,
                )->0.event
                &&& chunk && !event ==> ({
                    let c = chunk_of((data_of(record@, "attachment_chunk"@)->0).1)->0;
                    let key = pair_key(c.revision, c.attachment);
                    r is Content && r->bytes@ == c.content && r->first == (c.index == 0) && r->last
                        == (self@.files.contains_key(key) && c.index + 1 == self@.files[key].chunks)
                })
                &&& type_of(record@) == Some("manifest_end"@) ==> r is Pages
                &&& !event && !chunk && type_of(record@) != Some("manifest_end"@) ==> r is Nothing
            }),
    {
        let kind = match peek_type(record) {
            Ok(kind) => kind,
            Err(_) => return Demand::Nothing,
        };
        proof {
            reveal_strlit("authority_history");
            reveal_strlit("attachment_chunk");
            reveal_strlit("manifest_end");
            assert("authority_history"@.len() != "attachment_chunk"@.len());
            assert("manifest_end"@.len() != "attachment_chunk"@.len());
            assert("manifest_end"@.len() != "authority_history"@.len());
        }
        if same_str(kind, "manifest_end") {
            return Demand::Pages;
        }
        if same_str(kind, "authority_history") {
            return match decode_data(record, "authority_history") {
                Ok((_, payload)) => match history_event(payload) {
                    Some(event) => Demand::Event(slice_to_vec(event)),
                    None => Demand::Nothing,
                },
                Err(_) => Demand::Nothing,
            };
        }
        if same_str(kind, "attachment_chunk") {
            return match decode_data(record, "attachment_chunk") {
                Ok((_, payload)) => match decode_attachment_chunk(payload) {
                    Ok(c) => {
                        let key = make_pair_key(&c.revision, &c.attachment);
                        let last = match self.files.get(key.as_slice()) {
                            Some(f) => c.index < u64::MAX && c.index + 1 == f.chunks,
                            None => false,
                        };
                        Demand::Content {
                            bytes: slice_to_vec(c.content),
                            first: c.index == 0,
                            last,
                        }
                    },
                    Err(_) => Demand::Nothing,
                },
                Err(_) => Demand::Nothing,
            };
        }
        Demand::Nothing
    }

    /// Ends the file that was described last.
    fn settle(&mut self) -> (r: Result<(), HumanCommitError>)
        requires
            old(self).wf(),
        ensures
            final(self).wf(),
            match settled(old(self)@) {
                Ok(m) => r is Ok && final(self)@ == m,
                Err(e) => r is Err && r->Err_0 == e,
            },
    {
        match self.active {
            Some((revision, attachment)) => {
                let key = make_pair_key(&revision, &attachment);
                let complete = match self.files.get(key.as_slice()) {
                    Some(f) => f.seen == f.chunks,
                    None => false,
                };
                if !complete {
                    return Err(HumanCommitError::Integrity);
                }
                self.active = None;
                Ok(())
            },
            None => Ok(()),
        }
    }

    /// Verifies the first record.
    #[verifier::rlimit(60)]
    fn consume_start(&mut self, record: &[u8]) -> (r: Result<(), HumanCommitError>)
        requires
            old(self).wf(),
        ensures
            final(self).wf(),
            match started(old(self)@, record@) {
                Ok(m) => r is Ok && final(self)@ == m,
                Err(e) => r is Err && r->Err_0 == e,
            },
    {
        if self.start_seen || !self.observed.is_empty() {
            return Err(HumanCommitError::InvalidInput);
        }
        self.check_start(record)?;
        self.start_seen = true;
        Ok(())
    }

    /// Checks the first record.
    #[verifier::rlimit(60)]
    fn check_start(&self, record: &[u8]) -> (r: Result<(), HumanCommitError>)
        requires
            !self@.start_seen,
            self@.observed == Map::<Seq<u8>, Observed>::empty(),
        ensures
            match started(self@, record@) {
                Ok(m) => r is Ok && m == (VerifierModel { start_seen: true, ..self@ }),
                Err(e) => r is Err && r->Err_0 == e,
            },
    {
        let mut reader = Reader::new(record);
        let d = &mut reader;
        need(d.map_of(10))?;
        need(d.key("type"))?;
        need(d.key("manifest_start"))?;
        need(d.key("v"))?;
        let v: u8 = need(d.u8())?;
        if !(v == 1) {
            return Err(HumanCommitError::InvalidInput);
        }
        need(d.key("backup_id"))?;
        let a = need(take_id(d))?;
        if !(same_array(&a, &self.backup_id)) {
            return Err(HumanCommitError::Integrity);
        }
        need(d.key("snapshot_id"))?;
        need(take_id(d))?;
        need(d.key("created_at"))?;
        need(d.i64())?;
        need(d.key("outer_sha256"))?;
        let a = need(take_digest(d))?;
        if !(same_array(&a, &self.outer_hash)) {
            return Err(HumanCommitError::Integrity);
        }
        need(d.key("source_vault"))?;
        let a = need(take_id(d))?;
        if !(same_array(&a, &self.vault)) {
            return Err(HumanCommitError::Integrity);
        }
        need(d.key("content_frontier"))?;
        need(d.bytes())?;
        need(d.key("authority_checkpoint_ref"))?;
        need(d.bytes())?;
        need(d.key("scope"))?;
        need(d.key("full"))?;
        if !d.at_end() {
            return Err(HumanCommitError::InvalidInput);
        }
        Ok(())
    }

    /// Verifies an inventory page.
    #[verifier::rlimit(60)]
    fn consume_page(&mut self, record: &[u8]) -> (r: Result<(), HumanCommitError>)
        requires
            old(self).wf(),
        ensures
            final(self).wf(),
            match paged(old(self)@, record@) {
                Ok(m) => r is Ok && final(self)@ == m,
                Err(e) => r is Err && r->Err_0 == e,
            },
    {
        if !self.start_seen || self.end_seen {
            return Err(HumanCommitError::InvalidInput);
        }
        let ghost m = self@;
        let mut reader = Reader::new(record);
        let d = &mut reader;
        need(d.map_of(3))?;
        need(d.key("type"))?;
        need(d.key("inventory_page"))?;
        need(d.key("index"))?;
        let n: u64 = need(d.u64())?;
        if !(n == self.next_page) {
            return Err(HumanCommitError::Integrity);
        }
        need(d.key("entries"))?;
        let count: u64 = need(d.array())?;
        if !(0 < count && count <= 1024) {
            return Err(HumanCommitError::InvalidInput);
        }
        let ghost start = d.rest();
        assert(paged(m, record@) == match crossed(m.observed, start, count as nat) {
            Ok((observed, b)) => if b.len() == 0 && m.next_page < u64::MAX {
                Ok::<VerifierModel, HumanCommitError>(
                    VerifierModel { observed, next_page: (m.next_page + 1) as u64, ..m },
                )
            } else {
                Err(HumanCommitError::InvalidInput)
            },
            Err(e) => Err(e),
        });
        let ghost whole = crossed(m.observed, start, count as nat);
        let mut i: u64 = 0;
        while i < count
            invariant
                i <= count,
                self.wf(),
                self@ == (VerifierModel { observed: self.observed@, ..m }),
                whole == crossed(self.observed@, d.rest(), (count - i) as nat),
                whole is Err ==> paged(m, record@) == Err::<VerifierModel, HumanCommitError>(
                    whole->Err_0,
                ),
                m == old(self)@,
            decreases count - i,
        {
            let entry = need(read_entry(d))?;
            let key = make_entry_key(entry.kind, &entry.id);
            let listed = match self.observed.remove(key.as_slice()) {
                Some(o) => same_array(&o.hash, &entry.hash) && o.size == entry.size,
                None => false,
            };
            if !listed {
                return Err(HumanCommitError::Integrity);
            }
            i += 1;
        }
        if !d.at_end() || self.next_page == u64::MAX {
            return Err(HumanCommitError::InvalidInput);
        }
        self.next_page = self.next_page + 1;
        Ok(())
    }

    /// Verifies the last record.
    #[verifier::rlimit(60)]
    fn consume_end(&mut self, record: &[u8], pages_digest: &[u8; 32]) -> (r: Result<
        (),
        HumanCommitError,
    >)
        requires
            old(self).wf(),
        ensures
            final(self).wf(),
            match ended(old(self)@, record@, *pages_digest) {
                Ok(m) => r is Ok && final(self)@ == m,
                Err(e) => r is Err && r->Err_0 == e,
            },
    {
        if !self.start_seen || self.end_seen || !self.observed.is_empty() {
            return Err(HumanCommitError::Integrity);
        }
        let ghost m = self@;
        let mut reader = Reader::new(record);
        let d = &mut reader;
        need(d.map_of(6))?;
        need(d.key("type"))?;
        need(d.key("manifest_end"))?;
        need(d.key("record_count"))?;
        let n: u64 = need(d.u64())?;
        if !(n == self.state.records) {
            return Err(HumanCommitError::Integrity);
        }
        need(d.key("attachment_count"))?;
        let n: u64 = need(d.u64())?;
        if !(n == self.state.attachments) {
            return Err(HumanCommitError::Integrity);
        }
        need(d.key("logical_bytes"))?;
        let n: u64 = need(d.u64())?;
        if !(n == self.state.logical_bytes) {
            return Err(HumanCommitError::Integrity);
        }
        need(d.key("inventory_pages_sha256"))?;
        let pages = need(take_digest(d))?;
        need(d.key("attachment_bytes"))?;
        let n: u64 = need(d.u64())?;
        if !(n == self.state.attachment_bytes) {
            return Err(HumanCommitError::Integrity);
        }
        if !d.at_end() || !same_array(&pages, pages_digest) {
            return Err(HumanCommitError::Integrity);
        }
        self.end_seen = true;
        Ok(())
    }

    /// Notes a data record.
    fn note<'a>(&mut self, kind: &str, record: &'a [u8], record_digest: &[u8; 32]) -> (r: Result<
        ([u8; 16], &'a [u8]),
        HumanCommitError,
    >)
        requires
            old(self).wf(),
        ensures
            final(self).wf(),
            match noted(old(self)@, kind@, record@, *record_digest) {
                Ok((m, id, payload)) => r is Ok && final(self)@ == m && (r->Ok_0).0 == id
                    && (r->Ok_0).1@ == payload,
                Err(e) => r is Err && r->Err_0 == e,
            },
    {
        let (id, payload) = decode_data(record, kind)?;
        let key = make_entry_key(kind, &id);
        let observed = Observed { hash: *record_digest, size: record.len() as u64 };
        if !self.observed.enter(key.as_slice(), observed) {
            return Err(HumanCommitError::Integrity);
        }
        self.state.record(kind, record.len())?;
        Ok((id, payload))
    }

    /// Takes an item.
    fn take_item(&mut self, id: &[u8; 16], payload: &[u8]) -> (r: Result<(), HumanCommitError>)
        requires
            old(self).wf(),
        ensures
            final(self).wf(),
            match after_item(old(self)@, *id, payload@) {
                Ok(m) => r is Ok && final(self)@ == m,
                Err(e) => r is Err && r->Err_0 == e,
            },
    {
        let item = decode_item(payload)?;
        if self.items.enter(
            id.as_slice(),
            ItemCheck { visible: item.visible, kind: item.kind },
        ) {
            Ok(())
        } else {
            Err(HumanCommitError::Integrity)
        }
    }

    /// Notes the files that a revision announces.
    fn announce(&mut self, id: &[u8; 16], item: &[u8; 16], files: &[Attachment]) -> (r: Result<
        (),
        HumanCommitError,
    >)
        requires
            old(self).wf(),
        ensures
            final(self).wf(),
            match announced(old(self)@.expected, *id, *item, views(files@), files@.len()) {
                Some(expected) => r is Ok && final(self)@ == (VerifierModel {
                    expected,
                    ..old(self)@
                }),
                None => r is Err && r->Err_0 is Integrity,
            },
    {
        let ghost m = self@;
        let ghost models = views(files@);
        let mut i: usize = 0;
        while i < files.len()
            invariant
                i <= files@.len(),
                self.wf(),
                m == old(self)@,
                models == views(files@),
                announced(m.expected, *id, *item, models, i as nat) == Some(self.expected@),
                self@ == (VerifierModel { expected: self.expected@, ..m }),
            decreases files@.len() - i,
        {
            let f = &files[i];
            assert(f@ == models[i as int]);
            let key = make_pair_key(id, f.id());
            let expected = ExpectedFile { item: *item, size: f.size(), sha256: *f.sha256() };
            if !self.expected.enter(key.as_slice(), expected) {
                proof {
                    lemma_announced_fail(
                        m.expected,
                        *id,
                        *item,
                        models,
                        (i + 1) as nat,
                        models.len(),
                    );
                }
                return Err(HumanCommitError::Integrity);
            }
            i += 1;
        }
        Ok(())
    }

    /// Takes a revision.
    fn take_revision(&mut self, id: &[u8; 16], payload: &[u8]) -> (r: Result<(), HumanCommitError>)
        requires
            old(self).wf(),
        ensures
            final(self).wf(),
            match after_revision(old(self)@, *id, payload@) {
                Ok(m) => r is Ok && final(self)@ == m,
                Err(e) => r is Err && r->Err_0 == e,
            },
    {
        let revision = decode_revision(payload)?;
        let check = RevisionCheck { item: revision.item, kind: revision.record.kind() };
        if !self.revisions.enter(id.as_slice(), check) {
            return Err(HumanCommitError::Integrity);
        }
        self.announce(id, &revision.item, revision.record.attachments())
    }

    /// Takes the description of a file.
    fn take_file(&mut self, payload: &[u8]) -> (r: Result<(), HumanCommitError>)
        requires
            old(self).wf(),
        ensures
            final(self).wf(),
            match after_file(old(self)@, payload@) {
                Ok(m) => r is Ok && final(self)@ == m,
                Err(e) => r is Err && r->Err_0 == e,
            },
    {
        let a = decode_attachment(payload)?;
        let key = make_pair_key(&a.revision, &a.attachment);
        let announced = match self.expected.remove(key.as_slice()) {
            Some(x) => same_array(&x.item, &a.item) && x.size == a.size && same_array(
                &x.sha256,
                &a.sha256,
            ),
            None => false,
        };
        if !announced {
            return Err(HumanCommitError::Integrity);
        }
        let check = FileCheck {
            size: a.size,
            sha256: a.sha256,
            chunks: a.chunks,
            seen: 0,
            bytes: 0,
            digest: a.sha256,
        };
        if !self.files.enter(key.as_slice(), check) {
            return Err(HumanCommitError::Integrity);
        }
        self.active = Some((a.revision, a.attachment));
        match self.state.attachment_bytes.checked_add(a.size) {
            Some(sum) => {
                self.state.attachment_bytes = sum;
                Ok(())
            },
            None => Err(HumanCommitError::InvalidInput),
        }
    }

    /// Takes a chunk.
    fn take_chunk(&mut self, payload: &[u8], content_digest: &[u8; 32]) -> (r: Result<
        (),
        HumanCommitError,
    >)
        requires
            old(self).wf(),
        ensures
            final(self).wf(),
            match after_chunk(old(self)@, payload@, *content_digest) {
                Ok(m) => r is Ok && final(self)@ == m,
                Err(e) => r is Err && r->Err_0 == e,
            },
    {
        let c = decode_attachment_chunk(payload)?;
        let current = match &self.active {
            Some((revision, attachment)) => same_array(revision, &c.revision) && same_array(
                attachment,
                &c.attachment,
            ),
            None => false,
        };
        if !current {
            return Err(HumanCommitError::Integrity);
        }
        let key = make_pair_key(&c.revision, &c.attachment);
        let f = match self.files.get(key.as_slice()) {
            Some(f) => *f,
            None => return Err(HumanCommitError::Integrity),
        };
        if c.index != f.seen || c.content.len() > CHUNK {
            return Err(HumanCommitError::Integrity);
        }
        if f.seen == u64::MAX {
            return Err(HumanCommitError::InvalidInput);
        }
        match f.bytes.checked_add(c.content.len() as u64) {
            Some(bytes) => {
                self.files.put(
                    key.as_slice(),
                    FileCheck { seen: f.seen + 1, bytes, digest: *content_digest, ..f },
                );
                Ok(())
            },
            None => Err(HumanCommitError::InvalidInput),
        }
    }

    /// Takes an authority event.
    fn take_event(&mut self, id: &[u8; 16], payload: &[u8], event_digest: &[u8; 32]) -> (r: Result<
        (),
        HumanCommitError,
    >)
        requires
            old(self).wf(),
        ensures
            final(self).wf(),
            match after_event(old(self)@, *id, payload@, *event_digest) {
                Ok(m) => r is Ok && final(self)@ == m,
                Err(e) => r is Err && r->Err_0 == e,
            },
    {
        let (digest, references) = decode_authority_history(payload, event_digest)?;
        if !starts_with_id(&digest, id) || !self.digests.enter(digest.as_slice(), ()) {
            return Err(HumanCommitError::Integrity);
        }
        assert(self.digests@.dom() =~= old(self)@.digests.insert(digest@));
        let ghost before = self.references@.dom();
        let ghost known = self.digests@.dom();
        let mut i: usize = 0;
        assert(before =~= before.union(digest_set(references@.take(0))));
        while i < references.len()
            invariant
                i <= references@.len(),
                self.wf(),
                before == old(self)@.references,
                self.references@.dom() == before.union(digest_set(references@.take(i as int))),
                self@ == (VerifierModel {
                    digests: known,
                    references: self.references@.dom(),
                    ..old(self)@
                }),
            decreases references@.len() - i,
        {
            let ghost at = self.references@.dom();
            self.references.put(references[i].as_slice(), ());
            proof {
                let v = references@.take(i as int);
                let w = references@.take(i + 1);
                assert(self.references@.dom() =~= at.insert(references@[i as int]@));
                assert forall|s: Seq<u8>| digest_set(w).contains(s) == (digest_set(v).contains(s)
                    || s == references@[i as int]@) by {
                    if digest_set(v).contains(s) {
                        let j = choose|j: int| 0 <= j < v.len() && (#[trigger] v[j])@ == s;
                        assert(w[j]@ == s);
                    }
                    if s == references@[i as int]@ {
                        assert(w[i as int]@ == s);
                    }
                    if digest_set(w).contains(s) {
                        let j = choose|j: int| 0 <= j < w.len() && (#[trigger] w[j])@ == s;
                        if j < i {
                            assert(v[j]@ == s);
                        }
                    }
                }
                assert(self.references@.dom() =~= before.union(digest_set(w)));
            }
            i += 1;
        }
        assert(references@.take(i as int) =~= references@);
        Ok(())
    }

    /// Takes the payload of a data record.
    fn apply(
        &mut self,
        kind: &str,
        id: &[u8; 16],
        payload: &[u8],
        digests: &RecordDigests,
    ) -> (r: Result<(), HumanCommitError>)
        requires
            old(self).wf(),
        ensures
            final(self).wf(),
            match applied(old(self)@, kind@, *id, payload@, *digests) {
                Ok(m) => r is Ok && final(self)@ == m,
                Err(e) => r is Err && r->Err_0 == e,
            },
    {
        if same_str(kind, "item") {
            self.take_item(id, payload)
        } else if same_str(kind, "revision") {
            self.take_revision(id, payload)
        } else if same_str(kind, "attachment") {
            self.take_file(payload)
        } else if same_str(kind, "attachment_chunk") {
            self.take_chunk(payload, &digests.content)
        } else if same_str(kind, "authority_history") {
            self.take_event(id, payload, &digests.event)
        } else {
            Ok(())
        }
    }

    /// Verifies a data record.
    fn consume_data<'a>(&mut self, kind: &str, record: &'a [u8], digests: &RecordDigests) -> (r:
        Result<([u8; 16], &'a [u8]), HumanCommitError>)
        requires
            old(self).wf(),
        ensures
            final(self).wf(),
            match data_taken(old(self)@, kind@, record@, *digests) {
                Ok((m, id, payload)) => r is Ok && final(self)@ == m && (r->Ok_0).0 == id
                    && (r->Ok_0).1@ == payload,
                Err(e) => r is Err && r->Err_0 == e,
            },
    {
        if !self.start_seen || self.next_page != 0 || self.end_seen || !is_data_type(kind) {
            return Err(HumanCommitError::InvalidInput);
        }
        if !same_str(kind, "attachment_chunk") {
            self.settle()?;
        }
        let (id, payload) = self.note(kind, record, &digests.record)?;
        self.apply(kind, &id, payload, digests)?;
        Ok((id, payload))
    }

    /// Verifies the next record.
    pub fn consume(&mut self, record: &[u8], digests: &RecordDigests) -> (r: Result<
        Consumed,
        HumanCommitError,
    >)
        requires
            old(self).wf(),
        ensures
            final(self).wf(),
            match consumed(old(self)@, record@, *digests) {
                Ok(m) => r is Ok && final(self)@ == m && ({
                    let kind = type_of(record@)->0;
                    if kind == "manifest_start"@ {
                        r->Ok_0 is Start
                    } else if kind == "inventory_page"@ {
                        r->Ok_0 is Page
                    } else if kind == "manifest_end"@ {
                        r->Ok_0 is End
                    } else {
                        r->Ok_0 is Data && (r->Ok_0)->kind@ == kind && Some(
                            ((r->Ok_0)->id, (r->Ok_0)->payload@),
                        ) == data_of(record@, kind)
                    }
                }),
                Err(e) => r is Err && r->Err_0 == e,
            },
    {
        let kind = peek_type(record)?;
        if same_str(kind, "manifest_start") {
            self.consume_start(record)?;
            Ok(Consumed::Start)
        } else if same_str(kind, "inventory_page") {
            self.settle()?;
            self.consume_page(record)?;
            Ok(Consumed::Page)
        } else if same_str(kind, "manifest_end") {
            self.settle()?;
            self.consume_end(record, &digests.pages)?;
            Ok(Consumed::End)
        } else {
            let (id, payload) = self.consume_data(kind, record, digests)?;
            Ok(Consumed::Data { kind: kind.to_owned(), id, payload: slice_to_vec(payload) })
        }
    }

    /// Whether every item has its visible revision.
    fn items_valid(&self) -> (r: bool)
        requires
            self.wf(),
        ensures
            r == (forall|item: Seq<u8>| #[trigger]
                self@.items.contains_key(item) ==> item_valid(self@, item)),
    {
        let mut i: usize = 0;
        while i < self.items.slots()
            invariant
                self.wf(),
                i <= self.items.spec_slots(),
                forall|j: int|
                    0 <= j < i && (#[trigger] self.items.slot(j)) is Some ==> item_valid(
                        self@,
                        self.items.slot(j)->0,
                    ),
            decreases self.items.spec_slots() - i,
        {
            match self.items.at(i) {
                Some((item, check)) => {
                    let valid = match self.revisions.get(check.visible.as_slice()) {
                        Some(revision) => same(revision.item.as_slice(), item) && revision.kind
                            == check.kind,
                        None => false,
                    };
                    if !valid {
                        assert(self@.items.contains_key(item@) && !item_valid(self@, item@));
                        return false;
                    }
                },
                None => {},
            }
            i += 1;
        }
        proof {
            self.items.lemma_slots();
            assert forall|item: Seq<u8>| #[trigger] self@.items.contains_key(item)
                implies item_valid(
                self@,
                item,
            ) by {
                let j = choose|j: int|
                    0 <= j < self.items.spec_slots() && #[trigger] self.items.slot(j) == Some(item);
                assert(item_valid(self@, self.items.slot(j)->0));
            }
        }
        true
    }

    /// Whether every revision has its item.
    fn revisions_valid(&self) -> (r: bool)
        requires
            self.wf(),
        ensures
            r == (forall|revision: Seq<u8>| #[trigger]
                self@.revisions.contains_key(revision) ==> revision_valid(self@, revision)),
    {
        let mut i: usize = 0;
        while i < self.revisions.slots()
            invariant
                self.wf(),
                i <= self.revisions.spec_slots(),
                forall|j: int|
                    0 <= j < i && (#[trigger] self.revisions.slot(j)) is Some ==> revision_valid(
                        self@,
                        self.revisions.slot(j)->0,
                    ),
            decreases self.revisions.spec_slots() - i,
        {
            match self.revisions.at(i) {
                Some((revision, check)) => {
                    let valid = match self.items.get(check.item.as_slice()) {
                        Some(item) => item.kind == check.kind,
                        None => false,
                    };
                    if !valid {
                        assert(self@.revisions.contains_key(revision@) && !revision_valid(
                            self@,
                            revision@,
                        ));
                        return false;
                    }
                },
                None => {},
            }
            i += 1;
        }
        proof {
            self.revisions.lemma_slots();
            assert forall|revision: Seq<u8>| #[trigger]
                self@.revisions.contains_key(revision) implies revision_valid(self@, revision) by {
                let j = choose|j: int|
                    0 <= j < self.revisions.spec_slots() && #[trigger] self.revisions.slot(j)
                        == Some(revision);
                assert(revision_valid(self@, self.revisions.slot(j)->0));
            }
        }
        true
    }

    /// Whether every file is complete.
    fn files_valid(&self) -> (r: bool)
        requires
            self.wf(),
        ensures
            r == (forall|file: Seq<u8>| #[trigger]
                self@.files.contains_key(file) ==> file_valid(self@, file)),
    {
        let mut i: usize = 0;
        while i < self.files.slots()
            invariant
                self.wf(),
                i <= self.files.spec_slots(),
                forall|j: int|
                    0 <= j < i && (#[trigger] self.files.slot(j)) is Some ==> file_valid(
                        self@,
                        self.files.slot(j)->0,
                    ),
            decreases self.files.spec_slots() - i,
        {
            match self.files.at(i) {
                Some((file, check)) => {
                    assert(self@.files.contains_key(file@));
                    let revision = vstd::slice::slice_subrange(file, 0, 16);
                    assert(revision@ =~= file@.take(16));
                    let valid = self.revisions.get(revision).is_some() && check.seen
                        == check.chunks && check.bytes == check.size && same_array(
                        &check.digest,
                        &check.sha256,
                    );
                    if !valid {
                        assert(!file_valid(self@, file@));
                        return false;
                    }
                },
                None => {},
            }
            i += 1;
        }
        proof {
            self.files.lemma_slots();
            assert forall|file: Seq<u8>| #[trigger] self@.files.contains_key(file)
                implies file_valid(
                self@,
                file,
            ) by {
                let j = choose|j: int|
                    0 <= j < self.files.spec_slots() && #[trigger] self.files.slot(j) == Some(file);
                assert(file_valid(self@, self.files.slot(j)->0));
            }
        }
        true
    }

    /// Ends the verification.
    pub fn finish(self) -> (r: Result<BackupSummary, HumanCommitError>)
        requires
            self.wf(),
        ensures
            match finished(self@) {
                Ok(s) => r is Ok && (r->Ok_0)@ == s,
                Err(e) => r is Err && r->Err_0 == e,
            },
    {
        let mut v = self;
        v.settle()?;
        if v.input.len() > 0 || !v.end_seen || !v.observed.is_empty() || !v.expected.is_empty()
            || !keys_within(&v.references, &v.digests) {
            return Err(HumanCommitError::InvalidInput);
        }
        if v.items_valid() && v.revisions_valid() && v.files_valid() {
            Ok(v.state.summary(v.backup_id, v.vault))
        } else {
            Err(HumanCommitError::Integrity)
        }
    }
}

/// A file that was announced twice leaves a revision out.
proof fn lemma_announced_fail(
    expected: Map<Seq<u8>, ExpectedFile>,
    revision: [u8; 16],
    item: [u8; 16],
    files: Seq<AttachmentModel>,
    i: nat,
    n: nat,
)
    requires
        i <= n,
        announced(expected, revision, item, files, i) is None,
    ensures
        announced(expected, revision, item, files, n) is None,
    decreases n,
{
    if i < n {
        lemma_announced_fail(expected, revision, item, files, i, (n - 1) as nat);
    }
}

/// Whether a digest starts with an identifier.
fn starts_with_id(digest: &[u8; 32], id: &[u8; 16]) -> (r: bool)
    ensures
        r == (id@ == digest@.take(16)),
{
    let front = vstd::slice::slice_subrange(digest.as_slice(), 0, 16);
    assert(front@ =~= digest@.take(16));
    same(id.as_slice(), front)
}

/// A backup passes only at its end: nothing is left unread, each record that was
/// read is listed in the inventory, each announced file came, each event that is
/// referred to is there, each item shows a revision of its own and of its kind,
/// each revision is of an item of its kind, and each file has all its pieces, all
/// its bytes and its hash. What it gives is the counts of what was read.
pub proof fn lemma_passes(m: VerifierModel)
    requires
        finished(m) is Ok,
    ensures
        m.input.len() == 0,
        m.end_seen,
        forall|key: Seq<u8>| !#[trigger] m.observed.contains_key(key),
        forall|key: Seq<u8>| !#[trigger] m.expected.contains_key(key),
        forall|d: Seq<u8>| #[trigger] m.references.contains(d) ==> m.digests.contains(d),
        forall|item: Seq<u8>| #[trigger]
            m.items.contains_key(item) ==> {
                let visible = m.items[item].visible@;
                &&& m.revisions.contains_key(visible)
                &&& m.revisions[visible].item@ == item
                &&& m.revisions[visible].kind == m.items[item].kind
            },
        forall|revision: Seq<u8>| #[trigger]
            m.revisions.contains_key(revision) ==> m.items.contains_key(
                m.revisions[revision].item@,
            ) && m.items[m.revisions[revision].item@].kind == m.revisions[revision].kind,
        forall|file: Seq<u8>| #[trigger]
            m.files.contains_key(file) ==> {
                &&& m.revisions.contains_key(file.take(16))
                &&& m.files[file].seen == m.files[file].chunks
                &&& m.files[file].bytes == m.files[file].size
                &&& m.files[file].digest == m.files[file].sha256
            },
        ({
            let r = finished(m)->Ok_0;
            &&& r.backup_id == m.backup_id
            &&& r.source_vault == m.vault
            &&& r.items == m.state.items
            &&& r.revisions == m.state.revisions
            &&& r.attachments == m.state.attachments
            &&& r.attachment_bytes == m.state.attachment_bytes
            &&& r.records == m.state.records
            &&& r.logical_bytes == m.state.logical_bytes
        }),
{
    let n = settled(m)->Ok_0;
    assert(n.items == m.items && n.revisions == m.revisions && n.files == m.files);
    assert(n.references == m.references && n.digests == m.digests);
    assert(forall|item: Seq<u8>| #[trigger] m.items.contains_key(item) ==> item_valid(n, item));
    assert(forall|r: Seq<u8>| #[trigger] m.revisions.contains_key(r) ==> revision_valid(n, r));
    assert(forall|f: Seq<u8>| #[trigger] m.files.contains_key(f) ==> file_valid(n, f));
}

/// A file must be whole before anything but its own pieces follows.
pub proof fn lemma_settled(m: VerifierModel, revision: [u8; 16], attachment: [u8; 16])
    ensures
        m.active is None ==> settled(m) == Ok::<_, HumanCommitError>(m),
        m.active == Some((revision, attachment)) && m.files.contains_key(
            revision@ + attachment@,
        ) && m.files[revision@ + attachment@].seen == m.files[revision@ + attachment@].chunks
            ==> settled(m) == Ok::<_, HumanCommitError>(VerifierModel { active: None, ..m }),
        m.active == Some((revision, attachment)) && !(m.files.contains_key(
            revision@ + attachment@,
        ) && m.files[revision@ + attachment@].seen == m.files[revision@ + attachment@].chunks)
            ==> settled(m) == Err::<VerifierModel, _>(HumanCommitError::Integrity),
{
}

/// An item is noted under its identifier with what it shows and its kind, once;
/// nothing else changes.
pub proof fn lemma_item_noted(m: VerifierModel, id: [u8; 16], payload: Seq<u8>, i: BackupItem)
    requires
        item_of(payload) == Some(i),
    ensures
        m.items.contains_key(id@) ==> after_item(m, id, payload) == Err::<VerifierModel, _>(
            HumanCommitError::Integrity,
        ),
        !m.items.contains_key(id@) ==> after_item(m, id, payload) == Ok::<_, HumanCommitError>(
            VerifierModel {
                items: m.items.insert(id@, ItemCheck { visible: i.visible, kind: i.kind }),
                ..m
            },
        ),
{
}

/// What a revision announces are its own files and no others.
proof fn lemma_announced(
    expected: Map<Seq<u8>, ExpectedFile>,
    revision: [u8; 16],
    item: [u8; 16],
    files: Seq<AttachmentModel>,
    n: nat,
)
    requires
        n <= files.len(),
        announced(expected, revision, item, files, n) is Some,
    ensures
        ({
            let after = announced(expected, revision, item, files, n)->0;
            &&& forall|i: int|
                0 <= i < n ==> after.contains_key(revision@ + (#[trigger] files[i]).id@)
                    && after[revision@ + files[i].id@] == (ExpectedFile {
                    item,
                    size: files[i].size,
                    sha256: files[i].sha256,
                })
            &&& forall|key: Seq<u8>| #[trigger]
                after.contains_key(key) ==> expected.contains_key(key) || exists|i: int|
                    0 <= i < n && key == revision@ + (#[trigger] files[i]).id@
            &&& forall|key: Seq<u8>| #[trigger]
                expected.contains_key(key) ==> after.contains_key(key) && after[key]
                    == expected[key]
        }),
    decreases n,
{
    if n > 0 {
        lemma_announced(expected, revision, item, files, (n - 1) as nat);
        let before = announced(expected, revision, item, files, (n - 1) as nat)->0;
        let after = announced(expected, revision, item, files, n)->0;
        let key = revision@ + files[n - 1].id@;
        assert(!before.contains_key(key));
        assert forall|k: Seq<u8>| #[trigger] after.contains_key(k) implies expected.contains_key(k)
            || exists|i: int| 0 <= i < n && k == revision@ + (#[trigger] files[i]).id@ by {
            if k == key {
                assert(k == revision@ + files[n - 1].id@);
            } else {
                assert(before.contains_key(k));
            }
        }
        assert forall|i: int| 0 <= i < n implies after.contains_key(
            revision@ + (#[trigger] files[i]).id@,
        ) && after[revision@ + files[i].id@] == (ExpectedFile {
            item,
            size: files[i].size,
            sha256: files[i].sha256,
        }) by {
            if i < n - 1 {
                assert(before.contains_key(revision@ + files[i].id@));
            }
        }
    }
}

/// A revision is noted under its identifier with its item and its kind, once, and
/// announces each of its files, of its item, with its length and its hash; nothing
/// else changes.
pub proof fn lemma_revision_noted(
    m: VerifierModel,
    id: [u8; 16],
    payload: Seq<u8>,
    v: BackupRevisionModel,
)
    requires
        revision_of(payload) == Some(v),
    ensures
        m.revisions.contains_key(id@) ==> after_revision(m, id, payload) == Err::<
            VerifierModel,
            _,
        >(HumanCommitError::Integrity),
        after_revision(m, id, payload) matches Ok(n) ==> {
            &&& !m.revisions.contains_key(id@)
            &&& n == VerifierModel { revisions: n.revisions, expected: n.expected, ..m }
            &&& n.revisions == m.revisions.insert(
                id@,
                RevisionCheck { item: v.item, kind: v.record.kind },
            )
            &&& forall|i: int|
                0 <= i < v.record.attachments.len() ==> n.expected.contains_key(
                    id@ + (#[trigger] v.record.attachments[i]).id@,
                ) && n.expected[id@ + v.record.attachments[i].id@] == (ExpectedFile {
                    item: v.item,
                    size: v.record.attachments[i].size,
                    sha256: v.record.attachments[i].sha256,
                })
            &&& forall|key: Seq<u8>| #[trigger]
                n.expected.contains_key(key) ==> m.expected.contains_key(key) || exists|i: int|
                    0 <= i < v.record.attachments.len() && key == id@ + (
                    #[trigger] v.record.attachments[i]).id@
        },
{
    if after_revision(m, id, payload) is Ok {
        lemma_announced(
            m.expected,
            id,
            v.item,
            v.record.attachments,
            v.record.attachments.len(),
        );
    }
}

/// A file is taken only where its revision announced it, of the same item, with
/// the same length and hash, and only once; then its pieces are awaited, none of
/// them seen yet, and its bytes are counted.
pub proof fn lemma_file_noted(m: VerifierModel, payload: Seq<u8>, a: BackupAttachment)
    requires
        attachment_of(payload) == Some(a),
    ensures
        ({
            let key = a.revision@ + a.attachment@;
            let announced = m.expected.contains_key(key) && m.expected[key].item == a.item
                && m.expected[key].size == a.size && m.expected[key].sha256 == a.sha256;
            let r = after_file(m, payload);
            &&& !announced || m.files.contains_key(key) ==> r == Err::<VerifierModel, _>(
                HumanCommitError::Integrity,
            )
            &&& announced && !m.files.contains_key(key) && m.state.attachment_bytes + a.size
                <= u64::MAX ==> r is Ok
            &&& r matches Ok(n) ==> {
                &&& n.expected == m.expected.remove(key)
                &&& n.files.contains_key(key)
                &&& n.files[key].size == a.size
                &&& n.files[key].sha256 == a.sha256
                &&& n.files[key].chunks == a.chunks
                &&& n.files[key].seen == 0
                &&& n.files[key].bytes == 0
                &&& n.active == Some((a.revision, a.attachment))
                &&& n.state == (ExportState {
                    attachment_bytes: (m.state.attachment_bytes + a.size) as u64,
                    ..m.state
                })
                &&& n.items == m.items && n.revisions == m.revisions && n.observed == m.observed
                &&& n.digests == m.digests && n.references == m.references
            }
        }),
{
}

/// A piece is taken only where its file is the one that is awaited, at its turn,
/// and with no more than one mebibyte; then the file has one piece more, its
/// bytes, and the hash of what has come.
pub proof fn lemma_piece_noted(
    m: VerifierModel,
    payload: Seq<u8>,
    content_digest: [u8; 32],
    c: ChunkModel,
)
    requires
        chunk_of(payload) == Some(c),
    ensures
        ({
            let key = c.revision@ + c.attachment@;
            let r = after_chunk(m, payload, content_digest);
            &&& m.active != Some((c.revision, c.attachment)) || !m.files.contains_key(key) ==> r
                == Err::<VerifierModel, _>(HumanCommitError::Integrity)
            &&& m.active == Some((c.revision, c.attachment)) && m.files.contains_key(key) && (
            c.index != m.files[key].seen || c.content.len() > 1024 * 1024) ==> r == Err::<
                VerifierModel,
                _,
            >(HumanCommitError::Integrity)
            &&& m.active == Some((c.revision, c.attachment)) && m.files.contains_key(key)
                && c.index == m.files[key].seen && c.content.len() <= 1024 * 1024
                && m.files[key].seen < u64::MAX && m.files[key].bytes + c.content.len() <= u64::MAX
                ==> r is Ok
            &&& r matches Ok(n) ==> {
                let f = m.files[key];
                &&& n.files == m.files.insert(
                    key,
                    FileCheck {
                        size: f.size,
                        sha256: f.sha256,
                        chunks: f.chunks,
                        seen: (f.seen + 1) as u64,
                        bytes: (f.bytes + c.content.len()) as u64,
                        digest: content_digest,
                    },
                )
                &&& n == VerifierModel { files: n.files, ..m }
            }
        }),
{
}

/// An event is noted under the first half of its digest, once, with all that it
/// refers to.
pub proof fn lemma_event_noted(
    m: VerifierModel,
    id: [u8; 16],
    payload: Seq<u8>,
    digest: [u8; 32],
    references: Set<Seq<u8>>,
    event_digest: [u8; 32],
)
    requires
        history_read(payload, event_digest) == Ok::<_, HumanCommitError>((digest, references)),
    ensures
        ({
            let r = after_event(m, id, payload, event_digest);
            &&& id@ != digest@.take(16) || m.digests.contains(digest@) ==> r == Err::<
                VerifierModel,
                _,
            >(HumanCommitError::Integrity)
            &&& id@ == digest@.take(16) && !m.digests.contains(digest@) ==> r is Ok
            &&& r matches Ok(n) ==> {
                &&& forall|d: Seq<u8>| #[trigger]
                    n.digests.contains(d) <==> m.digests.contains(d) || d == digest@
                &&& forall|d: Seq<u8>| #[trigger]
                    n.references.contains(d) <==> m.references.contains(d) || references.contains(
                        d,
                    )
                &&& n == VerifierModel { digests: n.digests, references: n.references, ..m }
            }
        }),
{
}

/// A record is observed under its kind and identifier, once, with its hash and
/// its length, and counted.
pub proof fn lemma_record_noted(
    m: VerifierModel,
    kind: Seq<char>,
    b: Seq<u8>,
    record_digest: [u8; 32],
    id: [u8; 16],
    payload: Seq<u8>,
)
    requires
        data_of(b, kind) == Some((id, payload)),
    ensures
        ({
            let key = id@ + encode_utf8(kind);
            let r = noted(m, kind, b, record_digest);
            &&& m.observed.contains_key(key) ==> r == Err::<(VerifierModel, [u8; 16], Seq<u8>), _>(
                HumanCommitError::Integrity,
            )
            &&& r matches Ok((n, i, p)) ==> {
                &&& i == id
                &&& p == payload
                &&& n.observed == m.observed.insert(
                    key,
                    Observed { hash: record_digest, size: b.len() as u64 },
                )
                &&& counted(m.state, kind, b.len() as int) == Some(n.state)
                &&& n == VerifierModel { observed: n.observed, state: n.state, ..m }
            }
            &&& !m.observed.contains_key(key) && counted(m.state, kind, b.len() as int) is Some
                ==> r is Ok
        }),
{
}

/// Data comes after the start and before the inventory, and only of the known
/// kinds.
pub proof fn lemma_data_when(
    m: VerifierModel,
    kind: Seq<char>,
    b: Seq<u8>,
    digests: RecordDigests,
)
    ensures
        data_taken(m, kind, b, digests) is Ok ==> m.start_seen && m.next_page == 0 && !m.end_seen
            && data_type(kind),
        !(m.start_seen && m.next_page == 0 && !m.end_seen && data_type(kind)) ==> data_taken(
            m,
            kind,
            b,
            digests,
        ) == Err::<(VerifierModel, [u8; 16], Seq<u8>), _>(HumanCommitError::InvalidInput),
{
}

/// What a record of each kind does beyond being noted.
pub proof fn lemma_applied(
    m: VerifierModel,
    id: [u8; 16],
    payload: Seq<u8>,
    digests: RecordDigests,
    kind: Seq<char>,
)
    ensures
        applied(m, "item"@, id, payload, digests) == after_item(m, id, payload),
        applied(m, "revision"@, id, payload, digests) == after_revision(m, id, payload),
        applied(m, "attachment"@, id, payload, digests) == after_file(m, payload),
        applied(m, "attachment_chunk"@, id, payload, digests) == after_chunk(
            m,
            payload,
            digests.content,
        ),
        applied(m, "authority_history"@, id, payload, digests) == after_event(
            m,
            id,
            payload,
            digests.event,
        ),
        kind != "item"@ && kind != "revision"@ && kind != "attachment"@ && kind
            != "attachment_chunk"@ && kind != "authority_history"@ ==> applied(
            m,
            kind,
            id,
            payload,
            digests,
        ) == Ok::<_, HumanCommitError>(m),
{
    reveal_strlit("item");
    reveal_strlit("revision");
    reveal_strlit("attachment");
    reveal_strlit("attachment_chunk");
    reveal_strlit("authority_history");
    assert("item"@.len() == 4);
    assert("revision"@.len() == 8);
    assert("attachment"@.len() == 10);
    assert("attachment_chunk"@.len() == 16);
    assert("authority_history"@.len() == 17);
}

/// What a page lists must have been read, with the same hash and length, and is
/// then accounted for; nothing else is.
proof fn lemma_crossed(observed: Map<Seq<u8>, Observed>, v: Seq<EntryModel>, t: Seq<u8>)
    requires
        entries_tail(v, t).len() <= u64::MAX,
    ensures
        crossed(observed, entries_tail(v, t), v.len()) matches Ok((left, rest)) ==> {
            &&& rest == t
            &&& forall|i: int|
                0 <= i < v.len() ==> observed.contains_key(
                    (#[trigger] v[i]).id@ + encode_utf8(v[i].kind),
                ) && observed[v[i].id@ + encode_utf8(v[i].kind)].hash == v[i].hash
                    && observed[v[i].id@ + encode_utf8(v[i].kind)].size == v[i].size
            &&& forall|key: Seq<u8>| #[trigger]
                left.contains_key(key) <==> observed.contains_key(key) && forall|i: int|
                    0 <= i < v.len() ==> key != (#[trigger] v[i]).id@ + encode_utf8(v[i].kind)
        },
    decreases v.len(),
{
    if v.len() > 0 {
        let rest = v.skip(1);
        let u = entries_tail(rest, t);
        assert(entries_tail(v, t) == entry_then(v[0], u));
        lemma_entry_at(v[0], u);
        let key = v[0].id@ + encode_utf8(v[0].kind);
        let r = crossed(observed, entries_tail(v, t), v.len());
        if r is Ok {
            let next = observed.remove(key);
            lemma_crossed(next, rest, t);
            let left = (r->Ok_0).0;
            assert forall|i: int| 0 <= i < v.len() implies observed.contains_key(
                (#[trigger] v[i]).id@ + encode_utf8(v[i].kind),
            ) && observed[v[i].id@ + encode_utf8(v[i].kind)].hash == v[i].hash
                && observed[v[i].id@ + encode_utf8(v[i].kind)].size == v[i].size by {
                if i > 0 {
                    assert(rest[i - 1] == v[i]);
                    assert(next.contains_key(v[i].id@ + encode_utf8(v[i].kind)));
                }
            }
            assert forall|k: Seq<u8>| #[trigger] left.contains_key(k) <==> observed.contains_key(k)
                && forall|i: int|
                0 <= i < v.len() ==> k != (#[trigger] v[i]).id@ + encode_utf8(v[i].kind) by {
                if left.contains_key(k) {
                    assert(next.contains_key(k));
                    assert forall|i: int| 0 <= i < v.len() implies k != (#[trigger] v[i]).id@
                        + encode_utf8(v[i].kind) by {
                        if i > 0 {
                            assert(rest[i - 1] == v[i]);
                        }
                    }
                }
                if observed.contains_key(k) && (forall|i: int|
                    0 <= i < v.len() ==> k != (#[trigger] v[i]).id@ + encode_utf8(v[i].kind)) {
                    assert(k != v[0].id@ + encode_utf8(v[0].kind));
                    assert(next.contains_key(k));
                    assert forall|i: int| 0 <= i < rest.len() implies k != (#[trigger] rest[i]).id@
                        + encode_utf8(rest[i].kind) by {
                        assert(rest[i] == v[i + 1]);
                    }
                }
            }
        }
    }
}

/// An entry is read as it was written.
proof fn lemma_entry_at(m: EntryModel, t: Seq<u8>)
    requires
        entry_then(m, t).len() <= u64::MAX,
    ensures
        page_entry_at(entry_then(m, t)) == Some((m, t)),
        t.len() <= entry_then(m, t).len(),
{
    let t7 = uint_item(m.size) + t;
    let t6 = text_item("logical_size"@) + t7;
    let t5 = bytes_item(m.hash@) + t6;
    let t4 = text_item("record_sha256"@) + t5;
    let t3 = bytes_item(m.id@) + t4;
    let t2 = text_item("id"@) + t3;
    let t1 = text_item(m.kind) + t2;
    let t0 = text_item("type"@) + t1;
    assert(entry_then(m, t) == map_head(4) + t0);
    lemma_map(4, t0);
    lemma_text_within("type"@, t1);
    lemma_text_within(m.kind, t2);
    lemma_text_within("id"@, t3);
    lemma_bytes_within(m.id@, t4);
    lemma_array_of::<16>(m.id);
    lemma_text_within("record_sha256"@, t5);
    lemma_bytes_within(m.hash@, t6);
    lemma_array_of::<32>(m.hash);
    lemma_text_within("logical_size"@, t7);
    lemma_uint(m.size, t);
}

/// A page of the inventory is taken at its turn, with up to 1024 entries, and
/// only where each was read with that hash and length; these, and no others, are
/// then accounted for.
pub proof fn lemma_page_taken(m: VerifierModel, index: u64, v: Seq<EntryModel>)
    requires
        page_bytes(index, v).len() <= u64::MAX,
        v.len() <= u64::MAX,
    ensures
        paged(m, page_bytes(index, v)) matches Ok(n) ==> {
            &&& m.start_seen
            &&& !m.end_seen
            &&& index == m.next_page
            &&& n.next_page == index + 1
            &&& 0 < v.len() <= 1024
            &&& forall|i: int|
                0 <= i < v.len() ==> m.observed.contains_key(
                    (#[trigger] v[i]).id@ + encode_utf8(v[i].kind),
                ) && m.observed[v[i].id@ + encode_utf8(v[i].kind)].hash == v[i].hash
                    && m.observed[v[i].id@ + encode_utf8(v[i].kind)].size == v[i].size
            &&& forall|key: Seq<u8>| #[trigger]
                n.observed.contains_key(key) <==> m.observed.contains_key(key) && forall|i: int|
                    0 <= i < v.len() ==> key != (#[trigger] v[i]).id@ + encode_utf8(v[i].kind)
            &&& n == VerifierModel { observed: n.observed, next_page: n.next_page, ..m }
        },
{
    let t = Seq::<u8>::empty();
    let u = entries_tail(v, t);
    let t5 = array_head(v.len() as u64) + u;
    let t4 = text_item("entries"@) + t5;
    let t3 = uint_item(index) + t4;
    let t2 = text_item("index"@) + t3;
    let t1 = text_item("inventory_page"@) + t2;
    let t0 = text_item("type"@) + t1;
    assert(page_bytes(index, v) == map_head(3) + t0);
    lemma_map(3, t0);
    lemma_text_within("type"@, t1);
    lemma_text_within("inventory_page"@, t2);
    lemma_text_within("index"@, t3);
    lemma_uint(index, t4);
    lemma_text_within("entries"@, t5);
    lemma_array(v.len() as u64, u);
    lemma_crossed(m.observed, v, t);
}

/// The end is taken once, after the start and when all that was read is
/// accounted for, and only where it counts the records, the files and the bytes
/// that were read, under the hash of the pages.
pub proof fn lemma_end_taken(
    m: VerifierModel,
    records: u64,
    attachments: u64,
    logical_bytes: u64,
    pages: [u8; 32],
    attachment_bytes: u64,
    pages_digest: [u8; 32],
)
    requires
        end_bytes(records, attachments, logical_bytes, pages, attachment_bytes).len() <= u64::MAX,
    ensures
        ({
            let b = end_bytes(records, attachments, logical_bytes, pages, attachment_bytes);
            let r = ended(m, b, pages_digest);
            &&& r is Ok <==> {
                &&& m.start_seen
                &&& !m.end_seen
                &&& m.observed == Map::<Seq<u8>, Observed>::empty()
                &&& records == m.state.records
                &&& attachments == m.state.attachments
                &&& logical_bytes == m.state.logical_bytes
                &&& attachment_bytes == m.state.attachment_bytes
                &&& pages == pages_digest
            }
            &&& r matches Ok(n) ==> n == VerifierModel { end_seen: true, ..m }
            &&& r is Err ==> r == Err::<VerifierModel, _>(HumanCommitError::Integrity)
        }),
{
    let t = Seq::<u8>::empty();
    let t10 = uint_item(attachment_bytes) + t;
    let t9 = text_item("attachment_bytes"@) + t10;
    let t8 = bytes_item(pages@) + t9;
    let t7 = text_item("inventory_pages_sha256"@) + t8;
    let t6 = uint_item(logical_bytes) + t7;
    let t5 = text_item("logical_bytes"@) + t6;
    let t4 = uint_item(attachments) + t5;
    let t3 = text_item("attachment_count"@) + t4;
    let t2 = uint_item(records) + t3;
    let t1 = text_item("record_count"@) + t2;
    let t0 = text_item("manifest_end"@) + t1;
    let tt = text_item("type"@) + t0;
    assert(end_bytes(records, attachments, logical_bytes, pages, attachment_bytes) == map_head(6)
        + tt);
    lemma_map(6, tt);
    lemma_text_within("type"@, t0);
    lemma_text_within("manifest_end"@, t1);
    lemma_text_within("record_count"@, t2);
    lemma_uint(records, t3);
    lemma_text_within("attachment_count"@, t4);
    lemma_uint(attachments, t5);
    lemma_text_within("logical_bytes"@, t6);
    lemma_uint(logical_bytes, t7);
    lemma_text_within("inventory_pages_sha256"@, t8);
    lemma_bytes_within(pages@, t9);
    lemma_array_of::<32>(pages);
    lemma_text_within("attachment_bytes"@, t10);
    lemma_uint(attachment_bytes, t);
}

} // verus!

//! Restoring a backup: how its records are staged under fresh identifiers.
use crate::backup_format::{
    attachment_of, chunk_of, data_type, decode_attachment, decode_attachment_chunk, decode_item,
    decode_revision, item_of, revision_of, BackupRevision, BackupRevisionModel, ChunkModel,
};
use crate::backup_history::{audit_key_fields, audit_key_of};
use crate::backup_verify::{make_pair_key, pair_key};
use crate::bytes::same_str;
use crate::cbor::lemma_array16;
use crate::content::{ids_distinct, remapped, RecordKind, RecordModel};
use crate::errors::HumanCommitError;
use crate::export::{in_strict_order, lemma_strict_order, sort_by_id, IdRow};
use crate::history::ItemLifecycle;
use crate::ordered::same_array;
use crate::table::Table;
use crate::views::views;
use vstd::prelude::*;
use vstd::slice::slice_to_vec;

verus! {

/// What an item becomes: its fresh identifier, the revision that was visible,
/// and what that revision became.
#[derive(Clone, Copy)]
pub struct RestoreItem {
    pub target: [u8; 16],
    pub visible_source: [u8; 16],
    pub visible_target: Option<[u8; 16]>,
}

/// What a file becomes: the fresh identifiers of its revision and of itself.
#[derive(Clone, Copy)]
pub struct RestoreTarget {
    pub revision: [u8; 16],
    pub attachment: [u8; 16],
}

/// The file whose chunks are being staged.
#[derive(Clone, Copy)]
pub struct ActiveFile {
    pub revision: [u8; 16],
    pub attachment: [u8; 16],
    pub chunks: u64,
    pub seen: u64,
}

/// What has been staged of a backup.
pub struct CollectorModel {
    pub items: Map<Seq<u8>, RestoreItem>,
    pub files: Map<Seq<u8>, RestoreTarget>,
    pub active: Option<ActiveFile>,
}

/// Stages the records of a backup one after the other.
pub struct RestoreCollector {
    items: Table<RestoreItem>,
    files: Table<RestoreTarget>,
    active: Option<ActiveFile>,
}

impl View for RestoreCollector {
    type V = CollectorModel;

    closed spec fn view(&self) -> CollectorModel {
        CollectorModel { items: self.items@, files: self.files@, active: self.active }
    }
}

/// After a file: all its chunks must have been staged.
pub open spec fn settled(m: CollectorModel) -> Option<CollectorModel> {
    match m.active {
        Some(a) => if a.seen == a.chunks {
            Some(CollectorModel { active: None, ..m })
        } else {
            None
        },
        None => Some(m),
    }
}

/// An item as it is staged.
pub struct StagedItem {
    pub target: [u8; 16],
    pub visible: [u8; 16],
    pub kind: RecordKind,
    pub status: ItemLifecycle,
}

/// After an item.
pub open spec fn with_item(
    m: CollectorModel,
    id: [u8; 16],
    payload: Seq<u8>,
    target: [u8; 16],
) -> Result<(CollectorModel, StagedItem), HumanCommitError> {
    match settled(m) {
        Some(m) => match item_of(payload) {
            Some(i) => if m.items.contains_key(id@) {
                Err(HumanCommitError::Integrity)
            } else {
                Ok(
                    (
                        CollectorModel {
                            items: m.items.insert(
                                id@,
                                RestoreItem {
                                    target,
                                    visible_source: i.visible,
                                    visible_target: None,
                                },
                            ),
                            ..m
                        },
                        StagedItem { target, visible: i.visible, kind: i.kind, status: i.status },
                    ),
                )
            },
            None => Err(HumanCommitError::InvalidInput),
        },
        None => Err(HumanCommitError::Integrity),
    }
}

/// The files of a revision with their fresh identifiers, the first `n` of them.
pub open spec fn with_files(
    files: Map<Seq<u8>, RestoreTarget>,
    source: [u8; 16],
    revision: [u8; 16],
    ids: Seq<[u8; 16]>,
    targets: Seq<[u8; 16]>,
    n: nat,
) -> Map<Seq<u8>, RestoreTarget>
    decreases n,
{
    if n == 0 {
        files
    } else {
        with_files(files, source, revision, ids, targets, (n - 1) as nat).insert(
            pair_key(source, ids[n - 1]),
            RestoreTarget { revision, attachment: targets[n - 1] },
        )
    }
}

/// The identifiers of the files of a record.
pub open spec fn file_ids(m: RecordModel) -> Seq<[u8; 16]> {
    Seq::new(m.attachments.len(), |i: int| m.attachments[i].id)
}

/// A revision as it is staged.
pub struct StagedRevision {
    pub target_item: [u8; 16],
    pub visible: bool,
    pub revision: BackupRevision,
}

/// After a revision whose item was staged.
pub open spec fn with_revision(
    m: CollectorModel,
    id: [u8; 16],
    v: BackupRevisionModel,
    target: [u8; 16],
    targets: Seq<[u8; 16]>,
) -> CollectorModel {
    let item = m.items[v.item@];
    CollectorModel {
        items: if id == item.visible_source {
            m.items.insert(v.item@, RestoreItem { visible_target: Some(target), ..item })
        } else {
            m.items
        },
        files: with_files(m.files, id, target, file_ids(v.record), targets, targets.len()),
        ..m
    }
}

/// A file as it is staged.
#[derive(Clone, Copy)]
pub struct StagedFile {
    pub source_revision: [u8; 16],
    pub source_attachment: [u8; 16],
    pub target_revision: [u8; 16],
    pub target_attachment: [u8; 16],
    pub chunks: u64,
}

/// After the description of a file that its revision announced.
pub open spec fn with_file(m: CollectorModel, payload: Seq<u8>) -> Result<
    (CollectorModel, StagedFile),
    HumanCommitError,
> {
    match settled(m) {
        Some(m) => match attachment_of(payload) {
            Some(a) => {
                let key = pair_key(a.revision, a.attachment);
                if m.files.contains_key(key) {
                    Ok(
                        (
                            CollectorModel {
                                active: Some(
                                    ActiveFile {
                                        revision: a.revision,
                                        attachment: a.attachment,
                                        chunks: a.chunks,
                                        seen: 0,
                                    },
                                ),
                                ..m
                            },
                            StagedFile {
                                source_revision: a.revision,
                                source_attachment: a.attachment,
                                target_revision: m.files[key].revision,
                                target_attachment: m.files[key].attachment,
                                chunks: a.chunks,
                            },
                        ),
                    )
                } else {
                    Err(HumanCommitError::Integrity)
                }
            },
            None => Err(HumanCommitError::InvalidInput),
        },
        None => Err(HumanCommitError::Integrity),
    }
}

/// A chunk as it is staged, and whether it is the last of its file.
pub struct StagedChunk {
    pub source_revision: [u8; 16],
    pub source_attachment: [u8; 16],
    pub index: i64,
    pub content: Vec<u8>,
    pub last: bool,
}

/// After the next chunk of the file that was described last.
pub open spec fn with_chunk(m: CollectorModel, payload: Seq<u8>) -> Result<
    CollectorModel,
    HumanCommitError,
> {
    match chunk_of(payload) {
        Some(c) => match m.active {
            Some(a) => if a.revision == c.revision && a.attachment == c.attachment && a.seen
                == c.index {
                if c.index >= i64::MAX {
                    Err(HumanCommitError::InvalidInput)
                } else {
                    Ok(
                        CollectorModel {
                            active: Some(ActiveFile { seen: (a.seen + 1) as u64, ..a }),
                            ..m
                        },
                    )
                }
            } else {
                Err(HumanCommitError::Integrity)
            },
            None => Err(HumanCommitError::Integrity),
        },
        None => Err(HumanCommitError::InvalidInput),
    }
}

/// Whether records of a type are kept as history.
pub open spec fn history_type(kind: Seq<char>) -> bool {
    kind == "organization"@ || kind == "settings"@ || kind == "authority_history"@ || kind
        == "identity_metadata"@ || kind == "partial_history"@
}

/// Whether the visible revision of every item was staged.
pub open spec fn all_visible(m: CollectorModel) -> bool {
    forall|item: Seq<u8>| #[trigger]
        m.items.contains_key(item) ==> m.items[item].visible_target is Some
}

/// A revision that was read, and what is staged then: its item must have been
/// staged before.
pub open spec fn opened(m: CollectorModel, payload: Seq<u8>) -> Result<
    (CollectorModel, BackupRevisionModel),
    HumanCommitError,
> {
    match settled(m) {
        Some(after) => match revision_of(payload) {
            Some(v) => if after.items.contains_key(v.item@) {
                Ok((after, v))
            } else {
                Err(HumanCommitError::Integrity)
            },
            None => Err(HumanCommitError::InvalidInput),
        },
        None => Err(HumanCommitError::Integrity),
    }
}

/// A record of a backup as it is staged.
pub enum StagedRecord {
    Item(StagedItem),
    /// A revision under its fresh identifier.
    Revision([u8; 16], StagedRevision),
    File(StagedFile),
    Chunk(StagedChunk),
    /// The device and the generation of an audit key, and its envelope, which is
    /// sealed anew.
    Audit([u8; 16], u64, Vec<u8>),
    /// A record that is kept as it is.
    History,
}

/// The contents of a [`StagedRecord`].
pub enum StagedModel {
    Item(StagedItem),
    Revision {
        target: [u8; 16],
        target_item: [u8; 16],
        visible: bool,
        revision: BackupRevisionModel,
    },
    File(StagedFile),
    Chunk { chunk: ChunkModel, last: bool },
    Audit { device: [u8; 16], generation: u64, envelope: Seq<u8> },
    History,
}

impl View for StagedRecord {
    type V = StagedModel;

    open spec fn view(&self) -> StagedModel {
        match *self {
            StagedRecord::Item(item) => StagedModel::Item(item),
            StagedRecord::Revision(target, staged) => StagedModel::Revision {
                target,
                target_item: staged.target_item,
                visible: staged.visible,
                revision: staged.revision@,
            },
            StagedRecord::File(file) => StagedModel::File(file),
            StagedRecord::Chunk(c) => StagedModel::Chunk {
                chunk: ChunkModel {
                    revision: c.source_revision,
                    attachment: c.source_attachment,
                    index: c.index as u64,
                    content: c.content@,
                },
                last: c.last,
            },
            StagedRecord::Audit(device, generation, envelope) => StagedModel::Audit {
                device,
                generation,
                envelope: envelope@,
            },
            StagedRecord::History => StagedModel::History,
        }
    }
}

/// How many files a record brings, each of which needs a fresh identifier.
pub open spec fn files_of(kind: Seq<char>, payload: Seq<u8>) -> nat {
    if kind == "revision"@ && revision_of(payload) is Some {
        (revision_of(payload)->0).record.attachments.len()
    } else {
        0
    }
}

/// A revision as it is staged, with what is staged then. Each of its files is
/// given an identifier.
pub open spec fn revision_staged(
    m: CollectorModel,
    id: [u8; 16],
    payload: Seq<u8>,
    target: [u8; 16],
    targets: Seq<[u8; 16]>,
) -> Result<(CollectorModel, StagedModel), HumanCommitError> {
    match opened(m, payload) {
        Ok((m, v)) => if targets.len() != v.record.attachments.len() {
            Err(HumanCommitError::InvalidInput)
        } else {
            let item = m.items[v.item@];
            let revision = BackupRevisionModel {
                record: RecordModel {
                    attachments: remapped(v.record.attachments, targets),
                    ..v.record
                },
                ..v
            };
            let visible = id == item.visible_source;
            Ok(
                (
                    with_revision(m, id, v, target, targets),
                    StagedModel::Revision { target, target_item: item.target, visible, revision },
                ),
            )
        },
        Err(e) => Err(e),
    }
}

/// A record of a backup as it is staged under a fresh identifier, and its files
/// under others, with what is staged then.
pub open spec fn staged(
    m: CollectorModel,
    kind: Seq<char>,
    id: [u8; 16],
    payload: Seq<u8>,
    target: [u8; 16],
    targets: Seq<[u8; 16]>,
) -> Result<(CollectorModel, StagedModel), HumanCommitError> {
    if kind == "item"@ {
        match with_item(m, id, payload, target) {
            Ok((m, item)) => Ok((m, StagedModel::Item(item))),
            Err(e) => Err(e),
        }
    } else if kind == "revision"@ {
        revision_staged(m, id, payload, target, targets)
    } else if kind == "attachment"@ {
        match with_file(m, payload) {
            Ok((m, file)) => Ok((m, StagedModel::File(file))),
            Err(e) => Err(e),
        }
    } else if kind == "attachment_chunk"@ {
        match with_chunk(m, payload) {
            Ok(after) => {
                let chunk = chunk_of(payload)->0;
                let last = chunk.index + 1 == (m.active->0).chunks;
                Ok((after, StagedModel::Chunk { chunk, last }))
            },
            Err(e) => Err(e),
        }
    } else if kind == "audit_bundle"@ {
        match settled(m) {
            Some(m) => match audit_key_of(payload) {
                Some((device, generation, envelope)) => Ok(
                    (m, StagedModel::Audit { device, generation, envelope }),
                ),
                None => Err(HumanCommitError::InvalidInput),
            },
            None => Err(HumanCommitError::Integrity),
        }
    } else if !history_type(kind) {
        Err(HumanCommitError::InvalidInput)
    } else {
        match settled(m) {
            Some(m) => Ok((m, StagedModel::History)),
            None => Err(HumanCommitError::Integrity),
        }
    }
}

/// Whether rows are the items staged, each once, in the order of their old
/// identifiers, with the fresh ones.
pub open spec fn lists_items(
    rows: Seq<IdRow<[u8; 16]>>,
    items: Map<Seq<u8>, RestoreItem>,
) -> bool {
    &&& in_strict_order(rows)
    &&& forall|i: int|
        0 <= i < rows.len() ==> items.contains_key((#[trigger] rows[i]).id@)
            && items[rows[i].id@].target == rows[i].value
    &&& forall|item: Seq<u8>| #[trigger]
        items.contains_key(item) ==> exists|i: int|
            0 <= i < rows.len() && (#[trigger] rows[i]).id@ == item
}

impl RestoreCollector {
    /// Whether the tables are in order.
    pub closed spec fn wf(&self) -> bool {
        &&& self.items.wf()
        &&& self.files.wf()
        &&& forall|item: Seq<u8>| #[trigger] self.items@.contains_key(item) ==> item.len() == 16
    }

    /// Nothing yet.
    pub fn new() -> (r: RestoreCollector)
        ensures
            r.wf(),
            r@ == (CollectorModel { items: Map::empty(), files: Map::empty(), active: None }),
    {
        RestoreCollector { items: Table::new(), files: Table::new(), active: None }
    }

    /// Ends the file that was described last.
    fn settle(&mut self) -> (r: Result<(), HumanCommitError>)
        requires
            old(self).wf(),
        ensures
            final(self).wf(),
            match settled(old(self)@) {
                Some(m) => r is Ok && final(self)@ == m,
                None => r is Err && r->Err_0 is Integrity && final(self)@ == old(self)@,
            },
    {
        match self.active {
            Some(a) => if a.seen != a.chunks {
                return Err(HumanCommitError::Integrity);
            },
            None => {},
        }
        self.active = None;
        Ok(())
    }

    /// Stages an item under a fresh identifier.
    pub fn take_item(&mut self, id: &[u8; 16], payload: &[u8], target: [u8; 16]) -> (r: Result<
        StagedItem,
        HumanCommitError,
    >)
        requires
            old(self).wf(),
        ensures
            final(self).wf(),
            match with_item(old(self)@, *id, payload@, target) {
                Ok((m, i)) => r is Ok && r->Ok_0 == i && final(self)@ == m,
                Err(e) => r is Err && r->Err_0 == e,
            },
    {
        self.settle()?;
        let item = decode_item(payload)?;
        let entry = RestoreItem {
            target,
            visible_source: item.visible,
            visible_target: None,
        };
        if !self.items.enter(id.as_slice(), entry) {
            return Err(HumanCommitError::Integrity);
        }
        Ok(StagedItem { target, visible: item.visible, kind: item.kind, status: item.status })
    }

    /// Reads a revision whose item was staged; its files need fresh identifiers.
    pub fn open_revision(&mut self, payload: &[u8]) -> (r: Result<BackupRevision, HumanCommitError>)
        requires
            old(self).wf(),
        ensures
            final(self).wf(),
            match opened(old(self)@, payload@) {
                Ok((m, v)) => r is Ok && (r->Ok_0)@ == v && final(self)@ == m,
                Err(e) => r is Err && r->Err_0 == e && final(self)@.items == old(self)@.items
                    && final(self)@.files == old(self)@.files,
            },
    {
        self.settle()?;
        let revision = decode_revision(payload)?;
        if self.items.get(revision.item.as_slice()).is_none() {
            return Err(HumanCommitError::Integrity);
        }
        Ok(revision)
    }

    /// Stages a revision under fresh identifiers, one for it and one for each of
    /// its files.
    pub fn take_revision(
        &mut self,
        id: &[u8; 16],
        revision: BackupRevision,
        target: [u8; 16],
        targets: &Vec<[u8; 16]>,
    ) -> (r: Result<StagedRevision, HumanCommitError>)
        requires
            old(self).wf(),
        ensures
            final(self).wf(),
            if !old(self)@.items.contains_key(revision.item@) {
                r is Err && r->Err_0 is Integrity
            } else if targets@.len() != revision@.record.attachments.len() {
                r is Err && r->Err_0 is InvalidInput
            } else {
                let item = old(self)@.items[revision.item@];
                &&& r is Ok
                &&& (r->Ok_0).target_item == item.target
                &&& (r->Ok_0).visible == (*id == item.visible_source)
                &&& (r->Ok_0).revision@ == (BackupRevisionModel {
                    record: RecordModel {
                        attachments: remapped(revision@.record.attachments, targets@),
                        ..revision@.record
                    },
                    ..revision@
                })
                &&& final(self)@ == with_revision(
                    old(self)@,
                    *id,
                    revision@,
                    target,
                    targets@,
                )
            },
    {
        let item = match self.items.get(revision.item.as_slice()) {
            Some(item) => *item,
            None => return Err(HumanCommitError::Integrity),
        };
        let ghost ids = file_ids(revision@.record);
        let ghost models = revision@.record.attachments;
        let count: usize = revision.record.attachments().len();
        if targets.len() != count {
            return Err(HumanCommitError::InvalidInput);
        }
        let ghost before = self@;
        let mut i: usize = 0;
        while i < count
            invariant
                i <= count,
                count == targets@.len(),
                count == models.len(),
                models == revision@.record.attachments,
                ids == file_ids(revision@.record),
                self.wf(),
                before == old(self)@,
                self@ == (CollectorModel {
                    files: with_files(before.files, *id, target, ids, targets@, i as nat),
                    ..before
                }),
            decreases count - i,
        {
            let files = revision.record.attachments();
            let file = &files[i];
            assert(file@ == views(files@)[i as int]);
            let key = make_pair_key(id, file.id());
            self.files.put(
                key.as_slice(),
                RestoreTarget { revision: target, attachment: targets[i] },
            );
            i += 1;
        }
        let visible = same_array(id, &item.visible_source);
        if visible {
            self.items.put(
                revision.item.as_slice(),
                RestoreItem { visible_target: Some(target), ..item },
            );
        }
        let BackupRevision { item: source_item, issuer, modified, record } = revision;
        let mut record = record;
        record.remap_attachment_ids(targets)?;
        Ok(
            StagedRevision {
                target_item: item.target,
                visible,
                revision: BackupRevision { item: source_item, issuer, modified, record },
            },
        )
    }

    /// Begins to stage a file.
    pub fn take_file(&mut self, payload: &[u8]) -> (r: Result<StagedFile, HumanCommitError>)
        requires
            old(self).wf(),
        ensures
            final(self).wf(),
            match with_file(old(self)@, payload@) {
                Ok((m, f)) => r is Ok && r->Ok_0 == f && final(self)@ == m,
                Err(e) => r is Err && r->Err_0 == e,
            },
    {
        self.settle()?;
        let a = decode_attachment(payload)?;
        let key = make_pair_key(&a.revision, &a.attachment);
        let target = match self.files.get(key.as_slice()) {
            Some(target) => *target,
            None => return Err(HumanCommitError::Integrity),
        };
        self.active = Some(
            ActiveFile {
                revision: a.revision,
                attachment: a.attachment,
                chunks: a.chunks,
                seen: 0,
            },
        );
        Ok(
            StagedFile {
                source_revision: a.revision,
                source_attachment: a.attachment,
                target_revision: target.revision,
                target_attachment: target.attachment,
                chunks: a.chunks,
            },
        )
    }

    /// Stages the next chunk.
    pub fn take_chunk(&mut self, payload: &[u8]) -> (r: Result<StagedChunk, HumanCommitError>)
        requires
            old(self).wf(),
        ensures
            final(self).wf(),
            match with_chunk(old(self)@, payload@) {
                Ok(m) => r is Ok && final(self)@ == m && ({
                    let c = chunk_of(payload@)->0;
                    &&& (r->Ok_0).source_revision == c.revision
                    &&& (r->Ok_0).source_attachment == c.attachment
                    &&& (r->Ok_0).index == c.index
                    &&& (r->Ok_0).content@ == c.content
                    &&& (r->Ok_0).last == (c.index + 1 == (old(self)@.active->0).chunks)
                }),
                Err(e) => r is Err && r->Err_0 == e,
            },
    {
        let c = decode_attachment_chunk(payload)?;
        let a = match self.active {
            Some(a) => a,
            None => return Err(HumanCommitError::Integrity),
        };
        if !same_array(&a.revision, &c.revision) || !same_array(&a.attachment, &c.attachment)
            || a.seen != c.index {
            return Err(HumanCommitError::Integrity);
        }
        if c.index >= 0x7fff_ffff_ffff_ffff {
            return Err(HumanCommitError::InvalidInput);
        }
        self.active = Some(ActiveFile { seen: a.seen + 1, ..a });
        Ok(
            StagedChunk {
                source_revision: c.revision,
                source_attachment: c.attachment,
                index: c.index as i64,
                content: slice_to_vec(c.content),
                last: c.index + 1 == a.chunks,
            },
        )
    }

    /// Takes a record that is kept as history.
    pub fn take_history(&mut self, kind: &str) -> (r: Result<(), HumanCommitError>)
        requires
            old(self).wf(),
        ensures
            final(self).wf(),
            if !history_type(kind@) {
                r is Err && r->Err_0 is InvalidInput && final(self)@ == old(self)@
            } else {
                match settled(old(self)@) {
                    Some(m) => r is Ok && final(self)@ == m,
                    None => r is Err && r->Err_0 is Integrity,
                }
            },
    {
        if same_str(kind, "organization") || same_str(kind, "settings") || same_str(
            kind,
            "authority_history",
        ) || same_str(kind, "identity_metadata") || same_str(kind, "partial_history") {
            self.settle()
        } else {
            Err(HumanCommitError::InvalidInput)
        }
    }

    /// Takes an audit bundle: the device, the generation and the envelope of its
    /// key, which is sealed anew.
    pub fn take_audit<'a>(&mut self, payload: &'a [u8]) -> (r: Result<
        ([u8; 16], u64, &'a [u8]),
        HumanCommitError,
    >)
        requires
            old(self).wf(),
        ensures
            final(self).wf(),
            match settled(old(self)@) {
                Some(m) => match audit_key_of(payload@) {
                    Some(k) => r is Ok && (r->Ok_0).0 == k.0 && (r->Ok_0).1 == k.1 && (r->Ok_0).2@
                        == k.2 && final(self)@ == m,
                    None => r is Err && r->Err_0 is InvalidInput,
                },
                None => r is Err && r->Err_0 is Integrity,
            },
    {
        self.settle()?;
        audit_key_fields(payload)
    }

    /// How many files a record brings, each of which needs a fresh identifier.
    pub fn needed(kind: &str, payload: &[u8]) -> (r: usize)
        ensures
            r == files_of(kind@, payload@),
    {
        if same_str(kind, "revision") {
            match decode_revision(payload) {
                Ok(revision) => {
                    let files = revision.record.attachments();
                    assert(files@.len() == revision@.record.attachments.len());
                    files.len()
                },
                Err(_) => 0,
            }
        } else {
            0
        }
    }

    /// Stages a record of a backup under a fresh identifier, and its files under
    /// others.
    pub fn data(
        &mut self,
        kind: &str,
        id: &[u8; 16],
        payload: &[u8],
        target: [u8; 16],
        targets: &Vec<[u8; 16]>,
    ) -> (r: Result<StagedRecord, HumanCommitError>)
        requires
            old(self).wf(),
        ensures
            final(self).wf(),
            match staged(old(self)@, kind@, *id, payload@, target, targets@) {
                Ok((m, s)) => r is Ok && (r->Ok_0)@ == s && final(self)@ == m,
                Err(e) => r is Err && r->Err_0 == e,
            },
    {
        if same_str(kind, "item") {
            match self.take_item(id, payload, target) {
                Ok(item) => Ok(StagedRecord::Item(item)),
                Err(e) => Err(e),
            }
        } else if same_str(kind, "revision") {
            let revision = match self.open_revision(payload) {
                Ok(revision) => revision,
                Err(e) => return Err(e),
            };
            match self.take_revision(id, revision, target, targets) {
                Ok(revision) => Ok(StagedRecord::Revision(target, revision)),
                Err(e) => Err(e),
            }
        } else if same_str(kind, "attachment") {
            match self.take_file(payload) {
                Ok(file) => Ok(StagedRecord::File(file)),
                Err(e) => Err(e),
            }
        } else if same_str(kind, "attachment_chunk") {
            match self.take_chunk(payload) {
                Ok(chunk) => Ok(StagedRecord::Chunk(chunk)),
                Err(e) => Err(e),
            }
        } else if same_str(kind, "audit_bundle") {
            match self.take_audit(payload) {
                Ok((device, generation, envelope)) => Ok(
                    StagedRecord::Audit(device, generation, slice_to_vec(envelope)),
                ),
                Err(e) => Err(e),
            }
        } else {
            match self.take_history(kind) {
                Ok(()) => Ok(StagedRecord::History),
                Err(e) => Err(e),
            }
        }
    }

    /// Ends the staging: the visible revision of every item must be there.
    pub fn finish(&mut self) -> (r: Result<(), HumanCommitError>)
        requires
            old(self).wf(),
        ensures
            final(self).wf(),
            match settled(old(self)@) {
                Some(m) => if all_visible(m) {
                    r is Ok && final(self)@ == m
                } else {
                    r is Err && r->Err_0 is Integrity
                },
                None => r is Err && r->Err_0 is Integrity,
            },
    {
        self.settle()?;
        let mut i: usize = 0;
        while i < self.items.slots()
            invariant
                self.wf(),
                settled(old(self)@) == Some(self@),
                i <= self.items.spec_slots(),
                forall|j: int|
                    0 <= j < i && (#[trigger] self.items.slot(j)) is Some
                        ==> self.items@[self.items.slot(j)->0].visible_target is Some,
            decreases self.items.spec_slots() - i,
        {
            match self.items.at(i) {
                Some((key, item)) => if item.visible_target.is_none() {
                    assert(self@.items.contains_key(key@));
                    return Err(HumanCommitError::Integrity);
                },
                None => {},
            }
            i += 1;
        }
        proof {
            self.items.lemma_slots();
            assert forall|item: Seq<u8>| #[trigger]
                self@.items.contains_key(item) implies self@.items[item].visible_target is Some by {
                let j = choose|j: int|
                    0 <= j < self.items.spec_slots() && #[trigger] self.items.slot(j) == Some(item);
                assert(self.items@[self.items.slot(j)->0].visible_target is Some);
            }
        }
        Ok(())
    }

    /// The fresh identifiers of the items, in the order of the old ones.
    pub fn item_ids(&self) -> (r: Vec<[u8; 16]>)
        requires
            self.wf(),
        ensures
            exists|rows: Seq<IdRow<[u8; 16]>>| #[trigger]
                lists_items(rows, self@.items) && r@ == Seq::new(
                    rows.len(),
                    |i: int| rows[i].value,
                ),
    {
        let mut rows: Vec<IdRow<[u8; 16]>> = Vec::new();
        let mut i: usize = 0;
        let ghost mut places: Seq<int> = Seq::empty();
        let ghost mut found: Seq<int> = Seq::empty();
        while i < self.items.slots()
            invariant
                self.wf(),
                i <= self.items.spec_slots(),
                places.len() == rows@.len(),
                found.len() == i,
                forall|k: int|
                    0 <= k < rows@.len() ==> self@.items.contains_key((#[trigger] rows@[k]).id@)
                        && self@.items[rows@[k].id@].target == rows@[k].value,
                forall|k: int|
                    0 <= k < places.len() ==> 0 <= #[trigger] places[k] < i && self.items.slot(
                        places[k],
                    ) == Some(rows@[k].id@),
                forall|a: int, b: int| 0 <= a < b < places.len() ==> places[a] < places[b],
                forall|j: int|
                    0 <= j < i && self.items.slot(j) is Some ==> 0 <= #[trigger] found[j]
                        < rows@.len() && rows@[found[j]].id@ == self.items.slot(j)->0,
            decreases self.items.spec_slots() - i,
        {
            let ghost mut at: int = 0;
            match self.items.at(i) {
                Some((key, item)) => {
                    assert(self@.items.contains_key(key@));
                    match crate::bytes::fixed16(key) {
                        Some(id) => {
                            proof {
                                at = rows@.len() as int;
                                places = places.push(i as int);
                            }
                            rows.push(IdRow { id, value: item.target });
                            assert(id@ == key@);
                        },
                        None => {},
                    }
                },
                None => {},
            }
            proof {
                found = found.push(at);
            }
            i += 1;
        }
        proof {
            self.items.lemma_slots();
            assert forall|a: int, b: int|
                #![trigger rows@[a], rows@[b]]
                0 <= a < b < rows@.len() implies rows@[a].id@ != rows@[b].id@ by {
                assert(places[a] < places[b]);
                assert(self.items.slot(places[a]) != self.items.slot(places[b]));
            }
        }
        let ghost loose = rows@;
        let sorted = sort_by_id(rows);
        proof {
            lemma_strict_order(loose, sorted@);
            assert forall|k: int| 0 <= k < sorted@.len() implies self@.items.contains_key(
                (#[trigger] sorted@[k]).id@,
            ) && self@.items[sorted@[k].id@].target == sorted@[k].value by {
                vstd::seq_lib::to_multiset_contains(sorted@, sorted@[k]);
                vstd::seq_lib::to_multiset_contains(loose, sorted@[k]);
                assert(sorted@.contains(sorted@[k]));
                assert(loose.contains(sorted@[k]));
            }
            assert forall|item: Seq<u8>| #[trigger]
                self@.items.contains_key(item) implies exists|k: int|
                0 <= k < sorted@.len() && (#[trigger] sorted@[k]).id@ == item by {
                self.items.lemma_slots();
                let j = choose|j: int|
                    0 <= j < self.items.spec_slots() && #[trigger] self.items.slot(j) == Some(
                        item,
                    );
                let b = found[j];
                assert(loose[b].id@ == item);
                vstd::seq_lib::to_multiset_contains(sorted@, loose[b]);
                vstd::seq_lib::to_multiset_contains(loose, loose[b]);
                assert(loose.contains(loose[b]));
                let c = choose|c: int| 0 <= c < sorted@.len() && sorted@[c] == loose[b];
                assert(sorted@[c].id@ == item);
            }
            assert(lists_items(sorted@, self@.items));
        }
        let mut out: Vec<[u8; 16]> = Vec::new();
        let mut k: usize = 0;
        while k < sorted.len()
            invariant
                k <= sorted@.len(),
                out@ == Seq::new(k as nat, |i: int| sorted@[i].value),
            decreases sorted@.len() - k,
        {
            out.push(sorted[k].value);
            assert(out@ =~= Seq::new((k + 1) as nat, |i: int| sorted@[i].value));
            k += 1;
        }
        out
    }
}

/// A revision of an item that was never staged is refused, whatever the
/// revision holds.
pub proof fn lemma_unknown_item(
    m: CollectorModel,
    id: [u8; 16],
    payload: Seq<u8>,
    target: [u8; 16],
    targets: Seq<[u8; 16]>,
)
    requires
        revision_of(payload) is Some,
        !m.items.contains_key((revision_of(payload)->0).item@),
    ensures
        staged(m, "revision"@, id, payload, target, targets) == Err::<
            (CollectorModel, StagedModel),
            HumanCommitError,
        >(HumanCommitError::Integrity),
{
    reveal_strlit("item");
    reveal_strlit("revision");
    assert("item"@.len() != "revision"@.len());
}

/// The types of records that a restore tells apart are different.
proof fn lemma_types()
    ensures
        "item"@ != "revision"@,
        "item"@ != "attachment"@,
        "item"@ != "attachment_chunk"@,
        "item"@ != "audit_bundle"@,
        "revision"@ != "attachment"@,
        "revision"@ != "attachment_chunk"@,
        "revision"@ != "audit_bundle"@,
        "attachment"@ != "attachment_chunk"@,
        "attachment"@ != "audit_bundle"@,
        "attachment_chunk"@ != "audit_bundle"@,
{
    reveal_strlit("item");
    reveal_strlit("revision");
    reveal_strlit("attachment");
    reveal_strlit("attachment_chunk");
    reveal_strlit("audit_bundle");
    assert("item"@.len() == 4);
    assert("revision"@.len() == 8);
    assert("attachment"@.len() == 10);
    assert("attachment_chunk"@.len() == 16);
    assert("audit_bundle"@.len() == 12);
}

/// The file at each place of a revision has the fresh identifier at that place.
proof fn lemma_file_target(
    files: Map<Seq<u8>, RestoreTarget>,
    source: [u8; 16],
    revision: [u8; 16],
    ids: Seq<[u8; 16]>,
    targets: Seq<[u8; 16]>,
    n: nat,
    j: int,
)
    requires
        0 <= j < n <= ids.len(),
        forall|a: int, b: int|
            0 <= a < b < ids.len() ==> #[trigger] ids[a] != #[trigger] ids[b],
    ensures
        with_files(files, source, revision, ids, targets, n).contains_key(
            pair_key(source, ids[j]),
        ),
        with_files(files, source, revision, ids, targets, n)[pair_key(source, ids[j])] == (
        RestoreTarget { revision, attachment: targets[j] }),
    decreases n,
{
    if j < n - 1 {
        lemma_file_target(files, source, revision, ids, targets, (n - 1) as nat, j);
        assert(ids[j] != ids[n - 1]);
        lemma_pairs_differ(source, ids[j], source, ids[n - 1]);
    }
}

/// The files of other revisions keep their identifiers.
proof fn lemma_other_files(
    files: Map<Seq<u8>, RestoreTarget>,
    source: [u8; 16],
    revision: [u8; 16],
    ids: Seq<[u8; 16]>,
    targets: Seq<[u8; 16]>,
    n: nat,
    other: [u8; 16],
    file: [u8; 16],
)
    requires
        other != source,
    ensures
        with_files(files, source, revision, ids, targets, n).contains_key(pair_key(other, file))
            == files.contains_key(pair_key(other, file)),
        files.contains_key(pair_key(other, file)) ==> with_files(
            files,
            source,
            revision,
            ids,
            targets,
            n,
        )[pair_key(other, file)] == files[pair_key(other, file)],
    decreases n,
{
    if n > 0 {
        lemma_other_files(files, source, revision, ids, targets, (n - 1) as nat, other, file);
        lemma_pairs_differ(other, file, source, ids[n - 1]);
    }
}

/// Different files have different keys.
proof fn lemma_pairs_differ(a: [u8; 16], b: [u8; 16], c: [u8; 16], d: [u8; 16])
    requires
        a != c || b != d,
    ensures
        pair_key(a, b) != pair_key(c, d),
{
    assert(pair_key(a, b).take(16) =~= a@);
    assert(pair_key(c, d).take(16) =~= c@);
    assert(pair_key(a, b).skip(16) =~= b@);
    assert(pair_key(c, d).skip(16) =~= d@);
    if pair_key(a, b) == pair_key(c, d) {
        lemma_array16(a, c);
        lemma_array16(b, d);
    }
}

/// The content of each file is staged under the fresh identifier that the
/// restored record gives that file: the one drawn for its place. Its name, its
/// size and its digest stay, and so does all else of the record. `j` is the
/// place of a file in its revision, and `p` the record that describes it.
pub proof fn lemma_restored_file(
    m: CollectorModel,
    id: [u8; 16],
    payload: Seq<u8>,
    target: [u8; 16],
    targets: Seq<[u8; 16]>,
    j: int,
    p: Seq<u8>,
)
    requires
        staged(m, "revision"@, id, payload, target, targets) is Ok,
        revision_of(payload) is Some,
        ids_distinct((revision_of(payload)->0).record.attachments),
        0 <= j < (revision_of(payload)->0).record.attachments.len(),
        attachment_of(p) is Some,
        (attachment_of(p)->0).revision == id,
        (attachment_of(p)->0).attachment == (revision_of(payload)->0).record.attachments[j].id,
    ensures
        ({
            let v = revision_of(payload)->0;
            let (after, s) = staged(m, "revision"@, id, payload, target, targets)->Ok_0;
            let restored = s->revision.record.attachments[j];
            let before = v.record.attachments[j];
            let file = staged(after, "attachment"@, id, p, target, targets);
            &&& s is Revision
            &&& s->Revision_target == target
            &&& s->revision.item == v.item
            &&& s->revision.issuer == v.issuer
            &&& s->revision.modified == v.modified
            &&& s->revision.record.kind == v.record.kind
            &&& s->revision.record.human == v.record.human
            &&& s->revision.record.auth == v.record.auth
            &&& s->revision.record.attachments.len() == v.record.attachments.len()
            &&& targets.len() == v.record.attachments.len()
            &&& restored.id == targets[j]
            &&& restored.name == before.name
            &&& restored.mime == before.mime
            &&& restored.size == before.size
            &&& restored.sha256 == before.sha256
            &&& restored.content == before.content
            &&& file is Ok
            &&& (file->Ok_0).1 == StagedModel::File(
                StagedFile {
                    source_revision: id,
                    source_attachment: before.id,
                    target_revision: target,
                    target_attachment: restored.id,
                    chunks: (attachment_of(p)->0).chunks,
                },
            )
        }),
{
    let v = revision_of(payload)->0;
    let files = v.record.attachments;
    let ids = file_ids(v.record);
    let now = settled(m)->0;
    lemma_types();
    assert forall|a: int, b: int| 0 <= a < b < ids.len() implies #[trigger] ids[a]
        != #[trigger] ids[b] by {
        assert(files[a].id != files[b].id);
    }
    assert(ids[j] == files[j].id);
    lemma_file_target(now.files, id, target, ids, targets, targets.len(), j);
}

/// Two files of one revision that are given different fresh identifiers are
/// staged under different ones, and files of other revisions keep theirs.
pub proof fn lemma_restored_apart(
    m: CollectorModel,
    id: [u8; 16],
    payload: Seq<u8>,
    target: [u8; 16],
    targets: Seq<[u8; 16]>,
    other: [u8; 16],
    p: Seq<u8>,
)
    requires
        staged(m, "revision"@, id, payload, target, targets) is Ok,
        attachment_of(p) is Some,
        (attachment_of(p)->0).revision == other,
        other != id,
        m.active is None,
    ensures
        ({
            let (after, _) = staged(m, "revision"@, id, payload, target, targets)->Ok_0;
            let now = staged(after, "attachment"@, id, p, target, targets);
            let before = staged(m, "attachment"@, id, p, target, targets);
            &&& now is Ok == before is Ok
            &&& now is Ok ==> (now->Ok_0).1 == (before->Ok_0).1
        }),
{
    let v = revision_of(payload)->0;
    let ids = file_ids(v.record);
    lemma_types();
    lemma_other_files(
        m.files,
        id,
        target,
        ids,
        targets,
        targets.len(),
        other,
        (attachment_of(p)->0).attachment,
    );
}

/// A revision joins the item that was restored from its own item, under that
/// item's fresh identifier, and is the visible one where it was.
pub proof fn lemma_restored_item(
    m: CollectorModel,
    id: [u8; 16],
    payload: Seq<u8>,
    target: [u8; 16],
    none: Seq<[u8; 16]>,
    revision: [u8; 16],
    p: Seq<u8>,
    fresh: [u8; 16],
    targets: Seq<[u8; 16]>,
)
    requires
        staged(m, "item"@, id, payload, target, none) is Ok,
        item_of(payload) is Some,
        revision_of(p) is Some,
        (revision_of(p)->0).item == id,
        targets.len() == (revision_of(p)->0).record.attachments.len(),
    ensures
        ({
            let i = item_of(payload)->0;
            let (with, item) = staged(m, "item"@, id, payload, target, none)->Ok_0;
            let r = staged(with, "revision"@, revision, p, fresh, targets);
            &&& item == StagedModel::Item(
                StagedItem { target, visible: i.visible, kind: i.kind, status: i.status },
            )
            &&& !all_visible(with)
            &&& r is Ok
            &&& (r->Ok_0).1 is Revision
            &&& (r->Ok_0).1->target_item == target
            &&& (r->Ok_0).1->Revision_target == fresh
            &&& (r->Ok_0).1->visible == (revision == i.visible)
            &&& (r->Ok_0).0.items.contains_key(id@)
            &&& (r->Ok_0).0.items[id@].target == target
            &&& (r->Ok_0).0.items[id@].visible_target == (if revision == i.visible {
                Some(fresh)
            } else {
                None
            })
            &&& staged(with, "item"@, id, payload, fresh, none) is Err
        }),
{
    let (with, _) = staged(m, "item"@, id, payload, target, none)->Ok_0;
    lemma_types();
    assert(with.items.contains_key(id@));
    assert(with.items[id@].visible_target is None);
}

/// The chunks of a file are staged in their order with their content, each
/// once: the next one is the one that was not staged yet, and the last one is
/// the one that makes the file whole. Nothing but the next chunk may come before
/// that.
pub proof fn lemma_restored_chunks(
    m: CollectorModel,
    a: ActiveFile,
    p: Seq<u8>,
    kind: Seq<char>,
    id: [u8; 16],
    other: Seq<u8>,
    target: [u8; 16],
    targets: Seq<[u8; 16]>,
)
    requires
        m.active == Some(a),
        chunk_of(p) is Some,
        a.seen < i64::MAX,
    ensures
        ({
            let c = chunk_of(p)->0;
            let r = staged(m, "attachment_chunk"@, id, p, target, targets);
            let right = c.revision == a.revision && c.attachment == a.attachment && c.index
                == a.seen;
            &&& r is Ok == right
            &&& right ==> (r->Ok_0).1 == (StagedModel::Chunk {
                chunk: c,
                last: a.seen + 1 == a.chunks,
            })
            &&& right ==> (r->Ok_0).0.active == Some(ActiveFile { seen: (a.seen + 1) as u64, ..a })
            &&& right ==> (r->Ok_0).0.files == m.files && (r->Ok_0).0.items == m.items
        }),
        a.seen != a.chunks && kind != "attachment_chunk"@ ==> staged(
            m,
            kind,
            id,
            other,
            target,
            targets,
        ) is Err,
{
    lemma_types();
}

/// A restore is whole exactly where every item has its visible revision and no
/// file lacks a chunk.
pub proof fn lemma_restore_whole(m: CollectorModel, item: Seq<u8>)
    requires
        m.items.contains_key(item),
        m.items[item].visible_target is None,
    ensures
        !all_visible(m),
        match settled(m) {
            Some(after) => !all_visible(after),
            None => true,
        },
{
    assert(m.items.contains_key(item));
    if settled(m) is Some {
        assert((settled(m)->0).items.contains_key(item));
    }
}

/// The key of an audit bundle is taken out of it, and other history is kept as
/// it is; a type that no backup has is refused.
pub proof fn lemma_restored_history(
    m: CollectorModel,
    kind: Seq<char>,
    id: [u8; 16],
    payload: Seq<u8>,
    target: [u8; 16],
    targets: Seq<[u8; 16]>,
)
    requires
        m.active is None,
    ensures
        kind == "organization"@ || kind == "settings"@ || kind == "authority_history"@ || kind
            == "identity_metadata"@ || kind == "partial_history"@ ==> staged(
            m,
            kind,
            id,
            payload,
            target,
            targets,
        ) == Ok::<_, HumanCommitError>((m, StagedModel::History)),
        !data_type(kind) ==> staged(m, kind, id, payload, target, targets) is Err,
        audit_key_of(payload) matches Some((device, generation, envelope)) ==> staged(
            m,
            "audit_bundle"@,
            id,
            payload,
            target,
            targets,
        ) == Ok::<_, HumanCommitError>((m, StagedModel::Audit { device, generation, envelope })),
{
    lemma_types();
    reveal_strlit("item");
    reveal_strlit("revision");
    reveal_strlit("attachment");
    reveal_strlit("attachment_chunk");
    reveal_strlit("audit_bundle");
    reveal_strlit("organization");
    reveal_strlit("settings");
    reveal_strlit("authority_history");
    reveal_strlit("identity_metadata");
    reveal_strlit("partial_history");
    assert("organization"@.len() == 12 && "organization"@[0] == 'o');
    assert("audit_bundle"@.len() == 12 && "audit_bundle"@[0] == 'a');
    assert("settings"@.len() == 8 && "settings"@[0] == 's');
    assert("revision"@.len() == 8 && "revision"@[0] == 'r');
    assert("authority_history"@.len() == 17);
    assert("identity_metadata"@.len() == 17);
    assert("partial_history"@.len() == 15);
    assert("item"@.len() == 4 && "attachment"@.len() == 10 && "attachment_chunk"@.len() == 16);
}

/// How many events a restore commits: one for each revision and one for each
/// item in the trash.
pub fn restore_event_count(revisions: i64, trash: i64) -> (r: Result<u64, HumanCommitError>)
    ensures
        if revisions >= 0 && trash >= 0 {
            r is Ok && r->Ok_0 == revisions + trash
        } else {
            r is Err && r->Err_0 is InvalidInput
        },
{
    if revisions < 0 || trash < 0 {
        return Err(HumanCommitError::InvalidInput);
    }
    Ok(revisions as u64 + trash as u64)
}

} // verus!

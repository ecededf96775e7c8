//! Backups: their summary, their inventory and how they are written.
use crate::backup_format::{
    data_bytes, encode_data, frame_record, framed, CHUNK, INVENTORY_PAGE, MAX_RECORD,
};
use crate::bytes::{fixed32, same_str};
use crate::cbor::{array_head, bytes_item, map_head, text_item, uint_item, Writer};
use crate::command::{PreparedHumanCommand, PreparedModel};
use crate::errors::HumanCommitError;
use crate::ordered::same_array;
use crate::views::views;
use crate::wipe::wipe_bytes;
use vstd::prelude::*;

verus! {

/// The most records of a backup.
pub const MAX_RECORDS: u64 = 1000000;

/// The most files of a backup.
pub const MAX_ATTACHMENTS: u64 = 100000;

/// The most bytes of the records of a backup, and of its files.
pub const MAX_LOGICAL_BYTES: u64 = 1099511627776;

/// The counts and identifiers that the inventory of a backup vouches for.
#[derive(Clone, Debug, PartialEq, Eq)]
pub struct BackupSummary {
    backup_id: [u8; 16],
    source_vault: [u8; 16],
    items: u64,
    revisions: u64,
    attachments: u64,
    attachment_bytes: u64,
    audit_bundles: u64,
    authority_events: u64,
    identity_metadata: u64,
    records: u64,
    logical_bytes: u64,
}

/// The contents of a [`BackupSummary`].
pub struct SummaryModel {
    pub backup_id: [u8; 16],
    pub source_vault: [u8; 16],
    pub items: u64,
    pub revisions: u64,
    pub attachments: u64,
    pub attachment_bytes: u64,
    pub audit_bundles: u64,
    pub authority_events: u64,
    pub identity_metadata: u64,
    pub records: u64,
    pub logical_bytes: u64,
}

impl View for BackupSummary {
    type V = SummaryModel;

    closed spec fn view(&self) -> SummaryModel {
        SummaryModel {
            backup_id: self.backup_id,
            source_vault: self.source_vault,
            items: self.items,
            revisions: self.revisions,
            attachments: self.attachments,
            attachment_bytes: self.attachment_bytes,
            audit_bundles: self.audit_bundles,
            authority_events: self.authority_events,
            identity_metadata: self.identity_metadata,
            records: self.records,
            logical_bytes: self.logical_bytes,
        }
    }
}

impl BackupSummary {
    pub fn backup_id(&self) -> (r: &[u8; 16])
        ensures
            *r == self@.backup_id,
    {
        &self.backup_id
    }

    pub fn source_vault(&self) -> (r: &[u8; 16])
        ensures
            *r == self@.source_vault,
    {
        &self.source_vault
    }

    pub fn items(&self) -> (r: u64)
        ensures
            r == self@.items,
    {
        self.items
    }

    pub fn revisions(&self) -> (r: u64)
        ensures
            r == self@.revisions,
    {
        self.revisions
    }

    pub fn attachments(&self) -> (r: u64)
        ensures
            r == self@.attachments,
    {
        self.attachments
    }

    pub fn attachment_bytes(&self) -> (r: u64)
        ensures
            r == self@.attachment_bytes,
    {
        self.attachment_bytes
    }

    pub fn audit_bundles(&self) -> (r: u64)
        ensures
            r == self@.audit_bundles,
    {
        self.audit_bundles
    }

    pub fn authority_events(&self) -> (r: u64)
        ensures
            r == self@.authority_events,
    {
        self.authority_events
    }

    pub fn identity_metadata(&self) -> (r: u64)
        ensures
            r == self@.identity_metadata,
    {
        self.identity_metadata
    }

    pub fn records(&self) -> (r: u64)
        ensures
            r == self@.records,
    {
        self.records
    }

    pub fn logical_bytes(&self) -> (r: u64)
        ensures
            r == self@.logical_bytes,
    {
        self.logical_bytes
    }
}

/// A backup that is staged under fresh keys and becomes visible when its signed
/// command is committed.
pub struct PreparedBackupRestore {
    prepared: PreparedHumanCommand,
    summary: BackupSummary,
    item_ids: Vec<[u8; 16]>,
}

/// The contents of a [`PreparedBackupRestore`].
pub struct PreparedRestoreModel {
    pub prepared: PreparedModel,
    pub summary: SummaryModel,
    pub item_ids: Seq<[u8; 16]>,
}

impl View for PreparedBackupRestore {
    type V = PreparedRestoreModel;

    closed spec fn view(&self) -> PreparedRestoreModel {
        PreparedRestoreModel {
            prepared: self.prepared@,
            summary: self.summary@,
            item_ids: self.item_ids@,
        }
    }
}

impl PreparedBackupRestore {
    /// A staged backup.
    pub fn new(
        prepared: PreparedHumanCommand,
        summary: BackupSummary,
        item_ids: Vec<[u8; 16]>,
    ) -> (r: PreparedBackupRestore)
        ensures
            r@ == (PreparedRestoreModel {
                prepared: prepared@,
                summary: summary@,
                item_ids: item_ids@,
            }),
    {
        PreparedBackupRestore { prepared, summary, item_ids }
    }

    pub fn prepared(&self) -> (r: &PreparedHumanCommand)
        ensures
            r@ == self@.prepared,
    {
        &self.prepared
    }

    pub fn summary(&self) -> (r: &BackupSummary)
        ensures
            r@ == self@.summary,
    {
        &self.summary
    }

    pub fn item_ids(&self) -> (r: &[[u8; 16]])
        ensures
            r@ == self@.item_ids,
    {
        self.item_ids.as_slice()
    }
}

/// What has been written or read of a backup.
#[derive(Clone, Copy)]
pub struct ExportState {
    pub items: u64,
    pub revisions: u64,
    pub attachments: u64,
    pub attachment_bytes: u64,
    pub audit_bundles: u64,
    pub authority_events: u64,
    pub identity_metadata: u64,
    pub records: u64,
    pub logical_bytes: u64,
}

/// Nothing yet.
pub open spec fn empty_state() -> ExportState {
    ExportState {
        items: 0,
        revisions: 0,
        attachments: 0,
        attachment_bytes: 0,
        audit_bundles: 0,
        authority_events: 0,
        identity_metadata: 0,
        records: 0,
        logical_bytes: 0,
    }
}

/// Whether no count is higher than that of all records, which has its limit.
pub open spec fn consistent(s: ExportState) -> bool {
    &&& s.items <= s.records
    &&& s.revisions <= s.records
    &&& s.attachments <= s.records
    &&& s.audit_bundles <= s.records
    &&& s.authority_events <= s.records
    &&& s.identity_metadata <= s.records
    &&& s.records <= MAX_RECORDS
    &&& s.logical_bytes <= MAX_LOGICAL_BYTES
}

/// The counts with one more record of a type and a size, within the limits.
pub open spec fn counted(s: ExportState, kind: Seq<char>, size: int) -> Option<ExportState> {
    let t = ExportState {
        records: (s.records + 1) as u64,
        logical_bytes: (s.logical_bytes + size) as u64,
        ..s
    };
    if s.records + 1 > MAX_RECORDS || s.logical_bytes + size > MAX_LOGICAL_BYTES {
        None
    } else if kind == "item"@ {
        Some(ExportState { items: (s.items + 1) as u64, ..t })
    } else if kind == "revision"@ {
        Some(ExportState { revisions: (s.revisions + 1) as u64, ..t })
    } else if kind == "attachment"@ {
        if s.attachments + 1 > MAX_ATTACHMENTS {
            None
        } else {
            Some(ExportState { attachments: (s.attachments + 1) as u64, ..t })
        }
    } else if kind == "audit_bundle"@ {
        Some(ExportState { audit_bundles: (s.audit_bundles + 1) as u64, ..t })
    } else if kind == "authority_history"@ {
        Some(ExportState { authority_events: (s.authority_events + 1) as u64, ..t })
    } else if kind == "identity_metadata"@ {
        Some(ExportState { identity_metadata: (s.identity_metadata + 1) as u64, ..t })
    } else {
        Some(t)
    }
}

/// What a summary says of the counts.
pub open spec fn summarized(s: ExportState, backup_id: [u8; 16],
    source_vault: [u8; 16]) -> SummaryModel {
    SummaryModel {
        backup_id,
        source_vault,
        items: s.items,
        revisions: s.revisions,
        attachments: s.attachments,
        attachment_bytes: s.attachment_bytes,
        audit_bundles: s.audit_bundles,
        authority_events: s.authority_events,
        identity_metadata: s.identity_metadata,
        records: s.records,
        logical_bytes: s.logical_bytes,
    }
}

impl ExportState {
    /// Nothing yet.
    pub fn new() -> (r: ExportState)
        ensures
            r == empty_state(),
            consistent(r),
    {
        ExportState {
            items: 0,
            revisions: 0,
            attachments: 0,
            attachment_bytes: 0,
            audit_bundles: 0,
            authority_events: 0,
            identity_metadata: 0,
            records: 0,
            logical_bytes: 0,
        }
    }

    /// Counts one more record.
    pub fn record(&mut self, kind: &str, size: usize) -> (r: Result<(), HumanCommitError>)
        requires
            consistent(*old(self)),
        ensures
            match counted(*old(self), kind@, size as int) {
                Some(s) => r is Ok && *final(self) == s,
                None => r is Err && r->Err_0 is InvalidInput && *final(self) == *old(self),
            },
            consistent(*final(self)),
    {
        let records: u64 = self.records + 1;
        if records > MAX_RECORDS || size as u64 > MAX_LOGICAL_BYTES - self.logical_bytes {
            return Err(HumanCommitError::InvalidInput);
        }
        let mut s = *self;
        s.records = records;
        s.logical_bytes = self.logical_bytes + size as u64;
        if same_str(kind, "item") {
            s.items = s.items + 1;
        } else if same_str(kind, "revision") {
            s.revisions = s.revisions + 1;
        } else if same_str(kind, "attachment") {
            if s.attachments + 1 > MAX_ATTACHMENTS {
                return Err(HumanCommitError::InvalidInput);
            }
            s.attachments = s.attachments + 1;
        } else if same_str(kind, "audit_bundle") {
            s.audit_bundles = s.audit_bundles + 1;
        } else if same_str(kind, "authority_history") {
            s.authority_events = s.authority_events + 1;
        } else if same_str(kind, "identity_metadata") {
            s.identity_metadata = s.identity_metadata + 1;
        }
        *self = s;
        Ok(())
    }

    /// Adds the bytes of a file that was written.
    pub fn add_attachment_bytes(&mut self, total: u64) -> (r: Result<(), HumanCommitError>)
        ensures
            if old(self).attachment_bytes + total <= MAX_LOGICAL_BYTES {
                r is Ok && *final(self) == (ExportState {
                    attachment_bytes: (old(self).attachment_bytes + total) as u64,
                    ..*old(self)
                })
            } else {
                r is Err && r->Err_0 is InvalidInput && *final(self) == *old(self)
            },
    {
        match self.attachment_bytes.checked_add(total) {
            Some(sum) => if sum > MAX_LOGICAL_BYTES {
                Err(HumanCommitError::InvalidInput)
            } else {
                self.attachment_bytes = sum;
                Ok(())
            },
            None => Err(HumanCommitError::InvalidInput),
        }
    }

    /// The summary of a backup.
    pub fn summary(&self, backup_id: [u8; 16], source_vault: [u8; 16]) -> (r: BackupSummary)
        ensures
            r@ == summarized(*self, backup_id, source_vault),
    {
        BackupSummary {
            backup_id,
            source_vault,
            items: self.items,
            revisions: self.revisions,
            attachments: self.attachments,
            attachment_bytes: self.attachment_bytes,
            audit_bundles: self.audit_bundles,
            authority_events: self.authority_events,
            identity_metadata: self.identity_metadata,
            records: self.records,
            logical_bytes: self.logical_bytes,
        }
    }
}

/// A record as the inventory lists it.
pub struct InventoryEntry {
    pub kind: String,
    pub id: [u8; 16],
    pub hash: [u8; 32],
    pub size: u64,
}

/// The contents of a [`InventoryEntry`].
pub struct EntryModel {
    pub kind: Seq<char>,
    pub id: [u8; 16],
    pub hash: [u8; 32],
    pub size: u64,
}

impl View for InventoryEntry {
    type V = EntryModel;

    open spec fn view(&self) -> EntryModel {
        EntryModel {
            kind: self.kind@,
            id: self.id,
            hash: self.hash,
            size: self.size,
        }
    }
}

/// An inventory entry, followed by `t`.
pub open spec fn entry_then(m: EntryModel, t: Seq<u8>) -> Seq<u8> {
    map_head(4) + (text_item("type"@) + (text_item(m.kind) + (text_item("id"@) + (bytes_item(m.id@)
        + (text_item("record_sha256"@) + (bytes_item(m.hash@) + (text_item("logical_size"@)
        + (uint_item(m.size) + t))))))))
}

/// Appends an inventory entry.
fn put_entry(w: &mut Writer, x: &InventoryEntry)
    ensures
        forall|t: Seq<u8>|
            #![trigger old(w)@ + entry_then(x@, t)]
            final(w)@ + t == old(w)@ + entry_then(x@, t),
{
    w.map(4);
    w.str("type");
    w.str(x.kind.as_str());
    w.str("id");
    w.bytes(&x.id);
    w.str("record_sha256");
    w.bytes(&x.hash);
    w.str("logical_size");
    w.u64(x.size);
}

/// The entries of a list, followed by `t`.
pub open spec fn entries_tail(v: Seq<EntryModel>, t: Seq<u8>) -> Seq<u8>
    decreases v.len(),
{
    if v.len() == 0 {
        t
    } else {
        entry_then(v[0], entries_tail(v.skip(1), t))
    }
}

/// A page of the inventory.
pub open spec fn page_bytes(index: u64, v: Seq<EntryModel>) -> Seq<u8> {
    map_head(3) + (text_item("type"@) + (text_item("inventory_page"@) + (text_item("index"@) + (
    uint_item(index) + (text_item("entries"@) + (array_head(v.len() as u64) + entries_tail(
        v,
        Seq::empty(),
    )))))))
}

/// Encodes the page of the inventory with the entries from `start` to `end`.
fn encode_page(index: u64, values: &Vec<InventoryEntry>, start: usize, end: usize) -> (r: Vec<u8>)
    requires
        start <= end <= values@.len(),
    ensures
        r@ == page_bytes(index, views(values@).subrange(start as int, end as int)),
{
    let ghost all = views(values@).subrange(start as int, end as int);
    let ghost none = Seq::<u8>::empty();
    let mut w = Writer::new();
    assert(none + page_bytes(index, all) =~= page_bytes(index, all));
    w.map(3);
    w.str("type");
    w.str("inventory_page");
    w.str("index");
    w.u64(index);
    w.str("entries");
    w.array((end - start) as u64);
    let mut i: usize = start;
    assert(all.skip(0) =~= all);
    while i < end
        invariant
            start <= i <= end <= values@.len(),
            all == views(values@).subrange(start as int, end as int),
            w@ + entries_tail(all.skip(i - start), none) == page_bytes(index, all),
            none == Seq::<u8>::empty(),
        decreases end - i,
    {
        let ghost k = (i - start) as int;
        assert(all.skip(k).skip(1) =~= all.skip(k + 1));
        assert(all.skip(k)[0] == values@[i as int]@);
        assert(w@ + entry_then(values@[i as int]@, entries_tail(all.skip(k + 1), none))
            == page_bytes(index, all));
        put_entry(&mut w, &values[i]);
        i += 1;
    }
    assert(all.skip(i - start) =~= Seq::empty());
    assert(w@ + none =~= w@);
    w.finish()
}

/// How many pages an inventory has.
pub open spec fn page_count(entries: int) -> int {
    (entries + INVENTORY_PAGE - 1) / (INVENTORY_PAGE as int)
}

/// The entries of a page of an inventory.
pub open spec fn page_entries(v: Seq<EntryModel>, page: int) -> Seq<EntryModel> {
    v.subrange(
        page * INVENTORY_PAGE,
        if (page + 1) * INVENTORY_PAGE <= v.len() {
            (page + 1) * INVENTORY_PAGE
        } else {
            v.len() as int
        },
    )
}

/// The pages of an inventory.
pub open spec fn pages_of(v: Seq<EntryModel>) -> Seq<Seq<u8>> {
    Seq::new(
        page_count(v.len() as int) as nat,
        |i: int| page_bytes(i as u64, page_entries(v, i)),
    )
}

/// Encodes the pages of an inventory.
pub fn inventory_pages(entries: &Vec<InventoryEntry>) -> (r: Vec<Vec<u8>>)
    ensures
        views(r@) == pages_of(views(entries@)),
{
    let ghost all = views(entries@);
    let count: usize = entries.len();
    let mut out: Vec<Vec<u8>> = Vec::new();
    let mut start: usize = 0;
    let mut page: u64 = 0;
    assert(views(out@) =~= pages_of(all).take(0));
    while start < count
        invariant
            count == entries@.len(),
            all == views(entries@),
            start <= count,
            page <= start,
            out@.len() == page,
            start == page * INVENTORY_PAGE || start == count,
            start == count ==> page == page_count(count as int),
            start < count ==> page < page_count(count as int) && start == page * INVENTORY_PAGE,
            count == 0 ==> page == 0,
            page <= page_count(count as int),
            views(out@) == pages_of(all).take(page as int),
        decreases count - start,
    {
        let end: usize = if count - start > INVENTORY_PAGE {
            start + INVENTORY_PAGE
        } else {
            count
        };
        let record = encode_page(page, entries, start, end);
        assert(all.subrange(start as int, end as int) == page_entries(all, page as int));
        let ghost before = out@;
        assert(record@ == pages_of(all)[page as int]);
        out.push(record);
        assert(views(out@) =~= pages_of(all).take(page + 1)) by {
            assert forall|j: int| 0 <= j < views(out@).len() implies views(out@)[j] == pages_of(
                all,
            ).take(page + 1)[j] by {
                if j < page {
                    assert(views(before)[j] == pages_of(all).take(page as int)[j]);
                }
            }
        }
        start = end;
        page = page + 1;
    }
    assert(pages_of(all).take(page as int) =~= pages_of(all));
    out
}

/// The whole chunks of a stream, and what is left behind them.
pub open spec fn cut(b: Seq<u8>) -> (Seq<Seq<u8>>, Seq<u8>)
    decreases b.len(),
{
    if b.len() < CHUNK {
        (Seq::empty(), b)
    } else {
        let (chunks, left) = cut(b.skip(CHUNK as int));
        (seq![b.take(CHUNK as int)] + chunks, left)
    }
}

/// The bytes of some chunks.
pub open spec fn joined(chunks: Seq<Seq<u8>>) -> Seq<u8>
    decreases chunks.len(),
{
    if chunks.len() == 0 {
        Seq::empty()
    } else {
        chunks[0] + joined(chunks.skip(1))
    }
}

/// A stream is cut into whole chunks without losing a byte.
pub proof fn lemma_cut(b: Seq<u8>)
    ensures
        joined(cut(b).0) + cut(b).1 == b,
        cut(b).1.len() < CHUNK,
        forall|i: int| 0 <= i < cut(b).0.len() ==> (#[trigger] cut(b).0[i]).len() == CHUNK,
    decreases b.len(),
{
    if b.len() >= CHUNK {
        let rest = b.skip(CHUNK as int);
        lemma_cut(rest);
        let (chunks, left) = cut(rest);
        assert(cut(b).0.skip(1) =~= chunks);
        assert(b =~= b.take(CHUNK as int) + (joined(chunks) + left));
        assert(joined(cut(b).0) + left =~= b.take(CHUNK as int) + (joined(chunks) + left));
        assert forall|i: int| 0 <= i < cut(b).0.len() implies (#[trigger] cut(b).0[i]).len()
            == CHUNK by {
            if i > 0 {
                assert(cut(b).0[i] == chunks[i - 1]);
            }
        }
    }
}

/// Writes the records of a backup into a stream of whole chunks.
pub struct BackupWriter {
    inventory: Vec<InventoryEntry>,
    state: ExportState,
    buffer: Vec<u8>,
}

/// What a [`BackupWriter`] has written.
pub struct WriterModel {
    pub inventory: Seq<EntryModel>,
    pub state: ExportState,
    pub buffer: Seq<u8>,
}

impl View for BackupWriter {
    type V = WriterModel;

    closed spec fn view(&self) -> WriterModel {
        WriterModel {
            inventory: views(self.inventory@),
            state: self.state,
            buffer: self.buffer@,
        }
    }
}

/// A data record, where it is not too long.
pub fn data_record(kind: &str, id: &[u8; 16], payload: &[u8]) -> (r: Result<
    Vec<u8>,
    HumanCommitError,
>)
    ensures
        if data_bytes(kind@, *id, payload@).len() <= MAX_RECORD {
            r is Ok && (r->Ok_0)@ == data_bytes(kind@, *id, payload@)
        } else {
            r is Err && r->Err_0 is InvalidInput
        },
{
    let record = encode_data(kind, id, payload);
    if record.len() > MAX_RECORD {
        Err(HumanCommitError::InvalidInput)
    } else {
        Ok(record)
    }
}

impl BackupWriter {
    /// A writer at the start of a backup.
    pub fn new() -> (r: BackupWriter)
        ensures
            r@ == (WriterModel {
                inventory: Seq::empty(),
                state: empty_state(),
                buffer: Seq::empty(),
            }),
            consistent(r@.state),
    {
        let r = BackupWriter { inventory: Vec::new(), state: ExportState::new(),
            buffer: Vec::new() };
        assert(r@.inventory =~= Seq::empty());
        assert(r@.buffer =~= Seq::empty());
        r
    }

    /// Appends bytes to the stream and returns the chunks that became whole.
    fn write(&mut self, bytes: &[u8]) -> (r: Vec<Vec<u8>>)
        ensures
            views(r@) == cut(old(self)@.buffer + bytes@).0,
            final(self)@ == (WriterModel {
                buffer: cut(old(self)@.buffer + bytes@).1,
                ..old(self)@
            }),
    {
        let ghost before = *self;
        let ghost all = self.buffer@ + bytes@;
        self.buffer.extend_from_slice(bytes);
        assert(self.buffer@ =~= all);
        let mut out: Vec<Vec<u8>> = Vec::new();
        assert(views(out@) + cut(self.buffer@).0 =~= cut(all).0);
        while self.buffer.len() >= CHUNK
            invariant
                all == before.buffer@ + bytes@,
                self.inventory == before.inventory,
                self.state == before.state,
                views(out@) + cut(self.buffer@).0 == cut(all).0,
                cut(self.buffer@).1 == cut(all).1,
            decreases self.buffer@.len(),
        {
            let ghost at = self.buffer@;
            let ghost sent = out@;
            let mut rest = self.buffer.split_off(CHUNK);
            let mut chunk = Vec::new();
            chunk.append(&mut self.buffer);
            self.buffer.append(&mut rest);
            assert(self.buffer@ =~= at.skip(CHUNK as int));
            assert(chunk@ =~= at.take(CHUNK as int));
            out.push(chunk);
            assert(views(out@) =~= views(sent).push(chunk@));
            assert(views(out@) + cut(self.buffer@).0 =~= views(sent) + cut(at).0);
        }
        assert(cut(self.buffer@).0 =~= Seq::empty());
        assert(views(out@) + Seq::<Seq<u8>>::empty() =~= views(out@));
        out
    }

    /// Writes a record that the inventory does not list.
    pub fn control(&mut self, record: &[u8]) -> (r: Vec<Vec<u8>>)
        requires
            record@.len() <= u32::MAX,
        ensures
            views(r@) == cut(old(self)@.buffer + framed(record@)).0,
            final(self)@ == (WriterModel {
                buffer: cut(old(self)@.buffer + framed(record@)).1,
                ..old(self)@
            }),
    {
        let frame = frame_record(record);
        self.write(frame.as_slice())
    }

    /// Writes a data record whose digest is given, and lists it.
    pub fn data(&mut self, kind: &str, id: [u8; 16], record: &[u8], digest: [u8; 32]) -> (r: Result<
        Vec<Vec<u8>>,
        HumanCommitError,
    >)
        requires
            consistent(old(self)@.state),
            record@.len() <= MAX_RECORD,
        ensures
            match counted(old(self)@.state, kind@, record@.len() as int) {
                Some(state) => r is Ok && views((r->Ok_0)@) == cut(
                    old(self)@.buffer + framed(record@),
                ).0 && final(self)@ == (WriterModel {
                    inventory: old(self)@.inventory.push(
                        EntryModel { kind: kind@, id, hash: digest, size: record@.len() as u64 },
                    ),
                    state,
                    buffer: cut(old(self)@.buffer + framed(record@)).1,
                }),
                None => r is Err && r->Err_0 is InvalidInput && final(self)@ == old(self)@,
            },
            consistent(final(self)@.state),
    {
        self.state.record(kind, record.len())?;
        let ghost before = self.inventory@;
        let entry = InventoryEntry {
            kind: kind.to_owned(),
            id,
            hash: digest,
            size: record.len() as u64,
        };
        let ghost listed = entry@;
        self.inventory.push(entry);
        assert(views(self.inventory@) =~= views(before).push(listed));
        let frame = frame_record(record);
        Ok(self.write(frame.as_slice()))
    }

    /// Adds the bytes of a file that was written.
    pub fn add_attachment_bytes(&mut self, total: u64) -> (r: Result<(), HumanCommitError>)
        requires
            consistent(old(self)@.state),
        ensures
            if old(self)@.state.attachment_bytes + total <= MAX_LOGICAL_BYTES {
                r is Ok && final(self)@ == (WriterModel {
                    state: ExportState {
                        attachment_bytes: (old(self)@.state.attachment_bytes + total) as u64,
                        ..old(self)@.state
                    },
                    ..old(self)@
                })
            } else {
                r is Err && r->Err_0 is InvalidInput && final(self)@ == old(self)@
            },
            consistent(final(self)@.state),
    {
        self.state.add_attachment_bytes(total)
    }

    /// The pages of the inventory.
    pub fn pages(&self) -> (r: Vec<Vec<u8>>)
        ensures
            views(r@) == pages_of(self@.inventory),
    {
        inventory_pages(&self.inventory)
    }

    /// What has been written.
    pub fn state(&self) -> (r: ExportState)
        ensures
            r == self@.state,
    {
        self.state
    }

    /// The last chunk.
    pub fn finish(self) -> (r: Vec<u8>)
        ensures
            r@ == self@.buffer,
    {
        let mut writer = self;
        let mut last: Vec<u8> = Vec::new();
        std::mem::swap(&mut last, &mut writer.buffer);
        last
    }
}

impl Drop for BackupWriter {
    /// Erases what no chunk has taken when the writer is released.
    fn drop(&mut self)
        ensures
            final(self)@ == (WriterModel { buffer: Seq::empty(), ..old(self)@ }),
        opens_invariants none
        no_unwind
    {
        wipe_bytes(&mut self.buffer);
    }
}

/// The digest that a backup names as its frontier: that of the newest authority
/// event, or zero where there is none of the right size.
pub fn backup_frontier(newest: Option<&[u8]>) -> (r: [u8; 32])
    ensures
        match newest {
            Some(d) => if d@.len() == 32 {
                r@ == d@
            } else {
                r@ == Seq::new(32, |i: int| 0u8)
            },
            None => r@ == Seq::new(32, |i: int| 0u8),
        },
{
    let zero: [u8; 32] = [0u8; 32];
    assert(zero@ =~= Seq::new(32, |i: int| 0u8));
    match newest {
        Some(d) => match fixed32(d) {
            Some(digest) => digest,
            None => zero,
        },
        None => zero,
    }
}

/// Checks a digest that the authority checkpoint of a backup covers.
pub fn check_checkpoint(digest: &[u8]) -> (r: Result<(), HumanCommitError>)
    ensures
        r == (if digest@.len() == 32 {
            Ok::<(), HumanCommitError>(())
        } else {
            Err(HumanCommitError::Integrity)
        }),
{
    if digest.len() == 32 {
        Ok(())
    } else {
        Err(HumanCommitError::Integrity)
    }
}

/// Checks that a vault is opened with the root it was made with.
pub fn check_root(vault: &[u8; 16], root: &[u8; 16]) -> (r: Result<(), HumanCommitError>)
    ensures
        r == (if *vault == *root {
            Ok::<(), HumanCommitError>(())
        } else {
            Err(HumanCommitError::InvalidCommand)
        }),
{
    if same_array(vault, root) {
        Ok(())
    } else {
        Err(HumanCommitError::InvalidCommand)
    }
}

/// A record counts as one record with its bytes, and as one of its own kind; all
/// other counts stay; and no backup has more than it may have.
pub proof fn lemma_counted(s: ExportState, kind: Seq<char>, size: int)
    requires
        consistent(s),
        size >= 0,
    ensures
        counted(s, kind, size) is Some <==> s.records < 1000000 && s.logical_bytes + size
            <= 1024 * 1024 * 1024 * 1024 && (kind == "attachment"@ ==> s.attachments < 100000),
        counted(s, kind, size) matches Some(t) ==> {
            &&& t.records == s.records + 1
            &&& t.logical_bytes == s.logical_bytes + size
            &&& t.attachment_bytes == s.attachment_bytes
            &&& t.items == s.items + (if kind == "item"@ {
                1int
            } else {
                0
            })
            &&& t.revisions == s.revisions + (if kind == "revision"@ {
                1int
            } else {
                0
            })
            &&& t.attachments == s.attachments + (if kind == "attachment"@ {
                1int
            } else {
                0
            })
            &&& t.audit_bundles == s.audit_bundles + (if kind == "audit_bundle"@ {
                1int
            } else {
                0
            })
            &&& t.authority_events == s.authority_events + (if kind == "authority_history"@ {
                1int
            } else {
                0
            })
            &&& t.identity_metadata == s.identity_metadata + (if kind == "identity_metadata"@ {
                1int
            } else {
                0
            })
        },
{
    reveal_strlit("item");
    reveal_strlit("revision");
    reveal_strlit("attachment");
    reveal_strlit("audit_bundle");
    reveal_strlit("authority_history");
    reveal_strlit("identity_metadata");
    assert("item"@.len() == 4);
    assert("revision"@.len() == 8);
    assert("attachment"@.len() == 10);
    assert("audit_bundle"@.len() == 12);
    assert("authority_history"@.len() == 17);
    assert("identity_metadata"@.len() == 17);
    assert("authority_history"@[0] == 'a');
    assert("identity_metadata"@[0] == 'i');
}

/// A summary gives each count as it stands, under the backup's and the vault's
/// identifiers.
pub proof fn lemma_summarized(s: ExportState, backup_id: [u8; 16], source_vault: [u8; 16])
    ensures
        ({
            let r = summarized(s, backup_id, source_vault);
            &&& r.backup_id == backup_id
            &&& r.source_vault == source_vault
            &&& r.items == s.items
            &&& r.revisions == s.revisions
            &&& r.attachments == s.attachments
            &&& r.attachment_bytes == s.attachment_bytes
            &&& r.audit_bundles == s.audit_bundles
            &&& r.authority_events == s.authority_events
            &&& r.identity_metadata == s.identity_metadata
            &&& r.records == s.records
            &&& r.logical_bytes == s.logical_bytes
        }),
        ({
            let e = empty_state();
            &&& e.items == 0 && e.revisions == 0 && e.attachments == 0 && e.attachment_bytes == 0
            &&& e.audit_bundles == 0 && e.authority_events == 0 && e.identity_metadata == 0
            &&& e.records == 0 && e.logical_bytes == 0
        }),
{
}

/// Each entry of the inventory stands on one page, 1024 to a page, in its place;
/// the pages are numbered from zero, and there is none without an entry.
pub proof fn lemma_inventory(v: Seq<EntryModel>, i: int)
    requires
        0 <= i < v.len(),
    ensures
        0 <= i / 1024 < pages_of(v).len(),
        pages_of(v)[i / 1024] == page_bytes((i / 1024) as u64, page_entries(v, i / 1024)),
        i % 1024 < page_entries(v, i / 1024).len() <= 1024,
        page_entries(v, i / 1024)[i % 1024] == v[i],
        (pages_of(v).len() - 1) * 1024 < v.len() <= pages_of(v).len() * 1024,
{
    let p = i / 1024;
    assert(p * 1024 <= i < (p + 1) * 1024);
    assert(page_count(v.len() as int) == (v.len() + 1023) / 1024);
}

} // verus!

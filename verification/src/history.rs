//! Human-visible revision history and explicit purge scopes.
use crate::bodies::MAX_EVENT_LIST;
use crate::bytes::{
    fixed16, lemma_lex_irreflexive, lemma_lex_total, lemma_lex_transitive, less, lex_less,
    same_str,
};
use crate::cbor::{bool_item, bytes_item, map_head, text_item, uint_item, Writer};
use crate::command::{PreparedHumanCommand, PreparedModel};
use crate::errors::HumanCommitError;
use crate::lists::{array_of, ids_then, lemma_array_of, put_ids};
use crate::ordered::{increasing, insert, lemma_same_array, nondecreasing, same_array, sorted};
use crate::views::views;
use vstd::multiset::Multiset;
use vstd::prelude::*;

verus! {

/// Where an item stands in its life.
#[derive(Clone, Copy, Debug, PartialEq, Eq, Structural)]
pub enum ItemLifecycle {
    Active,
    Trash,
}

/// The lifecycle that a stored status names.
pub open spec fn lifecycle_named(status: Seq<char>) -> Option<ItemLifecycle> {
    if status == "active"@ {
        Some(ItemLifecycle::Active)
    } else if status == "trash"@ {
        Some(ItemLifecycle::Trash)
    } else {
        None
    }
}

/// The lifecycle that a stored status names.
pub fn lifecycle_of(status: &str) -> (r: Option<ItemLifecycle>)
    ensures
        r == lifecycle_named(status@),
{
    if same_str(status, "active") {
        Some(ItemLifecycle::Active)
    } else if same_str(status, "trash") {
        Some(ItemLifecycle::Trash)
    } else {
        None
    }
}

/// One authenticated immutable revision in an item's retained history.
#[derive(Clone, Debug, PartialEq, Eq)]
pub struct HistoryEntry {
    revision_id: [u8; 16],
    modified_at_us: i64,
    issuer_device: [u8; 16],
    visible: bool,
    attachment_count: usize,
}

/// The contents of a [`HistoryEntry`].
pub struct EntryModel {
    pub revision_id: [u8; 16],
    pub modified_at_us: i64,
    pub issuer_device: [u8; 16],
    pub visible: bool,
    pub attachment_count: nat,
}

impl View for HistoryEntry {
    type V = EntryModel;

    closed spec fn view(&self) -> EntryModel {
        EntryModel {
            revision_id: self.revision_id,
            modified_at_us: self.modified_at_us,
            issuer_device: self.issuer_device,
            visible: self.visible,
            attachment_count: self.attachment_count as nat,
        }
    }
}

impl HistoryEntry {
    pub fn revision_id(&self) -> (r: &[u8; 16])
        ensures
            *r == self@.revision_id,
    {
        &self.revision_id
    }

    pub fn modified_at_us(&self) -> (r: i64)
        ensures
            r == self@.modified_at_us,
    {
        self.modified_at_us
    }

    pub fn issuer_device(&self) -> (r: &[u8; 16])
        ensures
            *r == self@.issuer_device,
    {
        &self.issuer_device
    }

    pub fn visible(&self) -> (r: bool)
        ensures
            r == self@.visible,
    {
        self.visible
    }

    pub fn attachment_count(&self) -> (r: usize)
        ensures
            r == self@.attachment_count,
    {
        self.attachment_count
    }
}

/// Lifecycle and retained revisions visible to an unlocked human.
#[derive(Clone, Debug, PartialEq, Eq)]
pub struct ItemHistory {
    lifecycle: ItemLifecycle,
    entries: Vec<HistoryEntry>,
}

/// The contents of a [`ItemHistory`].
pub struct HistoryModel {
    pub lifecycle: ItemLifecycle,
    pub entries: Seq<EntryModel>,
}

impl View for ItemHistory {
    type V = HistoryModel;

    closed spec fn view(&self) -> HistoryModel {
        HistoryModel {
            lifecycle: self.lifecycle,
            entries: views(self.entries@),
        }
    }
}

impl ItemHistory {
    pub fn lifecycle(&self) -> (r: ItemLifecycle)
        ensures
            r == self@.lifecycle,
    {
        self.lifecycle
    }

    pub fn entries(&self) -> (r: &[HistoryEntry])
        ensures
            views(r@) == self@.entries,
    {
        self.entries.as_slice()
    }
}

/// A stored revision, with what its opened package says of itself.
pub struct RevisionRow {
    pub revision: Vec<u8>,
    pub opened_item: [u8; 16],
    pub opened_revision: [u8; 16],
    pub modified_at_us: i64,
    pub issuer_device: [u8; 16],
    pub attachment_count: i64,
}

/// Whether a stored revision is what its package says it is.
pub open spec fn row_consistent(item: [u8; 16], row: RevisionRow) -> bool {
    &&& row.revision@.len() == 16
    &&& row.opened_item == item
    &&& row.opened_revision@ == row.revision@
    &&& 0 <= row.attachment_count <= usize::MAX
}

/// The entry of a stored revision.
pub open spec fn entry_of(visible: [u8; 16], row: RevisionRow) -> EntryModel {
    EntryModel {
        revision_id: row.opened_revision,
        modified_at_us: row.modified_at_us,
        issuer_device: row.issuer_device,
        visible: row.opened_revision == visible,
        attachment_count: row.attachment_count as nat,
    }
}

/// Whether `a` may stand before `b`: by time, then device, then revision.
pub open spec fn entry_ordered(a: EntryModel, b: EntryModel) -> bool {
    ||| a.modified_at_us < b.modified_at_us
    ||| a.modified_at_us == b.modified_at_us && lex_less(a.issuer_device@, b.issuer_device@)
    ||| a.modified_at_us == b.modified_at_us && a.issuer_device == b.issuer_device && !lex_less(
        b.revision_id@,
        a.revision_id@,
    )
}

/// Whether entries stand in last-writer order.
pub open spec fn entries_ordered(v: Seq<EntryModel>) -> bool {
    forall|i: int, j: int|
        0 <= i < j < v.len() ==> entry_ordered(#[trigger] v[i], #[trigger] v[j])
}

/// Of two entries one may stand before the other.
proof fn lemma_entry_total(a: EntryModel, b: EntryModel)
    ensures
        entry_ordered(a, b) || entry_ordered(b, a),
{
    lemma_lex_total(a.issuer_device@, b.issuer_device@);
    lemma_lex_total(a.revision_id@, b.revision_id@);
    if a.issuer_device@ == b.issuer_device@ {
        crate::ordered::lemma_same_array(a.issuer_device, b.issuer_device);
    }
    if lex_less(a.revision_id@, b.revision_id@) && lex_less(b.revision_id@, a.revision_id@) {
        lemma_lex_transitive(a.revision_id@, b.revision_id@, a.revision_id@);
        lemma_lex_irreflexive(a.revision_id@);
    }
}

/// The order of entries is transitive.
proof fn lemma_entry_transitive(a: EntryModel, b: EntryModel, c: EntryModel)
    requires
        entry_ordered(a, b),
        entry_ordered(b, c),
    ensures
        entry_ordered(a, c),
{
    if a.modified_at_us == b.modified_at_us && b.modified_at_us == c.modified_at_us {
        if lex_less(a.issuer_device@, b.issuer_device@) && lex_less(
            b.issuer_device@,
            c.issuer_device@,
        ) {
            lemma_lex_transitive(a.issuer_device@, b.issuer_device@, c.issuer_device@);
        }
        let (x, y, z) = (a.revision_id@, b.revision_id@, c.revision_id@);
        if a.issuer_device == b.issuer_device && b.issuer_device == c.issuer_device && lex_less(
            z,
            x,
        ) {
            lemma_lex_total(x, y);
            lemma_lex_total(y, z);
            if lex_less(x, y) {
                lemma_lex_transitive(z, x, y);
            }
        }
    }
}

/// Whether `a` may stand before `b`.
fn in_order(a: &HistoryEntry, b: &HistoryEntry) -> (r: bool)
    ensures
        r == entry_ordered(a@, b@),
{
    if a.modified_at_us != b.modified_at_us {
        return a.modified_at_us < b.modified_at_us;
    }
    if !same_array(&a.issuer_device, &b.issuer_device) {
        return less(a.issuer_device.as_slice(), b.issuer_device.as_slice());
    }
    proof {
        lemma_lex_irreflexive(a.issuer_device@);
    }
    !less(b.revision_id.as_slice(), a.revision_id.as_slice())
}

/// Puts an entry at its place.
fn insert_entry(entries: &mut Vec<HistoryEntry>, x: HistoryEntry)
    requires
        entries_ordered(views(old(entries)@)),
    ensures
        entries_ordered(views(final(entries)@)),
        views(final(entries)@).to_multiset() == views(old(entries)@).to_multiset().insert(x@),
{
    let ghost before = entries@;
    let mut k: usize = 0;
    while k < entries.len() && in_order(&entries[k], &x)
        invariant
            entries@ == before,
            k <= before.len(),
            forall|j: int| 0 <= j < k ==> entry_ordered((#[trigger] before[j])@, x@),
        decreases before.len() - k,
    {
        k += 1;
    }
    let ghost xv = x@;
    proof {
        assert forall|j: int| k <= j < before.len() implies entry_ordered(
            xv,
            (#[trigger] before[j])@,
        ) by {
            lemma_entry_total(before[k as int]@, xv);
            if j > k {
                assert(views(before)[k as int] == before[k as int]@);
                assert(views(before)[j] == before[j]@);
                lemma_entry_transitive(xv, before[k as int]@, before[j]@);
            }
        }
    }
    entries.insert(k, x);
    proof {
        let after = views(entries@);
        assert(after =~= views(before).insert(k as int, xv));
        vstd::seq_lib::to_multiset_insert(views(before), k as int, xv);
        assert forall|a: int, b: int| 0 <= a < b < after.len() implies entry_ordered(
            #[trigger] after[a],
            #[trigger] after[b],
        ) by {
            let pa = if a < k {
                views(before)[a]
            } else if a == k {
                xv
            } else {
                views(before)[a - 1]
            };
            let pb = if b < k {
                views(before)[b]
            } else if b == k {
                xv
            } else {
                views(before)[b - 1]
            };
            assert(after[a] == pa && after[b] == pb);
        }
    }
}

/// The entries of the stored revisions.
pub open spec fn row_entries(visible: [u8; 16], rows: Seq<RevisionRow>) -> Seq<EntryModel> {
    Seq::new(rows.len(), |i: int| entry_of(visible, rows[i]))
}

/// How many of the first `n` entries are visible.
pub open spec fn visible_count(entries: Seq<EntryModel>, n: int) -> nat
    decreases n,
{
    if n <= 0 {
        0
    } else {
        visible_count(entries, n - 1) + (if entries[n - 1].visible {
            1nat
        } else {
            0
        })
    }
}

/// How many entries are visible does not depend on their order.
proof fn lemma_visible_count(entries: Seq<EntryModel>)
    ensures
        visible_count(entries, entries.len() as int) == entries.to_multiset().filter(
            |e: EntryModel| e.visible,
        ).len(),
    decreases entries.len(),
{
    broadcast use vstd::multiset::group_multiset_axioms;

    let shown = |e: EntryModel| e.visible;
    entries.to_multiset_ensures();
    if entries.len() == 0 {
        assert(entries =~= Seq::empty());
        assert(entries.to_multiset().filter(shown) =~= Multiset::empty());
    } else {
        let rest = entries.drop_last();
        let last = entries.last();
        lemma_visible_count(rest);
        lemma_count_within(entries, rest, rest.len() as int);
        assert(entries =~= rest.push(last));
        vstd::seq_lib::to_multiset_build(rest, last);
        if last.visible {
            assert(entries.to_multiset().filter(shown) =~= rest.to_multiset().filter(shown).insert(
                last,
            ));
        } else {
            assert(entries.to_multiset().filter(shown) =~= rest.to_multiset().filter(shown));
        }
    }
}

/// The count over the first entries depends on them alone.
proof fn lemma_count_within(a: Seq<EntryModel>, b: Seq<EntryModel>, n: int)
    requires
        0 <= n <= a.len(),
        n <= b.len(),
        forall|i: int| 0 <= i < n ==> #[trigger] a[i] == b[i],
    ensures
        visible_count(a, n) == visible_count(b, n),
    decreases n,
{
    if n > 0 {
        lemma_count_within(a, b, n - 1);
    }
}

/// Whether the stored revisions make a history: each consistent, and exactly
/// one of them visible.
pub open spec fn history_valid(
    item: [u8; 16],
    visible: Seq<u8>,
    status: Seq<char>,
    rows: Seq<RevisionRow>,
) -> bool {
    &&& visible.len() == 16
    &&& lifecycle_named(status) is Some
    &&& forall|i: int| 0 <= i < rows.len() ==> row_consistent(item, #[trigger] rows[i])
    &&& visible_count(row_entries(array_of::<16>(visible), rows), rows.len() as int) == 1
}

/// The history of an item from its stored revisions.
pub fn item_history(
    item: [u8; 16],
    visible: &[u8],
    status: &str,
    rows: &Vec<RevisionRow>,
) -> (r: Result<ItemHistory, HumanCommitError>)
    ensures
        r is Ok <==> history_valid(item, visible@, status@, rows@),
        r is Ok ==> {
            &&& Some((r->Ok_0)@.lifecycle) == lifecycle_named(status@)
            &&& entries_ordered((r->Ok_0)@.entries)
            &&& (r->Ok_0)@.entries.to_multiset() == row_entries(
                array_of::<16>(visible@),
                rows@,
            ).to_multiset()
            &&& visible_count((r->Ok_0)@.entries, (r->Ok_0)@.entries.len() as int) == 1
            &&& forall|i: int|
                0 <= i < (r->Ok_0)@.entries.len() ==> (#[trigger] (r->Ok_0)@.entries[i]).visible
                    == ((r->Ok_0)@.entries[i].revision_id@ == visible@)
        },
        r is Err ==> r->Err_0 is InvalidCommand,
{
    let visible = match fixed16(visible) {
        Some(v) => v,
        None => {
            return Err(HumanCommitError::InvalidCommand);
        },
    };
    proof {
        lemma_array_of(visible);
    }
    let lifecycle = match lifecycle_of(status) {
        Some(l) => l,
        None => {
            return Err(HumanCommitError::InvalidCommand);
        },
    };
    let ghost all = row_entries(visible, rows@);
    let mut entries: Vec<HistoryEntry> = Vec::new();
    let mut seen: usize = 0;
    let mut i: usize = 0;
    assert(all.take(0) =~= views(entries@));
    while i < rows.len()
        invariant
            i <= rows@.len(),
            seen <= i,
            all == row_entries(visible, rows@),
            forall|j: int| 0 <= j < i ==> row_consistent(item, #[trigger] rows@[j]),
            entries_ordered(views(entries@)),
            views(entries@).to_multiset() == all.take(i as int).to_multiset(),
            seen == visible_count(all, i as int),
        decreases rows@.len() - i,
    {
        let row = &rows[i];
        let revision = match fixed16(row.revision.as_slice()) {
            Some(v) => v,
            None => {
                assert(!row_consistent(item, rows@[i as int]));
                return Err(HumanCommitError::InvalidCommand);
            },
        };
        proof {
            if row.opened_revision@ == revision@ {
                crate::ordered::lemma_same_array(row.opened_revision, revision);
            }
        }
        if !same_array(&row.opened_item, &item) || !same_array(&row.opened_revision, &revision)
            || row.attachment_count < 0 || row.attachment_count as u64 > usize::MAX as u64 {
            assert(!row_consistent(item, rows@[i as int]));
            return Err(HumanCommitError::InvalidCommand);
        }
        let shown = same_array(&revision, &visible);
        let entry = HistoryEntry {
            revision_id: revision,
            modified_at_us: row.modified_at_us,
            issuer_device: row.issuer_device,
            visible: shown,
            attachment_count: row.attachment_count as usize,
        };
        assert(entry@ == all[i as int]);
        assert(all.take(i + 1) =~= all.take(i as int).push(all[i as int]));
        proof {
            vstd::seq_lib::to_multiset_build(all.take(i as int), all[i as int]);
        }
        insert_entry(&mut entries, entry);
        if shown {
            seen += 1;
        }
        i += 1;
    }
    assert(all.take(i as int) =~= all);
    if seen != 1 {
        return Err(HumanCommitError::InvalidCommand);
    }
    proof {
        let sorted = views(entries@);
        lemma_visible_count(all);
        lemma_visible_count(sorted);
        assert forall|k: int| 0 <= k < sorted.len() implies (#[trigger] sorted[k]).visible == (
        sorted[k].revision_id@ == visible@) by {
            vstd::seq_lib::to_multiset_contains(sorted, sorted[k]);
            vstd::seq_lib::to_multiset_contains(all, sorted[k]);
            assert(sorted.contains(sorted[k]));
            let j = choose|j: int| 0 <= j < all.len() && all[j] == sorted[k];
            assert(row_consistent(item, rows@[j]));
            if all[j].revision_id@ == visible@ {
                crate::ordered::lemma_same_array(all[j].revision_id, visible);
            }
        }
    }
    Ok(ItemHistory { lifecycle, entries })
}

/// The first entry at `i` or behind it with that revision.
pub open spec fn find_entry(entries: Seq<EntryModel>, revision: [u8; 16], i: int) -> Option<
    EntryModel,
>
    decreases entries.len() - i,
{
    if i < 0 || i >= entries.len() {
        None
    } else if entries[i].revision_id == revision {
        Some(entries[i])
    } else {
        find_entry(entries, revision, i + 1)
    }
}

impl ItemHistory {
    /// The entry with that revision.
    pub fn find(&self, revision: &[u8; 16]) -> (r: Option<&HistoryEntry>)
        ensures
            match find_entry(self@.entries, *revision, 0) {
                Some(e) => r is Some && (r->0)@ == e,
                None => r is None,
            },
    {
        let mut i: usize = 0;
        while i < self.entries.len()
            invariant
                i <= self.entries@.len(),
                find_entry(self@.entries, *revision, 0) == find_entry(
                    self@.entries,
                    *revision,
                    i as int,
                ),
            decreases self.entries@.len() - i,
        {
            assert(self@.entries[i as int] == self.entries@[i as int]@);
            if same_array(&self.entries[i].revision_id, revision) {
                return Some(&self.entries[i]);
            }
            i += 1;
        }
        None
    }
}

/// Whether a revision may be purged: retained and not visible.
pub open spec fn purgeable(entries: Seq<EntryModel>, revision: [u8; 16]) -> bool {
    match find_entry(entries, revision, 0) {
        Some(e) => !e.visible,
        None => false,
    }
}

/// Whether a selection of revisions may be purged: some, not too many, none
/// twice, and each purgeable.
pub open spec fn selection_purgeable(entries: Seq<EntryModel>, selected: Seq<[u8; 16]>) -> bool {
    &&& 0 < selected.len() <= MAX_EVENT_LIST
    &&& selected.no_duplicates()
    &&& forall|i: int| 0 <= i < selected.len() ==> purgeable(entries, #[trigger] selected[i])
}

/// The selected revisions in order, where they may all be purged.
pub fn purge_selection(history: &ItemHistory, selected: &Vec<[u8; 16]>) -> (r: Result<
    Vec<[u8; 16]>,
    HumanCommitError,
>)
    ensures
        r is Ok <==> selection_purgeable(history@.entries, selected@),
        r is Ok ==> increasing((r->Ok_0)@) && (forall|x: [u8; 16]|
            (r->Ok_0)@.contains(x) <==> selected@.contains(x)),
        r is Err ==> r->Err_0 is InvalidInput,
{
    if selected.len() == 0 || selected.len() > MAX_EVENT_LIST {
        return Err(HumanCommitError::InvalidInput);
    }
    let out = crate::ordered::sorted_set(selected);
    if out.len() != selected.len() {
        return Err(HumanCommitError::InvalidInput);
    }
    let mut i: usize = 0;
    while i < selected.len()
        invariant
            i <= selected@.len(),
            forall|j: int|
                0 <= j < i ==> purgeable(history@.entries, #[trigger] selected@[j]),
        decreases selected@.len() - i,
    {
        let allowed = match history.find(&selected[i]) {
            Some(entry) => !entry.visible,
            None => false,
        };
        if !allowed {
            assert(!purgeable(history@.entries, selected@[i as int]));
            return Err(HumanCommitError::InvalidInput);
        }
        i += 1;
    }
    Ok(out)
}

/// The revisions of a history.
pub open spec fn entry_ids(entries: Seq<EntryModel>) -> Seq<[u8; 16]> {
    Seq::new(entries.len(), |i: int| entries[i].revision_id)
}

/// All revisions of an item in order, where the item is in the trash.
pub fn purge_item_selection(history: &ItemHistory) -> (r: Result<Vec<[u8; 16]>, HumanCommitError>)
    ensures
        r is Ok <==> history@.lifecycle == ItemLifecycle::Trash && history@.entries.len() > 0,
        r is Ok ==> nondecreasing((r->Ok_0)@) && (r->Ok_0)@.to_multiset() == entry_ids(
            history@.entries,
        ).to_multiset(),
        r is Err ==> r->Err_0 is InvalidInput,
{
    if history.lifecycle != ItemLifecycle::Trash || history.entries.len() == 0 {
        return Err(HumanCommitError::InvalidInput);
    }
    let mut ids: Vec<[u8; 16]> = Vec::new();
    let mut i: usize = 0;
    while i < history.entries.len()
        invariant
            i <= history.entries@.len(),
            ids@.len() == i,
            forall|j: int| 0 <= j < i ==> #[trigger] ids@[j] == history.entries@[j]@.revision_id,
        decreases history.entries@.len() - i,
    {
        ids.push(history.entries[i].revision_id);
        i += 1;
    }
    assert(ids@ =~= entry_ids(history@.entries));
    Ok(sorted(&ids))
}

/// Exact content scope shown before an irreversible human purge.
#[derive(Clone, Debug, PartialEq, Eq)]
pub struct ItemPurgeScope {
    item_id: [u8; 16],
    revision_ids: Vec<[u8; 16]>,
    attachment_count: usize,
    encrypted_bytes: u64,
    terminal: bool,
}

/// The contents of a [`ItemPurgeScope`].
pub struct ScopeModel {
    pub item_id: [u8; 16],
    pub revision_ids: Seq<[u8; 16]>,
    pub attachment_count: nat,
    pub encrypted_bytes: u64,
    pub terminal: bool,
}

impl View for ItemPurgeScope {
    type V = ScopeModel;

    closed spec fn view(&self) -> ScopeModel {
        ScopeModel {
            item_id: self.item_id,
            revision_ids: self.revision_ids@,
            attachment_count: self.attachment_count as nat,
            encrypted_bytes: self.encrypted_bytes,
            terminal: self.terminal,
        }
    }
}

impl ItemPurgeScope {
    pub fn item_id(&self) -> (r: &[u8; 16])
        ensures
            *r == self@.item_id,
    {
        &self.item_id
    }

    pub fn revision_ids(&self) -> (r: &[[u8; 16]])
        ensures
            r@ == self@.revision_ids,
    {
        self.revision_ids.as_slice()
    }

    pub fn attachment_count(&self) -> (r: usize)
        ensures
            r == self@.attachment_count,
    {
        self.attachment_count
    }

    pub fn encrypted_bytes(&self) -> (r: u64)
        ensures
            r == self@.encrypted_bytes,
    {
        self.encrypted_bytes
    }

    pub fn terminal(&self) -> (r: bool)
        ensures
            r == self@.terminal,
    {
        self.terminal
    }
}

/// What storage holds of one revision, in numbers.
#[derive(Clone, Copy, Debug)]
pub struct PurgeRow {
    pub package_bytes: Option<i64>,
    pub inline_count: i64,
    pub inline_bytes: i64,
    pub stream_count: i64,
    pub stream_bytes: i64,
    pub chunk_bytes: i64,
}

/// Whether the numbers of one revision, added to what came before, are in
/// range.
pub open spec fn row_countable(row: PurgeRow, count: int, bytes: int) -> bool {
    let package = row.package_bytes->0;
    &&& 0 <= row.inline_count + row.stream_count
    &&& count + row.inline_count + row.stream_count <= usize::MAX
    &&& 0 <= package
    &&& 0 <= row.inline_bytes
    &&& 0 <= row.stream_bytes
    &&& 0 <= row.chunk_bytes
    &&& bytes + package + row.inline_bytes + row.stream_bytes + row.chunk_bytes <= u64::MAX
}

/// The attachments and bytes of the first `n` revisions; fails at the first
/// that is missing or out of range.
pub open spec fn scope_totals(rows: Seq<PurgeRow>, n: int) -> Result<(int, int), HumanCommitError>
    decreases n,
{
    if n <= 0 {
        Ok((0, 0))
    } else {
        match scope_totals(rows, n - 1) {
            Ok((count, bytes)) => {
                let row = rows[n - 1];
                if row.package_bytes is None {
                    Err(HumanCommitError::ItemNotFound)
                } else if !row_countable(row, count, bytes) {
                    Err(HumanCommitError::InvalidCommand)
                } else {
                    Ok(
                        (
                            count + row.inline_count + row.stream_count,
                            bytes + row.package_bytes->0 + row.inline_bytes + row.stream_bytes
                                + row.chunk_bytes,
                        ),
                    )
                }
            },
            Err(e) => Err(e),
        }
    }
}

/// A failure at one revision is the failure of all longer lists.
proof fn lemma_totals_fail(rows: Seq<PurgeRow>, i: int, n: int)
    requires
        0 <= i <= n,
        scope_totals(rows, i) is Err,
    ensures
        scope_totals(rows, n) == scope_totals(rows, i),
    decreases n - i,
{
    if i < n {
        lemma_totals_fail(rows, i, n - 1);
    }
}

/// A total and one more number, where both are in range.
fn add_bytes(total: u64, value: i64) -> (r: Option<u64>)
    ensures
        r == (if value >= 0 && total + value <= u64::MAX {
            Some((total + value) as u64)
        } else {
            None
        }),
{
    if value < 0 || value as u64 > u64::MAX - total {
        None
    } else {
        Some(total + value as u64)
    }
}

/// The totals with one more revision.
fn add_row(row: &PurgeRow, package: i64, count: usize, bytes: u64) -> (r: Option<(usize, u64)>)
    requires
        row.package_bytes == Some(package),
    ensures
        r is Some <==> row_countable(*row, count as int, bytes as int),
        r is Some ==> (r->0).0 == count + row.inline_count + row.stream_count && (r->0).1 == bytes
            + package + row.inline_bytes + row.stream_bytes + row.chunk_bytes,
{
    let files: i128 = row.inline_count as i128 + row.stream_count as i128;
    if files < 0 || files > (usize::MAX - count) as i128 {
        return None;
    }
    let bytes: u64 = add_bytes(bytes, package)?;
    let bytes: u64 = add_bytes(bytes, row.inline_bytes)?;
    let bytes: u64 = add_bytes(bytes, row.stream_bytes)?;
    let bytes: u64 = add_bytes(bytes, row.chunk_bytes)?;
    Some((count + files as usize, bytes))
}

/// The scope of a purge: what storage holds of each selected revision.
pub fn purge_scope(
    item: [u8; 16],
    revisions: &Vec<[u8; 16]>,
    rows: &Vec<PurgeRow>,
    terminal: bool,
) -> (r: Result<ItemPurgeScope, HumanCommitError>)
    ensures
        match scope_totals(rows@, rows@.len() as int) {
            Ok((count, bytes)) => r is Ok && (r->Ok_0)@ == (ScopeModel {
                item_id: item,
                revision_ids: revisions@,
                attachment_count: count as nat,
                encrypted_bytes: bytes as u64,
                terminal,
            }),
            Err(e) => r is Err && r->Err_0 == e,
        },
{
    let mut count: usize = 0;
    let mut bytes: u64 = 0;
    let mut i: usize = 0;
    while i < rows.len()
        invariant
            i <= rows@.len(),
            scope_totals(rows@, i as int) == Ok::<(int, int), HumanCommitError>(
                (count as int, bytes as int),
            ),
        decreases rows@.len() - i,
    {
        let package: i64 = match rows[i].package_bytes {
            Some(n) => n,
            None => {
                proof {
                    lemma_totals_fail(rows@, i + 1, rows@.len() as int);
                }
                return Err(HumanCommitError::ItemNotFound);
            },
        };
        match add_row(&rows[i], package, count, bytes) {
            Some((c, b)) => {
                count = c;
                bytes = b;
            },
            None => {
                proof {
                    lemma_totals_fail(rows@, i + 1, rows@.len() as int);
                }
                return Err(HumanCommitError::InvalidCommand);
            },
        }
        i += 1;
    }
    Ok(
        ItemPurgeScope {
            item_id: item,
            revision_ids: vstd::slice::slice_to_vec(revisions.as_slice()),
            attachment_count: count,
            encrypted_bytes: bytes,
            terminal,
        },
    )
}

/// What the owner confirms of a purge.
pub struct PurgeConfirmation {
    pub scope: ItemPurgeScope,
    pub body_digest: [u8; 32],
}

/// The contents of a [`PurgeConfirmation`].
pub struct ConfirmationModel {
    pub scope: ScopeModel,
    pub body_digest: [u8; 32],
}

impl View for PurgeConfirmation {
    type V = ConfirmationModel;

    open spec fn view(&self) -> ConfirmationModel {
        ConfirmationModel {
            scope: self.scope@,
            body_digest: self.body_digest,
        }
    }
}

/// The confirmation of a purge, followed by `t`.
pub open spec fn purge_confirmation_then(m: ConfirmationModel, t: Seq<u8>) -> Seq<u8> {
    map_head(7) + (text_item("domain"@) + (text_item("pm/purge-confirmation/v1"@)
        + (text_item("item_id"@) + (bytes_item(m.scope.item_id@) + (text_item("revision_ids"@)
        + (ids_then(m.scope.revision_ids, text_item("attachment_count"@)
        + (uint_item(m.scope.attachment_count as u64) + (text_item("encrypted_bytes"@)
        + (uint_item(m.scope.encrypted_bytes) + (text_item("terminal"@)
        + (bool_item(m.scope.terminal) + (text_item("authority_body_digest"@)
        + (bytes_item(m.body_digest@) + t))))))))))))))
}

/// The confirmation of a purge.
pub open spec fn purge_confirmation_bytes(m: ConfirmationModel) -> Seq<u8> {
    purge_confirmation_then(m, Seq::empty())
}

/// Appends the confirmation of a purge.
fn put_purge_confirmation(w: &mut Writer, x: &PurgeConfirmation)
    ensures
        forall|t: Seq<u8>|
            #![trigger old(w)@ + purge_confirmation_then(x@, t)]
            final(w)@ + t == old(w)@ + purge_confirmation_then(x@, t),
{
    w.map(7);
    w.str("domain");
    w.str("pm/purge-confirmation/v1");
    w.str("item_id");
    w.bytes(&x.scope.item_id);
    w.str("revision_ids");
    put_ids(w, &x.scope.revision_ids);
    w.str("attachment_count");
    w.u64(x.scope.attachment_count as u64);
    w.str("encrypted_bytes");
    w.u64(x.scope.encrypted_bytes);
    w.str("terminal");
    w.bool(x.scope.terminal);
    w.str("authority_body_digest");
    w.bytes(&x.body_digest);
}

/// Encodes the confirmation of a purge.
pub fn encode_purge_confirmation(x: &PurgeConfirmation) -> (r: Vec<u8>)
    ensures
        r@ == purge_confirmation_bytes(x@),
{
    let mut w = Writer::new();
    let ghost none = Seq::<u8>::empty();
    assert(none + purge_confirmation_then(x@, none) =~= purge_confirmation_bytes(x@));
    put_purge_confirmation(&mut w, x);
    assert(w@ + none =~= w@);
    w.finish()
}

/// Signed command plus the immutable scope presented to the human.
pub struct PreparedItemPurge {
    prepared: PreparedHumanCommand,
    scope: ItemPurgeScope,
}

/// The contents of a [`PreparedItemPurge`].
pub struct PreparedPurgeModel {
    pub prepared: PreparedModel,
    pub scope: ScopeModel,
}

impl View for PreparedItemPurge {
    type V = PreparedPurgeModel;

    closed spec fn view(&self) -> PreparedPurgeModel {
        PreparedPurgeModel {
            prepared: self.prepared@,
            scope: self.scope@,
        }
    }
}

impl PreparedItemPurge {
    /// A prepared purge of that scope.
    pub fn new(prepared: PreparedHumanCommand, scope: ItemPurgeScope) -> (r: PreparedItemPurge)
        ensures
            r@ == (PreparedPurgeModel { prepared: prepared@, scope: scope@ }),
    {
        PreparedItemPurge { prepared, scope }
    }

    pub fn prepared(&self) -> (r: &PreparedHumanCommand)
        ensures
            r@ == self@.prepared,
    {
        &self.prepared
    }

    pub fn scope(&self) -> (r: &ItemPurgeScope)
        ensures
            r@ == self@.scope,
    {
        &self.scope
    }
}

/// An item is active or in the trash, by the name of its status; no other name
/// is one.
pub proof fn lemma_lifecycle(status: Seq<char>)
    ensures
        lifecycle_named(status) == Some(ItemLifecycle::Active) <==> status == "active"@,
        lifecycle_named(status) == Some(ItemLifecycle::Trash) <==> status == "trash"@,
        lifecycle_named(status) is None <==> status != "active"@ && status != "trash"@,
{
    reveal_strlit("active");
    reveal_strlit("trash");
    assert("active"@.len() == 6);
    assert("trash"@.len() == 5);
}

/// An entry of a history is its row's: its revision, when and on which device it
/// was made, how many files it has, and whether it is the one on view.
pub proof fn lemma_entry(visible: [u8; 16], rows: Seq<RevisionRow>, i: int)
    requires
        0 <= i < rows.len(),
    ensures
        row_entries(visible, rows).len() == rows.len(),
        ({
            let e = row_entries(visible, rows)[i];
            &&& e.revision_id == rows[i].opened_revision
            &&& e.modified_at_us == rows[i].modified_at_us
            &&& e.issuer_device == rows[i].issuer_device
            &&& rows[i].attachment_count >= 0 ==> e.attachment_count == rows[i].attachment_count
            &&& e.visible <==> rows[i].opened_revision == visible
        }),
{
}

/// Entries come in the order of their times, then of their devices, then of
/// their revisions.
pub proof fn lemma_entry_order(a: EntryModel, b: EntryModel)
    ensures
        a.modified_at_us < b.modified_at_us ==> entry_ordered(a, b),
        a.modified_at_us > b.modified_at_us ==> !entry_ordered(a, b),
        a.modified_at_us == b.modified_at_us && lex_less(a.issuer_device@, b.issuer_device@)
            ==> entry_ordered(a, b),
        a.modified_at_us == b.modified_at_us && a.issuer_device == b.issuer_device && lex_less(
            b.revision_id@,
            a.revision_id@,
        ) && !lex_less(a.issuer_device@, a.issuer_device@) ==> !entry_ordered(a, b),
        a.modified_at_us == b.modified_at_us && a.issuer_device != b.issuer_device && !lex_less(
            a.issuer_device@,
            b.issuer_device@,
        ) ==> !entry_ordered(a, b),
        a.modified_at_us == b.modified_at_us && a.issuer_device == b.issuer_device && !lex_less(
            b.revision_id@,
            a.revision_id@,
        ) ==> entry_ordered(a, b),
{
}

/// How many entries are visible among the first.
proof fn lemma_one_visible(entries: Seq<EntryModel>, n: int)
    requires
        0 <= n <= entries.len(),
    ensures
        visible_count(entries, n) == 0 <==> forall|i: int|
            0 <= i < n ==> !(#[trigger] entries[i]).visible,
        visible_count(entries, n) <= 1 <==> forall|i: int, j: int|
            0 <= i < j < n ==> !((#[trigger] entries[i]).visible && (
            #[trigger] entries[j]).visible),
    decreases n,
{
    if n > 0 {
        lemma_one_visible(entries, n - 1);
        let k = n - 1;
        if entries[k].visible {
            if visible_count(entries, k) > 0 {
                let i = choose|i: int| 0 <= i < k && (#[trigger] entries[i]).visible;
                assert(entries[i].visible && entries[k].visible);
            } else {
                assert forall|i: int, j: int| 0 <= i < j < n implies !((
                #[trigger] entries[i]).visible && (#[trigger] entries[j]).visible) by {
                    assert(!entries[i].visible);
                }
            }
        }
    }
}

/// A history is accepted where its item is active or in the trash, each row is
/// of that item and of its own revision, and exactly one of them is on view.
pub proof fn lemma_history_accepted(
    item: [u8; 16],
    visible: [u8; 16],
    status: Seq<char>,
    rows: Seq<RevisionRow>,
)
    ensures
        history_valid(item, visible@, status, rows) <==> {
            &&& status == "active"@ || status == "trash"@
            &&& forall|i: int|
                0 <= i < rows.len() ==> {
                    &&& (#[trigger] rows[i]).opened_item == item
                    &&& rows[i].revision@ == rows[i].opened_revision@
                    &&& 0 <= rows[i].attachment_count <= usize::MAX
                }
            &&& exists|i: int|
                0 <= i < rows.len() && (#[trigger] rows[i]).opened_revision@ == visible@
            &&& forall|i: int, j: int|
                0 <= i < j < rows.len() ==> !((#[trigger] rows[i]).opened_revision@ == visible@ && (
                #[trigger] rows[j]).opened_revision@ == visible@)
        },
{
    let at = array_of::<16>(visible@);
    let entries = row_entries(at, rows);
    lemma_lifecycle(status);
    lemma_one_visible(entries, rows.len() as int);
    lemma_array_of::<16>(visible);
    assert forall|i: int| 0 <= i < rows.len() implies ((#[trigger] entries[i]).visible
        <==> rows[i].opened_revision@ == visible@) by {
        if rows[i].opened_revision@ == visible@ {
            lemma_same_array(rows[i].opened_revision, at);
        }
    }
    assert forall|i: int| 0 <= i < rows.len() implies (#[trigger] rows[i]).opened_revision@.len()
        == 16 by {}
    if visible_count(entries, rows.len() as int) == 1 {
        let i = choose|i: int| 0 <= i < entries.len() && (#[trigger] entries[i]).visible;
        assert(rows[i].opened_revision@ == visible@);
        assert forall|i: int, j: int| 0 <= i < j < rows.len() implies !((
        #[trigger] rows[i]).opened_revision@ == visible@ && (#[trigger] rows[j]).opened_revision@
            == visible@) by {
            assert(!(entries[i].visible && entries[j].visible));
        }
    }
    if (exists|i: int| 0 <= i < rows.len() && (#[trigger] rows[i]).opened_revision@ == visible@)
        && (forall|i: int, j: int|
        0 <= i < j < rows.len() ==> !((#[trigger] rows[i]).opened_revision@ == visible@ && (
        #[trigger] rows[j]).opened_revision@ == visible@)) {
        let i = choose|i: int|
            0 <= i < rows.len() && (#[trigger] rows[i]).opened_revision@ == visible@;
        assert(entries[i].visible);
        assert forall|i: int, j: int| 0 <= i < j < entries.len() implies !((
        #[trigger] entries[i]).visible && (#[trigger] entries[j]).visible) by {
            assert(!(rows[i].opened_revision@ == visible@ && rows[j].opened_revision@ == visible@));
        }
    }
}

/// What is found is the first entry with the revision.
proof fn lemma_find_entry(entries: Seq<EntryModel>, revision: [u8; 16], from: int)
    requires
        0 <= from,
    ensures
        match find_entry(entries, revision, from) {
            Some(e) => exists|i: int|
                from <= i < entries.len() && #[trigger] entries[i] == e && e.revision_id
                    == revision,
            None => forall|i: int|
                from <= i < entries.len() ==> (#[trigger] entries[i]).revision_id != revision,
        },
    decreases entries.len() - from,
{
    if from < entries.len() && entries[from].revision_id != revision {
        lemma_find_entry(entries, revision, from + 1);
    }
}

/// A revision may be purged where it stands in the history and is not the one on
/// view. (No two entries are of one revision.)
pub proof fn lemma_purgeable(entries: Seq<EntryModel>, revision: [u8; 16])
    requires
        forall|i: int, j: int|
            0 <= i < j < entries.len() ==> (#[trigger] entries[i]).revision_id != (
            #[trigger] entries[j]).revision_id,
    ensures
        purgeable(entries, revision) <==> exists|i: int|
            0 <= i < entries.len() && (#[trigger] entries[i]).revision_id == revision
                && !entries[i].visible,
{
    lemma_find_entry(entries, revision, 0);
    match find_entry(entries, revision, 0) {
        Some(e) => {
            let k = choose|i: int|
                0 <= i < entries.len() && #[trigger] entries[i] == e && e.revision_id == revision;
            assert forall|i: int|
                0 <= i < entries.len() && (#[trigger] entries[i]).revision_id
                    == revision implies i == k by {
                if i < k {
                    assert(entries[i].revision_id != entries[k].revision_id);
                }
                if k < i {
                    assert(entries[k].revision_id != entries[i].revision_id);
                }
            }
        },
        None => {},
    }
}

/// The revision on view is in no selection that may be purged, nor is one that
/// does not stand in the history, nor one twice, nor more than may be listed.
pub proof fn lemma_selection(entries: Seq<EntryModel>, selected: Seq<[u8; 16]>, i: int)
    requires
        selection_purgeable(entries, selected),
        0 <= i < selected.len(),
    ensures
        exists|k: int|
            0 <= k < entries.len() && (#[trigger] entries[k]).revision_id == selected[i]
                && !entries[k].visible,
        forall|j: int| 0 <= j < selected.len() && j != i ==> #[trigger] selected[j] != selected[i],
        selected.len() <= 4096,
{
    assert(purgeable(entries, selected[i]));
    lemma_find_entry(entries, selected[i], 0);
}

/// A selection that names revisions that may each be purged, at least one and
/// none twice, may be purged.
pub proof fn lemma_selectable(entries: Seq<EntryModel>, selected: Seq<[u8; 16]>)
    ensures
        0 < selected.len() <= 4096 && selected.no_duplicates() && (forall|i: int|
            0 <= i < selected.len() ==> purgeable(entries, #[trigger] selected[i]))
            ==> selection_purgeable(entries, selected),
        selected.len() == 0 ==> !selection_purgeable(entries, selected),
{
}

/// How many files and how many bytes the first rows hold together.
pub open spec fn held(rows: Seq<PurgeRow>, n: int) -> (int, int)
    decreases n,
{
    if n <= 0 {
        (0, 0)
    } else {
        let before = held(rows, n - 1);
        let row = rows[n - 1];
        (
            row.stream_count + row.inline_count + before.0,
            row.chunk_bytes + row.stream_bytes + row.inline_bytes + row.package_bytes->0
                + before.1,
        )
    }
}

/// What a purge removes is counted over all its revisions: the files, inline and
/// in streams, and the bytes of the packages, the files, the streams and their
/// chunks. One whose package is gone is refused as not found.
pub proof fn lemma_scope_counted(rows: Seq<PurgeRow>, n: int)
    requires
        0 <= n <= rows.len(),
    ensures
        scope_totals(rows, n) matches Ok(t) ==> t == held(rows, n) && forall|i: int|
            0 <= i < n ==> (#[trigger] rows[i]).package_bytes is Some && rows[i].package_bytes->0
                >= 0 && rows[i].inline_bytes >= 0 && rows[i].stream_bytes >= 0
                && rows[i].chunk_bytes >= 0 && rows[i].inline_count + rows[i].stream_count >= 0,
        scope_totals(rows, n) matches Ok(t) ==> 0 <= t.0 <= usize::MAX && 0 <= t.1 <= u64::MAX,
        n > 0 && scope_totals(rows, n - 1) is Ok && rows[n - 1].package_bytes is None
            ==> scope_totals(rows, n) == Err::<(int, int), _>(HumanCommitError::ItemNotFound),
        scope_totals(rows, n) == Err::<(int, int), _>(HumanCommitError::ItemNotFound)
            ==> exists|i: int| 0 <= i < n && (#[trigger] rows[i]).package_bytes is None,
    decreases n,
{
    if n > 0 {
        lemma_scope_counted(rows, n - 1);
        assert(rows[n - 1].package_bytes is None ==> !(scope_totals(rows, n) is Ok));
    }
}

/// Rows that are all there, and whose counts and bytes fit, are counted.
pub proof fn lemma_scope_countable(rows: Seq<PurgeRow>, n: int)
    requires
        0 <= n <= rows.len(),
        forall|i: int|
            0 <= i < n ==> (#[trigger] rows[i]).package_bytes is Some && rows[i].package_bytes->0
                >= 0 && rows[i].inline_bytes >= 0 && rows[i].stream_bytes >= 0
                && rows[i].chunk_bytes >= 0 && rows[i].inline_count + rows[i].stream_count >= 0,
        held(rows, n).0 <= usize::MAX,
        held(rows, n).1 <= u64::MAX,
    ensures
        scope_totals(rows, n) == Ok::<_, HumanCommitError>(held(rows, n)),
    decreases n,
{
    if n > 0 {
        assert(rows[n - 1].package_bytes is Some);
        lemma_scope_countable(rows, n - 1);
    }
}

/// A history stands in its order: an earlier entry before a later one.
pub proof fn lemma_in_order(v: Seq<EntryModel>, i: int, j: int)
    requires
        entries_ordered(v),
        0 <= i < j < v.len(),
    ensures
        v[i].modified_at_us <= v[j].modified_at_us,
        v[i].modified_at_us == v[j].modified_at_us ==> !lex_less(
            v[j].issuer_device@,
            v[i].issuer_device@,
        ),
        v[i].modified_at_us == v[j].modified_at_us && v[i].issuer_device == v[j].issuer_device
            ==> !lex_less(v[j].revision_id@, v[i].revision_id@),
{
    assert(entry_ordered(v[i], v[j]));
    if lex_less(v[i].issuer_device@, v[j].issuer_device@) && lex_less(
        v[j].issuer_device@,
        v[i].issuer_device@,
    ) {
        lemma_lex_transitive(v[i].issuer_device@, v[j].issuer_device@, v[i].issuer_device@);
    }
    lemma_lex_irreflexive(v[i].issuer_device@);
}

/// What a purge of a whole item names are its revisions, one for one.
pub proof fn lemma_entry_ids(entries: Seq<EntryModel>, i: int)
    requires
        0 <= i < entries.len(),
    ensures
        entry_ids(entries).len() == entries.len(),
        entry_ids(entries)[i] == entries[i].revision_id,
{
}

} // verus!

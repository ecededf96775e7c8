//! Transactions of several events: imports, restored revisions and restored
//! backups.
use crate::authorization::AuthorizationReason;
use crate::bodies::{
    encode_lifecycle_body, encode_reason_body, lifecycle_body_bytes, reason_body_bytes,
};
use crate::bytes::same_str;
use crate::command::Body;
use crate::commit::{
    lemma_digests_taken, lemma_event_says, plan_event, planned, seq_extends, Issuer, PlannedEvent,
};
use crate::content::{kind_name, RecordKind};
use crate::errors::HumanCommitError;
use crate::events::{
    authority_digests, digest_bytes, digests_of, encode_import_revision_body,
    encode_legacy_event_body, header_at, import_revision_body_bytes, kind_among,
    legacy_event_body_bytes, AuthorityRow, AuthorityRowModel, HeaderModel, ImportRevisionBody,
    ImportRevisionModel, LegacyEventBody,
};
use crate::import::{ImportBatch, ImportItem, ImportItemModel};
use crate::ordered::{lemma_same_array, same_array};
use crate::views::{views};
use crate::format_laws::{
    lemma_import_revision_body_fields, lemma_legacy_event_body_fields, next_ids, next_map,
    next_optional_bytes, next_optional_uint,
};
use crate::lists::{after, next_bytes, next_int, next_key};
use vstd::prelude::*;
use vstd::slice::slice_to_vec;

verus! {

/// A growing chain of events: each follows the one recorded before it.
pub struct EventChain {
    pub issuer: Issuer,
    pub previous: Option<[u8; 32]>,
}

/// The revisions that came before, none or one.
pub open spec fn prior_list(prior: Option<[u8; 16]>) -> Seq<[u8; 16]> {
    match prior {
        Some(p) => seq![p],
        None => Seq::empty(),
    }
}

/// What is said of an imported revision.
pub open spec fn imported_body(
    revision: [u8; 16],
    committed_at_us: i64,
    object_digest: [u8; 32],
    prior: Option<[u8; 16]>,
) -> Seq<u8> {
    import_revision_body_bytes(
        ImportRevisionModel {
            revision,
            modified_at: committed_at_us,
            manifest_digest: object_digest,
            previous_revisions: prior_list(prior),
        },
    )
}

/// What is said of a restored revision.
pub open spec fn restored_body(
    revision: [u8; 16],
    modified_at: i64,
    object_digest: [u8; 32],
) -> Seq<u8> {
    legacy_event_body_bytes(
        LegacyEventBody {
            revision: Some(revision),
            modified_at,
            audit_generation: None,
            audit_through_seq: None,
            object_manifest_digest: Some(object_digest),
        },
    )
}

/// What is said of a restored revision.
fn restored(revision: [u8; 16], modified_at: i64, object_digest: [u8; 32]) -> (r: Vec<u8>)
    ensures
        r@ == restored_body(revision, modified_at, object_digest),
{
    let body = LegacyEventBody {
        revision: Some(revision),
        modified_at,
        audit_generation: None,
        audit_through_seq: None,
        object_manifest_digest: Some(object_digest),
    };
    encode_legacy_event_body(&body)
}

/// The events that an imported or restored revision follows.
pub open spec fn revision_kinds() -> Seq<&'static str> {
    seq!["item-revision"]
}

/// The events that the withdrawal of a replaced credential follows.
pub open spec fn availability_kinds() -> Seq<&'static str> {
    seq!["enable", "disable"]
}

/// The events that a restore from history follows, besides its revision.
pub open spec fn lifecycle_kinds() -> Seq<&'static str> {
    seq!["trash", "restore", "purge-item", "purge-revisions"]
}

/// Whether an event was planned behind the stored events of its subject that
/// are of one of the kinds.
pub open spec fn planned_behind(
    p: PlannedEvent,
    chain: EventChain,
    event_id: [u8; 16],
    current_seq: i64,
    events: Seq<AuthorityRowModel>,
    kinds: Seq<&'static str>,
    kind: Seq<char>,
    subject: [u8; 16],
    body: Seq<u8>,
) -> bool {
    exists|specific: Seq<[u8; 32]>|
        digests_of(events, kinds, events.len() as int) == Some(#[trigger] digest_bytes(specific))
            && planned(
            p,
            chain.issuer,
            event_id,
            current_seq,
            chain.previous,
            specific,
            kind,
            subject,
            1,
            body,
        )
}

/// Whether an event can be planned behind the stored events of its subject.
pub open spec fn plannable(
    current_seq: i64,
    events: Seq<AuthorityRowModel>,
    kinds: Seq<&'static str>,
) -> bool {
    seq_extends(current_seq) && digests_of(events, kinds, events.len() as int) is Some
}

impl EventChain {
    /// A chain behind the current head.
    pub fn new(issuer: Issuer, head: Option<[u8; 32]>) -> (r: EventChain)
        ensures
            r.issuer == issuer,
            r.previous == head,
    {
        EventChain { issuer, previous: head }
    }

    /// Records the digest of the event that was planned last.
    pub fn record(&mut self, digest: [u8; 32])
        ensures
            final(self).issuer == old(self).issuer,
            final(self).previous == Some(digest),
    {
        self.previous = Some(digest);
    }

    /// Plans an event behind the stored events of its subject that are of one
    /// of the kinds.
    fn plan(
        &self,
        event_id: [u8; 16],
        current_seq: i64,
        events: &Vec<AuthorityRow>,
        kinds: &[&'static str],
        kind: &str,
        subject: [u8; 16],
        body: Vec<u8>,
    ) -> (r: Result<PlannedEvent, HumanCommitError>)
        ensures
            r is Ok <==> plannable(current_seq, views(events@), kinds@),
            r is Ok ==> planned_behind(
                r->Ok_0,
                *self,
                event_id,
                current_seq,
                views(events@),
                kinds@,
                kind@,
                subject,
                body@,
            ),
            r is Err ==> r->Err_0 is InvalidCommand,
    {
        match authority_digests(events, kinds) {
            Ok(specific) => plan_event(
                &self.issuer,
                event_id,
                current_seq,
                &self.previous,
                &specific,
                kind,
                subject,
                1,
                body,
            ),
            Err(e) => Err(e),
        }
    }

    /// Plans the revision of an imported item behind its earlier revisions.
    pub fn plan_import(
        &self,
        event_id: [u8; 16],
        current_seq: i64,
        events: &Vec<AuthorityRow>,
        item: &ImportItem,
        prior: Option<[u8; 16]>,
        object_digest: [u8; 32],
        committed_at_us: i64,
    ) -> (r: Result<PlannedEvent, HumanCommitError>)
        ensures
            r is Ok <==> plannable(current_seq, views(events@), revision_kinds()),
            r is Ok ==> planned_behind(
                r->Ok_0,
                *self,
                event_id,
                current_seq,
                views(events@),
                revision_kinds(),
                "item-revision"@,
                item@.item,
                imported_body(item@.revision, committed_at_us, object_digest, prior),
            ),
            r is Err ==> r->Err_0 is InvalidCommand,
    {
        let mut previous_revisions: Vec<[u8; 16]> = Vec::new();
        if let Some(p) = prior {
            previous_revisions.push(p);
        }
        assert(previous_revisions@ =~= prior_list(prior));
        let body = ImportRevisionBody {
            revision: item.revision,
            modified_at: committed_at_us,
            manifest_digest: object_digest,
            previous_revisions,
        };
        let kinds: [&'static str; 1] = ["item-revision"];
        assert(kinds@ =~= revision_kinds());
        self.plan(
            event_id,
            current_seq,
            events,
            &kinds,
            "item-revision",
            item.item,
            encode_import_revision_body(&body),
        )
    }

    /// Plans the withdrawal of a replaced item's credential behind its earlier
    /// availability events.
    pub fn plan_replacement(
        &self,
        event_id: [u8; 16],
        current_seq: i64,
        events: &Vec<AuthorityRow>,
        item: [u8; 16],
    ) -> (r: Result<PlannedEvent, HumanCommitError>)
        ensures
            r is Ok <==> plannable(current_seq, views(events@), availability_kinds()),
            r is Ok ==> planned_behind(
                r->Ok_0,
                *self,
                event_id,
                current_seq,
                views(events@),
                availability_kinds(),
                "disable"@,
                item,
                reason_body_bytes(AuthorizationReason::Replacement),
            ),
            r is Err ==> r->Err_0 is InvalidCommand,
    {
        let kinds: [&'static str; 2] = ["enable", "disable"];
        assert(kinds@ =~= availability_kinds());
        self.plan(
            event_id,
            current_seq,
            events,
            &kinds,
            "disable",
            item,
            encode_reason_body(&AuthorizationReason::Replacement),
        )
    }

    /// Plans the revision event of a restore from history.
    pub fn plan_restored_revision(
        &self,
        event_id: [u8; 16],
        current_seq: i64,
        events: &Vec<AuthorityRow>,
        item: [u8; 16],
        revision: [u8; 16],
        body: &Body,
        committed_at_us: i64,
    ) -> (r: Result<PlannedEvent, HumanCommitError>)
        ensures
            r is Ok <==> body.object_manifest_digest is Some && plannable(
                current_seq,
                views(events@),
                revision_kinds(),
            ),
            r is Ok ==> planned_behind(
                r->Ok_0,
                *self,
                event_id,
                current_seq,
                views(events@),
                revision_kinds(),
                "item-revision"@,
                item,
                restored_body(revision, committed_at_us, body.object_manifest_digest->0),
            ),
            r is Err ==> r->Err_0 == (if body.object_manifest_digest is None {
                HumanCommitError::BodyChanged
            } else {
                HumanCommitError::InvalidCommand
            }),
    {
        let object_digest = match body.object_manifest_digest {
            Some(d) => d,
            None => {
                return Err(HumanCommitError::BodyChanged);
            },
        };
        let kinds: [&'static str; 1] = ["item-revision"];
        assert(kinds@ =~= revision_kinds());
        match self.plan(
            event_id,
            current_seq,
            events,
            &kinds,
            "item-revision",
            item,
            restored(revision, committed_at_us, object_digest),
        ) {
            Ok(p) => Ok(p),
            Err(_) => Err(HumanCommitError::InvalidCommand),
        }
    }

    /// Plans the lifecycle event of a restore from history, behind the revision
    /// and the earlier lifecycle events.
    pub fn plan_restore(
        &self,
        event_id: [u8; 16],
        current_seq: i64,
        events: &Vec<AuthorityRow>,
        item: [u8; 16],
        lifecycle_body: &[u8],
    ) -> (r: Result<PlannedEvent, HumanCommitError>)
        ensures
            r is Ok <==> plannable(current_seq, views(events@), lifecycle_kinds()),
            r is Ok ==> planned_behind(
                r->Ok_0,
                *self,
                event_id,
                current_seq,
                views(events@),
                lifecycle_kinds(),
                "restore"@,
                item,
                lifecycle_body@,
            ),
            r is Err ==> r->Err_0 is InvalidCommand,
    {
        let kinds: [&'static str; 4] = ["trash", "restore", "purge-item", "purge-revisions"];
        assert(kinds@ =~= lifecycle_kinds());
        self.plan(
            event_id,
            current_seq,
            events,
            &kinds,
            "restore",
            item,
            slice_to_vec(lifecycle_body),
        )
    }

    /// The head after the chain; an import without a head before it must have
    /// written something.
    pub fn finish(&self) -> (r: Result<[u8; 32], HumanCommitError>)
        ensures
            match self.previous {
                Some(d) => r == Ok::<[u8; 32], HumanCommitError>(d),
                None => r is Err && r->Err_0 is BodyChanged,
            },
    {
        match self.previous {
            Some(d) => Ok(d),
            None => Err(HumanCommitError::BodyChanged),
        }
    }
}

/// Whether so many items are staged as the report of an import says.
pub fn items_complete(batch: &ImportBatch, items: usize) -> (r: bool)
    ensures
        r == (items == batch.report@.new_items + batch.report@.replaced),
{
    let new_items: usize = batch.report.new_items();
    new_items <= items && batch.report.replaced() == items - new_items
}

/// What the commit of an import does next: write the revision of an item,
/// withdraw the credential of the item it replaced, or end.
#[derive(Clone, Copy, Debug, PartialEq, Eq, Structural)]
pub enum ImportAction {
    Revise(usize),
    Withdraw(usize),
    Finish,
}

/// How far the commit of an import is.
#[derive(Clone, Copy, Debug, PartialEq, Eq, Structural)]
pub struct ImportProgress {
    pub item: usize,
    pub revised: bool,
}

/// What the commit of an import does next.
pub open spec fn import_action(items: Seq<ImportItemModel>, at: ImportProgress) -> ImportAction {
    if at.item >= items.len() {
        ImportAction::Finish
    } else if at.revised {
        ImportAction::Withdraw(at.item)
    } else {
        ImportAction::Revise(at.item)
    }
}

/// Where the commit of an import is behind its next event: a replacement is
/// followed by a withdrawal, everything else by the next item.
pub open spec fn import_after(items: Seq<ImportItemModel>, at: ImportProgress) -> ImportProgress {
    if at.item >= items.len() {
        at
    } else if !at.revised && items[at.item as int].replacement {
        ImportProgress { item: at.item, revised: true }
    } else {
        ImportProgress { item: (at.item + 1) as usize, revised: false }
    }
}

/// How many events an import still commits.
pub open spec fn import_events_left(items: Seq<ImportItemModel>, at: ImportProgress) -> nat
    decreases items.len() - at.item, if at.revised { 0nat } else { 1nat },
    when items.len() <= usize::MAX
{
    if at.item >= items.len() {
        0
    } else {
        1 + import_events_left(items, import_after(items, at))
    }
}

/// How many items from `i` on replace one.
pub open spec fn replacements(items: Seq<ImportItemModel>, i: int) -> nat
    decreases items.len() - i,
{
    if i < 0 || i >= items.len() {
        0
    } else {
        replacements(items, i + 1) + (if items[i].replacement {
            1nat
        } else {
            0
        })
    }
}

/// An import commits one event for each item and one more for each replaced
/// one.
pub proof fn lemma_import_events(items: Seq<ImportItemModel>, i: usize)
    requires
        i <= items.len() <= usize::MAX,
    ensures
        import_events_left(items, ImportProgress { item: i, revised: false }) == items.len() - i
            + replacements(items, i as int),
    decreases items.len() - i,
{
    if i < items.len() {
        let at = ImportProgress { item: i, revised: false };
        let next = import_after(items, at);
        lemma_import_events(items, (i + 1) as usize);
        assert(import_events_left(items, at) == 1 + import_events_left(items, next));
        if items[i as int].replacement {
            assert(import_after(items, next) == (ImportProgress {
                item: (i + 1) as usize,
                revised: false,
            }));
            assert(import_events_left(items, next) == 1 + import_events_left(
                items,
                import_after(items, next),
            ));
        }
    }
}

impl ImportProgress {
    /// At the first item.
    pub fn new() -> (r: ImportProgress)
        ensures
            r == (ImportProgress { item: 0, revised: false }),
    {
        ImportProgress { item: 0, revised: false }
    }

    /// What to do next.
    pub fn action(&self, items: &Vec<ImportItem>) -> (r: ImportAction)
        ensures
            r == import_action(views(items@), *self),
    {
        if self.item >= items.len() {
            ImportAction::Finish
        } else if self.revised {
            ImportAction::Withdraw(self.item)
        } else {
            ImportAction::Revise(self.item)
        }
    }

    /// Goes behind the event that was just written.
    pub fn advance(&mut self, items: &Vec<ImportItem>)
        ensures
            *final(self) == import_after(views(items@), *old(self)),
    {
        if self.item < items.len() {
            let ghost models = views(items@);
            assert(models[self.item as int] == items@[self.item as int]@);
            if !self.revised && items[self.item].replacement {
                self.revised = true;
            } else {
                self.item = self.item + 1;
                self.revised = false;
            }
        }
    }

    /// The transaction under which the next event is stored: the first event
    /// has that of the command, the others one of their own.
    pub fn event_transaction(&self, command: [u8; 16], own: [u8; 16]) -> (r: [u8; 16])
        ensures
            r == (if self.item == 0 && !self.revised {
                command
            } else {
                own
            }),
    {
        if self.item == 0 && !self.revised {
            command
        } else {
            own
        }
    }
}

/// An item of a backup that is to be restored.
pub struct BackupRestoreItem {
    pub target_item: [u8; 16],
    pub visible_revision: [u8; 16],
    pub kind: String,
    pub status: String,
}

/// A revision of a backup that is to be restored, with what its opened package
/// and the stored streams say.
pub struct RestoredRevision {
    pub target_revision: [u8; 16],
    pub modified_at_us: i64,
    pub kind: String,
    pub object_digest: [u8; 32],
    pub opened_item: [u8; 16],
    pub opened_revision: [u8; 16],
    pub opened_modified_at: i64,
    pub opened_kind: RecordKind,
    pub record_kind: RecordKind,
    pub record_files: usize,
    pub graph_digest: [u8; 32],
    pub stream_count: i64,
}

/// Whether a staged revision is what it was staged as.
pub open spec fn revision_unchanged(item: BackupRestoreItem, v: RestoredRevision) -> bool {
    &&& v.opened_item == item.target_item
    &&& v.opened_revision == v.target_revision
    &&& v.opened_modified_at == v.modified_at_us
    &&& kind_name(v.record_kind) == v.kind@
    &&& v.kind@ == item.kind@
    &&& v.record_kind == v.opened_kind
    &&& v.graph_digest == v.object_digest
    &&& v.stream_count == v.record_files
}

/// Whether a staged revision is what it was staged as.
fn is_unchanged(item: &BackupRestoreItem, v: &RestoredRevision) -> (r: bool)
    ensures
        r == revision_unchanged(*item, *v),
{
    same_array(&v.opened_item, &item.target_item) && same_array(
        &v.opened_revision,
        &v.target_revision,
    ) && v.opened_modified_at == v.modified_at_us && same_str(
        v.record_kind.name(),
        v.kind.as_str(),
    ) && same_str(v.kind.as_str(), item.kind.as_str()) && v.record_kind == v.opened_kind
        && same_array(&v.graph_digest, &v.object_digest) && v.stream_count >= 0
        && v.stream_count as u64 == v.record_files as u64
}

/// An item of a backup with its revisions; `taken` tells whether the vault has
/// or had an item of that identifier.
pub struct RestoredItem {
    pub taken: bool,
    pub item: BackupRestoreItem,
    pub revisions: Vec<RestoredRevision>,
}

/// What is wrong with a staged item, if anything.
pub open spec fn restored_verdict(x: RestoredItem) -> Result<(), HumanCommitError> {
    if x.taken {
        Err(HumanCommitError::StateChanged)
    } else if (exists|i: int|
        0 <= i < x.revisions@.len() && (#[trigger] x.revisions@[i]).target_revision
            == x.item.visible_revision) && (forall|i: int|
        0 <= i < x.revisions@.len() ==> revision_unchanged(x.item, #[trigger] x.revisions@[i])) {
        Ok(())
    } else {
        Err(HumanCommitError::BodyChanged)
    }
}

/// What is wrong with a staged item, if anything.
fn check_restored(x: &RestoredItem) -> (r: Result<(), HumanCommitError>)
    ensures
        r == restored_verdict(*x),
{
    if x.taken {
        return Err(HumanCommitError::StateChanged);
    }
    let mut shown = false;
    let mut i: usize = 0;
    while i < x.revisions.len()
        invariant
            i <= x.revisions@.len(),
            !x.taken,
            shown == (exists|j: int|
                0 <= j < i && (#[trigger] x.revisions@[j]).target_revision
                    == x.item.visible_revision),
            forall|j: int|
                0 <= j < i ==> revision_unchanged(x.item, #[trigger] x.revisions@[j]),
        decreases x.revisions@.len() - i,
    {
        if !is_unchanged(&x.item, &x.revisions[i]) {
            assert(!revision_unchanged(x.item, x.revisions@[i as int]));
            return Err(HumanCommitError::BodyChanged);
        }
        if same_array(&x.revisions[i].target_revision, &x.item.visible_revision) {
            assert(x.revisions@[i as int].target_revision == x.item.visible_revision);
            shown = true;
        }
        i += 1;
    }
    if shown {
        Ok(())
    } else {
        Err(HumanCommitError::BodyChanged)
    }
}

/// What is wrong with the first `n` staged items, if anything; otherwise how
/// many revisions they have.
pub open spec fn restored_total(items: Seq<RestoredItem>, n: int) -> Result<
    int,
    HumanCommitError,
>
    decreases n,
{
    if n <= 0 {
        Ok(0)
    } else {
        match restored_total(items, n - 1) {
            Ok(total) => match restored_verdict(items[n - 1]) {
                Ok(()) => Ok(total + items[n - 1].revisions@.len()),
                Err(e) => Err(e),
            },
            Err(e) => Err(e),
        }
    }
}

/// A failure at one item is the failure of all longer lists.
proof fn lemma_restored_fail(items: Seq<RestoredItem>, i: int, n: int)
    requires
        0 <= i <= n,
        restored_total(items, i) is Err,
    ensures
        restored_total(items, n) == restored_total(items, i),
    decreases n - i,
{
    if i < n {
        lemma_restored_fail(items, i, n - 1);
    }
}

/// What is wrong with a staged batch, if anything: first its size and digest,
/// then each item, then the number of revisions.
pub open spec fn restore_batch_verdict(
    item_count: nat,
    revision_count: nat,
    declared: [u8; 32],
    actual: [u8; 32],
    items: Seq<RestoredItem>,
) -> Result<(), HumanCommitError> {
    if items.len() != item_count || actual != declared {
        Err(HumanCommitError::BodyChanged)
    } else {
        match restored_total(items, items.len() as int) {
            Ok(total) => if total == revision_count {
                Ok(())
            } else {
                Err(HumanCommitError::BodyChanged)
            },
            Err(e) => Err(e),
        }
    }
}

/// Checks a staged batch before any of it is written.
pub fn check_restore_batch(
    item_count: usize,
    revision_count: usize,
    declared: &[u8; 32],
    actual: &[u8; 32],
    items: &Vec<RestoredItem>,
) -> (r: Result<(), HumanCommitError>)
    ensures
        r == restore_batch_verdict(
            item_count as nat,
            revision_count as nat,
            *declared,
            *actual,
            items@,
        ),
{
    if items.len() != item_count || !same_array(actual, declared) {
        return Err(HumanCommitError::BodyChanged);
    }
    let mut left: usize = revision_count;
    let mut over = false;
    let mut i: usize = 0;
    while i < items.len()
        invariant
            i <= items@.len() == item_count,
            *actual == *declared,
            restored_total(items@, i as int) is Ok,
            !over ==> restored_total(items@, i as int)->Ok_0 == revision_count - left,
            over ==> restored_total(items@, i as int)->Ok_0 > revision_count,
        decreases items@.len() - i,
    {
        match check_restored(&items[i]) {
            Ok(()) => {},
            Err(e) => {
                proof {
                    lemma_restored_fail(items@, i + 1, items@.len() as int);
                }
                return Err(e);
            },
        }
        let more: usize = items[i].revisions.len();
        if !over {
            if more > left {
                over = true;
            } else {
                left -= more;
            }
        }
        i += 1;
    }
    if !over && left == 0 {
        Ok(())
    } else {
        Err(HumanCommitError::BodyChanged)
    }
}

/// What the commit of a restored backup does next: write a revision of an item,
/// store the item behind its revisions, put it into the trash, or end.
#[derive(Clone, Copy, Debug, PartialEq, Eq, Structural)]
pub enum RestoreAction {
    Revise(usize, usize),
    Store(usize),
    Trash(usize),
    Finish,
}

/// How far the commit of a restored backup is: at a revision of an item, or
/// behind the stored item.
#[derive(Clone, Copy, Debug, PartialEq, Eq, Structural)]
pub struct RestoreProgress {
    pub item: usize,
    pub revision: usize,
    pub stored: bool,
}

/// What the commit of a restored backup does next.
pub open spec fn restore_action(items: Seq<RestoredItem>, at: RestoreProgress) -> RestoreAction {
    if at.item >= items.len() {
        RestoreAction::Finish
    } else if at.stored {
        RestoreAction::Trash(at.item)
    } else if at.revision < items[at.item as int].revisions@.len() {
        RestoreAction::Revise(at.item, at.revision)
    } else {
        RestoreAction::Store(at.item)
    }
}

/// Where the commit of a restored backup is behind its next action: all
/// revisions of an item, the item, and its trash event where it was in the
/// trash, before the next item.
pub open spec fn restore_after(items: Seq<RestoredItem>, at: RestoreProgress) -> RestoreProgress {
    let next = RestoreProgress { item: (at.item + 1) as usize, revision: 0, stored: false };
    match restore_action(items, at) {
        RestoreAction::Revise(item, revision) => RestoreProgress {
            item,
            revision: (revision + 1) as usize,
            stored: false,
        },
        RestoreAction::Store(item) => if items[item as int].item.status@ == "trash"@ {
            RestoreProgress { stored: true, ..at }
        } else {
            next
        },
        RestoreAction::Trash(_) => next,
        RestoreAction::Finish => at,
    }
}

/// How many events the items from `i` on commit: one for each revision, and one
/// for each item in the trash.
pub open spec fn restore_events(items: Seq<RestoredItem>, i: int) -> nat
    decreases items.len() - i,
{
    if i < 0 || i >= items.len() {
        0
    } else {
        items[i].revisions@.len() + (if items[i].item.status@ == "trash"@ {
            1nat
        } else {
            0
        }) + restore_events(items, i + 1)
    }
}

/// How many events a restored backup still commits.
pub open spec fn restore_events_left(items: Seq<RestoredItem>, at: RestoreProgress) -> nat {
    if at.item >= items.len() {
        0
    } else {
        let here = items[at.item as int];
        restore_events(items, at.item + 1) + (if at.stored {
            1int
        } else {
            here.revisions@.len() - at.revision + (if here.item.status@ == "trash"@ {
                1int
            } else {
                0
            })
        }) as nat
    }
}

/// Every revision and every trash event of a restored backup is one event, no
/// other action is one, and at the end none is left.
pub proof fn lemma_restore_events(items: Seq<RestoredItem>, at: RestoreProgress)
    requires
        items.len() <= usize::MAX,
        at.item < items.len() ==> at.revision <= items[at.item as int].revisions@.len()
            <= usize::MAX,
    ensures
        restore_events_left(items, RestoreProgress { item: 0, revision: 0, stored: false })
            == restore_events(items, 0),
        restore_action(items, at) is Finish ==> restore_events_left(items, at) == 0,
        restore_action(items, at) is Revise || restore_action(items, at) is Trash
            ==> restore_events_left(items, at) == restore_events_left(
            items,
            restore_after(items, at),
        ) + 1,
        restore_action(items, at) is Store ==> restore_events_left(items, at)
            == restore_events_left(items, restore_after(items, at)),
{
}

/// The events of a restored backup: revisions item by item, each behind its
/// siblings and the head, at ascending times.
pub struct RestoreChain {
    pub issuer: Issuer,
    pub previous: Option<[u8; 32]>,
    pub ordinal: i64,
    pub first: bool,
    pub siblings: Vec<[u8; 32]>,
    pub at: RestoreProgress,
}

impl RestoreChain {
    /// A chain behind the current head.
    pub fn new(issuer: Issuer, head: Option<[u8; 32]>) -> (r: RestoreChain)
        ensures
            r.issuer == issuer,
            r.previous == head,
            r.ordinal == 0,
            r.first,
            r.siblings@ == Seq::<[u8; 32]>::empty(),
            r.at == (RestoreProgress { item: 0, revision: 0, stored: false }),
    {
        RestoreChain {
            issuer,
            previous: head,
            ordinal: 0,
            first: true,
            siblings: Vec::new(),
            at: RestoreProgress { item: 0, revision: 0, stored: false },
        }
    }

    /// What to do next.
    pub fn action(&self, items: &Vec<RestoredItem>) -> (r: RestoreAction)
        ensures
            r == restore_action(items@, self.at),
    {
        if self.at.item >= items.len() {
            RestoreAction::Finish
        } else if self.at.stored {
            RestoreAction::Trash(self.at.item)
        } else if self.at.revision < items[self.at.item].revisions.len() {
            RestoreAction::Revise(self.at.item, self.at.revision)
        } else {
            RestoreAction::Store(self.at.item)
        }
    }

    /// Goes behind the action that was just done. The revisions of the next
    /// item do not follow those of this one.
    pub fn advance(&mut self, items: &Vec<RestoredItem>)
        ensures
            final(self).at == restore_after(items@, old(self).at),
            final(self).siblings@ == (if final(self).at.item == old(self).at.item {
                old(self).siblings@
            } else {
                Seq::<[u8; 32]>::empty()
            }),
            final(self).issuer == old(self).issuer,
            final(self).previous == old(self).previous,
            final(self).ordinal == old(self).ordinal,
            final(self).first == old(self).first,
    {
        let leave = match self.action(items) {
            RestoreAction::Revise(item, revision) => {
                assert(items@[item as int].revisions.len() <= usize::MAX);
                self.at.revision = revision + 1;
                false
            },
            RestoreAction::Store(item) => if same_str(items[item].item.status.as_str(), "trash") {
                self.at.stored = true;
                false
            } else {
                true
            },
            RestoreAction::Trash(_) => true,
            RestoreAction::Finish => false,
        };
        if leave {
            assert(items.len() <= usize::MAX);
            self.at = RestoreProgress { item: self.at.item + 1, revision: 0, stored: false };
            self.siblings = Vec::new();
        }
    }

    /// Counts the next event.
    fn count(&mut self) -> (r: Result<(), HumanCommitError>)
        ensures
            r is Ok <==> old(self).ordinal < i64::MAX,
            r is Ok ==> final(self).ordinal == old(self).ordinal + 1,
            r is Err ==> r->Err_0 is InvalidCommand && final(self).ordinal == old(self).ordinal,
            final(self).issuer == old(self).issuer,
            final(self).previous == old(self).previous,
            final(self).first == old(self).first,
            final(self).siblings == old(self).siblings,
            final(self).at == old(self).at,
    {
        if self.ordinal == i64::MAX {
            return Err(HumanCommitError::InvalidCommand);
        }
        self.ordinal = self.ordinal + 1;
        Ok(())
    }

    /// Plans the event of the next revision.
    pub fn plan_revision(
        &mut self,
        event_id: [u8; 16],
        current_seq: i64,
        item: [u8; 16],
        revision: [u8; 16],
        object_digest: [u8; 32],
        committed_at_us: i64,
    ) -> (r: Result<PlannedEvent, HumanCommitError>)
        requires
            old(self).ordinal >= 0,
        ensures
            final(self).issuer == old(self).issuer,
            final(self).previous == old(self).previous,
            final(self).first == old(self).first,
            final(self).siblings == old(self).siblings,
            final(self).at == old(self).at,
            final(self).ordinal >= old(self).ordinal,
            r is Ok <==> old(self).ordinal < i64::MAX && committed_at_us + old(self).ordinal + 1
                <= i64::MAX && seq_extends(current_seq),
            r is Ok ==> final(self).ordinal == old(self).ordinal + 1 && planned(
                r->Ok_0,
                old(self).issuer,
                event_id,
                current_seq,
                old(self).previous,
                old(self).siblings@,
                "item-revision"@,
                item,
                1,
                restored_body(
                    revision,
                    (committed_at_us + old(self).ordinal + 1) as i64,
                    object_digest,
                ),
            ),
            r is Err ==> r->Err_0 is InvalidCommand,
    {
        match self.count() {
            Ok(()) => {},
            Err(e) => {
                return Err(e);
            },
        }
        if committed_at_us > i64::MAX - self.ordinal {
            return Err(HumanCommitError::InvalidCommand);
        }
        let modified_at: i64 = committed_at_us + self.ordinal;
        plan_event(
            &self.issuer,
            event_id,
            current_seq,
            &self.previous,
            &self.siblings,
            "item-revision",
            item,
            1,
            restored(revision, modified_at, object_digest),
        )
    }

    /// Records the digest of a revision event.
    pub fn record_revision(&mut self, digest: [u8; 32])
        ensures
            final(self).issuer == old(self).issuer,
            final(self).previous == Some(digest),
            final(self).ordinal == old(self).ordinal,
            !final(self).first,
            final(self).siblings@ == old(self).siblings@.push(digest),
            final(self).at == old(self).at,
    {
        self.siblings.push(digest);
        self.previous = Some(digest);
        self.first = false;
    }

    /// Plans the event that puts the item into the trash.
    pub fn plan_trash(&mut self, event_id: [u8; 16], current_seq: i64, item: [u8; 16]) -> (r:
        Result<PlannedEvent, HumanCommitError>)
        ensures
            final(self).issuer == old(self).issuer,
            final(self).previous == old(self).previous,
            final(self).first == old(self).first,
            final(self).siblings == old(self).siblings,
            final(self).at == old(self).at,
            final(self).ordinal >= old(self).ordinal,
            r is Ok <==> old(self).ordinal < i64::MAX && seq_extends(current_seq),
            r is Ok ==> final(self).ordinal == old(self).ordinal + 1 && planned(
                r->Ok_0,
                old(self).issuer,
                event_id,
                current_seq,
                old(self).previous,
                old(self).siblings@,
                "trash"@,
                item,
                1,
                lifecycle_body_bytes(Seq::empty()),
            ),
            r is Err ==> r->Err_0 is InvalidCommand,
    {
        match self.count() {
            Ok(()) => {},
            Err(e) => {
                return Err(e);
            },
        }
        let none: Vec<[u8; 32]> = Vec::new();
        assert(none@ =~= Seq::<[u8; 32]>::empty());
        plan_event(
            &self.issuer,
            event_id,
            current_seq,
            &self.previous,
            &self.siblings,
            "trash",
            item,
            1,
            encode_lifecycle_body(&none),
        )
    }

    /// Records the digest of a trash event.
    pub fn record_trash(&mut self, digest: [u8; 32])
        ensures
            final(self).issuer == old(self).issuer,
            final(self).previous == Some(digest),
            final(self).ordinal == old(self).ordinal,
            !final(self).first,
            final(self).siblings == old(self).siblings,
            final(self).at == old(self).at,
    {
        self.previous = Some(digest);
        self.first = false;
    }

    /// The transaction under which the next event is stored: the first event
    /// has that of the command, the others one of their own.
    pub fn event_transaction(&self, command: [u8; 16], own: [u8; 16]) -> (r: [u8; 16])
        ensures
            r == (if self.first {
                command
            } else {
                own
            }),
    {
        if self.first {
            command
        } else {
            own
        }
    }

    /// The head after the chain; a batch that wrote nothing on an empty vault
    /// has its own digest for one.
    pub fn finish(&self, object_digest: [u8; 32]) -> (r: [u8; 32])
        ensures
            r == (match self.previous {
                Some(d) => d,
                None => object_digest,
            }),
    {
        match self.previous {
            Some(d) => d,
            None => object_digest,
        }
    }
}

/// The body of an imported revision's event names that revision, when it was
/// committed, the digest of its object, and the revision that it takes the place
/// of where there is one.
pub proof fn lemma_imported_says(
    revision: [u8; 16],
    committed_at_us: i64,
    object_digest: [u8; 32],
    prior: Option<[u8; 16]>,
)
    requires
        imported_body(revision, committed_at_us, object_digest, prior).len() <= u64::MAX,
    ensures
        ({
            let b = next_map(
                Some(imported_body(revision, committed_at_us, object_digest, prior)),
                4,
            );
            let id = next_bytes(next_key(b, "revision_id"@));
            let at = next_int(next_key(after(id), "modified_at"@));
            let digest = next_bytes(next_key(after(at), "manifest_digest"@));
            let previous = next_ids(next_key(after(digest), "previous_revisions"@));
            &&& id is Some && (id->0).0 == revision@
            &&& at is Some && (at->0).0 == committed_at_us
            &&& digest is Some && (digest->0).0 == object_digest@
            &&& previous is Some
            &&& prior is None ==> (previous->0).0.len() == 0
            &&& prior matches Some(p) ==> (previous->0).0.len() == 1 && (previous->0).0[0] == p
            &&& after(previous) is Some && (after(previous)->0).len() == 0
        }),
{
    lemma_import_revision_body_fields(
        ImportRevisionModel {
            revision,
            modified_at: committed_at_us,
            manifest_digest: object_digest,
            previous_revisions: prior_list(prior),
        },
    );
}

/// The body of a restored revision's event names that revision, when it was
/// modified and the digest of its object, and no part of the audit.
pub proof fn lemma_restored_says(revision: [u8; 16], modified_at: i64, object_digest: [u8; 32])
    requires
        restored_body(revision, modified_at, object_digest).len() <= u64::MAX,
    ensures
        ({
            let b = next_map(Some(restored_body(revision, modified_at, object_digest)), 5);
            let id = next_optional_bytes(next_key(b, "revision_id"@));
            let at = next_int(next_key(after(id), "modified_at"@));
            let generation = next_optional_uint(next_key(after(at), "audit_generation"@));
            let through = next_optional_uint(next_key(after(generation), "audit_through_seq"@));
            let digest = next_optional_bytes(next_key(after(through), "object_manifest_digest"@));
            &&& id is Some && (id->0).0 == Some(revision@)
            &&& at is Some && (at->0).0 == modified_at
            &&& generation is Some && (generation->0).0 is None
            &&& through is Some && (through->0).0 is None
            &&& digest is Some && (digest->0).0 == Some(object_digest@)
            &&& after(digest) is Some && (after(digest)->0).len() == 0
        }),
{
    lemma_legacy_event_body_fields(
        LegacyEventBody {
            revision: Some(revision),
            modified_at,
            audit_generation: None,
            audit_through_seq: None,
            object_manifest_digest: Some(object_digest),
        },
    );
}

/// Which earlier events of an item count: those that wrote a revision, those
/// that changed whether it is on offer, and those that changed its place.
pub proof fn lemma_event_kinds(kind: Seq<char>)
    ensures
        kind_among(kind, revision_kinds()) <==> kind == "item-revision"@,
        kind_among(kind, availability_kinds()) <==> kind == "enable"@ || kind == "disable"@,
        kind_among(kind, lifecycle_kinds()) <==> kind == "trash"@ || kind == "restore"@ || kind
            == "purge-item"@ || kind == "purge-revisions"@,
{
    let a = revision_kinds();
    let b = availability_kinds();
    let c = lifecycle_kinds();
    assert(a[0]@ == "item-revision"@);
    assert(b[0]@ == "enable"@);
    assert(b[1]@ == "disable"@);
    assert(c[0]@ == "trash"@);
    assert(c[1]@ == "restore"@);
    assert(c[2]@ == "purge-item"@);
    assert(c[3]@ == "purge-revisions"@);
}

/// A planned event of a batch follows the last one of the chain, is of the kind
/// and about the item that it was planned for, and stands behind the chain's
/// head and exactly those earlier events whose kinds count.
pub proof fn lemma_planned_behind(
    p: PlannedEvent,
    chain: EventChain,
    event_id: [u8; 16],
    current_seq: i64,
    events: Seq<AuthorityRowModel>,
    kinds: Seq<&'static str>,
    kind: Seq<char>,
    subject: [u8; 16],
    body: Seq<u8>,
    digest: [u8; 32],
)
    requires
        planned_behind(p, chain, event_id, current_seq, events, kinds, kind, subject, body),
        seq_extends(current_seq),
        p.event@.len() <= u64::MAX,
    ensures
        p.event_id == event_id,
        p.seq == current_seq + 1,
        p.previous == chain.previous,
        p.kind@ == kind,
        p.subject == subject,
        p.subject_generation == 1,
        header_at(digest, p.event@) == Some(
            (
                HeaderModel {
                    digest,
                    seq: (current_seq + 1) as u64,
                    previous: chain.previous,
                    parents: p.parents@,
                    kind,
                    subject,
                    subject_generation: 1,
                },
                body,
            ),
        ),
        forall|x: [u8; 32]| #[trigger]
            p.parents@.contains(x) <==> (exists|i: int|
                0 <= i < events.len() && (#[trigger] events[i]).digest == x@ && kind_among(
                    events[i].kind,
                    kinds,
                )) || chain.previous == Some(x),
{
    let specific = choose|specific: Seq<[u8; 32]>|
        digests_of(events, kinds, events.len() as int) == Some(#[trigger] digest_bytes(specific))
            && planned(
            p,
            chain.issuer,
            event_id,
            current_seq,
            chain.previous,
            specific,
            kind,
            subject,
            1,
            body,
        );
    lemma_event_says(
        p,
        chain.issuer,
        event_id,
        current_seq,
        chain.previous,
        specific,
        kind,
        subject,
        1,
        body,
        digest,
    );
    let all = digest_bytes(specific);
    assert forall|x: [u8; 32]| #[trigger] specific.contains(x) <==> (exists|i: int|
        0 <= i < events.len() && (#[trigger] events[i]).digest == x@ && kind_among(
            events[i].kind,
            kinds,
        )) by {
        lemma_digests_taken(events, kinds, events.len() as int, x@);
        if specific.contains(x) {
            let i = choose|i: int| 0 <= i < specific.len() && specific[i] == x;
            assert(all[i] == x@);
            assert(all.contains(x@));
        }
        if all.contains(x@) {
            let i = choose|i: int| 0 <= i < all.len() && all[i] == x@;
            assert(all[i] == specific[i]@);
            lemma_same_array(specific[i], x);
            assert(specific.contains(x));
        }
    }
}

/// An import revises its items in their order, and withdraws each that takes the
/// place of one before it goes on to the next.
pub proof fn lemma_import_steps(items: Seq<ImportItemModel>, i: usize)
    requires
        i < items.len() <= usize::MAX,
    ensures
        ({
            let at = ImportProgress { item: i, revised: false };
            let revised = ImportProgress { item: i, revised: true };
            let next = ImportProgress { item: (i + 1) as usize, revised: false };
            &&& import_action(items, at) == ImportAction::Revise(i)
            &&& items[i as int].replacement ==> import_after(items, at) == revised
            &&& !items[i as int].replacement ==> import_after(items, at) == next
            &&& import_action(items, revised) == ImportAction::Withdraw(i)
            &&& import_after(items, revised) == next
            &&& i + 1 == items.len() ==> import_action(items, next) is Finish
        }),
{
}

/// A revision to restore is as it was when it was staged: of its item, its
/// identifier, its time, its kind and its object, with as many streams as its
/// record has files.
pub proof fn lemma_unchanged(item: BackupRestoreItem, v: RestoredRevision)
    ensures
        revision_unchanged(item, v) <==> v.opened_item == item.target_item && v.opened_revision
            == v.target_revision && v.opened_modified_at == v.modified_at_us && v.opened_kind
            == v.record_kind && kind_name(v.opened_kind) == item.kind@ && v.kind@ == item.kind@
            && v.object_digest == v.graph_digest && v.record_files == v.stream_count,
{
}

/// An item is restored only where no item has its identifier, where the visible
/// revision is among those to restore, and where none of them has changed.
pub proof fn lemma_restored_accepted(x: RestoredItem)
    ensures
        restored_verdict(x) is Ok <==> {
            &&& !x.taken
            &&& exists|i: int|
                0 <= i < x.revisions@.len() && (#[trigger] x.revisions@[i]).target_revision
                    == x.item.visible_revision
            &&& forall|i: int|
                0 <= i < x.revisions@.len() ==> revision_unchanged(
                    x.item,
                    #[trigger] x.revisions@[i],
                )
        },
        x.taken ==> restored_verdict(x) == Err::<(), _>(HumanCommitError::StateChanged),
        !x.taken && restored_verdict(x) is Err ==> restored_verdict(x) == Err::<(), _>(
            HumanCommitError::BodyChanged,
        ),
{
}

/// How many revisions the first items hold together.
pub open spec fn revisions_held(items: Seq<RestoredItem>, n: int) -> int
    decreases n,
{
    if n <= 0 {
        0
    } else {
        revisions_held(items, n - 1) + items[n - 1].revisions@.len()
    }
}

/// The total is that of the revisions, and comes only where each item passes.
proof fn lemma_restored_total(items: Seq<RestoredItem>, n: int)
    requires
        0 <= n <= items.len(),
    ensures
        restored_total(items, n) is Ok <==> forall|i: int|
            0 <= i < n ==> restored_verdict(#[trigger] items[i]) is Ok,
        restored_total(items, n) is Ok ==> restored_total(items, n)->Ok_0 == revisions_held(
            items,
            n,
        ),
    decreases n,
{
    if n > 0 {
        lemma_restored_total(items, n - 1);
        assert(restored_total(items, n) is Ok ==> restored_verdict(items[n - 1]) is Ok);
    }
}

/// A batch is restored only where it holds the items and the revisions that were
/// counted, under the digest that was declared, and each item passes.
pub proof fn lemma_batch_accepted(
    item_count: nat,
    revision_count: nat,
    declared: [u8; 32],
    actual: [u8; 32],
    items: Seq<RestoredItem>,
)
    ensures
        restore_batch_verdict(item_count, revision_count, declared, actual, items) is Ok <==> {
            &&& items.len() == item_count
            &&& declared == actual
            &&& forall|i: int|
                0 <= i < items.len() ==> restored_verdict(#[trigger] items[i]) is Ok
            &&& revisions_held(items, items.len() as int) == revision_count
        },
{
    lemma_restored_total(items, items.len() as int);
}

/// A restoration writes all revisions of an item in their order, then stores the
/// item, then puts it into the trash where it was there, and goes on to the next.
pub proof fn lemma_restore_steps(items: Seq<RestoredItem>, i: usize, r: usize)
    requires
        i < items.len() <= usize::MAX,
        r <= items[i as int].revisions@.len() <= usize::MAX,
    ensures
        ({
            let at = RestoreProgress { item: i, revision: r, stored: false };
            let stored = RestoreProgress { item: i, revision: r, stored: true };
            let next = RestoreProgress { item: (i + 1) as usize, revision: 0, stored: false };
            let all = r == items[i as int].revisions@.len();
            let trashed = items[i as int].item.status@ == "trash"@;
            &&& !all ==> restore_action(items, at) == RestoreAction::Revise(i, r)
            &&& !all ==> restore_after(items, at) == (RestoreProgress {
                item: i,
                revision: (r + 1) as usize,
                stored: false,
            })
            &&& all ==> restore_action(items, at) == RestoreAction::Store(i)
            &&& all && trashed ==> restore_after(items, at) == stored
            &&& all && !trashed ==> restore_after(items, at) == next
            &&& restore_action(items, stored) == RestoreAction::Trash(i)
            &&& restore_after(items, stored) == next
            &&& i + 1 == items.len() ==> restore_action(items, next) is Finish
        }),
{
}

} // verus!

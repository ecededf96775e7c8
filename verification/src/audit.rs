//! The device's audit history: its records, segments and queries.
use crate::bytes::{fixed16, fixed32, same, same_str};
use crate::cbor::{
    bytes_item, int_item, lemma_bytes_within, lemma_int, lemma_map, lemma_null, lemma_text_within,
    lemma_uint, map_head, null_item, optional_bytes_item, take_key, take_map_of,
    take_nullable_text, take_text, text_item, uint_item, Reader, Writer,
};
use crate::command::{PreparedHumanCommand, PreparedModel};
use crate::errors::HumanCommitError;
use crate::lists::{
    after, array_of, array_slice, lemma_array_of, lemma_optional_array, next_fixed, next_int,
    next_key, next_optional, next_uint, opt_array, optional_at, take_digest, take_id,
    take_optional_id, take_optional_text,
};
use crate::ordered::same_array;
use crate::views::views;
use std::collections::HashSet;
use vstd::prelude::*;

verus! {

/// The most bytes a segment of several records stores.
pub const MAX_SEGMENT_BYTES: i64 = 1048576;

/// The most records a segment holds.
pub const MAX_SEGMENT_RECORDS: i64 = 256;

/// The most records one query returns.
pub const MAX_QUERY: usize = 4096;

/// Who acted.
#[derive(Clone, Copy, Debug, PartialEq, Eq, Structural)]
pub enum AuditActorKind {
    Human,
    Agent,
    Custodian,
    System,
}

/// The stored name of an actor kind.
pub open spec fn actor_name(v: AuditActorKind) -> Seq<char> {
    match v {
        AuditActorKind::Human => "human"@,
        AuditActorKind::Agent => "agent"@,
        AuditActorKind::Custodian => "custodian"@,
        AuditActorKind::System => "system"@,
    }
}

/// The one that a stored name stands for.
pub open spec fn actor_of(s: Seq<char>) -> Option<AuditActorKind> {
    if s == "human"@ {
        Some(AuditActorKind::Human)
    } else if s == "agent"@ {
        Some(AuditActorKind::Agent)
    } else if s == "custodian"@ {
        Some(AuditActorKind::Custodian)
    } else if s == "system"@ {
        Some(AuditActorKind::System)
    } else {
        None
    }
}

impl AuditActorKind {
    /// The stored name.
    pub fn name(self) -> (r: &'static str)
        ensures
            r@ == actor_name(self),
    {
        match self {
            AuditActorKind::Human => "human",
            AuditActorKind::Agent => "agent",
            AuditActorKind::Custodian => "custodian",
            AuditActorKind::System => "system",
        }
    }

    /// Reads a stored name.
    pub fn parse(value: &str) -> (r: Result<AuditActorKind, HumanCommitError>)
        ensures
            match actor_of(value@) {
                Some(v) => r == Ok::<AuditActorKind, HumanCommitError>(v),
                None => r == Err::<AuditActorKind,
                    HumanCommitError>(HumanCommitError::InvalidCommand),
            },
    {
        if same_str(value, "human") {
            Ok(AuditActorKind::Human)
        } else if same_str(value, "agent") {
            Ok(AuditActorKind::Agent)
        } else if same_str(value, "custodian") {
            Ok(AuditActorKind::Custodian)
        } else if same_str(value, "system") {
            Ok(AuditActorKind::System)
        } else {
            Err(HumanCommitError::InvalidCommand)
        }
    }
}

/// Every stored name is read back as what it was written for.
pub proof fn lemma_actor_names(v: AuditActorKind)
    ensures
        actor_of(actor_name(v)) == Some(v),
{
    reveal_strlit("human");
    reveal_strlit("agent");
    reveal_strlit("custodian");
    reveal_strlit("system");
    assert("human"@.len() == 5);
    assert("agent"@.len() == 5);
    assert("custodian"@.len() == 9);
    assert("system"@.len() == 6);
    assert("agent"@[0] == 'a');
    assert("human"@[0] == 'h');
}

/// What was done.
#[derive(Clone, Copy, Debug, PartialEq, Eq, Structural)]
pub enum AuditAction {
    HumanUnlock,
    HumanLock,
    Reveal,
    Copy,
    ItemChange,
    AuthorityChange,
    AuthAccepted,
    AuthState,
    AuthUse,
    Import,
    Export,
    Backup,
    Restore,
    AuditPurge,
    ProfileFault,
    Startup,
    Shutdown,
    Recovery,
}

/// The stored name of an action.
pub open spec fn action_name(v: AuditAction) -> Seq<char> {
    match v {
        AuditAction::HumanUnlock => "human_unlock"@,
        AuditAction::HumanLock => "human_lock"@,
        AuditAction::Reveal => "reveal"@,
        AuditAction::Copy => "copy"@,
        AuditAction::ItemChange => "item_change"@,
        AuditAction::AuthorityChange => "authority_change"@,
        AuditAction::AuthAccepted => "auth_accepted"@,
        AuditAction::AuthState => "auth_state"@,
        AuditAction::AuthUse => "auth_use"@,
        AuditAction::Import => "import"@,
        AuditAction::Export => "export"@,
        AuditAction::Backup => "backup"@,
        AuditAction::Restore => "restore"@,
        AuditAction::AuditPurge => "audit_purge"@,
        AuditAction::ProfileFault => "profile_fault"@,
        AuditAction::Startup => "startup"@,
        AuditAction::Shutdown => "shutdown"@,
        AuditAction::Recovery => "recovery"@,
    }
}

/// The one that a stored name stands for.
pub open spec fn action_of(s: Seq<char>) -> Option<AuditAction> {
    if s == "human_unlock"@ {
        Some(AuditAction::HumanUnlock)
    } else if s == "human_lock"@ {
        Some(AuditAction::HumanLock)
    } else if s == "reveal"@ {
        Some(AuditAction::Reveal)
    } else if s == "copy"@ {
        Some(AuditAction::Copy)
    } else if s == "item_change"@ {
        Some(AuditAction::ItemChange)
    } else if s == "authority_change"@ {
        Some(AuditAction::AuthorityChange)
    } else if s == "auth_accepted"@ {
        Some(AuditAction::AuthAccepted)
    } else if s == "auth_state"@ {
        Some(AuditAction::AuthState)
    } else if s == "auth_use"@ {
        Some(AuditAction::AuthUse)
    } else if s == "import"@ {
        Some(AuditAction::Import)
    } else if s == "export"@ {
        Some(AuditAction::Export)
    } else if s == "backup"@ {
        Some(AuditAction::Backup)
    } else if s == "restore"@ {
        Some(AuditAction::Restore)
    } else if s == "audit_purge"@ {
        Some(AuditAction::AuditPurge)
    } else if s == "profile_fault"@ {
        Some(AuditAction::ProfileFault)
    } else if s == "startup"@ {
        Some(AuditAction::Startup)
    } else if s == "shutdown"@ {
        Some(AuditAction::Shutdown)
    } else if s == "recovery"@ {
        Some(AuditAction::Recovery)
    } else {
        None
    }
}

impl AuditAction {
    /// The stored name.
    pub fn name(self) -> (r: &'static str)
        ensures
            r@ == action_name(self),
    {
        match self {
            AuditAction::HumanUnlock => "human_unlock",
            AuditAction::HumanLock => "human_lock",
            AuditAction::Reveal => "reveal",
            AuditAction::Copy => "copy",
            AuditAction::ItemChange => "item_change",
            AuditAction::AuthorityChange => "authority_change",
            AuditAction::AuthAccepted => "auth_accepted",
            AuditAction::AuthState => "auth_state",
            AuditAction::AuthUse => "auth_use",
            AuditAction::Import => "import",
            AuditAction::Export => "export",
            AuditAction::Backup => "backup",
            AuditAction::Restore => "restore",
            AuditAction::AuditPurge => "audit_purge",
            AuditAction::ProfileFault => "profile_fault",
            AuditAction::Startup => "startup",
            AuditAction::Shutdown => "shutdown",
            AuditAction::Recovery => "recovery",
        }
    }

    /// Reads a stored name.
    pub fn parse(value: &str) -> (r: Result<AuditAction, HumanCommitError>)
        ensures
            match action_of(value@) {
                Some(v) => r == Ok::<AuditAction, HumanCommitError>(v),
                None => r == Err::<AuditAction, HumanCommitError>(HumanCommitError::InvalidCommand),
            },
    {
        if same_str(value, "human_unlock") {
            Ok(AuditAction::HumanUnlock)
        } else if same_str(value, "human_lock") {
            Ok(AuditAction::HumanLock)
        } else if same_str(value, "reveal") {
            Ok(AuditAction::Reveal)
        } else if same_str(value, "copy") {
            Ok(AuditAction::Copy)
        } else if same_str(value, "item_change") {
            Ok(AuditAction::ItemChange)
        } else if same_str(value, "authority_change") {
            Ok(AuditAction::AuthorityChange)
        } else if same_str(value, "auth_accepted") {
            Ok(AuditAction::AuthAccepted)
        } else if same_str(value, "auth_state") {
            Ok(AuditAction::AuthState)
        } else if same_str(value, "auth_use") {
            Ok(AuditAction::AuthUse)
        } else if same_str(value, "import") {
            Ok(AuditAction::Import)
        } else if same_str(value, "export") {
            Ok(AuditAction::Export)
        } else if same_str(value, "backup") {
            Ok(AuditAction::Backup)
        } else if same_str(value, "restore") {
            Ok(AuditAction::Restore)
        } else if same_str(value, "audit_purge") {
            Ok(AuditAction::AuditPurge)
        } else if same_str(value, "profile_fault") {
            Ok(AuditAction::ProfileFault)
        } else if same_str(value, "startup") {
            Ok(AuditAction::Startup)
        } else if same_str(value, "shutdown") {
            Ok(AuditAction::Shutdown)
        } else if same_str(value, "recovery") {
            Ok(AuditAction::Recovery)
        } else {
            Err(HumanCommitError::InvalidCommand)
        }
    }
}

/// Every stored name is read back as what it was written for.
pub proof fn lemma_action_names(v: AuditAction)
    ensures
        action_of(action_name(v)) == Some(v),
{
    reveal_strlit("human_unlock");
    reveal_strlit("human_lock");
    reveal_strlit("reveal");
    reveal_strlit("copy");
    reveal_strlit("item_change");
    reveal_strlit("authority_change");
    reveal_strlit("auth_accepted");
    reveal_strlit("auth_state");
    reveal_strlit("auth_use");
    reveal_strlit("import");
    reveal_strlit("export");
    reveal_strlit("backup");
    reveal_strlit("restore");
    reveal_strlit("audit_purge");
    reveal_strlit("profile_fault");
    reveal_strlit("startup");
    reveal_strlit("shutdown");
    reveal_strlit("recovery");
    assert("human_unlock"@.len() == 12);
    assert("human_lock"@.len() == 10);
    assert("reveal"@.len() == 6);
    assert("copy"@.len() == 4);
    assert("item_change"@.len() == 11);
    assert("authority_change"@.len() == 16);
    assert("auth_accepted"@.len() == 13);
    assert("auth_state"@.len() == 10);
    assert("auth_use"@.len() == 8);
    assert("import"@.len() == 6);
    assert("export"@.len() == 6);
    assert("backup"@.len() == 6);
    assert("restore"@.len() == 7);
    assert("audit_purge"@.len() == 11);
    assert("profile_fault"@.len() == 13);
    assert("startup"@.len() == 7);
    assert("shutdown"@.len() == 8);
    assert("recovery"@.len() == 8);
    assert("auth_state"@[0] == 'a');
    assert("human_lock"@[0] == 'h');
    assert("import"@[0] == 'i');
    assert("reveal"@[0] == 'r');
    assert("export"@[0] == 'e');
    assert("backup"@[0] == 'b');
    assert("audit_purge"@[0] == 'a');
    assert("item_change"@[0] == 'i');
    assert("profile_fault"@[0] == 'p');
    assert("auth_accepted"@[0] == 'a');
    assert("startup"@[0] == 's');
    assert("restore"@[0] == 'r');
    assert("shutdown"@[0] == 's');
    assert("auth_use"@[0] == 'a');
    assert("recovery"@[0] == 'r');
}

/// How it ended.
#[derive(Clone, Copy, Debug, PartialEq, Eq, Structural)]
pub enum AuditOutcome {
    Accepted,
    Succeeded,
    Denied,
    Failed,
    Indeterminate,
}

/// The stored name of an outcome.
pub open spec fn outcome_name(v: AuditOutcome) -> Seq<char> {
    match v {
        AuditOutcome::Accepted => "accepted"@,
        AuditOutcome::Succeeded => "succeeded"@,
        AuditOutcome::Denied => "denied"@,
        AuditOutcome::Failed => "failed"@,
        AuditOutcome::Indeterminate => "indeterminate"@,
    }
}

/// The one that a stored name stands for.
pub open spec fn outcome_of(s: Seq<char>) -> Option<AuditOutcome> {
    if s == "accepted"@ {
        Some(AuditOutcome::Accepted)
    } else if s == "succeeded"@ {
        Some(AuditOutcome::Succeeded)
    } else if s == "denied"@ {
        Some(AuditOutcome::Denied)
    } else if s == "failed"@ {
        Some(AuditOutcome::Failed)
    } else if s == "indeterminate"@ {
        Some(AuditOutcome::Indeterminate)
    } else {
        None
    }
}

impl AuditOutcome {
    /// The stored name.
    pub fn name(self) -> (r: &'static str)
        ensures
            r@ == outcome_name(self),
    {
        match self {
            AuditOutcome::Accepted => "accepted",
            AuditOutcome::Succeeded => "succeeded",
            AuditOutcome::Denied => "denied",
            AuditOutcome::Failed => "failed",
            AuditOutcome::Indeterminate => "indeterminate",
        }
    }

    /// Reads a stored name.
    pub fn parse(value: &str) -> (r: Result<AuditOutcome, HumanCommitError>)
        ensures
            match outcome_of(value@) {
                Some(v) => r == Ok::<AuditOutcome, HumanCommitError>(v),
                None => r == Err::<AuditOutcome,
                    HumanCommitError>(HumanCommitError::InvalidCommand),
            },
    {
        if same_str(value, "accepted") {
            Ok(AuditOutcome::Accepted)
        } else if same_str(value, "succeeded") {
            Ok(AuditOutcome::Succeeded)
        } else if same_str(value, "denied") {
            Ok(AuditOutcome::Denied)
        } else if same_str(value, "failed") {
            Ok(AuditOutcome::Failed)
        } else if same_str(value, "indeterminate") {
            Ok(AuditOutcome::Indeterminate)
        } else {
            Err(HumanCommitError::InvalidCommand)
        }
    }
}

/// Every stored name is read back as what it was written for.
pub proof fn lemma_outcome_names(v: AuditOutcome)
    ensures
        outcome_of(outcome_name(v)) == Some(v),
{
    reveal_strlit("accepted");
    reveal_strlit("succeeded");
    reveal_strlit("denied");
    reveal_strlit("failed");
    reveal_strlit("indeterminate");
    assert("accepted"@.len() == 8);
    assert("succeeded"@.len() == 9);
    assert("denied"@.len() == 6);
    assert("failed"@.len() == 6);
    assert("indeterminate"@.len() == 13);
    assert("failed"@[0] == 'f');
    assert("denied"@[0] == 'd');
}

/// An audit input: identifiers and enums only, never a free-form payload.
pub struct AuditEvent {
    actor_kind: AuditActorKind,
    actor_id: Option<[u8; 16]>,
    action: AuditAction,
    outcome: AuditOutcome,
    item_id: Option<[u8; 16]>,
    revision_id: Option<[u8; 16]>,
    attempt_id: Option<[u8; 16]>,
}

/// The contents of a [`AuditEvent`].
pub struct AuditEventModel {
    pub actor_kind: AuditActorKind,
    pub actor_id: Option<[u8; 16]>,
    pub action: AuditAction,
    pub outcome: AuditOutcome,
    pub item_id: Option<[u8; 16]>,
    pub revision_id: Option<[u8; 16]>,
    pub attempt_id: Option<[u8; 16]>,
}

impl View for AuditEvent {
    type V = AuditEventModel;

    closed spec fn view(&self) -> AuditEventModel {
        AuditEventModel {
            actor_kind: self.actor_kind,
            actor_id: self.actor_id,
            action: self.action,
            outcome: self.outcome,
            item_id: self.item_id,
            revision_id: self.revision_id,
            attempt_id: self.attempt_id,
        }
    }
}

impl AuditEvent {
    /// An event that names no item and no attempt.
    pub fn new(
        actor_kind: AuditActorKind,
        actor_id: Option<[u8; 16]>,
        action: AuditAction,
        outcome: AuditOutcome,
    ) -> (r: AuditEvent)
        ensures
            r@ == (AuditEventModel {
                actor_kind,
                actor_id,
                action,
                outcome,
                item_id: None,
                revision_id: None,
                attempt_id: None,
            }),
    {
        AuditEvent {
            actor_kind,
            actor_id,
            action,
            outcome,
            item_id: None,
            revision_id: None,
            attempt_id: None,
        }
    }

    /// The same event about an item.
    pub fn with_item(self, item_id: [u8; 16], revision_id: Option<[u8; 16]>) -> (r: AuditEvent)
        ensures
            r@ == (AuditEventModel { item_id: Some(item_id), revision_id, ..self@ }),
    {
        AuditEvent { item_id: Some(item_id), revision_id, ..self }
    }

    /// The same event about an attempt.
    pub fn with_attempt(self, attempt_id: [u8; 16]) -> (r: AuditEvent)
        ensures
            r@ == (AuditEventModel { attempt_id: Some(attempt_id), ..self@ }),
    {
        AuditEvent { attempt_id: Some(attempt_id), ..self }
    }
}

/// The event of an interactive human action; other actions are not recorded
/// this way.
pub fn interaction_event(action: AuditAction, item: Option<[u8; 16]>) -> (r: Result<
    AuditEvent,
    HumanCommitError,
>)
    ensures
        if action is HumanUnlock || action is Reveal || action is Copy {
            r is Ok && (r->Ok_0)@ == (AuditEventModel {
                actor_kind: AuditActorKind::Human,
                actor_id: None,
                action,
                outcome: AuditOutcome::Succeeded,
                item_id: item,
                revision_id: None,
                attempt_id: None,
            })
        } else {
            r is Err && r->Err_0 is InvalidInput
        },
{
    match action {
        AuditAction::HumanUnlock | AuditAction::Reveal | AuditAction::Copy => {},
        _ => return Err(HumanCommitError::InvalidInput),
    }
    let event = AuditEvent::new(AuditActorKind::Human, None, action, AuditOutcome::Succeeded);
    match item {
        Some(item) => Ok(event.with_item(item, None)),
        None => Ok(event),
    }
}

/// The event of a committed command on an item.
pub fn commit_event(authority: bool, item: [u8; 16], revision: Option<[u8; 16]>) -> (r: AuditEvent)
    ensures
        r@ == (AuditEventModel {
            actor_kind: AuditActorKind::Human,
            actor_id: None,
            action: if authority {
                AuditAction::AuthorityChange
            } else {
                AuditAction::ItemChange
            },
            outcome: AuditOutcome::Succeeded,
            item_id: Some(item),
            revision_id: revision,
            attempt_id: None,
        }),
{
    let action = if authority {
        AuditAction::AuthorityChange
    } else {
        AuditAction::ItemChange
    };
    AuditEvent::new(AuditActorKind::Human, None, action, AuditOutcome::Succeeded).with_item(
        item,
        revision,
    )
}

/// A verified record of the history.
#[derive(Clone, Debug, PartialEq, Eq)]
pub struct AuditRecordView {
    seq: u64,
    actor_kind: AuditActorKind,
    actor_id: Option<[u8; 16]>,
    action: AuditAction,
    outcome: AuditOutcome,
    item_id: Option<[u8; 16]>,
    revision_id: Option<[u8; 16]>,
    attempt_id: Option<[u8; 16]>,
}

/// The contents of a [`AuditRecordView`].
pub struct RecordViewModel {
    pub seq: u64,
    pub actor_kind: AuditActorKind,
    pub actor_id: Option<[u8; 16]>,
    pub action: AuditAction,
    pub outcome: AuditOutcome,
    pub item_id: Option<[u8; 16]>,
    pub revision_id: Option<[u8; 16]>,
    pub attempt_id: Option<[u8; 16]>,
}

impl View for AuditRecordView {
    type V = RecordViewModel;

    closed spec fn view(&self) -> RecordViewModel {
        RecordViewModel {
            seq: self.seq,
            actor_kind: self.actor_kind,
            actor_id: self.actor_id,
            action: self.action,
            outcome: self.outcome,
            item_id: self.item_id,
            revision_id: self.revision_id,
            attempt_id: self.attempt_id,
        }
    }
}

impl AuditRecordView {
    pub fn seq(&self) -> (r: u64)
        ensures
            r == self@.seq,
    {
        self.seq
    }

    pub fn actor_kind(&self) -> (r: AuditActorKind)
        ensures
            r == self@.actor_kind,
    {
        self.actor_kind
    }

    pub fn actor_id(&self) -> (r: Option<&[u8; 16]>)
        ensures
            match self@.actor_id {
                Some(v) => r is Some && *(r->0) == v,
                None => r is None,
            },
    {
        self.actor_id.as_ref()
    }

    pub fn action(&self) -> (r: AuditAction)
        ensures
            r == self@.action,
    {
        self.action
    }

    pub fn outcome(&self) -> (r: AuditOutcome)
        ensures
            r == self@.outcome,
    {
        self.outcome
    }

    pub fn item_id(&self) -> (r: Option<&[u8; 16]>)
        ensures
            match self@.item_id {
                Some(v) => r is Some && *(r->0) == v,
                None => r is None,
            },
    {
        self.item_id.as_ref()
    }

    pub fn revision_id(&self) -> (r: Option<&[u8; 16]>)
        ensures
            match self@.revision_id {
                Some(v) => r is Some && *(r->0) == v,
                None => r is None,
            },
    {
        self.revision_id.as_ref()
    }

    pub fn attempt_id(&self) -> (r: Option<&[u8; 16]>)
        ensures
            match self@.attempt_id {
                Some(v) => r is Some && *(r->0) == v,
                None => r is None,
            },
    {
        self.attempt_id.as_ref()
    }
}

/// A range of records that a purge removed.
#[derive(Clone, Debug, PartialEq, Eq)]
pub struct AuditDiscontinuity {
    first_seq: u64,
    last_seq: u64,
    purge_event_id: [u8; 16],
}

/// The contents of a [`AuditDiscontinuity`].
pub struct GapModel {
    pub first_seq: u64,
    pub last_seq: u64,
    pub purge_event_id: [u8; 16],
}

impl View for AuditDiscontinuity {
    type V = GapModel;

    closed spec fn view(&self) -> GapModel {
        GapModel {
            first_seq: self.first_seq,
            last_seq: self.last_seq,
            purge_event_id: self.purge_event_id,
        }
    }
}

impl AuditDiscontinuity {
    /// A purged range.
    pub fn new(first_seq: u64, last_seq: u64, purge_event_id: [u8; 16]) -> (r: AuditDiscontinuity)
        ensures
            r@ == (GapModel { first_seq, last_seq, purge_event_id }),
    {
        AuditDiscontinuity { first_seq, last_seq, purge_event_id }
    }

    pub fn first_seq(&self) -> (r: u64)
        ensures
            r == self@.first_seq,
    {
        self.first_seq
    }

    pub fn last_seq(&self) -> (r: u64)
        ensures
            r == self@.last_seq,
    {
        self.last_seq
    }

    pub fn purge_event_id(&self) -> (r: &[u8; 16])
        ensures
            *r == self@.purge_event_id,
    {
        &self.purge_event_id
    }
}

/// The answer to a query.
pub struct AuditQuery {
    records: Vec<AuditRecordView>,
    discontinuities: Vec<AuditDiscontinuity>,
    segment_count: usize,
    closed_segment_count: usize,
}

/// The contents of a [`AuditQuery`].
pub struct QueryModel {
    pub records: Seq<RecordViewModel>,
    pub discontinuities: Seq<GapModel>,
    pub segment_count: usize,
    pub closed_segment_count: usize,
}

impl View for AuditQuery {
    type V = QueryModel;

    closed spec fn view(&self) -> QueryModel {
        QueryModel {
            records: views(self.records@),
            discontinuities: views(self.discontinuities@),
            segment_count: self.segment_count,
            closed_segment_count: self.closed_segment_count,
        }
    }
}

impl AuditQuery {
    pub fn records(&self) -> (r: &[AuditRecordView])
        ensures
            views(r@) == self@.records,
    {
        self.records.as_slice()
    }

    pub fn discontinuities(&self) -> (r: &[AuditDiscontinuity])
        ensures
            views(r@) == self@.discontinuities,
    {
        self.discontinuities.as_slice()
    }

    pub fn segment_count(&self) -> (r: usize)
        ensures
            r == self@.segment_count,
    {
        self.segment_count
    }

    pub fn closed_segment_count(&self) -> (r: usize)
        ensures
            r == self@.closed_segment_count,
    {
        self.closed_segment_count
    }
}

/// The range and the number of records that a purge removes.
#[derive(Clone, Copy, Debug, PartialEq, Eq)]
pub struct AuditPurgeScope {
    first_seq: u64,
    last_seq: u64,
    record_count: u64,
}

/// The contents of a [`AuditPurgeScope`].
pub struct PurgeScopeModel {
    pub first_seq: u64,
    pub last_seq: u64,
    pub record_count: u64,
}

impl View for AuditPurgeScope {
    type V = PurgeScopeModel;

    closed spec fn view(&self) -> PurgeScopeModel {
        PurgeScopeModel {
            first_seq: self.first_seq,
            last_seq: self.last_seq,
            record_count: self.record_count,
        }
    }
}

impl AuditPurgeScope {
    pub fn first_seq(&self) -> (r: u64)
        ensures
            r == self@.first_seq,
    {
        self.first_seq
    }

    pub fn last_seq(&self) -> (r: u64)
        ensures
            r == self@.last_seq,
    {
        self.last_seq
    }

    pub fn record_count(&self) -> (r: u64)
        ensures
            r == self@.record_count,
    {
        self.record_count
    }
}

/// A prepared purge and its scope.
pub struct PreparedAuditPurge {
    prepared: PreparedHumanCommand,
    scope: AuditPurgeScope,
}

/// The contents of a [`PreparedAuditPurge`].
pub struct PreparedPurgeModel {
    pub prepared: PreparedModel,
    pub scope: PurgeScopeModel,
}

impl View for PreparedAuditPurge {
    type V = PreparedPurgeModel;

    closed spec fn view(&self) -> PreparedPurgeModel {
        PreparedPurgeModel {
            prepared: self.prepared@,
            scope: self.scope@,
        }
    }
}

impl PreparedAuditPurge {
    /// A prepared purge.
    pub fn new(prepared: PreparedHumanCommand, scope: AuditPurgeScope) -> (r: PreparedAuditPurge)
        ensures
            r@ == (PreparedPurgeModel { prepared: prepared@, scope: scope@ }),
    {
        PreparedAuditPurge { prepared, scope }
    }

    pub fn prepared(&self) -> (r: &PreparedHumanCommand)
        ensures
            r@ == self@.prepared,
    {
        &self.prepared
    }

    pub fn scope(&self) -> (r: &AuditPurgeScope)
        ensures
            r@ == self@.scope,
    {
        &self.scope
    }
}

/// The scope of a purge through a record: the range must end before the newest
/// record and still hold some.
pub fn purge_scope(through_seq: u64, head: Option<i64>, count: i64) -> (r: Result<
    AuditPurgeScope,
    HumanCommitError,
>)
    ensures
        if 0 < through_seq && head is Some && through_seq < head->0 && count > 0 {
            r is Ok && (r->Ok_0)@ == (PurgeScopeModel {
                first_seq: 1,
                last_seq: through_seq,
                record_count: count as u64,
            })
        } else {
            r is Err && r->Err_0 is InvalidInput
        },
{
    check_purge(through_seq, head)?;
    if count <= 0 {
        return Err(HumanCommitError::InvalidInput);
    }
    Ok(AuditPurgeScope { first_seq: 1, last_seq: through_seq, record_count: count as u64 })
}

/// Whether a purge through a record leaves the newest one.
pub fn check_purge(through_seq: u64, head: Option<i64>) -> (r: Result<(), HumanCommitError>)
    ensures
        r == (if 0 < through_seq && head is Some && through_seq < head->0 {
            Ok::<(), HumanCommitError>(())
        } else {
            Err(HumanCommitError::InvalidInput)
        }),
{
    match head {
        Some(head) => if through_seq == 0 || head < 0 || through_seq >= head as u64 {
            Err(HumanCommitError::InvalidInput)
        } else {
            Ok(())
        },
        None => Err(HumanCommitError::InvalidInput),
    }
}

/// Whether a purge through a record replaces an earlier purged range.
pub open spec fn superseded(gap: GapModel, through_seq: u64) -> bool {
    gap.first_seq == 1 && gap.last_seq <= through_seq
}

/// The first `n` purged ranges that a purge through a record keeps.
pub open spec fn kept_gaps(gaps: Seq<GapModel>, n: nat, through_seq: u64) -> Seq<GapModel>
    decreases n,
{
    if n == 0 {
        Seq::empty()
    } else if superseded(gaps[n - 1], through_seq) {
        kept_gaps(gaps, (n - 1) as nat, through_seq)
    } else {
        kept_gaps(gaps, (n - 1) as nat, through_seq).push(gaps[n - 1])
    }
}

/// The purged ranges after a purge through a record.
pub open spec fn gaps_after(gaps: Seq<GapModel>, through_seq: u64, event: [u8; 16]) -> Seq<
    GapModel,
> {
    kept_gaps(gaps, gaps.len(), through_seq).push(
        GapModel { first_seq: 1, last_seq: through_seq, purge_event_id: event },
    )
}

/// The purged ranges after a purge through a record.
pub fn purged_ranges(gaps: Vec<AuditDiscontinuity>, through_seq: u64, event: [u8; 16]) -> (r: Vec<
    AuditDiscontinuity,
>)
    ensures
        views(r@) == gaps_after(views(gaps@), through_seq, event),
{
    let mut out: Vec<AuditDiscontinuity> = Vec::new();
    let mut i: usize = 0;
    let ghost all = views(gaps@);
    while i < gaps.len()
        invariant
            i <= gaps@.len(),
            all == views(gaps@),
            views(out@) == kept_gaps(all, i as nat, through_seq),
        decreases gaps@.len() - i,
    {
        let gap = &gaps[i];
        assert(gap@ == all[i as int]);
        if !(gap.first_seq == 1 && gap.last_seq <= through_seq) {
            let ghost before = out@;
            out.push(
                AuditDiscontinuity {
                    first_seq: gap.first_seq,
                    last_seq: gap.last_seq,
                    purge_event_id: gap.purge_event_id,
                },
            );
            assert(views(out@) =~= views(before).push(gap@));
        }
        i += 1;
    }
    let ghost before = out@;
    out.push(AuditDiscontinuity { first_seq: 1, last_seq: through_seq, purge_event_id: event });
    assert(views(out@) =~= views(before).push(
        GapModel { first_seq: 1, last_seq: through_seq, purge_event_id: event },
    ));
    out
}

/// Whether a purged range holds a sequence number.
pub open spec fn covered(gaps: Seq<GapModel>, seq: int) -> bool {
    exists|i: int|
        0 <= i < gaps.len() && (#[trigger] gaps[i]).first_seq <= seq <= gaps[i].last_seq
            && gaps[i].last_seq <= i64::MAX
}

/// Whether every number up to the newest is stored or was purged.
pub open spec fn complete(head: i64, present: Set<u64>, gaps: Seq<GapModel>) -> bool {
    forall|seq: int|
        1 <= seq <= head ==> #[trigger] present.contains(seq as u64) || covered(gaps, seq)
}

/// Whether a purged range holds a sequence number.
fn in_gap(gaps: &Vec<AuditDiscontinuity>, seq: u64) -> (r: bool)
    ensures
        r == covered(views(gaps@), seq as int),
{
    let mut i: usize = 0;
    while i < gaps.len()
        invariant
            i <= gaps@.len(),
            forall|j: int|
                0 <= j < i ==> !((#[trigger] views(gaps@)[j]).first_seq <= seq <= views(
                    gaps@,
                )[j].last_seq && views(gaps@)[j].last_seq <= i64::MAX),
        decreases gaps@.len() - i,
    {
        let gap = &gaps[i];
        assert(gap@ == views(gaps@)[i as int]);
        if gap.first_seq <= seq && seq <= gap.last_seq && gap.last_seq <= 0x7fff_ffff_ffff_ffff {
            return true;
        }
        i += 1;
    }
    false
}

/// Checks that no record is missing but those that were purged.
pub fn check_complete(head: i64, present: &HashSet<u64>, gaps: &Vec<AuditDiscontinuity>) -> (r:
    Result<(), HumanCommitError>)
    ensures
        r == (if complete(head, present@, views(gaps@)) {
            Ok::<(), HumanCommitError>(())
        } else {
            Err(HumanCommitError::Integrity)
        }),
{
    broadcast use vstd::std_specs::hash::group_hash_axioms;

    if head <= 0 {
        return Ok(());
    }
    let last: u64 = head as u64;
    let mut seq: u64 = 0;
    while seq < last
        invariant
            0 <= seq <= last,
            last == head,
            forall|s: int|
                1 <= s <= seq ==> #[trigger] present@.contains(s as u64) || covered(
                    views(gaps@),
                    s,
                ),
        decreases last - seq,
    {
        seq += 1;
        if !present.contains(&seq) && !in_gap(gaps, seq) {
            let ghost missing = seq as int;
            assert(!present@.contains(missing as u64));
            return Err(HumanCommitError::Integrity);
        }
    }
    Ok(())
}

/// A kept range is one of the ranges.
proof fn lemma_kept(gaps: Seq<GapModel>, n: nat, through_seq: u64, j: int)
    requires
        n <= gaps.len(),
        0 <= j < n,
        !superseded(gaps[j], through_seq),
    ensures
        kept_gaps(gaps, n, through_seq).contains(gaps[j]),
    decreases n,
{
    let before = kept_gaps(gaps, (n - 1) as nat, through_seq);
    if j == n - 1 {
        assert(before.push(gaps[j]).last() == gaps[j]);
    } else {
        lemma_kept(gaps, (n - 1) as nat, through_seq, j);
        let k = choose|k: int| 0 <= k < before.len() && before[k] == gaps[j];
        if !superseded(gaps[n - 1], through_seq) {
            assert(before.push(gaps[n - 1])[k] == gaps[j]);
        }
    }
}

/// A purge keeps the history complete: what it removes, its range accounts for.
pub proof fn lemma_purge_keeps_complete(
    head: i64,
    present: Set<u64>,
    gaps: Seq<GapModel>,
    through_seq: u64,
    event: [u8; 16],
)
    requires
        complete(head, present, gaps),
        through_seq < head,
    ensures
        complete(
            head,
            present.filter(|s: u64| s > through_seq),
            gaps_after(gaps, through_seq, event),
        ),
{
    let left = present.filter(|s: u64| s > through_seq);
    let after = gaps_after(gaps, through_seq, event);
    assert forall|seq: int| 1 <= seq <= head implies #[trigger] left.contains(seq as u64)
        || covered(after, seq) by {
        if seq <= through_seq {
            assert(after.last().first_seq <= seq <= after.last().last_seq);
            assert(after[after.len() - 1] == after.last());
        } else if present.contains(seq as u64) {
        } else {
            let i = choose|i: int|
                0 <= i < gaps.len() && (#[trigger] gaps[i]).first_seq <= seq <= gaps[i].last_seq
                    && gaps[i].last_seq <= i64::MAX;
            lemma_kept(gaps, gaps.len(), through_seq, i);
            let kept = kept_gaps(gaps, gaps.len(), through_seq);
            let k = choose|k: int| 0 <= k < kept.len() && kept[k] == gaps[i];
            assert(after[k] == gaps[i]);
        }
    }
}

/// Where the history of a device stands: the key generation, the newest
/// sequence number and the hash of the newest record.
pub struct AuditState {
    pub generation: i64,
    pub seq: i64,
    pub last_hash: Vec<u8>,
}

/// The sequence number of the next record and the hash it follows.
pub open spec fn next_place(state: Option<AuditState>, generation: u64) -> Result<
    (u64, Seq<u8>),
    HumanCommitError,
> {
    match state {
        Some(s) => if generation > i64::MAX {
            Err(HumanCommitError::InvalidCommand)
        } else if s.generation != generation {
            Ok((1, Seq::new(32, |i: int| 0u8)))
        } else if s.seq == i64::MAX {
            Err(HumanCommitError::InvalidCommand)
        } else if s.last_hash@.len() != 32 {
            Err(HumanCommitError::Integrity)
        } else if s.seq < -1 {
            Err(HumanCommitError::InvalidCommand)
        } else {
            Ok(((s.seq + 1) as u64, s.last_hash@))
        },
        None => Ok((1, Seq::new(32, |i: int| 0u8))),
    }
}

/// The sequence number of the next record and the hash it follows.
pub fn next_record(state: &Option<AuditState>, generation: u64) -> (r: Result<
    (u64, [u8; 32]),
    HumanCommitError,
>)
    ensures
        match next_place(*state, generation) {
            Ok((seq, hash)) => r is Ok && (r->Ok_0).0 == seq && (r->Ok_0).1@ == hash,
            Err(e) => r is Err && r->Err_0 == e,
        },
{
    let zero: [u8; 32] = [0u8; 32];
    assert(zero@ =~= Seq::new(32, |i: int| 0u8));
    match state {
        Some(s) => {
            if generation > 0x7fff_ffff_ffff_ffff {
                return Err(HumanCommitError::InvalidCommand);
            }
            if s.generation != generation as i64 {
                return Ok((1, zero));
            }
            if s.seq == 0x7fff_ffff_ffff_ffff {
                return Err(HumanCommitError::InvalidCommand);
            }
            match fixed32(s.last_hash.as_slice()) {
                Some(hash) => if s.seq < -1 {
                    Err(HumanCommitError::InvalidCommand)
                } else {
                    Ok(((s.seq + 1) as u64, hash))
                },
                None => Err(HumanCommitError::Integrity),
            }
        },
        None => Ok((1, zero)),
    }
}

/// The segment that takes records.
pub struct OpenSegment {
    pub segment_id: Vec<u8>,
    pub record_count: i64,
    pub stored_bytes: i64,
}

/// Where a record goes.
pub enum SegmentChoice {
    /// Into the open segment.
    Continue([u8; 16]),
    /// Into a new segment, after closing the open one.
    Start { close: Option<Vec<u8>>, first_seq: i64, previous_hash: [u8; 32] },
}

/// Whether a segment takes one more record of a length.
pub open spec fn has_room(segment: OpenSegment, record_bytes: i64) -> bool {
    segment.record_count < MAX_SEGMENT_RECORDS && i64::MIN <= segment.stored_bytes + record_bytes
        <= MAX_SEGMENT_BYTES
}

/// Picks the segment of a record: the open one while it has room, and else a
/// new one behind the newest record.
pub fn select_segment(
    open: Option<OpenSegment>,
    record_bytes: i64,
    newest: &Option<(i64, Vec<u8>)>,
) -> (r: Result<SegmentChoice, HumanCommitError>)
    ensures
        if open is Some && has_room(open->0, record_bytes) {
            if (open->0).segment_id@.len() == 16 {
                r is Ok && r->Ok_0 is Continue && (r->Ok_0->Continue_0)@ == (open->0).segment_id@
            } else {
                r is Err && r->Err_0 is Integrity
            }
        } else {
            match *newest {
                Some((seq, hash)) => if seq == i64::MAX {
                    r is Err && r->Err_0 is InvalidCommand
                } else if hash@.len() != 32 {
                    r is Err && r->Err_0 is Integrity
                } else {
                    r is Ok && r->Ok_0 is Start && (r->Ok_0)->first_seq == seq + 1
                        && (r->Ok_0)->previous_hash@ == hash@
                },
                None => r is Ok && r->Ok_0 is Start && (r->Ok_0)->first_seq == 1
                    && (r->Ok_0)->previous_hash@ == Seq::new(32, |i: int| 0u8),
            }
        },
        r is Ok && r->Ok_0 is Start ==> match open {
            Some(o) => (r->Ok_0)->close is Some && ((r->Ok_0)->close->0)@ == o.segment_id@,
            None => (r->Ok_0)->close is None,
        },
{
    let close = match open {
        Some(o) => {
            if o.record_count < MAX_SEGMENT_RECORDS {
                match o.stored_bytes.checked_add(record_bytes) {
                    Some(sum) => if sum <= MAX_SEGMENT_BYTES {
                        return match fixed16(o.segment_id.as_slice()) {
                            Some(id) => Ok(SegmentChoice::Continue(id)),
                            None => Err(HumanCommitError::Integrity),
                        };
                    },
                    None => {},
                }
            }
            Some(o.segment_id)
        },
        None => None,
    };
    match newest {
        Some((seq, hash)) => {
            if *seq == 0x7fff_ffff_ffff_ffff {
                return Err(HumanCommitError::InvalidCommand);
            }
            match fixed32(hash.as_slice()) {
                Some(previous_hash) => Ok(
                    SegmentChoice::Start { close, first_seq: *seq + 1, previous_hash },
                ),
                None => Err(HumanCommitError::Integrity),
            }
        },
        None => {
            let previous_hash: [u8; 32] = [0u8; 32];
            assert(previous_hash@ =~= Seq::new(32, |i: int| 0u8));
            Ok(SegmentChoice::Start { close, first_seq: 1, previous_hash })
        },
    }
}

/// Whether a segment stays within its limits.
pub open spec fn within_limits(record_count: int, stored_bytes: int) -> bool {
    record_count <= MAX_SEGMENT_RECORDS && (record_count > 1 ==> stored_bytes <= MAX_SEGMENT_BYTES)
}

/// A segment that takes one more record stays within its limits, and so does
/// one that begins with a record of any length.
pub proof fn lemma_segment_limits(segment: OpenSegment, record_bytes: i64)
    ensures
        has_room(segment, record_bytes) ==> within_limits(
            segment.record_count + 1,
            segment.stored_bytes + record_bytes,
        ),
        within_limits(1, record_bytes as int),
{
}

/// The key package of a device belongs to the keys at hand.
pub fn check_custody(
    encryption: &[u8],
    signing: &[u8],
    own_encryption: &[u8; 32],
    own_signing: &[u8; 32],
) -> (r: Result<(), HumanCommitError>)
    ensures
        r == (if encryption@ == own_encryption@ && signing@ == own_signing@ {
            Ok::<(), HumanCommitError>(())
        } else {
            Err(HumanCommitError::AuditKeyUnavailable)
        }),
{
    if same(encryption, own_encryption.as_slice()) && same(signing, own_signing.as_slice()) {
        Ok(())
    } else {
        Err(HumanCommitError::AuditKeyUnavailable)
    }
}

/// The digest of the newest authority event, or zero before the first.
pub fn frontier_of(newest: Option<&[u8]>) -> (r: Result<[u8; 32], HumanCommitError>)
    ensures
        match newest {
            Some(d) => if d@.len() == 32 {
                r is Ok && (r->Ok_0)@ == d@
            } else {
                r is Err && r->Err_0 is Integrity
            },
            None => r is Ok && (r->Ok_0)@ == Seq::new(32, |i: int| 0u8),
        },
{
    match newest {
        Some(d) => match fixed32(d) {
            Some(digest) => Ok(digest),
            None => Err(HumanCommitError::Integrity),
        },
        None => {
            let zero: [u8; 32] = [0u8; 32];
            assert(zero@ =~= Seq::new(32, |i: int| 0u8));
            Ok(zero)
        },
    }
}

/// A number as the database stores it.
pub fn sql_i64(value: u64) -> (r: Result<i64, HumanCommitError>)
    ensures
        if value <= i64::MAX {
            r is Ok && r->Ok_0 == value
        } else {
            r is Err && r->Err_0 is InvalidInput
        },
{
    if value <= 0x7fff_ffff_ffff_ffff {
        Ok(value as i64)
    } else {
        Err(HumanCommitError::InvalidInput)
    }
}

/// Checks the bounds of a query.
pub fn check_query(from_seq: u64, limit: usize) -> (r: Result<(), HumanCommitError>)
    ensures
        r == (if from_seq > 0 && 0 < limit <= MAX_QUERY {
            Ok::<(), HumanCommitError>(())
        } else {
            Err(HumanCommitError::InvalidInput)
        }),
{
    if from_seq == 0 || limit == 0 || limit > MAX_QUERY {
        Err(HumanCommitError::InvalidInput)
    } else {
        Ok(())
    }
}

/// A newest record: its number and its hash.
pub type Head = (i64, Vec<u8>);

/// Where the history of a generation ends: the active state, or for an earlier
/// generation the end of its last segment.
pub open spec fn head_of(
    active: Option<Head>,
    generation: i64,
    newest_generation: i64,
    segment: Option<Head>,
) -> Option<Head> {
    match active {
        Some(h) => Some(h),
        None => if generation < newest_generation {
            segment
        } else {
            None
        },
    }
}

/// The newest number of a generation, where the state and the stored records
/// agree on the newest record.
pub fn check_head(
    active: Option<Head>,
    generation: i64,
    newest_generation: i64,
    segment: Option<Head>,
    stored: &Option<Head>,
) -> (r: Result<i64, HumanCommitError>)
    ensures
        match (head_of(active, generation, newest_generation, segment), *stored) {
            (Some(h), Some(s)) => if h.0 == s.0 && h.1@ == s.1@ {
                r is Ok && r->Ok_0 == h.0
            } else {
                r is Err && r->Err_0 is Integrity
            },
            _ => r is Err && r->Err_0 is Integrity,
        },
{
    let head = match active {
        Some(h) => Some(h),
        None => if generation < newest_generation {
            segment
        } else {
            None
        },
    };
    match (head, stored) {
        (Some(h), Some(s)) => if h.0 == s.0 && same(h.1.as_slice(), s.1.as_slice()) {
            Ok(h.0)
        } else {
            Err(HumanCommitError::Integrity)
        },
        _ => Err(HumanCommitError::Integrity),
    }
}

/// A record of the history before it is sealed.
pub struct AuditRecord {
    pub vault: [u8; 16],
    pub device: [u8; 16],
    pub generation: u64,
    pub seq: u64,
    pub event_id: [u8; 16],
    pub wall_time_us: i64,
    pub event: AuditEvent,
    pub frontier: [u8; 32],
    pub previous_hash: [u8; 32],
}

/// The contents of a [`AuditRecord`].
pub struct AuditRecordModel {
    pub vault: [u8; 16],
    pub device: [u8; 16],
    pub generation: u64,
    pub seq: u64,
    pub event_id: [u8; 16],
    pub wall_time_us: i64,
    pub event: AuditEventModel,
    pub frontier: [u8; 32],
    pub previous_hash: [u8; 32],
}

impl View for AuditRecord {
    type V = AuditRecordModel;

    open spec fn view(&self) -> AuditRecordModel {
        AuditRecordModel {
            vault: self.vault,
            device: self.device,
            generation: self.generation,
            seq: self.seq,
            event_id: self.event_id,
            wall_time_us: self.wall_time_us,
            event: self.event@,
            frontier: self.frontier,
            previous_hash: self.previous_hash,
        }
    }
}

/// A record, followed by `t`.
pub open spec fn record_then(m: AuditRecordModel, t: Seq<u8>) -> Seq<u8> {
    map_head(19) + (text_item("v"@) + (uint_item(1) + (text_item("vault"@) + (bytes_item(m.vault@)
        + (text_item("device"@) + (bytes_item(m.device@) + (text_item("audit_generation"@)
        + (uint_item(m.generation) + (text_item("seq"@) + (uint_item(m.seq)
        + (text_item("event_id"@) + (bytes_item(m.event_id@) + (text_item("wall_time_us"@)
        + (int_item(m.wall_time_us) + (text_item("monotonic_us"@) + (uint_item(0)
        + (text_item("boot_id"@) + (null_item() + (text_item("actor_kind"@)
        + (text_item(actor_name(m.event.actor_kind)) + (text_item("actor_id"@)
        + (optional_bytes_item(opt_array(m.event.actor_id)) + (text_item("action"@)
        + (text_item(action_name(m.event.action)) + (text_item("outcome"@)
        + (text_item(outcome_name(m.event.outcome)) + (text_item("reason"@) + (null_item()
        + (text_item("item_id"@) + (optional_bytes_item(opt_array(m.event.item_id))
        + (text_item("revision_id"@) + (optional_bytes_item(opt_array(m.event.revision_id))
        + (text_item("attempt_id"@) + (optional_bytes_item(opt_array(m.event.attempt_id))
        + (text_item("authority_frontier_hash"@) + (bytes_item(m.frontier@)
        + (text_item("previous_record_hash"@)
        + (bytes_item(m.previous_hash@) + t))))))))))))))))))))))))))))))))))))))
}

/// A record.
pub open spec fn record_bytes(m: AuditRecordModel) -> Seq<u8> {
    record_then(m, Seq::empty())
}

/// Appends a record.
fn put_record(w: &mut Writer, x: &AuditRecord)
    ensures
        forall|t: Seq<u8>|
            #![trigger old(w)@ + record_then(x@, t)]
            final(w)@ + t == old(w)@ + record_then(x@, t),
{
    w.map(19);
    w.str("v");
    w.u64(1);
    w.str("vault");
    w.bytes(&x.vault);
    w.str("device");
    w.bytes(&x.device);
    w.str("audit_generation");
    w.u64(x.generation);
    w.str("seq");
    w.u64(x.seq);
    w.str("event_id");
    w.bytes(&x.event_id);
    w.str("wall_time_us");
    w.i64(x.wall_time_us);
    w.str("monotonic_us");
    w.u64(0);
    w.str("boot_id");
    w.null();
    w.str("actor_kind");
    w.str(x.event.actor_kind.name());
    w.str("actor_id");
    w.optional_bytes(array_slice(&x.event.actor_id));
    w.str("action");
    w.str(x.event.action.name());
    w.str("outcome");
    w.str(x.event.outcome.name());
    w.str("reason");
    w.null();
    w.str("item_id");
    w.optional_bytes(array_slice(&x.event.item_id));
    w.str("revision_id");
    w.optional_bytes(array_slice(&x.event.revision_id));
    w.str("attempt_id");
    w.optional_bytes(array_slice(&x.event.attempt_id));
    w.str("authority_frontier_hash");
    w.bytes(&x.frontier);
    w.str("previous_record_hash");
    w.bytes(&x.previous_hash);
}

/// Encodes a record.
pub fn encode_record(x: &AuditRecord) -> (r: Vec<u8>)
    ensures
        r@ == record_bytes(x@),
{
    let mut w = Writer::new();
    let ghost none = Seq::<u8>::empty();
    assert(none + record_then(x@, none) =~= record_bytes(x@));
    put_record(&mut w, x);
    assert(w@ + none =~= w@);
    w.finish()
}

/// What follows the place of a record, where it is the expected one.
pub open spec fn place_at(
    b: Seq<u8>,
    vault: [u8; 16],
    device: [u8; 16],
    generation: u64,
    seq: u64,
) -> Option<Seq<u8>> {
    let v = next_uint(next_key(take_map_of(b, 19), "v"@));
    let own_vault = next_fixed::<16>(next_key(after(v), "vault"@));
    let own_device = next_fixed::<16>(next_key(after(own_vault), "device"@));
    let own_generation = next_uint(next_key(after(own_device), "audit_generation"@));
    let own_seq = next_uint(next_key(after(own_generation), "seq"@));
    let event = next_fixed::<16>(next_key(after(own_seq), "event_id"@));
    let wall_time = next_int(next_key(after(event), "wall_time_us"@));
    let monotonic = next_uint(next_key(after(wall_time), "monotonic_us"@));
    let boot = next_optional::<16>(next_key(after(monotonic), "boot_id"@));
    if boot is Some && (v->0).0 == 1 && (own_vault->0).0 == vault && (own_device->0).0 == device
        && (own_generation->0).0 == generation && (own_seq->0).0 == seq {
        after(boot)
    } else {
        None
    }
}

/// The actor of a record and what follows.
pub open spec fn actor_at(b: Seq<u8>) -> Result<
    (AuditActorKind, Option<[u8; 16]>, Seq<u8>),
    HumanCommitError,
> {
    match take_key(b, "actor_kind"@) {
        Some(b) => match take_text(b) {
            Some((name, b)) => match actor_of(name) {
                Some(kind) => match take_key(b, "actor_id"@) {
                    Some(b) => match optional_at::<16>(b) {
                        Some((id, b)) => Ok((kind, id, b)),
                        None => Err(HumanCommitError::Integrity),
                    },
                    None => Err(HumanCommitError::Integrity),
                },
                None => Err(HumanCommitError::InvalidCommand),
            },
            None => Err(HumanCommitError::Integrity),
        },
        None => Err(HumanCommitError::Integrity),
    }
}

/// The action of a record and what follows.
pub open spec fn action_at(b: Seq<u8>) -> Result<(AuditAction, Seq<u8>), HumanCommitError> {
    match take_key(b, "action"@) {
        Some(b) => match take_text(b) {
            Some((name, b)) => match action_of(name) {
                Some(action) => Ok((action, b)),
                None => Err(HumanCommitError::InvalidCommand),
            },
            None => Err(HumanCommitError::Integrity),
        },
        None => Err(HumanCommitError::Integrity),
    }
}

/// The outcome of a record and what follows it and its reason.
pub open spec fn outcome_at(b: Seq<u8>) -> Result<(AuditOutcome, Seq<u8>), HumanCommitError> {
    match take_key(b, "outcome"@) {
        Some(b) => match take_text(b) {
            Some((name, b)) => match outcome_of(name) {
                Some(outcome) => match take_key(b, "reason"@) {
                    Some(b) => match take_nullable_text(b) {
                        Some((_, b)) => Ok((outcome, b)),
                        None => Err(HumanCommitError::Integrity),
                    },
                    None => Err(HumanCommitError::Integrity),
                },
                None => Err(HumanCommitError::InvalidCommand),
            },
            None => Err(HumanCommitError::Integrity),
        },
        None => Err(HumanCommitError::Integrity),
    }
}

/// What a record is about, the hash it follows and what is left.
pub open spec fn subject_at(b: Seq<u8>) -> Option<
    (Option<[u8; 16]>, Option<[u8; 16]>, Option<[u8; 16]>, [u8; 32], Seq<u8>),
> {
    let item = next_optional::<16>(next_key(Some(b), "item_id"@));
    let revision = next_optional::<16>(next_key(after(item), "revision_id"@));
    let attempt = next_optional::<16>(next_key(after(revision), "attempt_id"@));
    let frontier = next_fixed::<32>(next_key(after(attempt), "authority_frontier_hash"@));
    match next_fixed::<32>(next_key(after(frontier), "previous_record_hash"@)) {
        Some((previous, t)) => Some(
            ((item->0).0, (revision->0).0, (attempt->0).0, previous, t),
        ),
        None => None,
    }
}

/// What bytes are read as at a place of the history.
pub open spec fn record_of(
    b: Seq<u8>,
    vault: [u8; 16],
    device: [u8; 16],
    generation: u64,
    seq: u64,
    expected_previous: Option<[u8; 32]>,
) -> Result<RecordViewModel, HumanCommitError> {
    match place_at(b, vault, device, generation, seq) {
        Some(b) => match actor_at(b) {
            Ok((actor_kind, actor_id, b)) => match action_at(b) {
                Ok((action, b)) => match outcome_at(b) {
                    Ok((outcome, b)) => match subject_at(b) {
                        Some((item_id, revision_id, attempt_id, previous, b)) => if (
                        expected_previous is None || expected_previous->0 == previous) && b.len()
                            == 0 {
                            Ok(
                                RecordViewModel {
                                    seq,
                                    actor_kind,
                                    actor_id,
                                    action,
                                    outcome,
                                    item_id,
                                    revision_id,
                                    attempt_id,
                                },
                            )
                        } else {
                            Err(HumanCommitError::Integrity)
                        },
                        None => Err(HumanCommitError::Integrity),
                    },
                    Err(e) => Err(e),
                },
                Err(e) => Err(e),
            },
            Err(e) => Err(e),
        },
        None => Err(HumanCommitError::Integrity),
    }
}

/// Reads the place of a record.
fn read_place(
    d: &mut Reader,
    vault: &[u8; 16],
    device: &[u8; 16],
    generation: u64,
    seq: u64,
) -> (r: Option<()>)
    ensures
        match place_at(old(d).rest(), *vault, *device, generation, seq) {
            Some(t) => r is Some && final(d).rest() == t,
            None => r is None,
        },
{
    d.map_of(19)?;
    d.key("v")?;
    let v: u64 = d.u64()?;
    if !(v == 1) {
        return None;
    }
    d.key("vault")?;
    let a = take_id(d)?;
    if !(same_array(&a, vault)) {
        return None;
    }
    d.key("device")?;
    let a = take_id(d)?;
    if !(same_array(&a, device)) {
        return None;
    }
    d.key("audit_generation")?;
    let n: u64 = d.u64()?;
    if !(n == generation) {
        return None;
    }
    d.key("seq")?;
    let n: u64 = d.u64()?;
    if !(n == seq) {
        return None;
    }
    d.key("event_id")?;
    take_id(d)?;
    d.key("wall_time_us")?;
    d.i64()?;
    d.key("monotonic_us")?;
    d.u64()?;
    d.key("boot_id")?;
    take_optional_id(d)?;
    Some(())
}

/// Reads a key and the text behind it.
fn read_named<'a>(d: &mut Reader<'a>, key: &str) -> (r: Option<&'a str>)
    ensures
        match take_key(old(d).rest(), key@) {
            Some(b) => match take_text(b) {
                Some((s, t)) => r is Some && (r->0)@ == s && final(d).rest() == t,
                None => r is None,
            },
            None => r is None,
        },
{
    d.key(key)?;
    d.str()
}

/// Reads a key and the optional identifier behind it.
fn read_keyed_id(d: &mut Reader, key: &str) -> (r: Option<Option<[u8; 16]>>)
    ensures
        match take_key(old(d).rest(), key@) {
            Some(b) => match optional_at::<16>(b) {
                Some((a, t)) => r == Some(a) && final(d).rest() == t,
                None => r is None,
            },
            None => r is None,
        },
{
    d.key(key)?;
    take_optional_id(d)
}

/// Reads the actor of a record.
fn read_actor(d: &mut Reader) -> (r: Result<
    (AuditActorKind, Option<[u8; 16]>),
    HumanCommitError,
>)
    ensures
        match actor_at(old(d).rest()) {
            Ok((kind, id, t)) => r == Ok::<(AuditActorKind, Option<[u8; 16]>), HumanCommitError>(
                (kind, id),
            ) && final(d).rest() == t,
            Err(e) => r is Err && r->Err_0 == e,
        },
{
    let name = match read_named(d, "actor_kind") {
        Some(name) => name,
        None => return Err(HumanCommitError::Integrity),
    };
    let kind = match AuditActorKind::parse(name) {
        Ok(kind) => kind,
        Err(e) => return Err(e),
    };
    match read_keyed_id(d, "actor_id") {
        Some(id) => Ok((kind, id)),
        None => Err(HumanCommitError::Integrity),
    }
}

/// Reads the action of a record.
fn read_action(d: &mut Reader) -> (r: Result<AuditAction, HumanCommitError>)
    ensures
        match action_at(old(d).rest()) {
            Ok((action, t)) => r == Ok::<AuditAction, HumanCommitError>(action) && final(d).rest()
                == t,
            Err(e) => r is Err && r->Err_0 == e,
        },
{
    match read_named(d, "action") {
        Some(name) => AuditAction::parse(name),
        None => Err(HumanCommitError::Integrity),
    }
}

/// Reads the outcome of a record and passes over its reason.
fn read_outcome(d: &mut Reader) -> (r: Result<AuditOutcome, HumanCommitError>)
    ensures
        match outcome_at(old(d).rest()) {
            Ok((outcome, t)) => r == Ok::<AuditOutcome, HumanCommitError>(outcome)
                && final(d).rest() == t,
            Err(e) => r is Err && r->Err_0 == e,
        },
{
    let name = match read_named(d, "outcome") {
        Some(name) => name,
        None => return Err(HumanCommitError::Integrity),
    };
    let outcome = match AuditOutcome::parse(name) {
        Ok(outcome) => outcome,
        Err(e) => return Err(e),
    };
    match d.key("reason") {
        Some(_) => match take_optional_text(d) {
            Some(_) => Ok(outcome),
            None => Err(HumanCommitError::Integrity),
        },
        None => Err(HumanCommitError::Integrity),
    }
}

/// Reads what a record is about and the hash it follows.
fn read_subject(d: &mut Reader) -> (r: Option<
    (Option<[u8; 16]>, Option<[u8; 16]>, Option<[u8; 16]>, [u8; 32]),
>)
    ensures
        match subject_at(old(d).rest()) {
            Some((item, revision, attempt, previous, t)) => r == Some(
                (item, revision, attempt, previous),
            ) && final(d).rest() == t,
            None => r is None,
        },
{
    d.key("item_id")?;
    let item_id = take_optional_id(d)?;
    d.key("revision_id")?;
    let revision_id = take_optional_id(d)?;
    d.key("attempt_id")?;
    let attempt_id = take_optional_id(d)?;
    d.key("authority_frontier_hash")?;
    take_digest(d)?;
    d.key("previous_record_hash")?;
    let previous = take_digest(d)?;
    Some((item_id, revision_id, attempt_id, previous))
}

/// Reads the record at a place of the history.
pub fn decode_record(
    input: &[u8],
    vault: &[u8; 16],
    device: &[u8; 16],
    generation: u64,
    seq: u64,
    expected_previous: Option<[u8; 32]>,
) -> (r: Result<AuditRecordView, HumanCommitError>)
    ensures
        match record_of(input@, *vault, *device, generation, seq, expected_previous) {
            Ok(m) => r is Ok && (r->Ok_0)@ == m,
            Err(e) => r is Err && r->Err_0 == e,
        },
{
    let mut d = Reader::new(input);
    if read_place(&mut d, vault, device, generation, seq).is_none() {
        return Err(HumanCommitError::Integrity);
    }
    let (actor_kind, actor_id) = match read_actor(&mut d) {
        Ok(v) => v,
        Err(e) => return Err(e),
    };
    let action = match read_action(&mut d) {
        Ok(v) => v,
        Err(e) => return Err(e),
    };
    let outcome = match read_outcome(&mut d) {
        Ok(v) => v,
        Err(e) => return Err(e),
    };
    let (item_id, revision_id, attempt_id, previous) = match read_subject(&mut d) {
        Some(v) => v,
        None => return Err(HumanCommitError::Integrity),
    };
    let follows = match expected_previous {
        Some(expected) => same_array(&expected, &previous),
        None => true,
    };
    if !follows || !d.at_end() {
        return Err(HumanCommitError::Integrity);
    }
    Ok(
        AuditRecordView {
            seq,
            actor_kind,
            actor_id,
            action,
            outcome,
            item_id,
            revision_id,
            attempt_id,
        },
    )
}

/// What is shown of a record.
pub open spec fn shown(m: AuditRecordModel) -> RecordViewModel {
    RecordViewModel {
        seq: m.seq,
        actor_kind: m.event.actor_kind,
        actor_id: m.event.actor_id,
        action: m.event.action,
        outcome: m.event.outcome,
        item_id: m.event.item_id,
        revision_id: m.event.revision_id,
        attempt_id: m.event.attempt_id,
    }
}

/// A written record is read back at its own place and behind its own
/// predecessor, and nowhere else.
#[verifier::rlimit(60)]
pub proof fn lemma_record_place(
    m: AuditRecordModel,
    vault: [u8; 16],
    device: [u8; 16],
    generation: u64,
    seq: u64,
    expected_previous: Option<[u8; 32]>,
)
    requires
        record_bytes(m).len() <= u64::MAX,
    ensures
        record_of(record_bytes(m), vault, device, generation, seq, expected_previous) == (if vault
            == m.vault && device == m.device && generation == m.generation && seq == m.seq && (
        expected_previous is None || expected_previous->0 == m.previous_hash) {
            Ok::<RecordViewModel, HumanCommitError>(shown(m))
        } else {
            Err(HumanCommitError::Integrity)
        }),
{
    let t39 = Seq::<u8>::empty();
    let t38 = bytes_item(m.previous_hash@) + t39;
    let t37 = text_item("previous_record_hash"@) + t38;
    let t36 = bytes_item(m.frontier@) + t37;
    let t35 = text_item("authority_frontier_hash"@) + t36;
    let t34 = optional_bytes_item(opt_array(m.event.attempt_id)) + t35;
    let t33 = text_item("attempt_id"@) + t34;
    let t32 = optional_bytes_item(opt_array(m.event.revision_id)) + t33;
    let t31 = text_item("revision_id"@) + t32;
    let t30 = optional_bytes_item(opt_array(m.event.item_id)) + t31;
    let t29 = text_item("item_id"@) + t30;
    let t28 = null_item() + t29;
    let t27 = text_item("reason"@) + t28;
    let t26 = text_item(outcome_name(m.event.outcome)) + t27;
    let t25 = text_item("outcome"@) + t26;
    let t24 = text_item(action_name(m.event.action)) + t25;
    let t23 = text_item("action"@) + t24;
    let t22 = optional_bytes_item(opt_array(m.event.actor_id)) + t23;
    let t21 = text_item("actor_id"@) + t22;
    let t20 = text_item(actor_name(m.event.actor_kind)) + t21;
    let t19 = text_item("actor_kind"@) + t20;
    let t18 = null_item() + t19;
    let t17 = text_item("boot_id"@) + t18;
    let t16 = uint_item(0) + t17;
    let t15 = text_item("monotonic_us"@) + t16;
    let t14 = int_item(m.wall_time_us) + t15;
    let t13 = text_item("wall_time_us"@) + t14;
    let t12 = bytes_item(m.event_id@) + t13;
    let t11 = text_item("event_id"@) + t12;
    let t10 = uint_item(m.seq) + t11;
    let t9 = text_item("seq"@) + t10;
    let t8 = uint_item(m.generation) + t9;
    let t7 = text_item("audit_generation"@) + t8;
    let t6 = bytes_item(m.device@) + t7;
    let t5 = text_item("device"@) + t6;
    let t4 = bytes_item(m.vault@) + t5;
    let t3 = text_item("vault"@) + t4;
    let t2 = uint_item(1) + t3;
    let t1 = text_item("v"@) + t2;
    let t0 = map_head(19) + t1;
    assert(t0 == record_bytes(m));
    lemma_actor_names(m.event.actor_kind);
    lemma_action_names(m.event.action);
    lemma_outcome_names(m.event.outcome);
    lemma_map(19, t1);
    lemma_text_within("v"@, t2);
    lemma_uint(1, t3);
    lemma_text_within("vault"@, t4);
    lemma_bytes_within(m.vault@, t5);
    lemma_array_of(m.vault);
    lemma_text_within("device"@, t6);
    lemma_bytes_within(m.device@, t7);
    lemma_array_of(m.device);
    lemma_text_within("audit_generation"@, t8);
    lemma_uint(m.generation, t9);
    lemma_text_within("seq"@, t10);
    lemma_uint(m.seq, t11);
    lemma_text_within("event_id"@, t12);
    lemma_bytes_within(m.event_id@, t13);
    lemma_array_of(m.event_id);
    lemma_text_within("wall_time_us"@, t14);
    lemma_int(m.wall_time_us, t15);
    lemma_text_within("monotonic_us"@, t16);
    lemma_uint(0, t17);
    lemma_text_within("boot_id"@, t18);
    lemma_null(t19);
    lemma_text_within("actor_kind"@, t20);
    lemma_text_within(actor_name(m.event.actor_kind), t21);
    lemma_text_within("actor_id"@, t22);
    lemma_optional_array(m.event.actor_id, t23);
    lemma_text_within("action"@, t24);
    lemma_text_within(action_name(m.event.action), t25);
    lemma_text_within("outcome"@, t26);
    lemma_text_within(outcome_name(m.event.outcome), t27);
    lemma_text_within("reason"@, t28);
    lemma_null(t29);
    lemma_text_within("item_id"@, t30);
    lemma_optional_array(m.event.item_id, t31);
    lemma_text_within("revision_id"@, t32);
    lemma_optional_array(m.event.revision_id, t33);
    lemma_text_within("attempt_id"@, t34);
    lemma_optional_array(m.event.attempt_id, t35);
    lemma_text_within("authority_frontier_hash"@, t36);
    lemma_bytes_within(m.frontier@, t37);
    lemma_array_of(m.frontier);
    lemma_text_within("previous_record_hash"@, t38);
    lemma_bytes_within(m.previous_hash@, t39);
    lemma_array_of(m.previous_hash);
    assert(subject_at(t29) == Some(
        (m.event.item_id, m.event.revision_id, m.event.attempt_id, m.previous_hash, t39),
    ));
    assert(outcome_at(t25) == Ok::<(AuditOutcome, Seq<u8>), HumanCommitError>(
        (m.event.outcome, t29),
    ));
    assert(action_at(t23) == Ok::<(AuditAction, Seq<u8>), HumanCommitError>((m.event.action, t25)));
    assert(actor_at(t19) == Ok::<
        (AuditActorKind, Option<[u8; 16]>, Seq<u8>),
        HumanCommitError,
    >((m.event.actor_kind, m.event.actor_id, t23)));
    lemma_optional_array(None::<[u8; 16]>, t19);
}

/// A sealed record with its signature, as it is stored and hashed.
pub struct StoredRecord {
    pub envelope: Vec<u8>,
    pub signature: [u8; 64],
}

/// The contents of a [`StoredRecord`].
pub struct StoredModel {
    pub envelope: Seq<u8>,
    pub signature: [u8; 64],
}

impl View for StoredRecord {
    type V = StoredModel;

    open spec fn view(&self) -> StoredModel {
        StoredModel { envelope: self.envelope@, signature: self.signature }
    }
}

/// A stored record, followed by `t`.
pub open spec fn stored_then(m: StoredModel, t: Seq<u8>) -> Seq<u8> {
    map_head(2) + (text_item("envelope"@) + (bytes_item(m.envelope) + (text_item("signature"@)
        + (bytes_item(m.signature@) + t))))
}

/// A stored record.
pub open spec fn stored_bytes(m: StoredModel) -> Seq<u8> {
    stored_then(m, Seq::empty())
}

/// Appends a stored record.
fn put_stored(w: &mut Writer, x: &StoredRecord)
    ensures
        forall|t: Seq<u8>|
            #![trigger old(w)@ + stored_then(x@, t)]
            final(w)@ + t == old(w)@ + stored_then(x@, t),
{
    w.map(2);
    w.str("envelope");
    w.bytes(x.envelope.as_slice());
    w.str("signature");
    w.bytes(&x.signature);
}

/// Encodes a stored record.
pub fn encode_stored(x: &StoredRecord) -> (r: Vec<u8>)
    ensures
        r@ == stored_bytes(x@),
{
    let mut w = Writer::new();
    let ghost none = Seq::<u8>::empty();
    assert(none + stored_then(x@, none) =~= stored_bytes(x@));
    put_stored(&mut w, x);
    assert(w@ + none =~= w@);
    w.finish()
}

/// The hash that the record at a place must follow: zero at the start, the hash
/// of the record read just before, or the stored one, as far as it is known.
pub open spec fn expected_hash(
    seq: i64,
    prior: Option<(i64, [u8; 32])>,
    stored: Option<[u8; 32]>,
) -> Option<Seq<u8>> {
    if seq == 1 {
        Some(Seq::new(32, |i: int| 0u8))
    } else if prior is Some && (prior->0).0 + 1 == seq {
        Some((prior->0).1@)
    } else {
        opt_array(stored)
    }
}

/// The hash that the record at a place must follow.
fn expected_previous(seq: i64, prior: &Option<(i64, [u8; 32])>, stored: Option<[u8; 32]>) -> (r:
    Option<[u8; 32]>)
    ensures
        opt_array(r) == expected_hash(seq, *prior, stored),
{
    if seq == 1 {
        let zero: [u8; 32] = [0u8; 32];
        assert(zero@ =~= Seq::new(32, |i: int| 0u8));
        return Some(zero);
    }
    match prior {
        Some((prior_seq, hash)) => if *prior_seq < 0x7fff_ffff_ffff_ffff && *prior_seq + 1 == seq {
            Some(*hash)
        } else {
            stored
        },
        None => stored,
    }
}

/// Reads the records of a query one after the other.
pub struct AuditReader {
    vault: [u8; 16],
    device: [u8; 16],
    generation: u64,
    records: Vec<AuditRecordView>,
    prior: Option<(i64, [u8; 32])>,
}

/// What an [`AuditReader`] has read.
pub struct ReaderModel {
    pub vault: [u8; 16],
    pub device: [u8; 16],
    pub generation: u64,
    pub records: Seq<RecordViewModel>,
    pub prior: Option<(i64, [u8; 32])>,
}

impl View for AuditReader {
    type V = ReaderModel;

    closed spec fn view(&self) -> ReaderModel {
        ReaderModel {
            vault: self.vault,
            device: self.device,
            generation: self.generation,
            records: views(self.records@),
            prior: self.prior,
        }
    }
}

/// The opened record of a row, its stored hash, the hash computed over it and
/// the stored hash of the row before it.
pub struct AuditRow {
    pub seq: i64,
    pub plaintext: Vec<u8>,
    pub record_hash: [u8; 32],
    pub computed_hash: [u8; 32],
    pub previous_hash: Option<[u8; 32]>,
}

/// What a row reads as after what was read before it.
pub open spec fn row_of(m: ReaderModel, row: AuditRow) -> Result<
    RecordViewModel,
    HumanCommitError,
> {
    let expected = expected_hash(row.seq, m.prior, row.previous_hash);
    if row.computed_hash != row.record_hash || row.seq < 0 {
        Err(HumanCommitError::Integrity)
    } else {
        record_of(
            row.plaintext@,
            m.vault,
            m.device,
            m.generation,
            row.seq as u64,
            match expected {
                Some(h) => Some(array_of::<32>(h)),
                None => None,
            },
        )
    }
}

impl AuditReader {
    /// A reader of one generation of a device.
    pub fn new(vault: [u8; 16], device: [u8; 16], generation: u64) -> (r: AuditReader)
        ensures
            r@ == (ReaderModel { vault, device, generation, records: Seq::empty(), prior: None }),
    {
        let r = AuditReader { vault, device, generation, records: Vec::new(), prior: None };
        assert(views(r.records@) =~= Seq::empty());
        r
    }

    /// Reads the next row; its record must follow the one before it.
    pub fn read(&mut self, row: &AuditRow) -> (r: Result<(), HumanCommitError>)
        ensures
            match row_of(old(self)@, *row) {
                Ok(m) => r is Ok && final(self)@ == (ReaderModel {
                    records: old(self)@.records.push(m),
                    prior: Some((row.seq, row.record_hash)),
                    ..old(self)@
                }),
                Err(e) => r is Err && r->Err_0 == e && final(self)@ == old(self)@,
            },
    {
        if !same_array(&row.computed_hash, &row.record_hash) || row.seq < 0 {
            return Err(HumanCommitError::Integrity);
        }
        let expected = expected_previous(row.seq, &self.prior, row.previous_hash);
        proof {
            if expected is Some {
                lemma_array_of(expected->0);
            }
        }
        let record = match decode_record(
            row.plaintext.as_slice(),
            &self.vault,
            &self.device,
            self.generation,
            row.seq as u64,
            expected,
        ) {
            Ok(record) => record,
            Err(e) => return Err(e),
        };
        let ghost before = self.records@;
        self.records.push(record);
        assert(views(self.records@) =~= views(before).push(record@));
        self.prior = Some((row.seq, row.record_hash));
        Ok(())
    }

    /// The answer: what was read, the purged ranges and the numbers of segments.
    pub fn finish(
        self,
        discontinuities: Vec<AuditDiscontinuity>,
        segment_count: i64,
        closed_segment_count: i64,
    ) -> (r: Result<AuditQuery, HumanCommitError>)
        ensures
            if 0 <= segment_count <= usize::MAX && 0 <= closed_segment_count <= usize::MAX {
                r is Ok && (r->Ok_0)@ == (QueryModel {
                    records: self@.records,
                    discontinuities: views(discontinuities@),
                    segment_count: segment_count as usize,
                    closed_segment_count: closed_segment_count as usize,
                })
            } else {
                r is Err && r->Err_0 is Integrity
            },
    {
        match (usize_of(segment_count), usize_of(closed_segment_count)) {
            (Some(segment_count), Some(closed_segment_count)) => Ok(
                AuditQuery {
                    records: self.records,
                    discontinuities,
                    segment_count,
                    closed_segment_count,
                },
            ),
            _ => Err(HumanCommitError::Integrity),
        }
    }
}

/// A stored count as a size.
fn usize_of(n: i64) -> (r: Option<usize>)
    ensures
        if 0 <= n <= usize::MAX {
            r == Some(n as usize)
        } else {
            r is None
        },
{
    if n < 0 {
        return None;
    }
    let v: u64 = n as u64;
    let small: usize = v as usize;
    if small as u64 == v {
        Some(small)
    } else {
        None
    }
}

/// Consecutive rows that were read are linked: the record of the second was
/// written behind the hash of the first.
pub proof fn lemma_linked(m: ReaderModel, first: AuditRow, second: AuditRow,
    written: AuditRecordModel)
    requires
        row_of(m, first) is Ok,
        second.seq == first.seq + 1,
        second.seq != 1,
        second.plaintext@ == record_bytes(written),
        record_bytes(written).len() <= u64::MAX,
        row_of(ReaderModel { prior: Some((first.seq, first.record_hash)), ..m }, second) is Ok,
    ensures
        written.previous_hash == first.record_hash,
        written.seq == second.seq,
        written.vault == m.vault,
        written.device == m.device,
        written.generation == m.generation,
{
    lemma_array_of(first.record_hash);
    lemma_record_place(
        written,
        m.vault,
        m.device,
        m.generation,
        second.seq as u64,
        Some(first.record_hash),
    );
}

/// The names under which actors and outcomes are recorded, and what reads back
/// as one: a name of the list, and nothing else.
pub proof fn lemma_recorded_names(v: AuditActorKind, o: AuditOutcome, s: Seq<char>)
    ensures
        v is Human ==> actor_name(v) == "human"@,
        v is Agent ==> actor_name(v) == "agent"@,
        v is Custodian ==> actor_name(v) == "custodian"@,
        v is System ==> actor_name(v) == "system"@,
        o is Accepted ==> outcome_name(o) == "accepted"@,
        o is Succeeded ==> outcome_name(o) == "succeeded"@,
        o is Denied ==> outcome_name(o) == "denied"@,
        o is Failed ==> outcome_name(o) == "failed"@,
        o is Indeterminate ==> outcome_name(o) == "indeterminate"@,
        actor_of(s) == Some(v) <==> s == actor_name(v),
        outcome_of(s) == Some(o) <==> s == outcome_name(o),
{
    lemma_actor_names(v);
    lemma_outcome_names(o);
}

/// The names under which actions are recorded, and what reads back as one.
pub proof fn lemma_recorded_actions(v: AuditAction, s: Seq<char>)
    ensures
        v is HumanUnlock ==> action_name(v) == "human_unlock"@,
        v is HumanLock ==> action_name(v) == "human_lock"@,
        v is Reveal ==> action_name(v) == "reveal"@,
        v is Copy ==> action_name(v) == "copy"@,
        v is ItemChange ==> action_name(v) == "item_change"@,
        v is AuthorityChange ==> action_name(v) == "authority_change"@,
        v is AuthAccepted ==> action_name(v) == "auth_accepted"@,
        v is AuthState ==> action_name(v) == "auth_state"@,
        v is AuthUse ==> action_name(v) == "auth_use"@,
        v is Import ==> action_name(v) == "import"@,
        v is Export ==> action_name(v) == "export"@,
        v is Backup ==> action_name(v) == "backup"@,
        v is Restore ==> action_name(v) == "restore"@,
        v is AuditPurge ==> action_name(v) == "audit_purge"@,
        v is ProfileFault ==> action_name(v) == "profile_fault"@,
        v is Startup ==> action_name(v) == "startup"@,
        v is Shutdown ==> action_name(v) == "shutdown"@,
        v is Recovery ==> action_name(v) == "recovery"@,
        action_of(s) == Some(v) <==> s == action_name(v),
{
    lemma_action_names(v);
}

/// What a record reads as is what was recorded, part by part.
pub proof fn lemma_record_read(m: AuditRecordModel)
    requires
        record_bytes(m).len() <= u64::MAX,
    ensures
        ({
            let r = record_of(
                record_bytes(m),
                m.vault,
                m.device,
                m.generation,
                m.seq,
                Some(m.previous_hash),
            );
            &&& r is Ok
            &&& (r->Ok_0).seq == m.seq
            &&& (r->Ok_0).actor_kind == m.event.actor_kind
            &&& (r->Ok_0).actor_id == m.event.actor_id
            &&& (r->Ok_0).action == m.event.action
            &&& (r->Ok_0).outcome == m.event.outcome
            &&& (r->Ok_0).item_id == m.event.item_id
            &&& (r->Ok_0).revision_id == m.event.revision_id
            &&& (r->Ok_0).attempt_id == m.event.attempt_id
        }),
{
    lemma_record_place(m, m.vault, m.device, m.generation, m.seq, Some(m.previous_hash));
}

/// A kept gap is one that was there.
proof fn lemma_gap_kept(gaps: Seq<GapModel>, n: nat, through_seq: u64, g: GapModel)
    requires
        n <= gaps.len(),
    ensures
        kept_gaps(gaps, n, through_seq).contains(g) <==> (exists|i: int|
            0 <= i < n && #[trigger] gaps[i] == g) && !(g.first_seq == 1 && g.last_seq
            <= through_seq),
    decreases n,
{
    if n > 0 {
        let before = kept_gaps(gaps, (n - 1) as nat, through_seq);
        let now = kept_gaps(gaps, n, through_seq);
        lemma_gap_kept(gaps, (n - 1) as nat, through_seq, g);
        if now.contains(g) {
            let i = choose|i: int| 0 <= i < now.len() && now[i] == g;
            if i < before.len() {
                assert(before[i] == g);
                assert(before.contains(g));
            } else {
                assert(gaps[n - 1] == g);
            }
        }
        if before.contains(g) {
            let i = choose|i: int| 0 <= i < before.len() && before[i] == g;
            assert(now[i] == g);
        }
        if gaps[n - 1] == g && !superseded(g, through_seq) {
            assert(now.last() == g);
        }
    }
}

/// After a purge the gaps are those that reach beyond it or do not start at the
/// first record, and one more, from the first record to the last purged, under
/// the purge's event; the new one comes last.
pub proof fn lemma_gaps_after(gaps: Seq<GapModel>, through_seq: u64, event: [u8; 16], g: GapModel)
    ensures
        gaps_after(gaps, through_seq, event).last() == (GapModel {
            first_seq: 1,
            last_seq: through_seq,
            purge_event_id: event,
        }),
        gaps_after(gaps, through_seq, event).drop_last().contains(g) <==> gaps.contains(g) && !(
        g.first_seq == 1 && g.last_seq <= through_seq),
{
    lemma_gap_kept(gaps, gaps.len(), through_seq, g);
    assert(gaps_after(gaps, through_seq, event).drop_last() =~= kept_gaps(
        gaps,
        gaps.len(),
        through_seq,
    ));
}

/// An audit is complete where each record from the first to the head is there or
/// lies in a gap.
pub proof fn lemma_complete(head: i64, present: Set<u64>, gaps: Seq<GapModel>, seq: u64)
    requires
        1 <= seq <= head,
    ensures
        complete(head, present, gaps) && !present.contains(seq) ==> exists|i: int|
            0 <= i < gaps.len() && (#[trigger] gaps[i]).first_seq <= seq <= gaps[i].last_seq,
        !present.contains(seq) && (forall|i: int|
            0 <= i < gaps.len() ==> (#[trigger] gaps[i]).first_seq > seq || gaps[i].last_seq < seq)
            ==> !complete(head, present, gaps),
{
    if complete(head, present, gaps) {
        assert(present.contains((seq as int) as u64) || covered(gaps, seq as int));
    }
}

/// A missing record that no gap accounts for is all that makes an audit
/// incomplete.
pub proof fn lemma_incomplete(head: i64, present: Set<u64>, gaps: Seq<GapModel>)
    requires
        !complete(head, present, gaps),
        forall|i: int| 0 <= i < gaps.len() ==> (#[trigger] gaps[i]).last_seq <= i64::MAX,
    ensures
        exists|seq: int|
            1 <= seq <= head && !#[trigger] present.contains(seq as u64) && forall|i: int|
                0 <= i < gaps.len() ==> !((#[trigger] gaps[i]).first_seq <= seq
                    <= gaps[i].last_seq),
{
    let seq = choose|seq: int|
        1 <= seq <= head && !(#[trigger] present.contains(seq as u64) || covered(gaps, seq));
    assert(!present.contains(seq as u64));
}

/// Where the next record goes: after the newest of its generation, behind that
/// one's hash; the first of a generation is number one, behind nothing.
pub proof fn lemma_next_place(s: AuditState, generation: u64)
    ensures
        next_place(None, generation) == Ok::<_, HumanCommitError>(
            (1u64, Seq::new(32, |i: int| 0u8)),
        ),
        generation <= i64::MAX && s.generation != generation ==> next_place(Some(s), generation)
            == Ok::<_, HumanCommitError>((1u64, Seq::new(32, |i: int| 0u8))),
        s.generation == generation && 0 <= s.seq < i64::MAX && s.last_hash@.len() == 32
            ==> next_place(Some(s), generation) == Ok::<_, HumanCommitError>(
            ((s.seq + 1) as u64, s.last_hash@),
        ),
        s.generation == generation && s.seq < i64::MAX && s.last_hash@.len() != 32 ==> next_place(
            Some(s),
            generation,
        ) == Err::<(u64, Seq<u8>), _>(HumanCommitError::Integrity),
        s.generation == generation && s.seq == i64::MAX ==> next_place(Some(s), generation)
            == Err::<(u64, Seq<u8>), _>(HumanCommitError::InvalidCommand),
        generation > i64::MAX ==> next_place(Some(s), generation) == Err::<(u64, Seq<u8>), _>(
            HumanCommitError::InvalidCommand,
        ),
        s.generation == generation && s.seq < -1 && s.last_hash@.len() == 32 ==> next_place(
            Some(s),
            generation,
        ) == Err::<(u64, Seq<u8>), _>(HumanCommitError::InvalidCommand),
{
}

/// A segment takes another record where it holds fewer than 256 and stays within
/// one mebibyte with it.
pub proof fn lemma_room(segment: OpenSegment, record_bytes: i64)
    requires
        segment.stored_bytes >= 0,
        record_bytes >= 0,
    ensures
        has_room(segment, record_bytes) <==> segment.record_count < 256 && segment.stored_bytes
            + record_bytes <= 1024 * 1024,
{
}

/// The head of a generation is that of its active state; where it has none, an
/// older generation's is that of its last segment, and the newest has none.
pub proof fn lemma_head(
    active: Option<Head>,
    generation: i64,
    newest_generation: i64,
    segment: Option<Head>,
)
    ensures
        active is Some ==> head_of(active, generation, newest_generation, segment) == active,
        active is None && generation < newest_generation ==> head_of(
            active,
            generation,
            newest_generation,
            segment,
        ) == segment,
        active is None && generation >= newest_generation ==> head_of(
            active,
            generation,
            newest_generation,
            segment,
        ) is None,
{
}

/// A row is read only where its own hash is the one that was computed, it stands
/// at its place, and it is linked: the first record to nothing, one that follows
/// the record before it to that record, and any other to what was stored beside
/// it.
pub proof fn lemma_row_read(m: ReaderModel, row: AuditRow, written: AuditRecordModel)
    requires
        row.plaintext@ == record_bytes(written),
        record_bytes(written).len() <= u64::MAX,
        row_of(m, row) is Ok,
    ensures
        row.computed_hash == row.record_hash,
        row.seq >= 0,
        written.vault == m.vault,
        written.device == m.device,
        written.generation == m.generation,
        written.seq == row.seq,
        row.seq == 1 ==> written.previous_hash@ == Seq::new(32, |i: int| 0u8),
        row.seq != 1 && m.prior is Some && (m.prior->0).0 + 1 == row.seq ==> written.previous_hash
            == (m.prior->0).1,
        row.seq != 1 && !(m.prior is Some && (m.prior->0).0 + 1 == row.seq) ==> (
        row.previous_hash matches Some(h) ==> written.previous_hash == h),
{
    let expected = match expected_hash(row.seq, m.prior, row.previous_hash) {
        Some(h) => Some(array_of::<32>(h)),
        None => None,
    };
    lemma_record_place(written, m.vault, m.device, m.generation, row.seq as u64, expected);
    if row.seq == 1 {
        lemma_zero_array();
    } else if m.prior is Some && (m.prior->0).0 + 1 == row.seq {
        lemma_array_of::<32>((m.prior->0).1);
    } else if row.previous_hash is Some {
        lemma_array_of::<32>(row.previous_hash->0);
    }
}

/// There is an array of zeros.
proof fn lemma_zero_array()
    ensures
        array_of::<32>(Seq::new(32, |i: int| 0u8))@ == Seq::new(32, |i: int| 0u8),
{
    let z: [u8; 32] = [
        0, 0, 0, 0, 0, 0, 0, 0, 0, 0, 0, 0, 0, 0, 0, 0, 0, 0, 0, 0, 0, 0, 0, 0, 0, 0, 0, 0, 0, 0,
        0, 0,
    ];
    assert(z@ =~= Seq::new(32, |i: int| 0u8));
    lemma_array_of::<32>(z);
}

} // verus!

//! Decisions of a commit: whether a signed command is accepted, which events it
//! writes and what they change.
use crate::bodies::{
    agent_grant_body_of, decode_agent_grant_body, decode_enable_body, decode_item_purge_body,
    enable_body_of, item_purge_body_of, AgentGrantBody, GrantBodyModel,
};
use crate::bytes::{same, same_str};
use crate::command::{
    body_of, command_of, decode_body, decode_command, Body, CommandFields, CommandModel,
    HumanReceipt, ReceiptModel,
};
use crate::errors::HumanCommitError;
use crate::events::{
    authority_specific_parents, digest_bytes, digests_of, encode_g5_event,
    encode_legacy_event_body, g5_event_bytes, header_at, join_parents, kind_among,
    legacy_event_body_bytes, lemma_event_header, next_authority_seq, parent_kinds, parents_of,
    AuthorityRow, AuthorityRowModel, EventModel, G5EventInput, HeaderModel, LegacyEventBody,
    MAX_PARENTS,
};
use crate::ordered::{lemma_same_array, same_array};
use crate::staging::{
    decode_staged_attachments, is_purge, staged_attachments_of, Staged, StagedAttachment,
    StagedAttachmentModel, StagedModel,
};
use crate::views::views;
use crate::format_laws::{
    lemma_g5_event_fields, lemma_legacy_event_body_fields, next_map, next_optional_bytes,
    next_optional_uint,
};
use crate::lists::{after, next_bytes, next_int, next_key, next_uint, opt_array};
use vstd::prelude::*;
use vstd::slice::slice_to_vec;

verus! {

/// A stored challenge.
pub struct Challenge {
    pub command: Vec<u8>,
    pub body_hash: [u8; 32],
    pub expires_at_us: i64,
    pub consumed: bool,
}

/// The contents of a [`Challenge`].
pub struct ChallengeModel {
    pub command: Seq<u8>,
    pub body_hash: [u8; 32],
    pub expires_at_us: i64,
    pub consumed: bool,
}

impl View for Challenge {
    type V = ChallengeModel;

    open spec fn view(&self) -> ChallengeModel {
        ChallengeModel {
            command: self.command@,
            body_hash: self.body_hash,
            expires_at_us: self.expires_at_us,
            consumed: self.consumed,
        }
    }
}

/// What a challenge says of a command: it must be the one that was issued, not
/// answered yet and not expired.
pub open spec fn challenge_verdict(
    challenge: Option<ChallengeModel>,
    command: Seq<u8>,
    body_hash: [u8; 32],
    now_us: i64,
) -> Result<(), HumanCommitError> {
    match challenge {
        Some(c) => if c.command != command || c.body_hash != body_hash {
            Err(HumanCommitError::BodyChanged)
        } else if c.consumed || now_us > c.expires_at_us {
            Err(HumanCommitError::ChallengeExpired)
        } else {
            Ok(())
        },
        None => Err(HumanCommitError::InvalidCommand),
    }
}

/// The contents of an optional challenge.
pub open spec fn opt_challenge(challenge: Option<Challenge>) -> Option<ChallengeModel> {
    match challenge {
        Some(c) => Some(c@),
        None => None,
    }
}

/// Holds a command against the stored challenge.
pub fn check_challenge(
    challenge: &Option<Challenge>,
    command: &[u8],
    body_hash: &[u8; 32],
    now_us: i64,
) -> (r: Result<(), HumanCommitError>)
    ensures
        r == challenge_verdict(opt_challenge(*challenge), command@, *body_hash, now_us),
{
    match challenge {
        Some(c) => if !same(c.command.as_slice(), command) || !same_array(
            &c.body_hash,
            body_hash,
        ) {
            Err(HumanCommitError::BodyChanged)
        } else if c.consumed || now_us > c.expires_at_us {
            Err(HumanCommitError::ChallengeExpired)
        } else {
            Ok(())
        },
        None => Err(HumanCommitError::InvalidCommand),
    }
}

/// A consumed or expired challenge admits nothing, whatever the command.
pub proof fn lemma_challenge_once(
    challenge: ChallengeModel,
    command: Seq<u8>,
    body_hash: [u8; 32],
    now_us: i64,
)
    requires
        challenge.consumed || now_us > challenge.expires_at_us,
    ensures
        challenge_verdict(Some(challenge), command, body_hash, now_us) is Err,
{
}

/// What a decoded command and body must be: of this vault, and bound by the
/// digest of the body.
pub open spec fn command_verdict(
    vault: [u8; 16],
    command: Seq<u8>,
    body: Seq<u8>,
    body_hash: [u8; 32],
) -> Result<(CommandModel, Body), HumanCommitError> {
    match command_of(command) {
        Some(c) => match body_of(body) {
            Some(b) => if c.vault != vault {
                Err(HumanCommitError::InvalidCommand)
            } else if body_hash != c.body_hash {
                Err(HumanCommitError::BodyChanged)
            } else {
                Ok((c, b))
            },
            None => Err(HumanCommitError::BodyChanged),
        },
        None => Err(HumanCommitError::InvalidCommand),
    }
}

/// Decodes a command and its body; `body_hash` is the digest of the body.
pub fn check_command(vault: &[u8; 16], command: &[u8], body: &[u8], body_hash: &[u8; 32]) -> (r:
    Result<(CommandFields, Body), HumanCommitError>)
    ensures
        match command_verdict(*vault, command@, body@, *body_hash) {
            Ok((c, b)) => r is Ok && (r->Ok_0).0@ == c && (r->Ok_0).1 == b,
            Err(e) => r is Err && r->Err_0 == e,
        },
{
    let c = match decode_command(command) {
        Ok(c) => c,
        Err(_) => {
            return Err(HumanCommitError::InvalidCommand);
        },
    };
    let b = match decode_body(body) {
        Ok(b) => b,
        Err(_) => {
            return Err(HumanCommitError::BodyChanged);
        },
    };
    if !same_array(&c.vault, vault) {
        return Err(HumanCommitError::InvalidCommand);
    }
    if !same_array(body_hash, &c.body_hash) {
        return Err(HumanCommitError::BodyChanged);
    }
    Ok((c, b))
}

/// What is stored when a command is to be committed.
pub struct CommitFacts {
    /// Whether the signature over the command is the owner's.
    pub signed: bool,
    /// The receipt of the transaction, where it was committed before.
    pub receipt: Option<HumanReceipt>,
    /// The challenge of the transaction.
    pub challenge: Option<Challenge>,
    /// The time.
    pub now_us: i64,
    /// The digest of the authority state.
    pub state: [u8; 32],
    /// What the transaction staged.
    pub staged: Option<Staged>,
}

/// What admitting a command comes to.
pub enum Admission {
    /// The transaction was committed before.
    Replayed(ReceiptModel),
    /// The transaction is to be applied.
    Fresh(Body, StagedModel),
}

/// What is wrong with a command, if anything: first the command itself, then
/// its signature, an earlier receipt, the challenge, the state and what was
/// staged.
pub open spec fn admission(
    vault: [u8; 16],
    command: Seq<u8>,
    body: Seq<u8>,
    body_hash: [u8; 32],
    facts: CommitFacts,
) -> Result<Admission, HumanCommitError> {
    match command_verdict(vault, command, body, body_hash) {
        Ok((c, b)) => if !facts.signed {
            Err(HumanCommitError::InvalidSignature)
        } else if facts.receipt is Some {
            if facts.receipt->0@.body_hash != body_hash {
                Err(HumanCommitError::TransactionConflict)
            } else {
                Ok(Admission::Replayed(facts.receipt->0@))
            }
        } else {
            match challenge_verdict(
                opt_challenge(facts.challenge),
                command,
                body_hash,
                facts.now_us,
            ) {
                Ok(()) => if facts.state != c.expected_state {
                    Err(HumanCommitError::StateChanged)
                } else {
                    match facts.staged {
                        Some(s) => if s@.body != body || s@.operation != c.operation {
                            Err(HumanCommitError::BodyChanged)
                        } else {
                            Ok(Admission::Fresh(b, s@))
                        },
                        None => Err(HumanCommitError::InvalidCommand),
                    }
                },
                Err(e) => Err(e),
            }
        },
        Err(e) => Err(e),
    }
}

/// An admitted transaction.
pub enum Admitted {
    /// It was committed before.
    Replayed(HumanReceipt),
    /// It is to be applied.
    Fresh(Body, Staged),
}

impl View for Admitted {
    type V = Admission;

    open spec fn view(&self) -> Admission {
        match self {
            Admitted::Replayed(r) => Admission::Replayed(r@),
            Admitted::Fresh(b, s) => Admission::Fresh(*b, s@),
        }
    }
}

/// Accepts a signed command, or says what is wrong with it.
pub fn accept(
    vault: &[u8; 16],
    command: &[u8],
    body: &[u8],
    body_hash: &[u8; 32],
    facts: CommitFacts,
) -> (r: Result<Admitted, HumanCommitError>)
    ensures
        match admission(*vault, command@, body@, *body_hash, facts) {
            Ok(a) => r is Ok && (r->Ok_0)@ == a,
            Err(e) => r is Err && r->Err_0 == e,
        },
{
    let (c, b) = match check_command(vault, command, body, body_hash) {
        Ok(v) => v,
        Err(e) => {
            return Err(e);
        },
    };
    if !facts.signed {
        return Err(HumanCommitError::InvalidSignature);
    }
    if let Some(receipt) = facts.receipt {
        return if same_array(receipt.body_hash(), body_hash) {
            Ok(Admitted::Replayed(receipt))
        } else {
            Err(HumanCommitError::TransactionConflict)
        };
    }
    match check_challenge(&facts.challenge, command, body_hash, facts.now_us) {
        Ok(()) => {},
        Err(e) => {
            return Err(e);
        },
    }
    if !same_array(&facts.state, &c.expected_state) {
        return Err(HumanCommitError::StateChanged);
    }
    match facts.staged {
        Some(s) => if same(s.body.as_slice(), body) && same_str(
            s.operation.as_str(),
            c.operation.as_str(),
        ) {
            Ok(Admitted::Fresh(b, s))
        } else {
            Err(HumanCommitError::BodyChanged)
        },
        None => Err(HumanCommitError::InvalidCommand),
    }
}

/// A committed transaction is answered with its receipt and never applied
/// again: once a receipt is stored, no command is admitted afresh.
pub proof fn lemma_no_second_commit(
    vault: [u8; 16],
    command: Seq<u8>,
    body: Seq<u8>,
    body_hash: [u8; 32],
    facts: CommitFacts,
)
    requires
        facts.receipt is Some,
    ensures
        match admission(vault, command, body, body_hash, facts) {
            Ok(a) => a == Admission::Replayed(facts.receipt->0@),
            Err(_) => true,
        },
{
}

/// What is wrong with a signed export command, if anything: everything that
/// binds it, then its signature, the challenge and the state.
pub open spec fn export_verdict(
    vault: [u8; 16],
    command: Seq<u8>,
    body: Seq<u8>,
    body_hash: [u8; 32],
    manifest_digest: [u8; 32],
    facts: CommitFacts,
) -> Result<[u8; 16], HumanCommitError> {
    match command_of(command) {
        Some(c) => match body_of(body) {
            Some(b) => if c.vault != vault || c.operation != "plaintext_export"@ || c.body_hash
                != body_hash || b.events_manifest_digest != manifest_digest || b.event_count != 0
                || b.object_manifest_digest is Some {
                Err(HumanCommitError::BodyChanged)
            } else if !facts.signed {
                Err(HumanCommitError::InvalidSignature)
            } else {
                match challenge_verdict(
                    opt_challenge(facts.challenge),
                    command,
                    c.body_hash,
                    facts.now_us,
                ) {
                    Ok(()) => if facts.state != c.expected_state {
                        Err(HumanCommitError::StateChanged)
                    } else {
                        Ok(b.transaction_id)
                    },
                    Err(e) => Err(e),
                }
            },
            None => Err(HumanCommitError::BodyChanged),
        },
        None => Err(HumanCommitError::InvalidCommand),
    }
}

/// Accepts a signed export command; gives its transaction. `manifest_digest` is
/// the digest that stands for a full export.
pub fn accept_export(
    vault: &[u8; 16],
    command: &[u8],
    body: &[u8],
    body_hash: &[u8; 32],
    manifest_digest: &[u8; 32],
    facts: &CommitFacts,
) -> (r: Result<[u8; 16], HumanCommitError>)
    ensures
        r == export_verdict(*vault, command@, body@, *body_hash, *manifest_digest, *facts),
{
    let c = match decode_command(command) {
        Ok(c) => c,
        Err(_) => {
            return Err(HumanCommitError::InvalidCommand);
        },
    };
    let b = match decode_body(body) {
        Ok(b) => b,
        Err(_) => {
            return Err(HumanCommitError::BodyChanged);
        },
    };
    if !same_array(&c.vault, vault) || !same_str(c.operation.as_str(), "plaintext_export")
        || !same_array(&c.body_hash, body_hash) || !same_array(
        &b.events_manifest_digest,
        manifest_digest,
    ) || b.event_count != 0 || b.object_manifest_digest.is_some() {
        return Err(HumanCommitError::BodyChanged);
    }
    if !facts.signed {
        return Err(HumanCommitError::InvalidSignature);
    }
    match check_challenge(&facts.challenge, command, &c.body_hash, facts.now_us) {
        Ok(()) => {},
        Err(e) => {
            return Err(e);
        },
    }
    if !same_array(&facts.state, &c.expected_state) {
        return Err(HumanCommitError::StateChanged);
    }
    Ok(b.transaction_id)
}

/// How a transaction is committed: the root bundle is replaced, a batch is
/// written, a revision becomes the newest one in two events, or one event is
/// written.
#[derive(Clone, Copy, Debug, PartialEq, Eq, Structural)]
pub enum CommitPath {
    Rotation,
    Import,
    BackupRestore,
    Restore,
    Single,
}

/// How a transaction of an event kind is committed.
pub open spec fn path_of(kind: Seq<char>) -> CommitPath {
    if kind == "root-password-rotate"@ || kind == "root-recovery-rotate"@ {
        CommitPath::Rotation
    } else if kind == "import-batch"@ {
        CommitPath::Import
    } else if kind == "backup-restore"@ {
        CommitPath::BackupRestore
    } else if kind == "restore"@ {
        CommitPath::Restore
    } else {
        CommitPath::Single
    }
}

/// How a transaction of an event kind is committed.
pub fn commit_path(kind: &str) -> (r: CommitPath)
    ensures
        r == path_of(kind@),
{
    if same_str(kind, "root-password-rotate") || same_str(kind, "root-recovery-rotate") {
        CommitPath::Rotation
    } else if same_str(kind, "import-batch") {
        CommitPath::Import
    } else if same_str(kind, "backup-restore") {
        CommitPath::BackupRestore
    } else if same_str(kind, "restore") {
        CommitPath::Restore
    } else {
        CommitPath::Single
    }
}

/// An event that is ready to be signed.
pub struct PlannedEvent {
    pub event_id: [u8; 16],
    pub event: Vec<u8>,
    pub seq: u64,
    /// The head that the event follows.
    pub previous: Option<[u8; 32]>,
    pub parents: Vec<[u8; 32]>,
    pub kind: String,
    pub subject: [u8; 16],
    pub subject_generation: u64,
}

/// Where events are written: the vault and the device that issues them.
#[derive(Clone, Copy, Debug)]
pub struct Issuer {
    pub vault: [u8; 16],
    pub device: [u8; 16],
}

/// An event of the first epoch and generation.
pub open spec fn first_event(
    issuer: Issuer,
    event_id: [u8; 16],
    seq: u64,
    previous: Option<[u8; 32]>,
    parents: Seq<[u8; 32]>,
    kind: Seq<char>,
    subject: [u8; 16],
    subject_generation: u64,
    body: Seq<u8>,
) -> EventModel {
    EventModel {
        vault: issuer.vault,
        event_id,
        authority_epoch: 1,
        issuer_device: issuer.device,
        issuer_generation: 1,
        seq,
        previous,
        parents,
        kind,
        subject,
        subject_generation,
        body,
    }
}

/// Whether a planned event follows the given digests and the previous head, and
/// carries what it should.
pub open spec fn planned(
    p: PlannedEvent,
    issuer: Issuer,
    event_id: [u8; 16],
    current_seq: i64,
    previous: Option<[u8; 32]>,
    specific: Seq<[u8; 32]>,
    kind: Seq<char>,
    subject: [u8; 16],
    subject_generation: u64,
    body: Seq<u8>,
) -> bool {
    &&& p.event_id == event_id
    &&& p.seq == current_seq + 1
    &&& p.previous == previous
    &&& p.kind@ == kind
    &&& p.subject == subject
    &&& p.subject_generation == subject_generation
    &&& parents_of(p.parents@, specific, previous)
    &&& p.event@ == g5_event_bytes(
        first_event(
            issuer,
            event_id,
            p.seq,
            previous,
            p.parents@,
            kind,
            subject,
            subject_generation,
            body,
        ),
    )
}

/// Whether a sequence number can be followed by a storable one.
pub open spec fn seq_extends(current: i64) -> bool {
    0 <= current < i64::MAX
}

/// Plans an event behind the highest sequence number stored.
pub fn plan_event(
    issuer: &Issuer,
    event_id: [u8; 16],
    current_seq: i64,
    previous: &Option<[u8; 32]>,
    specific: &Vec<[u8; 32]>,
    kind: &str,
    subject: [u8; 16],
    subject_generation: u64,
    body: Vec<u8>,
) -> (r: Result<PlannedEvent, HumanCommitError>)
    ensures
        r is Ok <==> seq_extends(current_seq),
        r is Ok ==> planned(
            r->Ok_0,
            *issuer,
            event_id,
            current_seq,
            *previous,
            specific@,
            kind@,
            subject,
            subject_generation,
            body@,
        ),
        r is Err ==> r->Err_0 is InvalidCommand,
{
    let seq: u64 = match next_authority_seq(current_seq) {
        Ok(seq) => seq,
        Err(e) => {
            return Err(e);
        },
    };
    if seq > i64::MAX as u64 {
        return Err(HumanCommitError::InvalidCommand);
    }
    let parents = join_parents(specific, previous);
    let input = G5EventInput {
        vault: issuer.vault,
        event_id,
        authority_epoch: 1,
        issuer_device: issuer.device,
        issuer_generation: 1,
        seq,
        previous: *previous,
        parents: slice_to_vec(parents.as_slice()),
        kind: kind.to_owned(),
        subject,
        subject_generation,
        body,
    };
    let event = encode_g5_event(&input);
    Ok(
        PlannedEvent {
            event_id,
            event,
            seq,
            previous: *previous,
            parents,
            kind: kind.to_owned(),
            subject,
            subject_generation,
        },
    )
}

/// The body of a single event: the staged authority body, or what is said of
/// the revision or audit range.
pub open spec fn single_body(s: StagedModel, body: Body, committed_at_us: i64) -> Seq<u8> {
    match s.authority_body {
        Some(b) => b,
        None => legacy_event_body_bytes(
            LegacyEventBody {
                revision: s.revision_id,
                modified_at: committed_at_us,
                audit_generation: s.audit_generation,
                audit_through_seq: s.audit_through_seq,
                object_manifest_digest: body.object_manifest_digest,
            },
        ),
    }
}

/// The subject generation of a single event.
pub open spec fn single_generation(s: StagedModel) -> u64 {
    match s.subject_generation {
        Some(n) => n,
        None => 1,
    }
}

/// What is wrong with planning a single event, if anything: the stored events
/// of its subject are malformed, the parents are too many, or a number cannot
/// be stored.
pub open spec fn single_plannable(
    s: StagedModel,
    events: Seq<crate::events::AuthorityRowModel>,
    current_seq: i64,
    parents: Seq<[u8; 32]>,
) -> bool {
    &&& seq_extends(current_seq)
    &&& digests_of(events, parent_kinds(s.event_kind), events.len() as int) is Some
    &&& parents.len() <= MAX_PARENTS
    &&& single_generation(s) <= i64::MAX
}

/// Plans the event of a transaction that has only one.
pub fn plan_single(
    issuer: &Issuer,
    event_id: [u8; 16],
    current_seq: i64,
    previous: &Option<[u8; 32]>,
    events: &Vec<AuthorityRow>,
    s: &Staged,
    body: &Body,
    committed_at_us: i64,
) -> (r: Result<PlannedEvent, HumanCommitError>)
    ensures
        r is Ok ==> {
            let p = r->Ok_0;
            &&& single_plannable(s@, views(events@), current_seq, p.parents@)
            &&& exists|specific: Seq<[u8; 32]>|
                digests_of(views(events@), parent_kinds(s@.event_kind), events@.len() as int)
                    == Some(#[trigger] digest_bytes(specific)) && planned(
                    p,
                    *issuer,
                    event_id,
                    current_seq,
                    *previous,
                    specific,
                    s@.event_kind,
                    s@.item_id,
                    single_generation(s@),
                    single_body(s@, *body, committed_at_us),
                )
        },
        r is Err ==> r->Err_0 is InvalidCommand && forall|specific: Seq<[u8; 32]>, parents: Seq<
            [u8; 32],
        >|
            digests_of(views(events@), parent_kinds(s@.event_kind), events@.len() as int) == Some(
                #[trigger] digest_bytes(specific),
            ) && #[trigger] parents_of(parents, specific, *previous) ==> !single_plannable(
                s@,
                views(events@),
                current_seq,
                parents,
            ),
{
    let specific = match authority_specific_parents(events, s.event_kind.as_str()) {
        Ok(v) => v,
        Err(e) => {
            return Err(HumanCommitError::InvalidCommand);
        },
    };
    let bytes = match &s.authority_body {
        Some(b) => slice_to_vec(b.as_slice()),
        None => {
            let legacy = LegacyEventBody {
                revision: s.revision_id,
                modified_at: committed_at_us,
                audit_generation: s.audit_generation,
                audit_through_seq: s.audit_through_seq,
                object_manifest_digest: body.object_manifest_digest,
            };
            encode_legacy_event_body(&legacy)
        },
    };
    let generation: u64 = match s.subject_generation {
        Some(n) => n,
        None => 1,
    };
    if generation > i64::MAX as u64 {
        return Err(HumanCommitError::InvalidCommand);
    }
    let p = match plan_event(
        issuer,
        event_id,
        current_seq,
        previous,
        &specific,
        s.event_kind.as_str(),
        s.item_id,
        generation,
        bytes,
    ) {
        Ok(p) => p,
        Err(e) => {
            return Err(HumanCommitError::InvalidCommand);
        },
    };
    if p.parents.len() > MAX_PARENTS {
        proof {
            lemma_unique_parents(p.parents@, specific@, *previous);
        }
        return Err(HumanCommitError::InvalidCommand);
    }
    Ok(p)
}

/// The parents of an event are determined by what they come from.
proof fn lemma_unique_parents(
    parents: Seq<[u8; 32]>,
    specific: Seq<[u8; 32]>,
    previous: Option<[u8; 32]>,
)
    requires
        parents_of(parents, specific, previous),
    ensures
        forall|s: Seq<[u8; 32]>, p: Seq<[u8; 32]>|
            #[trigger] digest_bytes(s) == digest_bytes(specific) && #[trigger] parents_of(
                p,
                s,
                previous,
            ) ==> p == parents,
{
    assert forall|s: Seq<[u8; 32]>, p: Seq<[u8; 32]>|
        #[trigger] digest_bytes(s) == digest_bytes(specific) && #[trigger] parents_of(
            p,
            s,
            previous,
        ) implies p == parents by {
        crate::staging::lemma_digest_bytes(s, specific);
        crate::ordered::lemma_increasing_unique(p, parents);
    }
}

/// What a staged event changes.
#[allow(inconsistent_fields)]
pub enum StagedAction {
    /// Store a revision with its files and make it visible.
    WriteRevision {
        revision: [u8; 16],
        kind: String,
        package: Vec<u8>,
        attachments: Vec<StagedAttachment>,
    },
    /// Put an active item into the trash and disable its credential.
    Trash,
    /// Remove these revisions and remember that they were purged.
    PurgeRevisions(Vec<[u8; 16]>),
    /// Remove these revisions and the item in the trash with them.
    PurgeItem(Vec<[u8; 16]>),
    /// Remove an audit prefix.
    PurgeAudit { generation: u64, through_seq: u64 },
    /// Make an agent generation active.
    GrantAgent { generation: u64, grant: AgentGrantBody },
    /// Revoke the active agent generation.
    RevokeAgent { generation: u64 },
    /// Suspend or resume all delegated access.
    SetDelegation { resumed: bool },
    /// Make a credential available.
    Enable { revision: [u8; 16], commitment: [u8; 32], package: Vec<u8>, grant: Vec<u8> },
    /// Make a credential unavailable.
    Disable,
}

/// The contents of a [`StagedAction`].
#[allow(inconsistent_fields)]
pub enum ActionModel {
    WriteRevision {
        revision: [u8; 16],
        kind: Seq<char>,
        package: Seq<u8>,
        attachments: Seq<StagedAttachmentModel>,
    },
    Trash,
    PurgeRevisions(Seq<[u8; 16]>),
    PurgeItem(Seq<[u8; 16]>),
    PurgeAudit { generation: u64, through_seq: u64 },
    GrantAgent { generation: u64, grant: GrantBodyModel },
    RevokeAgent { generation: u64 },
    SetDelegation { resumed: bool },
    Enable { revision: [u8; 16], commitment: [u8; 32], package: Seq<u8>, grant: Seq<u8> },
    Disable,
}

impl View for StagedAction {
    type V = ActionModel;

    open spec fn view(&self) -> ActionModel {
        match self {
            StagedAction::WriteRevision { revision, kind, package, attachments } =>
                ActionModel::WriteRevision {
                revision: *revision,
                kind: kind@,
                package: package@,
                attachments: views(attachments@),
            },
            StagedAction::Trash => ActionModel::Trash,
            StagedAction::PurgeRevisions(v) => ActionModel::PurgeRevisions(v@),
            StagedAction::PurgeItem(v) => ActionModel::PurgeItem(v@),
            StagedAction::PurgeAudit { generation, through_seq } => ActionModel::PurgeAudit {
                generation: *generation,
                through_seq: *through_seq,
            },
            StagedAction::GrantAgent { generation, grant } => ActionModel::GrantAgent {
                generation: *generation,
                grant: grant@,
            },
            StagedAction::RevokeAgent { generation } => ActionModel::RevokeAgent {
                generation: *generation,
            },
            StagedAction::SetDelegation { resumed } => ActionModel::SetDelegation {
                resumed: *resumed,
            },
            StagedAction::Enable { revision, commitment, package, grant } => ActionModel::Enable {
                revision: *revision,
                commitment: *commitment,
                package: package@,
                grant: grant@,
            },
            StagedAction::Disable => ActionModel::Disable,
        }
    }
}

/// The staged files of a revision; none where nothing is staged inline.
pub open spec fn inline_files(s: StagedModel) -> Option<Seq<StagedAttachmentModel>> {
    match s.attachments {
        Some(b) => staged_attachments_of(b),
        None => Some(Seq::empty()),
    }
}

/// The generation that a staged identity change is about, where it can be
/// stored.
pub open spec fn identity_generation(s: StagedModel) -> Result<u64, HumanCommitError> {
    match s.subject_generation {
        Some(n) => if n <= i64::MAX {
            Ok(n)
        } else {
            Err(HumanCommitError::InvalidInput)
        },
        None => Err(HumanCommitError::BodyChanged),
    }
}

/// What a staged event changes; a missing part counts as a changed body.
pub open spec fn action_of(s: StagedModel, signed_grant: Option<Seq<u8>>) -> Result<
    ActionModel,
    HumanCommitError,
> {
    let changed = Err::<ActionModel, HumanCommitError>(HumanCommitError::BodyChanged);
    if s.event_kind == "item-revision"@ {
        match (s.revision_id, s.package, s.item_kind) {
            (Some(revision), Some(package), Some(kind)) => match inline_files(s) {
                Some(attachments) => Ok(
                    ActionModel::WriteRevision { revision, kind, package, attachments },
                ),
                None => Err(HumanCommitError::Storage),
            },
            _ => changed,
        }
    } else if s.event_kind == "trash"@ {
        Ok(ActionModel::Trash)
    } else if is_purge(s.event_kind) {
        match s.authority_body {
            Some(b) => match item_purge_body_of(b) {
                Some(m) => if s.event_kind == "purge-item"@ {
                    Ok(ActionModel::PurgeItem(m.revisions))
                } else {
                    Ok(ActionModel::PurgeRevisions(m.revisions))
                },
                None => Err(HumanCommitError::InvalidCommand),
            },
            None => changed,
        }
    } else if s.event_kind == "audit-purge"@ {
        match (s.audit_generation, s.audit_through_seq) {
            (Some(generation), Some(through_seq)) => Ok(
                ActionModel::PurgeAudit { generation, through_seq },
            ),
            _ => changed,
        }
    } else if s.event_kind == "agent-grant"@ {
        match s.authority_body {
            Some(b) => match agent_grant_body_of(b) {
                Some(grant) => match identity_generation(s) {
                    Ok(generation) => Ok(ActionModel::GrantAgent { generation, grant }),
                    Err(e) => Err(e),
                },
                None => Err(HumanCommitError::InvalidCommand),
            },
            None => changed,
        }
    } else if s.event_kind == "agent-revoke"@ {
        match identity_generation(s) {
            Ok(generation) => Ok(ActionModel::RevokeAgent { generation }),
            Err(e) => Err(e),
        }
    } else if s.event_kind == "suspend"@ {
        Ok(ActionModel::SetDelegation { resumed: false })
    } else if s.event_kind == "resume"@ {
        Ok(ActionModel::SetDelegation { resumed: true })
    } else if s.event_kind == "enable"@ {
        match s.authority_body {
            Some(b) => match enable_body_of(b) {
                Some(m) => match (s.package, signed_grant) {
                    (Some(package), Some(grant)) => Ok(
                        ActionModel::Enable {
                            revision: m.revision,
                            commitment: m.commitment,
                            package,
                            grant,
                        },
                    ),
                    _ => changed,
                },
                None => Err(HumanCommitError::InvalidCommand),
            },
            None => changed,
        }
    } else if s.event_kind == "disable"@ {
        Ok(ActionModel::Disable)
    } else {
        changed
    }
}

/// The generation that a staged identity change is about.
fn stored_generation(s: &Staged) -> (r: Result<u64, HumanCommitError>)
    ensures
        r == identity_generation(s@),
{
    match s.subject_generation {
        Some(n) => if n <= i64::MAX as u64 {
            Ok(n)
        } else {
            Err(HumanCommitError::InvalidInput)
        },
        None => Err(HumanCommitError::BodyChanged),
    }
}

/// A staged revision as it is written.
fn write_revision(s: &Staged) -> (r: Result<StagedAction, HumanCommitError>)
    ensures
        match (s@.revision_id, s@.package, s@.item_kind) {
            (Some(revision), Some(package), Some(kind)) => match inline_files(s@) {
                Some(attachments) => r is Ok && (r->Ok_0)@ == (ActionModel::WriteRevision {
                    revision,
                    kind,
                    package,
                    attachments,
                }),
                None => r is Err && r->Err_0 == HumanCommitError::Storage,
            },
            _ => r is Err && r->Err_0 == HumanCommitError::BodyChanged,
        },
{
    match (&s.revision_id, &s.package, &s.item_kind) {
        (Some(revision), Some(package), Some(kind)) => {
            let attachments = match &s.attachments {
                Some(b) => match decode_staged_attachments(b.as_slice()) {
                    Ok(v) => v,
                    Err(_) => {
                        return Err(HumanCommitError::Storage);
                    },
                },
                None => {
                    let none: Vec<StagedAttachment> = Vec::new();
                    assert(views(none@) =~= Seq::<StagedAttachmentModel>::empty());
                    none
                },
            };
            Ok(
                StagedAction::WriteRevision {
                    revision: *revision,
                    kind: kind.clone(),
                    package: slice_to_vec(package.as_slice()),
                    attachments,
                },
            )
        },
        _ => Err(HumanCommitError::BodyChanged),
    }
}

/// A staged purge as it is applied.
fn purge_content(s: &Staged, whole: bool) -> (r: Result<StagedAction, HumanCommitError>)
    ensures
        match s@.authority_body {
            Some(b) => match item_purge_body_of(b) {
                Some(m) => r is Ok && (r->Ok_0)@ == (if whole {
                    ActionModel::PurgeItem(m.revisions)
                } else {
                    ActionModel::PurgeRevisions(m.revisions)
                }),
                None => r is Err && r->Err_0 == HumanCommitError::InvalidCommand,
            },
            None => r is Err && r->Err_0 == HumanCommitError::BodyChanged,
        },
{
    match &s.authority_body {
        Some(b) => match decode_item_purge_body(b.as_slice()) {
            Ok(m) => Ok(
                if whole {
                    StagedAction::PurgeItem(m.revisions)
                } else {
                    StagedAction::PurgeRevisions(m.revisions)
                },
            ),
            Err(_) => Err(HumanCommitError::InvalidCommand),
        },
        None => Err(HumanCommitError::BodyChanged),
    }
}

/// A staged agent grant as it is applied.
fn grant_agent(s: &Staged) -> (r: Result<StagedAction, HumanCommitError>)
    ensures
        match s@.authority_body {
            Some(b) => match agent_grant_body_of(b) {
                Some(grant) => match identity_generation(s@) {
                    Ok(generation) => r is Ok && (r->Ok_0)@ == (ActionModel::GrantAgent {
                        generation,
                        grant,
                    }),
                    Err(e) => r is Err && r->Err_0 == e,
                },
                None => r is Err && r->Err_0 == HumanCommitError::InvalidCommand,
            },
            None => r is Err && r->Err_0 == HumanCommitError::BodyChanged,
        },
{
    match &s.authority_body {
        Some(b) => match decode_agent_grant_body(b.as_slice()) {
            Ok(grant) => match stored_generation(s) {
                Ok(generation) => Ok(StagedAction::GrantAgent { generation, grant }),
                Err(e) => Err(e),
            },
            Err(_) => Err(HumanCommitError::InvalidCommand),
        },
        None => Err(HumanCommitError::BodyChanged),
    }
}

/// A staged availability as it is applied.
fn enable_credential(s: &Staged, signed_grant: Option<&[u8]>) -> (r: Result<
    StagedAction,
    HumanCommitError,
>)
    ensures
        match s@.authority_body {
            Some(b) => match enable_body_of(b) {
                Some(m) => match (s@.package, crate::cbor::opt_view(signed_grant)) {
                    (Some(package), Some(grant)) => r is Ok && (r->Ok_0)@ == (
                    ActionModel::Enable {
                        revision: m.revision,
                        commitment: m.commitment,
                        package,
                        grant,
                    }),
                    _ => r is Err && r->Err_0 == HumanCommitError::BodyChanged,
                },
                None => r is Err && r->Err_0 == HumanCommitError::InvalidCommand,
            },
            None => r is Err && r->Err_0 == HumanCommitError::BodyChanged,
        },
{
    match &s.authority_body {
        Some(b) => match decode_enable_body(b.as_slice()) {
            Ok(m) => match (&s.package, signed_grant) {
                (Some(package), Some(grant)) => Ok(
                    StagedAction::Enable {
                        revision: m.revision,
                        commitment: m.commitment,
                        package: slice_to_vec(package.as_slice()),
                        grant: slice_to_vec(grant),
                    },
                ),
                _ => Err(HumanCommitError::BodyChanged),
            },
            Err(_) => Err(HumanCommitError::InvalidCommand),
        },
        None => Err(HumanCommitError::BodyChanged),
    }
}

/// Tells what a staged event changes; `signed_grant` is its finished grant.
pub fn staged_action(s: &Staged, signed_grant: Option<&[u8]>) -> (r: Result<
    StagedAction,
    HumanCommitError,
>)
    ensures
        match action_of(s@, crate::cbor::opt_view(signed_grant)) {
            Ok(m) => r is Ok && (r->Ok_0)@ == m,
            Err(e) => r is Err && r->Err_0 == e,
        },
{
    let kind = s.event_kind.as_str();
    if same_str(kind, "item-revision") {
        write_revision(s)
    } else if same_str(kind, "trash") {
        Ok(StagedAction::Trash)
    } else if same_str(kind, "purge-item") || same_str(kind, "purge-revisions") {
        purge_content(s, same_str(kind, "purge-item"))
    } else if same_str(kind, "audit-purge") {
        match (s.audit_generation, s.audit_through_seq) {
            (Some(generation), Some(through_seq)) => Ok(
                StagedAction::PurgeAudit { generation, through_seq },
            ),
            _ => Err(HumanCommitError::BodyChanged),
        }
    } else if same_str(kind, "agent-grant") {
        grant_agent(s)
    } else if same_str(kind, "agent-revoke") {
        match stored_generation(s) {
            Ok(generation) => Ok(StagedAction::RevokeAgent { generation }),
            Err(e) => Err(e),
        }
    } else if same_str(kind, "suspend") {
        Ok(StagedAction::SetDelegation { resumed: false })
    } else if same_str(kind, "resume") {
        Ok(StagedAction::SetDelegation { resumed: true })
    } else if same_str(kind, "enable") {
        enable_credential(s, signed_grant)
    } else if same_str(kind, "disable") {
        Ok(StagedAction::Disable)
    } else {
        Err(HumanCommitError::BodyChanged)
    }
}

/// A well-shaped event whose numbers can be stored, and whose grant is there
/// where it needs one, always says what it changes.
pub proof fn lemma_shaped_has_action(
    s: StagedModel,
    stream_count: i64,
    signed_grant: Option<Seq<u8>>,
)
    requires
        crate::staging::event_shaped(s, stream_count),
        s.event_kind != "restore"@,
        s.event_kind == "item-revision"@ ==> inline_files(s) is Some,
        single_generation(s) <= i64::MAX,
        s.event_kind == "enable"@ ==> signed_grant is Some,
    ensures
        action_of(s, signed_grant) is Ok,
{
    crate::staging::lemma_kinds();
}

/// A planned event says who issued it, where it stands in the history and what
/// it is about: it follows the head, one number higher, and holds its body.
pub proof fn lemma_event_says(
    p: PlannedEvent,
    issuer: Issuer,
    event_id: [u8; 16],
    current_seq: i64,
    previous: Option<[u8; 32]>,
    specific: Seq<[u8; 32]>,
    kind: Seq<char>,
    subject: [u8; 16],
    subject_generation: u64,
    body: Seq<u8>,
    digest: [u8; 32],
)
    requires
        planned(
            p,
            issuer,
            event_id,
            current_seq,
            previous,
            specific,
            kind,
            subject,
            subject_generation,
            body,
        ),
        seq_extends(current_seq),
        p.event@.len() <= u64::MAX,
    ensures
        ({
            let b = next_map(Some(p.event@), 13);
            let vault = next_bytes(next_key(after(next_uint(next_key(b, "v"@))), "vault"@));
            let id = next_bytes(next_key(after(vault), "event_id"@));
            let epoch = next_uint(next_key(after(id), "authority_epoch"@));
            let device = next_bytes(next_key(after(epoch), "issuer_device"@));
            &&& vault is Some && (vault->0).0 == issuer.vault@
            &&& id is Some && (id->0).0 == event_id@
            &&& epoch is Some && (epoch->0).0 == 1
            &&& device is Some && (device->0).0 == issuer.device@
        }),
        header_at(digest, p.event@) == Some(
            (
                HeaderModel {
                    digest,
                    seq: (current_seq + 1) as u64,
                    previous,
                    parents: p.parents@,
                    kind,
                    subject,
                    subject_generation,
                },
                body,
            ),
        ),
        p.event_id == event_id,
        p.seq == current_seq + 1,
        p.previous == previous,
        p.kind@ == kind,
        p.subject == subject,
        p.subject_generation == subject_generation,
        forall|x: [u8; 32]|
            #[trigger] p.parents@.contains(x) <==> specific.contains(x) || previous == Some(x),
{
    let m = EventModel {
        vault: issuer.vault,
        event_id,
        authority_epoch: 1,
        issuer_device: issuer.device,
        issuer_generation: 1,
        seq: (current_seq + 1) as u64,
        previous,
        parents: p.parents@,
        kind,
        subject,
        subject_generation,
        body,
    };
    assert(p.event@ == g5_event_bytes(m));
    lemma_event_header(digest, m);
    lemma_g5_event_fields(m);
}

/// The event of a single command says what was staged: its body is the staged
/// one, or else names the revision, the time, the audit range and the digest of
/// the objects; its generation is the staged one, or else the first.
pub proof fn lemma_single_says(s: StagedModel, body: Body, committed_at_us: i64)
    requires
        single_body(s, body, committed_at_us).len() <= u64::MAX,
    ensures
        s.authority_body matches Some(b) ==> single_body(s, body, committed_at_us) == b,
        s.authority_body is None ==> {
            let b = next_map(Some(single_body(s, body, committed_at_us)), 5);
            let revision = next_optional_bytes(next_key(b, "revision_id"@));
            let at = next_int(next_key(after(revision), "modified_at"@));
            let generation = next_optional_uint(next_key(after(at), "audit_generation"@));
            let through = next_optional_uint(next_key(after(generation), "audit_through_seq"@));
            let digest = next_optional_bytes(next_key(after(through), "object_manifest_digest"@));
            &&& revision is Some && (revision->0).0 == opt_array(s.revision_id)
            &&& at is Some && (at->0).0 == committed_at_us
            &&& generation is Some && (generation->0).0 == s.audit_generation
            &&& through is Some && (through->0).0 == s.audit_through_seq
            &&& digest is Some && (digest->0).0 == opt_array(body.object_manifest_digest)
            &&& after(digest) == Some(Seq::<u8>::empty())
        },
        s.subject_generation matches Some(n) ==> single_generation(s) == n,
        s.subject_generation is None ==> single_generation(s) == 1,
{
    if s.authority_body is None {
        let m = LegacyEventBody {
            revision: s.revision_id,
            modified_at: committed_at_us,
            audit_generation: s.audit_generation,
            audit_through_seq: s.audit_through_seq,
            object_manifest_digest: body.object_manifest_digest,
        };
        lemma_legacy_event_body_fields(m);
        let b = next_map(Some(single_body(s, body, committed_at_us)), 5);
        let revision = next_optional_bytes(next_key(b, "revision_id"@));
        let at = next_int(next_key(after(revision), "modified_at"@));
        let generation = next_optional_uint(next_key(after(at), "audit_generation"@));
        let through = next_optional_uint(next_key(after(generation), "audit_through_seq"@));
        let digest = next_optional_bytes(next_key(after(through), "object_manifest_digest"@));
        assert((digest->0).1 =~= Seq::<u8>::empty());
    }
}

/// Commands that write different revisions, or write at different times, give
/// different events.
pub proof fn lemma_single_differs(
    s: StagedModel,
    body: Body,
    at: i64,
    other: StagedModel,
    other_body: Body,
    other_at: i64,
)
    requires
        s.authority_body is None,
        other.authority_body is None,
        single_body(s, body, at) == single_body(other, other_body, other_at),
        single_body(s, body, at).len() <= u64::MAX,
    ensures
        s.revision_id == other.revision_id,
        at == other_at,
        s.audit_generation == other.audit_generation,
        s.audit_through_seq == other.audit_through_seq,
        body.object_manifest_digest == other_body.object_manifest_digest,
{
    lemma_single_says(s, body, at);
    lemma_single_says(other, other_body, other_at);
    match (s.revision_id, other.revision_id) {
        (Some(a), Some(b)) => lemma_same_array(a, b),
        _ => {},
    }
    match (body.object_manifest_digest, other_body.object_manifest_digest) {
        (Some(a), Some(b)) => lemma_same_array(a, b),
        _ => {},
    }
}

/// The digests that are taken are those of the events of the kinds that count,
/// and no others.
pub proof fn lemma_digests_taken(
    rows: Seq<AuthorityRowModel>,
    kinds: Seq<&'static str>,
    n: int,
    x: Seq<u8>,
)
    requires
        0 <= n <= rows.len(),
        digests_of(rows, kinds, n) is Some,
    ensures
        (digests_of(rows, kinds, n)->0).contains(x) <==> exists|i: int|
            0 <= i < n && (#[trigger] rows[i]).digest == x && kind_among(rows[i].kind, kinds),
    decreases n,
{
    if n > 0 {
        let before = digests_of(rows, kinds, n - 1)->0;
        let now = digests_of(rows, kinds, n)->0;
        let row = rows[n - 1];
        lemma_digests_taken(rows, kinds, n - 1, x);
        if now.contains(x) {
            let i = choose|i: int| 0 <= i < now.len() && now[i] == x;
            if i < before.len() {
                assert(before[i] == x);
                assert(before.contains(x));
            } else {
                assert(rows[n - 1].digest == x);
            }
        }
        if before.contains(x) {
            let i = choose|i: int| 0 <= i < before.len() && before[i] == x;
            assert(now[i] == x);
        }
        if kind_among(row.kind, kinds) && row.digest == x {
            assert(now.last() == x);
        }
    }
}

/// Which kinds of earlier events an event of a kind refers to: a grant to those
/// that granted or revoked, a resumption to those that suspended, a delegation
/// or its end to all that enabled, disabled or deleted, and a change of an
/// item's place to all that wrote, deleted or restored it. Others refer to none.
pub proof fn lemma_parent_kinds(kind: Seq<char>, earlier: Seq<char>)
    ensures
        kind_among(earlier, parent_kinds(kind)) <==> {
            ||| kind == "agent-grant"@ && (earlier == "agent-grant"@ || earlier == "agent-revoke"@)
            ||| kind == "resume"@ && earlier == "suspend"@
            ||| (kind == "enable"@ || kind == "disable"@) && (earlier == "enable"@ || earlier
                == "disable"@ || earlier == "trash"@ || earlier == "purge-item"@ || earlier
                == "purge-revisions"@)
            ||| (kind == "trash"@ || kind == "restore"@ || kind == "purge-item"@ || kind
                == "purge-revisions"@) && (earlier == "item-revision"@ || earlier == "trash"@
                || earlier == "restore"@ || earlier == "purge-item"@ || earlier
                == "purge-revisions"@)
        },
{
    reveal_strlit("agent-grant");
    reveal_strlit("resume");
    reveal_strlit("enable");
    reveal_strlit("disable");
    reveal_strlit("trash");
    reveal_strlit("restore");
    reveal_strlit("purge-item");
    reveal_strlit("purge-revisions");
    assert("agent-grant"@.len() == 11 && "resume"@.len() == 6 && "enable"@.len() == 6);
    assert("resume"@[0] == 'r' && "enable"@[0] == 'e');
    assert("disable"@.len() == 7 && "disable"@[0] == 'd');
    assert("trash"@.len() == 5 && "restore"@.len() == 7 && "restore"@[0] == 'r');
    assert("purge-item"@.len() == 10 && "purge-revisions"@.len() == 15);
    let kinds = parent_kinds(kind);
    if kind == "agent-grant"@ {
        assert(kinds[0]@ == "agent-grant"@ && kinds[1]@ == "agent-revoke"@);
    } else if kind == "resume"@ {
        assert(kinds[0]@ == "suspend"@);
    } else if kind == "enable"@ || kind == "disable"@ {
        assert(kinds[0]@ == "enable"@ && kinds[1]@ == "disable"@ && kinds[2]@ == "trash"@);
        assert(kinds[3]@ == "purge-item"@ && kinds[4]@ == "purge-revisions"@);
    } else if kind == "trash"@ || kind == "restore"@ || kind == "purge-item"@ || kind
        == "purge-revisions"@ {
        assert(kinds[0]@ == "item-revision"@ && kinds[1]@ == "trash"@ && kinds[2]@ == "restore"@);
        assert(kinds[3]@ == "purge-item"@ && kinds[4]@ == "purge-revisions"@);
    }
}

/// The parents of a single command's event are the head and the earlier events
/// of the subject that its kind refers to.
pub proof fn lemma_single_parents(
    rows: Seq<AuthorityRowModel>,
    kind: Seq<char>,
    specific: Seq<[u8; 32]>,
    x: [u8; 32],
)
    requires
        digests_of(rows, parent_kinds(kind), rows.len() as int) == Some(digest_bytes(specific)),
    ensures
        specific.contains(x) <==> exists|i: int|
            0 <= i < rows.len() && (#[trigger] rows[i]).digest == x@ && kind_among(
                rows[i].kind,
                parent_kinds(kind),
            ),
{
    lemma_digests_taken(rows, parent_kinds(kind), rows.len() as int, x@);
    let all = digest_bytes(specific);
    if specific.contains(x) {
        let i = choose|i: int| 0 <= i < specific.len() && specific[i] == x;
        assert(all[i] == x@);
    }
    if all.contains(x@) {
        let i = choose|i: int| 0 <= i < all.len() && all[i] == x@;
        lemma_same_array(specific[i], x);
        assert(specific[i] == x);
    }
}

/// A command that is applied is one of this vault, signed by its owner, for the
/// state that the vault is in, answering a challenge that was issued for exactly
/// this command and body, is not used up and has not expired; what it stages is
/// bound by its body. It is the first of its transaction.
pub proof fn lemma_admitted_fresh(
    vault: [u8; 16],
    command: Seq<u8>,
    body: Seq<u8>,
    body_hash: [u8; 32],
    facts: CommitFacts,
)
    ensures
        ({
            let a = admission(vault, command, body, body_hash, facts);
            let right = {
                &&& command_of(command) is Some
                &&& body_of(body) is Some
                &&& (command_of(command)->0).vault == vault
                &&& (command_of(command)->0).body_hash == body_hash
                &&& facts.signed
                &&& facts.receipt is None
                &&& facts.challenge is Some
                &&& (facts.challenge->0).command@ == command
                &&& (facts.challenge->0).body_hash == body_hash
                &&& !(facts.challenge->0).consumed
                &&& facts.now_us <= (facts.challenge->0).expires_at_us
                &&& facts.state == (command_of(command)->0).expected_state
                &&& facts.staged is Some
                &&& (facts.staged->0)@.body == body
                &&& (facts.staged->0)@.operation == (command_of(command)->0).operation
            };
            &&& a is Ok && a->Ok_0 is Fresh <==> right
            &&& right ==> a->Ok_0 == Admission::Fresh(body_of(body)->0, (facts.staged->0)@)
        }),
{
}

/// A command that was committed before is answered with its receipt where its
/// body is the one that was committed, and is a conflict otherwise.
pub proof fn lemma_admitted_again(
    vault: [u8; 16],
    command: Seq<u8>,
    body: Seq<u8>,
    body_hash: [u8; 32],
    facts: CommitFacts,
)
    requires
        command_of(command) is Some,
        body_of(body) is Some,
        (command_of(command)->0).vault == vault,
        (command_of(command)->0).body_hash == body_hash,
        facts.signed,
        facts.receipt is Some,
    ensures
        admission(vault, command, body, body_hash, facts) == (if (facts.receipt->0)@.body_hash
            == body_hash {
            Ok::<Admission, HumanCommitError>(Admission::Replayed((facts.receipt->0)@))
        } else {
            Err(HumanCommitError::TransactionConflict)
        }),
{
}

/// Each way in which a command is not what was issued has its own refusal.
pub proof fn lemma_refused(
    vault: [u8; 16],
    command: Seq<u8>,
    body: Seq<u8>,
    body_hash: [u8; 32],
    facts: CommitFacts,
)
    requires
        command_of(command) is Some,
        body_of(body) is Some,
        facts.receipt is None,
    ensures
        ({
            let c = command_of(command)->0;
            let a = admission(vault, command, body, body_hash, facts);
            let addressed = c.vault == vault;
            let bound = addressed && c.body_hash == body_hash;
            let signed = bound && facts.signed;
            let challenged = signed && facts.challenge is Some;
            let issued = challenged && (facts.challenge->0).command@ == command && (
            facts.challenge->0).body_hash == body_hash;
            let open = issued && !(facts.challenge->0).consumed && facts.now_us <= (
            facts.challenge->0).expires_at_us;
            let current = open && facts.state == c.expected_state;
            &&& !addressed ==> a == Err::<Admission, _>(HumanCommitError::InvalidCommand)
            &&& addressed && !bound ==> a == Err::<Admission, _>(HumanCommitError::BodyChanged)
            &&& bound && !signed ==> a == Err::<Admission, _>(HumanCommitError::InvalidSignature)
            &&& signed && !challenged ==> a == Err::<Admission, _>(
                HumanCommitError::InvalidCommand,
            )
            &&& challenged && !issued ==> a == Err::<Admission, _>(HumanCommitError::BodyChanged)
            &&& issued && !open ==> a == Err::<Admission, _>(HumanCommitError::ChallengeExpired)
            &&& open && !current ==> a == Err::<Admission, _>(HumanCommitError::StateChanged)
        }),
{
}

/// A plaintext export is released only for a signed command of this vault that
/// asks for exactly that, commits no event and no object, and answers its own
/// open challenge in the state that the vault is in.
pub proof fn lemma_export_released(
    vault: [u8; 16],
    command: Seq<u8>,
    body: Seq<u8>,
    body_hash: [u8; 32],
    manifest_digest: [u8; 32],
    facts: CommitFacts,
)
    ensures
        ({
            let r = export_verdict(vault, command, body, body_hash, manifest_digest, facts);
            let right = {
                &&& command_of(command) is Some
                &&& body_of(body) is Some
                &&& (command_of(command)->0).vault == vault
                &&& (command_of(command)->0).operation == "plaintext_export"@
                &&& (command_of(command)->0).body_hash == body_hash
                &&& (body_of(body)->0).events_manifest_digest == manifest_digest
                &&& (body_of(body)->0).event_count == 0
                &&& (body_of(body)->0).object_manifest_digest is None
                &&& facts.signed
                &&& facts.challenge is Some
                &&& (facts.challenge->0).command@ == command
                &&& (facts.challenge->0).body_hash == body_hash
                &&& !(facts.challenge->0).consumed
                &&& facts.now_us <= (facts.challenge->0).expires_at_us
                &&& facts.state == (command_of(command)->0).expected_state
            };
            &&& r is Ok <==> right
            &&& right ==> r->Ok_0 == (body_of(body)->0).transaction_id
        }),
{
}

/// The kinds of events that a staged transaction may have are different.
proof fn lemma_event_kinds()
    ensures
        forall|i: int, j: int|
            #![trigger event_kind(i), event_kind(j)]
            0 <= i < j < 11 ==> event_kind(i) != event_kind(j),
{
    reveal_strlit("item-revision");
    reveal_strlit("trash");
    reveal_strlit("purge-item");
    reveal_strlit("purge-revisions");
    reveal_strlit("audit-purge");
    reveal_strlit("agent-grant");
    reveal_strlit("agent-revoke");
    reveal_strlit("suspend");
    reveal_strlit("resume");
    reveal_strlit("enable");
    reveal_strlit("disable");
    assert("item-revision"@.len() == 13 && "trash"@.len() == 5 && "purge-item"@.len() == 10);
    assert("purge-revisions"@.len() == 15 && "audit-purge"@.len() == 11);
    assert("agent-grant"@.len() == 11 && "agent-revoke"@.len() == 12);
    assert("suspend"@.len() == 7 && "resume"@.len() == 6 && "enable"@.len() == 6);
    assert("disable"@.len() == 7 && "suspend"@[0] == 's' && "disable"@[0] == 'd');
    assert("resume"@[0] == 'r' && "enable"@[0] == 'e');
    assert("audit-purge"@[1] == 'u' && "agent-grant"@[1] == 'g');
    assert forall|i: int, j: int|
        #![trigger event_kind(i), event_kind(j)]
        0 <= i < j < 11 implies event_kind(i) != event_kind(j) by {
        let n = event_kind(i).len();
        let k = event_kind(j).len();
    }
}

/// The kinds of events that a staged transaction may have.
pub open spec fn event_kind(i: int) -> Seq<char> {
    if i == 0 {
        "item-revision"@
    } else if i == 1 {
        "trash"@
    } else if i == 2 {
        "purge-item"@
    } else if i == 3 {
        "purge-revisions"@
    } else if i == 4 {
        "audit-purge"@
    } else if i == 5 {
        "agent-grant"@
    } else if i == 6 {
        "agent-revoke"@
    } else if i == 7 {
        "suspend"@
    } else if i == 8 {
        "resume"@
    } else if i == 9 {
        "enable"@
    } else {
        "disable"@
    }
}

/// What a staged transaction does when it is applied is what its kind says, with
/// what it staged and nothing else.
#[verifier::rlimit(60)]
pub proof fn lemma_action(s: StagedModel, grant: Option<Seq<u8>>, a: ActionModel)
    requires
        action_of(s, grant) == Ok::<ActionModel, HumanCommitError>(a),
    ensures
        s.event_kind == "item-revision"@ ==> a is WriteRevision && s.revision_id == Some(
            a->WriteRevision_revision,
        ) && s.package == Some(a->WriteRevision_package) && s.item_kind == Some(a->kind)
            && match s.attachments {
            Some(b) => staged_attachments_of(b) == Some(a->attachments),
            None => a->attachments.len() == 0,
        },
        s.event_kind == "trash"@ ==> a is Trash,
        s.event_kind == "purge-item"@ ==> a is PurgeItem && s.authority_body is Some
            && item_purge_body_of(s.authority_body->0) is Some && a->PurgeItem_0
            == (item_purge_body_of(s.authority_body->0)->0).revisions,
        s.event_kind == "purge-revisions"@ ==> a is PurgeRevisions && s.authority_body is Some
            && item_purge_body_of(s.authority_body->0) is Some && a->PurgeRevisions_0
            == (item_purge_body_of(s.authority_body->0)->0).revisions,
        s.event_kind == "audit-purge"@ ==> a is PurgeAudit && s.audit_generation == Some(
            a->PurgeAudit_generation,
        ) && s.audit_through_seq == Some(a->through_seq),
        s.event_kind == "agent-grant"@ ==> a is GrantAgent && s.subject_generation == Some(
            a->GrantAgent_generation,
        ) && s.authority_body is Some && agent_grant_body_of(s.authority_body->0) == Some(
            a->GrantAgent_grant,
        ),
        s.event_kind == "agent-revoke"@ ==> a is RevokeAgent && s.subject_generation == Some(
            a->RevokeAgent_generation,
        ),
        s.event_kind == "suspend"@ ==> a is SetDelegation && !a->resumed,
        s.event_kind == "resume"@ ==> a is SetDelegation && a->resumed,
        s.event_kind == "enable"@ ==> a is Enable && s.authority_body is Some && enable_body_of(
            s.authority_body->0,
        ) is Some && a->Enable_revision == (enable_body_of(s.authority_body->0)->0).revision
            && a->commitment == (enable_body_of(s.authority_body->0)->0).commitment && s.package
            == Some(a->Enable_package) && grant == Some(a->Enable_grant),
        s.event_kind == "disable"@ ==> a is Disable,
        exists|i: int| 0 <= i < 11 && s.event_kind == #[trigger] event_kind(i),
{
    lemma_event_kinds();
    assert(event_kind(0) == "item-revision"@ && event_kind(1) == "trash"@);
    assert(event_kind(2) == "purge-item"@ && event_kind(3) == "purge-revisions"@);
    assert(event_kind(4) == "audit-purge"@ && event_kind(5) == "agent-grant"@);
    assert(event_kind(6) == "agent-revoke"@ && event_kind(7) == "suspend"@);
    assert(event_kind(8) == "resume"@ && event_kind(9) == "enable"@);
    assert(event_kind(10) == "disable"@);
}

/// Rotations, imports and restores are committed in their own ways, and nothing
/// else is.
pub proof fn lemma_commit_path(kind: Seq<char>)
    ensures
        path_of(kind) is Rotation <==> kind == "root-password-rotate"@ || kind
            == "root-recovery-rotate"@,
        path_of(kind) is Import <==> kind == "import-batch"@,
        path_of(kind) is BackupRestore <==> kind == "backup-restore"@,
        path_of(kind) is Restore <==> kind == "restore"@,
{
    reveal_strlit("root-password-rotate");
    reveal_strlit("root-recovery-rotate");
    reveal_strlit("import-batch");
    reveal_strlit("backup-restore");
    reveal_strlit("restore");
    assert("root-password-rotate"@.len() == 20 && "root-recovery-rotate"@.len() == 20);
    assert("import-batch"@.len() == 12 && "backup-restore"@.len() == 14);
    assert("restore"@.len() == 7);
}

/// A command is taken where it can be read, with a body that can be read, and is
/// for this vault and for that body.
pub proof fn lemma_command_taken(
    vault: [u8; 16],
    command: Seq<u8>,
    body: Seq<u8>,
    body_hash: [u8; 32],
)
    ensures
        ({
            let r = command_verdict(vault, command, body, body_hash);
            &&& command_of(command) is None ==> r == Err::<(CommandModel, Body), _>(
                HumanCommitError::InvalidCommand,
            )
            &&& command_of(command) is Some && body_of(body) is None ==> r == Err::<
                (CommandModel, Body),
                _,
            >(HumanCommitError::BodyChanged)
            &&& command_of(command) is Some && body_of(body) is Some ==> {
                let c = command_of(command)->0;
                &&& c.vault != vault ==> r == Err::<(CommandModel, Body), _>(
                    HumanCommitError::InvalidCommand,
                )
                &&& c.vault == vault && c.body_hash != body_hash ==> r == Err::<
                    (CommandModel, Body),
                    _,
                >(HumanCommitError::BodyChanged)
                &&& c.vault == vault && c.body_hash == body_hash ==> r == Ok::<
                    _,
                    HumanCommitError,
                >((c, body_of(body)->0))
            }
        }),
{
}

/// The generation of an identity is the staged one, which there must be and
/// which must fit.
pub proof fn lemma_identity_generation(s: StagedModel, n: u64)
    ensures
        s.subject_generation is None ==> identity_generation(s) == Err::<u64, _>(
            HumanCommitError::BodyChanged,
        ),
        s.subject_generation == Some(n) && n <= i64::MAX ==> identity_generation(s) == Ok::<
            _,
            HumanCommitError,
        >(n),
        s.subject_generation == Some(n) && n > i64::MAX ==> identity_generation(s) == Err::<u64, _>(
            HumanCommitError::InvalidInput,
        ),
{
}

/// A chain can be extended where its last number is not negative and is not the
/// greatest.
pub proof fn lemma_extends(current: i64)
    ensures
        seq_extends(current) <==> current >= 0 && current != i64::MAX,
{
}

} // verus!

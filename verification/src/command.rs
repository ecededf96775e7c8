//! The canonical human command, its transaction body and its receipt.
use crate::bytes::{same, same_str};
use crate::cbor::{
    array_head, bytes_item, int_item, map_head, null_item, optional_bytes_item, optional_uint_item,
    text_item, uint_item, Reader, Writer,
};
use crate::errors::HumanCommitError;
use crate::lists::{array_slice, digests_then, opt_array, put_digests, take_optional_digest};
use crate::migration::{CsvImportReport, ReportModel};
use vstd::prelude::*;

verus! {

/// How long a challenge may be answered, in microseconds.
pub const CHALLENGE_LIFETIME_US: i64 = 60_000_000;

/// Most events of one transaction.
pub const MAX_EVENT_COUNT: u64 = 1_000_000;

/// What the owner signs.
pub struct CommandFields {
    pub vault: [u8; 16],
    pub challenge: [u8; 32],
    pub expected_state: [u8; 32],
    pub operation: String,
    pub body_hash: [u8; 32],
    pub expires_at_us: i64,
}

/// The contents of a [`CommandFields`].
pub struct CommandModel {
    pub vault: [u8; 16],
    pub challenge: [u8; 32],
    pub expected_state: [u8; 32],
    pub operation: Seq<char>,
    pub body_hash: [u8; 32],
    pub expires_at_us: i64,
}

impl View for CommandFields {
    type V = CommandModel;

    open spec fn view(&self) -> CommandModel {
        CommandModel {
            vault: self.vault,
            challenge: self.challenge,
            expected_state: self.expected_state,
            operation: self.operation@,
            body_hash: self.body_hash,
            expires_at_us: self.expires_at_us,
        }
    }
}

/// Whether an operation is one that the owner can command.
pub open spec fn operation_known(operation: Seq<char>) -> bool {
    ||| operation == "item_write"@
    ||| operation == "item_lifecycle"@
    ||| operation == "history_restore"@
    ||| operation == "item_purge"@
    ||| operation == "audit_purge"@
    ||| operation == "identity_change"@
    ||| operation == "availability_change"@
    ||| operation == "import_commit"@
    ||| operation == "plaintext_export"@
    ||| operation == "backup_restore"@
    ||| operation == "root_rotation"@
}

/// Whether a command names a known operation.
pub open spec fn command_valid(m: CommandModel) -> bool {
    operation_known(m.operation)
}

/// Whether a command names a known operation.
fn command_usable(x: &CommandFields) -> (r: bool)
    ensures
        r == command_valid(x@),
{
    let operation = x.operation.as_str();
    same_str(operation, "item_write") || same_str(operation, "item_lifecycle")
        || same_str(operation, "history_restore") || same_str(operation, "item_purge")
        || same_str(operation, "audit_purge") || same_str(operation, "identity_change")
        || same_str(operation, "availability_change") || same_str(operation, "import_commit")
        || same_str(operation, "plaintext_export") || same_str(operation, "backup_restore")
        || same_str(operation, "root_rotation")
}

/// A human command, followed by `t`.
pub open spec fn command_then(m: CommandModel, t: Seq<u8>) -> Seq<u8> {
    map_head(7) + (text_item("v"@) + (uint_item(1) + (text_item("vault"@) + (bytes_item(m.vault@)
        + (text_item("challenge"@) + (bytes_item(m.challenge@) + (text_item("expected_state"@)
        + (bytes_item(m.expected_state@) + (text_item("operation"@) + (text_item(m.operation)
        + (text_item("body_hash"@) + (bytes_item(m.body_hash@) + (text_item("expires_at"@)
        + (int_item(m.expires_at_us) + t))))))))))))))
}

/// Appends a human command.
fn put_command(w: &mut Writer, x: &CommandFields)
    ensures
        forall|t: Seq<u8>|
            #![trigger old(w)@ + command_then(x@, t)]
            final(w)@ + t == old(w)@ + command_then(x@, t),
{
    w.map(7);
    w.str("v");
    w.u64(1);
    w.str("vault");
    w.bytes(&x.vault);
    w.str("challenge");
    w.bytes(&x.challenge);
    w.str("expected_state");
    w.bytes(&x.expected_state);
    w.str("operation");
    w.str(x.operation.as_str());
    w.str("body_hash");
    w.bytes(&x.body_hash);
    w.str("expires_at");
    w.i64(x.expires_at_us);
}

/// Reads a human command.
fn take_command(d: &mut Reader) -> (r: Option<CommandFields>)
    ensures
        forall|m: CommandModel, t: Seq<u8>|
            #![trigger command_then(m, t)]
            old(d).rest() == command_then(m, t) ==> r is Some && (r->0)@ == m
                && final(d).rest() == t,
{
    d.map_of(7)?;
    d.key("v")?;
    let v: u64 = d.u64()?;
    if v != 1 {
        return None;
    }
    d.key("vault")?;
    let vault = d.fixed16()?;
    d.key("challenge")?;
    let challenge = d.fixed32()?;
    d.key("expected_state")?;
    let expected_state = d.fixed32()?;
    d.key("operation")?;
    let operation = d.str()?.to_owned();
    d.key("body_hash")?;
    let body_hash = d.fixed32()?;
    d.key("expires_at")?;
    let expires_at_us: i64 = d.i64()?;
    Some(CommandFields { vault, challenge, expected_state, operation, body_hash, expires_at_us })
}

/// A human command.
pub open spec fn command_bytes(m: CommandModel) -> Seq<u8> {
    command_then(m, Seq::empty())
}

/// Encodes a human command.
pub fn encode_command(x: &CommandFields) -> (r: Vec<u8>)
    ensures
        r@ == command_bytes(x@),
{
    let mut w = Writer::new();
    let ghost none = Seq::<u8>::empty();
    assert(none + command_then(x@, none) =~= command_bytes(x@));
    put_command(&mut w, x);
    assert(w@ + none =~= w@);
    w.finish()
}

/// What bytes decode to: the only human command whose canonical encoding they are.
pub open spec fn command_of(b: Seq<u8>) -> Option<CommandModel> {
    if exists|m: CommandModel| command_valid(m) && #[trigger] command_bytes(m) == b {
        Some(choose|m: CommandModel| command_valid(m) && #[trigger] command_bytes(m) == b)
    } else {
        None
    }
}

/// Decodes a human command; only the canonical encoding is accepted.
pub fn decode_command(input: &[u8]) -> (r: Result<CommandFields, HumanCommitError>)
    ensures
        forall|m: CommandModel|
            command_valid(m) && input@ == #[trigger] command_bytes(m) ==> r is Ok
                && (r->Ok_0)@ == m,
        r is Ok ==> command_valid((r->Ok_0)@) && command_bytes((r->Ok_0)@) == input@,
        match command_of(input@) {
            Some(m) => r is Ok && (r->Ok_0)@ == m,
            None => r is Err && r->Err_0 is InvalidCommand,
        },
{
    let mut d = Reader::new(input);
    let r = match take_command(&mut d) {
        Some(x) => if d.at_end() && command_usable(&x)
            && same(encode_command(&x).as_slice(), input) {
            Ok(x)
        } else {
            Err(HumanCommitError::InvalidCommand)
        },
        None => Err(HumanCommitError::InvalidCommand),
    };
    proof {
        if r is Ok {
            assert(command_bytes((r->Ok_0)@) == input@);
        }
    }
    r
}

/// What a transaction changes, in digests.
#[derive(Clone, Copy, Debug)]
pub struct Body {
    pub transaction_id: [u8; 16],
    pub events_manifest_digest: [u8; 32],
    pub event_count: u64,
    pub object_manifest_digest: Option<[u8; 32]>,
}

impl View for Body {
    type V = Body;

    open spec fn view(&self) -> Body {
        *self
    }
}

/// Whether a transaction has not too many events.
pub open spec fn body_valid(m: Body) -> bool {
    m.event_count <= MAX_EVENT_COUNT
}

/// Whether a transaction has not too many events.
fn body_usable(x: &Body) -> (r: bool)
    ensures
        r == body_valid(x@),
{
    x.event_count <= MAX_EVENT_COUNT
}

/// A transaction body, followed by `t`.
pub open spec fn body_then(m: Body, t: Seq<u8>) -> Seq<u8> {
    map_head(5) + (text_item("transaction_id"@) + (bytes_item(m.transaction_id@)
        + (text_item("events_manifest_digest"@) + (bytes_item(m.events_manifest_digest@)
        + (text_item("event_count"@) + (uint_item(m.event_count)
        + (text_item("object_manifest_digest"@)
        + (optional_bytes_item(opt_array(m.object_manifest_digest)) + (text_item("local_effect"@)
        + (null_item() + t))))))))))
}

/// Appends a transaction body.
fn put_body(w: &mut Writer, x: &Body)
    ensures
        forall|t: Seq<u8>|
            #![trigger old(w)@ + body_then(x@, t)]
            final(w)@ + t == old(w)@ + body_then(x@, t),
{
    w.map(5);
    w.str("transaction_id");
    w.bytes(&x.transaction_id);
    w.str("events_manifest_digest");
    w.bytes(&x.events_manifest_digest);
    w.str("event_count");
    w.u64(x.event_count);
    w.str("object_manifest_digest");
    w.optional_bytes(array_slice(&x.object_manifest_digest));
    w.str("local_effect");
    w.null();
}

/// Reads a transaction body.
fn take_body(d: &mut Reader) -> (r: Option<Body>)
    ensures
        forall|m: Body, t: Seq<u8>|
            #![trigger body_then(m, t)]
            old(d).rest() == body_then(m, t) ==> r is Some && (r->0)@ == m && final(d).rest() == t,
{
    d.map_of(5)?;
    d.key("transaction_id")?;
    let transaction_id = d.fixed16()?;
    d.key("events_manifest_digest")?;
    let events_manifest_digest = d.fixed32()?;
    d.key("event_count")?;
    let event_count: u64 = d.u64()?;
    d.key("object_manifest_digest")?;
    let object_manifest_digest = take_optional_digest(d)?;
    d.key("local_effect")?;
    d.null()?;
    Some(Body { transaction_id, events_manifest_digest, event_count, object_manifest_digest })
}

/// A transaction body.
pub open spec fn body_bytes(m: Body) -> Seq<u8> {
    body_then(m, Seq::empty())
}

/// Encodes a transaction body.
pub fn encode_body(x: &Body) -> (r: Vec<u8>)
    ensures
        r@ == body_bytes(x@),
{
    let mut w = Writer::new();
    let ghost none = Seq::<u8>::empty();
    assert(none + body_then(x@, none) =~= body_bytes(x@));
    put_body(&mut w, x);
    assert(w@ + none =~= w@);
    w.finish()
}

/// What bytes decode to: the only transaction body whose canonical encoding they are.
pub open spec fn body_of(b: Seq<u8>) -> Option<Body> {
    if exists|m: Body| body_valid(m) && #[trigger] body_bytes(m) == b {
        Some(choose|m: Body| body_valid(m) && #[trigger] body_bytes(m) == b)
    } else {
        None
    }
}

/// Decodes a transaction body; only the canonical encoding is accepted.
pub fn decode_body(input: &[u8]) -> (r: Result<Body, HumanCommitError>)
    ensures
        forall|m: Body|
            body_valid(m) && input@ == #[trigger] body_bytes(m) ==> r is Ok && (r->Ok_0)@ == m,
        r is Ok ==> body_valid((r->Ok_0)@) && body_bytes((r->Ok_0)@) == input@,
        match body_of(input@) {
            Some(m) => r is Ok && (r->Ok_0)@ == m,
            None => r is Err && r->Err_0 is InvalidCommand,
        },
{
    let mut d = Reader::new(input);
    let r = match take_body(&mut d) {
        Some(x) => if d.at_end() && body_usable(&x) && same(encode_body(&x).as_slice(), input) {
            Ok(x)
        } else {
            Err(HumanCommitError::InvalidCommand)
        },
        None => Err(HumanCommitError::InvalidCommand),
    };
    proof {
        if r is Ok {
            assert(body_bytes((r->Ok_0)@) == input@);
        }
    }
    r
}

/// What one event of a transaction will be.
pub struct EventManifest {
    pub kind: String,
    pub item: [u8; 16],
    pub revision: Option<[u8; 16]>,
    pub object_digest: Option<[u8; 32]>,
    pub audit_generation: Option<u64>,
    pub audit_through_seq: Option<u64>,
    pub authority_body_digest: Option<[u8; 32]>,
}

/// The contents of a [`EventManifest`].
pub struct EventManifestModel {
    pub kind: Seq<char>,
    pub item: [u8; 16],
    pub revision: Option<[u8; 16]>,
    pub object_digest: Option<[u8; 32]>,
    pub audit_generation: Option<u64>,
    pub audit_through_seq: Option<u64>,
    pub authority_body_digest: Option<[u8; 32]>,
}

impl View for EventManifest {
    type V = EventManifestModel;

    open spec fn view(&self) -> EventManifestModel {
        EventManifestModel {
            kind: self.kind@,
            item: self.item,
            revision: self.revision,
            object_digest: self.object_digest,
            audit_generation: self.audit_generation,
            audit_through_seq: self.audit_through_seq,
            authority_body_digest: self.authority_body_digest,
        }
    }
}

/// The manifest of a single event, followed by `t`.
pub open spec fn event_manifest_then(m: EventManifestModel, t: Seq<u8>) -> Seq<u8> {
    array_head(1) + (map_head(7) + (text_item("kind"@) + (text_item(m.kind) + (text_item("item"@)
        + (bytes_item(m.item@) + (text_item("revision"@)
        + (optional_bytes_item(opt_array(m.revision)) + (text_item("object_digest"@)
        + (optional_bytes_item(opt_array(m.object_digest)) + (text_item("audit_generation"@)
        + (optional_uint_item(m.audit_generation) + (text_item("audit_through_seq"@)
        + (optional_uint_item(m.audit_through_seq) + (text_item("authority_body_digest"@)
        + (optional_bytes_item(opt_array(m.authority_body_digest)) + t)))))))))))))))
}

/// The manifest of a single event.
pub open spec fn event_manifest_bytes(m: EventManifestModel) -> Seq<u8> {
    event_manifest_then(m, Seq::empty())
}

/// Appends the manifest of a single event.
fn put_event_manifest(w: &mut Writer, x: &EventManifest)
    ensures
        forall|t: Seq<u8>|
            #![trigger old(w)@ + event_manifest_then(x@, t)]
            final(w)@ + t == old(w)@ + event_manifest_then(x@, t),
{
    w.array(1);
    w.map(7);
    w.str("kind");
    w.str(x.kind.as_str());
    w.str("item");
    w.bytes(&x.item);
    w.str("revision");
    w.optional_bytes(array_slice(&x.revision));
    w.str("object_digest");
    w.optional_bytes(array_slice(&x.object_digest));
    w.str("audit_generation");
    w.optional_u64(x.audit_generation);
    w.str("audit_through_seq");
    w.optional_u64(x.audit_through_seq);
    w.str("authority_body_digest");
    w.optional_bytes(array_slice(&x.authority_body_digest));
}

/// Encodes the manifest of a single event.
pub fn encode_event_manifest(x: &EventManifest) -> (r: Vec<u8>)
    ensures
        r@ == event_manifest_bytes(x@),
{
    let mut w = Writer::new();
    let ghost none = Seq::<u8>::empty();
    assert(none + event_manifest_then(x@, none) =~= event_manifest_bytes(x@));
    put_event_manifest(&mut w, x);
    assert(w@ + none =~= w@);
    w.finish()
}

/// What the two events of a restored revision will be.
#[derive(Clone, Copy, Debug)]
pub struct RestoreManifest {
    pub item: [u8; 16],
    pub revision: [u8; 16],
    pub object_digest: [u8; 32],
    pub body_digest: [u8; 32],
}

impl View for RestoreManifest {
    type V = RestoreManifest;

    open spec fn view(&self) -> RestoreManifest {
        *self
    }
}

/// The manifest of a restored revision, followed by `t`.
pub open spec fn restore_manifest_then(m: RestoreManifest, t: Seq<u8>) -> Seq<u8> {
    array_head(2) + (map_head(4) + (text_item("kind"@) + (text_item("item-revision"@)
        + (text_item("item"@) + (bytes_item(m.item@) + (text_item("revision"@)
        + (bytes_item(m.revision@) + (text_item("object_digest"@) + (bytes_item(m.object_digest@)
        + (map_head(3) + (text_item("kind"@) + (text_item("restore"@) + (text_item("item"@)
        + (bytes_item(m.item@) + (text_item("body_digest"@)
        + (bytes_item(m.body_digest@) + t))))))))))))))))
}

/// The manifest of a restored revision.
pub open spec fn restore_manifest_bytes(m: RestoreManifest) -> Seq<u8> {
    restore_manifest_then(m, Seq::empty())
}

/// Appends the manifest of a restored revision.
fn put_restore_manifest(w: &mut Writer, x: &RestoreManifest)
    ensures
        forall|t: Seq<u8>|
            #![trigger old(w)@ + restore_manifest_then(x@, t)]
            final(w)@ + t == old(w)@ + restore_manifest_then(x@, t),
{
    w.array(2);
    w.map(4);
    w.str("kind");
    w.str("item-revision");
    w.str("item");
    w.bytes(&x.item);
    w.str("revision");
    w.bytes(&x.revision);
    w.str("object_digest");
    w.bytes(&x.object_digest);
    w.map(3);
    w.str("kind");
    w.str("restore");
    w.str("item");
    w.bytes(&x.item);
    w.str("body_digest");
    w.bytes(&x.body_digest);
}

/// Encodes the manifest of a restored revision.
pub fn encode_restore_manifest(x: &RestoreManifest) -> (r: Vec<u8>)
    ensures
        r@ == restore_manifest_bytes(x@),
{
    let mut w = Writer::new();
    let ghost none = Seq::<u8>::empty();
    assert(none + restore_manifest_then(x@, none) =~= restore_manifest_bytes(x@));
    put_restore_manifest(&mut w, x);
    assert(w@ + none =~= w@);
    w.finish()
}

/// What an import will do.
pub struct ImportManifest {
    pub batch: [u8; 16],
    pub source: String,
    pub object_digest: [u8; 32],
    pub report: CsvImportReport,
}

/// The contents of a [`ImportManifest`].
pub struct ImportManifestModel {
    pub batch: [u8; 16],
    pub source: Seq<char>,
    pub object_digest: [u8; 32],
    pub report: ReportModel,
}

impl View for ImportManifest {
    type V = ImportManifestModel;

    open spec fn view(&self) -> ImportManifestModel {
        ImportManifestModel {
            batch: self.batch,
            source: self.source@,
            object_digest: self.object_digest,
            report: self.report@,
        }
    }
}

/// The manifest of an import, followed by `t`.
pub open spec fn import_manifest_then(m: ImportManifestModel, t: Seq<u8>) -> Seq<u8> {
    map_head(11) + (text_item("domain"@) + (text_item("pm/import-manifest/v1"@)
        + (text_item("batch"@) + (bytes_item(m.batch@) + (text_item("source"@)
        + (text_item(m.source) + (text_item("object_digest"@) + (bytes_item(m.object_digest@)
        + (text_item("total"@) + (uint_item(m.report.total as u64) + (text_item("new"@)
        + (uint_item(m.report.new_items as u64) + (text_item("replaced"@)
        + (uint_item(m.report.replaced as u64) + (text_item("skipped_exact"@)
        + (uint_item(m.report.skipped_exact as u64) + (text_item("excluded"@)
        + (uint_item(m.report.excluded as u64) + (text_item("preserved_fields"@)
        + (uint_item(m.report.preserved_fields as u64) + (text_item("event_pages"@)
        + (uint_item(m.report.event_pages as u64) + t))))))))))))))))))))))
}

/// The manifest of an import.
pub open spec fn import_manifest_bytes(m: ImportManifestModel) -> Seq<u8> {
    import_manifest_then(m, Seq::empty())
}

/// Appends the manifest of an import.
fn put_import_manifest(w: &mut Writer, x: &ImportManifest)
    ensures
        forall|t: Seq<u8>|
            #![trigger old(w)@ + import_manifest_then(x@, t)]
            final(w)@ + t == old(w)@ + import_manifest_then(x@, t),
{
    w.map(11);
    w.str("domain");
    w.str("pm/import-manifest/v1");
    w.str("batch");
    w.bytes(&x.batch);
    w.str("source");
    w.str(x.source.as_str());
    w.str("object_digest");
    w.bytes(&x.object_digest);
    w.str("total");
    w.u64(x.report.total() as u64);
    w.str("new");
    w.u64(x.report.new_items() as u64);
    w.str("replaced");
    w.u64(x.report.replaced() as u64);
    w.str("skipped_exact");
    w.u64(x.report.skipped_exact() as u64);
    w.str("excluded");
    w.u64(x.report.excluded() as u64);
    w.str("preserved_fields");
    w.u64(x.report.preserved_fields() as u64);
    w.str("event_pages");
    w.u64(x.report.event_pages() as u64);
}

/// Encodes the manifest of an import.
pub fn encode_import_manifest(x: &ImportManifest) -> (r: Vec<u8>)
    ensures
        r@ == import_manifest_bytes(x@),
{
    let mut w = Writer::new();
    let ghost none = Seq::<u8>::empty();
    assert(none + import_manifest_then(x@, none) =~= import_manifest_bytes(x@));
    put_import_manifest(&mut w, x);
    assert(w@ + none =~= w@);
    w.finish()
}

/// The authority state that a command is bound to.
#[derive(Clone, Copy, Debug)]
pub struct StateView {
    pub vault: [u8; 16],
    pub epoch: u64,
    pub head: Option<[u8; 32]>,
    pub bundle_digest: [u8; 32],
}

impl View for StateView {
    type V = StateView;

    open spec fn view(&self) -> StateView {
        *self
    }
}

/// The head as a list of none or one.
pub open spec fn head_list(head: Option<[u8; 32]>) -> Seq<[u8; 32]> {
    match head {
        Some(h) => seq![h],
        None => Seq::empty(),
    }
}

/// The head as a list of none or one.
pub fn heads_of(head: &Option<[u8; 32]>) -> (r: Vec<[u8; 32]>)
    ensures
        r@ == head_list(*head),
{
    let mut out: Vec<[u8; 32]> = Vec::new();
    if let Some(h) = head {
        out.push(*h);
    }
    assert(out@ =~= head_list(*head));
    out
}

/// The view of the authority state, followed by `t`.
pub open spec fn state_view_then(m: StateView, t: Seq<u8>) -> Seq<u8> {
    array_head(5) + (text_item("pm/state-view/v1"@) + (bytes_item(m.vault@) + (uint_item(m.epoch)
        + (digests_then(head_list(m.head), bytes_item(m.bundle_digest@) + t)))))
}

/// The view of the authority state.
pub open spec fn state_view_bytes(m: StateView) -> Seq<u8> {
    state_view_then(m, Seq::empty())
}

/// Appends the view of the authority state.
fn put_state_view(w: &mut Writer, x: &StateView)
    ensures
        forall|t: Seq<u8>|
            #![trigger old(w)@ + state_view_then(x@, t)]
            final(w)@ + t == old(w)@ + state_view_then(x@, t),
{
    w.array(5);
    w.str("pm/state-view/v1");
    w.bytes(&x.vault);
    w.u64(x.epoch);
    let heads = heads_of(&x.head);
        put_digests(w, &heads);
    w.bytes(&x.bundle_digest);
}

/// Encodes the view of the authority state.
pub fn encode_state_view(x: &StateView) -> (r: Vec<u8>)
    ensures
        r@ == state_view_bytes(x@),
{
    let mut w = Writer::new();
    let ghost none = Seq::<u8>::empty();
    assert(none + state_view_then(x@, none) =~= state_view_bytes(x@));
    put_state_view(&mut w, x);
    assert(w@ + none =~= w@);
    w.finish()
}

/// Opaque wire artifacts of a prepared command.
pub struct PreparedHumanCommand {
    transaction_id: [u8; 16],
    item_id: [u8; 16],
    command: Vec<u8>,
    body: Vec<u8>,
}

/// The contents of a [`PreparedHumanCommand`].
pub struct PreparedModel {
    pub transaction_id: [u8; 16],
    pub item_id: [u8; 16],
    pub command: Seq<u8>,
    pub body: Seq<u8>,
}

impl View for PreparedHumanCommand {
    type V = PreparedModel;

    closed spec fn view(&self) -> PreparedModel {
        PreparedModel {
            transaction_id: self.transaction_id,
            item_id: self.item_id,
            command: self.command@,
            body: self.body@,
        }
    }
}

impl PreparedHumanCommand {
    pub fn transaction_id(&self) -> (r: &[u8; 16])
        ensures
            *r == self@.transaction_id,
    {
        &self.transaction_id
    }

    pub fn item_id(&self) -> (r: &[u8; 16])
        ensures
            *r == self@.item_id,
    {
        &self.item_id
    }

    /// What the owner is to sign.
    pub fn command(&self) -> (r: &[u8])
        ensures
            r@ == self@.command,
    {
        self.command.as_slice()
    }

    /// The body whose digest the command carries.
    pub fn body(&self) -> (r: &[u8])
        ensures
            r@ == self@.body,
    {
        self.body.as_slice()
    }
}

/// A challenge of two random identifiers.
pub fn random_challenge(first: &[u8; 16], second: &[u8; 16]) -> (r: [u8; 32])
    ensures
        r@ == first@ + second@,
{
    let mut out: [u8; 32] = [0u8;32];
    let mut i: usize = 0;
    while i < 16
        invariant
            i <= 16,
            forall|j: int| 0 <= j < i ==> out@[j] == first@[j],
            forall|j: int| 0 <= j < i ==> out@[16 + j] == second@[j],
        decreases 16 - i,
    {
        out[i] = first[i];
        out[16 + i] = second[i];
        i += 1;
    }
    assert(out@ =~= first@ + second@);
    out
}

/// When a challenge that is issued now expires.
pub fn challenge_expiry(now_us: i64) -> (r: Result<i64, HumanCommitError>)
    ensures
        r is Ok <==> now_us + CHALLENGE_LIFETIME_US <= i64::MAX,
        r is Ok ==> r->Ok_0 == now_us + CHALLENGE_LIFETIME_US,
        r is Err ==> r->Err_0 is InvalidCommand,
{
    if now_us > i64::MAX - CHALLENGE_LIFETIME_US {
        Err(HumanCommitError::InvalidCommand)
    } else {
        Ok(now_us + CHALLENGE_LIFETIME_US)
    }
}

/// Binds a transaction body, by its digest, to a challenge, the expected state
/// and an expiry.
pub fn prepare_command(
    vault: [u8; 16],
    challenge: [u8; 32],
    expected_state: [u8; 32],
    operation: &str,
    item_id: [u8; 16],
    body: &Body,
    body_hash: [u8; 32],
    now_us: i64,
) -> (r: Result<PreparedHumanCommand, HumanCommitError>)
    ensures
        r is Ok <==> now_us + CHALLENGE_LIFETIME_US <= i64::MAX,
        r is Ok ==> (r->Ok_0)@ == (PreparedModel {
            transaction_id: body.transaction_id,
            item_id,
            command: command_bytes(
                CommandModel {
                    vault,
                    challenge,
                    expected_state,
                    operation: operation@,
                    body_hash,
                    expires_at_us: (now_us + CHALLENGE_LIFETIME_US) as i64,
                },
            ),
            body: body_bytes(*body),
        }),
        r is Err ==> r->Err_0 is InvalidCommand,
{
    let expires_at_us: i64 = match challenge_expiry(now_us) {
        Ok(at) => at,
        Err(e) => {
            return Err(e);
        },
    };
    let fields = CommandFields {
        vault,
        challenge,
        expected_state,
        operation: operation.to_owned(),
        body_hash,
        expires_at_us,
    };
    Ok(
        PreparedHumanCommand {
            transaction_id: body.transaction_id,
            item_id,
            command: encode_command(&fields),
            body: encode_body(body),
        },
    )
}

/// Durable result of one human transaction.
#[derive(Clone, Debug, PartialEq, Eq)]
pub struct HumanReceipt {
    transaction_id: [u8; 16],
    body_hash: [u8; 32],
    committed_heads: Vec<[u8; 32]>,
    committed_at_us: i64,
}

/// The contents of a [`HumanReceipt`].
pub struct ReceiptModel {
    pub transaction_id: [u8; 16],
    pub body_hash: [u8; 32],
    pub committed_heads: Seq<[u8; 32]>,
    pub committed_at_us: i64,
}

impl View for HumanReceipt {
    type V = ReceiptModel;

    closed spec fn view(&self) -> ReceiptModel {
        ReceiptModel {
            transaction_id: self.transaction_id,
            body_hash: self.body_hash,
            committed_heads: self.committed_heads@,
            committed_at_us: self.committed_at_us,
        }
    }
}

/// A receipt, followed by `t`.
pub open spec fn receipt_then(m: ReceiptModel, t: Seq<u8>) -> Seq<u8> {
    map_head(5) + (text_item("transaction_id"@) + (bytes_item(m.transaction_id@)
        + (text_item("body_hash"@) + (bytes_item(m.body_hash@) + (text_item("committed_heads"@)
        + (digests_then(m.committed_heads, text_item("committed_at"@) + (int_item(m.committed_at_us)
        + (text_item("outcome"@) + (text_item("committed"@) + t))))))))))
}

/// A receipt.
pub open spec fn receipt_bytes(m: ReceiptModel) -> Seq<u8> {
    receipt_then(m, Seq::empty())
}

/// Appends a receipt.
fn put_receipt(w: &mut Writer, x: &HumanReceipt)
    ensures
        forall|t: Seq<u8>|
            #![trigger old(w)@ + receipt_then(x@, t)]
            final(w)@ + t == old(w)@ + receipt_then(x@, t),
{
    w.map(5);
    w.str("transaction_id");
    w.bytes(&x.transaction_id);
    w.str("body_hash");
    w.bytes(&x.body_hash);
    w.str("committed_heads");
    put_digests(w, &x.committed_heads);
    w.str("committed_at");
    w.i64(x.committed_at_us);
    w.str("outcome");
    w.str("committed");
}

/// Encodes a receipt.
pub fn encode_receipt(x: &HumanReceipt) -> (r: Vec<u8>)
    ensures
        r@ == receipt_bytes(x@),
{
    let mut w = Writer::new();
    let ghost none = Seq::<u8>::empty();
    assert(none + receipt_then(x@, none) =~= receipt_bytes(x@));
    put_receipt(&mut w, x);
    assert(w@ + none =~= w@);
    w.finish()
}

impl HumanReceipt {
    /// The receipt of a committed transaction.
    pub fn new(
        transaction_id: [u8; 16],
        body_hash: [u8; 32],
        committed_heads: Vec<[u8; 32]>,
        committed_at_us: i64,
    ) -> (r: HumanReceipt)
        ensures
            r@ == (ReceiptModel {
                transaction_id,
                body_hash,
                committed_heads: committed_heads@,
                committed_at_us,
            }),
    {
        HumanReceipt { transaction_id, body_hash, committed_heads, committed_at_us }
    }

    pub fn transaction_id(&self) -> (r: &[u8; 16])
        ensures
            *r == self@.transaction_id,
    {
        &self.transaction_id
    }

    /// The digest of the transaction body.
    pub fn body_hash(&self) -> (r: &[u8; 32])
        ensures
            *r == self@.body_hash,
    {
        &self.body_hash
    }

    pub fn committed_heads(&self) -> (r: &[[u8; 32]])
        ensures
            r@ == self@.committed_heads,
    {
        self.committed_heads.as_slice()
    }

    pub fn outcome(&self) -> (r: &'static str)
        ensures
            r@ == "committed"@,
    {
        "committed"
    }

    /// The canonical minimal receipt for the human wire.
    pub fn to_bytes(&self) -> (r: Vec<u8>)
        ensures
            r@ == receipt_bytes(self@),
    {
        encode_receipt(self)
    }
}

/// The operations that a command can ask for.
pub proof fn lemma_operations(m: CommandModel)
    ensures
        command_valid(m) <==> {
            ||| m.operation == "item_write"@
            ||| m.operation == "item_lifecycle"@
            ||| m.operation == "history_restore"@
            ||| m.operation == "item_purge"@
            ||| m.operation == "audit_purge"@
            ||| m.operation == "identity_change"@
            ||| m.operation == "availability_change"@
            ||| m.operation == "import_commit"@
            ||| m.operation == "plaintext_export"@
            ||| m.operation == "backup_restore"@
            ||| m.operation == "root_rotation"@
        },
{
}

/// The body of a command counts at most a million events.
pub proof fn lemma_event_limit(m: Body)
    ensures
        body_valid(m) <==> m.event_count <= 1000000,
{
}

/// The state that a command is bound to has one head where there is one, and
/// else none.
pub proof fn lemma_heads_of_state(head: [u8; 32])
    ensures
        head_list(Some(head)).len() == 1,
        head_list(Some(head))[0] == head,
        head_list(None).len() == 0,
{
}

} // verus!

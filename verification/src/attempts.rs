//! Authentication attempts: their requests, states and stored snapshots.
use crate::audit::{AuditAction, AuditActorKind, AuditEvent, AuditEventModel, AuditOutcome};
use crate::authorization::{
    is_zero, zero_id, AgentIdentity, CredentialModel, DelegatedCredential, IdentityModel,
};
use crate::bytes::{byte_len, fixed16, same, same_str};
use crate::cbor::{
    array_head, bytes_item, int_item, items_after, lemma_array, lemma_bytes_within, lemma_int,
    lemma_items, lemma_text_within, lemma_uint, null_item, opt_text, opt_view, optional_bytes_item,
    optional_text_item, passed, take_array_of, take_nullable_text, take_optional_bytes, take_text,
    take_uint_to, text_item, uint_item, Reader, Writer,
};
use crate::content::{opt_vec, RecordKind};
use crate::errors::AttemptError;
use crate::lists::{
    after, lemma_array_of, lemma_nullable_text, lemma_optional_bytes, next_array, next_bytes,
    next_fixed, next_int, next_text, opt_string, string_slice, take_id, take_optional_text,
    vec_slice,
};
use crate::ordered::same_array;
use crate::record_codec::read_optional_bytes;
use crate::text::text_from_utf8;
use vstd::prelude::*;
use vstd::slice::slice_to_vec;
use vstd::utf8::{decode_utf8, encode_utf8, valid_utf8};

verus! {

/// How long an attempt may run.
pub const ATTEMPT_LIFETIME_US: i64 = 86_400_000_000;

/// How long the result of an ended attempt is kept.
pub const RESULT_LIFETIME_US: i64 = 86_400_000_000;

/// How long a request can be repeated under its key.
pub const IDEMPOTENCY_LIFETIME_US: i64 = 604_800_000_000;

/// How far in the past a new key may have been issued.
pub const KEY_PAST_US: i64 = 600_000_000;

/// How far in the future a new key may have been issued.
pub const KEY_FUTURE_US: i64 = 120_000_000;

/// How long an attempt rests between two looks at its provider.
pub const RECONCILE_US: i64 = 100_000;

/// The most bytes of a context, a result or a challenge.
pub const MAX_CONTEXT: usize = 65536;

/// The most unfinished attempts of one agent.
pub const MAX_PER_AGENT: i64 = 16;

/// The most unfinished attempts.
pub const MAX_PER_CUSTODIAN: i64 = 128;

/// Where an attempt stands.
#[derive(Clone, Copy, Debug, PartialEq, Eq, Structural)]
pub enum AttemptState {
    Created,
    Running,
    WaitingForHuman,
    Succeeded,
    Failed,
    Cancelled,
    Expired,
    Indeterminate,
}

/// The stored name of a state.
pub open spec fn state_name(v: AttemptState) -> Seq<char> {
    match v {
        AttemptState::Created => "created"@,
        AttemptState::Running => "running"@,
        AttemptState::WaitingForHuman => "waiting_for_human"@,
        AttemptState::Succeeded => "succeeded"@,
        AttemptState::Failed => "failed"@,
        AttemptState::Cancelled => "cancelled"@,
        AttemptState::Expired => "expired"@,
        AttemptState::Indeterminate => "indeterminate"@,
    }
}

/// The one that a stored name stands for.
pub open spec fn state_of(s: Seq<char>) -> Option<AttemptState> {
    if s == "created"@ {
        Some(AttemptState::Created)
    } else if s == "running"@ {
        Some(AttemptState::Running)
    } else if s == "waiting_for_human"@ {
        Some(AttemptState::WaitingForHuman)
    } else if s == "succeeded"@ {
        Some(AttemptState::Succeeded)
    } else if s == "failed"@ {
        Some(AttemptState::Failed)
    } else if s == "cancelled"@ {
        Some(AttemptState::Cancelled)
    } else if s == "expired"@ {
        Some(AttemptState::Expired)
    } else if s == "indeterminate"@ {
        Some(AttemptState::Indeterminate)
    } else {
        None
    }
}

impl AttemptState {
    /// The stored name.
    pub fn name(self) -> (r: &'static str)
        ensures
            r@ == state_name(self),
    {
        match self {
            AttemptState::Created => "created",
            AttemptState::Running => "running",
            AttemptState::WaitingForHuman => "waiting_for_human",
            AttemptState::Succeeded => "succeeded",
            AttemptState::Failed => "failed",
            AttemptState::Cancelled => "cancelled",
            AttemptState::Expired => "expired",
            AttemptState::Indeterminate => "indeterminate",
        }
    }

    /// Reads a stored name.
    pub fn parse(value: &str) -> (r: Result<AttemptState, AttemptError>)
        ensures
            match state_of(value@) {
                Some(v) => r == Ok::<AttemptState, AttemptError>(v),
                None => r == Err::<AttemptState, AttemptError>(AttemptError::Integrity),
            },
    {
        if same_str(value, "created") {
            Ok(AttemptState::Created)
        } else if same_str(value, "running") {
            Ok(AttemptState::Running)
        } else if same_str(value, "waiting_for_human") {
            Ok(AttemptState::WaitingForHuman)
        } else if same_str(value, "succeeded") {
            Ok(AttemptState::Succeeded)
        } else if same_str(value, "failed") {
            Ok(AttemptState::Failed)
        } else if same_str(value, "cancelled") {
            Ok(AttemptState::Cancelled)
        } else if same_str(value, "expired") {
            Ok(AttemptState::Expired)
        } else if same_str(value, "indeterminate") {
            Ok(AttemptState::Indeterminate)
        } else {
            Err(AttemptError::Integrity)
        }
    }
}

/// Every stored name is read back as what it was written for.
pub proof fn lemma_state_names(v: AttemptState)
    ensures
        state_of(state_name(v)) == Some(v),
{
    reveal_strlit("created");
    reveal_strlit("running");
    reveal_strlit("waiting_for_human");
    reveal_strlit("succeeded");
    reveal_strlit("failed");
    reveal_strlit("cancelled");
    reveal_strlit("expired");
    reveal_strlit("indeterminate");
    assert("created"@.len() == 7);
    assert("running"@.len() == 7);
    assert("waiting_for_human"@.len() == 17);
    assert("succeeded"@.len() == 9);
    assert("failed"@.len() == 6);
    assert("cancelled"@.len() == 9);
    assert("expired"@.len() == 7);
    assert("indeterminate"@.len() == 13);
    assert("running"@[0] == 'r');
    assert("created"@[0] == 'c');
    assert("cancelled"@[0] == 'c');
    assert("succeeded"@[0] == 's');
    assert("expired"@[0] == 'e');
}

/// Whether an attempt in this state has ended.
pub open spec fn is_terminal(state: AttemptState) -> bool {
    state is Succeeded || state is Failed || state is Cancelled || state is Expired
}

impl AttemptState {
    /// Whether an attempt in this state has ended.
    pub fn terminal(self) -> (r: bool)
        ensures
            r == is_terminal(self),
    {
        match self {
            AttemptState::Succeeded
            | AttemptState::Failed
            | AttemptState::Cancelled
            | AttemptState::Expired => true,
            _ => false,
        }
    }
}

/// The key under which a request can be repeated.
#[derive(Clone, Copy, Debug, PartialEq, Eq)]
pub struct IdempotencyKey {
    issued_at_us: i64,
    nonce: [u8; 16],
}

/// The contents of a [`IdempotencyKey`].
pub struct KeyModel {
    pub issued_at_us: i64,
    pub nonce: [u8; 16],
}

impl View for IdempotencyKey {
    type V = KeyModel;

    closed spec fn view(&self) -> KeyModel {
        KeyModel {
            issued_at_us: self.issued_at_us,
            nonce: self.nonce,
        }
    }
}

impl IdempotencyKey {
    /// A key; its nonce is not all zeros.
    pub fn new(issued_at_us: i64, nonce: [u8; 16]) -> (r: Result<IdempotencyKey, AttemptError>)
        ensures
            if is_zero(nonce) {
                r is Err && r->Err_0 is InvalidArgument
            } else {
                r is Ok && (r->Ok_0)@ == (KeyModel { issued_at_us, nonce })
            },
    {
        if zero_id(&nonce) {
            return Err(AttemptError::InvalidArgument);
        }
        Ok(IdempotencyKey { issued_at_us, nonce })
    }

    pub fn issued_at_us(&self) -> (r: i64)
        ensures
            r == self@.issued_at_us,
    {
        self.issued_at_us
    }

    pub fn nonce(&self) -> (r: &[u8; 16])
        ensures
            *r == self@.nonce,
    {
        &self.nonce
    }
}

/// A request to start an attempt.
pub struct StartAttempt {
    pub credential_id: [u8; 16],
    pub integration_id: String,
    pub integration_version: u32,
    pub method: String,
    pub destination: String,
    pub context: Vec<u8>,
    pub idempotency: IdempotencyKey,
}

/// The contents of a [`StartAttempt`].
pub struct StartModel {
    pub credential_id: [u8; 16],
    pub integration_id: Seq<char>,
    pub integration_version: u32,
    pub method: Seq<char>,
    pub destination: Seq<char>,
    pub context: Seq<u8>,
    pub idempotency: KeyModel,
}

impl View for StartAttempt {
    type V = StartModel;

    open spec fn view(&self) -> StartModel {
        StartModel {
            credential_id: self.credential_id,
            integration_id: self.integration_id@,
            integration_version: self.integration_version,
            method: self.method@,
            destination: self.destination@,
            context: self.context@,
            idempotency: self.idempotency@,
        }
    }
}

/// Whether the parts of a request are within their bounds.
pub open spec fn valid_start(m: StartModel) -> bool {
    &&& !is_zero(m.credential_id)
    &&& 1 <= encode_utf8(m.integration_id).len() <= 128
    &&& m.integration_version != 0
    &&& 1 <= encode_utf8(m.method).len() <= 64
    &&& 1 <= encode_utf8(m.destination).len() <= 8192
    &&& m.context.len() <= MAX_CONTEXT
}

impl StartAttempt {
    /// A request whose parts are within their bounds.
    pub fn new(
        credential_id: [u8; 16],
        integration_id: &str,
        integration_version: u32,
        method: &str,
        destination: &str,
        context: Vec<u8>,
        idempotency: IdempotencyKey,
    ) -> (r: Result<StartAttempt, AttemptError>)
        ensures
            ({
                let m = StartModel {
                    credential_id,
                    integration_id: integration_id@,
                    integration_version,
                    method: method@,
                    destination: destination@,
                    context: context@,
                    idempotency: idempotency@,
                };
                if valid_start(m) {
                    r is Ok && (r->Ok_0)@ == m
                } else {
                    r is Err && r->Err_0 is InvalidArgument
                }
            }),
    {
        let (a, b, c): (usize, usize, usize) = (
            byte_len(integration_id),
            byte_len(method),
            byte_len(destination),
        );
        if zero_id(&credential_id) || a == 0 || a > 128 || integration_version == 0 || b == 0 || b
            > 64 || c == 0 || c > 8192 || context.len() > MAX_CONTEXT {
            return Err(AttemptError::InvalidArgument);
        }
        Ok(
            StartAttempt {
                credential_id,
                integration_id: integration_id.to_owned(),
                integration_version,
                method: method.to_owned(),
                destination: destination.to_owned(),
                context,
                idempotency,
            },
        )
    }
}

/// The parameters of a request, followed by `t`.
pub open spec fn params_then(m: StartModel, t: Seq<u8>) -> Seq<u8> {
    array_head(6) + (bytes_item(m.credential_id@) + (text_item(m.integration_id)
        + (uint_item(m.integration_version as u64) + (text_item(m.method)
        + (text_item(m.destination) + (bytes_item(m.context) + t))))))
}

/// The parameters of a request.
pub open spec fn params_bytes(m: StartModel) -> Seq<u8> {
    params_then(m, Seq::empty())
}

/// Appends the parameters of a request.
fn put_params(w: &mut Writer, x: &StartAttempt)
    ensures
        forall|t: Seq<u8>|
            #![trigger old(w)@ + params_then(x@, t)]
            final(w)@ + t == old(w)@ + params_then(x@, t),
{
    w.array(6);
    w.bytes(&x.credential_id);
    w.str(x.integration_id.as_str());
    w.u32(x.integration_version);
    w.str(x.method.as_str());
    w.str(x.destination.as_str());
    w.bytes(x.context.as_slice());
}

/// Encodes the parameters of a request.
pub fn encode_params(x: &StartAttempt) -> (r: Vec<u8>)
    ensures
        r@ == params_bytes(x@),
{
    let mut w = Writer::new();
    let ghost none = Seq::<u8>::empty();
    assert(none + params_then(x@, none) =~= params_bytes(x@));
    put_params(&mut w, x);
    assert(w@ + none =~= w@);
    w.finish()
}

/// Where a key is unique.
pub struct AttemptScope {
    pub vault: [u8; 16],
    pub device: [u8; 16],
    pub identity: AgentIdentity,
    pub key: IdempotencyKey,
}

/// The contents of a [`AttemptScope`].
pub struct ScopeModel {
    pub vault: [u8; 16],
    pub device: [u8; 16],
    pub identity: IdentityModel,
    pub key: KeyModel,
}

impl View for AttemptScope {
    type V = ScopeModel;

    open spec fn view(&self) -> ScopeModel {
        ScopeModel {
            vault: self.vault,
            device: self.device,
            identity: self.identity@,
            key: self.key@,
        }
    }
}

/// The scope of a key, followed by `t`.
pub open spec fn scope_then(m: ScopeModel, t: Seq<u8>) -> Seq<u8> {
    array_head(7) + (text_item("pm/idempotency/v1"@) + (bytes_item(m.vault@)
        + (bytes_item(m.device@) + (bytes_item(m.identity.subject@)
        + (uint_item(m.identity.generation) + (int_item(m.key.issued_at_us)
        + (bytes_item(m.key.nonce@) + t)))))))
}

/// The scope of a key.
pub open spec fn scope_bytes(m: ScopeModel) -> Seq<u8> {
    scope_then(m, Seq::empty())
}

/// Appends the scope of a key.
fn put_scope(w: &mut Writer, x: &AttemptScope)
    ensures
        forall|t: Seq<u8>|
            #![trigger old(w)@ + scope_then(x@, t)]
            final(w)@ + t == old(w)@ + scope_then(x@, t),
{
    w.array(7);
    w.str("pm/idempotency/v1");
    w.bytes(&x.vault);
    w.bytes(&x.device);
    w.bytes(x.identity.subject());
    w.u64(x.identity.generation());
    w.i64(x.key.issued_at_us);
    w.bytes(&x.key.nonce);
}

/// Encodes the scope of a key.
pub fn encode_scope(x: &AttemptScope) -> (r: Vec<u8>)
    ensures
        r@ == scope_bytes(x@),
{
    let mut w = Writer::new();
    let ghost none = Seq::<u8>::empty();
    assert(none + scope_then(x@, none) =~= scope_bytes(x@));
    put_scope(&mut w, x);
    assert(w@ + none =~= w@);
    w.finish()
}

/// What is known of an attempt.
#[derive(Clone, Debug, PartialEq, Eq)]
pub struct AttemptSnapshot {
    attempt_id: [u8; 16],
    credential_id: [u8; 16],
    revision_id: [u8; 16],
    integration_id: String,
    integration_version: u32,
    state: AttemptState,
    created_at_us: i64,
    expires_at_us: i64,
    reason: Option<String>,
    result: Option<Vec<u8>>,
}

/// The contents of a [`AttemptSnapshot`].
pub struct SnapshotModel {
    pub attempt_id: [u8; 16],
    pub credential_id: [u8; 16],
    pub revision_id: [u8; 16],
    pub integration_id: Seq<char>,
    pub integration_version: u32,
    pub state: AttemptState,
    pub created_at_us: i64,
    pub expires_at_us: i64,
    pub reason: Option<Seq<char>>,
    pub result: Option<Seq<u8>>,
}

impl View for AttemptSnapshot {
    type V = SnapshotModel;

    closed spec fn view(&self) -> SnapshotModel {
        SnapshotModel {
            attempt_id: self.attempt_id,
            credential_id: self.credential_id,
            revision_id: self.revision_id,
            integration_id: self.integration_id@,
            integration_version: self.integration_version,
            state: self.state,
            created_at_us: self.created_at_us,
            expires_at_us: self.expires_at_us,
            reason: opt_string(self.reason),
            result: opt_vec(self.result),
        }
    }
}

impl AttemptSnapshot {
    pub fn attempt_id(&self) -> (r: &[u8; 16])
        ensures
            *r == self@.attempt_id,
    {
        &self.attempt_id
    }

    pub fn credential_id(&self) -> (r: &[u8; 16])
        ensures
            *r == self@.credential_id,
    {
        &self.credential_id
    }

    pub fn revision_id(&self) -> (r: &[u8; 16])
        ensures
            *r == self@.revision_id,
    {
        &self.revision_id
    }

    pub fn integration_id(&self) -> (r: &str)
        ensures
            r@ == self@.integration_id,
    {
        self.integration_id.as_str()
    }

    pub fn integration_version(&self) -> (r: u32)
        ensures
            r == self@.integration_version,
    {
        self.integration_version
    }

    pub fn state(&self) -> (r: AttemptState)
        ensures
            r == self@.state,
    {
        self.state
    }

    pub fn created_at_us(&self) -> (r: i64)
        ensures
            r == self@.created_at_us,
    {
        self.created_at_us
    }

    pub fn expires_at_us(&self) -> (r: i64)
        ensures
            r == self@.expires_at_us,
    {
        self.expires_at_us
    }

    pub fn reason(&self) -> (r: Option<&str>)
        ensures
            opt_text(r) == self@.reason,
    {
        string_slice(&self.reason)
    }

    pub fn result(&self) -> (r: Option<&[u8]>)
        ensures
            opt_view(r) == self@.result,
    {
        vec_slice(&self.result)
    }
}

/// What a provider is asked to do.
pub struct Execution {
    pub destination: String,
    pub context: Vec<u8>,
    pub method: String,
}

/// The contents of a [`Execution`].
pub struct ExecutionModel {
    pub destination: Seq<char>,
    pub context: Seq<u8>,
    pub method: Seq<char>,
}

impl View for Execution {
    type V = ExecutionModel;

    open spec fn view(&self) -> ExecutionModel {
        ExecutionModel {
            destination: self.destination@,
            context: self.context@,
            method: self.method@,
        }
    }
}

/// What a provider is asked to do, or null.
pub open spec fn execution_item(e: Option<ExecutionModel>) -> Seq<u8> {
    match e {
        Some(e) => array_head(3) + (text_item(e.destination) + (bytes_item(e.context) + text_item(
            e.method,
        ))),
        None => null_item(),
    }
}

/// The contents of an optional [`Execution`].
pub open spec fn execution_view(e: Option<Execution>) -> Option<ExecutionModel> {
    match e {
        Some(e) => Some(e@),
        None => None,
    }
}

/// A snapshot followed by `t`.
pub open spec fn snapshot_then(m: SnapshotModel, t: Seq<u8>) -> Seq<u8> {
    array_head(12) + (uint_item(1) + (bytes_item(m.attempt_id@) + (bytes_item(m.credential_id@)
        + (bytes_item(m.revision_id@) + (text_item(m.integration_id)
        + (uint_item(m.integration_version as u64) + (text_item(state_name(m.state))
        + (int_item(m.created_at_us) + (int_item(m.expires_at_us) + (optional_text_item(m.reason)
        + (optional_bytes_item(m.result) + t)))))))))))
}

/// A snapshot and what its provider is asked to do.
pub open spec fn snapshot_bytes(m: SnapshotModel, e: Option<ExecutionModel>) -> Seq<u8> {
    snapshot_then(m, execution_item(e))
}

/// Appends a snapshot.
fn put_snapshot(w: &mut Writer, x: &AttemptSnapshot)
    ensures
        forall|t: Seq<u8>|
            #![trigger old(w)@ + snapshot_then(x@, t)]
            final(w)@ + t == old(w)@ + snapshot_then(x@, t),
{
    w.array(12);
    w.u8(1);
    w.bytes(&x.attempt_id);
    w.bytes(&x.credential_id);
    w.bytes(&x.revision_id);
    w.str(x.integration_id.as_str());
    w.u32(x.integration_version);
    w.str(x.state.name());
    w.i64(x.created_at_us);
    w.i64(x.expires_at_us);
    w.optional_str(string_slice(&x.reason));
    w.optional_bytes(vec_slice(&x.result));
}

/// Appends what a provider is asked to do, or null.
fn put_execution(w: &mut Writer, x: &Option<Execution>)
    ensures
        final(w)@ == old(w)@ + execution_item(execution_view(*x)),
{
    let ghost start = w@;
    let ghost none = Seq::<u8>::empty();
    match x {
        Some(e) => {
            assert(execution_item(execution_view(*x)) =~= array_head(3) + (text_item(
                e.destination@,
            ) + (bytes_item(e.context@) + (text_item(e.method@) + none))));
            w.array(3);
            w.str(e.destination.as_str());
            w.bytes(e.context.as_slice());
            w.str(e.method.as_str());
        },
        None => {
            assert(null_item() + none =~= null_item());
            w.null();
        },
    }
    assert(w@ + none =~= w@);
}

/// Encodes a snapshot and what its provider is asked to do.
pub fn encode_snapshot(snapshot: &AttemptSnapshot, execution: &Option<Execution>) -> (r: Vec<u8>)
    ensures
        r@ == snapshot_bytes(snapshot@, execution_view(*execution)),
{
    let mut w = Writer::new();
    let ghost none = Seq::<u8>::empty();
    let ghost e = execution_item(execution_view(*execution));
    assert(none + snapshot_then(snapshot@, e) =~= snapshot_bytes(
        snapshot@,
        execution_view(*execution),
    ));
    put_snapshot(&mut w, snapshot);
    put_execution(&mut w, execution);
    w.finish()
}

/// The state at the front of `b` and what follows it.
pub open spec fn state_at(b: Seq<u8>) -> Option<(AttemptState, Seq<u8>)> {
    match take_text(b) {
        Some((s, t)) => match state_of(s) {
            Some(state) => Some((state, t)),
            None => None,
        },
        None => None,
    }
}

/// The snapshot that stands in `b`, whatever its provider is asked to do.
pub open spec fn snapshot_of(b: Seq<u8>) -> Option<SnapshotModel> {
    let v = match take_array_of(b, 12) {
        Some(b) => take_uint_to(b, u8::MAX as u64),
        None => None,
    };
    let attempt = next_fixed::<16>(after(v));
    let credential = next_fixed::<16>(after(attempt));
    let revision = next_fixed::<16>(after(credential));
    let integration = next_text(after(revision));
    let version = match after(integration) {
        Some(b) => take_uint_to(b, u32::MAX as u64),
        None => None,
    };
    let state = match after(version) {
        Some(b) => state_at(b),
        None => None,
    };
    let created = next_int(after(state));
    let expires = next_int(after(created));
    let reason = match after(expires) {
        Some(b) => take_nullable_text(b),
        None => None,
    };
    let result = match after(reason) {
        Some(b) => take_optional_bytes(b),
        None => None,
    };
    let end = match after(result) {
        Some(b) => passed(b),
        None => None,
    };
    if end is Some && (end->0).len() == 0 && (v->0).0 == 1 {
        Some(
            SnapshotModel {
                attempt_id: (attempt->0).0,
                credential_id: (credential->0).0,
                revision_id: (revision->0).0,
                integration_id: (integration->0).0,
                integration_version: (version->0).0 as u32,
                state: (state->0).0,
                created_at_us: (created->0).0,
                expires_at_us: (expires->0).0,
                reason: (reason->0).0,
                result: (result->0).0,
            },
        )
    } else {
        None
    }
}

/// Reads a state.
fn read_state(d: &mut Reader) -> (r: Option<AttemptState>)
    ensures
        match state_at(old(d).rest()) {
            Some((s, t)) => r == Some(s) && final(d).rest() == t,
            None => r is None,
        },
{
    match AttemptState::parse(d.str()?) {
        Ok(state) => Some(state),
        Err(_) => None,
    }
}

/// Reads a whole snapshot.
#[verifier::rlimit(40)]
fn read_snapshot(d: &mut Reader) -> (r: Option<AttemptSnapshot>)
    ensures
        match snapshot_of(old(d).rest()) {
            Some(m) => r is Some && (r->0)@ == m,
            None => r is None,
        },
{
    d.array_of(12)?;
    let v: u8 = d.u8()?;
    if !(v == 1) {
        return None;
    }
    let attempt_id = take_id(d)?;
    let credential_id = take_id(d)?;
    let revision_id = take_id(d)?;
    let integration_id = d.str()?.to_owned();
    let integration_version: u32 = d.u32()?;
    let state = read_state(d)?;
    let created_at_us: i64 = d.i64()?;
    let expires_at_us: i64 = d.i64()?;
    let reason = take_optional_text(d)?;
    let result = read_optional_bytes(d)?;
    d.skip()?;
    if !d.at_end() {
        return None;
    }
    Some(
        AttemptSnapshot {
            attempt_id,
            credential_id,
            revision_id,
            integration_id,
            integration_version,
            state,
            created_at_us,
            expires_at_us,
            reason,
            result,
        },
    )
}

/// Reads the snapshot out of a stored state.
pub fn decode_snapshot(input: &[u8]) -> (r: Result<AttemptSnapshot, AttemptError>)
    ensures
        match snapshot_of(input@) {
            Some(m) => r is Ok && (r->Ok_0)@ == m,
            None => r is Err && r->Err_0 is Integrity,
        },
{
    let mut d = Reader::new(input);
    match read_snapshot(&mut d) {
        Some(snapshot) => Ok(snapshot),
        None => Err(AttemptError::Integrity),
    }
}

/// What follows `n` items at the front of `b`.
pub open spec fn passed_by(b: Seq<u8>, n: nat) -> Option<Seq<u8>>
    decreases n,
{
    if n == 0 {
        Some(b)
    } else {
        match passed(b) {
            Some(t) => passed_by(t, (n - 1) as nat),
            None => None,
        }
    }
}

/// The method of an execution of so many fields: the oldest stored form names
/// none and belongs to the one integration of its time.
pub open spec fn method_at(fields: u64, integration: Seq<char>, b: Seq<u8>) -> Option<
    (Seq<char>, Seq<u8>),
> {
    if fields == 3 {
        take_text(b)
    } else if fields == 2 && integration == "controlled.external"@ {
        Some(("password"@, b))
    } else {
        None
    }
}

/// What the provider is asked to do according to a stored state.
pub open spec fn execution_of(b: Seq<u8>) -> Option<ExecutionModel> {
    let ids = match take_array_of(b, 12) {
        Some(b) => passed_by(b, 4),
        None => None,
    };
    let integration = next_text(ids);
    let rest = match after(integration) {
        Some(b) => passed_by(b, 6),
        None => None,
    };
    let fields = next_array(rest);
    let destination = next_text(after(fields));
    let context = next_bytes(after(destination));
    let method = match after(context) {
        Some(b) => method_at((fields->0).0, (integration->0).0, b),
        None => None,
    };
    if method is Some && (method->0).1.len() == 0 {
        Some(
            ExecutionModel {
                destination: (destination->0).0,
                context: (context->0).0,
                method: (method->0).0,
            },
        )
    } else {
        None
    }
}

/// Passes over `n` items.
fn pass_items(d: &mut Reader, n: u64) -> (r: Option<()>)
    ensures
        match passed_by(old(d).rest(), n as nat) {
            Some(t) => r is Some && final(d).rest() == t,
            None => r is None,
        },
{
    let mut i: u64 = 0;
    while i < n
        invariant
            i <= n,
            passed_by(old(d).rest(), n as nat) == passed_by(d.rest(), (n - i) as nat),
        decreases n - i,
    {
        d.skip()?;
        i += 1;
    }
    Some(())
}

/// Reads what the provider is asked to do.
fn read_execution(d: &mut Reader) -> (r: Option<Execution>)
    ensures
        match execution_of(old(d).rest()) {
            Some(m) => r is Some && (r->0)@ == m,
            None => r is None,
        },
{
    d.array_of(12)?;
    pass_items(d, 4)?;
    let integration = d.str()?;
    pass_items(d, 6)?;
    let fields: u64 = d.array()?;
    let destination = d.str()?.to_owned();
    let context = slice_to_vec(d.bytes()?);
    let method = if fields == 3 {
        d.str()?.to_owned()
    } else if fields == 2 && same_str(integration, "controlled.external") {
        "password".to_owned()
    } else {
        return None;
    };
    if !d.at_end() {
        return None;
    }
    Some(Execution { destination, context, method })
}

/// Reads what the provider is asked to do out of a stored state.
pub fn decode_execution(input: &[u8]) -> (r: Result<Execution, AttemptError>)
    ensures
        match execution_of(input@) {
            Some(m) => r is Ok && (r->Ok_0)@ == m,
            None => r is Err && r->Err_0 is Integrity,
        },
{
    let mut d = Reader::new(input);
    match read_execution(&mut d) {
        Some(execution) => Ok(execution),
        None => Err(AttemptError::Integrity),
    }
}

/// What a provider is asked to do is one item.
proof fn lemma_execution_item(e: Option<ExecutionModel>)
    requires
        execution_item(e).len() <= u64::MAX,
    ensures
        items_after(execution_item(e), 1) == Some(Seq::<u8>::empty()),
{
    let none = Seq::<u8>::empty();
    lemma_items();
    match e {
        Some(e) => {
            let t3 = text_item(e.method) + none;
            let t2 = bytes_item(e.context) + t3;
            let t1 = text_item(e.destination) + t2;
            let t0 = array_head(3) + t1;
            assert(t3 =~= text_item(e.method));
            assert(t0 =~= execution_item(Some(e)));
            assert(items_after(t0, 1) == items_after(t1, 3));
            assert(items_after(t1, 3) == items_after(t2, 2));
            assert(items_after(t2, 2) == items_after(t3, 1));
            assert(items_after(t3, 1) == items_after(none, 0));
        },
        None => {
            assert(null_item() + none =~= null_item());
            assert(items_after(null_item() + none, 1) == items_after(none, 0));
        },
    }
}

/// A stored snapshot is read back, whatever its provider is asked to do.
#[verifier::rlimit(40)]
pub proof fn lemma_snapshot(m: SnapshotModel, e: Option<ExecutionModel>)
    requires
        snapshot_bytes(m, e).len() <= u64::MAX,
    ensures
        snapshot_of(snapshot_bytes(m, e)) == Some(m),
{
    let t12 = execution_item(e);
    let t11 = optional_bytes_item(m.result) + t12;
    let t10 = optional_text_item(m.reason) + t11;
    let t9 = int_item(m.expires_at_us) + t10;
    let t8 = int_item(m.created_at_us) + t9;
    let t7 = text_item(state_name(m.state)) + t8;
    let t6 = uint_item(m.integration_version as u64) + t7;
    let t5 = text_item(m.integration_id) + t6;
    let t4 = bytes_item(m.revision_id@) + t5;
    let t3 = bytes_item(m.credential_id@) + t4;
    let t2 = bytes_item(m.attempt_id@) + t3;
    let t1 = uint_item(1) + t2;
    let t0 = array_head(12) + t1;
    assert(t0 == snapshot_bytes(m, e));
    lemma_state_names(m.state);
    lemma_array(12, t1);
    lemma_uint(1, t2);
    lemma_bytes_within(m.attempt_id@, t3);
    lemma_array_of(m.attempt_id);
    lemma_bytes_within(m.credential_id@, t4);
    lemma_array_of(m.credential_id);
    lemma_bytes_within(m.revision_id@, t5);
    lemma_array_of(m.revision_id);
    lemma_text_within(m.integration_id, t6);
    lemma_uint(m.integration_version as u64, t7);
    lemma_text_within(state_name(m.state), t8);
    lemma_int(m.created_at_us, t9);
    lemma_int(m.expires_at_us, t10);
    lemma_nullable_text(m.reason, t11);
    lemma_optional_bytes(m.result, t12);
    lemma_execution_item(e);
}

/// What a provider is asked to do is read back from the stored state.
#[verifier::rlimit(40)]
pub proof fn lemma_execution(m: SnapshotModel, e: ExecutionModel)
    requires
        snapshot_bytes(m, Some(e)).len() <= u64::MAX,
    ensures
        execution_of(snapshot_bytes(m, Some(e))) == Some(e),
{
    let t12 = execution_item(Some(e));
    let t11 = optional_bytes_item(m.result) + t12;
    let t10 = optional_text_item(m.reason) + t11;
    let t9 = int_item(m.expires_at_us) + t10;
    let t8 = int_item(m.created_at_us) + t9;
    let t7 = text_item(state_name(m.state)) + t8;
    let t6 = uint_item(m.integration_version as u64) + t7;
    let t5 = text_item(m.integration_id) + t6;
    let t4 = bytes_item(m.revision_id@) + t5;
    let t3 = bytes_item(m.credential_id@) + t4;
    let t2 = bytes_item(m.attempt_id@) + t3;
    let t1 = uint_item(1) + t2;
    let t0 = array_head(12) + t1;
    assert(t0 == snapshot_bytes(m, Some(e)));
    lemma_array(12, t1);
    lemma_uint(1, t2);
    lemma_bytes_within(m.attempt_id@, t3);
    lemma_array_of(m.attempt_id);
    lemma_bytes_within(m.credential_id@, t4);
    lemma_array_of(m.credential_id);
    lemma_bytes_within(m.revision_id@, t5);
    lemma_array_of(m.revision_id);
    lemma_text_within(m.integration_id, t6);
    lemma_uint(m.integration_version as u64, t7);
    lemma_text_within(state_name(m.state), t8);
    lemma_int(m.created_at_us, t9);
    lemma_int(m.expires_at_us, t10);
    lemma_nullable_text(m.reason, t11);
    lemma_optional_bytes(m.result, t12);
    lemma_items();
    reveal_with_fuel(passed_by, 7);
    assert(items_after(t1, 1) == items_after(t2, 0));
    assert(passed(t1) == Some(t2));
    assert(items_after(t2, 1) == items_after(t3, 0));
    assert(passed(t2) == Some(t3));
    assert(items_after(t3, 1) == items_after(t4, 0));
    assert(passed(t3) == Some(t4));
    assert(items_after(t4, 1) == items_after(t5, 0));
    assert(passed(t4) == Some(t5));
    assert(items_after(t6, 1) == items_after(t7, 0));
    assert(passed(t6) == Some(t7));
    assert(items_after(t7, 1) == items_after(t8, 0));
    assert(passed(t7) == Some(t8));
    assert(items_after(t8, 1) == items_after(t9, 0));
    assert(passed(t8) == Some(t9));
    assert(items_after(t9, 1) == items_after(t10, 0));
    assert(passed(t9) == Some(t10));
    assert(items_after(t10, 1) == items_after(t11, 0));
    assert(passed(t10) == Some(t11));
    assert(items_after(t11, 1) == items_after(t12, 0));
    assert(passed(t11) == Some(t12));
    assert(passed_by(t1, 4) == Some(t5));
    assert(passed_by(t6, 6) == Some(t12));
    let none = Seq::<u8>::empty();
    let u3 = text_item(e.method) + none;
    let u2 = bytes_item(e.context) + u3;
    let u1 = text_item(e.destination) + u2;
    assert(u3 =~= text_item(e.method));
    assert(t12 == array_head(3) + u1);
    lemma_array(3, u1);
    lemma_text_within(e.destination, u2);
    lemma_bytes_within(e.context, u3);
    lemma_text_within(e.method, none);
}

/// The later of two instants, the first as far as there is one.
pub open spec fn later(max: Option<i64>, now: i64) -> i64 {
    match max {
        Some(v) => if v > now {
            v
        } else {
            now
        },
        None => now,
    }
}

/// Checks that the clock has not fallen behind the latest instant seen, and
/// returns the latest one now.
pub fn check_clock(max: Option<i64>, now: i64) -> (r: Result<i64, AttemptError>)
    ensures
        if max is Some && now + KEY_FUTURE_US < max->0 {
            r is Err && r->Err_0 is ClockUntrusted
        } else {
            r is Ok && r->Ok_0 == later(max, now)
        },
{
    match max {
        Some(v) => if (now as i128) + (KEY_FUTURE_US as i128) < (v as i128) {
            Err(AttemptError::ClockUntrusted)
        } else if v > now {
            Ok(v)
        } else {
            Ok(now)
        },
        None => Ok(now),
    }
}

/// An attempt that was started under the same key.
pub struct ExistingAttempt {
    pub attempt_id: Vec<u8>,
    pub params_digest: Vec<u8>,
    pub created_at_us: i64,
}

/// What a request under a key comes to: the attempt that it repeats, or
/// nothing where it starts a new one.
pub open spec fn repeated(
    existing: Option<ExistingAttempt>,
    params: [u8; 32],
    issued_at_us: i64,
    now: i64,
) -> Result<Option<Seq<u8>>, AttemptError> {
    match existing {
        Some(e) => if now - e.created_at_us > IDEMPOTENCY_LIFETIME_US {
            Err(AttemptError::IdempotencyExpired)
        } else if e.params_digest@ != params@ {
            Err(AttemptError::IdempotencyConflict)
        } else if e.attempt_id@.len() != 16 {
            Err(AttemptError::Integrity)
        } else {
            Ok(Some(e.attempt_id@))
        },
        None => if now - KEY_PAST_US <= issued_at_us <= now + KEY_FUTURE_US {
            Ok(None)
        } else {
            Err(AttemptError::InvalidArgument)
        },
    }
}

/// Finds the attempt that a request repeats, or checks that its key is fresh.
pub fn check_repeated(
    existing: &Option<ExistingAttempt>,
    params: &[u8; 32],
    key: &IdempotencyKey,
    now: i64,
) -> (r: Result<Option<[u8; 16]>, AttemptError>)
    ensures
        match repeated(*existing, *params, key@.issued_at_us, now) {
            Ok(Some(id)) => r is Ok && r->Ok_0 is Some && (r->Ok_0->0)@ == id,
            Ok(None) => r is Ok && r->Ok_0 is None,
            Err(e) => r is Err && r->Err_0 == e,
        },
{
    match existing {
        Some(e) => {
            if (now as i128) - (e.created_at_us as i128) > (IDEMPOTENCY_LIFETIME_US as i128) {
                return Err(AttemptError::IdempotencyExpired);
            }
            if !same(e.params_digest.as_slice(), params.as_slice()) {
                return Err(AttemptError::IdempotencyConflict);
            }
            match fixed16(e.attempt_id.as_slice()) {
                Some(id) => Ok(Some(id)),
                None => Err(AttemptError::Integrity),
            }
        },
        None => {
            let issued: i128 = key.issued_at_us as i128;
            if issued < (now as i128) - (KEY_PAST_US as i128) || issued > (now as i128) + (
            KEY_FUTURE_US as i128) {
                return Err(AttemptError::InvalidArgument);
            }
            Ok(None)
        },
    }
}

/// A request is answered by the attempt it started, for as long as the key
/// lasts; the same key with other parameters is refused.
pub proof fn lemma_repeat(e: ExistingAttempt, params: [u8; 32], issued_at_us: i64, now: i64)
    requires
        e.attempt_id@.len() == 16,
        e.created_at_us <= now <= e.created_at_us + IDEMPOTENCY_LIFETIME_US,
    ensures
        repeated(Some(e), params, issued_at_us, now) == (if e.params_digest@ == params@ {
            Ok::<Option<Seq<u8>>, AttemptError>(Some(e.attempt_id@))
        } else {
            Err(AttemptError::IdempotencyConflict)
        }),
{
}

/// Whether an integration can use a credential in the way a request asks.
pub open spec fn supported(request: StartModel, credential: CredentialModel) -> bool {
    let bound = request.context == encode_utf8(request.destination);
    &&& request.integration_version == 1
    &&& credential.destination == Some(request.destination)
    &&& if request.integration_id == "controlled.external"@ {
        credential.kind is Password && request.method == "password"@
    } else if request.integration_id == "keycloak-browser-oidc"@ {
        credential.kind is Password && (request.method == "password"@ || request.method
            == "password_totp"@) && bound
    } else if request.integration_id == "keycloak-token-exchange"@ {
        request.method == "token_exchange"@ && credential.kind is Token && bound
    } else {
        false
    }
}

/// Whether an integration can use a credential in the way a request asks.
fn is_supported(request: &StartAttempt, credential: &DelegatedCredential) -> (r: bool)
    ensures
        r == supported(request@, credential@),
{
    let reaches = match credential.destination() {
        Some(destination) => same_str(destination, request.destination.as_str()),
        None => false,
    };
    if request.integration_version != 1 || !reaches {
        return false;
    }
    let password = match credential.kind() {
        RecordKind::Password => true,
        _ => false,
    };
    let token = match credential.kind() {
        RecordKind::Token => true,
        _ => false,
    };
    let integration = request.integration_id.as_str();
    let method = request.method.as_str();
    let bound = same(request.context.as_slice(), request.destination.as_str().as_bytes());
    if same_str(integration, "controlled.external") {
        password && same_str(method, "password")
    } else if same_str(integration, "keycloak-browser-oidc") {
        password && (same_str(method, "password") || same_str(method, "password_totp")) && bound
    } else if same_str(integration, "keycloak-token-exchange") {
        same_str(method, "token_exchange") && token && bound
    } else {
        false
    }
}

/// The attempt that a fresh request starts.
pub open spec fn started(
    request: StartModel,
    credential: CredentialModel,
    unfinished: (i64, i64),
    attempt_id: [u8; 16],
    now: i64,
) -> Result<SnapshotModel, AttemptError> {
    if !supported(request, credential) {
        Err(AttemptError::CredentialUnavailable)
    } else if unfinished.0 >= MAX_PER_AGENT || unfinished.1 >= MAX_PER_CUSTODIAN {
        Err(AttemptError::RateLimited)
    } else if now + ATTEMPT_LIFETIME_US > i64::MAX {
        Err(AttemptError::ClockUntrusted)
    } else {
        Ok(
            SnapshotModel {
                attempt_id,
                credential_id: request.credential_id,
                revision_id: credential.revision_id,
                integration_id: request.integration_id,
                integration_version: request.integration_version,
                state: AttemptState::Created,
                created_at_us: now,
                expires_at_us: (now + ATTEMPT_LIFETIME_US) as i64,
                reason: None,
                result: None,
            },
        )
    }
}

/// Starts an attempt for a fresh request, given how many unfinished ones its
/// agent and all agents have. A clock at the end of its range is not trusted.
pub fn start(
    request: &StartAttempt,
    credential: &DelegatedCredential,
    unfinished: (i64, i64),
    attempt_id: [u8; 16],
    now: i64,
) -> (r: Result<AttemptSnapshot, AttemptError>)
    ensures
        match started(request@, credential@, unfinished, attempt_id, now) {
            Ok(m) => r is Ok && (r->Ok_0)@ == m,
            Err(e) => r is Err && r->Err_0 == e,
        },
{
    if !is_supported(request, credential) {
        return Err(AttemptError::CredentialUnavailable);
    }
    if unfinished.0 >= MAX_PER_AGENT || unfinished.1 >= MAX_PER_CUSTODIAN {
        return Err(AttemptError::RateLimited);
    }
    match now.checked_add(ATTEMPT_LIFETIME_US) {
        Some(expires_at_us) => Ok(
            AttemptSnapshot {
                attempt_id,
                credential_id: request.credential_id,
                revision_id: *credential.revision_id(),
                integration_id: request.integration_id.as_str().to_owned(),
                integration_version: request.integration_version,
                state: AttemptState::Created,
                created_at_us: now,
                expires_at_us,
                reason: None,
                result: None,
            },
        ),
        None => Err(AttemptError::ClockUntrusted),
    }
}

/// The owner of a stored attempt, and its sealed state while it is kept.
pub struct OwnerRow {
    pub package: Option<Vec<u8>>,
    pub subject: Vec<u8>,
    pub generation: i64,
}

/// The sealed state that an agent is given of a stored attempt, or of none.
pub open spec fn owned_state(row: Option<OwnerRow>, owner: IdentityModel) -> Result<
    Seq<u8>,
    AttemptError,
> {
    match row {
        Some(o) => if o.subject@.len() != 16 {
            Err(AttemptError::Integrity)
        } else if o.subject@ != owner.subject@ {
            Err(AttemptError::NotFound)
        } else if o.generation < 0 {
            Err(AttemptError::Integrity)
        } else if o.generation != owner.generation {
            Err(AttemptError::NotFound)
        } else {
            match o.package {
                Some(package) => Ok(package@),
                None => Err(AttemptError::ResultExpired),
            }
        },
        None => Err(AttemptError::NotFound),
    }
}

/// An attempt of another agent, or of another generation of the same one,
/// cannot be told from one that does not exist.
pub proof fn lemma_foreign_is_absent(row: OwnerRow, owner: IdentityModel)
    requires
        row.subject@.len() == 16,
        row.generation >= 0,
        row.subject@ != owner.subject@ || row.generation != owner.generation,
    ensures
        owned_state(Some(row), owner) == owned_state(None, owner),
        owned_state(None, owner) == Err::<Seq<u8>, AttemptError>(AttemptError::NotFound),
{
}

/// The sealed state of a stored attempt that belongs to an agent; to others the
/// attempt does not exist.
pub fn load_owned(row: Option<OwnerRow>, owner: &AgentIdentity) -> (r: Result<
    Vec<u8>,
    AttemptError,
>)
    ensures
        match owned_state(row, owner@) {
            Ok(package) => r is Ok && (r->Ok_0)@ == package,
            Err(e) => r is Err && r->Err_0 == e,
        },
{
    let o = match row {
        Some(o) => o,
        None => return Err(AttemptError::NotFound),
    };
    let subject = match fixed16(o.subject.as_slice()) {
        Some(subject) => subject,
        None => return Err(AttemptError::Integrity),
    };
    if !same(subject.as_slice(), owner.subject().as_slice()) {
        return Err(AttemptError::NotFound);
    }
    if o.generation < 0 {
        return Err(AttemptError::Integrity);
    }
    if o.generation as u64 != owner.generation() {
        return Err(AttemptError::NotFound);
    }
    match o.package {
        Some(package) => Ok(package),
        None => Err(AttemptError::ResultExpired),
    }
}

/// A snapshot whose stored deadline may be the earlier one.
pub open spec fn bounded(m: SnapshotModel, stored_expires: i64) -> SnapshotModel {
    SnapshotModel {
        expires_at_us: if stored_expires < m.expires_at_us {
            stored_expires
        } else {
            m.expires_at_us
        },
        ..m
    }
}

/// Whether an attempt has run out of time.
pub open spec fn overdue(m: SnapshotModel, now: i64) -> bool {
    !is_terminal(m.state) && !(m.state is Indeterminate) && now >= m.expires_at_us
}

/// Whether the result of an attempt that ended then is no longer kept.
pub open spec fn result_due(terminal_at_us: Option<i64>, now: i64) -> bool {
    terminal_at_us is Some && now - terminal_at_us->0 >= RESULT_LIFETIME_US
}

/// What an attempt is seen as: its snapshot, whether it ran out of time just
/// now, and whether its result is dropped.
pub struct Observed {
    pub snapshot: AttemptSnapshot,
    pub expired: bool,
    pub result_expired: bool,
}

/// The snapshot of an attempt that ran out of time.
pub open spec fn expired_snapshot(m: SnapshotModel) -> SnapshotModel {
    SnapshotModel { state: AttemptState::Expired, reason: Some("ATTEMPT_EXPIRED"@), ..m }
}

/// Looks at an attempt: it expires when its time is over, and its result is
/// dropped a day after it ended.
pub fn observe(
    snapshot: AttemptSnapshot,
    stored_expires: i64,
    terminal_at_us: Option<i64>,
    now: i64,
) -> (r: Observed)
    ensures
        ({
            let m = bounded(snapshot@, stored_expires);
            let due = !r.expired && result_due(terminal_at_us, now);
            let seen = if r.expired {
                expired_snapshot(m)
            } else {
                m
            };
            &&& r.expired == overdue(m, now)
            &&& r.result_expired == due
            &&& r.snapshot@ == (if due {
                SnapshotModel { result: None, ..seen }
            } else {
                seen
            })
        }),
{
    let mut s = snapshot;
    if stored_expires < s.expires_at_us {
        s.expires_at_us = stored_expires;
    }
    let indeterminate = match s.state {
        AttemptState::Indeterminate => true,
        _ => false,
    };
    if !s.state.terminal() && !indeterminate && now >= s.expires_at_us {
        s.state = AttemptState::Expired;
        s.reason = Some("ATTEMPT_EXPIRED".to_owned());
        return Observed { snapshot: s, expired: true, result_expired: false };
    }
    let result_expired = match terminal_at_us {
        Some(v) => (now as i128) - (v as i128) >= (RESULT_LIFETIME_US as i128),
        None => false,
    };
    if result_expired {
        s.result = None;
    }
    Observed { snapshot: s, expired: false, result_expired }
}

/// Whether a cancellation still ends an attempt.
pub open spec fn cancellable(state: AttemptState) -> bool {
    state is Created || state is Running || state is WaitingForHuman
}

/// What a cancellation makes of an attempt.
pub open spec fn cancelled(m: SnapshotModel) -> SnapshotModel {
    if cancellable(m.state) {
        SnapshotModel { state: AttemptState::Cancelled, reason: Some("ATTEMPT_CANCELLED"@), ..m }
    } else {
        m
    }
}

/// Cancels an attempt that has not ended, and tells whether it did.
pub fn cancel(snapshot: AttemptSnapshot) -> (r: (AttemptSnapshot, bool))
    ensures
        r.0@ == cancelled(snapshot@),
        r.1 == cancellable(snapshot@.state),
{
    match snapshot.state {
        AttemptState::Created | AttemptState::Running | AttemptState::WaitingForHuman => {
            let mut s = snapshot;
            s.state = AttemptState::Cancelled;
            s.reason = Some("ATTEMPT_CANCELLED".to_owned());
            (s, true)
        },
        _ => (snapshot, false),
    }
}

/// Whether an attempt can be claimed: a new one to be run, or a waiting one to
/// be looked at again after a rest.
pub open spec fn may_claim(
    state: AttemptState,
    expires_at_us: i64,
    claimed_at_us: Option<i64>,
    reconcile: bool,
    now: i64,
) -> bool {
    &&& expires_at_us > now
    &&& if reconcile {
        (state is WaitingForHuman || state is Indeterminate) && claimed_at_us is Some
            && claimed_at_us->0 <= now - RECONCILE_US
    } else {
        state is Created
    }
}

/// What is stored of an attempt that may be claimed.
#[derive(Clone, Copy, Debug, PartialEq, Eq, Structural)]
pub struct ClaimRow {
    pub state: AttemptState,
    pub created_at_us: i64,
    pub expires_at_us: i64,
    pub claimed_at_us: Option<i64>,
}

/// Whether a stored attempt can be claimed.
pub open spec fn row_claimable(row: ClaimRow, reconcile: bool, now: i64) -> bool {
    may_claim(row.state, row.expires_at_us, row.claimed_at_us, reconcile, now)
}

/// Since when an attempt waits to be claimed.
pub open spec fn waits_since(row: ClaimRow, reconcile: bool) -> i64 {
    if reconcile {
        row.claimed_at_us->0
    } else {
        row.created_at_us
    }
}

/// Since when a stored attempt waits, where it can be claimed.
fn claimable(row: &ClaimRow, reconcile: bool, now: i64) -> (r: Option<i64>)
    ensures
        r == (if row_claimable(*row, reconcile, now) {
            Some(waits_since(*row, reconcile))
        } else {
            None
        }),
{
    if row.expires_at_us <= now {
        return None;
    }
    match row.state {
        AttemptState::Created => if reconcile {
            None
        } else {
            Some(row.created_at_us)
        },
        AttemptState::WaitingForHuman | AttemptState::Indeterminate => match row.claimed_at_us {
            Some(v) => if reconcile && (v as i128) <= (now as i128) - (RECONCILE_US as i128) {
                Some(v)
            } else {
                None
            },
            None => None,
        },
        _ => None,
    }
}

/// The attempt that is claimed next: the one that has waited longest.
pub fn next_claim(rows: &Vec<ClaimRow>, reconcile: bool, now: i64) -> (r: Option<usize>)
    ensures
        match r {
            Some(i) => {
                &&& i < rows@.len()
                &&& row_claimable(rows@[i as int], reconcile, now)
                &&& forall|j: int|
                    0 <= j < rows@.len() && row_claimable(#[trigger] rows@[j], reconcile, now)
                        ==> waits_since(rows@[i as int], reconcile) <= waits_since(
                        rows@[j],
                        reconcile,
                    )
            },
            None => forall|j: int|
                0 <= j < rows@.len() ==> !row_claimable(#[trigger] rows@[j], reconcile, now),
        },
{
    let mut best: Option<(usize, i64)> = None;
    let mut i: usize = 0;
    while i < rows.len()
        invariant
            i <= rows@.len(),
            match best {
                Some((k, since)) => {
                    &&& k < i
                    &&& row_claimable(rows@[k as int], reconcile, now)
                    &&& since == waits_since(rows@[k as int], reconcile)
                    &&& forall|j: int|
                        0 <= j < i && row_claimable(#[trigger] rows@[j], reconcile, now) ==> since
                            <= waits_since(rows@[j], reconcile)
                },
                None => forall|j: int|
                    0 <= j < i ==> !row_claimable(#[trigger] rows@[j], reconcile, now),
            },
        decreases rows@.len() - i,
    {
        if let Some(since) = claimable(&rows[i], reconcile, now) {
            let older = match best {
                Some((_, oldest)) => since < oldest,
                None => true,
            };
            if older {
                best = Some((i, since));
            }
        }
        i += 1;
    }
    match best {
        Some((k, _)) => Some(k),
        None => None,
    }
}

/// Claims an attempt for a revision of its credential.
pub fn claim(snapshot: AttemptSnapshot, revision: &[u8; 16]) -> (r: Result<
    AttemptSnapshot,
    AttemptError,
>)
    ensures
        if snapshot@.revision_id == *revision {
            r is Ok && (r->Ok_0)@ == (SnapshotModel { state: AttemptState::Running, ..snapshot@ })
        } else {
            r is Err && r->Err_0 is CredentialUnavailable
        },
{
    if !same_array(&snapshot.revision_id, revision) {
        return Err(AttemptError::CredentialUnavailable);
    }
    let mut s = snapshot;
    s.state = AttemptState::Running;
    Ok(s)
}

/// How the use of a provider ended.
pub enum AttemptOutcome {
    Succeeded { result: Vec<u8> },
    WaitingForHuman { challenge: Vec<u8> },
    Failed { reason: &'static str },
    Indeterminate,
}

/// A settled attempt, how it is recorded and whether it has ended.
pub struct Settled {
    pub snapshot: AttemptSnapshot,
    pub audit_outcome: AuditOutcome,
    pub terminal: bool,
}

/// What an outcome makes of an attempt and how it is recorded.
pub open spec fn settled(m: SnapshotModel, outcome: AttemptOutcome) -> Result<
    (SnapshotModel, AuditOutcome),
    AttemptError,
> {
    match outcome {
        AttemptOutcome::Succeeded { result } => if result@.len() > MAX_CONTEXT {
            Err(AttemptError::InvalidArgument)
        } else {
            Ok(
                (
                    SnapshotModel {
                        state: AttemptState::Succeeded,
                        result: Some(result@),
                        ..m
                    },
                    AuditOutcome::Succeeded,
                ),
            )
        },
        AttemptOutcome::WaitingForHuman { challenge } => if challenge@.len() > MAX_CONTEXT
            || !valid_utf8(challenge@) {
            Err(AttemptError::InvalidArgument)
        } else {
            Ok(
                (
                    SnapshotModel {
                        state: AttemptState::WaitingForHuman,
                        reason: Some(decode_utf8(challenge@)),
                        ..m
                    },
                    AuditOutcome::Accepted,
                ),
            )
        },
        AttemptOutcome::Failed { reason } => Ok(
            (
                SnapshotModel { state: AttemptState::Failed, reason: Some(reason@), ..m },
                AuditOutcome::Failed,
            ),
        ),
        AttemptOutcome::Indeterminate => Ok((indeterminate(m), AuditOutcome::Indeterminate)),
    }
}

/// The snapshot of an attempt whose end is unknown.
pub open spec fn indeterminate(m: SnapshotModel) -> SnapshotModel {
    SnapshotModel { state: AttemptState::Indeterminate, reason: Some("INDETERMINATE"@), ..m }
}

/// Settles an attempt. The lease must have been for the stored method.
pub fn settle(
    snapshot: AttemptSnapshot,
    stored_method: &str,
    leased_method: &str,
    outcome: AttemptOutcome,
) -> (r: Result<Settled, AttemptError>)
    ensures
        if stored_method@ != leased_method@ {
            r is Err && r->Err_0 is Integrity
        } else {
            match settled(snapshot@, outcome) {
                Ok((m, o)) => r is Ok && (r->Ok_0).snapshot@ == m && (r->Ok_0).audit_outcome == o
                    && (r->Ok_0).terminal == is_terminal(m.state),
                Err(e) => r is Err && r->Err_0 == e,
            }
        },
{
    if !same_str(stored_method, leased_method) {
        return Err(AttemptError::Integrity);
    }
    let mut s = snapshot;
    match outcome {
        AttemptOutcome::Succeeded { result } => {
            if result.len() > MAX_CONTEXT {
                return Err(AttemptError::InvalidArgument);
            }
            s.state = AttemptState::Succeeded;
            s.result = Some(result);
            Ok(Settled { snapshot: s, audit_outcome: AuditOutcome::Succeeded, terminal: true })
        },
        AttemptOutcome::WaitingForHuman { challenge } => {
            if challenge.len() > MAX_CONTEXT {
                return Err(AttemptError::InvalidArgument);
            }
            match text_from_utf8(challenge) {
                Some(text) => {
                    s.state = AttemptState::WaitingForHuman;
                    s.reason = Some(text);
                    Ok(
                        Settled {
                            snapshot: s,
                            audit_outcome: AuditOutcome::Accepted,
                            terminal: false,
                        },
                    )
                },
                None => Err(AttemptError::InvalidArgument),
            }
        },
        AttemptOutcome::Failed { reason } => {
            s.state = AttemptState::Failed;
            s.reason = Some(reason.to_owned());
            Ok(Settled { snapshot: s, audit_outcome: AuditOutcome::Failed, terminal: true })
        },
        AttemptOutcome::Indeterminate => Ok(
            Settled {
                snapshot: recover(s),
                audit_outcome: AuditOutcome::Indeterminate,
                terminal: false,
            },
        ),
    }
}

/// What a restart makes of an attempt that was running: its end is unknown.
pub fn recover(snapshot: AttemptSnapshot) -> (r: AttemptSnapshot)
    ensures
        r@ == indeterminate(snapshot@),
{
    let mut s = snapshot;
    s.state = AttemptState::Indeterminate;
    s.reason = Some("INDETERMINATE".to_owned());
    s
}

/// An attempt that has ended stays as it is: it does not expire, is not
/// cancelled and is never claimed.
pub proof fn lemma_ended_stays(
    m: SnapshotModel,
    stored_expires: i64,
    claimed_at_us: Option<i64>,
    now: i64,
)
    requires
        is_terminal(m.state),
    ensures
        !overdue(bounded(m, stored_expires), now),
        cancelled(m) == m,
        forall|expires: i64, reconcile: bool|
            !#[trigger] may_claim(m.state, expires, claimed_at_us, reconcile, now),
{
}

/// A running attempt is claimed by nobody else, and an attempt whose time is
/// over by nobody at all.
pub proof fn lemma_claimed_once(
    m: SnapshotModel,
    expires_at_us: i64,
    claimed_at_us: Option<i64>,
    reconcile: bool,
    now: i64,
)
    ensures
        m.state is Running ==> !may_claim(m.state, expires_at_us, claimed_at_us, reconcile, now),
        overdue(m, now) ==> !may_claim(m.state, m.expires_at_us, claimed_at_us, reconcile, now),
{
}

/// An attempt whose end is unknown is not run again, cancelled or expired: it
/// can only be looked at again.
pub proof fn lemma_unknown_end(
    m: SnapshotModel,
    stored_expires: i64,
    claimed_at_us: Option<i64>,
    now: i64,
)
    ensures
        !overdue(bounded(indeterminate(m), stored_expires), now),
        cancelled(indeterminate(m)) == indeterminate(m),
        !may_claim(indeterminate(m).state, stored_expires, claimed_at_us, false, now),
{
}

/// What is stored of an attempt beside its sealed snapshot.
pub struct StateRow {
    pub state: String,
    /// The token of the lease, while the attempt is leased.
    pub lease_token: Option<Vec<u8>>,
    /// When the attempt ended.
    pub terminal_at_us: Option<i64>,
}

/// The contents of a [`StateRow`].
pub struct StateModel {
    pub state: Seq<char>,
    pub lease_token: Option<Seq<u8>>,
    pub terminal_at_us: Option<i64>,
}

impl View for StateRow {
    type V = StateModel;

    open spec fn view(&self) -> StateModel {
        StateModel {
            state: self.state@,
            lease_token: opt_vec(self.lease_token),
            terminal_at_us: self.terminal_at_us,
        }
    }
}

/// Whether a stored attempt runs under a lease.
pub open spec fn leased(row: StateModel, token: [u8; 16]) -> bool {
    row.state == "running"@ && row.lease_token == Some(token@)
}

/// Checks that a stored attempt runs under a lease; one that does not is not
/// found.
pub fn check_leased(row: &Option<StateRow>, token: &[u8; 16]) -> (r: Result<(), AttemptError>)
    ensures
        r == (if row is Some && leased((row->0)@, *token) {
            Ok::<(), AttemptError>(())
        } else {
            Err(AttemptError::NotFound)
        }),
{
    match row {
        Some(row) => match &row.lease_token {
            Some(stored) => if same_str(row.state.as_str(), "running") && same(
                stored.as_slice(),
                token.as_slice(),
            ) {
                Ok(())
            } else {
                Err(AttemptError::NotFound)
            },
            None => Err(AttemptError::NotFound),
        },
        None => Err(AttemptError::NotFound),
    }
}

/// What is stored of an attempt that is claimed under a lease.
pub open spec fn claimed_state(token: [u8; 16]) -> StateModel {
    StateModel { state: "running"@, lease_token: Some(token@), terminal_at_us: None }
}

/// What is stored of an attempt that is claimed under a lease.
pub fn claimed_row(token: &[u8; 16]) -> (r: StateRow)
    ensures
        r@ == claimed_state(*token),
{
    StateRow {
        state: "running".to_owned(),
        lease_token: Some(slice_to_vec(token.as_slice())),
        terminal_at_us: None,
    }
}

/// What is stored of an attempt that nobody holds a lease on.
pub open spec fn free_state(m: SnapshotModel, now: i64) -> StateModel {
    StateModel {
        state: state_name(m.state),
        lease_token: None,
        terminal_at_us: if is_terminal(m.state) {
            Some(now)
        } else {
            None
        },
    }
}

/// What is stored of an attempt that nobody holds a lease on.
pub fn free_row(snapshot: &AttemptSnapshot, now: i64) -> (r: StateRow)
    ensures
        r@ == free_state(snapshot@, now),
{
    StateRow {
        state: snapshot.state.name().to_owned(),
        lease_token: None,
        terminal_at_us: if snapshot.state.terminal() {
            Some(now)
        } else {
            None
        },
    }
}

/// A claimed attempt runs under its lease, until it is settled: whatever the
/// outcome was, the lease is not found a second time.
pub proof fn lemma_settled_once(
    m: SnapshotModel,
    outcome: AttemptOutcome,
    token: [u8; 16],
    again: [u8; 16],
    now: i64,
)
    ensures
        leased(claimed_state(token), token),
        settled(m, outcome) is Ok ==> !leased(
            free_state((settled(m, outcome)->Ok_0).0, now),
            again,
        ),
{
}

/// A lease on a stored attempt.
pub struct LeaseRow {
    pub revision_id: Vec<u8>,
    pub subject: Vec<u8>,
    pub generation: i64,
    pub lease_token: Vec<u8>,
}

/// Whether a stored attempt is still the one that was leased.
pub open spec fn lease_holds(
    row: LeaseRow,
    revision: [u8; 16],
    owner: IdentityModel,
    token: [u8; 16],
) -> bool {
    &&& row.revision_id@ == revision@
    &&& row.subject@ == owner.subject@
    &&& row.generation == owner.generation
    &&& row.lease_token@ == token@
}

/// Checks, right before a provider is used, that a lease still holds: the
/// running attempt is the leased one and its credential has the same revision.
pub fn check_lease(
    row: &Option<LeaseRow>,
    revision: &[u8; 16],
    owner: &AgentIdentity,
    token: &[u8; 16],
) -> (r: Result<(), AttemptError>)
    ensures
        match *row {
            Some(l) => if lease_holds(l, *revision, owner@, *token) {
                r is Ok
            } else {
                r is Err && r->Err_0 is Integrity
            },
            None => r is Err && r->Err_0 is NotFound,
        },
{
    match row {
        Some(l) => if same(l.revision_id.as_slice(), revision.as_slice()) && same(
            l.subject.as_slice(),
            owner.subject().as_slice(),
        ) && l.generation >= 0 && l.generation as u64 == owner.generation() && same(
            l.lease_token.as_slice(),
            token.as_slice(),
        ) {
            Ok(())
        } else {
            Err(AttemptError::Integrity)
        },
        None => Err(AttemptError::NotFound),
    }
}

/// Checks that a credential has the revision that was leased.
pub fn check_revision(current: &[u8; 16], leased: &[u8; 16]) -> (r: Result<(), AttemptError>)
    ensures
        r == (if *current == *leased {
            Ok::<(), AttemptError>(())
        } else {
            Err(AttemptError::CredentialUnavailable)
        }),
{
    if same_array(current, leased) {
        Ok(())
    } else {
        Err(AttemptError::CredentialUnavailable)
    }
}

/// The audit event of an attempt of an agent.
pub fn attempt_event(
    owner: &[u8],
    snapshot: &AttemptSnapshot,
    action: AuditAction,
    outcome: AuditOutcome,
) -> (r: Result<AuditEvent, AttemptError>)
    ensures
        if owner@.len() == 16 {
            r is Ok && (r->Ok_0)@.actor_id is Some && (r->Ok_0)@.actor_id->0@ == owner@
                && (r->Ok_0)@ == (AuditEventModel {
                actor_kind: AuditActorKind::Agent,
                actor_id: (r->Ok_0)@.actor_id,
                action,
                outcome,
                item_id: Some(snapshot@.credential_id),
                revision_id: Some(snapshot@.revision_id),
                attempt_id: Some(snapshot@.attempt_id),
            })
        } else {
            r is Err && r->Err_0 is Integrity
        },
{
    match fixed16(owner) {
        Some(actor) => Ok(
            AuditEvent::new(AuditActorKind::Agent, Some(actor), action, outcome).with_item(
                snapshot.credential_id,
                Some(snapshot.revision_id),
            ).with_attempt(snapshot.attempt_id),
        ),
        None => Err(AttemptError::Integrity),
    }
}

/// An attempt starts exactly where its integration supports the credential and
/// the way to authenticate, the credential is for this destination, and neither
/// the agent nor the custodian has too many unfinished attempts. It then belongs
/// to the credential that was asked for, in the revision that is delegated, and
/// lives for a day.
pub proof fn lemma_start(
    request: StartModel,
    credential: CredentialModel,
    of_agent: i64,
    of_custodian: i64,
    attempt_id: [u8; 16],
    now: i64,
)
    requires
        0 <= now <= i64::MAX - 86_400_000_000,
    ensures
        ({
            let r = started(request, credential, (of_agent, of_custodian), attempt_id, now);
            let here = credential.destination == Some(request.destination)
                && request.integration_version == 1;
            let bound = request.context == encode_utf8(request.destination);
            let fits = {
                ||| request.integration_id == "controlled.external"@ && request.method
                    == "password"@ && credential.kind == RecordKind::Password
                ||| request.integration_id == "keycloak-browser-oidc"@ && (request.method
                    == "password"@ || request.method == "password_totp"@) && credential.kind
                    == RecordKind::Password && bound
                ||| request.integration_id == "keycloak-token-exchange"@ && request.method
                    == "token_exchange"@ && credential.kind == RecordKind::Token && bound
            };
            &&& r is Ok <==> here && fits && of_agent < 16 && of_custodian < 128
            &&& !(here && fits) ==> r == Err::<SnapshotModel, _>(
                AttemptError::CredentialUnavailable,
            )
            &&& here && fits && !(of_agent < 16 && of_custodian < 128) ==> r == Err::<
                SnapshotModel,
                _,
            >(AttemptError::RateLimited)
            &&& r is Ok ==> r->Ok_0 == (SnapshotModel {
                attempt_id,
                credential_id: request.credential_id,
                revision_id: credential.revision_id,
                integration_id: request.integration_id,
                integration_version: request.integration_version,
                state: AttemptState::Created,
                created_at_us: now,
                expires_at_us: (now + 86_400_000_000) as i64,
                reason: None,
                result: None,
            })
        }),
{
    reveal_strlit("controlled.external");
    reveal_strlit("keycloak-browser-oidc");
    reveal_strlit("keycloak-token-exchange");
    assert("controlled.external"@.len() == 19);
    assert("keycloak-browser-oidc"@.len() == 21);
    assert("keycloak-token-exchange"@.len() == 23);
}

/// An attempt that is not over by its time is expired, whatever it holds stays;
/// one whose end is unknown is not. It is never seen to live longer than either
/// of its two limits allows, and its result is gone a day after it ended.
pub proof fn lemma_observed(
    m: SnapshotModel,
    stored_expires: i64,
    terminal_at_us: Option<i64>,
    now: i64,
)
    ensures
        ({
            let b = bounded(m, stored_expires);
            let e = expired_snapshot(b);
            &&& b.expires_at_us <= stored_expires && b.expires_at_us <= m.expires_at_us
            &&& b.expires_at_us == stored_expires || b.expires_at_us == m.expires_at_us
            &&& b == (SnapshotModel { expires_at_us: b.expires_at_us, ..m })
            &&& overdue(b, now) <==> (m.state is Created || m.state is Running || m.state
                is WaitingForHuman) && (now >= m.expires_at_us || now >= stored_expires)
            &&& e.state is Expired && e.reason == Some("ATTEMPT_EXPIRED"@)
            &&& e == (SnapshotModel { state: e.state, reason: e.reason, ..b })
            &&& result_due(terminal_at_us, now) <==> terminal_at_us is Some && terminal_at_us->0
                <= now - 86_400_000_000
        }),
{
}

/// An attempt that is created, running or waiting is cancelled, and only its
/// state and its reason change; any other stays as it is.
pub proof fn lemma_cancelled(m: SnapshotModel)
    ensures
        m.state is Created || m.state is Running || m.state is WaitingForHuman ==> cancelled(m) == (
        SnapshotModel { state: AttemptState::Cancelled, reason: Some("ATTEMPT_CANCELLED"@), ..m })
            && cancellable(m.state),
        !(m.state is Created || m.state is Running || m.state is WaitingForHuman) ==> cancelled(m)
            == m && !cancellable(m.state),
{
}

/// A created attempt may be claimed until it expires; a waiting or unknown one
/// may be looked at again a tenth of a second after it was claimed. The one that
/// waits longest comes first: by when it was created, or by when it was claimed.
pub proof fn lemma_claims(row: ClaimRow, now: i64)
    ensures
        row_claimable(row, false, now) <==> row.state is Created && now < row.expires_at_us,
        row_claimable(row, true, now) <==> (row.state is WaitingForHuman || row.state
            is Indeterminate) && row.claimed_at_us is Some && row.claimed_at_us->0 + 100_000 <= now
            && now < row.expires_at_us,
        waits_since(row, false) == row.created_at_us,
        row.claimed_at_us is Some ==> Some(waits_since(row, true)) == row.claimed_at_us,
{
}

/// What an integration reports is what the attempt comes to: its result, its
/// challenge or its reason, and nothing else of the attempt changes.
pub proof fn lemma_settled(m: SnapshotModel, outcome: AttemptOutcome)
    ensures
        ({
            let r = settled(m, outcome);
            let s = (r->Ok_0).0;
            &&& r is Ok ==> s == (SnapshotModel {
                state: s.state,
                reason: s.reason,
                result: s.result,
                ..m
            })
            &&& outcome matches AttemptOutcome::Succeeded { result } ==> (r is Ok <==> result@.len()
                <= 65536) && (r is Ok ==> s.state is Succeeded && s.result == Some(result@)
                && s.reason == m.reason && (r->Ok_0).1 is Succeeded)
            &&& outcome matches AttemptOutcome::WaitingForHuman { challenge } ==> (r is Ok
                <==> challenge@.len() <= 65536 && valid_utf8(challenge@)) && (r is Ok
                ==> s.state is WaitingForHuman && s.reason == Some(decode_utf8(challenge@))
                && s.result == m.result && (r->Ok_0).1 is Accepted)
            &&& outcome matches AttemptOutcome::Failed { reason } ==> r is Ok && s.state is Failed
                && s.reason == Some(reason@) && s.result == m.result && (r->Ok_0).1 is Failed
            &&& outcome is Indeterminate ==> r is Ok && s.state is Indeterminate && s.reason
                == Some("INDETERMINATE"@) && s.result == m.result && (r->Ok_0).1 is Indeterminate
        }),
{
}

/// The stored state of an attempt is its own; it ends when the attempt does.
pub proof fn lemma_stored_state(m: SnapshotModel, now: i64, token: [u8; 16], other: [u8; 16])
    ensures
        free_state(m, now).lease_token is None,
        free_state(m, now).terminal_at_us is Some <==> m.state is Succeeded || m.state is Failed
            || m.state is Cancelled || m.state is Expired,
        free_state(m, now).terminal_at_us is Some ==> free_state(m, now).terminal_at_us == Some(
            now,
        ),
        state_of(free_state(m, now).state) == Some(m.state),
        leased(claimed_state(token), other) <==> token == other,
        state_of(claimed_state(token).state) == Some(AttemptState::Running),
{
    lemma_state_names(m.state);
    lemma_state_names(AttemptState::Running);
    if token@ == other@ {
        crate::cbor::lemma_array16(token, other);
    }
}

/// A lease is that of one revision, one agent generation and one token.
pub proof fn lemma_lease(
    row: LeaseRow,
    revision: [u8; 16],
    owner: IdentityModel,
    token: [u8; 16],
    other: [u8; 16],
)
    requires
        lease_holds(row, revision, owner, token),
        other != token,
    ensures
        !lease_holds(row, revision, owner, other),
        !lease_holds(
            row,
            revision,
            IdentityModel { generation: (owner.generation + 1) as u64, ..owner },
            token,
        ),
        !lease_holds(row, other, owner, token) || other == revision,
        !lease_holds(row, revision, IdentityModel { subject: other, ..owner }, token) || other
            == owner.subject,
{
    if other@ == token@ {
        crate::cbor::lemma_array16(other, token);
    }
    if other@ == revision@ {
        crate::cbor::lemma_array16(other, revision);
    }
    if other@ == owner.subject@ {
        crate::cbor::lemma_array16(other, owner.subject);
    }
}

/// The clock never goes back: it is the latest time that was seen.
pub proof fn lemma_clock(max: i64, now: i64)
    ensures
        later(None, now) == now,
        later(Some(max), now) >= now,
        later(Some(max), now) >= max,
        later(Some(max), now) == now || later(Some(max), now) == max,
{
}

/// A new key is taken from ten minutes before to two minutes after now; one that
/// was used within a week answers with its own attempt.
pub proof fn lemma_keys(issued_at_us: i64, params: [u8; 32], now: i64, e: ExistingAttempt)
    ensures
        repeated(None, params, issued_at_us, now) == (if now - 600_000_000 <= issued_at_us
            && issued_at_us
            <= now + 120_000_000 {
            Ok::<Option<Seq<u8>>, _>(None)
        } else {
            Err(AttemptError::InvalidArgument)
        }),
        now > e.created_at_us + 604_800_000_000 ==> repeated(Some(e), params, issued_at_us, now)
            == Err::<Option<Seq<u8>>, _>(AttemptError::IdempotencyExpired),
{
}

/// The owner of an attempt gets its own package, as long as it is kept.
pub proof fn lemma_own_attempt(row: OwnerRow, owner: IdentityModel)
    requires
        row.subject@ == owner.subject@,
        row.generation == owner.generation,
    ensures
        row.package matches Some(package) ==> owned_state(Some(row), owner) == Ok::<_,
            AttemptError>(
            package@,
        ),
        row.package is None ==> owned_state(Some(row), owner) == Err::<Seq<u8>, _>(
            AttemptError::ResultExpired,
        ),
{
}

/// What a request may hold: a credential, an integration of a version, a way to
/// authenticate, a destination and a context, all within their limits.
pub proof fn lemma_valid_start(m: StartModel)
    ensures
        valid_start(m) <==> {
            &&& exists|i: int| 0 <= i < 16 && m.credential_id@[i] != 0
            &&& 0 < encode_utf8(m.integration_id).len() < 129
            &&& m.integration_version > 0
            &&& 0 < encode_utf8(m.method).len() < 65
            &&& 0 < encode_utf8(m.destination).len() < 8193
            &&& m.context.len() < 65537
        },
{
    if forall|i: int| 0 <= i < 16 ==> m.credential_id@[i] == 0 {
        assert(m.credential_id@ =~= Seq::new(16, |i: int| 0u8));
    }
}

/// Which attempts are supported: with the first version of an integration, to
/// the destination of the credential; a controlled one with a password; one in a
/// browser with a password, with or without a one-time password; an exchange
/// with a token; and the last two only in the context of that destination.
pub proof fn lemma_supported(r: StartModel, c: CredentialModel)
    ensures
        r.integration_version != 1 || c.destination != Some(r.destination) ==> !supported(r, c),
        r.integration_version == 1 && c.destination == Some(r.destination) ==> {
            let bound = r.context == encode_utf8(r.destination);
            &&& r.integration_id == "controlled.external"@ ==> (supported(r, c) <==> r.method
                == "password"@ && c.kind == RecordKind::Password)
            &&& r.integration_id == "keycloak-browser-oidc"@ ==> (supported(r, c) <==> bound && (
            r.method == "password"@ || r.method == "password_totp"@) && c.kind
                == RecordKind::Password)
            &&& r.integration_id == "keycloak-token-exchange"@ ==> (supported(r, c) <==> bound
                && r.method == "token_exchange"@ && c.kind == RecordKind::Token)
            &&& r.integration_id != "controlled.external"@ && r.integration_id
                != "keycloak-browser-oidc"@ && r.integration_id != "keycloak-token-exchange"@
                ==> !supported(r, c)
        },
{
    reveal_strlit("controlled.external");
    reveal_strlit("keycloak-browser-oidc");
    reveal_strlit("keycloak-token-exchange");
    assert("controlled.external"@.len() == 19);
    assert("keycloak-browser-oidc"@.len() == 21);
    assert("keycloak-token-exchange"@.len() == 23);
}

} // verus!

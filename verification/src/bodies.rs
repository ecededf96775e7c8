//! The bodies of authority events.
use crate::authorization::{reason_name, AgentEnrollment, AuthorizationReason};
use crate::bytes::{lex_less, same, same_str};
use crate::cbor::{
    array_head, bytes_item, items_after, lemma_items, map_head, null_item, text_item, Reader,
    Writer,
};
use crate::errors::HumanCommitError;
use crate::lists::{
    digests_then, ids_then, lemma_digests_item, lemma_ids_item, put_digests, put_ids, take_digests,
    take_ids,
};
use crate::ordered::{increasing, is_increasing};
use vstd::prelude::*;

verus! {

/// Most digests or identifiers that one event lists.
pub const MAX_EVENT_LIST: usize = 4096;

/// Whether a list of digests may stand in an event: increasing and not too
/// long.
pub open spec fn digests_valid(v: Seq<[u8; 32]>) -> bool {
    v.len() <= MAX_EVENT_LIST && increasing(v)
}

/// Whether a list of digests may stand in an event.
fn digests_usable(v: &Vec<[u8; 32]>) -> (r: bool)
    ensures
        r == digests_valid(v@),
{
    v.len() <= MAX_EVENT_LIST && is_increasing(v)
}

/// What an agent grant binds: the identity behind a transport key.
pub struct AgentGrantBody {
    pub request_id: [u8; 16],
    pub transport_rpk: [u8; 44],
    pub label: String,
    pub environment_binding: String,
    pub predecessors: Vec<[u8; 32]>,
}

/// The contents of a [`AgentGrantBody`].
pub struct GrantBodyModel {
    pub request_id: [u8; 16],
    pub transport_rpk: [u8; 44],
    pub label: Seq<char>,
    pub environment_binding: Seq<char>,
    pub predecessors: Seq<[u8; 32]>,
}

impl View for AgentGrantBody {
    type V = GrantBodyModel;

    open spec fn view(&self) -> GrantBodyModel {
        GrantBodyModel {
            request_id: self.request_id,
            transport_rpk: self.transport_rpk,
            label: self.label@,
            environment_binding: self.environment_binding@,
            predecessors: self.predecessors@,
        }
    }
}

/// Whether the prior grants stand in order.
pub open spec fn grant_body_valid(m: GrantBodyModel) -> bool {
    increasing(m.predecessors)
}

/// Whether the prior grants stand in order.
fn grant_body_usable(x: &AgentGrantBody) -> (r: bool)
    ensures
        r == grant_body_valid(x@),
{
    is_increasing(&x.predecessors)
}

/// The body of an agent grant, followed by `t`.
pub open spec fn agent_grant_body_then(m: GrantBodyModel, t: Seq<u8>) -> Seq<u8> {
    map_head(5) + (text_item("request_id"@) + (bytes_item(m.request_id@)
        + (text_item("public_identity"@) + (map_head(2) + (text_item("transport_rpk"@)
        + (bytes_item(m.transport_rpk@) + (text_item("label"@) + (text_item(m.label)
        + (text_item("predecessor_grants"@) + (digests_then(m.predecessors, text_item("expires_at"@)
        + (null_item() + (text_item("environment_binding"@)
        + (text_item(m.environment_binding) + t))))))))))))))
}

/// Appends the body of an agent grant.
fn put_agent_grant_body(w: &mut Writer, x: &AgentGrantBody)
    ensures
        forall|t: Seq<u8>|
            #![trigger old(w)@ + agent_grant_body_then(x@, t)]
            final(w)@ + t == old(w)@ + agent_grant_body_then(x@, t),
{
    w.map(5);
    w.str("request_id");
    w.bytes(&x.request_id);
    w.str("public_identity");
    w.map(2);
    w.str("transport_rpk");
    w.bytes(&x.transport_rpk);
    w.str("label");
    w.str(x.label.as_str());
    w.str("predecessor_grants");
    put_digests(w, &x.predecessors);
    w.str("expires_at");
    w.null();
    w.str("environment_binding");
    w.str(x.environment_binding.as_str());
}

/// Reads the body of an agent grant.
fn take_agent_grant_body(d: &mut Reader) -> (r: Option<AgentGrantBody>)
    ensures
        forall|m: GrantBodyModel, t: Seq<u8>|
            #![trigger agent_grant_body_then(m, t)]
            old(d).rest() == agent_grant_body_then(m, t) ==> r is Some && (r->0)@ == m
                && final(d).rest() == t,
{
    d.map_of(5)?;
    d.key("request_id")?;
    let request_id = d.fixed16()?;
    d.key("public_identity")?;
    d.map_of(2)?;
    d.key("transport_rpk")?;
    let transport_rpk = d.fixed44()?;
    d.key("label")?;
    let label = d.str()?.to_owned();
    d.key("predecessor_grants")?;
    let predecessors = take_digests(d)?;
    d.key("expires_at")?;
    d.null()?;
    d.key("environment_binding")?;
    let environment_binding = d.str()?.to_owned();
    Some(AgentGrantBody { request_id, transport_rpk, label, environment_binding, predecessors })
}

/// The body of an agent grant.
pub open spec fn agent_grant_body_bytes(m: GrantBodyModel) -> Seq<u8> {
    agent_grant_body_then(m, Seq::empty())
}

/// Encodes the body of an agent grant.
pub fn encode_agent_grant_body(x: &AgentGrantBody) -> (r: Vec<u8>)
    ensures
        r@ == agent_grant_body_bytes(x@),
{
    let mut w = Writer::new();
    let ghost none = Seq::<u8>::empty();
    assert(none + agent_grant_body_then(x@, none) =~= agent_grant_body_bytes(x@));
    put_agent_grant_body(&mut w, x);
    assert(w@ + none =~= w@);
    w.finish()
}

/// What bytes decode to: the only body of an agent grant whose canonical encoding they are.
pub open spec fn agent_grant_body_of(b: Seq<u8>) -> Option<GrantBodyModel> {
    if exists|m: GrantBodyModel| grant_body_valid(m) && #[trigger] agent_grant_body_bytes(m) == b {
        Some(choose|m: GrantBodyModel| grant_body_valid(m)
            && #[trigger] agent_grant_body_bytes(m) == b)
    } else {
        None
    }
}

/// Decodes the body of an agent grant; only the canonical encoding is accepted.
pub fn decode_agent_grant_body(input: &[u8]) -> (r: Result<AgentGrantBody, HumanCommitError>)
    ensures
        forall|m: GrantBodyModel|
            grant_body_valid(m) && input@ == #[trigger] agent_grant_body_bytes(m) ==> r is Ok
                && (r->Ok_0)@ == m,
        r is Ok ==> grant_body_valid((r->Ok_0)@) && agent_grant_body_bytes((r->Ok_0)@) == input@,
        match agent_grant_body_of(input@) {
            Some(m) => r is Ok && (r->Ok_0)@ == m,
            None => r is Err && r->Err_0 is InvalidCommand,
        },
{
    let mut d = Reader::new(input);
    let r = match take_agent_grant_body(&mut d) {
        Some(x) => if d.at_end() && grant_body_usable(&x)
            && same(encode_agent_grant_body(&x).as_slice(), input) {
            Ok(x)
        } else {
            Err(HumanCommitError::InvalidCommand)
        },
        None => Err(HumanCommitError::InvalidCommand),
    };
    proof {
        if r is Ok {
            assert(agent_grant_body_bytes((r->Ok_0)@) == input@);
        }
    }
    r
}

/// The body of a lifecycle event, followed by `t`.
pub open spec fn lifecycle_body_then(m: Seq<[u8; 32]>, t: Seq<u8>) -> Seq<u8> {
    map_head(1) + (text_item("deletions_seen"@) + (digests_then(m, t)))
}

/// Appends the body of a lifecycle event.
fn put_lifecycle_body(w: &mut Writer, x: &Vec<[u8; 32]>)
    ensures
        forall|t: Seq<u8>|
            #![trigger old(w)@ + lifecycle_body_then(x@, t)]
            final(w)@ + t == old(w)@ + lifecycle_body_then(x@, t),
{
    w.map(1);
    w.str("deletions_seen");
    put_digests(w, x);
}

/// Reads the body of a lifecycle event.
fn take_lifecycle_body(d: &mut Reader) -> (r: Option<Vec<[u8; 32]>>)
    ensures
        forall|m: Seq<[u8; 32]>, t: Seq<u8>|
            #![trigger lifecycle_body_then(m, t)]
            old(d).rest() == lifecycle_body_then(m, t) ==> r is Some && (r->0)@ == m
                && final(d).rest() == t,
{
    d.map_of(1)?;
    d.key("deletions_seen")?;
    let x = take_digests(d)?;
    Some(x)
}

/// The body of a lifecycle event.
pub open spec fn lifecycle_body_bytes(m: Seq<[u8; 32]>) -> Seq<u8> {
    lifecycle_body_then(m, Seq::empty())
}

/// Encodes the body of a lifecycle event.
pub fn encode_lifecycle_body(x: &Vec<[u8; 32]>) -> (r: Vec<u8>)
    ensures
        r@ == lifecycle_body_bytes(x@),
{
    let mut w = Writer::new();
    let ghost none = Seq::<u8>::empty();
    assert(none + lifecycle_body_then(x@, none) =~= lifecycle_body_bytes(x@));
    put_lifecycle_body(&mut w, x);
    assert(w@ + none =~= w@);
    w.finish()
}

/// What bytes decode to: the only body of a lifecycle event whose canonical encoding they are.
pub open spec fn lifecycle_body_of(b: Seq<u8>) -> Option<Seq<[u8; 32]>> {
    if exists|m: Seq<[u8; 32]>| digests_valid(m) && #[trigger] lifecycle_body_bytes(m) == b {
        Some(choose|m: Seq<[u8; 32]>| digests_valid(m) && #[trigger] lifecycle_body_bytes(m) == b)
    } else {
        None
    }
}

/// Decodes the body of a lifecycle event; only the canonical encoding is accepted.
pub fn decode_lifecycle_body(input: &[u8]) -> (r: Result<Vec<[u8; 32]>, HumanCommitError>)
    ensures
        forall|m: Seq<[u8; 32]>|
            digests_valid(m) && input@ == #[trigger] lifecycle_body_bytes(m) ==> r is Ok
                && (r->Ok_0)@ == m,
        r is Ok ==> digests_valid((r->Ok_0)@) && lifecycle_body_bytes((r->Ok_0)@) == input@,
        match lifecycle_body_of(input@) {
            Some(m) => r is Ok && (r->Ok_0)@ == m,
            None => r is Err && r->Err_0 is InvalidCommand,
        },
{
    let mut d = Reader::new(input);
    let r = match take_lifecycle_body(&mut d) {
        Some(x) => if d.at_end() && digests_usable(&x)
            && same(encode_lifecycle_body(&x).as_slice(), input) {
            Ok(x)
        } else {
            Err(HumanCommitError::InvalidCommand)
        },
        None => Err(HumanCommitError::InvalidCommand),
    };
    proof {
        if r is Ok {
            assert(lifecycle_body_bytes((r->Ok_0)@) == input@);
        }
    }
    r
}

/// What a purge removes: revisions of an item, or the item as a whole.
pub struct ItemPurgeBody {
    pub item: [u8; 16],
    pub revisions: Vec<[u8; 16]>,
    pub terminal: bool,
}

/// The contents of a [`ItemPurgeBody`].
pub struct PurgeBodyModel {
    pub item: [u8; 16],
    pub revisions: Seq<[u8; 16]>,
    pub terminal: bool,
}

impl View for ItemPurgeBody {
    type V = PurgeBodyModel;

    open spec fn view(&self) -> PurgeBodyModel {
        PurgeBodyModel {
            item: self.item,
            revisions: self.revisions@,
            terminal: self.terminal,
        }
    }
}

/// How the scope of a purge is written.
pub open spec fn purge_scope_name(terminal: bool) -> Seq<char> {
    if terminal {
        "item"@
    } else {
        "revisions"@
    }
}

/// Whether a purge names revisions, in order and not too many.
pub open spec fn purge_body_valid(m: PurgeBodyModel) -> bool {
    0 < m.revisions.len() <= MAX_EVENT_LIST && increasing(m.revisions)
}

/// Whether a purge names revisions, in order and not too many.
fn purge_body_usable(x: &ItemPurgeBody) -> (r: bool)
    ensures
        r == purge_body_valid(x@),
{
    x.revisions.len() > 0 && x.revisions.len() <= MAX_EVENT_LIST && is_increasing(&x.revisions)
}

/// The body of a purge, followed by `t`.
pub open spec fn item_purge_body_then(m: PurgeBodyModel, t: Seq<u8>) -> Seq<u8> {
    map_head(3) + (text_item("item_id"@) + (bytes_item(m.item@) + (text_item("revision_ids"@)
        + (ids_then(m.revisions, text_item("scope"@)
        + (text_item(purge_scope_name(m.terminal)) + t))))))
}

/// Appends the body of a purge.
fn put_item_purge_body(w: &mut Writer, x: &ItemPurgeBody)
    ensures
        forall|t: Seq<u8>|
            #![trigger old(w)@ + item_purge_body_then(x@, t)]
            final(w)@ + t == old(w)@ + item_purge_body_then(x@, t),
{
    w.map(3);
    w.str("item_id");
    w.bytes(&x.item);
    w.str("revision_ids");
    put_ids(w, &x.revisions);
    w.str("scope");
    w.str(
            if x.terminal {
                "item"
            } else {
                "revisions"
            },
        );
}

/// Reads the body of a purge.
fn take_item_purge_body(d: &mut Reader) -> (r: Option<ItemPurgeBody>)
    ensures
        forall|m: PurgeBodyModel, t: Seq<u8>|
            #![trigger item_purge_body_then(m, t)]
            old(d).rest() == item_purge_body_then(m, t) ==> r is Some && (r->0)@ == m
                && final(d).rest() == t,
{
    proof {
        reveal_strlit("item");
        reveal_strlit("revisions");
        assert("item"@.len() == 4);
        assert("revisions"@.len() == 9);
    }
    d.map_of(3)?;
    d.key("item_id")?;
    let item = d.fixed16()?;
    d.key("revision_ids")?;
    let revisions = take_ids(d)?;
    d.key("scope")?;
    let scope = d.str()?;
    let terminal = if same_str(scope, "item") {
        true
    } else if same_str(scope, "revisions") {
        false
    } else {
        return None;
    };
    Some(ItemPurgeBody { item, revisions, terminal })
}

/// The body of a purge.
pub open spec fn item_purge_body_bytes(m: PurgeBodyModel) -> Seq<u8> {
    item_purge_body_then(m, Seq::empty())
}

/// Encodes the body of a purge.
pub fn encode_item_purge_body(x: &ItemPurgeBody) -> (r: Vec<u8>)
    ensures
        r@ == item_purge_body_bytes(x@),
{
    let mut w = Writer::new();
    let ghost none = Seq::<u8>::empty();
    assert(none + item_purge_body_then(x@, none) =~= item_purge_body_bytes(x@));
    put_item_purge_body(&mut w, x);
    assert(w@ + none =~= w@);
    w.finish()
}

/// What bytes decode to: the only body of a purge whose canonical encoding they are.
pub open spec fn item_purge_body_of(b: Seq<u8>) -> Option<PurgeBodyModel> {
    if exists|m: PurgeBodyModel| purge_body_valid(m) && #[trigger] item_purge_body_bytes(m) == b {
        Some(choose|m: PurgeBodyModel| purge_body_valid(m)
            && #[trigger] item_purge_body_bytes(m) == b)
    } else {
        None
    }
}

/// Decodes the body of a purge; only the canonical encoding is accepted.
pub fn decode_item_purge_body(input: &[u8]) -> (r: Result<ItemPurgeBody, HumanCommitError>)
    ensures
        forall|m: PurgeBodyModel|
            purge_body_valid(m) && input@ == #[trigger] item_purge_body_bytes(m) ==> r is Ok
                && (r->Ok_0)@ == m,
        r is Ok ==> purge_body_valid((r->Ok_0)@) && item_purge_body_bytes((r->Ok_0)@) == input@,
        match item_purge_body_of(input@) {
            Some(m) => r is Ok && (r->Ok_0)@ == m,
            None => r is Err && r->Err_0 is InvalidCommand,
        },
{
    let mut d = Reader::new(input);
    let r = match take_item_purge_body(&mut d) {
        Some(x) => if d.at_end() && purge_body_usable(&x)
            && same(encode_item_purge_body(&x).as_slice(), input) {
            Ok(x)
        } else {
            Err(HumanCommitError::InvalidCommand)
        },
        None => Err(HumanCommitError::InvalidCommand),
    };
    proof {
        if r is Ok {
            assert(item_purge_body_bytes((r->Ok_0)@) == input@);
        }
    }
    r
}

/// The body of a withdrawal, followed by `t`.
pub open spec fn reason_body_then(m: AuthorizationReason, t: Seq<u8>) -> Seq<u8> {
    map_head(1) + (text_item("reason_code"@) + (text_item(reason_name(m)) + t))
}

/// Appends the body of a withdrawal.
fn put_reason_body(w: &mut Writer, x: &AuthorizationReason)
    ensures
        forall|t: Seq<u8>|
            #![trigger old(w)@ + reason_body_then(*x, t)]
            final(w)@ + t == old(w)@ + reason_body_then(*x, t),
{
    w.map(1);
    w.str("reason_code");
    w.str(x.name());
}

/// Reads the body of a withdrawal.
fn take_reason_body(d: &mut Reader) -> (r: Option<AuthorizationReason>)
    ensures
        forall|m: AuthorizationReason, t: Seq<u8>|
            #![trigger reason_body_then(m, t)]
            old(d).rest() == reason_body_then(m, t) ==> r is Some && r->0 == m
                && final(d).rest() == t,
{
    d.map_of(1)?;
    d.key("reason_code")?;
    let x = AuthorizationReason::parse(d.str()?)?;
    Some(x)
}

/// The body of a withdrawal.
pub open spec fn reason_body_bytes(m: AuthorizationReason) -> Seq<u8> {
    reason_body_then(m, Seq::empty())
}

/// Encodes the body of a withdrawal.
pub fn encode_reason_body(x: &AuthorizationReason) -> (r: Vec<u8>)
    ensures
        r@ == reason_body_bytes(*x),
{
    let mut w = Writer::new();
    let ghost none = Seq::<u8>::empty();
    assert(none + reason_body_then(*x, none) =~= reason_body_bytes(*x));
    put_reason_body(&mut w, x);
    assert(w@ + none =~= w@);
    w.finish()
}

/// What bytes decode to: the only body of a withdrawal whose canonical encoding they are.
pub open spec fn reason_body_of(b: Seq<u8>) -> Option<AuthorizationReason> {
    if exists|m: AuthorizationReason| #[trigger] reason_body_bytes(m) == b {
        Some(choose|m: AuthorizationReason| #[trigger] reason_body_bytes(m) == b)
    } else {
        None
    }
}

/// Decodes the body of a withdrawal; only the canonical encoding is accepted.
pub fn decode_reason_body(input: &[u8]) -> (r: Result<AuthorizationReason, HumanCommitError>)
    ensures
        forall|m: AuthorizationReason|
            input@ == #[trigger] reason_body_bytes(m) ==> r is Ok && r->Ok_0 == m,
        r is Ok ==> reason_body_bytes(r->Ok_0) == input@,
        match reason_body_of(input@) {
            Some(m) => r is Ok && r->Ok_0 == m,
            None => r is Err && r->Err_0 is InvalidCommand,
        },
{
    let mut d = Reader::new(input);
    let r = match take_reason_body(&mut d) {
        Some(x) => if d.at_end() && same(encode_reason_body(&x).as_slice(), input) {
            Ok(x)
        } else {
            Err(HumanCommitError::InvalidCommand)
        },
        None => Err(HumanCommitError::InvalidCommand),
    };
    proof {
        if r is Ok {
            assert(reason_body_bytes(r->Ok_0) == input@);
        }
    }
    r
}

/// The body of a resumption, followed by `t`.
pub open spec fn resume_body_then(m: Seq<[u8; 32]>, t: Seq<u8>) -> Seq<u8> {
    map_head(2) + (text_item("prior_positive_events"@) + (array_head(0)
        + (text_item("withdrawals_seen"@) + (digests_then(m, t)))))
}

/// Appends the body of a resumption.
fn put_resume_body(w: &mut Writer, x: &Vec<[u8; 32]>)
    ensures
        forall|t: Seq<u8>|
            #![trigger old(w)@ + resume_body_then(x@, t)]
            final(w)@ + t == old(w)@ + resume_body_then(x@, t),
{
    w.map(2);
    w.str("prior_positive_events");
    w.array(0);
    w.str("withdrawals_seen");
    put_digests(w, x);
}

/// Reads the body of a resumption.
fn take_resume_body(d: &mut Reader) -> (r: Option<Vec<[u8; 32]>>)
    ensures
        forall|m: Seq<[u8; 32]>, t: Seq<u8>|
            #![trigger resume_body_then(m, t)]
            old(d).rest() == resume_body_then(m, t) ==> r is Some && (r->0)@ == m
                && final(d).rest() == t,
{
    d.map_of(2)?;
    d.key("prior_positive_events")?;
    d.array_of(0)?;
    d.key("withdrawals_seen")?;
    let x = take_digests(d)?;
    Some(x)
}

/// The body of a resumption.
pub open spec fn resume_body_bytes(m: Seq<[u8; 32]>) -> Seq<u8> {
    resume_body_then(m, Seq::empty())
}

/// Encodes the body of a resumption.
pub fn encode_resume_body(x: &Vec<[u8; 32]>) -> (r: Vec<u8>)
    ensures
        r@ == resume_body_bytes(x@),
{
    let mut w = Writer::new();
    let ghost none = Seq::<u8>::empty();
    assert(none + resume_body_then(x@, none) =~= resume_body_bytes(x@));
    put_resume_body(&mut w, x);
    assert(w@ + none =~= w@);
    w.finish()
}

/// What bytes decode to: the only body of a resumption whose canonical encoding they are.
pub open spec fn resume_body_of(b: Seq<u8>) -> Option<Seq<[u8; 32]>> {
    if exists|m: Seq<[u8; 32]>| increasing(m) && #[trigger] resume_body_bytes(m) == b {
        Some(choose|m: Seq<[u8; 32]>| increasing(m) && #[trigger] resume_body_bytes(m) == b)
    } else {
        None
    }
}

/// Decodes the body of a resumption; only the canonical encoding is accepted.
pub fn decode_resume_body(input: &[u8]) -> (r: Result<Vec<[u8; 32]>, HumanCommitError>)
    ensures
        forall|m: Seq<[u8; 32]>|
            increasing(m) && input@ == #[trigger] resume_body_bytes(m) ==> r is Ok
                && (r->Ok_0)@ == m,
        r is Ok ==> increasing((r->Ok_0)@) && resume_body_bytes((r->Ok_0)@) == input@,
        match resume_body_of(input@) {
            Some(m) => r is Ok && (r->Ok_0)@ == m,
            None => r is Err && r->Err_0 is InvalidCommand,
        },
{
    let mut d = Reader::new(input);
    let r = match take_resume_body(&mut d) {
        Some(x) => if d.at_end() && is_increasing(&x)
            && same(encode_resume_body(&x).as_slice(), input) {
            Ok(x)
        } else {
            Err(HumanCommitError::InvalidCommand)
        },
        None => Err(HumanCommitError::InvalidCommand),
    };
    proof {
        if r is Ok {
            assert(resume_body_bytes((r->Ok_0)@) == input@);
        }
    }
    r
}

/// What makes a credential available: a revision and the commitment of its grant.
pub struct EnableBody {
    pub revision: [u8; 16],
    pub commitment: [u8; 32],
    pub positives: Vec<[u8; 32]>,
    pub withdrawals: Vec<[u8; 32]>,
}

/// The contents of a [`EnableBody`].
pub struct EnableBodyModel {
    pub revision: [u8; 16],
    pub commitment: [u8; 32],
    pub positives: Seq<[u8; 32]>,
    pub withdrawals: Seq<[u8; 32]>,
}

impl View for EnableBody {
    type V = EnableBodyModel;

    open spec fn view(&self) -> EnableBodyModel {
        EnableBodyModel {
            revision: self.revision,
            commitment: self.commitment,
            positives: self.positives@,
            withdrawals: self.withdrawals@,
        }
    }
}

/// Whether both lists may stand in an event.
pub open spec fn enable_body_valid(m: EnableBodyModel) -> bool {
    digests_valid(m.positives) && digests_valid(m.withdrawals)
}

/// Whether both lists may stand in an event.
fn enable_body_usable(x: &EnableBody) -> (r: bool)
    ensures
        r == enable_body_valid(x@),
{
    digests_usable(&x.positives) && digests_usable(&x.withdrawals)
}

/// The body of an availability event, followed by `t`.
pub open spec fn enable_body_then(m: EnableBodyModel, t: Seq<u8>) -> Seq<u8> {
    map_head(4) + (text_item("revision_id"@) + (bytes_item(m.revision@)
        + (text_item("grant_commitments"@) + (array_head(1) + (bytes_item(m.commitment@)
        + (text_item("prior_positive_events"@)
        + (digests_then(m.positives, text_item("withdrawals_seen"@)
        + (digests_then(m.withdrawals, t))))))))))
}

/// Appends the body of an availability event.
fn put_enable_body(w: &mut Writer, x: &EnableBody)
    ensures
        forall|t: Seq<u8>|
            #![trigger old(w)@ + enable_body_then(x@, t)]
            final(w)@ + t == old(w)@ + enable_body_then(x@, t),
{
    w.map(4);
    w.str("revision_id");
    w.bytes(&x.revision);
    w.str("grant_commitments");
    w.array(1);
    w.bytes(&x.commitment);
    w.str("prior_positive_events");
    put_digests(w, &x.positives);
    w.str("withdrawals_seen");
    put_digests(w, &x.withdrawals);
}

/// Reads the body of an availability event.
fn take_enable_body(d: &mut Reader) -> (r: Option<EnableBody>)
    ensures
        forall|m: EnableBodyModel, t: Seq<u8>|
            #![trigger enable_body_then(m, t)]
            old(d).rest() == enable_body_then(m, t) ==> r is Some && (r->0)@ == m
                && final(d).rest() == t,
{
    d.map_of(4)?;
    d.key("revision_id")?;
    let revision = d.fixed16()?;
    d.key("grant_commitments")?;
    d.array_of(1)?;
    let commitment = d.fixed32()?;
    d.key("prior_positive_events")?;
    let positives = take_digests(d)?;
    d.key("withdrawals_seen")?;
    let withdrawals = take_digests(d)?;
    Some(EnableBody { revision, commitment, positives, withdrawals })
}

/// The body of an availability event.
pub open spec fn enable_body_bytes(m: EnableBodyModel) -> Seq<u8> {
    enable_body_then(m, Seq::empty())
}

/// Encodes the body of an availability event.
pub fn encode_enable_body(x: &EnableBody) -> (r: Vec<u8>)
    ensures
        r@ == enable_body_bytes(x@),
{
    let mut w = Writer::new();
    let ghost none = Seq::<u8>::empty();
    assert(none + enable_body_then(x@, none) =~= enable_body_bytes(x@));
    put_enable_body(&mut w, x);
    assert(w@ + none =~= w@);
    w.finish()
}

/// What bytes decode to: the only body of an availability event whose canonical encoding they are.
pub open spec fn enable_body_of(b: Seq<u8>) -> Option<EnableBodyModel> {
    if exists|m: EnableBodyModel| enable_body_valid(m) && #[trigger] enable_body_bytes(m) == b {
        Some(choose|m: EnableBodyModel| enable_body_valid(m)
            && #[trigger] enable_body_bytes(m) == b)
    } else {
        None
    }
}

/// Decodes the body of an availability event; only the canonical encoding is accepted.
pub fn decode_enable_body(input: &[u8]) -> (r: Result<EnableBody, HumanCommitError>)
    ensures
        forall|m: EnableBodyModel|
            enable_body_valid(m) && input@ == #[trigger] enable_body_bytes(m) ==> r is Ok
                && (r->Ok_0)@ == m,
        r is Ok ==> enable_body_valid((r->Ok_0)@) && enable_body_bytes((r->Ok_0)@) == input@,
        match enable_body_of(input@) {
            Some(m) => r is Ok && (r->Ok_0)@ == m,
            None => r is Err && r->Err_0 is InvalidCommand,
        },
{
    let mut d = Reader::new(input);
    let r = match take_enable_body(&mut d) {
        Some(x) => if d.at_end() && enable_body_usable(&x)
            && same(encode_enable_body(&x).as_slice(), input) {
            Ok(x)
        } else {
            Err(HumanCommitError::InvalidCommand)
        },
        None => Err(HumanCommitError::InvalidCommand),
    };
    proof {
        if r is Ok {
            assert(enable_body_bytes((r->Ok_0)@) == input@);
        }
    }
    r
}

/// Whether a list of heads is not too long.
pub open spec fn heads_valid(v: Seq<[u8; 32]>) -> bool {
    v.len() <= MAX_EVENT_LIST
}

/// Whether a list of heads is not too long.
fn heads_usable(v: &Vec<[u8; 32]>) -> (r: bool)
    ensures
        r == heads_valid(v@),
{
    v.len() <= MAX_EVENT_LIST
}

/// A list of heads, followed by `t`.
pub open spec fn heads_then(m: Seq<[u8; 32]>, t: Seq<u8>) -> Seq<u8> {
    digests_then(m, t)
}

/// Appends a list of heads.
fn put_heads(w: &mut Writer, x: &Vec<[u8; 32]>)
    ensures
        forall|t: Seq<u8>|
            #![trigger old(w)@ + heads_then(x@, t)]
            final(w)@ + t == old(w)@ + heads_then(x@, t),
{
    put_digests(w, x);
}

/// Reads a list of heads.
fn take_heads(d: &mut Reader) -> (r: Option<Vec<[u8; 32]>>)
    ensures
        forall|m: Seq<[u8; 32]>, t: Seq<u8>|
            #![trigger heads_then(m, t)]
            old(d).rest() == heads_then(m, t) ==> r is Some && (r->0)@ == m && final(d).rest() == t,
{
    let x = take_digests(d)?;
    Some(x)
}

/// A list of heads.
pub open spec fn heads_bytes(m: Seq<[u8; 32]>) -> Seq<u8> {
    heads_then(m, Seq::empty())
}

/// Encodes a list of heads.
pub fn encode_heads(x: &Vec<[u8; 32]>) -> (r: Vec<u8>)
    ensures
        r@ == heads_bytes(x@),
{
    let mut w = Writer::new();
    let ghost none = Seq::<u8>::empty();
    assert(none + heads_then(x@, none) =~= heads_bytes(x@));
    put_heads(&mut w, x);
    assert(w@ + none =~= w@);
    w.finish()
}

/// What bytes decode to: the only list of heads whose canonical encoding they are.
pub open spec fn heads_of(b: Seq<u8>) -> Option<Seq<[u8; 32]>> {
    if exists|m: Seq<[u8; 32]>| heads_valid(m) && #[trigger] heads_bytes(m) == b {
        Some(choose|m: Seq<[u8; 32]>| heads_valid(m) && #[trigger] heads_bytes(m) == b)
    } else {
        None
    }
}

/// Decodes a list of heads; only the canonical encoding is accepted.
pub fn decode_heads(input: &[u8]) -> (r: Result<Vec<[u8; 32]>, HumanCommitError>)
    ensures
        forall|m: Seq<[u8; 32]>|
            heads_valid(m) && input@ == #[trigger] heads_bytes(m) ==> r is Ok && (r->Ok_0)@ == m,
        r is Ok ==> heads_valid((r->Ok_0)@) && heads_bytes((r->Ok_0)@) == input@,
        match heads_of(input@) {
            Some(m) => r is Ok && (r->Ok_0)@ == m,
            None => r is Err && r->Err_0 is InvalidCommand,
        },
{
    let mut d = Reader::new(input);
    let r = match take_heads(&mut d) {
        Some(x) => if d.at_end() && heads_usable(&x) && same(encode_heads(&x).as_slice(), input) {
            Ok(x)
        } else {
            Err(HumanCommitError::InvalidCommand)
        },
        None => Err(HumanCommitError::InvalidCommand),
    };
    proof {
        if r is Ok {
            assert(heads_bytes((r->Ok_0)@) == input@);
        }
    }
    r
}

/// The body of an agent grant is a single item.
pub proof fn lemma_agent_grant_body_item(m: GrantBodyModel)
    requires
        agent_grant_body_bytes(m).len() <= u64::MAX,
    ensures
        items_after(agent_grant_body_bytes(m), 1) == Some(Seq::<u8>::empty()),
{
    lemma_items();
    let none = Seq::<u8>::empty();
    let t = text_item("expires_at"@) + (null_item() + (text_item("environment_binding"@) + (
    text_item(m.environment_binding) + none)));
    assert(digests_then(m.predecessors, t).len() <= agent_grant_body_bytes(m).len());
    lemma_digests_item(m.predecessors, t, 5);
}

/// The body of a lifecycle event is a single item.
pub proof fn lemma_lifecycle_body_item(m: Seq<[u8; 32]>)
    requires
        lifecycle_body_bytes(m).len() <= u64::MAX,
    ensures
        items_after(lifecycle_body_bytes(m), 1) == Some(Seq::<u8>::empty()),
{
    lemma_items();
    let none = Seq::<u8>::empty();
    assert(digests_then(m, none).len() <= lifecycle_body_bytes(m).len());
    lemma_digests_item(m, none, 1);
}

/// The body of a purge is a single item.
pub proof fn lemma_item_purge_body_item(m: PurgeBodyModel)
    requires
        item_purge_body_bytes(m).len() <= u64::MAX,
    ensures
        items_after(item_purge_body_bytes(m), 1) == Some(Seq::<u8>::empty()),
{
    lemma_items();
    let none = Seq::<u8>::empty();
    let t = text_item("scope"@) + (text_item(purge_scope_name(m.terminal)) + none);
    assert(ids_then(m.revisions, t).len() <= item_purge_body_bytes(m).len());
    lemma_ids_item(m.revisions, t, 3);
}

/// The body of a withdrawal is a single item.
pub proof fn lemma_reason_body_item(m: AuthorizationReason)
    requires
        reason_body_bytes(m).len() <= u64::MAX,
    ensures
        items_after(reason_body_bytes(m), 1) == Some(Seq::<u8>::empty()),
{
    lemma_items();
}

/// The body of a resumption is a single item.
pub proof fn lemma_resume_body_item(m: Seq<[u8; 32]>)
    requires
        resume_body_bytes(m).len() <= u64::MAX,
    ensures
        items_after(resume_body_bytes(m), 1) == Some(Seq::<u8>::empty()),
{
    lemma_items();
    let none = Seq::<u8>::empty();
    assert(digests_then(m, none).len() <= resume_body_bytes(m).len());
    lemma_digests_item(m, none, 1);
}

/// The body of an availability event is a single item.
pub proof fn lemma_enable_body_item(m: EnableBodyModel)
    requires
        enable_body_bytes(m).len() <= u64::MAX,
    ensures
        items_after(enable_body_bytes(m), 1) == Some(Seq::<u8>::empty()),
{
    lemma_items();
    let none = Seq::<u8>::empty();
    let w = digests_then(m.withdrawals, none);
    let t = text_item("withdrawals_seen"@) + w;
    let p = digests_then(m.positives, t);
    assert(p.len() <= enable_body_bytes(m).len());
    lemma_digests_item(m.positives, t, 3);
    lemma_digests_item(m.withdrawals, none, 1);
}

impl AgentGrantBody {
    /// The grant of an enrolled agent, with its prior grants.
    pub fn new(enrollment: &AgentEnrollment, predecessors: Vec<[u8; 32]>) -> (r: AgentGrantBody)
        ensures
            r@ == (GrantBodyModel {
                request_id: enrollment@.request_id,
                transport_rpk: enrollment@.transport_rpk,
                label: enrollment@.label,
                environment_binding: enrollment@.environment_binding,
                predecessors: predecessors@,
            }),
    {
        AgentGrantBody {
            request_id: *enrollment.request_id(),
            transport_rpk: *enrollment.transport_rpk(),
            label: enrollment.label().to_owned(),
            environment_binding: enrollment.environment_binding().to_owned(),
            predecessors,
        }
    }
}

/// A body is taken only where its lists ascend, without an entry twice, and are
/// not too long; a purge names at least one revision.
pub proof fn lemma_body_lists(b: Seq<u8>, i: int, j: int)
    ensures
        lifecycle_body_of(b) matches Some(v) ==> v.len() <= 4096 && (0 <= i < j < v.len()
            ==> lex_less(v[i]@, v[j]@)),
        agent_grant_body_of(b) matches Some(m) ==> (0 <= i < j < m.predecessors.len() ==> lex_less(
            m.predecessors[i]@,
            m.predecessors[j]@,
        )),
        resume_body_of(b) matches Some(v) ==> (0 <= i < j < v.len() ==> lex_less(v[i]@, v[j]@)),
        item_purge_body_of(b) matches Some(m) ==> 0 < m.revisions.len() <= 4096 && (0 <= i < j
            < m.revisions.len() ==> lex_less(m.revisions[i]@, m.revisions[j]@)),
        enable_body_of(b) matches Some(m) ==> m.positives.len() <= 4096 && m.withdrawals.len()
            <= 4096 && (0 <= i < j < m.positives.len() ==> lex_less(
            m.positives[i]@,
            m.positives[j]@,
        )) && (0 <= i < j < m.withdrawals.len() ==> lex_less(
            m.withdrawals[i]@,
            m.withdrawals[j]@,
        )),
        heads_of(b) matches Some(v) ==> v.len() <= 4096,
{
}

/// Lists that ascend and are not too long are accepted.
pub proof fn lemma_lists_accepted(
    v: Seq<[u8; 32]>,
    g: GrantBodyModel,
    p: PurgeBodyModel,
    e: EnableBodyModel,
)
    ensures
        v.len() <= 4096 && (forall|i: int, j: int|
            0 <= i < j < v.len() ==> lex_less((#[trigger] v[i])@, (#[trigger] v[j])@))
            ==> digests_valid(v),
        v.len() <= 4096 ==> heads_valid(v),
        (forall|i: int, j: int|
            0 <= i < j < g.predecessors.len() ==> lex_less(
                (#[trigger] g.predecessors[i])@,
                (#[trigger] g.predecessors[j])@,
            )) ==> grant_body_valid(g),
        0 < p.revisions.len() <= 4096 && (forall|i: int, j: int|
            0 <= i < j < p.revisions.len() ==> lex_less(
                (#[trigger] p.revisions[i])@,
                (#[trigger] p.revisions[j])@,
            )) ==> purge_body_valid(p),
        digests_valid(e.positives) && digests_valid(e.withdrawals) ==> enable_body_valid(e),
        purge_scope_name(true) == "item"@,
        purge_scope_name(false) == "revisions"@,
{
}

} // verus!

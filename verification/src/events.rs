//! Authority events: their encoding, their headers and their causal parents.
use crate::bytes::{fixed32, same_str};
use crate::cbor::{
    bytes_item, int_item, map_head, optional_bytes_item, optional_uint_item, passed,
    lemma_bytes_within, lemma_items, lemma_map, lemma_null, lemma_text_within, lemma_uint,
    items_after, take_key, take_map_of, take_text, take_uint, text_item, uint_item, Reader, Writer,
};
use crate::errors::{AuthorizationError, HumanCommitError};
use crate::lists::{
    after, array_slice, digest_list_at, digests_then, fixed_at, ids_then, lemma_array_of,
    lemma_digest_list, lemma_ids_item, next_fixed, next_key, opt_array, optional_at, put_digests,
    put_ids, read_digests, take_optional_digest,
};
use crate::ordered::{increasing, insert, is_increasing, sorted_set};
use crate::views::views;
use vstd::prelude::*;

verus! {

/// Most parents of one event.
pub const MAX_PARENTS: usize = 4096;

/// One authority event.
pub struct G5EventInput {
    pub vault: [u8; 16],
    pub event_id: [u8; 16],
    pub authority_epoch: u64,
    pub issuer_device: [u8; 16],
    pub issuer_generation: u64,
    pub seq: u64,
    pub previous: Option<[u8; 32]>,
    pub parents: Vec<[u8; 32]>,
    pub kind: String,
    pub subject: [u8; 16],
    pub subject_generation: u64,
    pub body: Vec<u8>,
}

/// The contents of a [`G5EventInput`].
pub struct EventModel {
    pub vault: [u8; 16],
    pub event_id: [u8; 16],
    pub authority_epoch: u64,
    pub issuer_device: [u8; 16],
    pub issuer_generation: u64,
    pub seq: u64,
    pub previous: Option<[u8; 32]>,
    pub parents: Seq<[u8; 32]>,
    pub kind: Seq<char>,
    pub subject: [u8; 16],
    pub subject_generation: u64,
    pub body: Seq<u8>,
}

impl View for G5EventInput {
    type V = EventModel;

    open spec fn view(&self) -> EventModel {
        EventModel {
            vault: self.vault,
            event_id: self.event_id,
            authority_epoch: self.authority_epoch,
            issuer_device: self.issuer_device,
            issuer_generation: self.issuer_generation,
            seq: self.seq,
            previous: self.previous,
            parents: self.parents@,
            kind: self.kind@,
            subject: self.subject,
            subject_generation: self.subject_generation,
            body: self.body@,
        }
    }
}

/// An authority event, followed by `t`.
pub open spec fn g5_event_then(m: EventModel, t: Seq<u8>) -> Seq<u8> {
    map_head(13) + (text_item("v"@) + (uint_item(1) + (text_item("vault"@) + (bytes_item(m.vault@)
        + (text_item("event_id"@) + (bytes_item(m.event_id@) + (text_item("authority_epoch"@)
        + (uint_item(m.authority_epoch) + (text_item("issuer_device"@)
        + (bytes_item(m.issuer_device@) + (text_item("issuer_generation"@)
        + (uint_item(m.issuer_generation) + (text_item("seq"@) + (uint_item(m.seq)
        + (text_item("prev"@) + (optional_bytes_item(opt_array(m.previous)) + (text_item("parents"@)
        + (digests_then(m.parents, text_item("kind"@) + (text_item(m.kind) + (text_item("subject"@)
        + (bytes_item(m.subject@) + (text_item("subject_generation"@)
        + (uint_item(m.subject_generation) + (text_item("body"@)
        + (m.body + t))))))))))))))))))))))))))
}

/// An authority event.
pub open spec fn g5_event_bytes(m: EventModel) -> Seq<u8> {
    g5_event_then(m, Seq::empty())
}

/// Appends an authority event.
fn put_g5_event(w: &mut Writer, x: &G5EventInput)
    ensures
        forall|t: Seq<u8>|
            #![trigger old(w)@ + g5_event_then(x@, t)]
            final(w)@ + t == old(w)@ + g5_event_then(x@, t),
{
    w.map(13);
    w.str("v");
    w.u64(1);
    w.str("vault");
    w.bytes(&x.vault);
    w.str("event_id");
    w.bytes(&x.event_id);
    w.str("authority_epoch");
    w.u64(x.authority_epoch);
    w.str("issuer_device");
    w.bytes(&x.issuer_device);
    w.str("issuer_generation");
    w.u64(x.issuer_generation);
    w.str("seq");
    w.u64(x.seq);
    w.str("prev");
    w.optional_bytes(array_slice(&x.previous));
    w.str("parents");
    put_digests(w, &x.parents);
    w.str("kind");
    w.str(x.kind.as_str());
    w.str("subject");
    w.bytes(&x.subject);
    w.str("subject_generation");
    w.u64(x.subject_generation);
    w.str("body");
    w.raw(x.body.as_slice());
}

/// Encodes an authority event.
pub fn encode_g5_event(x: &G5EventInput) -> (r: Vec<u8>)
    ensures
        r@ == g5_event_bytes(x@),
{
    let mut w = Writer::new();
    let ghost none = Seq::<u8>::empty();
    assert(none + g5_event_then(x@, none) =~= g5_event_bytes(x@));
    put_g5_event(&mut w, x);
    assert(w@ + none =~= w@);
    w.finish()
}

/// An event with the signatures over it.
pub struct SignedEvent {
    pub event: Vec<u8>,
    pub device_signature: [u8; 64],
    pub human_signature: [u8; 64],
}

/// The contents of a [`SignedEvent`].
pub struct SignedEventModel {
    pub event: Seq<u8>,
    pub device_signature: [u8; 64],
    pub human_signature: [u8; 64],
}

impl View for SignedEvent {
    type V = SignedEventModel;

    open spec fn view(&self) -> SignedEventModel {
        SignedEventModel {
            event: self.event@,
            device_signature: self.device_signature,
            human_signature: self.human_signature,
        }
    }
}

/// A signed event, followed by `t`.
pub open spec fn signed_event_then(m: SignedEventModel, t: Seq<u8>) -> Seq<u8> {
    map_head(3) + (text_item("event"@) + (m.event + (text_item("device_signature"@)
        + (bytes_item(m.device_signature@) + (text_item("human_signature"@)
        + (bytes_item(m.human_signature@) + t))))))
}

/// A signed event.
pub open spec fn signed_event_bytes(m: SignedEventModel) -> Seq<u8> {
    signed_event_then(m, Seq::empty())
}

/// Appends a signed event.
fn put_signed_event(w: &mut Writer, x: &SignedEvent)
    ensures
        forall|t: Seq<u8>|
            #![trigger old(w)@ + signed_event_then(x@, t)]
            final(w)@ + t == old(w)@ + signed_event_then(x@, t),
{
    w.map(3);
    w.str("event");
    w.raw(x.event.as_slice());
    w.str("device_signature");
    w.bytes(&x.device_signature);
    w.str("human_signature");
    w.bytes(&x.human_signature);
}

/// Encodes a signed event.
pub fn encode_signed_event(x: &SignedEvent) -> (r: Vec<u8>)
    ensures
        r@ == signed_event_bytes(x@),
{
    let mut w = Writer::new();
    let ghost none = Seq::<u8>::empty();
    assert(none + signed_event_then(x@, none) =~= signed_event_bytes(x@));
    put_signed_event(&mut w, x);
    assert(w@ + none =~= w@);
    w.finish()
}

/// The body of an event without an authority body of its own.
#[derive(Clone, Copy, Debug)]
pub struct LegacyEventBody {
    pub revision: Option<[u8; 16]>,
    pub modified_at: i64,
    pub audit_generation: Option<u64>,
    pub audit_through_seq: Option<u64>,
    pub object_manifest_digest: Option<[u8; 32]>,
}

impl View for LegacyEventBody {
    type V = LegacyEventBody;

    open spec fn view(&self) -> LegacyEventBody {
        *self
    }
}

/// The body of an item or audit event, followed by `t`.
pub open spec fn legacy_event_body_then(m: LegacyEventBody, t: Seq<u8>) -> Seq<u8> {
    map_head(5) + (text_item("revision_id"@) + (optional_bytes_item(opt_array(m.revision))
        + (text_item("modified_at"@) + (int_item(m.modified_at) + (text_item("audit_generation"@)
        + (optional_uint_item(m.audit_generation) + (text_item("audit_through_seq"@)
        + (optional_uint_item(m.audit_through_seq) + (text_item("object_manifest_digest"@)
        + (optional_bytes_item(opt_array(m.object_manifest_digest)) + t))))))))))
}

/// The body of an item or audit event.
pub open spec fn legacy_event_body_bytes(m: LegacyEventBody) -> Seq<u8> {
    legacy_event_body_then(m, Seq::empty())
}

/// Appends the body of an item or audit event.
fn put_legacy_event_body(w: &mut Writer, x: &LegacyEventBody)
    ensures
        forall|t: Seq<u8>|
            #![trigger old(w)@ + legacy_event_body_then(x@, t)]
            final(w)@ + t == old(w)@ + legacy_event_body_then(x@, t),
{
    w.map(5);
    w.str("revision_id");
    w.optional_bytes(array_slice(&x.revision));
    w.str("modified_at");
    w.i64(x.modified_at);
    w.str("audit_generation");
    w.optional_u64(x.audit_generation);
    w.str("audit_through_seq");
    w.optional_u64(x.audit_through_seq);
    w.str("object_manifest_digest");
    w.optional_bytes(array_slice(&x.object_manifest_digest));
}

/// Encodes the body of an item or audit event.
pub fn encode_legacy_event_body(x: &LegacyEventBody) -> (r: Vec<u8>)
    ensures
        r@ == legacy_event_body_bytes(x@),
{
    let mut w = Writer::new();
    let ghost none = Seq::<u8>::empty();
    assert(none + legacy_event_body_then(x@, none) =~= legacy_event_body_bytes(x@));
    put_legacy_event_body(&mut w, x);
    assert(w@ + none =~= w@);
    w.finish()
}

/// The body of an imported revision.
pub struct ImportRevisionBody {
    pub revision: [u8; 16],
    pub modified_at: i64,
    pub manifest_digest: [u8; 32],
    pub previous_revisions: Vec<[u8; 16]>,
}

/// The contents of a [`ImportRevisionBody`].
pub struct ImportRevisionModel {
    pub revision: [u8; 16],
    pub modified_at: i64,
    pub manifest_digest: [u8; 32],
    pub previous_revisions: Seq<[u8; 16]>,
}

impl View for ImportRevisionBody {
    type V = ImportRevisionModel;

    open spec fn view(&self) -> ImportRevisionModel {
        ImportRevisionModel {
            revision: self.revision,
            modified_at: self.modified_at,
            manifest_digest: self.manifest_digest,
            previous_revisions: self.previous_revisions@,
        }
    }
}

/// The body of an imported revision, followed by `t`.
pub open spec fn import_revision_body_then(m: ImportRevisionModel, t: Seq<u8>) -> Seq<u8> {
    map_head(4) + (text_item("revision_id"@) + (bytes_item(m.revision@) + (text_item("modified_at"@)
        + (int_item(m.modified_at) + (text_item("manifest_digest"@)
        + (bytes_item(m.manifest_digest@) + (text_item("previous_revisions"@)
        + (ids_then(m.previous_revisions, t)))))))))
}

/// The body of an imported revision.
pub open spec fn import_revision_body_bytes(m: ImportRevisionModel) -> Seq<u8> {
    import_revision_body_then(m, Seq::empty())
}

/// Appends the body of an imported revision.
fn put_import_revision_body(w: &mut Writer, x: &ImportRevisionBody)
    ensures
        forall|t: Seq<u8>|
            #![trigger old(w)@ + import_revision_body_then(x@, t)]
            final(w)@ + t == old(w)@ + import_revision_body_then(x@, t),
{
    w.map(4);
    w.str("revision_id");
    w.bytes(&x.revision);
    w.str("modified_at");
    w.i64(x.modified_at);
    w.str("manifest_digest");
    w.bytes(&x.manifest_digest);
    w.str("previous_revisions");
    put_ids(w, &x.previous_revisions);
}

/// Encodes the body of an imported revision.
pub fn encode_import_revision_body(x: &ImportRevisionBody) -> (r: Vec<u8>)
    ensures
        r@ == import_revision_body_bytes(x@),
{
    let mut w = Writer::new();
    let ghost none = Seq::<u8>::empty();
    assert(none + import_revision_body_then(x@, none) =~= import_revision_body_bytes(x@));
    put_import_revision_body(&mut w, x);
    assert(w@ + none =~= w@);
    w.finish()
}

/// What causal reduction needs of an event.
#[derive(Clone, Debug, PartialEq, Eq)]
pub struct AuthorityEventHeader {
    digest: [u8; 32],
    seq: u64,
    previous: Option<[u8; 32]>,
    parents: Vec<[u8; 32]>,
    kind: String,
    subject: [u8; 16],
    subject_generation: u64,
}

/// The contents of a [`AuthorityEventHeader`].
pub struct HeaderModel {
    pub digest: [u8; 32],
    pub seq: u64,
    pub previous: Option<[u8; 32]>,
    pub parents: Seq<[u8; 32]>,
    pub kind: Seq<char>,
    pub subject: [u8; 16],
    pub subject_generation: u64,
}

impl View for AuthorityEventHeader {
    type V = HeaderModel;

    closed spec fn view(&self) -> HeaderModel {
        HeaderModel {
            digest: self.digest,
            seq: self.seq,
            previous: self.previous,
            parents: self.parents@,
            kind: self.kind@,
            subject: self.subject,
            subject_generation: self.subject_generation,
        }
    }
}

impl AuthorityEventHeader {
    pub fn digest(&self) -> (r: &[u8; 32])
        ensures
            *r == self@.digest,
    {
        &self.digest
    }

    pub fn seq(&self) -> (r: u64)
        ensures
            r == self@.seq,
    {
        self.seq
    }

    pub fn previous(&self) -> (r: Option<&[u8; 32]>)
        ensures
            match self@.previous {
                Some(p) => r is Some && *(r->0) == p,
                None => r is None,
            },
    {
        self.previous.as_ref()
    }

    pub fn parents(&self) -> (r: &[[u8; 32]])
        ensures
            r@ == self@.parents,
    {
        self.parents.as_slice()
    }

    pub fn kind(&self) -> (r: &str)
        ensures
            r@ == self@.kind,
    {
        self.kind.as_str()
    }

    pub fn subject(&self) -> (r: &[u8; 16])
        ensures
            *r == self@.subject,
    {
        &self.subject
    }

    pub fn subject_generation(&self) -> (r: u64)
        ensures
            r == self@.subject_generation,
    {
        self.subject_generation
    }
}

/// The number behind the text `key` at the front of `b`, and what follows.
pub open spec fn uint_under(b: Seq<u8>, key: Seq<char>) -> Option<(u64, Seq<u8>)> {
    match take_key(b, key) {
        Some(t) => take_uint(t),
        None => None,
    }
}

/// The identifier behind the text `key` at the front of `b`, and what follows.
pub open spec fn id_under(b: Seq<u8>, key: Seq<char>) -> Option<([u8; 16], Seq<u8>)> {
    match take_key(b, key) {
        Some(t) => fixed_at::<16>(t),
        None => None,
    }
}

/// The text behind the text `key` at the front of `b`, and what follows.
pub open spec fn text_under(b: Seq<u8>, key: Seq<char>) -> Option<(Seq<char>, Seq<u8>)> {
    match take_key(b, key) {
        Some(t) => take_text(t),
        None => None,
    }
}

/// The vault, event and epoch at the front of an event, and what follows.
pub open spec fn origin_at(b: Seq<u8>) -> Option<Seq<u8>> {
    match take_map_of(b, 13) {
        Some(b) => match uint_under(b, "v"@) {
            Some((v, b)) => if v != 1 {
                None
            } else {
                match id_under(b, "vault"@) {
                    Some((_, b)) => match id_under(b, "event_id"@) {
                        Some((_, b)) => match uint_under(b, "authority_epoch"@) {
                            Some((_, b)) => Some(b),
                            None => None,
                        },
                        None => None,
                    },
                    None => None,
                }
            },
            None => None,
        },
        None => None,
    }
}

/// The issuer and sequence number of an event, and what follows.
pub open spec fn issue_at(b: Seq<u8>) -> Option<(u64, Seq<u8>)> {
    match id_under(b, "issuer_device"@) {
        Some((_, b)) => match uint_under(b, "issuer_generation"@) {
            Some((_, b)) => uint_under(b, "seq"@),
            None => None,
        },
        None => None,
    }
}

/// The previous event and the parents, which must be increasing, and what
/// follows.
pub open spec fn links_at(b: Seq<u8>) -> Option<(Option<[u8; 32]>, Seq<[u8; 32]>, Seq<u8>)> {
    match take_key(b, "prev"@) {
        Some(b) => match optional_at::<32>(b) {
            Some((previous, b)) => match take_key(b, "parents"@) {
                Some(b) => match digest_list_at(b) {
                    Some((parents, b)) => if increasing(parents) {
                        Some((previous, parents, b))
                    } else {
                        None
                    },
                    None => None,
                },
                None => None,
            },
            None => None,
        },
        None => None,
    }
}

/// The kind, subject and generation of an event, and what follows.
pub open spec fn subject_at(b: Seq<u8>) -> Option<(Seq<char>, [u8; 16], u64, Seq<u8>)> {
    match text_under(b, "kind"@) {
        Some((kind, b)) => match id_under(b, "subject"@) {
            Some((subject, b)) => match uint_under(b, "subject_generation"@) {
                Some((generation, b)) => Some((kind, subject, generation, b)),
                None => None,
            },
            None => None,
        },
        None => None,
    }
}

/// The header of an event and its body with whatever follows.
pub open spec fn header_at(digest: [u8; 32], b: Seq<u8>) -> Option<(HeaderModel, Seq<u8>)> {
    match origin_at(b) {
        Some(b) => match issue_at(b) {
            Some((seq, b)) => match links_at(b) {
                Some((previous, parents, b)) => match subject_at(b) {
                    Some((kind, subject, subject_generation, b)) => match take_key(b, "body"@) {
                        Some(b) => Some(
                            (
                                HeaderModel {
                                    digest,
                                    seq,
                                    previous,
                                    parents,
                                    kind,
                                    subject,
                                    subject_generation,
                                },
                                b,
                            ),
                        ),
                        None => None,
                    },
                    None => None,
                },
                None => None,
            },
            None => None,
        },
        None => None,
    }
}

/// Reads what stands before the issuer.
fn read_origin(d: &mut Reader) -> (r: Option<()>)
    ensures
        match origin_at(old(d).rest()) {
            Some(t) => r is Some && final(d).rest() == t,
            None => r is None,
        },
{
    d.map_of(13)?;
    d.key("v")?;
    let v: u64 = d.u64()?;
    if v != 1 {
        return None;
    }
    d.key("vault")?;
    d.fixed16()?;
    d.key("event_id")?;
    d.fixed16()?;
    d.key("authority_epoch")?;
    d.u64()?;
    Some(())
}

/// Reads the issuer and the sequence number.
fn read_issue(d: &mut Reader) -> (r: Option<u64>)
    ensures
        match issue_at(old(d).rest()) {
            Some((n, t)) => r == Some(n) && final(d).rest() == t,
            None => r is None,
        },
{
    d.key("issuer_device")?;
    d.fixed16()?;
    d.key("issuer_generation")?;
    d.u64()?;
    d.key("seq")?;
    d.u64()
}

/// Reads the previous event and the parents.
fn read_links(d: &mut Reader) -> (r: Option<(Option<[u8; 32]>, Vec<[u8; 32]>)>)
    ensures
        match links_at(old(d).rest()) {
            Some((p, v, t)) => r is Some && (r->0).0 == p && (r->0).1@ == v && final(d).rest() == t,
            None => r is None,
        },
{
    d.key("prev")?;
    let previous = take_optional_digest(d)?;
    d.key("parents")?;
    let parents = read_digests(d)?;
    if !is_increasing(&parents) {
        return None;
    }
    Some((previous, parents))
}

/// Reads the kind, subject and generation.
fn read_subject(d: &mut Reader) -> (r: Option<(String, [u8; 16], u64)>)
    ensures
        match subject_at(old(d).rest()) {
            Some((k, s, g, t)) => r is Some && (r->0).0@ == k && (r->0).1 == s && (r->0).2 == g
                && final(d).rest() == t,
            None => r is None,
        },
{
    d.key("kind")?;
    let kind = d.str()?.to_owned();
    d.key("subject")?;
    let subject = d.fixed16()?;
    proof {
        lemma_array_of(subject);
    }
    d.key("subject_generation")?;
    let generation: u64 = d.u64()?;
    Some((kind, subject, generation))
}

/// Reads the header of an event up to its body.
pub fn read_event_header(d: &mut Reader, digest: [u8; 32]) -> (r: Option<AuthorityEventHeader>)
    ensures
        match header_at(digest, old(d).rest()) {
            Some((h, t)) => r is Some && (r->0)@ == h && final(d).rest() == t,
            None => r is None,
        },
{
    read_origin(d)?;
    let seq: u64 = read_issue(d)?;
    let (previous, parents) = read_links(d)?;
    let (kind, subject, subject_generation) = read_subject(d)?;
    d.key("body")?;
    Some(
        AuthorityEventHeader {
            digest,
            seq,
            previous,
            parents,
            kind,
            subject,
            subject_generation,
        },
    )
}

/// What the header of an event is.
pub open spec fn header_of(digest: [u8; 32], m: EventModel) -> HeaderModel {
    HeaderModel {
        digest,
        seq: m.seq,
        previous: m.previous,
        parents: m.parents,
        kind: m.kind,
        subject: m.subject,
        subject_generation: m.subject_generation,
    }
}

/// The header of a written event is read back, and its body is what follows.
#[verifier::rlimit(40)]
pub proof fn lemma_event_header(digest: [u8; 32], m: EventModel)
    requires
        g5_event_bytes(m).len() <= u64::MAX,
        increasing(m.parents),
    ensures
        header_at(digest, g5_event_bytes(m)) == Some((header_of(digest, m), m.body)),
{
    let t26 = m.body + Seq::<u8>::empty();
    let t25 = text_item("body"@) + t26;
    let t24 = uint_item(m.subject_generation) + t25;
    let t23 = text_item("subject_generation"@) + t24;
    let t22 = bytes_item(m.subject@) + t23;
    let t21 = text_item("subject"@) + t22;
    let t20 = text_item(m.kind) + t21;
    let t19 = text_item("kind"@) + t20;
    let t18 = digests_then(m.parents, t19);
    let t17 = text_item("parents"@) + t18;
    let t16 = optional_bytes_item(opt_array(m.previous)) + t17;
    let t15 = text_item("prev"@) + t16;
    let t14 = uint_item(m.seq) + t15;
    let t13 = text_item("seq"@) + t14;
    let t12 = uint_item(m.issuer_generation) + t13;
    let t11 = text_item("issuer_generation"@) + t12;
    let t10 = bytes_item(m.issuer_device@) + t11;
    let t9 = text_item("issuer_device"@) + t10;
    let t8 = uint_item(m.authority_epoch) + t9;
    let t7 = text_item("authority_epoch"@) + t8;
    let t6 = bytes_item(m.event_id@) + t7;
    let t5 = text_item("event_id"@) + t6;
    let t4 = bytes_item(m.vault@) + t5;
    let t3 = text_item("vault"@) + t4;
    let t2 = uint_item(1) + t3;
    let t1 = text_item("v"@) + t2;
    let t0 = map_head(13) + t1;
    assert(t0 == g5_event_bytes(m));
    assert(t26 =~= m.body);
    lemma_map(13, t1);
    lemma_text_within("v"@, t2);
    lemma_uint(1, t3);
    lemma_text_within("vault"@, t4);
    lemma_bytes_within(m.vault@, t5);
    lemma_array_of(m.vault);
    lemma_text_within("event_id"@, t6);
    lemma_bytes_within(m.event_id@, t7);
    lemma_array_of(m.event_id);
    lemma_text_within("authority_epoch"@, t8);
    lemma_uint(m.authority_epoch, t9);
    lemma_text_within("issuer_device"@, t10);
    lemma_bytes_within(m.issuer_device@, t11);
    lemma_array_of(m.issuer_device);
    lemma_text_within("issuer_generation"@, t12);
    lemma_uint(m.issuer_generation, t13);
    lemma_text_within("seq"@, t14);
    lemma_uint(m.seq, t15);
    lemma_text_within("prev"@, t16);
    match m.previous {
        Some(p) => {
            lemma_bytes_within(p@, t17);
            lemma_array_of(p);
        },
        None => {
            lemma_null(t17);
        },
    }
    lemma_text_within("parents"@, t18);
    lemma_digest_list(m.parents, t19);
    lemma_text_within("kind"@, t20);
    lemma_text_within(m.kind, t21);
    lemma_text_within("subject"@, t22);
    lemma_bytes_within(m.subject@, t23);
    lemma_array_of(m.subject);
    lemma_text_within("subject_generation"@, t24);
    lemma_uint(m.subject_generation, t25);
    lemma_text_within("body"@, t26);
}

/// Whether the item at the front of some bytes is all that they hold.
pub open spec fn single_item(b: Seq<u8>) -> bool {
    match passed(b) {
        Some(t) => t.len() == 0,
        None => false,
    }
}

/// Decodes the header of an event whose body is a single item.
pub fn decode_event_header(digest: [u8; 32], input: &[u8]) -> (r: Result<
    AuthorityEventHeader,
    AuthorizationError,
>)
    ensures
        match header_at(digest, input@) {
            Some((h, body)) => if single_item(body) {
                r is Ok && (r->Ok_0)@ == h
            } else {
                r is Err && r->Err_0 is Integrity
            },
            None => r is Err && r->Err_0 is Integrity,
        },
        forall|m: EventModel|
            increasing(m.parents) && items_after(m.body, 1) == Some(Seq::<u8>::empty()) && input@
                == #[trigger] g5_event_bytes(m) ==> r is Ok && (r->Ok_0)@ == header_of(digest, m),
{
    proof {
        assert(input.len() == input@.len());
        assert forall|m: EventModel|
            increasing(m.parents) && input@ == #[trigger] g5_event_bytes(m) implies header_at(
            digest,
            input@,
        ) == Some((header_of(digest, m), m.body)) by {
            lemma_event_header(digest, m);
        }
    }
    let mut d = Reader::new(input);
    match read_event_header(&mut d, digest) {
        Some(header) => match d.skip() {
            Some(_) => if d.at_end() {
                Ok(header)
            } else {
                Err(AuthorizationError::Integrity)
            },
            None => Err(AuthorizationError::Integrity),
        },
        None => Err(AuthorizationError::Integrity),
    }
}

/// The body of an item or audit event is a single item.
pub proof fn lemma_legacy_body_item(m: LegacyEventBody)
    requires
        legacy_event_body_bytes(m).len() <= u64::MAX,
    ensures
        items_after(legacy_event_body_bytes(m), 1) == Some(Seq::<u8>::empty()),
{
    lemma_items();
}

/// The body of an imported revision is a single item.
pub proof fn lemma_import_body_item(m: ImportRevisionModel)
    requires
        import_revision_body_bytes(m).len() <= u64::MAX,
    ensures
        items_after(import_revision_body_bytes(m), 1) == Some(Seq::<u8>::empty()),
{
    lemma_items();
    let none = Seq::<u8>::empty();
    let t = ids_then(m.previous_revisions, none);
    assert(t.len() <= import_revision_body_bytes(m).len());
    lemma_ids_item(m.previous_revisions, none, 1);
}

/// One stored event: its digest and its kind.
pub struct AuthorityRow {
    pub digest: Vec<u8>,
    pub kind: String,
}

/// The contents of an [`AuthorityRow`].
pub struct AuthorityRowModel {
    pub digest: Seq<u8>,
    pub kind: Seq<char>,
}

impl View for AuthorityRow {
    type V = AuthorityRowModel;

    open spec fn view(&self) -> AuthorityRowModel {
        AuthorityRowModel { digest: self.digest@, kind: self.kind@ }
    }
}

/// Whether `kind` is one of `kinds`.
pub open spec fn kind_among(kind: Seq<char>, kinds: Seq<&'static str>) -> bool {
    exists|i: int| 0 <= i < kinds.len() && (#[trigger] kinds[i])@ == kind
}

/// The digests of the first `n` rows that are of one of the kinds; none where
/// such a row has a digest of the wrong length.
pub open spec fn digests_of(
    rows: Seq<AuthorityRowModel>,
    kinds: Seq<&'static str>,
    n: int,
) -> Option<Seq<Seq<u8>>>
    decreases n,
{
    if n <= 0 {
        Some(Seq::empty())
    } else {
        let row = rows[n - 1];
        match digests_of(rows, kinds, n - 1) {
            Some(before) => if !kind_among(row.kind, kinds) {
                Some(before)
            } else if row.digest.len() == 32 {
                Some(before.push(row.digest))
            } else {
                None
            },
            None => None,
        }
    }
}

/// One malformed row spoils all longer prefixes.
proof fn lemma_digests_fail(
    rows: Seq<AuthorityRowModel>,
    kinds: Seq<&'static str>,
    i: int,
    n: int,
)
    requires
        0 <= i <= n,
        digests_of(rows, kinds, i) is None,
    ensures
        digests_of(rows, kinds, n) is None,
    decreases n - i,
{
    if i < n {
        lemma_digests_fail(rows, kinds, i, n - 1);
    }
}

/// The digests as byte strings.
pub open spec fn digest_bytes(v: Seq<[u8; 32]>) -> Seq<Seq<u8>> {
    Seq::new(v.len(), |i: int| v[i]@)
}

/// Whether `kind` is one of `kinds`.
fn is_among(kind: &str, kinds: &[&'static str]) -> (r: bool)
    ensures
        r == kind_among(kind@, kinds@),
{
    let mut i: usize = 0;
    while i < kinds.len()
        invariant
            i <= kinds@.len(),
            forall|j: int| 0 <= j < i ==> (#[trigger] kinds@[j])@ != kind@,
        decreases kinds@.len() - i,
    {
        if same_str(kinds[i], kind) {
            assert(kinds@[i as int]@ == kind@);
            return true;
        }
        i += 1;
    }
    false
}

/// The digests of the stored events that are of one of the kinds, in the order
/// of the rows.
pub fn authority_digests(rows: &Vec<AuthorityRow>, kinds: &[&'static str]) -> (r: Result<
    Vec<[u8; 32]>,
    HumanCommitError,
>)
    ensures
        match digests_of(views(rows@), kinds@, rows@.len() as int) {
            Some(v) => r is Ok && digest_bytes((r->Ok_0)@) == v,
            None => r is Err && r->Err_0 is InvalidCommand,
        },
{
    let mut out: Vec<[u8; 32]> = Vec::new();
    let mut i: usize = 0;
    assert(digest_bytes(out@) =~= Seq::<Seq<u8>>::empty());
    while i < rows.len()
        invariant
            i <= rows@.len(),
            digests_of(views(rows@), kinds@, i as int) == Some(digest_bytes(out@)),
        decreases rows@.len() - i,
    {
        assert(views(rows@)[i as int] == rows@[i as int]@);
        if is_among(rows[i].kind.as_str(), kinds) {
            match fixed32(rows[i].digest.as_slice()) {
                Some(digest) => {
                    let ghost before = out@;
                    out.push(digest);
                    assert(digest_bytes(out@) =~= digest_bytes(before).push(digest@));
                },
                None => {
                    proof {
                        lemma_digests_fail(views(rows@), kinds@, i + 1, rows@.len() as int);
                    }
                    return Err(HumanCommitError::InvalidCommand);
                },
            }
        }
        i += 1;
    }
    Ok(out)
}

/// The kinds of earlier events on the same subject that an event follows.
pub open spec fn parent_kinds(kind: Seq<char>) -> Seq<&'static str> {
    if kind == "agent-grant"@ {
        seq!["agent-grant", "agent-revoke"]
    } else if kind == "resume"@ {
        seq!["suspend"]
    } else if kind == "enable"@ || kind == "disable"@ {
        seq!["enable", "disable", "trash", "purge-item", "purge-revisions"]
    } else if kind == "trash"@ || kind == "restore"@ || kind == "purge-item"@ || kind
        == "purge-revisions"@ {
        seq!["item-revision", "trash", "restore", "purge-item", "purge-revisions"]
    } else {
        seq![]
    }
}

/// The earlier events on the same subject that an event of that kind follows.
pub fn authority_specific_parents(rows: &Vec<AuthorityRow>, kind: &str) -> (r: Result<
    Vec<[u8; 32]>,
    HumanCommitError,
>)
    ensures
        match digests_of(views(rows@), parent_kinds(kind@), rows@.len() as int) {
            Some(v) => r is Ok && digest_bytes((r->Ok_0)@) == v,
            None => r is Err && r->Err_0 is InvalidCommand,
        },
{
    if same_str(kind, "agent-grant") {
        let kinds: [&'static str; 2] = ["agent-grant", "agent-revoke"];
        assert(kinds@ =~= parent_kinds(kind@));
        authority_digests(rows, &kinds)
    } else if same_str(kind, "resume") {
        let kinds: [&'static str; 1] = ["suspend"];
        assert(kinds@ =~= parent_kinds(kind@));
        authority_digests(rows, &kinds)
    } else if same_str(kind, "enable") || same_str(kind, "disable") {
        let kinds: [&'static str; 5] = [
            "enable",
            "disable",
            "trash",
            "purge-item",
            "purge-revisions",
        ];
        assert(kinds@ =~= parent_kinds(kind@));
        authority_digests(rows, &kinds)
    } else if same_str(kind, "trash") || same_str(kind, "restore") || same_str(kind, "purge-item")
        || same_str(kind, "purge-revisions") {
        let kinds: [&'static str; 5] = [
            "item-revision",
            "trash",
            "restore",
            "purge-item",
            "purge-revisions",
        ];
        assert(kinds@ =~= parent_kinds(kind@));
        authority_digests(rows, &kinds)
    } else {
        let kinds: [&'static str; 0] = [];
        assert(kinds@ =~= parent_kinds(kind@));
        authority_digests(rows, &kinds)
    }
}

/// Whether `parents` are the given digests and the previous head, each once and
/// in increasing order.
pub open spec fn parents_of(
    parents: Seq<[u8; 32]>,
    specific: Seq<[u8; 32]>,
    previous: Option<[u8; 32]>,
) -> bool {
    &&& increasing(parents)
    &&& forall|x: [u8; 32]|
        parents.contains(x) <==> specific.contains(x) || previous == Some(x)
}

/// The parents of an event: the given digests and the previous head, each once
/// and in increasing order.
pub fn join_parents(specific: &Vec<[u8; 32]>, previous: &Option<[u8; 32]>) -> (r: Vec<[u8; 32]>)
    ensures
        parents_of(r@, specific@, *previous),
{
    let mut out = sorted_set(specific);
    if let Some(head) = previous {
        insert(&mut out, *head);
    }
    out
}

/// The sequence number behind the highest one stored.
pub fn next_authority_seq(current: i64) -> (r: Result<u64, HumanCommitError>)
    ensures
        r is Ok <==> current >= 0,
        r is Ok ==> r->Ok_0 == current + 1,
        r is Err ==> r->Err_0 is InvalidCommand,
{
    if current < 0 {
        Err(HumanCommitError::InvalidCommand)
    } else {
        Ok(current as u64 + 1)
    }
}

/// A signed event holds the event as it is, and behind it both signatures.
pub proof fn lemma_signed_event(m: SignedEventModel)
    requires
        signed_event_bytes(m).len() <= u64::MAX,
    ensures
        ({
            let k = map_head(3).len() + text_item("event"@).len();
            let b = signed_event_bytes(m);
            let rest = Some(b.skip((k + m.event.len()) as int));
            let device = next_fixed::<64>(next_key(rest, "device_signature"@));
            let human = next_fixed::<64>(next_key(after(device), "human_signature"@));
            &&& next_key(take_map_of(b, 3), "event"@) == Some(b.skip(k as int))
            &&& k + m.event.len() <= b.len()
            &&& b.subrange(k as int, (k + m.event.len()) as int) == m.event
            &&& device is Some && (device->0).0 == m.device_signature
            &&& human is Some && (human->0).0 == m.human_signature
            &&& (human->0).1.len() == 0
        }),
{
    let t5 = bytes_item(m.human_signature@) + Seq::<u8>::empty();
    let t4 = text_item("human_signature"@) + t5;
    let t3 = bytes_item(m.device_signature@) + t4;
    let t2 = text_item("device_signature"@) + t3;
    let t1 = m.event + t2;
    let t0 = text_item("event"@) + t1;
    let b = signed_event_bytes(m);
    assert(b == map_head(3) + t0);
    lemma_map(3, t0);
    lemma_text_within("event"@, t1);
    let k = map_head(3).len() + text_item("event"@).len();
    assert(b.skip(k as int) =~= t1);
    assert(b.subrange(k as int, (k + m.event.len()) as int) =~= m.event);
    assert(b.skip((k + m.event.len()) as int) =~= t2);
    lemma_text_within("device_signature"@, t3);
    lemma_bytes_within(m.device_signature@, t4);
    lemma_array_of::<64>(m.device_signature);
    lemma_text_within("human_signature"@, t5);
    lemma_bytes_within(m.human_signature@, Seq::empty());
    lemma_array_of::<64>(m.human_signature);
}

} // verus!

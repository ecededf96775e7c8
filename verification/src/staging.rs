//! Staged transactions and what must hold of them before they are applied.
use crate::bodies::{
    agent_grant_body_of, decode_agent_grant_body, decode_enable_body, decode_item_purge_body,
    decode_lifecycle_body, decode_reason_body, decode_resume_body, enable_body_of,
    item_purge_body_of, lifecycle_body_of, reason_body_of, resume_body_of, ItemPurgeBody,
    PurgeBodyModel,
};
use crate::bytes::{be64, fixed16, push_be64, same_str, wrap, wrapped};
use crate::cbor::{
    array_head, bytes_item, lemma_array, lemma_bytes_within, lemma_head_len, lemma_map,
    lemma_text_within, map_head, opt_view, optional_bytes_item, take_array, take_bytes, take_key,
    take_map_of, text_item, Reader, Writer, MAP,
};
use crate::command::{
    encode_event_manifest, encode_restore_manifest, event_manifest_bytes, restore_manifest_bytes,
    Body, EventManifest, EventManifestModel, RestoreManifest,
};
use crate::content::opt_vec;
use crate::errors::HumanCommitError;
use crate::events::{
    authority_digests, digest_bytes, digests_of, id_under, kind_among, AuthorityRow,
    AuthorityRowModel,
};
use crate::import::{event_pages, lemma_pages, pages_of, ImportBatch};
use crate::lists::{after, lemma_array_of, lemma_optional_bytes, next_bytes, opt_string, vec_slice};
use crate::ordered::{holds, lemma_same_array, same_array, same_list, same_option};
use crate::views::views;
use crate::commit::{lemma_digests_taken};
use crate::format_laws::{next_optional_bytes};
use vstd::prelude::*;
use vstd::slice::slice_to_vec;
use vstd::utf8::encode_utf8;

verus! {

/// A sealed file that waits for its revision.
pub struct StagedAttachment {
    pub id: [u8; 16],
    pub package: Vec<u8>,
}

/// The contents of a [`StagedAttachment`].
pub struct StagedAttachmentModel {
    pub id: [u8; 16],
    pub package: Seq<u8>,
}

impl View for StagedAttachment {
    type V = StagedAttachmentModel;

    open spec fn view(&self) -> StagedAttachmentModel {
        StagedAttachmentModel {
            id: self.id,
            package: self.package@,
        }
    }
}

/// A staged file, followed by `t`.
pub open spec fn staged_attachment_then(m: StagedAttachmentModel, t: Seq<u8>) -> Seq<u8> {
    map_head(2) + (text_item("id"@) + (bytes_item(m.id@) + (text_item("package"@)
        + (bytes_item(m.package) + t))))
}

/// Appends a staged file.
fn put_staged_attachment(w: &mut Writer, x: &StagedAttachment)
    ensures
        forall|t: Seq<u8>|
            #![trigger old(w)@ + staged_attachment_then(x@, t)]
            final(w)@ + t == old(w)@ + staged_attachment_then(x@, t),
{
    w.map(2);
    w.str("id");
    w.bytes(&x.id);
    w.str("package");
    w.bytes(x.package.as_slice());
}

/// A staged file takes at least one byte.
proof fn lemma_staged_attachment_len(m: StagedAttachmentModel, t: Seq<u8>)
    ensures
        staged_attachment_then(m, t).len() >= 1 + t.len(),
{
    lemma_head_len(MAP, 2);
}

/// The items of a list of staged files, followed by `t`.
pub open spec fn staged_attachments_tail(v: Seq<StagedAttachmentModel>, t: Seq<u8>) -> Seq<u8>
    decreases v.len(),
{
    if v.len() == 0 {
        t
    } else {
        staged_attachment_then(v[0], staged_attachments_tail(v.skip(1), t))
    }
}

/// A list of staged files, followed by `t`.
pub open spec fn staged_attachments_then(v: Seq<StagedAttachmentModel>, t: Seq<u8>) -> Seq<u8> {
    array_head(v.len() as u64) + staged_attachments_tail(v, t)
}

/// Every list item takes at least one byte.
proof fn lemma_staged_attachments_len(v: Seq<StagedAttachmentModel>, t: Seq<u8>)
    ensures
        staged_attachments_tail(v, t).len() >= v.len() + t.len(),
    decreases v.len(),
{
    if v.len() > 0 {
        lemma_staged_attachments_len(v.skip(1), t);
        lemma_staged_attachment_len(v[0], staged_attachments_tail(v.skip(1), t));
    }
}

/// Appends a list of staged files.
fn put_staged_attachments(w: &mut Writer, values: &Vec<StagedAttachment>)
    ensures
        forall|t: Seq<u8>|
            #![trigger old(w)@ + staged_attachments_then(views(values@), t)]
            final(w)@ + t == old(w)@ + staged_attachments_then(views(values@), t),
{
    let ghost start = w@;
    let ghost all = views(values@);
    w.array(values.len() as u64);
    let mut i: usize = 0;
    assert(all.skip(0) =~= all);
    while i < values.len()
        invariant
            i <= values@.len(),
            all == views(values@),
            forall|t: Seq<u8>|
                #![trigger start + staged_attachments_then(all, t)]
                w@ + staged_attachments_tail(all.skip(i as int), t)
                    == start + staged_attachments_then(all, t),
        decreases values@.len() - i,
    {
        assert(all.skip(i as int).skip(1) =~= all.skip(i + 1));
        assert(all.skip(i as int)[0] == all[i as int]);
        assert forall|t: Seq<u8>| #![trigger start + staged_attachments_then(all, t)] w@
            + staged_attachment_then(all[i as int], staged_attachments_tail(all.skip(i + 1), t))
            == start + staged_attachments_then(all, t) by {
        }
        put_staged_attachment(w, &values[i]);
        i += 1;
    }
    assert(all.skip(i as int) =~= Seq::empty());
}

/// A list of staged files.
pub open spec fn staged_attachments_bytes(v: Seq<StagedAttachmentModel>) -> Seq<u8> {
    staged_attachments_then(v, Seq::empty())
}

/// Encodes a list of staged files.
pub fn encode_staged_attachments(values: &Vec<StagedAttachment>) -> (r: Vec<u8>)
    ensures
        r@ == staged_attachments_bytes(views(values@)),
{
    let mut w = Writer::new();
    let ghost none = Seq::<u8>::empty();
    let ghost all = views(values@);
    assert(none + staged_attachments_then(all, none) =~= staged_attachments_bytes(all));
    put_staged_attachments(&mut w, values);
    assert(w@ + none =~= w@);
    w.finish()
}

/// The staged file at the front of `b` and what follows it.
pub open spec fn staged_attachment_at(b: Seq<u8>) -> Option<(StagedAttachmentModel, Seq<u8>)> {
    match take_map_of(b, 2) {
        Some(b) => match id_under(b, "id"@) {
            Some((id, b)) => match take_key(b, "package"@) {
                Some(b) => match take_bytes(b) {
                    Some((package, b)) => Some((StagedAttachmentModel { id, package }, b)),
                    None => None,
                },
                None => None,
            },
            None => None,
        },
        None => None,
    }
}

/// The first `n` staged files of `b` and what follows them.
pub open spec fn staged_attachments_at(b: Seq<u8>, n: nat) -> Option<
    (Seq<StagedAttachmentModel>, Seq<u8>),
>
    decreases n,
{
    if n == 0 {
        Some((Seq::empty(), b))
    } else {
        match staged_attachment_at(b) {
            Some((x, t)) => match staged_attachments_at(t, (n - 1) as nat) {
                Some((v, u)) => Some((seq![x] + v, u)),
                None => None,
            },
            None => None,
        }
    }
}

/// Whether no identifier occurs twice.
pub open spec fn staged_distinct(v: Seq<StagedAttachmentModel>) -> bool {
    forall|i: int, j: int| 0 <= i < j < v.len() ==> (#[trigger] v[i]).id != (#[trigger] v[j]).id
}

/// What bytes decode to as a list of staged files.
pub open spec fn staged_attachments_of(b: Seq<u8>) -> Option<Seq<StagedAttachmentModel>> {
    match take_array(b) {
        Some((n, t)) => match staged_attachments_at(t, n as nat) {
            Some((v, rest)) => if rest.len() == 0 && staged_distinct(v) {
                Some(v)
            } else {
                None
            },
            None => None,
        },
        None => None,
    }
}

/// Reads a staged file.
fn read_staged_attachment(d: &mut Reader) -> (r: Option<StagedAttachment>)
    ensures
        match staged_attachment_at(old(d).rest()) {
            Some((x, t)) => r is Some && (r->0)@ == x && final(d).rest() == t,
            None => r is None,
        },
{
    d.map_of(2)?;
    d.key("id")?;
    let id = d.fixed16()?;
    proof {
        lemma_array_of(id);
    }
    d.key("package")?;
    let package = slice_to_vec(d.bytes()?);
    Some(StagedAttachment { id, package })
}

/// A list read in two parts.
spec fn prefixed(
    before: Seq<StagedAttachmentModel>,
    rest: Option<(Seq<StagedAttachmentModel>, Seq<u8>)>,
) -> Option<(Seq<StagedAttachmentModel>, Seq<u8>)> {
    match rest {
        Some((v, t)) => Some((before + v, t)),
        None => None,
    }
}

/// Whether no identifier occurs twice.
fn distinct_ids(values: &Vec<StagedAttachment>) -> (r: bool)
    ensures
        r == staged_distinct(views(values@)),
{
    let mut i: usize = 0;
    while i < values.len()
        invariant
            i <= values@.len(),
            forall|a: int, b: int|
                0 <= a < b < i ==> (#[trigger] values@[a]).id != (#[trigger] values@[b]).id,
        decreases values@.len() - i,
    {
        let mut j: usize = 0;
        while j < i
            invariant
                j <= i < values@.len(),
                forall|a: int| 0 <= a < j ==> (#[trigger] values@[a]).id != values@[i as int].id,
            decreases i - j,
        {
            if same_array(&values[j].id, &values[i].id) {
                assert(views(values@)[j as int].id == views(values@)[i as int].id);
                return false;
            }
            j += 1;
        }
        i += 1;
    }
    true
}

/// Decodes a list of staged files.
pub fn decode_staged_attachments(input: &[u8]) -> (r: Result<
    Vec<StagedAttachment>,
    HumanCommitError,
>)
    ensures
        match staged_attachments_of(input@) {
            Some(v) => r is Ok && views((r->Ok_0)@) == v,
            None => r is Err && r->Err_0 is InvalidCommand,
        },
{
    let mut d = Reader::new(input);
    let n: u64 = match d.array() {
        Some(n) => n,
        None => {
            return Err(HumanCommitError::InvalidCommand);
        },
    };
    let ghost start = d.rest();
    let ghost all = staged_attachments_at(start, n as nat);
    let mut out: Vec<StagedAttachment> = Vec::new();
    let mut i: u64 = 0;
    proof {
        match all {
            Some((v, t)) => {
                assert(views(out@) + v =~= v);
            },
            None => {},
        }
    }
    while i < n
        invariant
            i <= n,
            all == staged_attachments_at(start, n as nat),
            take_array(input@) == Some((n, start)),
            all == prefixed(views(out@), staged_attachments_at(d.rest(), (n - i) as nat)),
        decreases n - i,
    {
        let ghost before = out@;
        match read_staged_attachment(&mut d) {
            Some(x) => {
                out.push(x);
                proof {
                    match staged_attachments_at(d.rest(), (n - i - 1) as nat) {
                        Some((v, t)) => {
                            assert(views(before) + (seq![x@] + v) =~= views(out@) + v);
                        },
                        None => {},
                    }
                }
            },
            None => {
                return Err(HumanCommitError::InvalidCommand);
            },
        }
        i += 1;
    }
    assert(views(out@) + Seq::<StagedAttachmentModel>::empty() =~= views(out@));
    if d.at_end() && distinct_ids(&out) {
        Ok(out)
    } else {
        Err(HumanCommitError::InvalidCommand)
    }
}

/// A written list of staged files is read back.
pub proof fn lemma_staged_attachments(v: Seq<StagedAttachmentModel>)
    requires
        staged_attachments_bytes(v).len() <= u64::MAX,
        staged_distinct(v),
    ensures
        staged_attachments_of(staged_attachments_bytes(v)) == Some(v),
{
    let none = Seq::<u8>::empty();
    lemma_staged_attachments_len(v, none);
    lemma_array(v.len() as u64, staged_attachments_tail(v, none));
    lemma_staged_read(v, none);
}

/// The items of a written list of staged files are read back.
proof fn lemma_staged_read(v: Seq<StagedAttachmentModel>, t: Seq<u8>)
    requires
        staged_attachments_tail(v, t).len() <= u64::MAX,
    ensures
        staged_attachments_at(staged_attachments_tail(v, t), v.len()) == Some((v, t)),
    decreases v.len(),
{
    if v.len() == 0 {
        assert(v =~= Seq::empty());
    } else {
        let rest = staged_attachments_tail(v.skip(1), t);
        let t4 = bytes_item(v[0].package) + rest;
        let t3 = text_item("package"@) + t4;
        let t2 = bytes_item(v[0].id@) + t3;
        let t1 = text_item("id"@) + t2;
        lemma_map(2, t1);
        lemma_text_within("id"@, t2);
        lemma_bytes_within(v[0].id@, t3);
        lemma_array_of(v[0].id);
        lemma_text_within("package"@, t4);
        lemma_bytes_within(v[0].package, rest);
        lemma_staged_read(v.skip(1), t);
        assert(seq![v[0]] + v.skip(1) =~= v);
    }
}

/// A revision and its files, as the object digest covers them.
pub open spec fn staged_object_bytes(package: Seq<u8>, attachments: Option<Seq<u8>>) -> Seq<u8> {
    array_head(2) + (bytes_item(package) + (optional_bytes_item(attachments) + Seq::empty()))
}

/// What the object digest of a revision covers.
pub fn staged_object(package: &[u8], attachments: Option<&[u8]>) -> (r: Vec<u8>)
    ensures
        r@ == staged_object_bytes(package@, opt_view(attachments)),
{
    let mut w = Writer::new();
    let ghost none = Seq::<u8>::empty();
    let ghost all = staged_object_bytes(package@, opt_view(attachments));
    assert(none + all =~= all);
    w.array(2);
    w.bytes(package);
    w.optional_bytes(attachments);
    assert(w@ + none =~= w@);
    w.finish()
}

/// The four parts of an authority change, as the object digest covers them.
pub open spec fn staged_parts_bytes(
    package: Option<Seq<u8>>,
    attachments: Option<Seq<u8>>,
    authority_body: Option<Seq<u8>>,
    staged_grant: Option<Seq<u8>>,
) -> Seq<u8> {
    array_head(4) + (optional_bytes_item(package) + (optional_bytes_item(attachments) + (
    optional_bytes_item(authority_body) + (optional_bytes_item(staged_grant) + Seq::empty()))))
}

/// What the object digest of a transaction covers; nothing where it has neither
/// a package nor an authority change.
pub open spec fn staged_authority_bytes(
    package: Option<Seq<u8>>,
    attachments: Option<Seq<u8>>,
    authority_body: Option<Seq<u8>>,
    staged_grant: Option<Seq<u8>>,
) -> Option<Seq<u8>> {
    if authority_body is None && staged_grant is None {
        match package {
            Some(p) => Some(staged_object_bytes(p, attachments)),
            None => None,
        }
    } else {
        Some(staged_parts_bytes(package, attachments, authority_body, staged_grant))
    }
}

/// What the object digest of a transaction covers.
pub fn staged_authority(
    package: Option<&[u8]>,
    attachments: Option<&[u8]>,
    authority_body: Option<&[u8]>,
    staged_grant: Option<&[u8]>,
) -> (r: Option<Vec<u8>>)
    ensures
        opt_vec(r) == staged_authority_bytes(
            opt_view(package),
            opt_view(attachments),
            opt_view(authority_body),
            opt_view(staged_grant),
        ),
{
    if authority_body.is_none() && staged_grant.is_none() {
        return match package {
            Some(p) => Some(staged_object(p, attachments)),
            None => None,
        };
    }
    let mut w = Writer::new();
    let ghost none = Seq::<u8>::empty();
    let ghost all = staged_parts_bytes(
        opt_view(package),
        opt_view(attachments),
        opt_view(authority_body),
        opt_view(staged_grant),
    );
    assert(none + all =~= all);
    w.array(4);
    w.optional_bytes(package);
    w.optional_bytes(attachments);
    w.optional_bytes(authority_body);
    w.optional_bytes(staged_grant);
    assert(w@ + none =~= w@);
    Some(w.finish())
}

/// What the digest of streamed files covers first: the revision itself.
pub open spec fn stream_start_bytes(package: Seq<u8>) -> Seq<u8> {
    encode_utf8("pm/staged-stream/v1"@) + be64(package.len() as u64) + package
}

/// What the digest of streamed files covers first: the revision itself.
pub fn stream_start(package: &[u8]) -> (r: Vec<u8>)
    ensures
        r@ == stream_start_bytes(package@),
{
    let mut out: Vec<u8> = Vec::new();
    out.extend_from_slice("pm/staged-stream/v1".as_bytes());
    push_be64(&mut out, package.len() as u64);
    out.extend_from_slice(package);
    assert(out@ =~= stream_start_bytes(package@));
    out
}

/// What the digest of streamed files covers of one stream.
pub open spec fn stream_header_bytes(id: Seq<u8>, header: Seq<u8>, chunks: i64) -> Seq<u8> {
    id + be64(header.len() as u64) + header + be64(wrapped(chunks))
}

/// What the digest of streamed files covers of one stream.
pub fn stream_header(id: &[u8], header: &[u8], chunks: i64) -> (r: Vec<u8>)
    ensures
        r@ == stream_header_bytes(id@, header@, chunks),
{
    let mut out: Vec<u8> = Vec::new();
    out.extend_from_slice(id);
    push_be64(&mut out, header.len() as u64);
    out.extend_from_slice(header);
    push_be64(&mut out, wrap(chunks));
    assert(out@ =~= stream_header_bytes(id@, header@, chunks));
    out
}

/// What the digest of streamed files covers of one chunk.
pub open spec fn stream_chunk_bytes(id: Seq<u8>, index: i64, ciphertext: Seq<u8>) -> Seq<u8> {
    id + be64(wrapped(index)) + be64(ciphertext.len() as u64) + ciphertext
}

/// What the digest of streamed files covers of one chunk.
pub fn stream_chunk(id: &[u8], index: i64, ciphertext: &[u8]) -> (r: Vec<u8>)
    ensures
        r@ == stream_chunk_bytes(id@, index, ciphertext@),
{
    let mut out: Vec<u8> = Vec::new();
    out.extend_from_slice(id);
    push_be64(&mut out, wrap(index));
    push_be64(&mut out, ciphertext.len() as u64);
    out.extend_from_slice(ciphertext);
    assert(out@ =~= stream_chunk_bytes(id@, index, ciphertext@));
    out
}

/// A transaction that waits for its signature.
pub struct Staged {
    pub transaction_id: [u8; 16],
    pub operation: String,
    pub event_kind: String,
    pub item_id: [u8; 16],
    pub revision_id: Option<[u8; 16]>,
    pub body: Vec<u8>,
    pub package: Option<Vec<u8>>,
    pub item_kind: Option<String>,
    pub attachments: Option<Vec<u8>>,
    pub audit_generation: Option<u64>,
    pub audit_through_seq: Option<u64>,
    pub subject_generation: Option<u64>,
    pub authority_body: Option<Vec<u8>>,
    pub staged_grant: Option<Vec<u8>>,
}

/// The contents of a [`Staged`].
pub struct StagedModel {
    pub transaction_id: [u8; 16],
    pub operation: Seq<char>,
    pub event_kind: Seq<char>,
    pub item_id: [u8; 16],
    pub revision_id: Option<[u8; 16]>,
    pub body: Seq<u8>,
    pub package: Option<Seq<u8>>,
    pub item_kind: Option<Seq<char>>,
    pub attachments: Option<Seq<u8>>,
    pub audit_generation: Option<u64>,
    pub audit_through_seq: Option<u64>,
    pub subject_generation: Option<u64>,
    pub authority_body: Option<Seq<u8>>,
    pub staged_grant: Option<Seq<u8>>,
}

impl View for Staged {
    type V = StagedModel;

    open spec fn view(&self) -> StagedModel {
        StagedModel {
            transaction_id: self.transaction_id,
            operation: self.operation@,
            event_kind: self.event_kind@,
            item_id: self.item_id,
            revision_id: self.revision_id,
            body: self.body@,
            package: opt_vec(self.package),
            item_kind: opt_string(self.item_kind),
            attachments: opt_vec(self.attachments),
            audit_generation: self.audit_generation,
            audit_through_seq: self.audit_through_seq,
            subject_generation: self.subject_generation,
            authority_body: opt_vec(self.authority_body),
            staged_grant: opt_vec(self.staged_grant),
        }
    }
}

/// Whether a kind rotates a wrapper of the root.
pub open spec fn is_rotation(kind: Seq<char>) -> bool {
    kind == "root-password-rotate"@ || kind == "root-recovery-rotate"@
}

/// Whether a kind purges content.
pub open spec fn is_purge(kind: Seq<char>) -> bool {
    kind == "purge-item"@ || kind == "purge-revisions"@
}

/// Whether a transaction stages nothing but, perhaps, a package.
pub open spec fn package_only(s: StagedModel) -> bool {
    &&& s.revision_id is None
    &&& s.item_kind is None
    &&& s.attachments is None
    &&& s.audit_generation is None
    &&& s.audit_through_seq is None
    &&& s.subject_generation is None
    &&& s.authority_body is None
    &&& s.staged_grant is None
}

/// Whether a transaction stages nothing but, perhaps, a package.
fn has_package_only(s: &Staged) -> (r: bool)
    ensures
        r == package_only(s@),
{
    s.revision_id.is_none() && s.item_kind.is_none() && s.attachments.is_none()
        && s.audit_generation.is_none() && s.audit_through_seq.is_none()
        && s.subject_generation.is_none() && s.authority_body.is_none() && s.staged_grant.is_none()
}

/// What a rotation of the root wrappers must hold: the package is a bundle of
/// the same vault, and the body carries its digest and that of the kind.
pub open spec fn rotation_valid(
    s: StagedModel,
    body: Body,
    bundle_vault: [u8; 16],
    package_digest: [u8; 32],
    kind_digest: [u8; 32],
) -> bool {
    &&& s.package is Some
    &&& s.operation == "root_rotation"@
    &&& s.item_id == bundle_vault
    &&& package_only(s)
    &&& body.event_count == 0
    &&& body.object_manifest_digest == Some(package_digest)
    &&& body.events_manifest_digest == kind_digest
}

/// Checks a staged rotation; `bundle_vault` is the vault of the staged bundle.
pub fn validate_rotation(
    s: &Staged,
    body: &Body,
    bundle_vault: &[u8; 16],
    package_digest: [u8; 32],
    kind_digest: &[u8; 32],
) -> (r: Result<(), HumanCommitError>)
    ensures
        r == (if rotation_valid(s@, *body, *bundle_vault, package_digest, *kind_digest) {
            Ok::<(), HumanCommitError>(())
        } else {
            Err(HumanCommitError::BodyChanged)
        }),
{
    if s.package.is_some() && same_str(s.operation.as_str(), "root_rotation") && same_array(
        &s.item_id,
        bundle_vault,
    ) && has_package_only(s) && body.event_count == 0 && same_option(
        &body.object_manifest_digest,
        &Some(package_digest),
    ) && same_array(&body.events_manifest_digest, kind_digest) {
        Ok(())
    } else {
        Err(HumanCommitError::BodyChanged)
    }
}

/// What a staged import must hold: its numbers add up, and the body carries
/// the digests of its objects and of its manifest.
pub open spec fn import_valid(
    s: StagedModel,
    body: Body,
    batch: ImportBatch,
    object_digest: [u8; 32],
    manifest_digest: [u8; 32],
) -> bool {
    let report = batch.report@;
    let selected = report.new_items + report.replaced;
    &&& s.operation == "import_commit"@
    &&& s.item_id == batch.batch_id
    &&& s.package is None
    &&& package_only(s)
    &&& report.total == selected + report.skipped_exact + report.excluded
    &&& report.event_pages == pages_of(selected as int)
    &&& object_digest == batch.object_digest
    &&& body.event_count == selected + report.replaced
    &&& body.object_manifest_digest == Some(object_digest)
    &&& body.events_manifest_digest == manifest_digest
}

/// Checks a staged import.
pub fn validate_import(
    s: &Staged,
    body: &Body,
    batch: &ImportBatch,
    object_digest: [u8; 32],
    manifest_digest: &[u8; 32],
) -> (r: Result<(), HumanCommitError>)
    ensures
        r == (if import_valid(s@, *body, *batch, object_digest, *manifest_digest) {
            Ok::<(), HumanCommitError>(())
        } else {
            Err(HumanCommitError::BodyChanged)
        }),
{
    let report = &batch.report;
    let (total, new_items, replaced): (usize, usize, usize) = (
        report.total(),
        report.new_items(),
        report.replaced(),
    );
    let (skipped, excluded): (usize, usize) = (report.skipped_exact(), report.excluded());
    if new_items > total || replaced > total - new_items {
        return Err(HumanCommitError::BodyChanged);
    }
    let selected: usize = new_items + replaced;
    if skipped > total - selected || excluded != total - selected - skipped {
        return Err(HumanCommitError::BodyChanged);
    }
    let events: u128 = selected as u128 + replaced as u128;
    if same_str(s.operation.as_str(), "import_commit") && same_array(&s.item_id, &batch.batch_id)
        && s.package.is_none() && has_package_only(s) && report.event_pages() == event_pages(
        selected,
    ) && same_array(&object_digest, &batch.object_digest) && body.event_count as u128 == events
        && same_option(&body.object_manifest_digest, &Some(object_digest)) && same_array(
        &body.events_manifest_digest,
        manifest_digest,
    ) {
        Ok(())
    } else {
        Err(HumanCommitError::BodyChanged)
    }
}

/// What a staged restore of a backup must hold: the batch is unchanged, and
/// the body carries its digest, its events and its manifest.
pub open spec fn backup_restore_valid(
    s: StagedModel,
    body: Body,
    backup_id: [u8; 16],
    object_digest: [u8; 32],
    actual_digest: [u8; 32],
    event_count: u64,
    manifest_digest: [u8; 32],
) -> bool {
    &&& s.operation == "backup_restore"@
    &&& s.item_id == backup_id
    &&& s.package is None
    &&& package_only(s)
    &&& actual_digest == object_digest
    &&& body.event_count == event_count
    &&& body.object_manifest_digest == Some(object_digest)
    &&& body.events_manifest_digest == manifest_digest
}

/// Checks a staged restore of a backup.
pub fn validate_backup_restore(
    s: &Staged,
    body: &Body,
    backup_id: &[u8; 16],
    object_digest: [u8; 32],
    actual_digest: &[u8; 32],
    event_count: u64,
    manifest_digest: &[u8; 32],
) -> (r: Result<(), HumanCommitError>)
    ensures
        r == (if backup_restore_valid(
            s@,
            *body,
            *backup_id,
            object_digest,
            *actual_digest,
            event_count,
            *manifest_digest,
        ) {
            Ok::<(), HumanCommitError>(())
        } else {
            Err(HumanCommitError::BodyChanged)
        }),
{
    if same_str(s.operation.as_str(), "backup_restore") && same_array(&s.item_id, backup_id)
        && s.package.is_none() && has_package_only(s) && same_array(actual_digest, &object_digest)
        && body.event_count == event_count && same_option(
        &body.object_manifest_digest,
        &Some(object_digest),
    ) && same_array(&body.events_manifest_digest, manifest_digest) {
        Ok(())
    } else {
        Err(HumanCommitError::BodyChanged)
    }
}

/// What the object digest of a staged event is taken from.
pub enum ObjectSource {
    /// The staged streams and this revision.
    Streams(Vec<u8>),
    /// These bytes.
    Bytes(Vec<u8>),
    /// The confirmation of this purge.
    Purge(ItemPurgeBody),
    /// There is none.
    Nothing,
}

/// The contents of an [`ObjectSource`].
pub enum ObjectModel {
    Streams(Seq<u8>),
    Bytes(Seq<u8>),
    Purge(PurgeBodyModel),
    Nothing,
}

impl View for ObjectSource {
    type V = ObjectModel;

    open spec fn view(&self) -> ObjectModel {
        match self {
            ObjectSource::Streams(v) => ObjectModel::Streams(v@),
            ObjectSource::Bytes(v) => ObjectModel::Bytes(v@),
            ObjectSource::Purge(v) => ObjectModel::Purge(v@),
            ObjectSource::Nothing => ObjectModel::Nothing,
        }
    }
}

/// Bytes to digest, or nothing.
pub open spec fn object_bytes(b: Option<Seq<u8>>) -> ObjectModel {
    match b {
        Some(b) => ObjectModel::Bytes(b),
        None => ObjectModel::Nothing,
    }
}

/// What the object digest of a staged event is taken from.
pub open spec fn object_source_of(s: StagedModel, stream_count: i64) -> Result<
    ObjectModel,
    HumanCommitError,
> {
    if stream_count > 0 {
        match s.package {
            Some(p) => Ok(ObjectModel::Streams(p)),
            None => Err(HumanCommitError::BodyChanged),
        }
    } else if s.event_kind == "restore"@ {
        Ok(object_bytes(staged_authority_bytes(s.package, s.attachments, None, None)))
    } else if is_purge(s.event_kind) {
        match s.authority_body {
            Some(b) => match item_purge_body_of(b) {
                Some(m) => Ok(ObjectModel::Purge(m)),
                None => Err(HumanCommitError::InvalidCommand),
            },
            None => Err(HumanCommitError::BodyChanged),
        }
    } else {
        Ok(
            object_bytes(
                staged_authority_bytes(s.package, s.attachments, s.authority_body, s.staged_grant),
            ),
        )
    }
}

/// Bytes to digest, or nothing.
fn bytes_source(b: Option<Vec<u8>>) -> (r: ObjectSource)
    ensures
        r@ == object_bytes(opt_vec(b)),
{
    match b {
        Some(b) => ObjectSource::Bytes(b),
        None => ObjectSource::Nothing,
    }
}

/// Tells what the object digest of a staged event is taken from.
pub fn object_source(s: &Staged, stream_count: i64) -> (r: Result<ObjectSource, HumanCommitError>)
    ensures
        match object_source_of(s@, stream_count) {
            Ok(m) => r is Ok && (r->Ok_0)@ == m,
            Err(e) => r is Err && r->Err_0 == e,
        },
{
    let kind = s.event_kind.as_str();
    if stream_count > 0 {
        match &s.package {
            Some(p) => Ok(ObjectSource::Streams(slice_to_vec(p.as_slice()))),
            None => Err(HumanCommitError::BodyChanged),
        }
    } else if same_str(kind, "restore") {
        Ok(
            bytes_source(
                staged_authority(vec_slice(&s.package), vec_slice(&s.attachments), None, None),
            ),
        )
    } else if same_str(kind, "purge-item") || same_str(kind, "purge-revisions") {
        match &s.authority_body {
            Some(b) => match decode_item_purge_body(b.as_slice()) {
                Ok(body) => Ok(ObjectSource::Purge(body)),
                Err(e) => Err(HumanCommitError::InvalidCommand),
            },
            None => Err(HumanCommitError::BodyChanged),
        }
    } else {
        Ok(
            bytes_source(
                staged_authority(
                    vec_slice(&s.package),
                    vec_slice(&s.attachments),
                    vec_slice(&s.authority_body),
                    vec_slice(&s.staged_grant),
                ),
            ),
        )
    }
}

/// The manifest that the body of a staged event must carry; none where a
/// restore lacks a part.
pub open spec fn staged_manifest_of(
    s: StagedModel,
    object_digest: Option<[u8; 32]>,
    authority_digest: Option<[u8; 32]>,
) -> Option<Seq<u8>> {
    if s.event_kind == "restore"@ {
        match (s.revision_id, object_digest, authority_digest) {
            (Some(revision), Some(object_digest), Some(body_digest)) => Some(
                restore_manifest_bytes(
                    RestoreManifest { item: s.item_id, revision, object_digest, body_digest },
                ),
            ),
            _ => None,
        }
    } else {
        Some(
            event_manifest_bytes(
                EventManifestModel {
                    kind: s.event_kind,
                    item: s.item_id,
                    revision: s.revision_id,
                    object_digest,
                    audit_generation: s.audit_generation,
                    audit_through_seq: s.audit_through_seq,
                    authority_body_digest: authority_digest,
                },
            ),
        )
    }
}

/// The manifest that the body of a staged event must carry, given the digests
/// of its object and of its authority body.
pub fn staged_manifest(
    s: &Staged,
    object_digest: Option<[u8; 32]>,
    authority_digest: Option<[u8; 32]>,
) -> (r: Option<Vec<u8>>)
    ensures
        opt_vec(r) == staged_manifest_of(s@, object_digest, authority_digest),
{
    if same_str(s.event_kind.as_str(), "restore") {
        match (s.revision_id, object_digest, authority_digest) {
            (Some(revision), Some(object_digest), Some(body_digest)) => {
                let m = RestoreManifest { item: s.item_id, revision, object_digest, body_digest };
                Some(encode_restore_manifest(&m))
            },
            _ => None,
        }
    } else {
        let m = EventManifest {
            kind: s.event_kind.clone(),
            item: s.item_id,
            revision: s.revision_id,
            object_digest,
            audit_generation: s.audit_generation,
            audit_through_seq: s.audit_through_seq,
            authority_body_digest: authority_digest,
        };
        Some(encode_event_manifest(&m))
    }
}

/// Whether a transaction stages no revision, files or audit range.
pub open spec fn authority_only(s: StagedModel) -> bool {
    &&& s.revision_id is None
    &&& s.package is None
    &&& s.item_kind is None
    &&& s.attachments is None
    &&& s.audit_generation is None
    &&& s.audit_through_seq is None
}

/// Whether a transaction stages a whole revision and no audit range.
pub open spec fn revision_staged(s: StagedModel) -> bool {
    &&& s.revision_id is Some
    &&& s.package is Some
    &&& s.item_kind is Some
    &&& s.audit_generation is None
    &&& s.audit_through_seq is None
}

/// The staged files, where they decode.
pub open spec fn staged_files(s: StagedModel) -> Option<Seq<StagedAttachmentModel>> {
    match s.attachments {
        Some(b) => staged_attachments_of(b),
        None => None,
    }
}

/// Whether a staged authority change has a body that decodes as its kind asks.
pub open spec fn body_decodes(s: StagedModel) -> bool {
    match s.authority_body {
        Some(b) => if s.event_kind == "trash"@ || s.event_kind == "restore"@ {
            lifecycle_body_of(b) is Some
        } else if is_purge(s.event_kind) {
            match item_purge_body_of(b) {
                Some(m) => m.item == s.item_id && m.terminal == (s.event_kind == "purge-item"@),
                None => false,
            }
        } else if s.event_kind == "agent-grant"@ {
            agent_grant_body_of(b) is Some
        } else if s.event_kind == "resume"@ {
            resume_body_of(b) is Some
        } else if s.event_kind == "enable"@ {
            enable_body_of(b) is Some
        } else {
            reason_body_of(b) is Some
        },
        None => false,
    }
}

/// Whether a staged event has the parts that its kind asks for, and no others
/// that matter.
pub open spec fn event_shaped(s: StagedModel, stream_count: i64) -> bool {
    if s.event_kind == "item-revision"@ {
        &&& s.operation == "item_write"@
        &&& revision_staged(s)
        &&& staged_files(s) is Some || stream_count > 0
        &&& s.subject_generation is None
        &&& s.authority_body is None
        &&& s.staged_grant is None
    } else if s.event_kind == "trash"@ {
        &&& s.operation == "item_lifecycle"@
        &&& authority_only(s)
        &&& s.subject_generation == Some(1u64)
        &&& body_decodes(s)
        &&& s.staged_grant is None
    } else if s.event_kind == "restore"@ {
        &&& s.operation == "history_restore"@
        &&& revision_staged(s)
        &&& staged_files(s) is Some
        &&& stream_count == 0 || staged_files(s)->0.len() == 0
        &&& s.subject_generation == Some(1u64)
        &&& body_decodes(s)
        &&& s.staged_grant is None
    } else if is_purge(s.event_kind) {
        &&& s.operation == "item_purge"@
        &&& authority_only(s)
        &&& s.subject_generation == Some(1u64)
        &&& body_decodes(s)
        &&& s.staged_grant is None
    } else if s.event_kind == "audit-purge"@ {
        &&& s.operation == "audit_purge"@
        &&& s.revision_id is None
        &&& s.package is None
        &&& s.item_kind is None
        &&& s.attachments is None
        &&& s.audit_generation is Some
        &&& s.audit_through_seq is Some
        &&& s.subject_generation is None
        &&& s.authority_body is None
        &&& s.staged_grant is None
    } else if s.event_kind == "agent-grant"@ || s.event_kind == "agent-revoke"@ {
        &&& s.operation == "identity_change"@
        &&& s.subject_generation is Some
        &&& body_decodes(s)
        &&& s.package is None
        &&& s.staged_grant is None
    } else if s.event_kind == "enable"@ {
        &&& s.operation == "availability_change"@
        &&& s.subject_generation == Some(1u64)
        &&& body_decodes(s)
        &&& s.package is Some
        &&& s.staged_grant is Some
    } else if s.event_kind == "suspend"@ || s.event_kind == "resume"@ || s.event_kind
        == "disable"@ {
        &&& s.operation == "availability_change"@
        &&& s.subject_generation == Some(1u64)
        &&& body_decodes(s)
        &&& s.package is None
        &&& s.staged_grant is None
    } else {
        false
    }
}

/// Whether a generation is the first.
fn is_first(generation: Option<u64>) -> (r: bool)
    ensures
        r == (generation == Some(1u64)),
{
    match generation {
        Some(n) => n == 1,
        None => false,
    }
}

/// Whether a transaction stages no revision, files or audit range.
fn has_authority_only(s: &Staged) -> (r: bool)
    ensures
        r == authority_only(s@),
{
    s.revision_id.is_none() && s.package.is_none() && s.item_kind.is_none()
        && s.attachments.is_none() && s.audit_generation.is_none() && s.audit_through_seq.is_none()
}

/// Whether a transaction stages a whole revision and no audit range.
fn has_revision(s: &Staged) -> (r: bool)
    ensures
        r == revision_staged(s@),
{
    s.revision_id.is_some() && s.package.is_some() && s.item_kind.is_some()
        && s.audit_generation.is_none() && s.audit_through_seq.is_none()
}

/// How many files are staged, where they decode.
fn count_files(s: &Staged) -> (r: Option<usize>)
    ensures
        match staged_files(s@) {
            Some(v) => r is Some && r->0 == v.len(),
            None => r is None,
        },
{
    match &s.attachments {
        Some(b) => match decode_staged_attachments(b.as_slice()) {
            Ok(v) => Some(v.len()),
            Err(_) => None,
        },
        None => None,
    }
}

/// Whether a staged authority change has a body that decodes as its kind asks.
fn has_body(s: &Staged) -> (r: bool)
    ensures
        r == body_decodes(s@),
{
    let kind = s.event_kind.as_str();
    match &s.authority_body {
        Some(b) => if same_str(kind, "trash") || same_str(kind, "restore") {
            decode_lifecycle_body(b.as_slice()).is_ok()
        } else if same_str(kind, "purge-item") || same_str(kind, "purge-revisions") {
            match decode_item_purge_body(b.as_slice()) {
                Ok(m) => same_array(&m.item, &s.item_id) && m.terminal == same_str(
                    kind,
                    "purge-item",
                ),
                Err(_) => false,
            }
        } else if same_str(kind, "agent-grant") {
            decode_agent_grant_body(b.as_slice()).is_ok()
        } else if same_str(kind, "resume") {
            decode_resume_body(b.as_slice()).is_ok()
        } else if same_str(kind, "enable") {
            decode_enable_body(b.as_slice()).is_ok()
        } else {
            decode_reason_body(b.as_slice()).is_ok()
        },
        None => false,
    }
}

/// Whether a staged event has the parts that its kind asks for.
pub fn valid_shape(s: &Staged, stream_count: i64) -> (r: bool)
    ensures
        r == event_shaped(s@, stream_count),
{
    let kind = s.event_kind.as_str();
    let operation = s.operation.as_str();
    if same_str(kind, "item-revision") {
        same_str(operation, "item_write") && has_revision(s) && (count_files(s).is_some()
            || stream_count > 0) && s.subject_generation.is_none() && s.authority_body.is_none()
            && s.staged_grant.is_none()
    } else if same_str(kind, "trash") {
        same_str(operation, "item_lifecycle") && has_authority_only(s) && is_first(
            s.subject_generation,
        ) && has_body(s) && s.staged_grant.is_none()
    } else if same_str(kind, "restore") {
        let alone = match count_files(s) {
            Some(files) => stream_count == 0 || files == 0,
            None => false,
        };
        same_str(operation, "history_restore") && has_revision(s) && alone && is_first(
            s.subject_generation,
        ) && has_body(s) && s.staged_grant.is_none()
    } else if same_str(kind, "purge-item") || same_str(kind, "purge-revisions") {
        same_str(operation, "item_purge") && has_authority_only(s) && is_first(
            s.subject_generation,
        ) && has_body(s) && s.staged_grant.is_none()
    } else if same_str(kind, "audit-purge") {
        same_str(operation, "audit_purge") && s.revision_id.is_none() && s.package.is_none()
            && s.item_kind.is_none() && s.attachments.is_none() && s.audit_generation.is_some()
            && s.audit_through_seq.is_some() && s.subject_generation.is_none()
            && s.authority_body.is_none() && s.staged_grant.is_none()
    } else if same_str(kind, "agent-grant") || same_str(kind, "agent-revoke") {
        same_str(operation, "identity_change") && s.subject_generation.is_some() && has_body(s)
            && s.package.is_none() && s.staged_grant.is_none()
    } else if same_str(kind, "enable") {
        same_str(operation, "availability_change") && is_first(s.subject_generation) && has_body(s)
            && s.package.is_some() && s.staged_grant.is_some()
    } else if same_str(kind, "suspend") || same_str(kind, "resume") || same_str(kind, "disable") {
        same_str(operation, "availability_change") && is_first(s.subject_generation) && has_body(s)
            && s.package.is_none() && s.staged_grant.is_none()
    } else {
        false
    }
}

/// The row of an item: its visible revision and its status.
pub struct ItemRow {
    pub visible: Vec<u8>,
    pub status: String,
}

/// What is stored of the subject of an event when it is to be committed.
pub struct SubjectState {
    /// The events on the subject, in the order of their digests.
    pub events: Vec<AuthorityRow>,
    /// The item, where there is one.
    pub item: Option<ItemRow>,
    /// The retained revisions of the item, in order.
    pub revisions: Vec<[u8; 16]>,
}

/// Compares the digests that a body lists with the stored events of the kinds.
pub open spec fn listed(
    digests: Seq<[u8; 32]>,
    events: Seq<AuthorityRowModel>,
    kinds: Seq<&'static str>,
) -> Result<(), HumanCommitError> {
    match digests_of(events, kinds, events.len() as int) {
        Some(v) => if digest_bytes(digests) == v {
            Ok(())
        } else {
            Err(HumanCommitError::StateChanged)
        },
        None => Err(HumanCommitError::InvalidCommand),
    }
}

/// Whether all of `revisions` are retained, and none is visible.
pub open spec fn all_hidden(
    revisions: Seq<[u8; 16]>,
    visible: Seq<u8>,
    retained: Seq<[u8; 16]>,
) -> bool {
    forall|i: int|
        0 <= i < revisions.len() ==> (#[trigger] revisions[i])@ != visible && retained.contains(
            revisions[i],
        )
}

/// Whether all of `revisions` are retained, and none is visible.
fn hidden_revisions(
    revisions: &Vec<[u8; 16]>,
    visible: &[u8; 16],
    retained: &Vec<[u8; 16]>,
) -> (r: bool)
    ensures
        r == all_hidden(revisions@, visible@, retained@),
{
    let mut i: usize = 0;
    while i < revisions.len()
        invariant
            i <= revisions@.len(),
            forall|j: int|
                0 <= j < i ==> (#[trigger] revisions@[j])@ != visible@ && retained@.contains(
                    revisions@[j],
                ),
        decreases revisions@.len() - i,
    {
        let shown = same_array(&revisions[i], visible);
        proof {
            if revisions@[i as int]@ == visible@ {
                lemma_same_array(revisions@[i as int], *visible);
            }
        }
        if shown || !holds(retained, &revisions[i]) {
            assert(!(revisions@[i as int]@ != visible@ && retained@.contains(
                revisions@[i as int],
            )));
            return false;
        }
        i += 1;
    }
    true
}

/// Whether a purge still fits the item: all revisions of an item in the trash,
/// or retained revisions that are not visible.
pub open spec fn purge_current(m: PurgeBodyModel, state: SubjectState) -> Result<
    (),
    HumanCommitError,
> {
    match state.item {
        Some(row) => if row.visible@.len() != 16 {
            Err(HumanCommitError::InvalidCommand)
        } else if m.terminal {
            if row.status@ == "trash"@ && state.revisions@ == m.revisions {
                Ok(())
            } else {
                Err(HumanCommitError::StateChanged)
            }
        } else if all_hidden(m.revisions, row.visible@, state.revisions@) {
            Ok(())
        } else {
            Err(HumanCommitError::StateChanged)
        },
        None => Err(HumanCommitError::StateChanged),
    }
}

/// What the stored state says of a well-shaped event.
pub open spec fn state_verdict(s: StagedModel, state: SubjectState) -> Result<
    (),
    HumanCommitError,
> {
    let events = views(state.events@);
    let b = s.authority_body->0;
    if s.event_kind == "agent-grant"@ {
        listed(agent_grant_body_of(b)->0.predecessors, events, seq!["agent-grant"])
    } else if s.event_kind == "resume"@ {
        listed(resume_body_of(b)->0, events, seq!["suspend"])
    } else if s.event_kind == "enable"@ {
        let m = enable_body_of(b)->0;
        match listed(m.positives, events, seq!["enable"]) {
            Ok(()) => listed(
                m.withdrawals,
                events,
                seq!["disable", "trash", "purge-item", "purge-revisions"],
            ),
            Err(e) => Err(e),
        }
    } else if s.event_kind == "trash"@ || s.event_kind == "restore"@ {
        listed(lifecycle_body_of(b)->0, events, seq!["trash"])
    } else if is_purge(s.event_kind) {
        purge_current(item_purge_body_of(b)->0, state)
    } else {
        Ok(())
    }
}

/// What is wrong with a staged event, if anything: its confirmation, then the
/// stored state, then its shape and the digests in the body.
pub open spec fn event_verdict(
    s: StagedModel,
    body: Body,
    stream_count: i64,
    object_digest: Option<[u8; 32]>,
    manifest_digest: Option<[u8; 32]>,
    state: SubjectState,
) -> Result<(), HumanCommitError> {
    let shaped = event_shaped(s, stream_count);
    if is_purge(s.event_kind) && stream_count <= 0 && body.object_manifest_digest
        != object_digest {
        Err(HumanCommitError::StateChanged)
    } else if shaped && state_verdict(s, state) is Err {
        state_verdict(s, state)
    } else if shaped && body.event_count == (if s.event_kind == "restore"@ {
        2u64
    } else {
        1u64
    }) && body.object_manifest_digest == object_digest && manifest_digest == Some(
        body.events_manifest_digest,
    ) {
        Ok(())
    } else {
        Err(HumanCommitError::BodyChanged)
    }
}

/// Lists of digests with the same bytes are the same.
pub proof fn lemma_digest_bytes(a: Seq<[u8; 32]>, b: Seq<[u8; 32]>)
    requires
        digest_bytes(a) == digest_bytes(b),
    ensures
        a == b,
{
    assert(digest_bytes(a).len() == a.len());
    assert(digest_bytes(b).len() == b.len());
    assert forall|i: int| 0 <= i < a.len() implies a[i] == b[i] by {
        assert(digest_bytes(a)[i] == digest_bytes(b)[i]);
        lemma_same_array(a[i], b[i]);
    }
    assert(a =~= b);
}

/// Compares the digests that a body lists with the stored events of the kinds.
fn check_listed(
    digests: &Vec<[u8; 32]>,
    events: &Vec<AuthorityRow>,
    kinds: &[&'static str],
) -> (r: Result<(), HumanCommitError>)
    ensures
        r == listed(digests@, views(events@), kinds@),
{
    match authority_digests(events, kinds) {
        Ok(v) => {
            let equal = same_list(digests, &v);
            proof {
                if digest_bytes(digests@) == digest_bytes(v@) {
                    lemma_digest_bytes(digests@, v@);
                }
            }
            if equal {
                Ok(())
            } else {
                Err(HumanCommitError::StateChanged)
            }
        },
        Err(_) => Err(HumanCommitError::InvalidCommand),
    }
}

/// Whether a purge still fits the item.
pub fn validate_purge_against_current(m: &ItemPurgeBody, state: &SubjectState) -> (r: Result<
    (),
    HumanCommitError,
>)
    ensures
        r == purge_current(m@, *state),
{
    match &state.item {
        Some(row) => {
            let visible = match fixed16(row.visible.as_slice()) {
                Some(v) => v,
                None => {
                    return Err(HumanCommitError::InvalidCommand);
                },
            };
            if m.terminal {
                return if same_str(row.status.as_str(), "trash") && same_list(
                    &state.revisions,
                    &m.revisions,
                ) {
                    Ok(())
                } else {
                    Err(HumanCommitError::StateChanged)
                };
            }
            if hidden_revisions(&m.revisions, &visible, &state.revisions) {
                Ok(())
            } else {
                Err(HumanCommitError::StateChanged)
            }
        },
        None => Err(HumanCommitError::StateChanged),
    }
}

/// What the stored state says of a well-shaped event.
fn check_state(s: &Staged, state: &SubjectState, stream_count: i64) -> (r: Result<
    (),
    HumanCommitError,
>)
    requires
        event_shaped(s@, stream_count),
    ensures
        r == state_verdict(s@, *state),
{
    proof {
        lemma_kinds();
    }
    let kind = s.event_kind.as_str();
    let body: &[u8] = match &s.authority_body {
        Some(b) => b.as_slice(),
        None => {
            return Ok(());
        },
    };
    if same_str(kind, "agent-grant") {
        let kinds: [&'static str; 1] = ["agent-grant"];
        assert(kinds@ =~= seq!["agent-grant"]);
        match decode_agent_grant_body(body) {
            Ok(m) => check_listed(&m.predecessors, &state.events, &kinds),
            Err(e) => Err(e),
        }
    } else if same_str(kind, "resume") {
        let kinds: [&'static str; 1] = ["suspend"];
        assert(kinds@ =~= seq!["suspend"]);
        match decode_resume_body(body) {
            Ok(m) => check_listed(&m, &state.events, &kinds),
            Err(e) => Err(e),
        }
    } else if same_str(kind, "enable") {
        let positive: [&'static str; 1] = ["enable"];
        assert(positive@ =~= seq!["enable"]);
        let withdrawn: [&'static str; 4] = ["disable", "trash", "purge-item", "purge-revisions"];
        assert(withdrawn@ =~= seq!["disable", "trash", "purge-item", "purge-revisions"]);
        match decode_enable_body(body) {
            Ok(m) => match check_listed(&m.positives, &state.events, &positive) {
                Ok(()) => check_listed(&m.withdrawals, &state.events, &withdrawn),
                Err(e) => Err(e),
            },
            Err(e) => Err(e),
        }
    } else if same_str(kind, "trash") || same_str(kind, "restore") {
        let kinds: [&'static str; 1] = ["trash"];
        assert(kinds@ =~= seq!["trash"]);
        match decode_lifecycle_body(body) {
            Ok(m) => check_listed(&m, &state.events, &kinds),
            Err(e) => Err(e),
        }
    } else if same_str(kind, "purge-item") || same_str(kind, "purge-revisions") {
        match decode_item_purge_body(body) {
            Ok(m) => validate_purge_against_current(&m, state),
            Err(e) => Err(e),
        }
    } else {
        Ok(())
    }
}

/// The kinds of events are told apart by length and letters.
pub proof fn lemma_kinds()
    ensures
        "item-revision"@.len() == 13,
        "trash"@.len() == 5,
        "restore"@.len() == 7 && "restore"@[0] == 'r',
        "purge-item"@.len() == 10,
        "purge-revisions"@.len() == 15,
        "audit-purge"@.len() == 11 && "audit-purge"@[1] == 'u',
        "agent-grant"@.len() == 11 && "agent-grant"@[1] == 'g',
        "agent-revoke"@.len() == 12,
        "suspend"@.len() == 7 && "suspend"@[0] == 's',
        "resume"@.len() == 6 && "resume"@[0] == 'r',
        "enable"@.len() == 6 && "enable"@[0] == 'e',
        "disable"@.len() == 7 && "disable"@[0] == 'd',
{
    reveal_strlit("item-revision");
    reveal_strlit("trash");
    reveal_strlit("restore");
    reveal_strlit("purge-item");
    reveal_strlit("purge-revisions");
    reveal_strlit("audit-purge");
    reveal_strlit("agent-grant");
    reveal_strlit("agent-revoke");
    reveal_strlit("suspend");
    reveal_strlit("resume");
    reveal_strlit("enable");
    reveal_strlit("disable");
}

/// Checks a staged event against its body, the digests taken from it and the
/// stored state.
pub fn validate_event(
    s: &Staged,
    body: &Body,
    stream_count: i64,
    object_digest: &Option<[u8; 32]>,
    manifest_digest: &Option<[u8; 32]>,
    state: &SubjectState,
) -> (r: Result<(), HumanCommitError>)
    ensures
        r == event_verdict(
            s@,
            *body,
            stream_count,
            *object_digest,
            *manifest_digest,
            *state,
        ),
{
    let kind = s.event_kind.as_str();
    let unconfirmed = !same_option(&body.object_manifest_digest, object_digest);
    if (same_str(kind, "purge-item") || same_str(kind, "purge-revisions")) && stream_count <= 0
        && unconfirmed {
        return Err(HumanCommitError::StateChanged);
    }
    if !valid_shape(s, stream_count) {
        return Err(HumanCommitError::BodyChanged);
    }
    match check_state(s, state, stream_count) {
        Ok(()) => {},
        Err(e) => {
            return Err(e);
        },
    }
    let events: u64 = if same_str(kind, "restore") {
        2
    } else {
        1
    };
    if body.event_count == events && !unconfirmed && same_option(
        manifest_digest,
        &Some(body.events_manifest_digest),
    ) {
        Ok(())
    } else {
        Err(HumanCommitError::BodyChanged)
    }
}

/// What was read and computed to check a staged transaction with.
#[allow(inconsistent_fields)]
pub enum StagedFacts {
    /// The vault of the staged bundle, and the digests of the bundle and of the
    /// kind.
    Rotation { bundle_vault: [u8; 16], package_digest: [u8; 32], kind_digest: [u8; 32] },
    /// The staged batch, and the digests of its objects and of its manifest.
    Import { batch: ImportBatch, object_digest: [u8; 32], manifest_digest: [u8; 32] },
    /// The staged batch: what it was declared as and what it is.
    BackupRestore {
        backup_id: [u8; 16],
        object_digest: [u8; 32],
        actual_digest: [u8; 32],
        event_count: u64,
        manifest_digest: [u8; 32],
    },
    /// The digests of a single event, and the stored state of its subject.
    Event {
        stream_count: i64,
        object_digest: Option<[u8; 32]>,
        manifest_digest: Option<[u8; 32]>,
        state: SubjectState,
    },
}

/// What is wrong with a staged transaction, if anything; facts of the wrong
/// sort count as a changed body.
pub open spec fn staged_verdict(s: StagedModel, body: Body, facts: StagedFacts) -> Result<
    (),
    HumanCommitError,
> {
    let changed = Err::<(), HumanCommitError>(HumanCommitError::BodyChanged);
    if is_rotation(s.event_kind) {
        match facts {
            StagedFacts::Rotation { bundle_vault, package_digest,
                kind_digest } => if rotation_valid(
                s,
                body,
                bundle_vault,
                package_digest,
                kind_digest,
            ) {
                Ok(())
            } else {
                changed
            },
            _ => changed,
        }
    } else if s.event_kind == "import-batch"@ {
        match facts {
            StagedFacts::Import { batch, object_digest, manifest_digest } => if import_valid(
                s,
                body,
                batch,
                object_digest,
                manifest_digest,
            ) {
                Ok(())
            } else {
                changed
            },
            _ => changed,
        }
    } else if s.event_kind == "backup-restore"@ {
        match facts {
            StagedFacts::BackupRestore {
                backup_id,
                object_digest,
                actual_digest,
                event_count,
                manifest_digest,
            } => if backup_restore_valid(
                s,
                body,
                backup_id,
                object_digest,
                actual_digest,
                event_count,
                manifest_digest,
            ) {
                Ok(())
            } else {
                changed
            },
            _ => changed,
        }
    } else {
        match facts {
            StagedFacts::Event { stream_count, object_digest, manifest_digest, state } =>
                event_verdict(s, body, stream_count, object_digest, manifest_digest, state),
            _ => changed,
        }
    }
}

/// Checks a staged transaction before it is applied.
pub fn validate_staged(s: &Staged, body: &Body, facts: &StagedFacts) -> (r: Result<
    (),
    HumanCommitError,
>)
    ensures
        r == staged_verdict(s@, *body, *facts),
{
    let kind = s.event_kind.as_str();
    if same_str(kind, "root-password-rotate") || same_str(kind, "root-recovery-rotate") {
        match facts {
            StagedFacts::Rotation { bundle_vault, package_digest, kind_digest } =>
                validate_rotation(s, body, bundle_vault, *package_digest, kind_digest),
            _ => Err(HumanCommitError::BodyChanged),
        }
    } else if same_str(kind, "import-batch") {
        match facts {
            StagedFacts::Import { batch, object_digest, manifest_digest } => validate_import(
                s,
                body,
                batch,
                *object_digest,
                manifest_digest,
            ),
            _ => Err(HumanCommitError::BodyChanged),
        }
    } else if same_str(kind, "backup-restore") {
        match facts {
            StagedFacts::BackupRestore {
                backup_id,
                object_digest,
                actual_digest,
                event_count,
                manifest_digest,
            } => validate_backup_restore(
                s,
                body,
                backup_id,
                *object_digest,
                actual_digest,
                *event_count,
                manifest_digest,
            ),
            _ => Err(HumanCommitError::BodyChanged),
        }
    } else {
        match facts {
            StagedFacts::Event { stream_count, object_digest, manifest_digest, state } =>
                validate_event(s, body, *stream_count, object_digest, manifest_digest, state),
            _ => Err(HumanCommitError::BodyChanged),
        }
    }
}

/// What is hashed of a staged revision: the package, and the files where there
/// are any.
pub proof fn lemma_object_parts(package: Seq<u8>, attachments: Option<Seq<u8>>)
    requires
        staged_object_bytes(package, attachments).len() <= u64::MAX,
    ensures
        ({
            let head = take_array(staged_object_bytes(package, attachments));
            let first = next_bytes(after(head));
            let second = next_optional_bytes(after(first));
            &&& head is Some && (head->0).0 == 2
            &&& first is Some && (first->0).0 == package
            &&& second is Some && (second->0).0 == attachments
            &&& (second->0).1.len() == 0
        }),
{
    let t2 = Seq::<u8>::empty();
    let t1 = optional_bytes_item(attachments) + t2;
    let t0 = bytes_item(package) + t1;
    assert(staged_object_bytes(package, attachments) == array_head(2) + t0);
    lemma_array(2, t0);
    lemma_bytes_within(package, t1);
    lemma_optional_bytes(attachments, t2);
}

/// What is hashed of a staged change of authority: the package, the files, the
/// body and the grant, each where there is one, in this order.
pub proof fn lemma_staged_parts(
    package: Option<Seq<u8>>,
    attachments: Option<Seq<u8>>,
    authority_body: Option<Seq<u8>>,
    staged_grant: Option<Seq<u8>>,
)
    requires
        staged_parts_bytes(package, attachments, authority_body, staged_grant).len() <= u64::MAX,
    ensures
        ({
            let head = take_array(
                staged_parts_bytes(package, attachments, authority_body, staged_grant),
            );
            let first = next_optional_bytes(after(head));
            let second = next_optional_bytes(after(first));
            let third = next_optional_bytes(after(second));
            let fourth = next_optional_bytes(after(third));
            &&& head is Some && (head->0).0 == 4
            &&& first is Some && (first->0).0 == package
            &&& second is Some && (second->0).0 == attachments
            &&& third is Some && (third->0).0 == authority_body
            &&& fourth is Some && (fourth->0).0 == staged_grant
            &&& (fourth->0).1.len() == 0
        }),
{
    let t4 = Seq::<u8>::empty();
    let t3 = optional_bytes_item(staged_grant) + t4;
    let t2 = optional_bytes_item(authority_body) + t3;
    let t1 = optional_bytes_item(attachments) + t2;
    let t0 = optional_bytes_item(package) + t1;
    assert(staged_parts_bytes(package, attachments, authority_body, staged_grant) == array_head(4)
        + t0);
    lemma_array(4, t0);
    lemma_optional_bytes(package, t1);
    lemma_optional_bytes(attachments, t2);
    lemma_optional_bytes(authority_body, t3);
    lemma_optional_bytes(staged_grant, t4);
}

/// What is staged without a body and a grant is hashed as an object; where there
/// is no package either, there is nothing to hash.
pub proof fn lemma_staged_object(
    package: Option<Seq<u8>>,
    attachments: Option<Seq<u8>>,
    authority_body: Option<Seq<u8>>,
    staged_grant: Option<Seq<u8>>,
)
    ensures
        ({
            let r = staged_authority_bytes(package, attachments, authority_body, staged_grant);
            &&& authority_body is Some || staged_grant is Some ==> r == Some(
                staged_parts_bytes(package, attachments, authority_body, staged_grant),
            )
            &&& authority_body is None && staged_grant is None && package is None ==> r is None
            &&& authority_body is None && staged_grant is None && package is Some ==> r == Some(
                staged_object_bytes(package->0, attachments),
            )
        }),
{
}

/// What is hashed of a stream: its name and its package, each file's identifier,
/// header and number of chunks, and each chunk under its file and its place;
/// every part whose length varies behind its length.
pub proof fn lemma_stream_parts(id: Seq<u8>, part: Seq<u8>, n: i64)
    requires
        id.len() == 16,
        n >= 0,
    ensures
        ({
            let k = encode_utf8("pm/staged-stream/v1"@).len() as int;
            let b = stream_start_bytes(part);
            &&& b.len() == k + 8 + part.len()
            &&& b.subrange(0, k) == encode_utf8("pm/staged-stream/v1"@)
            &&& b.subrange(k, k + 8) == be64(part.len() as u64)
            &&& b.subrange(k + 8, b.len() as int) == part
        }),
        ({
            let b = stream_header_bytes(id, part, n);
            let k = part.len() as int;
            &&& b.len() == 32 + k
            &&& b.subrange(0, 16) == id
            &&& b.subrange(16, 24) == be64(k as u64)
            &&& b.subrange(24, 24 + k) == part
            &&& b.subrange(24 + k, 32 + k) == be64(n as u64)
        }),
        ({
            let b = stream_chunk_bytes(id, n, part);
            let k = part.len() as int;
            &&& b.len() == 32 + k
            &&& b.subrange(0, 16) == id
            &&& b.subrange(16, 24) == be64(n as u64)
            &&& b.subrange(24, 32) == be64(k as u64)
            &&& b.subrange(32, 32 + k) == part
        }),
{
    let name = encode_utf8("pm/staged-stream/v1"@);
    let k = name.len() as int;
    let l = part.len() as int;
    let b = stream_start_bytes(part);
    assert(be64(l as u64).len() == 8);
    assert(be64(n as u64).len() == 8);
    assert(b.subrange(0, k) =~= name);
    assert(b.subrange(k, k + 8) =~= be64(l as u64));
    assert(b.subrange(k + 8, b.len() as int) =~= part);
    let h = stream_header_bytes(id, part, n);
    assert(h.subrange(0, 16) =~= id);
    assert(h.subrange(16, 24) =~= be64(l as u64));
    assert(h.subrange(24, 24 + l) =~= part);
    assert(h.subrange(24 + l, 32 + l) =~= be64(n as u64));
    let c = stream_chunk_bytes(id, n, part);
    assert(c.subrange(0, 16) =~= id);
    assert(c.subrange(16, 24) =~= be64(n as u64));
    assert(c.subrange(24, 32) =~= be64(l as u64));
    assert(c.subrange(32, 32 + l) =~= part);
}

/// A rotation of the root is accepted where it stages a package for this vault
/// and nothing else, under the digests that were signed, and counts no event.
pub proof fn lemma_rotation_accepted(
    s: StagedModel,
    body: Body,
    bundle_vault: [u8; 16],
    package_digest: [u8; 32],
    kind_digest: [u8; 32],
)
    requires
        s.event_kind == "root-password-rotate"@ || s.event_kind == "root-recovery-rotate"@,
    ensures
        ({
            let facts = StagedFacts::Rotation { bundle_vault, package_digest, kind_digest };
            let r = staged_verdict(s, body, facts);
            let same = body.event_count == 0 && body.object_manifest_digest == Some(package_digest)
                && body.events_manifest_digest == kind_digest;
            let alone = s.revision_id is None && s.item_kind is None && s.attachments is None
                && s.audit_generation is None && s.audit_through_seq is None
                && s.subject_generation is None && s.authority_body is None
                && s.staged_grant is None;
            &&& r is Ok <==> same && alone && s.package is Some && s.operation
                == "root_rotation"@ && s.item_id == bundle_vault
            &&& r is Err ==> r == Err::<(), _>(HumanCommitError::BodyChanged)
        }),
{
}

/// An import is accepted where it stages its batch and nothing else, the batch is
/// as it was counted and hashed, its pages hold its items, and there is an event
/// for each item and one more for each that is replaced.
pub proof fn lemma_import_accepted(
    s: StagedModel,
    body: Body,
    batch: ImportBatch,
    object_digest: [u8; 32],
    manifest_digest: [u8; 32],
)
    requires
        s.event_kind == "import-batch"@,
        staged_verdict(
            s,
            body,
            StagedFacts::Import { batch, object_digest, manifest_digest },
        ) is Ok,
    ensures
        s.operation == "import_commit"@,
        s.item_id == batch.batch_id,
        s.package is None,
        s.revision_id is None,
        s.item_kind is None,
        s.attachments is None,
        s.audit_generation is None,
        s.audit_through_seq is None,
        s.subject_generation is None,
        s.authority_body is None,
        s.staged_grant is None,
        batch.report@.total == batch.report@.new_items + batch.report@.replaced
            + batch.report@.skipped_exact + batch.report@.excluded,
        batch.report@.event_pages * 64 >= batch.report@.new_items + batch.report@.replaced,
        batch.report@.event_pages >= 1,
        (batch.report@.event_pages - 1) * 64 < batch.report@.new_items + batch.report@.replaced
            || batch.report@.event_pages == 1,
        object_digest == batch.object_digest,
        body.event_count == batch.report@.new_items + 2 * batch.report@.replaced,
        body.object_manifest_digest == Some(object_digest),
        body.events_manifest_digest == manifest_digest,
{
    lemma_special_kinds();
    lemma_pages((batch.report@.new_items + batch.report@.replaced) as int);
}

/// An import that is as it was counted and hashed is accepted.
pub proof fn lemma_import_passes(
    s: StagedModel,
    body: Body,
    batch: ImportBatch,
    object_digest: [u8; 32],
    manifest_digest: [u8; 32],
)
    requires
        s.event_kind == "import-batch"@,
        s.operation == "import_commit"@,
        s.item_id == batch.batch_id,
        s.package is None,
        s.revision_id is None,
        s.item_kind is None,
        s.attachments is None,
        s.audit_generation is None,
        s.audit_through_seq is None,
        s.subject_generation is None,
        s.authority_body is None,
        s.staged_grant is None,
        batch.report@.total == batch.report@.new_items + batch.report@.replaced
            + batch.report@.skipped_exact + batch.report@.excluded,
        batch.report@.event_pages == pages_of(
            (batch.report@.new_items + batch.report@.replaced) as int,
        ),
        object_digest == batch.object_digest,
        body.event_count == batch.report@.new_items + 2 * batch.report@.replaced,
        body.object_manifest_digest == Some(object_digest),
        body.events_manifest_digest == manifest_digest,
    ensures
        staged_verdict(
            s,
            body,
            StagedFacts::Import { batch, object_digest, manifest_digest },
        ) is Ok,
{
    lemma_special_kinds();
}

/// The kinds that are staged as a whole.
proof fn lemma_special_kinds()
    ensures
        !is_rotation("import-batch"@),
        !is_rotation("backup-restore"@),
        "backup-restore"@ != "import-batch"@,
{
    reveal_strlit("import-batch");
    reveal_strlit("backup-restore");
    reveal_strlit("root-password-rotate");
    reveal_strlit("root-recovery-rotate");
    assert("import-batch"@.len() == 12);
    assert("backup-restore"@.len() == 14);
    assert("root-password-rotate"@.len() == 20);
    assert("root-recovery-rotate"@.len() == 20);
}

/// A restoration of a backup is accepted where it stages that backup and nothing
/// else, and what is there is what was counted and hashed.
pub proof fn lemma_restoration_accepted(
    s: StagedModel,
    body: Body,
    backup_id: [u8; 16],
    object_digest: [u8; 32],
    actual_digest: [u8; 32],
    event_count: u64,
    manifest_digest: [u8; 32],
)
    requires
        s.event_kind == "backup-restore"@,
    ensures
        ({
            let facts = StagedFacts::BackupRestore {
                backup_id,
                object_digest,
                actual_digest,
                event_count,
                manifest_digest,
            };
            let r = staged_verdict(s, body, facts);
            let same = actual_digest == object_digest && body.event_count == event_count
                && body.object_manifest_digest == Some(object_digest)
                && body.events_manifest_digest == manifest_digest;
            let alone = s.revision_id is None && s.package is None && s.item_kind is None
                && s.attachments is None && s.audit_generation is None
                    && s.audit_through_seq is None
                && s.subject_generation is None && s.authority_body is None
                && s.staged_grant is None;
            &&& r is Ok <==> same && alone && s.operation == "backup_restore"@ && s.item_id
                == backup_id
            &&& r is Err ==> r == Err::<(), _>(HumanCommitError::BodyChanged)
        }),
{
    lemma_special_kinds();
}

/// A single event is accepted only where it was staged as its kind is, its
/// subject stands as it says, it counts its events (two for a restored revision,
/// else one), and its digests are those that were signed.
pub proof fn lemma_event_accepted(
    s: StagedModel,
    body: Body,
    stream_count: i64,
    object_digest: Option<[u8; 32]>,
    manifest_digest: Option<[u8; 32]>,
    state: SubjectState,
)
    ensures
        event_verdict(s, body, stream_count, object_digest, manifest_digest, state) is Ok <==> {
            &&& event_shaped(s, stream_count)
            &&& state_verdict(s, state) is Ok
            &&& s.event_kind == "restore"@ ==> body.event_count == 2
            &&& s.event_kind != "restore"@ ==> body.event_count == 1
            &&& body.object_manifest_digest == object_digest
            &&& manifest_digest == Some(body.events_manifest_digest)
        },
        event_shaped(s, stream_count) && state_verdict(s, state) is Err && (stream_count > 0
            || body.object_manifest_digest == object_digest) ==> event_verdict(
            s,
            body,
            stream_count,
            object_digest,
            manifest_digest,
            state,
        ) == state_verdict(s, state),
        (s.event_kind == "purge-item"@ || s.event_kind == "purge-revisions"@) && stream_count <= 0
            && body.object_manifest_digest != object_digest ==> event_verdict(
            s,
            body,
            stream_count,
            object_digest,
            manifest_digest,
            state,
        ) == Err::<(), _>(HumanCommitError::StateChanged),
{
}

/// How a revision is staged: as a write of an item, with its package and its
/// kind and its files, or with streams, and nothing of authority.
pub proof fn lemma_revision_shape(s: StagedModel, stream_count: i64)
    requires
        s.event_kind == "item-revision"@,
    ensures
        event_shaped(s, stream_count) <==> {
            &&& s.operation == "item_write"@
            &&& s.revision_id is Some
            &&& s.package is Some
            &&& s.item_kind is Some
            &&& (s.attachments is Some && staged_attachments_of(s.attachments->0) is Some)
                || stream_count > 0
            &&& s.audit_generation is None
            &&& s.audit_through_seq is None
            &&& s.subject_generation is None
            &&& s.authority_body is None
            &&& s.staged_grant is None
        },
{
}

/// How a move to the trash and a purge are staged: with a body of their kind and
/// nothing else; a purge's body is of the item, and ends it where the item is
/// purged as a whole.
pub proof fn lemma_removal_shape(s: StagedModel, stream_count: i64)
    requires
        s.event_kind == "trash"@ || s.event_kind == "purge-item"@ || s.event_kind
            == "purge-revisions"@,
    ensures
        event_shaped(s, stream_count) <==> {
            &&& s.event_kind == "trash"@ ==> s.operation == "item_lifecycle"@
                && s.authority_body is Some && lifecycle_body_of(s.authority_body->0) is Some
            &&& s.event_kind != "trash"@ ==> s.operation == "item_purge"@
                && s.authority_body is Some && item_purge_body_of(s.authority_body->0) is Some && (
            item_purge_body_of(s.authority_body->0)->0).item == s.item_id && ((
            item_purge_body_of(s.authority_body->0)->0).terminal <==> s.event_kind
                == "purge-item"@)
            &&& s.revision_id is None
            &&& s.package is None
            &&& s.item_kind is None
            &&& s.attachments is None
            &&& s.audit_generation is None
            &&& s.audit_through_seq is None
            &&& s.subject_generation == Some(1u64)
            &&& s.staged_grant is None
        },
{
    lemma_kinds();
}

/// How a restored revision is staged: as one, with its package, its kind and its
/// files, and a body; streams come in place of the files' bytes.
pub proof fn lemma_restoration_shape(s: StagedModel, stream_count: i64)
    requires
        s.event_kind == "restore"@,
    ensures
        event_shaped(s, stream_count) <==> {
            &&& s.operation == "history_restore"@
            &&& s.revision_id is Some
            &&& s.package is Some
            &&& s.item_kind is Some
            &&& s.attachments is Some
            &&& staged_attachments_of(s.attachments->0) is Some
            &&& stream_count == 0 || (staged_attachments_of(s.attachments->0)->0).len() == 0
            &&& s.audit_generation is None
            &&& s.audit_through_seq is None
            &&& s.subject_generation == Some(1u64)
            &&& s.authority_body is Some
            &&& lifecycle_body_of(s.authority_body->0) is Some
            &&& s.staged_grant is None
        },
{
    lemma_kinds();
}

/// How a purge of the audit is staged: with the generation and the last record,
/// and nothing else.
pub proof fn lemma_audit_purge_shape(s: StagedModel, stream_count: i64)
    requires
        s.event_kind == "audit-purge"@,
    ensures
        event_shaped(s, stream_count) <==> {
            &&& s.operation == "audit_purge"@
            &&& s.audit_generation is Some
            &&& s.audit_through_seq is Some
            &&& s.revision_id is None
            &&& s.package is None
            &&& s.item_kind is None
            &&& s.attachments is None
            &&& s.subject_generation is None
            &&& s.authority_body is None
            &&& s.staged_grant is None
        },
{
    lemma_kinds();
}

/// How changes of identities and of availability are staged: each with a body of
/// its own kind; only what enables an item carries a package and a grant.
pub proof fn lemma_authority_shape(s: StagedModel, stream_count: i64)
    requires
        s.event_kind == "agent-grant"@ || s.event_kind == "agent-revoke"@ || s.event_kind
            == "enable"@ || s.event_kind == "disable"@ || s.event_kind == "suspend"@
            || s.event_kind == "resume"@,
    ensures
        event_shaped(s, stream_count) <==> {
            let identity = s.event_kind == "agent-grant"@ || s.event_kind == "agent-revoke"@;
            &&& identity ==> s.operation == "identity_change"@ && s.subject_generation is Some
            &&& !identity ==> s.operation == "availability_change"@ && s.subject_generation
                == Some(1u64)
            &&& s.authority_body is Some
            &&& s.event_kind == "agent-grant"@ ==> agent_grant_body_of(
                s.authority_body->0,
            ) is Some
            &&& s.event_kind == "enable"@ ==> enable_body_of(s.authority_body->0) is Some
            &&& s.event_kind == "resume"@ ==> resume_body_of(s.authority_body->0) is Some
            &&& s.event_kind == "agent-revoke"@ || s.event_kind == "disable"@ || s.event_kind
                == "suspend"@ ==> reason_body_of(s.authority_body->0) is Some
            &&& s.event_kind == "enable"@ ==> s.package is Some && s.staged_grant is Some
            &&& s.event_kind != "enable"@ ==> s.package is None && s.staged_grant is None
        },
{
    lemma_kinds();
}

/// An event of any other kind is never accepted on its own.
pub proof fn lemma_unknown_shape(s: StagedModel, stream_count: i64)
    requires
        s.event_kind != "item-revision"@,
        s.event_kind != "trash"@,
        s.event_kind != "restore"@,
        s.event_kind != "purge-item"@,
        s.event_kind != "purge-revisions"@,
        s.event_kind != "audit-purge"@,
        s.event_kind != "agent-grant"@,
        s.event_kind != "agent-revoke"@,
        s.event_kind != "enable"@,
        s.event_kind != "disable"@,
        s.event_kind != "suspend"@,
        s.event_kind != "resume"@,
    ensures
        !event_shaped(s, stream_count),
{
}

/// A list of digests is current where it is exactly that of the subject's events
/// of some kinds, in their order.
pub proof fn lemma_listed(
    digests: Seq<[u8; 32]>,
    events: Seq<AuthorityRowModel>,
    kinds: Seq<&'static str>,
    x: [u8; 32],
)
    requires
        listed(digests, events, kinds) is Ok,
    ensures
        digests.contains(x) <==> exists|i: int|
            0 <= i < events.len() && (#[trigger] events[i]).digest == x@ && kind_among(
                events[i].kind,
                kinds,
            ),
{
    lemma_digests_taken(events, kinds, events.len() as int, x@);
    let all = digest_bytes(digests);
    if digests.contains(x) {
        let i = choose|i: int| 0 <= i < digests.len() && digests[i] == x;
        assert(all[i] == x@);
        assert(all.contains(x@));
    }
    if all.contains(x@) {
        let i = choose|i: int| 0 <= i < all.len() && all[i] == x@;
        assert(all[i] == digests[i]@);
        lemma_same_array(digests[i], x);
        assert(digests.contains(x));
    }
}

/// What an event must list of its subject: a grant the earlier grants, a
/// resumption the suspensions, what enables an item what enabled it and what
/// withdrew it, and a move to the trash or out of it the earlier moves there.
pub proof fn lemma_must_list(s: StagedModel, state: SubjectState, x: [u8; 32])
    requires
        state_verdict(s, state) is Ok,
    ensures
        ({
            let events = views(state.events@);
            let b = s.authority_body->0;
            let has = |kind: Seq<char>|
                exists|i: int|
                    0 <= i < events.len() && (#[trigger] events[i]).digest == x@ && events[i].kind
                        == kind;
            &&& s.event_kind == "agent-grant"@ ==> ((
            agent_grant_body_of(b)->0).predecessors.contains(x) <==> has("agent-grant"@))
            &&& s.event_kind == "resume"@ ==> ((resume_body_of(b)->0).contains(x) <==> has(
                "suspend"@,
            ))
            &&& s.event_kind == "enable"@ ==> ((enable_body_of(b)->0).positives.contains(x)
                <==> has("enable"@))
            &&& s.event_kind == "enable"@ ==> ((enable_body_of(b)->0).withdrawals.contains(x)
                <==> has("disable"@) || has("trash"@) || has("purge-item"@) || has(
                "purge-revisions"@,
            ))
            &&& s.event_kind == "trash"@ || s.event_kind == "restore"@ ==> ((
            lifecycle_body_of(b)->0).contains(x) <==> has("trash"@))
        }),
{
    lemma_kinds();
    let events = views(state.events@);
    let b = s.authority_body->0;
    let grant = seq!["agent-grant"];
    let suspend = seq!["suspend"];
    let enable = seq!["enable"];
    let withdrawn = seq!["disable", "trash", "purge-item", "purge-revisions"];
    let trash = seq!["trash"];
    assert(grant[0]@ == "agent-grant"@);
    assert(suspend[0]@ == "suspend"@);
    assert(enable[0]@ == "enable"@);
    assert(trash[0]@ == "trash"@);
    assert(withdrawn[0]@ == "disable"@);
    assert(withdrawn[1]@ == "trash"@);
    assert(withdrawn[2]@ == "purge-item"@);
    assert(withdrawn[3]@ == "purge-revisions"@);
    if s.event_kind == "agent-grant"@ {
        lemma_listed((agent_grant_body_of(b)->0).predecessors, events, grant, x);
    } else if s.event_kind == "resume"@ {
        lemma_listed(resume_body_of(b)->0, events, suspend, x);
    } else if s.event_kind == "enable"@ {
        lemma_listed((enable_body_of(b)->0).positives, events, enable, x);
        lemma_listed((enable_body_of(b)->0).withdrawals, events, withdrawn, x);
    } else if s.event_kind == "trash"@ || s.event_kind == "restore"@ {
        lemma_listed(lifecycle_body_of(b)->0, events, trash, x);
    }
}

/// A purge of an item as a whole is current where the item is in the trash and
/// all its retained revisions are named; a purge of revisions where each is
/// retained and none is on view.
pub proof fn lemma_purge_current(m: PurgeBodyModel, state: SubjectState)
    ensures
        state.item is None ==> purge_current(m, state) == Err::<(), _>(
            HumanCommitError::StateChanged,
        ),
        state.item matches Some(row) ==> {
            let r = purge_current(m, state);
            &&& row.visible@.len() != 16 ==> r == Err::<(), _>(HumanCommitError::InvalidCommand)
            &&& row.visible@.len() == 16 ==> {
                &&& m.terminal ==> (r is Ok <==> row.status@ == "trash"@ && m.revisions
                    == state.revisions@)
                &&& !m.terminal ==> (r is Ok <==> forall|i: int|
                    0 <= i < m.revisions.len() ==> state.revisions@.contains(
                        #[trigger] m.revisions[i],
                    ) && m.revisions[i]@ != row.visible@)
                &&& r is Err ==> r == Err::<(), _>(HumanCommitError::StateChanged)
            }
        },
{
}

/// What is hashed as the object of an event: the streams where there are any,
/// for a purge its confirmation, and else what was staged; of a restored
/// revision the body is not part of it.
pub proof fn lemma_object_source(s: StagedModel, stream_count: i64)
    ensures
        stream_count > 0 ==> object_source_of(s, stream_count) == (match s.package {
            Some(p) => Ok::<ObjectModel, HumanCommitError>(ObjectModel::Streams(p)),
            None => Err(HumanCommitError::BodyChanged),
        }),
        stream_count <= 0 && s.event_kind == "restore"@ && s.package is Some ==> object_source_of(
            s,
            stream_count,
        ) == Ok::<_, HumanCommitError>(
            ObjectModel::Bytes(staged_object_bytes(s.package->0, s.attachments)),
        ),
        stream_count <= 0 && (s.event_kind == "purge-item"@ || s.event_kind
            == "purge-revisions"@) && s.authority_body is Some && item_purge_body_of(
            s.authority_body->0,
        ) is Some ==> object_source_of(s, stream_count) == Ok::<_, HumanCommitError>(
            ObjectModel::Purge(item_purge_body_of(s.authority_body->0)->0),
        ),
        stream_count <= 0 && s.event_kind == "item-revision"@ && s.package is Some
            && s.authority_body is None && s.staged_grant is None ==> object_source_of(
            s,
            stream_count,
        ) == Ok::<_, HumanCommitError>(
            ObjectModel::Bytes(staged_object_bytes(s.package->0, s.attachments)),
        ),
        stream_count <= 0 && s.event_kind != "restore"@ && s.event_kind != "purge-item"@
            && s.event_kind != "purge-revisions"@ && (s.authority_body is Some
            || s.staged_grant is Some) ==> object_source_of(s, stream_count) == Ok::<
            _,
            HumanCommitError,
        >(
            ObjectModel::Bytes(
                staged_parts_bytes(s.package, s.attachments, s.authority_body, s.staged_grant),
            ),
        ),
        stream_count <= 0 && s.package is None && s.authority_body is None && s.staged_grant is None
            && s.event_kind == "audit-purge"@ ==> object_source_of(s, stream_count) == Ok::<
            _,
            HumanCommitError,
        >(ObjectModel::Nothing),
{
    lemma_kinds();
}

/// What is signed of a restored revision names the item, the revision and both
/// digests; of any other event its kind, its item, its revision, its object, the
/// range of the audit and its body.
pub proof fn lemma_manifest_says(
    s: StagedModel,
    object_digest: Option<[u8; 32]>,
    authority_digest: Option<[u8; 32]>,
)
    ensures
        s.event_kind == "restore"@ ==> (staged_manifest_of(
            s,
            object_digest,
            authority_digest,
        ) is Some <==> s.revision_id is Some && object_digest is Some && authority_digest is Some),
        s.event_kind == "restore"@ && staged_manifest_of(
            s,
            object_digest,
            authority_digest,
        ) is Some ==> staged_manifest_of(s, object_digest, authority_digest) == Some(
            restore_manifest_bytes(
                RestoreManifest {
                    item: s.item_id,
                    revision: s.revision_id->0,
                    object_digest: object_digest->0,
                    body_digest: authority_digest->0,
                },
            ),
        ),
        s.event_kind != "restore"@ ==> staged_manifest_of(s, object_digest, authority_digest)
            == Some(
            event_manifest_bytes(
                EventManifestModel {
                    kind: s.event_kind,
                    item: s.item_id,
                    revision: s.revision_id,
                    object_digest,
                    audit_generation: s.audit_generation,
                    audit_through_seq: s.audit_through_seq,
                    authority_body_digest: authority_digest,
                },
            ),
        ),
{
}

} // verus!

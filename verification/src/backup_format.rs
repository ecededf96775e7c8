//! The records of a backup: how they are written and read.
use crate::bytes::{be32, lemma_be32, number32, push_be32, read_be32, same, same_str};
use crate::cbor::{
    array_head, bytes_item, int_item, lemma_array, lemma_bytes_within, lemma_int, lemma_map,
    lemma_text_within, lemma_uint, map_head, take_array_of, take_bytes, take_key, take_map,
    take_map_of, take_text, text_item, uint_item, Reader, Writer,
};
use crate::content::{
    descriptor_bytes, kind_name, lemma_kind_names_differ, shape_valid, LogicalRecord, RecordKind,
    RecordModel,
};
use crate::errors::HumanCommitError;
use crate::history::{lifecycle_named, lifecycle_of, ItemLifecycle};
use crate::lists::{
    after, ids_then, lemma_array_of, next_bytes, next_fixed, next_int, next_key, next_text,
    next_uint, put_ids, take_digest, take_id,
};
use crate::record_codec::without_content;
use vstd::prelude::*;
use vstd::slice::slice_to_vec;

verus! {

/// The most bytes of the outer header.
pub const MAX_OUTER_HEADER: usize = 65536;

/// The most bytes of the header of the encrypted stream, with its prefix.
pub const MAX_PMF_HEADER: usize = 4104;

/// The most bytes of a record.
pub const MAX_RECORD: usize = 16777216;

/// The bytes of a whole chunk.
pub const CHUNK: usize = 1048576;

/// The most bytes of a file.
pub const MAX_FILE_BYTES: u64 = 17179869184;

/// The most chunks of a file.
pub const MAX_CHUNKS: u64 = 16384;

/// The most entries of an inventory page.
pub const INVENTORY_PAGE: usize = 1024;

/// The most parents of an authority event.
pub const MAX_PARENTS: u64 = 4096;

/// The outer header of a backup: what is needed to open it.
pub struct Outer {
    pub backup_id: [u8; 16],
    pub vault: [u8; 16],
    pub key_generation: u64,
    pub password_envelope: Vec<u8>,
    pub recovery_envelope: Vec<u8>,
    pub backup_key_envelope: Vec<u8>,
}

/// The contents of a [`Outer`].
pub struct OuterModel {
    pub backup_id: [u8; 16],
    pub vault: [u8; 16],
    pub key_generation: u64,
    pub password_envelope: Seq<u8>,
    pub recovery_envelope: Seq<u8>,
    pub backup_key_envelope: Seq<u8>,
}

impl View for Outer {
    type V = OuterModel;

    open spec fn view(&self) -> OuterModel {
        OuterModel {
            backup_id: self.backup_id,
            vault: self.vault,
            key_generation: self.key_generation,
            password_envelope: self.password_envelope@,
            recovery_envelope: self.recovery_envelope@,
            backup_key_envelope: self.backup_key_envelope@,
        }
    }
}

/// An outer header, followed by `t`.
pub open spec fn outer_then(m: OuterModel, t: Seq<u8>) -> Seq<u8> {
    map_head(8) + (text_item("v"@) + (uint_item(1) + (text_item("suite"@) + (uint_item(1)
        + (text_item("backup_id"@) + (bytes_item(m.backup_id@) + (text_item("vault"@)
        + (bytes_item(m.vault@) + (text_item("key_generation"@) + (uint_item(m.key_generation)
        + (text_item("password_root_envelope"@) + (bytes_item(m.password_envelope)
        + (text_item("recovery_root_envelope"@) + (bytes_item(m.recovery_envelope)
        + (text_item("backup_key_envelope"@)
        + (bytes_item(m.backup_key_envelope) + t))))))))))))))))
}

/// Appends an outer header.
fn put_outer(w: &mut Writer, x: &Outer)
    ensures
        forall|t: Seq<u8>|
            #![trigger old(w)@ + outer_then(x@, t)]
            final(w)@ + t == old(w)@ + outer_then(x@, t),
{
    w.map(8);
    w.str("v");
    w.u8(1);
    w.str("suite");
    w.u8(1);
    w.str("backup_id");
    w.bytes(&x.backup_id);
    w.str("vault");
    w.bytes(&x.vault);
    w.str("key_generation");
    w.u64(x.key_generation);
    w.str("password_root_envelope");
    w.bytes(x.password_envelope.as_slice());
    w.str("recovery_root_envelope");
    w.bytes(x.recovery_envelope.as_slice());
    w.str("backup_key_envelope");
    w.bytes(x.backup_key_envelope.as_slice());
}

/// Reads an outer header.
fn take_outer(d: &mut Reader) -> (r: Option<Outer>)
    ensures
        forall|m: OuterModel, t: Seq<u8>|
            #![trigger outer_then(m, t)]
            old(d).rest() == outer_then(m, t) ==> r is Some && (r->0)@ == m && final(d).rest() == t,
{
    d.map_of(8)?;
    d.key("v")?;
    let v: u8 = d.u8()?;
    if v != 1 {
        return None;
    }
    d.key("suite")?;
    let v: u8 = d.u8()?;
    if v != 1 {
        return None;
    }
    d.key("backup_id")?;
    let backup_id = d.fixed16()?;
    d.key("vault")?;
    let vault = d.fixed16()?;
    d.key("key_generation")?;
    let key_generation: u64 = d.u64()?;
    d.key("password_root_envelope")?;
    let password_envelope = slice_to_vec(d.bytes()?);
    d.key("recovery_root_envelope")?;
    let recovery_envelope = slice_to_vec(d.bytes()?);
    d.key("backup_key_envelope")?;
    let backup_key_envelope = slice_to_vec(d.bytes()?);
    Some(Outer { backup_id, vault, key_generation, password_envelope, recovery_envelope,
        backup_key_envelope })
}

/// An outer header.
pub open spec fn outer_bytes(m: OuterModel) -> Seq<u8> {
    outer_then(m, Seq::empty())
}

/// Encodes an outer header.
pub fn encode_outer(x: &Outer) -> (r: Vec<u8>)
    ensures
        r@ == outer_bytes(x@),
{
    let mut w = Writer::new();
    let ghost none = Seq::<u8>::empty();
    assert(none + outer_then(x@, none) =~= outer_bytes(x@));
    put_outer(&mut w, x);
    assert(w@ + none =~= w@);
    w.finish()
}

/// What bytes decode to: the only outer header whose canonical encoding they are.
pub open spec fn outer_of(b: Seq<u8>) -> Option<OuterModel> {
    if exists|m: OuterModel| #[trigger] outer_bytes(m) == b {
        Some(choose|m: OuterModel| #[trigger] outer_bytes(m) == b)
    } else {
        None
    }
}

/// Decodes an outer header; only the canonical encoding is accepted.
pub fn decode_outer(input: &[u8]) -> (r: Result<Outer, HumanCommitError>)
    ensures
        forall|m: OuterModel|
            input@ == #[trigger] outer_bytes(m) ==> r is Ok && (r->Ok_0)@ == m,
        r is Ok ==> outer_bytes((r->Ok_0)@) == input@,
        match outer_of(input@) {
            Some(m) => r is Ok && (r->Ok_0)@ == m,
            None => r is Err && r->Err_0 is InvalidInput,
        },
{
    let mut d = Reader::new(input);
    let r = match take_outer(&mut d) {
        Some(x) => if d.at_end() && same(encode_outer(&x).as_slice(), input) {
            Ok(x)
        } else {
            Err(HumanCommitError::InvalidInput)
        },
        None => Err(HumanCommitError::InvalidInput),
    };
    proof {
        if r is Ok {
            assert(outer_bytes((r->Ok_0)@) == input@);
        }
    }
    r
}

/// A record with its length in front of it.
pub open spec fn framed(record: Seq<u8>) -> Seq<u8> {
    be32(record.len() as u32) + record
}

/// Puts the length of a record in front of it.
pub fn frame_record(record: &[u8]) -> (r: Vec<u8>)
    requires
        record@.len() <= u32::MAX,
    ensures
        r@ == framed(record@),
{
    let mut out: Vec<u8> = Vec::new();
    push_be32(&mut out, record.len() as u32);
    out.extend_from_slice(record);
    assert(out@ =~= framed(record@));
    out
}

/// The record at the front of a stream and what follows it: nothing while it is
/// not complete, and an error where its length is out of bounds.
pub open spec fn frame_at(b: Seq<u8>) -> Result<Option<(Seq<u8>, Seq<u8>)>, HumanCommitError> {
    if b.len() < 4 {
        Ok(None)
    } else if number32(b) == 0 || number32(b) > MAX_RECORD {
        Err(HumanCommitError::InvalidInput)
    } else if b.len() < 4 + number32(b) {
        Ok(None)
    } else {
        Ok(Some((b.subrange(4, 4 + number32(b)), b.skip(4 + number32(b)))))
    }
}

/// The length of the record at the front of a stream, once it is complete.
pub fn frame_length(b: &[u8]) -> (r: Result<Option<usize>, HumanCommitError>)
    ensures
        match frame_at(b@) {
            Ok(Some((record, rest))) => r is Ok && r->Ok_0 is Some && r->Ok_0->0 == record.len()
                && 4 + record.len() <= b@.len() && record == b@.subrange(
                4,
                4 + record.len() as int,
            ) && rest == b@.skip(4 + record.len() as int),
            Ok(None) => r is Ok && r->Ok_0 is None,
            Err(e) => r is Err && r->Err_0 == e,
        },
{
    if b.len() < 4 {
        return Ok(None);
    }
    let n: u32 = read_be32(b, 0);
    assert(b@.skip(0) =~= b@);
    if n == 0 || n > 16777216 {
        return Err(HumanCommitError::InvalidInput);
    }
    if b.len() - 4 < n as usize {
        Ok(None)
    } else {
        Ok(Some(n as usize))
    }
}

/// A framed record is read back with what follows it.
pub proof fn lemma_frame(record: Seq<u8>, t: Seq<u8>)
    requires
        0 < record.len() <= MAX_RECORD,
    ensures
        frame_at(framed(record) + t) == Ok::<Option<(Seq<u8>, Seq<u8>)>, HumanCommitError>(
            Some((record, t)),
        ),
{
    let b = framed(record) + t;
    lemma_be32(record.len() as u32, record + t);
    assert(b =~= be32(record.len() as u32) + (record + t));
    assert(b.subrange(4, 4 + record.len() as int) =~= record);
    assert(b.skip(4 + record.len() as int) =~= t);
}

/// What a backup begins with, its mark and the length of its outer header.
pub fn outer_length(prefix: &[u8; 8]) -> (r: Result<usize, HumanCommitError>)
    ensures
        if prefix@.take(4) == seq![0x50u8, 0x4d, 0x42, 0x31] && 0 < number32(prefix@.skip(4))
            <= MAX_OUTER_HEADER {
            r is Ok && r->Ok_0 == number32(prefix@.skip(4))
        } else {
            r is Err && r->Err_0 is InvalidInput
        },
{
    let mark: [u8; 4] = [0x50, 0x4d, 0x42, 0x31];
    header_length(prefix, &mark, 65536)
}

/// The length that stands behind a mark of four bytes.
fn header_length(prefix: &[u8; 8], mark: &[u8; 4], max: u32) -> (r: Result<
    usize,
    HumanCommitError,
>)
    ensures
        if prefix@.take(4) == mark@ && 0 < number32(prefix@.skip(4)) <= max {
            r is Ok && r->Ok_0 == number32(prefix@.skip(4))
        } else {
            r is Err && r->Err_0 is InvalidInput
        },
{
    let marked = prefix[0] == mark[0] && prefix[1] == mark[1] && prefix[2] == mark[2] && prefix[3]
        == mark[3];
    proof {
        if marked {
            assert(prefix@.take(4) =~= mark@);
        } else if prefix@.take(4) == mark@ {
            assert(prefix@.take(4)[0] == mark@[0] && prefix@.take(4)[1] == mark@[1]
                && prefix@.take(4)[2] == mark@[2] && prefix@.take(4)[3] == mark@[3]);
        }
    }
    let n: u32 = read_be32(prefix.as_slice(), 4);
    if !marked || n == 0 || n > max {
        Err(HumanCommitError::InvalidInput)
    } else {
        Ok(n as usize)
    }
}

/// The length of the header of the encrypted stream, behind its mark.
pub fn stream_header_length(prefix: &[u8; 8]) -> (r: Result<usize, HumanCommitError>)
    ensures
        if prefix@.take(4) == seq![0x50u8, 0x4d, 0x46, 0x31] && 0 < number32(prefix@.skip(4))
            && number32(prefix@.skip(4)) + 8 <= MAX_PMF_HEADER {
            r is Ok && r->Ok_0 == number32(prefix@.skip(4))
        } else {
            r is Err && r->Err_0 is InvalidInput
        },
{
    let mark: [u8; 4] = [0x50, 0x4d, 0x46, 0x31];
    header_length(prefix, &mark, 4096)
}

/// The length of an encrypted chunk behind its four bytes.
pub fn cipher_length(prefix: &[u8; 4]) -> (r: Result<usize, HumanCommitError>)
    ensures
        if 17 <= number32(prefix@) <= CHUNK + 17 {
            r is Ok && r->Ok_0 == number32(prefix@)
        } else {
            r is Err && r->Err_0 is InvalidInput
        },
{
    assert(prefix@.skip(0) =~= prefix@);
    let n: u32 = read_be32(prefix.as_slice(), 0);
    if n < 17 || n > 1048593 {
        Err(HumanCommitError::InvalidInput)
    } else {
        Ok(n as usize)
    }
}

/// What the file starts with: its mark, the length of its outer header and the
/// header.
pub open spec fn outer_file_bytes(m: OuterModel) -> Seq<u8> {
    seq![0x50u8, 0x4d, 0x42, 0x31] + be32(outer_bytes(m).len() as u32) + outer_bytes(m)
}

/// Encodes what the file starts with.
pub fn encode_outer_file(x: &Outer) -> (r: Result<Vec<u8>, HumanCommitError>)
    ensures
        if outer_bytes(x@).len() <= MAX_OUTER_HEADER {
            r is Ok && (r->Ok_0)@ == outer_file_bytes(x@)
        } else {
            r is Err && r->Err_0 is InvalidInput
        },
{
    let outer = encode_outer(x);
    if outer.len() > MAX_OUTER_HEADER {
        return Err(HumanCommitError::InvalidInput);
    }
    let mut out: Vec<u8> = Vec::new();
    out.push(0x50);
    out.push(0x4d);
    out.push(0x42);
    out.push(0x31);
    push_be32(&mut out, outer.len() as u32);
    out.extend_from_slice(outer.as_slice());
    assert(out@ =~= outer_file_bytes(x@));
    Ok(out)
}

/// The first record of a backup.
pub struct Start {
    pub backup_id: [u8; 16],
    pub snapshot_id: [u8; 16],
    pub created_at: i64,
    pub outer_sha256: [u8; 32],
    pub source_vault: [u8; 16],
    pub content_frontier: [u8; 32],
    pub authority_checkpoint_ref: [u8; 32],
}

/// The contents of a [`Start`].
pub struct StartRecordModel {
    pub backup_id: [u8; 16],
    pub snapshot_id: [u8; 16],
    pub created_at: i64,
    pub outer_sha256: [u8; 32],
    pub source_vault: [u8; 16],
    pub content_frontier: [u8; 32],
    pub authority_checkpoint_ref: [u8; 32],
}

impl View for Start {
    type V = StartRecordModel;

    open spec fn view(&self) -> StartRecordModel {
        StartRecordModel {
            backup_id: self.backup_id,
            snapshot_id: self.snapshot_id,
            created_at: self.created_at,
            outer_sha256: self.outer_sha256,
            source_vault: self.source_vault,
            content_frontier: self.content_frontier,
            authority_checkpoint_ref: self.authority_checkpoint_ref,
        }
    }
}

/// The first record, followed by `t`.
pub open spec fn start_then(m: StartRecordModel, t: Seq<u8>) -> Seq<u8> {
    map_head(10) + (text_item("type"@) + (text_item("manifest_start"@) + (text_item("v"@)
        + (uint_item(1) + (text_item("backup_id"@) + (bytes_item(m.backup_id@)
        + (text_item("snapshot_id"@) + (bytes_item(m.snapshot_id@) + (text_item("created_at"@)
        + (int_item(m.created_at) + (text_item("outer_sha256"@) + (bytes_item(m.outer_sha256@)
        + (text_item("source_vault"@) + (bytes_item(m.source_vault@)
        + (text_item("content_frontier"@) + (bytes_item(m.content_frontier@)
        + (text_item("authority_checkpoint_ref"@) + (bytes_item(m.authority_checkpoint_ref@)
        + (text_item("scope"@) + (text_item("full"@) + t))))))))))))))))))))
}

/// The first record.
pub open spec fn start_bytes(m: StartRecordModel) -> Seq<u8> {
    start_then(m, Seq::empty())
}

/// Appends the first record.
fn put_start(w: &mut Writer, x: &Start)
    ensures
        forall|t: Seq<u8>|
            #![trigger old(w)@ + start_then(x@, t)]
            final(w)@ + t == old(w)@ + start_then(x@, t),
{
    w.map(10);
    w.str("type");
    w.str("manifest_start");
    w.str("v");
    w.u8(1);
    w.str("backup_id");
    w.bytes(&x.backup_id);
    w.str("snapshot_id");
    w.bytes(&x.snapshot_id);
    w.str("created_at");
    w.i64(x.created_at);
    w.str("outer_sha256");
    w.bytes(&x.outer_sha256);
    w.str("source_vault");
    w.bytes(&x.source_vault);
    w.str("content_frontier");
    w.bytes(&x.content_frontier);
    w.str("authority_checkpoint_ref");
    w.bytes(&x.authority_checkpoint_ref);
    w.str("scope");
    w.str("full");
}

/// Encodes the first record.
pub fn encode_start(x: &Start) -> (r: Vec<u8>)
    ensures
        r@ == start_bytes(x@),
{
    let mut w = Writer::new();
    let ghost none = Seq::<u8>::empty();
    assert(none + start_then(x@, none) =~= start_bytes(x@));
    put_start(&mut w, x);
    assert(w@ + none =~= w@);
    w.finish()
}

/// A data record, followed by `t`.
pub open spec fn data_then(kind: Seq<char>, id: [u8; 16], payload: Seq<u8>, t: Seq<u8>) -> Seq<u8> {
    map_head(3) + (text_item("type"@) + (text_item(kind) + (text_item("id"@) + (bytes_item(id@)
        + (text_item("payload"@) + (bytes_item(payload) + t))))))
}

/// A data record.
pub open spec fn data_bytes(kind: Seq<char>, id: [u8; 16], payload: Seq<u8>) -> Seq<u8> {
    data_then(kind, id, payload, Seq::empty())
}

/// Encodes a data record.
pub fn encode_data(
    kind: &str,
    id: &[u8; 16],
    payload: &[u8],
) -> (r: Vec<u8>)
    ensures
        r@ == data_bytes(kind@, *id, payload@),
{
    let mut w = Writer::new();
    let ghost none = Seq::<u8>::empty();
    assert(none + data_then(kind@, *id, payload@, none) =~= data_bytes(kind@, *id, payload@));
    w.map(3);
    w.str("type");
    w.str(kind);
    w.str("id");
    w.bytes(id);
    w.str("payload");
    w.bytes(payload);
    assert(w@ + none =~= w@);
    w.finish()
}

/// An item, followed by `t`.
pub open spec fn item_then(visible: [u8; 16], kind: Seq<char>, status: Seq<char>,
    t: Seq<u8>) -> Seq<u8> {
    array_head(3) + (bytes_item(visible@) + (text_item(kind) + (text_item(status) + t)))
}

/// An item.
pub open spec fn item_bytes(visible: [u8; 16], kind: Seq<char>, status: Seq<char>) -> Seq<u8> {
    item_then(visible, kind, status, Seq::empty())
}

/// Encodes an item.
pub fn encode_item(
    visible: &[u8; 16],
    kind: &str,
    status: &str,
) -> (r: Vec<u8>)
    ensures
        r@ == item_bytes(*visible, kind@, status@),
{
    let mut w = Writer::new();
    let ghost none = Seq::<u8>::empty();
    assert(none + item_then(*visible, kind@, status@, none) =~= item_bytes(*visible, kind@,
        status@));
    w.array(3);
    w.bytes(visible);
    w.str(kind);
    w.str(status);
    assert(w@ + none =~= w@);
    w.finish()
}

/// A revision, followed by `t`.
pub open spec fn revision_then(item: [u8; 16], issuer: [u8; 16], modified: i64, descriptor: Seq<u8>,
    t: Seq<u8>) -> Seq<u8> {
    array_head(4) + (bytes_item(item@) + (bytes_item(issuer@) + (int_item(modified)
        + (bytes_item(descriptor) + t))))
}

/// A revision.
pub open spec fn revision_bytes(item: [u8; 16], issuer: [u8; 16], modified: i64,
    descriptor: Seq<u8>) -> Seq<u8> {
    revision_then(item, issuer, modified, descriptor, Seq::empty())
}

/// Encodes a revision.
pub fn encode_revision(
    item: &[u8; 16],
    issuer: &[u8; 16],
    modified: i64,
    descriptor: &[u8],
) -> (r: Vec<u8>)
    ensures
        r@ == revision_bytes(*item, *issuer, modified, descriptor@),
{
    let mut w = Writer::new();
    let ghost none = Seq::<u8>::empty();
    assert(none + revision_then(*item, *issuer, modified, descriptor@,
        none) =~= revision_bytes(*item, *issuer, modified, descriptor@));
    w.array(4);
    w.bytes(item);
    w.bytes(issuer);
    w.i64(modified);
    w.bytes(descriptor);
    assert(w@ + none =~= w@);
    w.finish()
}

/// A file, followed by `t`.
pub open spec fn attachment_then(item: [u8; 16], revision: [u8; 16], attachment: [u8; 16],
    name: Seq<char>, mime: Seq<char>, size: u64, sha256: [u8; 32], chunks: u64,
    t: Seq<u8>) -> Seq<u8> {
    array_head(8) + (bytes_item(item@) + (bytes_item(revision@) + (bytes_item(attachment@)
        + (text_item(name) + (text_item(mime) + (uint_item(size) + (bytes_item(sha256@)
        + (uint_item(chunks) + t))))))))
}

/// A file.
pub open spec fn attachment_bytes(item: [u8; 16], revision: [u8; 16], attachment: [u8; 16],
    name: Seq<char>, mime: Seq<char>, size: u64, sha256: [u8; 32], chunks: u64) -> Seq<u8> {
    attachment_then(item, revision, attachment, name, mime, size, sha256, chunks, Seq::empty())
}

/// Encodes a file.
pub fn encode_attachment(
    item: &[u8; 16],
    revision: &[u8; 16],
    attachment: &[u8; 16],
    name: &str,
    mime: &str,
    size: u64,
    sha256: &[u8; 32],
    chunks: u64,
) -> (r: Vec<u8>)
    ensures
        r@ == attachment_bytes(*item, *revision, *attachment, name@, mime@, size, *sha256, chunks),
{
    let mut w = Writer::new();
    let ghost none = Seq::<u8>::empty();
    assert(none + attachment_then(*item, *revision, *attachment, name@, mime@, size, *sha256,
        chunks, none) =~= attachment_bytes(*item, *revision, *attachment, name@, mime@, size,
        *sha256, chunks));
    w.array(8);
    w.bytes(item);
    w.bytes(revision);
    w.bytes(attachment);
    w.str(name);
    w.str(mime);
    w.u64(size);
    w.bytes(sha256);
    w.u64(chunks);
    assert(w@ + none =~= w@);
    w.finish()
}

/// A chunk of a file, followed by `t`.
pub open spec fn chunk_then(revision: [u8; 16], attachment: [u8; 16], index: u64, content: Seq<u8>,
    t: Seq<u8>) -> Seq<u8> {
    array_head(4) + (bytes_item(revision@) + (bytes_item(attachment@) + (uint_item(index)
        + (bytes_item(content) + t))))
}

/// A chunk of a file.
pub open spec fn chunk_bytes(revision: [u8; 16], attachment: [u8; 16], index: u64,
    content: Seq<u8>) -> Seq<u8> {
    chunk_then(revision, attachment, index, content, Seq::empty())
}

/// Encodes a chunk of a file.
pub fn encode_attachment_chunk(
    revision: &[u8; 16],
    attachment: &[u8; 16],
    index: u64,
    content: &[u8],
) -> (r: Vec<u8>)
    ensures
        r@ == chunk_bytes(*revision, *attachment, index, content@),
{
    let mut w = Writer::new();
    let ghost none = Seq::<u8>::empty();
    assert(none + chunk_then(*revision, *attachment, index, content@,
        none) =~= chunk_bytes(*revision, *attachment, index, content@));
    w.array(4);
    w.bytes(revision);
    w.bytes(attachment);
    w.u64(index);
    w.bytes(content);
    assert(w@ + none =~= w@);
    w.finish()
}

/// A tag and its items, followed by `t`.
pub open spec fn organization_then(name: Seq<char>, items: Seq<[u8; 16]>, t: Seq<u8>) -> Seq<u8> {
    array_head(2) + (text_item(name) + (ids_then(items, t)))
}

/// A tag and its items.
pub open spec fn organization_bytes(name: Seq<char>, items: Seq<[u8; 16]>) -> Seq<u8> {
    organization_then(name, items, Seq::empty())
}

/// Encodes a tag and its items.
pub fn encode_organization(
    name: &str,
    items: &Vec<[u8; 16]>,
) -> (r: Vec<u8>)
    ensures
        r@ == organization_bytes(name@, items@),
{
    let mut w = Writer::new();
    let ghost none = Seq::<u8>::empty();
    assert(none + organization_then(name@, items@, none) =~= organization_bytes(name@, items@));
    w.array(2);
    w.str(name);
    put_ids(&mut w, items);
    assert(w@ + none =~= w@);
    w.finish()
}

/// A purged revision, followed by `t`.
pub open spec fn partial_revision_then(item: [u8; 16], revision: [u8; 16], purge_event: [u8; 32],
    t: Seq<u8>) -> Seq<u8> {
    array_head(4) + (text_item("purged_revision"@) + (bytes_item(item@) + (bytes_item(revision@)
        + (bytes_item(purge_event@) + t))))
}

/// A purged revision.
pub open spec fn partial_revision_bytes(item: [u8; 16], revision: [u8; 16],
    purge_event: [u8; 32]) -> Seq<u8> {
    partial_revision_then(item, revision, purge_event, Seq::empty())
}

/// Encodes a purged revision.
pub fn encode_partial_revision(
    item: &[u8; 16],
    revision: &[u8; 16],
    purge_event: &[u8; 32],
) -> (r: Vec<u8>)
    ensures
        r@ == partial_revision_bytes(*item, *revision, *purge_event),
{
    let mut w = Writer::new();
    let ghost none = Seq::<u8>::empty();
    assert(none + partial_revision_then(*item, *revision, *purge_event,
        none) =~= partial_revision_bytes(*item, *revision, *purge_event));
    w.array(4);
    w.str("purged_revision");
    w.bytes(item);
    w.bytes(revision);
    w.bytes(purge_event);
    assert(w@ + none =~= w@);
    w.finish()
}

/// A purged item, followed by `t`.
pub open spec fn partial_item_then(item: [u8; 16], purge_event: [u8; 32], revision_count: u64,
    attachment_count: u64, encrypted_bytes: u64, t: Seq<u8>) -> Seq<u8> {
    array_head(6) + (text_item("purged_item"@) + (bytes_item(item@) + (bytes_item(purge_event@)
        + (uint_item(revision_count) + (uint_item(attachment_count)
        + (uint_item(encrypted_bytes) + t))))))
}

/// A purged item.
pub open spec fn partial_item_bytes(item: [u8; 16], purge_event: [u8; 32], revision_count: u64,
    attachment_count: u64, encrypted_bytes: u64) -> Seq<u8> {
    partial_item_then(item, purge_event, revision_count, attachment_count, encrypted_bytes,
        Seq::empty())
}

/// Encodes a purged item.
pub fn encode_partial_item(
    item: &[u8; 16],
    purge_event: &[u8; 32],
    revision_count: u64,
    attachment_count: u64,
    encrypted_bytes: u64,
) -> (r: Vec<u8>)
    ensures
        r@ == partial_item_bytes(*item, *purge_event, revision_count, attachment_count,
            encrypted_bytes),
{
    let mut w = Writer::new();
    let ghost none = Seq::<u8>::empty();
    assert(none + partial_item_then(*item, *purge_event, revision_count, attachment_count,
        encrypted_bytes, none) =~= partial_item_bytes(*item, *purge_event, revision_count,
        attachment_count, encrypted_bytes));
    w.array(6);
    w.str("purged_item");
    w.bytes(item);
    w.bytes(purge_event);
    w.u64(revision_count);
    w.u64(attachment_count);
    w.u64(encrypted_bytes);
    assert(w@ + none =~= w@);
    w.finish()
}

/// The settings, followed by `t`.
pub open spec fn settings_then(t: Seq<u8>) -> Seq<u8> {
    map_head(3) + (text_item("retention"@) + (array_head(3) + (text_item("manual"@)
        + (text_item("manual"@) + (text_item("manual"@) + (text_item("locale"@) + (text_item("und"@)
        + (text_item("theme"@) + (text_item("system"@) + t)))))))))
}

/// The settings.
pub open spec fn settings_bytes() -> Seq<u8> {
    settings_then(Seq::empty())
}

/// Encodes the settings.
pub fn encode_settings() -> (r: Vec<u8>)
    ensures
        r@ == settings_bytes(),
{
    let mut w = Writer::new();
    let ghost none = Seq::<u8>::empty();
    assert(none + settings_then(none) =~= settings_bytes());
    w.map(3);
    w.str("retention");
    w.array(3);
    w.str("manual");
    w.str("manual");
    w.str("manual");
    w.str("locale");
    w.str("und");
    w.str("theme");
    w.str("system");
    assert(w@ + none =~= w@);
    w.finish()
}

/// An identity of the past, followed by `t`.
pub open spec fn identity_then(kind: Seq<char>, label: Seq<char>, public: Seq<u8>, state: Seq<char>,
    generation: u64, t: Seq<u8>) -> Seq<u8> {
    array_head(5) + (text_item(kind) + (text_item(label) + (bytes_item(public) + (text_item(state)
        + (uint_item(generation) + t)))))
}

/// An identity of the past.
pub open spec fn identity_bytes(kind: Seq<char>, label: Seq<char>, public: Seq<u8>,
    state: Seq<char>, generation: u64) -> Seq<u8> {
    identity_then(kind, label, public, state, generation, Seq::empty())
}

/// Encodes an identity of the past.
pub fn encode_identity(
    kind: &str,
    label: &str,
    public: &[u8],
    state: &str,
    generation: u64,
) -> (r: Vec<u8>)
    ensures
        r@ == identity_bytes(kind@, label@, public@, state@, generation),
{
    let mut w = Writer::new();
    let ghost none = Seq::<u8>::empty();
    assert(none + identity_then(kind@, label@, public@, state@, generation,
        none) =~= identity_bytes(kind@, label@, public@, state@, generation));
    w.array(5);
    w.str(kind);
    w.str(label);
    w.bytes(public);
    w.str(state);
    w.u64(generation);
    assert(w@ + none =~= w@);
    w.finish()
}

/// An imported audit bundle, followed by `t`.
pub open spec fn imported_audit_then(source_bundle: Seq<u8>, human_envelope: Seq<u8>,
    t: Seq<u8>) -> Seq<u8> {
    array_head(3) + (text_item("pm/imported-audit-bundle/v1"@)
        + (bytes_item(source_bundle) + (bytes_item(human_envelope) + t)))
}

/// An imported audit bundle.
pub open spec fn imported_audit_bytes(source_bundle: Seq<u8>, human_envelope: Seq<u8>) -> Seq<u8> {
    imported_audit_then(source_bundle, human_envelope, Seq::empty())
}

/// Encodes an imported audit bundle.
pub fn encode_imported_audit(
    source_bundle: &[u8],
    human_envelope: &[u8],
) -> (r: Vec<u8>)
    ensures
        r@ == imported_audit_bytes(source_bundle@, human_envelope@),
{
    let mut w = Writer::new();
    let ghost none = Seq::<u8>::empty();
    assert(none + imported_audit_then(source_bundle@, human_envelope@,
        none) =~= imported_audit_bytes(source_bundle@, human_envelope@));
    w.array(3);
    w.str("pm/imported-audit-bundle/v1");
    w.bytes(source_bundle);
    w.bytes(human_envelope);
    assert(w@ + none =~= w@);
    w.finish()
}

/// The last record, followed by `t`.
pub open spec fn end_then(records: u64, attachments: u64, logical_bytes: u64, pages: [u8; 32],
    attachment_bytes: u64, t: Seq<u8>) -> Seq<u8> {
    map_head(6) + (text_item("type"@) + (text_item("manifest_end"@) + (text_item("record_count"@)
        + (uint_item(records) + (text_item("attachment_count"@) + (uint_item(attachments)
        + (text_item("logical_bytes"@) + (uint_item(logical_bytes)
        + (text_item("inventory_pages_sha256"@) + (bytes_item(pages@)
        + (text_item("attachment_bytes"@) + (uint_item(attachment_bytes) + t))))))))))))
}

/// The last record.
pub open spec fn end_bytes(records: u64, attachments: u64, logical_bytes: u64, pages: [u8; 32],
    attachment_bytes: u64) -> Seq<u8> {
    end_then(records, attachments, logical_bytes, pages, attachment_bytes, Seq::empty())
}

/// Encodes the last record.
pub fn encode_end(
    records: u64,
    attachments: u64,
    logical_bytes: u64,
    pages: &[u8; 32],
    attachment_bytes: u64,
) -> (r: Vec<u8>)
    ensures
        r@ == end_bytes(records, attachments, logical_bytes, *pages, attachment_bytes),
{
    let mut w = Writer::new();
    let ghost none = Seq::<u8>::empty();
    assert(none + end_then(records, attachments, logical_bytes, *pages, attachment_bytes,
        none) =~= end_bytes(records, attachments, logical_bytes, *pages, attachment_bytes));
    w.map(6);
    w.str("type");
    w.str("manifest_end");
    w.str("record_count");
    w.u64(records);
    w.str("attachment_count");
    w.u64(attachments);
    w.str("logical_bytes");
    w.u64(logical_bytes);
    w.str("inventory_pages_sha256");
    w.bytes(pages);
    w.str("attachment_bytes");
    w.u64(attachment_bytes);
    assert(w@ + none =~= w@);
    w.finish()
}

/// The identifier and the payload of a data record of a type.
pub open spec fn data_of(b: Seq<u8>, kind: Seq<char>) -> Option<([u8; 16], Seq<u8>)> {
    let typed = next_key(next_key(take_map_of(b, 3), "type"@), kind);
    let id = next_fixed::<16>(next_key(typed, "id"@));
    match next_bytes(next_key(after(id), "payload"@)) {
        Some((payload, t)) => if t.len() == 0 {
            Some(((id->0).0, payload))
        } else {
            None
        },
        None => None,
    }
}

/// Reads a data record of a type.
fn read_data<'a>(d: &mut Reader<'a>, kind: &str) -> (r: Option<([u8; 16], &'a [u8])>)
    ensures
        match data_of(old(d).rest(), kind@) {
            Some(m) => r is Some && (r->0).0 == m.0 && (r->0).1@ == m.1,
            None => r is None,
        },
{
    d.map_of(3)?;
    d.key("type")?;
    d.key(kind)?;
    d.key("id")?;
    let id = take_id(d)?;
    d.key("payload")?;
    let payload = d.bytes()?;
    if !d.at_end() {
        return None;
    }
    Some((id, payload))
}

/// Decodes a data record of a type.
pub fn decode_data<'a>(input: &'a [u8], kind: &str) -> (r: Result<([u8; 16], &'a [u8]),
    HumanCommitError>)
    ensures
        match data_of(input@, kind@) {
            Some(m) => r is Ok && (r->Ok_0).0 == m.0 && (r->Ok_0).1@ == m.1,
            None => r is Err && r->Err_0 is InvalidInput,
        },
{
    let mut d = Reader::new(input);
    match read_data(&mut d, kind) {
        Some(v) => Ok(v),
        None => Err(HumanCommitError::InvalidInput),
    }
}

/// The kind that a stored name stands for.
pub open spec fn kind_named(s: Seq<char>) -> Option<RecordKind> {
    if exists|k: RecordKind| #[trigger] kind_name(k) == s {
        Some(choose|k: RecordKind| #[trigger] kind_name(k) == s)
    } else {
        None
    }
}

/// The kind that a stored name stands for.
pub fn parse_kind(s: &str) -> (r: Option<RecordKind>)
    ensures
        r == kind_named(s@),
{
    RecordKind::from_name(s)
}

/// Every kind is read back from its name.
pub proof fn lemma_kind_named(k: RecordKind)
    ensures
        kind_named(kind_name(k)) == Some(k),
{
    let j = choose|j: RecordKind| #[trigger] kind_name(j) == kind_name(k);
    lemma_kind_names_differ(j, k);
}

/// An item of a backup: its visible revision, its kind and where it stands.
pub struct BackupItem {
    pub visible: [u8; 16],
    pub kind: RecordKind,
    pub status: ItemLifecycle,
}

/// The kind at the front of `b` and what follows it.
pub open spec fn kind_at(b: Seq<u8>) -> Option<(RecordKind, Seq<u8>)> {
    match take_text(b) {
        Some((s, t)) => match kind_named(s) {
            Some(k) => Some((k, t)),
            None => None,
        },
        None => None,
    }
}

/// The status at the front of `b` and what follows it.
pub open spec fn status_at(b: Seq<u8>) -> Option<(ItemLifecycle, Seq<u8>)> {
    match take_text(b) {
        Some((s, t)) => match lifecycle_named(s) {
            Some(k) => Some((k, t)),
            None => None,
        },
        None => None,
    }
}

/// Reads a kind.
fn read_kind(d: &mut Reader) -> (r: Option<RecordKind>)
    ensures
        match kind_at(old(d).rest()) {
            Some((k, t)) => r == Some(k) && final(d).rest() == t,
            None => r is None,
        },
{
    let s = d.str()?;
    parse_kind(s)
}

/// Reads a status.
fn read_status(d: &mut Reader) -> (r: Option<ItemLifecycle>)
    ensures
        match status_at(old(d).rest()) {
            Some((k, t)) => r == Some(k) && final(d).rest() == t,
            None => r is None,
        },
{
    let s = d.str()?;
    lifecycle_of(s)
}

/// The item that a payload describes.
pub open spec fn item_of(b: Seq<u8>) -> Option<BackupItem> {
    let visible = next_fixed::<16>(take_array_of(b, 3));
    let kind = match after(visible) {
        Some(b) => kind_at(b),
        None => None,
    };
    let status = match after(kind) {
        Some(b) => status_at(b),
        None => None,
    };
    if status is Some && (status->0).1.len() == 0 {
        Some(
            BackupItem {
                visible: (visible->0).0,
                kind: (kind->0).0,
                status: (status->0).0,
            },
        )
    } else {
        None
    }
}

/// Reads an item.
fn read_item<'a>(d: &mut Reader<'a>) -> (r: Option<BackupItem>)
    ensures
        match item_of(old(d).rest()) {
            Some(m) => r is Some && (r->0) == m,
            None => r is None,
        },
{
    d.array_of(3)?;
    let visible = take_id(d)?;
    let kind = read_kind(d)?;
    let status = read_status(d)?;
    if !d.at_end() {
        return None;
    }
    Some(BackupItem { visible, kind, status })
}

/// Decodes an item.
pub fn decode_item<'a>(input: &'a [u8]) -> (r: Result<BackupItem, HumanCommitError>)
    ensures
        match item_of(input@) {
            Some(m) => r is Ok && (r->Ok_0) == m,
            None => r is Err && r->Err_0 is InvalidInput,
        },
{
    let mut d = Reader::new(input);
    match read_item(&mut d) {
        Some(v) => Ok(v),
        None => Err(HumanCommitError::InvalidInput),
    }
}

/// The record that a descriptor describes: the only one whose descriptor it is.
pub open spec fn described(b: Seq<u8>) -> Option<RecordModel> {
    if exists|m: RecordModel|
        shape_valid(m) && without_content(m.attachments) && #[trigger] descriptor_bytes(m) == b {
        Some(
            choose|m: RecordModel|
                shape_valid(m) && without_content(m.attachments) && #[trigger] descriptor_bytes(m)
                    == b,
        )
    } else {
        None
    }
}

/// The record at the front of `b` and what follows it.
pub open spec fn record_at(b: Seq<u8>) -> Option<(RecordModel, Seq<u8>)> {
    match take_bytes(b) {
        Some((s, t)) => match described(s) {
            Some(m) => Some((m, t)),
            None => None,
        },
        None => None,
    }
}

/// Reads a record.
fn read_record(d: &mut Reader) -> (r: Option<LogicalRecord>)
    ensures
        match record_at(old(d).rest()) {
            Some((m, t)) => r is Some && (r->0)@ == m && final(d).rest() == t,
            None => r is None,
        },
{
    let bytes = d.bytes()?;
    match LogicalRecord::from_descriptor_bytes(bytes) {
        Ok(record) => Some(record),
        Err(_) => None,
    }
}

/// A revision of a backup.
pub struct BackupRevision {
    pub item: [u8; 16],
    pub issuer: [u8; 16],
    pub modified: i64,
    pub record: LogicalRecord,
}

/// The contents of a [`BackupRevision`].
pub struct BackupRevisionModel {
    pub item: [u8; 16],
    pub issuer: [u8; 16],
    pub modified: i64,
    pub record: RecordModel,
}

impl View for BackupRevision {
    type V = BackupRevisionModel;

    open spec fn view(&self) -> BackupRevisionModel {
        BackupRevisionModel {
            item: self.item,
            issuer: self.issuer,
            modified: self.modified,
            record: self.record@,
        }
    }
}

/// The revision that a payload describes.
pub open spec fn revision_of(b: Seq<u8>) -> Option<BackupRevisionModel> {
    let item = next_fixed::<16>(take_array_of(b, 4));
    let issuer = next_fixed::<16>(after(item));
    let modified = next_int(after(issuer));
    let record = match after(modified) {
        Some(b) => record_at(b),
        None => None,
    };
    if record is Some && (record->0).1.len() == 0 {
        Some(
            BackupRevisionModel {
                item: (item->0).0,
                issuer: (issuer->0).0,
                modified: (modified->0).0,
                record: (record->0).0,
            },
        )
    } else {
        None
    }
}

/// Reads a revision.
fn read_revision<'a>(d: &mut Reader<'a>) -> (r: Option<BackupRevision>)
    ensures
        match revision_of(old(d).rest()) {
            Some(m) => r is Some && (r->0)@ == m,
            None => r is None,
        },
{
    d.array_of(4)?;
    let item = take_id(d)?;
    let issuer = take_id(d)?;
    let modified: i64 = d.i64()?;
    let record = read_record(d)?;
    if !d.at_end() {
        return None;
    }
    Some(BackupRevision { item, issuer, modified, record })
}

/// Decodes a revision.
pub fn decode_revision<'a>(input: &'a [u8]) -> (r: Result<BackupRevision, HumanCommitError>)
    ensures
        match revision_of(input@) {
            Some(m) => r is Ok && (r->Ok_0)@ == m,
            None => r is Err && r->Err_0 is InvalidInput,
        },
{
    let mut d = Reader::new(input);
    match read_revision(&mut d) {
        Some(v) => Ok(v),
        None => Err(HumanCommitError::InvalidInput),
    }
}

/// A file of a backup.
#[derive(Clone, Copy)]
pub struct BackupAttachment {
    pub item: [u8; 16],
    pub revision: [u8; 16],
    pub attachment: [u8; 16],
    pub size: u64,
    pub sha256: [u8; 32],
    pub chunks: u64,
}

/// How many chunks a file has; an empty file has one.
pub open spec fn chunks_of(size: int) -> int {
    if size <= 1 {
        1
    } else {
        (size + CHUNK - 1) / (CHUNK as int)
    }
}

/// Whether a file is within its limits and has as many chunks as its size asks
/// for.
pub open spec fn chunks_valid(size: u64, chunks: u64) -> bool {
    size <= MAX_FILE_BYTES && chunks == chunks_of(size as int) && chunks <= MAX_CHUNKS
}

/// Whether a file is within its limits and has as many chunks as its size asks
/// for.
fn check_chunks(size: u64, chunks: u64) -> (r: bool)
    ensures
        r == chunks_valid(size, chunks),
{
    if size > MAX_FILE_BYTES {
        return false;
    }
    let expected: u64 = if size <= 1 {
        1
    } else {
        (size - 1) / 1048576 + 1
    };
    assert(expected == chunks_of(size as int));
    chunks == expected && chunks <= MAX_CHUNKS
}

/// The file that a payload describes.
pub open spec fn attachment_of(b: Seq<u8>) -> Option<BackupAttachment> {
    let item = next_fixed::<16>(take_array_of(b, 8));
    let revision = next_fixed::<16>(after(item));
    let attachment = next_fixed::<16>(after(revision));
    let name = next_text(after(attachment));
    let mime = next_text(after(name));
    let size = next_uint(after(mime));
    let sha256 = next_fixed::<32>(after(size));
    let chunks = next_uint(after(sha256));
    if chunks is Some && (chunks->0).1.len() == 0 && chunks_valid((size->0).0, (chunks->0).0) {
        Some(
            BackupAttachment {
                item: (item->0).0,
                revision: (revision->0).0,
                attachment: (attachment->0).0,
                size: (size->0).0,
                sha256: (sha256->0).0,
                chunks: (chunks->0).0,
            },
        )
    } else {
        None
    }
}

/// Reads a file.
fn read_attachment<'a>(d: &mut Reader<'a>) -> (r: Option<BackupAttachment>)
    ensures
        match attachment_of(old(d).rest()) {
            Some(m) => r is Some && (r->0) == m,
            None => r is None,
        },
{
    d.array_of(8)?;
    let item = take_id(d)?;
    let revision = take_id(d)?;
    let attachment = take_id(d)?;
    d.str()?;
    d.str()?;
    let size: u64 = d.u64()?;
    let sha256 = take_digest(d)?;
    let chunks: u64 = d.u64()?;
    if !(check_chunks(size, chunks)) {
        return None;
    }
    if !d.at_end() {
        return None;
    }
    Some(BackupAttachment { item, revision, attachment, size, sha256, chunks })
}

/// Decodes a file.
pub fn decode_attachment<'a>(input: &'a [u8]) -> (r: Result<BackupAttachment, HumanCommitError>)
    ensures
        match attachment_of(input@) {
            Some(m) => r is Ok && (r->Ok_0) == m,
            None => r is Err && r->Err_0 is InvalidInput,
        },
{
    let mut d = Reader::new(input);
    match read_attachment(&mut d) {
        Some(v) => Ok(v),
        None => Err(HumanCommitError::InvalidInput),
    }
}

/// A chunk of a file of a backup.
pub struct BackupChunk<'a> {
    pub revision: [u8; 16],
    pub attachment: [u8; 16],
    pub index: u64,
    pub content: &'a [u8],
}

/// The contents of a [`BackupChunk`].
pub struct ChunkModel {
    pub revision: [u8; 16],
    pub attachment: [u8; 16],
    pub index: u64,
    pub content: Seq<u8>,
}

impl<'a> View for BackupChunk<'a> {
    type V = ChunkModel;

    open spec fn view(&self) -> ChunkModel {
        ChunkModel {
            revision: self.revision,
            attachment: self.attachment,
            index: self.index,
            content: self.content@,
        }
    }
}

/// The chunk that a payload holds.
pub open spec fn chunk_of(b: Seq<u8>) -> Option<ChunkModel> {
    let revision = next_fixed::<16>(take_array_of(b, 4));
    let attachment = next_fixed::<16>(after(revision));
    let index = next_uint(after(attachment));
    let content = next_bytes(after(index));
    if content is Some && (content->0).1.len() == 0 {
        Some(
            ChunkModel {
                revision: (revision->0).0,
                attachment: (attachment->0).0,
                index: (index->0).0,
                content: (content->0).0,
            },
        )
    } else {
        None
    }
}

/// Reads a chunk.
fn read_chunk<'a>(d: &mut Reader<'a>) -> (r: Option<BackupChunk<'a>>)
    ensures
        match chunk_of(old(d).rest()) {
            Some(m) => r is Some && (r->0)@ == m,
            None => r is None,
        },
{
    d.array_of(4)?;
    let revision = take_id(d)?;
    let attachment = take_id(d)?;
    let index: u64 = d.u64()?;
    let content = d.bytes()?;
    if !d.at_end() {
        return None;
    }
    Some(BackupChunk { revision, attachment, index, content })
}

/// Decodes a chunk.
pub fn decode_attachment_chunk<'a>(input: &'a [u8]) -> (r: Result<BackupChunk<'a>,
    HumanCommitError>)
    ensures
        match chunk_of(input@) {
            Some(m) => r is Ok && (r->Ok_0)@ == m,
            None => r is Err && r->Err_0 is InvalidInput,
        },
{
    let mut d = Reader::new(input);
    match read_chunk(&mut d) {
        Some(v) => Ok(v),
        None => Err(HumanCommitError::InvalidInput),
    }
}

/// A data record is read back.
pub proof fn lemma_data_record(kind: Seq<char>, id: [u8; 16], payload: Seq<u8>)
    requires
        data_bytes(kind, id, payload).len() <= u64::MAX,
    ensures
        data_of(data_bytes(kind, id, payload), kind) == Some((id, payload)),
{
    let t7 = Seq::<u8>::empty();
    let t6 = bytes_item(payload) + t7;
    let t5 = text_item("payload"@) + t6;
    let t4 = bytes_item(id@) + t5;
    let t3 = text_item("id"@) + t4;
    let t2 = text_item(kind) + t3;
    let t1 = text_item("type"@) + t2;
    let t0 = map_head(3) + t1;
    assert(t0 == data_bytes(kind, id, payload));
    lemma_map(3, t1);
    lemma_text_within("type"@, t2);
    lemma_text_within(kind, t3);
    lemma_text_within("id"@, t4);
    lemma_bytes_within(id@, t5);
    lemma_array_of(id);
    lemma_text_within("payload"@, t6);
    lemma_bytes_within(payload, t7);
}

/// An item is read back.
pub proof fn lemma_item_record(visible: [u8; 16], kind: RecordKind, status: Seq<char>)
    requires
        item_bytes(visible, kind_name(kind), status).len() <= u64::MAX,
        lifecycle_named(status) is Some,
    ensures
        item_of(item_bytes(visible, kind_name(kind), status)) == Some(
            BackupItem { visible, kind, status: lifecycle_named(status)->0 },
        ),
{
    let t4 = Seq::<u8>::empty();
    let t3 = text_item(status) + t4;
    let t2 = text_item(kind_name(kind)) + t3;
    let t1 = bytes_item(visible@) + t2;
    let t0 = array_head(3) + t1;
    assert(t0 == item_bytes(visible, kind_name(kind), status));
    lemma_kind_named(kind);
    lemma_array(3, t1);
    lemma_bytes_within(visible@, t2);
    lemma_array_of(visible);
    lemma_text_within(kind_name(kind), t3);
    lemma_text_within(status, t4);
}

/// A revision is read back.
pub proof fn lemma_revision_record(item: [u8; 16], issuer: [u8; 16], modified: i64,
    record: RecordModel)
    requires
        revision_bytes(item, issuer, modified, descriptor_bytes(record)).len() <= u64::MAX,
        described(descriptor_bytes(record)) is Some,
    ensures
        revision_of(revision_bytes(item, issuer, modified, descriptor_bytes(record))) == Some(
            BackupRevisionModel {
                item,
                issuer,
                modified,
                record: described(descriptor_bytes(record))->0,
            },
        ),
{
    let t5 = Seq::<u8>::empty();
    let t4 = bytes_item(descriptor_bytes(record)) + t5;
    let t3 = int_item(modified) + t4;
    let t2 = bytes_item(issuer@) + t3;
    let t1 = bytes_item(item@) + t2;
    let t0 = array_head(4) + t1;
    assert(t0 == revision_bytes(item, issuer, modified, descriptor_bytes(record)));
    lemma_array(4, t1);
    lemma_bytes_within(item@, t2);
    lemma_array_of(item);
    lemma_bytes_within(issuer@, t3);
    lemma_array_of(issuer);
    lemma_int(modified, t4);
    lemma_bytes_within(descriptor_bytes(record), t5);
}

/// A file is read back.
pub proof fn lemma_attachment_record(item: [u8; 16], revision: [u8; 16], attachment: [u8; 16],
    name: Seq<char>, mime: Seq<char>, size: u64, sha256: [u8; 32], chunks: u64)
    requires
        attachment_bytes(item, revision, attachment, name, mime, size, sha256,
            chunks).len() <= u64::MAX,
    ensures
        attachment_of(
            attachment_bytes(item, revision, attachment, name, mime, size, sha256, chunks),
        ) == (if chunks_valid(size, chunks) {
            Some(BackupAttachment { item, revision, attachment, size, sha256, chunks })
        } else {
            None
        }),
{
    let t9 = Seq::<u8>::empty();
    let t8 = uint_item(chunks) + t9;
    let t7 = bytes_item(sha256@) + t8;
    let t6 = uint_item(size) + t7;
    let t5 = text_item(mime) + t6;
    let t4 = text_item(name) + t5;
    let t3 = bytes_item(attachment@) + t4;
    let t2 = bytes_item(revision@) + t3;
    let t1 = bytes_item(item@) + t2;
    let t0 = array_head(8) + t1;
    assert(t0 == attachment_bytes(item, revision, attachment, name, mime, size, sha256, chunks));
    lemma_array(8, t1);
    lemma_bytes_within(item@, t2);
    lemma_array_of(item);
    lemma_bytes_within(revision@, t3);
    lemma_array_of(revision);
    lemma_bytes_within(attachment@, t4);
    lemma_array_of(attachment);
    lemma_text_within(name, t5);
    lemma_text_within(mime, t6);
    lemma_uint(size, t7);
    lemma_bytes_within(sha256@, t8);
    lemma_array_of(sha256);
    lemma_uint(chunks, t9);
}

/// A chunk is read back.
pub proof fn lemma_chunk_record(revision: [u8; 16], attachment: [u8; 16], index: u64,
    content: Seq<u8>)
    requires
        chunk_bytes(revision, attachment, index, content).len() <= u64::MAX,
    ensures
        chunk_of(chunk_bytes(revision, attachment, index, content)) == Some(
            ChunkModel { revision, attachment, index, content },
        ),
{
    let t5 = Seq::<u8>::empty();
    let t4 = bytes_item(content) + t5;
    let t3 = uint_item(index) + t4;
    let t2 = bytes_item(attachment@) + t3;
    let t1 = bytes_item(revision@) + t2;
    let t0 = array_head(4) + t1;
    assert(t0 == chunk_bytes(revision, attachment, index, content));
    lemma_array(4, t1);
    lemma_bytes_within(revision@, t2);
    lemma_array_of(revision);
    lemma_bytes_within(attachment@, t3);
    lemma_array_of(attachment);
    lemma_uint(index, t4);
    lemma_bytes_within(content, t5);
}

/// The type that a record names.
pub open spec fn type_of(b: Seq<u8>) -> Option<Seq<char>> {
    match take_map(b) {
        Some((_, b)) => match take_key(b, "type"@) {
            Some(b) => match take_text(b) {
                Some((kind, _)) => Some(kind),
                None => None,
            },
            None => None,
        },
        None => None,
    }
}

/// Reads the type of a record.
fn read_type<'a>(d: &mut Reader<'a>) -> (r: Option<&'a str>)
    ensures
        match type_of(old(d).rest()) {
            Some(kind) => r is Some && (r->0)@ == kind,
            None => r is None,
        },
{
    d.map()?;
    d.key("type")?;
    d.str()
}

/// The type that a record names.
pub fn peek_type<'a>(record: &'a [u8]) -> (r: Result<&'a str, HumanCommitError>)
    ensures
        match type_of(record@) {
            Some(kind) => r is Ok && (r->Ok_0)@ == kind,
            None => r is Err && r->Err_0 is InvalidInput,
        },
{
    let mut d = Reader::new(record);
    match read_type(&mut d) {
        Some(kind) => Ok(kind),
        None => Err(HumanCommitError::InvalidInput),
    }
}

/// Whether a record of a type holds data.
pub open spec fn data_type(kind: Seq<char>) -> bool {
    kind == "item"@ || kind == "revision"@ || kind == "partial_history"@ || kind == "attachment"@
        || kind == "attachment_chunk"@ || kind == "organization"@ || kind == "settings"@ || kind
        == "audit_bundle"@ || kind == "authority_history"@ || kind == "identity_metadata"@
}

/// Whether a record of a type holds data.
pub fn is_data_type(kind: &str) -> (r: bool)
    ensures
        r == data_type(kind@),
{
    same_str(kind, "item") || same_str(kind, "revision") || same_str(kind, "partial_history")
        || same_str(kind, "attachment") || same_str(kind, "attachment_chunk") || same_str(
        kind,
        "organization",
    ) || same_str(kind, "settings") || same_str(kind, "audit_bundle") || same_str(
        kind,
        "authority_history",
    ) || same_str(kind, "identity_metadata")
}

/// A record stands behind its length, in four bytes; one that is empty or over
/// sixteen mebibytes is refused, and for one that is not there yet more is
/// awaited.
pub proof fn lemma_frames(b: Seq<u8>)
    ensures
        b.len() < 4 ==> frame_at(b) == Ok::<Option<(Seq<u8>, Seq<u8>)>, HumanCommitError>(None),
        b.len() >= 4 ==> {
            let n = b[0] * 0x1000000 + b[1] * 0x10000 + b[2] * 0x100 + b[3];
            &&& n == 0 || n > 16 * 1024 * 1024 ==> frame_at(b) == Err::<
                Option<(Seq<u8>, Seq<u8>)>,
                _,
            >(HumanCommitError::InvalidInput)
            &&& 0 < n <= 16 * 1024 * 1024 && b.len() < 4 + n ==> frame_at(b) == Ok::<
                Option<(Seq<u8>, Seq<u8>)>,
                HumanCommitError,
            >(None)
            &&& 0 < n <= 16 * 1024 * 1024 && b.len() >= 4 + n ==> frame_at(b) == Ok::<
                Option<(Seq<u8>, Seq<u8>)>,
                HumanCommitError,
            >(Some((b.subrange(4, 4 + n), b.skip(4 + n))))
        },
{
}

/// A file is cut into pieces of one mebibyte, the last of which may be shorter;
/// an empty one is one empty piece; and none is over sixteen gibibytes.
pub proof fn lemma_piece_count(size: u64, chunks: u64)
    ensures
        chunks_valid(size, chunks) <==> {
            &&& size <= 17179869184
            &&& size <= chunks * 1048576
            &&& size > 0 ==> (chunks - 1) * 1048576 < size
            &&& size == 0 ==> chunks == 1
        },
{
    let n = (size + 1048575) / 1048576;
    assert(n * 1048576 <= size + 1048575 < (n + 1) * 1048576);
    if size > 1 {
        assert(chunks_of(size as int) == n);
        if size <= chunks * 1048576 && (chunks - 1) * 1048576 < size {
            assert(chunks == n);
        }
    }
}

/// The file of a backup starts with four letters, the length of its header, and
/// the header.
pub proof fn lemma_outer_file(m: OuterModel)
    requires
        outer_bytes(m).len() <= u32::MAX,
    ensures
        ({
            let b = outer_file_bytes(m);
            let n = outer_bytes(m).len() as int;
            &&& b.len() == 8 + n
            &&& b[0] == 'P' as u8 && b[1] == 'M' as u8 && b[2] == 'B' as u8 && b[3] == '1' as u8
            &&& b[4] * 0x1000000 + b[5] * 0x10000 + b[6] * 0x100 + b[7] == n
            &&& b.subrange(8, 8 + n) == outer_bytes(m)
        }),
{
    let b = outer_file_bytes(m);
    let n = outer_bytes(m).len() as int;
    lemma_be32(n as u32, outer_bytes(m));
    let l = be32(n as u32) + outer_bytes(m);
    assert(b =~= seq![0x50u8, 0x4d, 0x42, 0x31] + l);
    assert(b[4] == l[0] && b[5] == l[1] && b[6] == l[2] && b[7] == l[3]);
    assert(b.subrange(8, 8 + n) =~= outer_bytes(m));
}

/// The kinds of records that hold data.
pub proof fn lemma_data_kinds(kind: Seq<char>)
    ensures
        data_type(kind) <==> {
            ||| kind == "item"@
            ||| kind == "revision"@
            ||| kind == "partial_history"@
            ||| kind == "attachment"@
            ||| kind == "attachment_chunk"@
            ||| kind == "organization"@
            ||| kind == "settings"@
            ||| kind == "audit_bundle"@
            ||| kind == "authority_history"@
            ||| kind == "identity_metadata"@
        },
{
}

/// A record is read as one of its own kind, and of no other.
pub proof fn lemma_data_kind(kind: Seq<char>, other: Seq<char>, id: [u8; 16], payload: Seq<u8>)
    requires
        data_bytes(kind, id, payload).len() <= u64::MAX,
    ensures
        type_of(data_bytes(kind, id, payload)) == Some(kind),
        other != kind ==> data_of(data_bytes(kind, id, payload), other) is None,
        data_of(data_bytes(kind, id, payload), kind) == Some((id, payload)),
{
    lemma_data_record(kind, id, payload);
    let t5 = bytes_item(payload) + Seq::<u8>::empty();
    let t4 = text_item("payload"@) + t5;
    let t3 = bytes_item(id@) + t4;
    let t2 = text_item("id"@) + t3;
    let t1 = text_item(kind) + t2;
    let t0 = text_item("type"@) + t1;
    assert(data_bytes(kind, id, payload) == map_head(3) + t0);
    lemma_map(3, t0);
    lemma_text_within("type"@, t1);
    lemma_text_within(kind, t2);
}

} // verus!

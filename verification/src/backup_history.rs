//! The history that a backup carries along: audit bundles and authority events.
use crate::bytes::{be64, push_be64, wrap, wrapped};
use crate::cbor::{
    array_head, bool_item, bytes_item, int_item, lemma_array, lemma_bool, lemma_bytes_within,
    lemma_int, lemma_regroup, lemma_text_within, null_item, optional_bytes_item, take_array,
    take_array_of, take_bytes, take_null, text_item, Reader, Writer,
};
use crate::errors::HumanCommitError;
use crate::backup_format::MAX_PARENTS;
use crate::lists::{
    after, array_of, digest_list_at, digests_tail, digests_then, fixed_at, lemma_array_of,
    lemma_digest_list, lemma_optional_array, next_bool, next_bytes, next_fixed, next_int,
    next_optional, next_text, opt_array, read_digests, take_digest, take_id, take_optional_digest,
};
use crate::ordered::{increasing, same_array, sorted_set};
use crate::text::text_from_utf8;
use crate::views::views;
use vstd::prelude::*;
use vstd::slice::slice_to_vec;
use vstd::utf8::{decode_utf8, valid_utf8};

verus! {

/// A value of a database row.
pub enum SqlValue {
    Null,
    Integer(i64),
    Text(Vec<u8>),
    Blob(Vec<u8>),
    Real,
}

/// A value as it is backed up; floating-point numbers and broken text are not.
pub open spec fn value_item(v: SqlValue) -> Option<Seq<u8>> {
    match v {
        SqlValue::Null => Some(null_item()),
        SqlValue::Integer(n) => Some(int_item(n)),
        SqlValue::Text(s) => if valid_utf8(s@) {
            Some(text_item(decode_utf8(s@)))
        } else {
            None
        },
        SqlValue::Blob(s) => Some(bytes_item(s@)),
        SqlValue::Real => None,
    }
}

/// The first `n` values of a row as they are backed up.
pub open spec fn values_bytes(v: Seq<SqlValue>, n: nat) -> Option<Seq<u8>>
    decreases n,
{
    if n == 0 {
        Some(Seq::empty())
    } else {
        match (values_bytes(v, (n - 1) as nat), value_item(v[n - 1])) {
            (Some(a), Some(b)) => Some(a + b),
            _ => None,
        }
    }
}

/// A row as it is backed up.
pub open spec fn row_bytes(v: Seq<SqlValue>) -> Option<Seq<u8>> {
    match values_bytes(v, v.len()) {
        Some(b) => Some(array_head(v.len() as u64) + b),
        None => None,
    }
}

/// Appends a value.
fn put_value(w: &mut Writer, v: &SqlValue) -> (r: bool)
    ensures
        match value_item(*v) {
            Some(b) => r && final(w)@ == old(w)@ + b,
            None => !r,
        },
{
    let ghost none = Seq::<u8>::empty();
    let ghost start = w@;
    match v {
        SqlValue::Null => {
            assert(null_item() + none =~= null_item());
            w.null();
            assert(w@ + none =~= w@);
            true
        },
        SqlValue::Integer(n) => {
            assert(int_item(*n) + none =~= int_item(*n));
            w.i64(*n);
            assert(w@ + none =~= w@);
            true
        },
        SqlValue::Text(s) => match text_from_utf8(slice_to_vec(s.as_slice())) {
            Some(text) => {
                assert(text_item(text@) + none =~= text_item(text@));
                w.str(text.as_str());
                assert(w@ + none =~= w@);
                true
            },
            None => false,
        },
        SqlValue::Blob(s) => {
            assert(bytes_item(s@) + none =~= bytes_item(s@));
            w.bytes(s.as_slice());
            assert(w@ + none =~= w@);
            true
        },
        SqlValue::Real => false,
    }
}

/// A value that is not backed up leaves its row out.
proof fn lemma_values_fail(v: Seq<SqlValue>, i: nat, n: nat)
    requires
        i <= n,
        values_bytes(v, i) is None,
    ensures
        values_bytes(v, n) is None,
    decreases n,
{
    if i < n {
        lemma_values_fail(v, i, (n - 1) as nat);
    }
}

/// Encodes a row of the database.
pub fn encode_sql_row(values: &Vec<SqlValue>) -> (r: Result<Vec<u8>, HumanCommitError>)
    ensures
        match row_bytes(values@) {
            Some(b) => r is Ok && (r->Ok_0)@ == b,
            None => r is Err && r->Err_0 is InvalidInput,
        },
{
    let mut w = Writer::new();
    let ghost none = Seq::<u8>::empty();
    assert(none + (array_head(values.len() as u64) + none) =~= array_head(values.len() as u64));
    w.array(values.len() as u64);
    assert(w@ + none =~= w@);
    let ghost head = w@;
    let mut i: usize = 0;
    assert(head + none =~= head);
    while i < values.len()
        invariant
            i <= values@.len(),
            head == array_head(values.len() as u64),
            values_bytes(values@, i as nat) is Some,
            w@ == head + values_bytes(values@, i as nat)->0,
        decreases values@.len() - i,
    {
        let ghost before = w@;
        if !put_value(&mut w, &values[i]) {
            proof {
                lemma_values_fail(values@, (i + 1) as nat, values@.len());
            }
            return Err(HumanCommitError::InvalidInput);
        }
        assert(w@ =~= head + values_bytes(values@, (i + 1) as nat)->0);
        i += 1;
    }
    Ok(w.finish())
}

/// A value as the digest of a restore covers it.
pub open spec fn digested_value(v: SqlValue) -> Option<Seq<u8>> {
    match v {
        SqlValue::Null => Some(seq![0u8]),
        SqlValue::Integer(n) => Some(seq![1u8] + be64(wrapped(n))),
        SqlValue::Text(s) => Some(seq![2u8] + be64(s@.len() as u64) + s@),
        SqlValue::Blob(s) => Some(seq![2u8] + be64(s@.len() as u64) + s@),
        SqlValue::Real => None,
    }
}

/// The bytes that the digest of a restore covers of a value.
pub fn digest_value(v: &SqlValue) -> (r: Result<Vec<u8>, HumanCommitError>)
    ensures
        match digested_value(*v) {
            Some(b) => r is Ok && (r->Ok_0)@ == b,
            None => r is Err && r->Err_0 is Integrity,
        },
{
    let mut out: Vec<u8> = Vec::new();
    match v {
        SqlValue::Null => {
            out.push(0);
            assert(out@ =~= seq![0u8]);
        },
        SqlValue::Integer(n) => {
            out.push(1);
            assert(out@ =~= seq![1u8]);
            push_be64(&mut out, wrap(*n));
        },
        SqlValue::Text(s) | SqlValue::Blob(s) => {
            out.push(2);
            assert(out@ =~= seq![2u8]);
            push_be64(&mut out, s.len() as u64);
            out.extend_from_slice(s.as_slice());
            assert(out@ =~= seq![2u8] + be64(s@.len() as u64) + s@);
        },
        SqlValue::Real => return Err(HumanCommitError::Integrity),
    }
    Ok(out)
}

/// A sealed audit record as it is stored.
pub struct AuditRecordRow {
    pub seq: i64,
    pub event_id: Vec<u8>,
    pub record: Vec<u8>,
    pub signature: Vec<u8>,
    pub record_hash: Vec<u8>,
}

/// The contents of a [`AuditRecordRow`].
pub struct AuditRowModel {
    pub seq: i64,
    pub event_id: Seq<u8>,
    pub record: Seq<u8>,
    pub signature: Seq<u8>,
    pub record_hash: Seq<u8>,
}

impl View for AuditRecordRow {
    type V = AuditRowModel;

    open spec fn view(&self) -> AuditRowModel {
        AuditRowModel {
            seq: self.seq,
            event_id: self.event_id@,
            record: self.record@,
            signature: self.signature@,
            record_hash: self.record_hash@,
        }
    }
}

/// A sealed audit record, followed by `t`.
pub open spec fn audit_row_then(m: AuditRowModel, t: Seq<u8>) -> Seq<u8> {
    array_head(5) + (int_item(m.seq) + (bytes_item(m.event_id) + (bytes_item(m.record)
        + (bytes_item(m.signature) + (bytes_item(m.record_hash) + t)))))
}

/// Appends a sealed audit record.
fn put_audit_row(w: &mut Writer, x: &AuditRecordRow)
    ensures
        forall|t: Seq<u8>|
            #![trigger old(w)@ + audit_row_then(x@, t)]
            final(w)@ + t == old(w)@ + audit_row_then(x@, t),
{
    w.array(5);
    w.i64(x.seq);
    w.bytes(x.event_id.as_slice());
    w.bytes(x.record.as_slice());
    w.bytes(x.signature.as_slice());
    w.bytes(x.record_hash.as_slice());
}

/// The records of a list, followed by `t`.
pub open spec fn audit_rows_tail(v: Seq<AuditRowModel>, t: Seq<u8>) -> Seq<u8>
    decreases v.len(),
{
    if v.len() == 0 {
        t
    } else {
        audit_row_then(v[0], audit_rows_tail(v.skip(1), t))
    }
}

/// A list of sealed audit records, followed by `t`.
pub open spec fn audit_rows_then(v: Seq<AuditRowModel>, t: Seq<u8>) -> Seq<u8> {
    array_head(v.len() as u64) + audit_rows_tail(v, t)
}

/// Appends a list of sealed audit records.
fn put_audit_rows(w: &mut Writer, values: &Vec<AuditRecordRow>)
    ensures
        forall|t: Seq<u8>|
            #![trigger old(w)@ + audit_rows_then(views(values@), t)]
            final(w)@ + t == old(w)@ + audit_rows_then(views(values@), t),
{
    let ghost start = w@;
    let ghost all = views(values@);
    w.array(values.len() as u64);
    let mut i: usize = 0;
    assert(all.skip(0) =~= all);
    while i < values.len()
        invariant
            i <= values@.len(),
            all == views(values@),
            forall|t: Seq<u8>|
                #![trigger start + audit_rows_then(all, t)]
                w@ + audit_rows_tail(all.skip(i as int), t) == start + audit_rows_then(all, t),
        decreases values@.len() - i,
    {
        assert(all.skip(i as int).skip(1) =~= all.skip(i + 1));
        assert(all.skip(i as int)[0] == all[i as int]);
        assert forall|t: Seq<u8>| #![trigger start + audit_rows_then(all, t)] w@
            + audit_row_then(all[i as int], audit_rows_tail(all.skip(i + 1), t))
            == start + audit_rows_then(all, t) by {
        }
        put_audit_row(w, &values[i]);
        i += 1;
    }
    assert(all.skip(i as int) =~= Seq::empty());
}

/// A segment of the audit history with its key package, its manifest and its records.
pub struct AuditBundle {
    pub segment: [u8; 16],
    pub device: [u8; 16],
    pub generation: i64,
    pub first_seq: i64,
    pub last_seq: i64,
    pub previous_hash: Vec<u8>,
    pub last_hash: Vec<u8>,
    pub record_count: i64,
    pub stored_bytes: i64,
    pub closed: bool,
    pub human_envelope: Vec<u8>,
    pub encryption_public_key: Vec<u8>,
    pub signing_public_key: Vec<u8>,
    pub human_signature: Vec<u8>,
    pub manifest: Vec<u8>,
    pub records: Vec<AuditRecordRow>,
}

/// The contents of a [`AuditBundle`].
pub struct AuditBundleModel {
    pub segment: [u8; 16],
    pub device: [u8; 16],
    pub generation: i64,
    pub first_seq: i64,
    pub last_seq: i64,
    pub previous_hash: Seq<u8>,
    pub last_hash: Seq<u8>,
    pub record_count: i64,
    pub stored_bytes: i64,
    pub closed: bool,
    pub human_envelope: Seq<u8>,
    pub encryption_public_key: Seq<u8>,
    pub signing_public_key: Seq<u8>,
    pub human_signature: Seq<u8>,
    pub manifest: Seq<u8>,
    pub records: Seq<AuditRowModel>,
}

impl View for AuditBundle {
    type V = AuditBundleModel;

    open spec fn view(&self) -> AuditBundleModel {
        AuditBundleModel {
            segment: self.segment,
            device: self.device,
            generation: self.generation,
            first_seq: self.first_seq,
            last_seq: self.last_seq,
            previous_hash: self.previous_hash@,
            last_hash: self.last_hash@,
            record_count: self.record_count,
            stored_bytes: self.stored_bytes,
            closed: self.closed,
            human_envelope: self.human_envelope@,
            encryption_public_key: self.encryption_public_key@,
            signing_public_key: self.signing_public_key@,
            human_signature: self.human_signature@,
            manifest: self.manifest@,
            records: views(self.records@),
        }
    }
}

/// An audit bundle, followed by `t`.
pub open spec fn audit_bundle_then(m: AuditBundleModel, t: Seq<u8>) -> Seq<u8> {
    array_head(16) + (bytes_item(m.segment@) + (bytes_item(m.device@) + (int_item(m.generation)
        + (int_item(m.first_seq) + (int_item(m.last_seq) + (bytes_item(m.previous_hash)
        + (bytes_item(m.last_hash) + (int_item(m.record_count) + (int_item(m.stored_bytes)
        + (bool_item(m.closed) + (bytes_item(m.human_envelope)
        + (bytes_item(m.encryption_public_key) + (bytes_item(m.signing_public_key)
        + (bytes_item(m.human_signature) + (bytes_item(m.manifest)
        + (audit_rows_then(m.records, t)))))))))))))))))
}

/// An audit bundle.
pub open spec fn audit_bundle_bytes(m: AuditBundleModel) -> Seq<u8> {
    audit_bundle_then(m, Seq::empty())
}

/// Appends an audit bundle.
fn put_audit_bundle(w: &mut Writer, x: &AuditBundle)
    ensures
        forall|t: Seq<u8>|
            #![trigger old(w)@ + audit_bundle_then(x@, t)]
            final(w)@ + t == old(w)@ + audit_bundle_then(x@, t),
{
    w.array(16);
    w.bytes(&x.segment);
    w.bytes(&x.device);
    w.i64(x.generation);
    w.i64(x.first_seq);
    w.i64(x.last_seq);
    w.bytes(x.previous_hash.as_slice());
    w.bytes(x.last_hash.as_slice());
    w.i64(x.record_count);
    w.i64(x.stored_bytes);
    w.bool(x.closed);
    w.bytes(x.human_envelope.as_slice());
    w.bytes(x.encryption_public_key.as_slice());
    w.bytes(x.signing_public_key.as_slice());
    w.bytes(x.human_signature.as_slice());
    w.bytes(x.manifest.as_slice());
    put_audit_rows(w, &x.records);
}

/// Encodes an audit bundle.
pub fn encode_audit_bundle(x: &AuditBundle) -> (r: Vec<u8>)
    ensures
        r@ == audit_bundle_bytes(x@),
{
    let mut w = Writer::new();
    let ghost none = Seq::<u8>::empty();
    assert(none + audit_bundle_then(x@, none) =~= audit_bundle_bytes(x@));
    put_audit_bundle(&mut w, x);
    assert(w@ + none =~= w@);
    w.finish()
}

/// The device, the generation and the envelope of the audit key of a bundle.
pub open spec fn audit_key_of(b: Seq<u8>) -> Option<([u8; 16], u64, Seq<u8>)> {
    let segment = next_fixed::<16>(take_array_of(b, 16));
    let device = next_fixed::<16>(after(segment));
    let generation = next_int(after(device));
    let first_seq = next_int(after(generation));
    let last_seq = next_int(after(first_seq));
    let previous_hash = next_bytes(after(last_seq));
    let last_hash = next_bytes(after(previous_hash));
    let record_count = next_int(after(last_hash));
    let stored_bytes = next_int(after(record_count));
    let closed = next_bool(after(stored_bytes));
    let envelope = next_bytes(after(closed));
    if envelope is Some && (generation->0).0 > 0 {
        Some(((device->0).0, (generation->0).0 as u64, (envelope->0).0))
    } else {
        None
    }
}

/// Reads the audit key of a bundle.
fn read_audit_key<'a>(d: &mut Reader<'a>) -> (r: Option<([u8; 16], u64, &'a [u8])>)
    ensures
        match audit_key_of(old(d).rest()) {
            Some(m) => r is Some && (r->0).0 == m.0 && (r->0).1 == m.1 && (r->0).2@ == m.2,
            None => r is None,
        },
{
    d.array_of(16)?;
    take_id(d)?;
    let device = take_id(d)?;
    let generation: i64 = d.i64()?;
    if !(generation > 0) {
        return None;
    }
    d.i64()?;
    d.i64()?;
    d.bytes()?;
    d.bytes()?;
    d.i64()?;
    d.i64()?;
    d.bool()?;
    let envelope = d.bytes()?;
    Some((device, generation as u64, envelope))
}

/// The device, the generation and the envelope of the audit key of a bundle.
pub fn audit_key_fields<'a>(payload: &'a [u8]) -> (r: Result<
    ([u8; 16], u64, &'a [u8]),
    HumanCommitError,
>)
    ensures
        match audit_key_of(payload@) {
            Some(m) => r is Ok && (r->Ok_0).0 == m.0 && (r->Ok_0).1 == m.1 && (r->Ok_0).2@ == m.2,
            None => r is Err && r->Err_0 is InvalidInput,
        },
{
    let mut d = Reader::new(payload);
    match read_audit_key(&mut d) {
        Some(v) => Ok(v),
        None => Err(HumanCommitError::InvalidInput),
    }
}

/// The audit key of a bundle is read back from it.
#[verifier::rlimit(40)]
pub proof fn lemma_audit_key(m: AuditBundleModel)
    requires
        audit_bundle_bytes(m).len() <= u64::MAX,
        m.generation > 0,
    ensures
        audit_key_of(audit_bundle_bytes(m)) == Some(
            (m.device, m.generation as u64, m.human_envelope),
        ),
{
    let t17 = Seq::<u8>::empty();
    let t16 = audit_rows_then(m.records, t17);
    let t15 = bytes_item(m.manifest) + t16;
    let t14 = bytes_item(m.human_signature) + t15;
    let t13 = bytes_item(m.signing_public_key) + t14;
    let t12 = bytes_item(m.encryption_public_key) + t13;
    let t11 = bytes_item(m.human_envelope) + t12;
    let t10 = bool_item(m.closed) + t11;
    let t9 = int_item(m.stored_bytes) + t10;
    let t8 = int_item(m.record_count) + t9;
    let t7 = bytes_item(m.last_hash) + t8;
    let t6 = bytes_item(m.previous_hash) + t7;
    let t5 = int_item(m.last_seq) + t6;
    let t4 = int_item(m.first_seq) + t5;
    let t3 = int_item(m.generation) + t4;
    let t2 = bytes_item(m.device@) + t3;
    let t1 = bytes_item(m.segment@) + t2;
    let t0 = array_head(16) + t1;
    assert(t0 == audit_bundle_bytes(m));
    lemma_array(16, t1);
    lemma_bytes_within(m.segment@, t2);
    lemma_array_of(m.segment);
    lemma_bytes_within(m.device@, t3);
    lemma_array_of(m.device);
    lemma_int(m.generation, t4);
    lemma_int(m.first_seq, t5);
    lemma_int(m.last_seq, t6);
    lemma_bytes_within(m.previous_hash, t7);
    lemma_bytes_within(m.last_hash, t8);
    lemma_int(m.record_count, t9);
    lemma_int(m.stored_bytes, t10);
    lemma_bool(m.closed, t11);
    lemma_bytes_within(m.human_envelope, t12);
}

/// An event of the authority history: its digest, the events it refers to, the
/// event itself and what is left behind the row.
pub struct HistoryModel {
    pub digest: [u8; 32],
    pub references: Seq<[u8; 32]>,
    pub event: Seq<u8>,
    pub left: Seq<u8>,
}

/// The parents that an encoded list names.
pub open spec fn parents_in(b: Seq<u8>) -> Option<Seq<[u8; 32]>> {
    match take_array(b) {
        Some((n, _)) => if n <= MAX_PARENTS {
            match digest_list_at(b) {
                Some((v, t)) => if t.len() == 0 {
                    Some(v)
                } else {
                    None
                },
                None => None,
            }
        } else {
            None
        },
        None => None,
    }
}

/// The parents at the front of `b` and what follows them.
pub open spec fn parents_at(b: Seq<u8>) -> Option<(Seq<[u8; 32]>, Seq<u8>)> {
    match take_bytes(b) {
        Some((s, t)) => match parents_in(s) {
            Some(v) => Some((v, t)),
            None => None,
        },
        None => None,
    }
}

/// What follows the signature at the front of `b`, or the null value.
pub open spec fn signature_after(b: Seq<u8>) -> Option<Seq<u8>> {
    match take_null(b) {
        Some(t) => Some(t),
        None => match fixed_at::<64>(b) {
            Some((_, t)) => Some(t),
            None => None,
        },
    }
}

/// The previous event, if any, followed by the parents.
pub open spec fn referenced(previous: Option<[u8; 32]>, parents: Seq<[u8; 32]>) -> Seq<[u8; 32]> {
    match previous {
        Some(p) => seq![p] + parents,
        None => parents,
    }
}

/// The authority event that a payload describes.
pub open spec fn history_of(b: Seq<u8>) -> Option<HistoryModel> {
    let digest = next_fixed::<32>(take_array_of(b, 13));
    let event_id = next_fixed::<16>(after(digest));
    let issuer = next_fixed::<16>(after(event_id));
    let issuer_generation = next_int(after(issuer));
    let seq = next_int(after(issuer_generation));
    let previous = next_optional::<32>(after(seq));
    let parents = match after(previous) {
        Some(b) => parents_at(b),
        None => None,
    };
    let kind = next_text(after(parents));
    let subject = next_fixed::<16>(after(kind));
    let generation = next_int(after(subject));
    let event = next_bytes(after(generation));
    let signed = match after(event) {
        Some(b) => signature_after(b),
        None => None,
    };
    let device_signature = next_fixed::<64>(signed);
    if device_signature is Some && (issuer_generation->0).0 > 0 && (seq->0).0 > 0 && (
    generation->0).0 > 0 {
        Some(
            HistoryModel {
                digest: (digest->0).0,
                references: referenced((previous->0).0, (parents->0).0),
                event: (event->0).0,
                left: (device_signature->0).1,
            },
        )
    } else {
        None
    }
}

/// An event of the authority history.
pub struct History<'a> {
    pub digest: [u8; 32],
    pub references: Vec<[u8; 32]>,
    pub event: &'a [u8],
    pub complete: bool,
}

/// Reads an encoded list of parents.
fn read_parents(d: &mut Reader) -> (r: Option<Vec<[u8; 32]>>)
    ensures
        match parents_at(old(d).rest()) {
            Some((v, t)) => r is Some && (r->0)@ == v && final(d).rest() == t,
            None => r is None,
        },
{
    let bytes = d.bytes()?;
    let mut count = Reader::new(bytes);
    let n: u64 = count.array()?;
    if n > MAX_PARENTS {
        return None;
    }
    let mut inner = Reader::new(bytes);
    let v = read_digests(&mut inner)?;
    if inner.at_end() {
        Some(v)
    } else {
        None
    }
}

/// Passes over a signature, or the null value.
fn skip_signature(d: &mut Reader) -> (r: Option<()>)
    ensures
        match signature_after(old(d).rest()) {
            Some(t) => r is Some && final(d).rest() == t,
            None => r is None,
        },
{
    if d.is_null() {
        d.null()
    } else {
        d.fixed64()?;
        Some(())
    }
}

/// The events that an event refers to.
fn join_references(previous: Option<[u8; 32]>, parents: Vec<[u8; 32]>) -> (r: Vec<[u8; 32]>)
    ensures
        r@ == referenced(previous, parents@),
{
    match previous {
        Some(p) => {
            let mut out: Vec<[u8; 32]> = Vec::new();
            out.push(p);
            let mut i: usize = 0;
            assert(out@ =~= seq![p] + parents@.take(0));
            while i < parents.len()
                invariant
                    i <= parents@.len(),
                    out@ == seq![p] + parents@.take(i as int),
                decreases parents@.len() - i,
            {
                out.push(parents[i]);
                assert(out@ =~= seq![p] + parents@.take(i + 1));
                i += 1;
            }
            assert(parents@.take(i as int) =~= parents@);
            out
        },
        None => parents,
    }
}

/// Reads an authority event.
#[verifier::rlimit(40)]
fn read_history<'a>(d: &mut Reader<'a>) -> (r: Option<History<'a>>)
    ensures
        match history_of(old(d).rest()) {
            Some(m) => r is Some && (r->0).digest == m.digest && (r->0).references@ == m.references
                && (r->0).event@ == m.event && (r->0).complete == (m.left.len() == 0),
            None => r is None,
        },
{
    d.array_of(13)?;
    let digest = take_digest(d)?;
    take_id(d)?;
    take_id(d)?;
    let n: i64 = d.i64()?;
    if !(n > 0) {
        return None;
    }
    let n: i64 = d.i64()?;
    if !(n > 0) {
        return None;
    }
    let previous = take_optional_digest(d)?;
    let parents = read_parents(d)?;
    d.str()?;
    take_id(d)?;
    let n: i64 = d.i64()?;
    if !(n > 0) {
        return None;
    }
    let event = d.bytes()?;
    skip_signature(d)?;
    d.fixed64()?;
    let references = join_references(previous, parents);
    let complete = d.at_end();
    Some(History { digest, references, event, complete })
}

/// The event whose digest an authority record states, as far as the record can
/// be read.
pub fn history_event<'a>(payload: &'a [u8]) -> (r: Option<&'a [u8]>)
    ensures
        match history_of(payload@) {
            Some(m) => r is Some && (r->0)@ == m.event,
            None => r is None,
        },
{
    let mut d = Reader::new(payload);
    match read_history(&mut d) {
        Some(h) => Some(h.event),
        None => None,
    }
}

/// What an authority record is read as: its digest and the events it refers to,
/// where `event_digest` is the digest of the event in it.
pub open spec fn history_read(b: Seq<u8>, event_digest: [u8; 32]) -> Result<
    ([u8; 32], Set<Seq<u8>>),
    HumanCommitError,
> {
    match history_of(b) {
        Some(m) => if m.left.len() > 0 || event_digest != m.digest {
            Err(HumanCommitError::Integrity)
        } else {
            Ok((m.digest, digest_set(m.references)))
        },
        None => Err(HumanCommitError::InvalidInput),
    }
}

/// The bytes of the digests of a list.
pub open spec fn digest_set(v: Seq<[u8; 32]>) -> Set<Seq<u8>> {
    Set::new(|s: Seq<u8>| exists|i: int| 0 <= i < v.len() && (#[trigger] v[i])@ == s)
}

/// A row of the authority history: an event, its place in the history and its
/// signatures.
pub struct EventRow {
    pub digest: [u8; 32],
    pub event_id: [u8; 16],
    pub issuer: [u8; 16],
    pub issuer_generation: i64,
    pub seq: i64,
    pub previous: Option<[u8; 32]>,
    pub parents: Seq<[u8; 32]>,
    pub kind: Seq<char>,
    pub subject: [u8; 16],
    pub generation: i64,
    pub event: Seq<u8>,
    pub human_signature: Option<[u8; 64]>,
    pub device_signature: [u8; 64],
}

/// Whether a value holds bytes.
pub open spec fn is_blob(v: SqlValue, b: Seq<u8>) -> bool {
    match v {
        SqlValue::Blob(s) => s@ == b,
        _ => false,
    }
}

/// Whether a value holds bytes, or nothing where there are none.
pub open spec fn is_optional_blob(v: SqlValue, b: Option<Seq<u8>>) -> bool {
    match b {
        Some(b) => is_blob(v, b),
        None => v is Null,
    }
}

/// Whether a value holds a text.
pub open spec fn is_text(v: SqlValue, t: Seq<char>) -> bool {
    match v {
        SqlValue::Text(s) => valid_utf8(s@) && decode_utf8(s@) == t,
        _ => false,
    }
}

/// Whether a stored row holds an authority event: its columns are those of the
/// event, its numbers are positive, and its parents are within their limit.
pub open spec fn holds_event(row: Seq<SqlValue>, m: EventRow) -> bool {
    &&& row.len() == 13
    &&& is_blob(row[0], m.digest@)
    &&& is_blob(row[1], m.event_id@)
    &&& is_blob(row[2], m.issuer@)
    &&& row[3] == SqlValue::Integer(m.issuer_generation)
    &&& row[4] == SqlValue::Integer(m.seq)
    &&& is_optional_blob(row[5], opt_array(m.previous))
    &&& is_blob(row[6], digests_then(m.parents, Seq::empty()))
    &&& is_text(row[7], m.kind)
    &&& is_blob(row[8], m.subject@)
    &&& row[9] == SqlValue::Integer(m.generation)
    &&& is_blob(row[10], m.event)
    &&& is_optional_blob(row[11], opt_array(m.human_signature))
    &&& is_blob(row[12], m.device_signature@)
    &&& m.issuer_generation > 0
    &&& m.seq > 0
    &&& m.generation > 0
    &&& m.parents.len() <= MAX_PARENTS
}

/// The last value of a row stands between those before it and what follows.
proof fn lemma_last_value(v: Seq<SqlValue>, n: nat, t: Seq<u8>)
    requires
        n > 0,
        values_bytes(v, n) is Some,
    ensures
        values_bytes(v, (n - 1) as nat) is Some,
        value_item(v[n - 1]) is Some,
        values_bytes(v, n)->0 + t == values_bytes(v, (n - 1) as nat)->0 + (value_item(v[n - 1])->0
            + t),
{
    lemma_regroup(values_bytes(v, (n - 1) as nat)->0, value_item(v[n - 1])->0, t);
}

/// A row whose values can all be written is written.
proof fn lemma_row_written(v: Seq<SqlValue>, n: nat)
    requires
        n <= v.len(),
        forall|i: int| 0 <= i < v.len() ==> value_item(#[trigger] v[i]) is Some,
    ensures
        values_bytes(v, n) is Some,
    decreases n,
{
    if n > 0 {
        lemma_row_written(v, (n - 1) as nat);
        assert(value_item(v[n - 1]) is Some);
    }
}

/// What was written of a row is its values, one after the other.
proof fn lemma_event_items(row: Seq<SqlValue>, m: EventRow)
    requires
        holds_event(row, m),
    ensures
        row_bytes(row) is Some,
        row_bytes(row)->0 == array_head(13) + (bytes_item(m.digest@) + (bytes_item(m.event_id@) + (
        bytes_item(m.issuer@) + (int_item(m.issuer_generation) + (int_item(m.seq) + (
        optional_bytes_item(opt_array(m.previous)) + (bytes_item(
            digests_then(m.parents, Seq::empty()),
        ) + (text_item(m.kind) + (bytes_item(m.subject@) + (int_item(m.generation) + (bytes_item(
            m.event,
        ) + (optional_bytes_item(opt_array(m.human_signature)) + (bytes_item(m.device_signature@)
            + Seq::<u8>::empty()))))))))))))),
{
    assert forall|i: int| 0 <= i < row.len() implies value_item(#[trigger] row[i]) is Some by {
        if i == 0 || i == 1 || i == 2 || i == 3 || i == 4 || i == 5 || i == 6 {
        } else {
            assert(i == 7 || i == 8 || i == 9 || i == 10 || i == 11 || i == 12);
        }
    }
    lemma_row_written(row, 13);
    let t13 = Seq::<u8>::empty();
    let t12 = bytes_item(m.device_signature@) + t13;
    let t11 = optional_bytes_item(opt_array(m.human_signature)) + t12;
    let t10 = bytes_item(m.event) + t11;
    let t9 = int_item(m.generation) + t10;
    let t8 = bytes_item(m.subject@) + t9;
    let t7 = text_item(m.kind) + t8;
    let t6 = bytes_item(digests_then(m.parents, Seq::empty())) + t7;
    let t5 = optional_bytes_item(opt_array(m.previous)) + t6;
    let t4 = int_item(m.seq) + t5;
    let t3 = int_item(m.issuer_generation) + t4;
    let t2 = bytes_item(m.issuer@) + t3;
    let t1 = bytes_item(m.event_id@) + t2;
    let t0 = bytes_item(m.digest@) + t1;
    let all = values_bytes(row, 13)->0;
    assert(all + t13 =~= all);
    lemma_last_value(row, 13, t13);
    lemma_last_value(row, 12, t12);
    lemma_last_value(row, 11, t11);
    lemma_last_value(row, 10, t10);
    lemma_last_value(row, 9, t9);
    lemma_last_value(row, 8, t8);
    lemma_last_value(row, 7, t7);
    lemma_last_value(row, 6, t6);
    lemma_last_value(row, 5, t5);
    lemma_last_value(row, 4, t4);
    lemma_last_value(row, 3, t3);
    lemma_last_value(row, 2, t2);
    lemma_last_value(row, 1, t1);
    assert(values_bytes(row, 0)->0 + t0 =~= t0);
    assert(all == t0);
}

/// An authority event that was written from its row is read back with the
/// events that it refers to, where the digest of the event is the one of the row.
#[verifier::rlimit(60)]
pub proof fn lemma_authority_row(row: Seq<SqlValue>, m: EventRow)
    requires
        holds_event(row, m),
        row_bytes(row) is Some ==> (row_bytes(row)->0).len() <= u64::MAX,
    ensures
        row_bytes(row) is Some,
        history_of(row_bytes(row)->0) == Some(
            HistoryModel {
                digest: m.digest,
                references: referenced(m.previous, m.parents),
                event: m.event,
                left: Seq::empty(),
            },
        ),
        history_read(row_bytes(row)->0, m.digest) == Ok::<_, HumanCommitError>(
            (m.digest, digest_set(referenced(m.previous, m.parents))),
        ),
{
    lemma_event_items(row, m);
    let parents = digests_then(m.parents, Seq::empty());
    let t13 = Seq::<u8>::empty();
    let t12 = bytes_item(m.device_signature@) + t13;
    let t11 = optional_bytes_item(opt_array(m.human_signature)) + t12;
    let t10 = bytes_item(m.event) + t11;
    let t9 = int_item(m.generation) + t10;
    let t8 = bytes_item(m.subject@) + t9;
    let t7 = text_item(m.kind) + t8;
    let t6 = bytes_item(parents) + t7;
    let t5 = optional_bytes_item(opt_array(m.previous)) + t6;
    let t4 = int_item(m.seq) + t5;
    let t3 = int_item(m.issuer_generation) + t4;
    let t2 = bytes_item(m.issuer@) + t3;
    let t1 = bytes_item(m.event_id@) + t2;
    let t0 = bytes_item(m.digest@) + t1;
    lemma_array(13, t0);
    lemma_bytes_within(m.digest@, t1);
    lemma_array_of(m.digest);
    lemma_bytes_within(m.event_id@, t2);
    lemma_array_of(m.event_id);
    lemma_bytes_within(m.issuer@, t3);
    lemma_array_of(m.issuer);
    lemma_int(m.issuer_generation, t4);
    lemma_int(m.seq, t5);
    lemma_optional_array(m.previous, t6);
    lemma_bytes_within(parents, t7);
    assert(parents.len() <= bytes_item(parents).len()) by {
        reveal(bytes_item);
    }
    lemma_digest_list(m.parents, Seq::empty());
    lemma_array(m.parents.len() as u64, digests_tail(m.parents, Seq::empty()));
    lemma_text_within(m.kind, t8);
    lemma_bytes_within(m.subject@, t9);
    lemma_array_of(m.subject);
    lemma_int(m.generation, t10);
    lemma_bytes_within(m.event, t11);
    lemma_optional_array(m.human_signature, t12);
    lemma_bytes_within(m.device_signature@, t13);
    lemma_array_of(m.device_signature);
}

/// Reads an authority record; `event_digest` is the digest of the event in it.
/// Every event it refers to is named once, in order.
pub fn decode_authority_history(payload: &[u8], event_digest: &[u8; 32]) -> (r: Result<
    ([u8; 32], Vec<[u8; 32]>),
    HumanCommitError,
>)
    ensures
        match history_read(payload@, *event_digest) {
            Ok((digest, references)) => r is Ok && (r->Ok_0).0 == digest && digest_set(
                (r->Ok_0).1@,
            ) == references && increasing((r->Ok_0).1@),
            Err(e) => r is Err && r->Err_0 == e,
        },
{
    let mut d = Reader::new(payload);
    match read_history(&mut d) {
        Some(h) => if !h.complete || !same_array(event_digest, &h.digest) {
            Err(HumanCommitError::Integrity)
        } else {
            let references = sorted_set(&h.references);
            assert(digest_set(references@) =~= digest_set(h.references@)) by {
                assert forall|s: Seq<u8>| digest_set(references@).contains(s) == digest_set(
                    h.references@,
                ).contains(s) by {
                    if digest_set(references@).contains(s) {
                        let i = choose|i: int|
                            0 <= i < references@.len() && (#[trigger] references@[i])@ == s;
                        assert(references@.contains(references@[i]));
                        assert(h.references@.contains(references@[i]));
                        let j = choose|j: int|
                            0 <= j < h.references@.len() && h.references@[j] == references@[i];
                        assert(h.references@[j]@ == s);
                    }
                    if digest_set(h.references@).contains(s) {
                        let i = choose|i: int|
                            0 <= i < h.references@.len() && (#[trigger] h.references@[i])@ == s;
                        assert(h.references@.contains(h.references@[i]));
                        assert(references@.contains(h.references@[i]));
                        let j = choose|j: int|
                            0 <= j < references@.len() && references@[j] == h.references@[i];
                        assert(references@[j]@ == s);
                    }
                }
            }
            Ok((h.digest, references))
        },
        None => Err(HumanCommitError::InvalidInput),
    }
}

/// What an event refers to is the event before it, where there is one, and each
/// of its parents, and nothing else.
pub proof fn lemma_references(previous: Option<[u8; 32]>, parents: Seq<[u8; 32]>, d: Seq<u8>)
    ensures
        digest_set(referenced(previous, parents)).contains(d) <==> {
            ||| previous is Some && (previous->0)@ == d
            ||| exists|i: int| 0 <= i < parents.len() && (#[trigger] parents[i])@ == d
        },
{
    let all = referenced(previous, parents);
    if previous is Some {
        assert(all[0] == previous->0);
        assert(forall|i: int| 0 <= i < parents.len() ==> #[trigger] parents[i] == all[i + 1]);
        assert(forall|i: int| 1 <= i < all.len() ==> #[trigger] all[i] == parents[i - 1]);
    } else {
        assert(all == parents);
    }
}

/// An event of a backup is read only where it is whole and its hash is the one
/// that it is stored under.
pub proof fn lemma_history_read(b: Seq<u8>, event_digest: [u8; 32])
    ensures
        history_of(b) is None ==> history_read(b, event_digest) == Err::<
            ([u8; 32], Set<Seq<u8>>),
            _,
        >(HumanCommitError::InvalidInput),
        history_of(b) matches Some(m) ==> {
            &&& m.left.len() > 0 || m.digest != event_digest ==> history_read(b, event_digest)
                == Err::<([u8; 32], Set<Seq<u8>>), _>(HumanCommitError::Integrity)
            &&& m.left.len() == 0 && m.digest == event_digest ==> history_read(b, event_digest)
                == Ok::<_, HumanCommitError>((event_digest, digest_set(m.references)))
        },
{
}

/// An event of a backup has at most 4096 parents.
pub proof fn lemma_parent_limit(v: Seq<[u8; 32]>)
    requires
        digests_then(v, Seq::empty()).len() <= u64::MAX,
        v.len() <= u64::MAX,
    ensures
        v.len() <= 4096 ==> parents_in(digests_then(v, Seq::empty())) == Some(v),
        v.len() > 4096 ==> parents_in(digests_then(v, Seq::empty())) is None,
{
    lemma_digest_list(v, Seq::empty());
    lemma_array(v.len() as u64, digests_tail(v, Seq::empty()));
}

} // verus!

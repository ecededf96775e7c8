//! The encodings of records hold what they encode: each part is found in its place.
use crate::audit::GapModel;
use crate::audit_manifest::{gap_then, hashes_tail, hashes_then, segment_then, SegmentModel};
use crate::cbor::{
    array_head, bool_item, bytes_item, int_item, lemma_array, lemma_bool, lemma_bytes_within,
    lemma_head_len, lemma_int, lemma_map, lemma_null, lemma_text_len, lemma_text_within,
    lemma_uint, map_head, optional_bytes_item, take_int, take_null, take_text, take_uint,
    text_item, uint_item,
};
use crate::content::{
    content_then, kind_name, private_key_format_name, source_encoding_name, totp_algorithm_name,
    AttachmentModel, AuthModel, ContentModel, DestinationModel, FieldModel, HumanModel,
    PrivateKeyFormat, RecordKind, SourceEncoding, SourceFieldModel, TotpAlgorithm, ValueModel,
};
use crate::format_laws::{next_map, next_optional_bytes};
use crate::lists::{
    after, lemma_array_of, lemma_optional_bytes, next_array, next_bool, next_bytes, next_fixed,
    next_int, next_key, next_text, next_uint,
};
use crate::record_codec::{
    attachment_then, attachments_tail, attachments_then, auth_then, destination_then,
    destinations_tail, destinations_then, field_then, fields_tail, fields_then, human_then,
    optional_int_item, refs_tail, refs_then, source_field_then, source_fields_tail,
    source_fields_then, strings_tail, strings_then, value_encoding_name, value_item,
};
use crate::staging::{staged_attachment_then, StagedAttachmentModel};
use vstd::prelude::*;

verus! {

/// The first `n` references and what follows them.
pub open spec fn refs_read(b: Seq<u8>, n: nat) -> Option<(Seq<u16>, Seq<u8>)>
    decreases n,
{
    if n == 0 {
        Some((Seq::empty(), b))
    } else {
        match take_uint(b) {
            Some((x, t)) => match refs_read(t, (n - 1) as nat) {
                Some((v, u)) => Some((seq![x as u16] + v, u)),
                None => None,
            },
            None => None,
        }
    }
}

/// The list of references and what follows it.
pub open spec fn next_refs(b: Option<Seq<u8>>) -> Option<(Seq<u16>, Seq<u8>)> {
    match next_array(b) {
        Some((n, t)) => refs_read(t, n as nat),
        None => None,
    }
}

/// The entries of a list of references are read back.
proof fn lemma_refs_read(v: Seq<u16>, t: Seq<u8>)
    requires
        refs_tail(v, t).len() <= u64::MAX,
    ensures
        refs_read(refs_tail(v, t), v.len()) == Some((v, t)),
        v.len() + t.len() <= refs_tail(v, t).len(),
    decreases v.len(),
{
    if v.len() > 0 {
        let rest = v.skip(1);
        let u = refs_tail(rest, t);
        assert(refs_tail(v, t) == uint_item(v[0] as u64) + u);
        lemma_uint(v[0] as u64, u);
        lemma_head_len(0, v[0] as u64);
        lemma_refs_read(rest, t);
        assert(seq![v[0]] + rest =~= v);
        assert((v[0] as u64) as u16 == v[0]);
    } else {
        assert(v =~= Seq::<u16>::empty());
    }
}

/// A list of references is read back.
proof fn lemma_ref_list(v: Seq<u16>, t: Seq<u8>)
    requires
        refs_then(v, t).len() <= u64::MAX,
    ensures
        next_refs(Some(refs_then(v, t))) == Some((v, t)),
        t.len() <= refs_then(v, t).len(),
{
    lemma_refs_read(v, t);
    lemma_array(v.len() as u64, refs_tail(v, t));
}

/// The integer, or the null value, and what follows it.
pub open spec fn next_optional_int(b: Option<Seq<u8>>) -> Option<(Option<i64>, Seq<u8>)> {
    match b {
        Some(b) => match take_null(b) {
            Some(t) => Some((None, t)),
            None => match take_int(b) {
                Some((n, t)) => Some((Some(n), t)),
                None => None,
            },
        },
        None => None,
    }
}

/// An integer or the null value is read back.
proof fn lemma_optional_int(v: Option<i64>, t: Seq<u8>)
    ensures
        next_optional_int(Some(optional_int_item(v) + t)) == Some((v, t)),
        t.len() <= (optional_int_item(v) + t).len(),
{
    match v {
        Some(n) => lemma_int(n, t),
        None => lemma_null(t),
    }
}

/// The value of a field, a text or bytes, and what follows it.
pub open spec fn next_value(b: Option<Seq<u8>>, text: bool) -> Option<(ValueModel, Seq<u8>)> {
    if text {
        match next_text(b) {
            Some((s, t)) => Some((ValueModel::Text(s), t)),
            None => None,
        }
    } else {
        match next_bytes(b) {
            Some((s, t)) => Some((ValueModel::Bytes(s), t)),
            None => None,
        }
    }
}

/// The value of a field is read back.
proof fn lemma_value(v: ValueModel, t: Seq<u8>)
    requires
        (value_item(v) + t).len() <= u64::MAX,
    ensures
        next_value(Some(value_item(v) + t), v is Text) == Some((v, t)),
        t.len() <= (value_item(v) + t).len(),
{
    match v {
        ValueModel::Text(s) => lemma_text_within(s, t),
        ValueModel::Bytes(s) => lemma_bytes_within(s, t),
    }
}

/// A text field is marked as text, and any other as bytes.
pub proof fn lemma_value_encoding(v: ValueModel)
    ensures
        v is Text ==> value_encoding_name(v) == "utf8"@,
        v is Bytes ==> value_encoding_name(v) == "bytes"@,
{
}

/// A destination holds its parts under their names, in their order.
#[verifier::rlimit(60)]
pub proof fn lemma_destination_fields(m: DestinationModel, t: Seq<u8>)
    requires
        destination_then(m, t).len() <= u64::MAX,
    ensures
        ({
            let r0 = next_map(Some(destination_then(m, t)), 2);
            let r1 = next_key(r0, "label"@);
            let r2 = next_text(r1);
            let r3 = next_key(after(r2), "value"@);
            let r4 = next_text(r3);
            &&& r2 is Some && (r2->0).0 == m.label
            &&& r4 is Some && (r4->0).0 == m.value
            &&& after(r4) == Some(t)
        }),
        t.len() < destination_then(m, t).len(),
{
    let t5 = t;
    let t4 = text_item(m.value) + t5;
    let t3 = text_item("value"@) + t4;
    let t2 = text_item(m.label) + t3;
    let t1 = text_item("label"@) + t2;
    let t0 = map_head(2) + t1;
    assert(t0 == destination_then(m, t));
    lemma_head_len(5, 2);
    lemma_map(2, t1);
    lemma_text_within("label"@, t2);
    lemma_text_within(m.label, t3);
    lemma_text_within("value"@, t4);
    lemma_text_within(m.value, t5);
}

/// A field holds its parts under their names, in their order.
#[verifier::rlimit(60)]
pub proof fn lemma_field_fields(m: FieldModel, t: Seq<u8>)
    requires
        field_then(m, t).len() <= u64::MAX,
    ensures
        ({
            let r0 = next_map(Some(field_then(m, t)), 5);
            let r1 = next_key(r0, "id"@);
            let r2 = next_bytes(r1);
            let r3 = next_key(after(r2), "label"@);
            let r4 = next_text(r3);
            let r5 = next_key(after(r4), "encoding"@);
            let r6 = next_text(r5);
            let r7 = next_key(after(r6), "value"@);
            let r8 = next_value(r7, m.value is Text);
            let r9 = next_key(after(r8), "concealed"@);
            let r10 = next_bool(r9);
            &&& r2 is Some && (r2->0).0 == m.id@
            &&& r4 is Some && (r4->0).0 == m.label
            &&& r6 is Some && (r6->0).0 == value_encoding_name(m.value)
            &&& r8 is Some && (r8->0).0 == m.value
            &&& r10 is Some && (r10->0).0 == m.concealed
            &&& after(r10) == Some(t)
        }),
        t.len() < field_then(m, t).len(),
{
    let t11 = t;
    let t10 = bool_item(m.concealed) + t11;
    let t9 = text_item("concealed"@) + t10;
    let t8 = value_item(m.value) + t9;
    let t7 = text_item("value"@) + t8;
    let t6 = text_item(value_encoding_name(m.value)) + t7;
    let t5 = text_item("encoding"@) + t6;
    let t4 = text_item(m.label) + t5;
    let t3 = text_item("label"@) + t4;
    let t2 = bytes_item(m.id@) + t3;
    let t1 = text_item("id"@) + t2;
    let t0 = map_head(5) + t1;
    assert(t0 == field_then(m, t));
    lemma_head_len(5, 5);
    lemma_map(5, t1);
    lemma_text_within("id"@, t2);
    lemma_bytes_within(m.id@, t3);
    lemma_text_within("label"@, t4);
    lemma_text_within(m.label, t5);
    lemma_text_within("encoding"@, t6);
    lemma_text_within(value_encoding_name(m.value), t7);
    lemma_text_within("value"@, t8);
    lemma_value(m.value, t9);
    lemma_text_within("concealed"@, t10);
    lemma_bool(m.concealed, t11);
}

/// An imported field holds its parts under their names, in their order.
#[verifier::rlimit(60)]
pub proof fn lemma_source_field_fields(m: SourceFieldModel, t: Seq<u8>)
    requires
        source_field_then(m, t).len() <= u64::MAX,
    ensures
        ({
            let r0 = next_map(Some(source_field_then(m, t)), 3);
            let r1 = next_key(r0, "path"@);
            let r2 = next_text(r1);
            let r3 = next_key(after(r2), "encoding"@);
            let r4 = next_text(r3);
            let r5 = next_key(after(r4), "value"@);
            let r6 = next_bytes(r5);
            &&& r2 is Some && (r2->0).0 == m.path
            &&& r4 is Some && (r4->0).0 == source_encoding_name(m.encoding)
            &&& r6 is Some && (r6->0).0 == m.value
            &&& after(r6) == Some(t)
        }),
        t.len() < source_field_then(m, t).len(),
{
    let t7 = t;
    let t6 = bytes_item(m.value) + t7;
    let t5 = text_item("value"@) + t6;
    let t4 = text_item(source_encoding_name(m.encoding)) + t5;
    let t3 = text_item("encoding"@) + t4;
    let t2 = text_item(m.path) + t3;
    let t1 = text_item("path"@) + t2;
    let t0 = map_head(3) + t1;
    assert(t0 == source_field_then(m, t));
    lemma_head_len(5, 3);
    lemma_map(3, t1);
    lemma_text_within("path"@, t2);
    lemma_text_within(m.path, t3);
    lemma_text_within("encoding"@, t4);
    lemma_text_within(source_encoding_name(m.encoding), t5);
    lemma_text_within("value"@, t6);
    lemma_bytes_within(m.value, t7);
}

/// A file of a record holds its parts under their names, in their order.
#[verifier::rlimit(60)]
pub proof fn lemma_attachment_fields(m: AttachmentModel, t: Seq<u8>)
    requires
        attachment_then(m, t).len() <= u64::MAX,
    ensures
        ({
            let r0 = next_map(Some(attachment_then(m, t)), 5);
            let r1 = next_key(r0, "id"@);
            let r2 = next_bytes(r1);
            let r3 = next_key(after(r2), "name"@);
            let r4 = next_text(r3);
            let r5 = next_key(after(r4), "mime"@);
            let r6 = next_text(r5);
            let r7 = next_key(after(r6), "size"@);
            let r8 = next_uint(r7);
            let r9 = next_key(after(r8), "sha256"@);
            let r10 = next_bytes(r9);
            &&& r2 is Some && (r2->0).0 == m.id@
            &&& r4 is Some && (r4->0).0 == m.name
            &&& r6 is Some && (r6->0).0 == m.mime
            &&& r8 is Some && (r8->0).0 == m.size
            &&& r10 is Some && (r10->0).0 == m.sha256@
            &&& after(r10) == Some(t)
        }),
        t.len() < attachment_then(m, t).len(),
{
    let t11 = t;
    let t10 = bytes_item(m.sha256@) + t11;
    let t9 = text_item("sha256"@) + t10;
    let t8 = uint_item(m.size) + t9;
    let t7 = text_item("size"@) + t8;
    let t6 = text_item(m.mime) + t7;
    let t5 = text_item("mime"@) + t6;
    let t4 = text_item(m.name) + t5;
    let t3 = text_item("name"@) + t4;
    let t2 = bytes_item(m.id@) + t3;
    let t1 = text_item("id"@) + t2;
    let t0 = map_head(5) + t1;
    assert(t0 == attachment_then(m, t));
    lemma_head_len(5, 5);
    lemma_map(5, t1);
    lemma_text_within("id"@, t2);
    lemma_bytes_within(m.id@, t3);
    lemma_text_within("name"@, t4);
    lemma_text_within(m.name, t5);
    lemma_text_within("mime"@, t6);
    lemma_text_within(m.mime, t7);
    lemma_text_within("size"@, t8);
    lemma_uint(m.size, t9);
    lemma_text_within("sha256"@, t10);
    lemma_bytes_within(m.sha256@, t11);
}

/// The content of a file holds its parts under their names, in their order.
#[verifier::rlimit(60)]
pub proof fn lemma_content_fields(m: ContentModel, t: Seq<u8>)
    requires
        content_then(m, t).len() <= u64::MAX,
    ensures
        ({
            let r0 = next_map(Some(content_then(m, t)), 2);
            let r1 = next_key(r0, "id"@);
            let r2 = next_bytes(r1);
            let r3 = next_key(after(r2), "content"@);
            let r4 = next_bytes(r3);
            &&& r2 is Some && (r2->0).0 == m.id@
            &&& r4 is Some && (r4->0).0 == m.content
            &&& after(r4) == Some(t)
        }),
        t.len() < content_then(m, t).len(),
{
    let t5 = t;
    let t4 = bytes_item(m.content) + t5;
    let t3 = text_item("content"@) + t4;
    let t2 = bytes_item(m.id@) + t3;
    let t1 = text_item("id"@) + t2;
    let t0 = map_head(2) + t1;
    assert(t0 == content_then(m, t));
    lemma_head_len(5, 2);
    lemma_map(2, t1);
    lemma_text_within("id"@, t2);
    lemma_bytes_within(m.id@, t3);
    lemma_text_within("content"@, t4);
    lemma_bytes_within(m.content, t5);
}

/// A staged file holds its parts under their names, in their order.
#[verifier::rlimit(60)]
pub proof fn lemma_staged_attachment_fields(m: StagedAttachmentModel, t: Seq<u8>)
    requires
        staged_attachment_then(m, t).len() <= u64::MAX,
    ensures
        ({
            let r0 = next_map(Some(staged_attachment_then(m, t)), 2);
            let r1 = next_key(r0, "id"@);
            let r2 = next_bytes(r1);
            let r3 = next_key(after(r2), "package"@);
            let r4 = next_bytes(r3);
            &&& r2 is Some && (r2->0).0 == m.id@
            &&& r4 is Some && (r4->0).0 == m.package
            &&& after(r4) == Some(t)
        }),
        t.len() < staged_attachment_then(m, t).len(),
{
    let t5 = t;
    let t4 = bytes_item(m.package) + t5;
    let t3 = text_item("package"@) + t4;
    let t2 = bytes_item(m.id@) + t3;
    let t1 = text_item("id"@) + t2;
    let t0 = map_head(2) + t1;
    assert(t0 == staged_attachment_then(m, t));
    lemma_head_len(5, 2);
    lemma_map(2, t1);
    lemma_text_within("id"@, t2);
    lemma_bytes_within(m.id@, t3);
    lemma_text_within("package"@, t4);
    lemma_bytes_within(m.package, t5);
}

/// A gap of the audit holds its parts under their names, in their order.
#[verifier::rlimit(60)]
pub proof fn lemma_gap_fields(m: GapModel, t: Seq<u8>)
    requires
        gap_then(m, t).len() <= u64::MAX,
    ensures
        ({
            let r0 = next_map(Some(gap_then(m, t)), 3);
            let r1 = next_key(r0, "first_seq"@);
            let r2 = next_uint(r1);
            let r3 = next_key(after(r2), "last_seq"@);
            let r4 = next_uint(r3);
            let r5 = next_key(after(r4), "purge_event_id"@);
            let r6 = next_bytes(r5);
            &&& r2 is Some && (r2->0).0 == m.first_seq
            &&& r4 is Some && (r4->0).0 == m.last_seq
            &&& r6 is Some && (r6->0).0 == m.purge_event_id@
            &&& after(r6) == Some(t)
        }),
        t.len() < gap_then(m, t).len(),
{
    let t7 = t;
    let t6 = bytes_item(m.purge_event_id@) + t7;
    let t5 = text_item("purge_event_id"@) + t6;
    let t4 = uint_item(m.last_seq) + t5;
    let t3 = text_item("last_seq"@) + t4;
    let t2 = uint_item(m.first_seq) + t3;
    let t1 = text_item("first_seq"@) + t2;
    let t0 = map_head(3) + t1;
    assert(t0 == gap_then(m, t));
    lemma_head_len(5, 3);
    lemma_map(3, t1);
    lemma_text_within("first_seq"@, t2);
    lemma_uint(m.first_seq, t3);
    lemma_text_within("last_seq"@, t4);
    lemma_uint(m.last_seq, t5);
    lemma_text_within("purge_event_id"@, t6);
    lemma_bytes_within(m.purge_event_id@, t7);
}

/// A password holds its parts under their names, in their order.
#[verifier::rlimit(60)]
pub proof fn lemma_auth_password_fields(
    username: Seq<char>,
    password: Seq<u8>,
    destination_refs: Seq<u16>,
    t: Seq<u8>,
)
    requires
        auth_then(AuthModel::Password { username, password, destination_refs },
            t).len() <= u64::MAX,
    ensures
        ({
            let r0 = next_map(Some(auth_then(AuthModel::Password { username, password,
                destination_refs }, t)), 4);
            let r1 = next_key(r0, "method"@);
            let r2 = next_key(r1, "password"@);
            let r3 = next_key(r2, "username"@);
            let r4 = next_text(r3);
            let r5 = next_key(after(r4), "password"@);
            let r6 = next_bytes(r5);
            let r7 = next_key(after(r6), "destination_refs"@);
            let r8 = next_refs(r7);
            &&& r4 is Some && (r4->0).0 == username
            &&& r6 is Some && (r6->0).0 == password
            &&& r8 is Some && (r8->0).0 == destination_refs
            &&& after(r8) == Some(t)
        }),
        t.len() < auth_then(AuthModel::Password { username, password, destination_refs }, t).len(),
{
    let t9 = t;
    let t8 = refs_then(destination_refs, t9);
    let t7 = text_item("destination_refs"@) + t8;
    let t6 = bytes_item(password) + t7;
    let t5 = text_item("password"@) + t6;
    let t4 = text_item(username) + t5;
    let t3 = text_item("username"@) + t4;
    let t2 = text_item("password"@) + t3;
    let t1 = text_item("method"@) + t2;
    let t0 = map_head(4) + t1;
    assert(t0 == auth_then(AuthModel::Password { username, password, destination_refs }, t));
    lemma_head_len(5, 4);
    lemma_map(4, t1);
    lemma_text_within("method"@, t2);
    lemma_text_within("password"@, t3);
    lemma_text_within("username"@, t4);
    lemma_text_within(username, t5);
    lemma_text_within("password"@, t6);
    lemma_bytes_within(password, t7);
    lemma_text_within("destination_refs"@, t8);
    lemma_ref_list(destination_refs, t9);
}

/// A one-time password holds its parts under their names, in their order.
#[verifier::rlimit(60)]
pub proof fn lemma_auth_totp_fields(
    secret: Seq<u8>,
    algorithm: TotpAlgorithm,
    digits: u8,
    period: u16,
    t0: u64,
    issuer: Seq<char>,
    account: Seq<char>,
    destination_refs: Seq<u16>,
    t: Seq<u8>,
)
    requires
        auth_then(AuthModel::Totp { secret, algorithm, digits, period, t0, issuer, account,
            destination_refs }, t).len() <= u64::MAX,
    ensures
        ({
            let r0 = next_map(Some(auth_then(AuthModel::Totp { secret, algorithm, digits, period,
                t0, issuer, account, destination_refs }, t)), 9);
            let r1 = next_key(r0, "method"@);
            let r2 = next_key(r1, "totp"@);
            let r3 = next_key(r2, "secret"@);
            let r4 = next_bytes(r3);
            let r5 = next_key(after(r4), "algorithm"@);
            let r6 = next_text(r5);
            let r7 = next_key(after(r6), "digits"@);
            let r8 = next_uint(r7);
            let r9 = next_key(after(r8), "period"@);
            let r10 = next_uint(r9);
            let r11 = next_key(after(r10), "t0"@);
            let r12 = next_uint(r11);
            let r13 = next_key(after(r12), "issuer"@);
            let r14 = next_text(r13);
            let r15 = next_key(after(r14), "account"@);
            let r16 = next_text(r15);
            let r17 = next_key(after(r16), "destination_refs"@);
            let r18 = next_refs(r17);
            &&& r4 is Some && (r4->0).0 == secret
            &&& r6 is Some && (r6->0).0 == totp_algorithm_name(algorithm)
            &&& r8 is Some && (r8->0).0 == digits as u64
            &&& r10 is Some && (r10->0).0 == period as u64
            &&& r12 is Some && (r12->0).0 == t0
            &&& r14 is Some && (r14->0).0 == issuer
            &&& r16 is Some && (r16->0).0 == account
            &&& r18 is Some && (r18->0).0 == destination_refs
            &&& after(r18) == Some(t)
        }),
        t.len() < auth_then(AuthModel::Totp { secret, algorithm, digits, period, t0, issuer,
            account, destination_refs }, t).len(),
{
    let u19 = t;
    let u18 = refs_then(destination_refs, u19);
    let u17 = text_item("destination_refs"@) + u18;
    let u16 = text_item(account) + u17;
    let u15 = text_item("account"@) + u16;
    let u14 = text_item(issuer) + u15;
    let u13 = text_item("issuer"@) + u14;
    let u12 = uint_item(t0) + u13;
    let u11 = text_item("t0"@) + u12;
    let u10 = uint_item(period as u64) + u11;
    let u9 = text_item("period"@) + u10;
    let u8 = uint_item(digits as u64) + u9;
    let u7 = text_item("digits"@) + u8;
    let u6 = text_item(totp_algorithm_name(algorithm)) + u7;
    let u5 = text_item("algorithm"@) + u6;
    let u4 = bytes_item(secret) + u5;
    let u3 = text_item("secret"@) + u4;
    let u2 = text_item("totp"@) + u3;
    let u1 = text_item("method"@) + u2;
    let u0 = map_head(9) + u1;
    assert(u0 == auth_then(AuthModel::Totp { secret, algorithm, digits, period, t0, issuer,
        account, destination_refs }, t));
    lemma_head_len(5, 9);
    lemma_map(9, u1);
    lemma_text_within("method"@, u2);
    lemma_text_within("totp"@, u3);
    lemma_text_within("secret"@, u4);
    lemma_bytes_within(secret, u5);
    lemma_text_within("algorithm"@, u6);
    lemma_text_within(totp_algorithm_name(algorithm), u7);
    lemma_text_within("digits"@, u8);
    lemma_uint(digits as u64, u9);
    lemma_text_within("period"@, u10);
    lemma_uint(period as u64, u11);
    lemma_text_within("t0"@, u12);
    lemma_uint(t0, u13);
    lemma_text_within("issuer"@, u14);
    lemma_text_within(issuer, u15);
    lemma_text_within("account"@, u16);
    lemma_text_within(account, u17);
    lemma_text_within("destination_refs"@, u18);
    lemma_ref_list(destination_refs, u19);
}

/// A passkey holds its parts under their names, in their order.
#[verifier::rlimit(60)]
pub proof fn lemma_auth_passkey_fields(
    rp_id: Seq<char>,
    user_handle: Seq<u8>,
    credential_id: Seq<u8>,
    cose_alg: i64,
    private_key: [u8; 32],
    public_key: [u8; 32],
    user_name: Seq<char>,
    display_name: Seq<char>,
    sign_count: u32,
    backup_eligible: bool,
    backup_state: bool,
    t: Seq<u8>,
)
    requires
        auth_then(AuthModel::Passkey { rp_id, user_handle, credential_id, cose_alg, private_key,
            public_key, user_name, display_name, sign_count, backup_eligible, backup_state },
            t).len() <= u64::MAX,
    ensures
        ({
            let r0 = next_map(Some(auth_then(AuthModel::Passkey { rp_id, user_handle,
                credential_id, cose_alg, private_key, public_key, user_name, display_name,
                sign_count, backup_eligible, backup_state }, t)), 12);
            let r1 = next_key(r0, "method"@);
            let r2 = next_key(r1, "passkey"@);
            let r3 = next_key(r2, "rp_id"@);
            let r4 = next_text(r3);
            let r5 = next_key(after(r4), "user_handle"@);
            let r6 = next_bytes(r5);
            let r7 = next_key(after(r6), "credential_id"@);
            let r8 = next_bytes(r7);
            let r9 = next_key(after(r8), "cose_alg"@);
            let r10 = next_int(r9);
            let r11 = next_key(after(r10), "private_key"@);
            let r12 = next_bytes(r11);
            let r13 = next_key(after(r12), "public_key"@);
            let r14 = next_bytes(r13);
            let r15 = next_key(after(r14), "user_name"@);
            let r16 = next_text(r15);
            let r17 = next_key(after(r16), "display_name"@);
            let r18 = next_text(r17);
            let r19 = next_key(after(r18), "sign_count"@);
            let r20 = next_uint(r19);
            let r21 = next_key(after(r20), "backup_eligible"@);
            let r22 = next_bool(r21);
            let r23 = next_key(after(r22), "backup_state"@);
            let r24 = next_bool(r23);
            &&& r4 is Some && (r4->0).0 == rp_id
            &&& r6 is Some && (r6->0).0 == user_handle
            &&& r8 is Some && (r8->0).0 == credential_id
            &&& r10 is Some && (r10->0).0 == cose_alg
            &&& r12 is Some && (r12->0).0 == private_key@
            &&& r14 is Some && (r14->0).0 == public_key@
            &&& r16 is Some && (r16->0).0 == user_name
            &&& r18 is Some && (r18->0).0 == display_name
            &&& r20 is Some && (r20->0).0 == sign_count as u64
            &&& r22 is Some && (r22->0).0 == backup_eligible
            &&& r24 is Some && (r24->0).0 == backup_state
            &&& after(r24) == Some(t)
        }),
        t.len() < auth_then(AuthModel::Passkey { rp_id, user_handle, credential_id, cose_alg,
            private_key, public_key, user_name, display_name, sign_count, backup_eligible,
            backup_state }, t).len(),
{
    let t25 = t;
    let t24 = bool_item(backup_state) + t25;
    let t23 = text_item("backup_state"@) + t24;
    let t22 = bool_item(backup_eligible) + t23;
    let t21 = text_item("backup_eligible"@) + t22;
    let t20 = uint_item(sign_count as u64) + t21;
    let t19 = text_item("sign_count"@) + t20;
    let t18 = text_item(display_name) + t19;
    let t17 = text_item("display_name"@) + t18;
    let t16 = text_item(user_name) + t17;
    let t15 = text_item("user_name"@) + t16;
    let t14 = bytes_item(public_key@) + t15;
    let t13 = text_item("public_key"@) + t14;
    let t12 = bytes_item(private_key@) + t13;
    let t11 = text_item("private_key"@) + t12;
    let t10 = int_item(cose_alg) + t11;
    let t9 = text_item("cose_alg"@) + t10;
    let t8 = bytes_item(credential_id) + t9;
    let t7 = text_item("credential_id"@) + t8;
    let t6 = bytes_item(user_handle) + t7;
    let t5 = text_item("user_handle"@) + t6;
    let t4 = text_item(rp_id) + t5;
    let t3 = text_item("rp_id"@) + t4;
    let t2 = text_item("passkey"@) + t3;
    let t1 = text_item("method"@) + t2;
    let t0 = map_head(12) + t1;
    assert(t0 == auth_then(AuthModel::Passkey { rp_id, user_handle, credential_id, cose_alg,
        private_key, public_key, user_name, display_name, sign_count, backup_eligible,
        backup_state }, t));
    lemma_head_len(5, 12);
    lemma_map(12, t1);
    lemma_text_within("method"@, t2);
    lemma_text_within("passkey"@, t3);
    lemma_text_within("rp_id"@, t4);
    lemma_text_within(rp_id, t5);
    lemma_text_within("user_handle"@, t6);
    lemma_bytes_within(user_handle, t7);
    lemma_text_within("credential_id"@, t8);
    lemma_bytes_within(credential_id, t9);
    lemma_text_within("cose_alg"@, t10);
    lemma_int(cose_alg, t11);
    lemma_text_within("private_key"@, t12);
    lemma_bytes_within(private_key@, t13);
    lemma_text_within("public_key"@, t14);
    lemma_bytes_within(public_key@, t15);
    lemma_text_within("user_name"@, t16);
    lemma_text_within(user_name, t17);
    lemma_text_within("display_name"@, t18);
    lemma_text_within(display_name, t19);
    lemma_text_within("sign_count"@, t20);
    lemma_uint(sign_count as u64, t21);
    lemma_text_within("backup_eligible"@, t22);
    lemma_bool(backup_eligible, t23);
    lemma_text_within("backup_state"@, t24);
    lemma_bool(backup_state, t25);
}

/// A key holds its parts under their names, in their order.
#[verifier::rlimit(60)]
pub proof fn lemma_auth_ssh_fields(
    private_format: PrivateKeyFormat,
    private_key: Seq<u8>,
    public_key: Seq<u8>,
    username: Seq<char>,
    destination_refs: Seq<u16>,
    passphrase: Option<Seq<u8>>,
    t: Seq<u8>,
)
    requires
        auth_then(AuthModel::Ssh { private_format, private_key, public_key, username,
            destination_refs, passphrase }, t).len() <= u64::MAX,
    ensures
        ({
            let r0 = next_map(Some(auth_then(AuthModel::Ssh { private_format, private_key,
                public_key, username, destination_refs, passphrase }, t)), 7);
            let r1 = next_key(r0, "method"@);
            let r2 = next_key(r1, "ssh"@);
            let r3 = next_key(r2, "private_format"@);
            let r4 = next_text(r3);
            let r5 = next_key(after(r4), "private_key"@);
            let r6 = next_bytes(r5);
            let r7 = next_key(after(r6), "public_key"@);
            let r8 = next_bytes(r7);
            let r9 = next_key(after(r8), "username"@);
            let r10 = next_text(r9);
            let r11 = next_key(after(r10), "destination_refs"@);
            let r12 = next_refs(r11);
            let r13 = next_key(after(r12), "passphrase"@);
            let r14 = next_optional_bytes(r13);
            &&& r4 is Some && (r4->0).0 == private_key_format_name(private_format)
            &&& r6 is Some && (r6->0).0 == private_key
            &&& r8 is Some && (r8->0).0 == public_key
            &&& r10 is Some && (r10->0).0 == username
            &&& r12 is Some && (r12->0).0 == destination_refs
            &&& r14 is Some && (r14->0).0 == passphrase
            &&& after(r14) == Some(t)
        }),
        t.len() < auth_then(AuthModel::Ssh { private_format, private_key, public_key, username,
            destination_refs, passphrase }, t).len(),
{
    let t15 = t;
    let t14 = optional_bytes_item(passphrase) + t15;
    let t13 = text_item("passphrase"@) + t14;
    let t12 = refs_then(destination_refs, t13);
    let t11 = text_item("destination_refs"@) + t12;
    let t10 = text_item(username) + t11;
    let t9 = text_item("username"@) + t10;
    let t8 = bytes_item(public_key) + t9;
    let t7 = text_item("public_key"@) + t8;
    let t6 = bytes_item(private_key) + t7;
    let t5 = text_item("private_key"@) + t6;
    let t4 = text_item(private_key_format_name(private_format)) + t5;
    let t3 = text_item("private_format"@) + t4;
    let t2 = text_item("ssh"@) + t3;
    let t1 = text_item("method"@) + t2;
    let t0 = map_head(7) + t1;
    assert(t0 == auth_then(AuthModel::Ssh { private_format, private_key, public_key, username,
        destination_refs, passphrase }, t));
    lemma_head_len(5, 7);
    lemma_map(7, t1);
    lemma_text_within("method"@, t2);
    lemma_text_within("ssh"@, t3);
    lemma_text_within("private_format"@, t4);
    lemma_text_within(private_key_format_name(private_format), t5);
    lemma_text_within("private_key"@, t6);
    lemma_bytes_within(private_key, t7);
    lemma_text_within("public_key"@, t8);
    lemma_bytes_within(public_key, t9);
    lemma_text_within("username"@, t10);
    lemma_text_within(username, t11);
    lemma_text_within("destination_refs"@, t12);
    lemma_ref_list(destination_refs, t13);
    lemma_text_within("passphrase"@, t14);
    lemma_optional_bytes(passphrase, t15);
}

/// A token holds its parts under their names, in their order.
#[verifier::rlimit(60)]
pub proof fn lemma_auth_token_fields(
    secret: Seq<u8>,
    provider: Seq<char>,
    profile_id: Seq<char>,
    destination_refs: Seq<u16>,
    expires_at: Option<i64>,
    t: Seq<u8>,
)
    requires
        auth_then(AuthModel::Token { secret, provider, profile_id, destination_refs, expires_at },
            t).len() <= u64::MAX,
    ensures
        ({
            let r0 = next_map(Some(auth_then(AuthModel::Token { secret, provider, profile_id,
                destination_refs, expires_at }, t)), 6);
            let r1 = next_key(r0, "method"@);
            let r2 = next_key(r1, "token"@);
            let r3 = next_key(r2, "secret"@);
            let r4 = next_bytes(r3);
            let r5 = next_key(after(r4), "provider"@);
            let r6 = next_text(r5);
            let r7 = next_key(after(r6), "profile_id"@);
            let r8 = next_text(r7);
            let r9 = next_key(after(r8), "destination_refs"@);
            let r10 = next_refs(r9);
            let r11 = next_key(after(r10), "expires_at"@);
            let r12 = next_optional_int(r11);
            &&& r4 is Some && (r4->0).0 == secret
            &&& r6 is Some && (r6->0).0 == provider
            &&& r8 is Some && (r8->0).0 == profile_id
            &&& r10 is Some && (r10->0).0 == destination_refs
            &&& r12 is Some && (r12->0).0 == expires_at
            &&& after(r12) == Some(t)
        }),
        t.len() < auth_then(AuthModel::Token { secret, provider, profile_id, destination_refs,
            expires_at }, t).len(),
{
    let t13 = t;
    let t12 = optional_int_item(expires_at) + t13;
    let t11 = text_item("expires_at"@) + t12;
    let t10 = refs_then(destination_refs, t11);
    let t9 = text_item("destination_refs"@) + t10;
    let t8 = text_item(profile_id) + t9;
    let t7 = text_item("profile_id"@) + t8;
    let t6 = text_item(provider) + t7;
    let t5 = text_item("provider"@) + t6;
    let t4 = bytes_item(secret) + t5;
    let t3 = text_item("secret"@) + t4;
    let t2 = text_item("token"@) + t3;
    let t1 = text_item("method"@) + t2;
    let t0 = map_head(6) + t1;
    assert(t0 == auth_then(AuthModel::Token { secret, provider, profile_id, destination_refs,
        expires_at }, t));
    lemma_head_len(5, 6);
    lemma_map(6, t1);
    lemma_text_within("method"@, t2);
    lemma_text_within("token"@, t3);
    lemma_text_within("secret"@, t4);
    lemma_bytes_within(secret, t5);
    lemma_text_within("provider"@, t6);
    lemma_text_within(provider, t7);
    lemma_text_within("profile_id"@, t8);
    lemma_text_within(profile_id, t9);
    lemma_text_within("destination_refs"@, t10);
    lemma_ref_list(destination_refs, t11);
    lemma_text_within("expires_at"@, t12);
    lemma_optional_int(expires_at, t13);
}

/// The first `n` texts and what follows them.
pub open spec fn strings_read(b: Seq<u8>, n: nat) -> Option<(Seq<Seq<char>>, Seq<u8>)>
    decreases n,
{
    if n == 0 {
        Some((Seq::empty(), b))
    } else {
        match take_text(b) {
            Some((x, t)) => match strings_read(t, (n - 1) as nat) {
                Some((v, u)) => Some((seq![x] + v, u)),
                None => None,
            },
            None => None,
        }
    }
}

/// The texts of a list are read back.
proof fn lemma_strings_read(v: Seq<Seq<char>>, t: Seq<u8>)
    requires
        strings_tail(v, t).len() <= u64::MAX,
    ensures
        strings_read(strings_tail(v, t), v.len()) == Some((v, t)),
        v.len() + t.len() <= strings_tail(v, t).len(),
    decreases v.len(),
{
    if v.len() > 0 {
        let rest = v.skip(1);
        let u = strings_tail(rest, t);
        assert(strings_tail(v, t) == text_item(v[0]) + u);
        lemma_text_within(v[0], u);
        lemma_text_len(v[0]);
        lemma_strings_read(rest, t);
        assert(seq![v[0]] + rest =~= v);
    } else {
        assert(v =~= Seq::<Seq<char>>::empty());
    }
}

/// A destination and what follows it.
pub open spec fn destination_read(b: Seq<u8>) -> Option<(DestinationModel, Seq<u8>)> {
    let label = next_text(next_key(next_map(Some(b), 2), "label"@));
    match next_text(next_key(after(label), "value"@)) {
        Some((value, t)) => Some((DestinationModel { label: (label->0).0, value }, t)),
        None => None,
    }
}

/// The first `n` destinations and what follows them.
pub open spec fn destinations_read(b: Seq<u8>, n: nat) -> Option<(Seq<DestinationModel>, Seq<u8>)>
    decreases n,
{
    if n == 0 {
        Some((Seq::empty(), b))
    } else {
        match destination_read(b) {
            Some((x, t)) => match destinations_read(t, (n - 1) as nat) {
                Some((v, u)) => Some((seq![x] + v, u)),
                None => None,
            },
            None => None,
        }
    }
}

/// The destinations of a list are read back.
proof fn lemma_destinations_read(v: Seq<DestinationModel>, t: Seq<u8>)
    requires
        destinations_tail(v, t).len() <= u64::MAX,
    ensures
        destinations_read(destinations_tail(v, t), v.len()) == Some((v, t)),
        v.len() + t.len() <= destinations_tail(v, t).len(),
    decreases v.len(),
{
    if v.len() > 0 {
        let rest = v.skip(1);
        let u = destinations_tail(rest, t);
        assert(destinations_tail(v, t) == destination_then(v[0], u));
        lemma_destination_fields(v[0], u);
        assert(destination_read(destination_then(v[0], u)) == Some((v[0], u)));
        lemma_destinations_read(rest, t);
        assert(seq![v[0]] + rest =~= v);
    } else {
        assert(v =~= Seq::<DestinationModel>::empty());
    }
}

/// A field and what follows it.
pub open spec fn field_read(b: Seq<u8>) -> Option<(FieldModel, Seq<u8>)> {
    let id = next_fixed::<16>(next_key(next_map(Some(b), 5), "id"@));
    let label = next_text(next_key(after(id), "label"@));
    let encoding = next_text(next_key(after(label), "encoding"@));
    let value = next_value(next_key(after(encoding), "value"@), (encoding->0).0 == "utf8"@);
    match next_bool(next_key(after(value), "concealed"@)) {
        Some((concealed, t)) => Some(
            (
                FieldModel {
                    id: (id->0).0,
                    label: (label->0).0,
                    value: (value->0).0,
                    concealed,
                },
                t,
            ),
        ),
        None => None,
    }
}

/// The first `n` fields and what follows them.
pub open spec fn fields_read(b: Seq<u8>, n: nat) -> Option<(Seq<FieldModel>, Seq<u8>)>
    decreases n,
{
    if n == 0 {
        Some((Seq::empty(), b))
    } else {
        match field_read(b) {
            Some((x, t)) => match fields_read(t, (n - 1) as nat) {
                Some((v, u)) => Some((seq![x] + v, u)),
                None => None,
            },
            None => None,
        }
    }
}

/// The fields of a list are read back.
proof fn lemma_fields_read(v: Seq<FieldModel>, t: Seq<u8>)
    requires
        fields_tail(v, t).len() <= u64::MAX,
    ensures
        fields_read(fields_tail(v, t), v.len()) == Some((v, t)),
        v.len() + t.len() <= fields_tail(v, t).len(),
    decreases v.len(),
{
    if v.len() > 0 {
        let rest = v.skip(1);
        let u = fields_tail(rest, t);
        assert(fields_tail(v, t) == field_then(v[0], u));
        lemma_field_fields(v[0], u);
        lemma_array_of::<16>(v[0].id);
        reveal_strlit("utf8");
        reveal_strlit("bytes");
        assert("utf8"@.len() == 4);
        assert("bytes"@.len() == 5);
        assert(field_read(field_then(v[0], u)) == Some((v[0], u)));
        lemma_fields_read(rest, t);
        assert(seq![v[0]] + rest =~= v);
    } else {
        assert(v =~= Seq::<FieldModel>::empty());
    }
}

/// An imported field and what follows it.
pub open spec fn source_field_read(b: Seq<u8>) -> Option<(SourceFieldModel, Seq<u8>)> {
    let path = next_text(next_key(next_map(Some(b), 3), "path"@));
    let encoding = next_text(next_key(after(path), "encoding"@));
    match next_bytes(next_key(after(encoding), "value"@)) {
        Some((value, t)) => Some(
            (
                SourceFieldModel {
                    path: (path->0).0,
                    encoding: if (encoding->0).0 == "utf8"@ {
                        SourceEncoding::Utf8
                    } else if (encoding->0).0 == "json"@ {
                        SourceEncoding::Json
                    } else {
                        SourceEncoding::Bytes
                    },
                    value,
                },
                t,
            ),
        ),
        None => None,
    }
}

/// The first `n` imported fields and what follows them.
pub open spec fn source_fields_read(b: Seq<u8>, n: nat) -> Option<(Seq<SourceFieldModel>, Seq<u8>)>
    decreases n,
{
    if n == 0 {
        Some((Seq::empty(), b))
    } else {
        match source_field_read(b) {
            Some((x, t)) => match source_fields_read(t, (n - 1) as nat) {
                Some((v, u)) => Some((seq![x] + v, u)),
                None => None,
            },
            None => None,
        }
    }
}

/// The imported fields of a list are read back.
proof fn lemma_source_fields_read(v: Seq<SourceFieldModel>, t: Seq<u8>)
    requires
        source_fields_tail(v, t).len() <= u64::MAX,
    ensures
        source_fields_read(source_fields_tail(v, t), v.len()) == Some((v, t)),
        v.len() + t.len() <= source_fields_tail(v, t).len(),
    decreases v.len(),
{
    if v.len() > 0 {
        let rest = v.skip(1);
        let u = source_fields_tail(rest, t);
        assert(source_fields_tail(v, t) == source_field_then(v[0], u));
        lemma_source_field_fields(v[0], u);
        reveal_strlit("utf8");
        reveal_strlit("json");
        reveal_strlit("bytes");
        assert("utf8"@.len() == 4);
        assert("json"@.len() == 4);
        assert("bytes"@.len() == 5);
        assert("utf8"@[0] == 'u');
        assert("json"@[0] == 'j');
        assert(source_field_read(source_field_then(v[0], u)) == Some((v[0], u)));
        lemma_source_fields_read(rest, t);
        assert(seq![v[0]] + rest =~= v);
    } else {
        assert(v =~= Seq::<SourceFieldModel>::empty());
    }
}

/// A file, without its bytes, and what follows it.
pub open spec fn attachment_read(b: Seq<u8>) -> Option<(AttachmentModel, Seq<u8>)> {
    let id = next_fixed::<16>(next_key(next_map(Some(b), 5), "id"@));
    let name = next_text(next_key(after(id), "name"@));
    let mime = next_text(next_key(after(name), "mime"@));
    let size = next_uint(next_key(after(mime), "size"@));
    match next_fixed::<32>(next_key(after(size), "sha256"@)) {
        Some((sha256, t)) => Some(
            (
                AttachmentModel {
                    id: (id->0).0,
                    name: (name->0).0,
                    mime: (mime->0).0,
                    size: (size->0).0,
                    sha256,
                    content: Seq::empty(),
                },
                t,
            ),
        ),
        None => None,
    }
}

/// The first `n` files, without their bytes, and what follows them.
pub open spec fn attachments_read(b: Seq<u8>, n: nat) -> Option<(Seq<AttachmentModel>, Seq<u8>)>
    decreases n,
{
    if n == 0 {
        Some((Seq::empty(), b))
    } else {
        match attachment_read(b) {
            Some((x, t)) => match attachments_read(t, (n - 1) as nat) {
                Some((v, u)) => Some((seq![x] + v, u)),
                None => None,
            },
            None => None,
        }
    }
}

/// Files without their bytes.
pub open spec fn bare_files(v: Seq<AttachmentModel>) -> Seq<AttachmentModel> {
    Seq::new(v.len(), |i: int| AttachmentModel { content: Seq::empty(), ..v[i] })
}

/// The files of a list are read back.
proof fn lemma_attachments_read(v: Seq<AttachmentModel>, t: Seq<u8>)
    requires
        attachments_tail(v, t).len() <= u64::MAX,
    ensures
        attachments_read(attachments_tail(v, t), v.len()) == Some((bare_files(v), t)),
        v.len() + t.len() <= attachments_tail(v, t).len(),
    decreases v.len(),
{
    if v.len() > 0 {
        let rest = v.skip(1);
        let u = attachments_tail(rest, t);
        assert(attachments_tail(v, t) == attachment_then(v[0], u));
        lemma_attachment_fields(v[0], u);
        lemma_array_of::<16>(v[0].id);
        lemma_array_of::<32>(v[0].sha256);
        assert(attachment_read(attachment_then(v[0],
            u)) == Some((AttachmentModel { content: Seq::empty(), ..v[0] }, u)));
        lemma_attachments_read(rest, t);
        assert(seq![AttachmentModel { content: Seq::empty(),
            ..v[0] }] + bare_files(rest) =~= bare_files(v));
    } else {
        assert(bare_files(v) =~= Seq::<AttachmentModel>::empty());
    }
}

/// What is written of a record for its owner holds its kind, its title, its
/// destinations, its tags, whether it is a favourite, its notes, its fields, its
/// imported fields and its files, each under its name and in its order.
#[verifier::rlimit(80)]
pub proof fn lemma_human_fields(
    kind: RecordKind,
    m: HumanModel,
    attachments: Seq<AttachmentModel>,
    t: Seq<u8>,
)
    requires
        human_then(kind, m, attachments, t).len() <= u64::MAX,
    ensures
        ({
            let r0 = next_map(Some(human_then(kind, m, attachments, t)), 10);
            let v = next_uint(next_key(r0, "v"@));
            let kind_text = next_text(next_key(after(v), "kind"@));
            let title = next_text(next_key(after(kind_text), "title"@));
            let r1 = next_array(next_key(after(title), "destinations"@));
            let destinations = destinations_read((r1->0).1, (r1->0).0 as nat);
            let r2 = next_array(next_key(after(destinations), "tags"@));
            let tags = strings_read((r2->0).1, (r2->0).0 as nat);
            let favorite = next_bool(next_key(after(tags), "favorite"@));
            let notes = next_text(next_key(after(favorite), "notes"@));
            let r3 = next_array(next_key(after(notes), "fields"@));
            let fields = fields_read((r3->0).1, (r3->0).0 as nat);
            let r4 = next_array(next_key(after(fields), "source_fields"@));
            let source_fields = source_fields_read((r4->0).1, (r4->0).0 as nat);
            let r5 = next_array(next_key(after(source_fields), "attachments"@));
            let files = attachments_read((r5->0).1, (r5->0).0 as nat);
            &&& v is Some && (v->0).0 == 1
            &&& kind_text is Some && (kind_text->0).0 == kind_name(kind)
            &&& title is Some && (title->0).0 == m.title
            &&& r1 is Some && destinations is Some && (destinations->0).0 == m.destinations
            &&& r2 is Some && tags is Some && (tags->0).0 == m.tags
            &&& favorite is Some && (favorite->0).0 == m.favorite
            &&& notes is Some && (notes->0).0 == m.notes
            &&& r3 is Some && fields is Some && (fields->0).0 == m.fields
            &&& r4 is Some && source_fields is Some && (source_fields->0).0 == m.source_fields
            &&& r5 is Some && files is Some && (files->0).0 == bare_files(attachments)
            &&& after(files) == Some(t)
        }),
{
    let u5 = attachments_tail(attachments, t);
    let t19 = attachments_then(attachments, t);
    let t18 = text_item("attachments"@) + t19;
    let u4 = source_fields_tail(m.source_fields, t18);
    let t17 = source_fields_then(m.source_fields, t18);
    let t16 = text_item("source_fields"@) + t17;
    let u3 = fields_tail(m.fields, t16);
    let t15 = fields_then(m.fields, t16);
    let t14 = text_item("fields"@) + t15;
    let t13 = text_item(m.notes) + t14;
    let t12 = text_item("notes"@) + t13;
    let t11 = bool_item(m.favorite) + t12;
    let t10 = text_item("favorite"@) + t11;
    let u2 = strings_tail(m.tags, t10);
    let t9 = strings_then(m.tags, t10);
    let t8 = text_item("tags"@) + t9;
    let u1 = destinations_tail(m.destinations, t8);
    let t7 = destinations_then(m.destinations, t8);
    let t6 = text_item("destinations"@) + t7;
    let t5 = text_item(m.title) + t6;
    let t4 = text_item("title"@) + t5;
    let t3 = text_item(kind_name(kind)) + t4;
    let t2 = text_item("kind"@) + t3;
    let t1 = uint_item(1) + t2;
    let t0 = text_item("v"@) + t1;
    assert(human_then(kind, m, attachments, t) == map_head(10) + t0);
    lemma_map(10, t0);
    lemma_text_within("v"@, t1);
    lemma_uint(1, t2);
    lemma_text_within("kind"@, t3);
    lemma_text_within(kind_name(kind), t4);
    lemma_text_within("title"@, t5);
    lemma_text_within(m.title, t6);
    lemma_text_within("destinations"@, t7);
    assert(t7 == array_head(m.destinations.len() as u64) + u1);
    lemma_destinations_read(m.destinations, t8);
    lemma_array(m.destinations.len() as u64, u1);
    lemma_text_within("tags"@, t9);
    assert(t9 == array_head(m.tags.len() as u64) + u2);
    lemma_strings_read(m.tags, t10);
    lemma_array(m.tags.len() as u64, u2);
    lemma_text_within("favorite"@, t11);
    lemma_bool(m.favorite, t12);
    lemma_text_within("notes"@, t13);
    lemma_text_within(m.notes, t14);
    lemma_text_within("fields"@, t15);
    assert(t15 == array_head(m.fields.len() as u64) + u3);
    lemma_fields_read(m.fields, t16);
    lemma_array(m.fields.len() as u64, u3);
    lemma_text_within("source_fields"@, t17);
    assert(t17 == array_head(m.source_fields.len() as u64) + u4);
    lemma_source_fields_read(m.source_fields, t18);
    lemma_array(m.source_fields.len() as u64, u4);
    lemma_text_within("attachments"@, t19);
    assert(t19 == array_head(attachments.len() as u64) + u5);
    lemma_attachments_read(attachments, t);
    lemma_array(attachments.len() as u64, u5);
}

/// What is written of a segment of the audit holds its identifier, its first and
/// last record, the hash before it and its last, and how many records it has.
#[verifier::rlimit(60)]
pub proof fn lemma_segment_fields(m: SegmentModel, t: Seq<u8>)
    requires
        segment_then(m, t).len() <= u64::MAX,
        m.record_hashes.len() <= u64::MAX,
    ensures
        ({
            let id = next_bytes(next_key(next_map(Some(segment_then(m, t)), 6), "segment_id"@));
            let first = next_uint(next_key(after(id), "first_seq"@));
            let last = next_uint(next_key(after(first), "last_seq"@));
            let previous = next_bytes(next_key(after(last), "previous_hash"@));
            let last_hash = next_bytes(next_key(after(previous), "last_hash"@));
            let hashes = next_array(next_key(after(last_hash), "record_hashes"@));
            &&& id is Some && (id->0).0 == m.segment_id
            &&& first is Some && (first->0).0 == m.first_seq
            &&& last is Some && (last->0).0 == m.last_seq
            &&& previous is Some && (previous->0).0 == m.previous_hash
            &&& last_hash is Some && (last_hash->0).0 == m.last_hash
            &&& hashes is Some && (hashes->0).0 == m.record_hashes.len()
            &&& (hashes->0).1 == hashes_tail(m.record_hashes, t)
        }),
{
    let u = hashes_tail(m.record_hashes, t);
    let t11 = hashes_then(m.record_hashes, t);
    let t10 = text_item("record_hashes"@) + t11;
    let t9 = bytes_item(m.last_hash) + t10;
    let t8 = text_item("last_hash"@) + t9;
    let t7 = bytes_item(m.previous_hash) + t8;
    let t6 = text_item("previous_hash"@) + t7;
    let t5 = uint_item(m.last_seq) + t6;
    let t4 = text_item("last_seq"@) + t5;
    let t3 = uint_item(m.first_seq) + t4;
    let t2 = text_item("first_seq"@) + t3;
    let t1 = bytes_item(m.segment_id) + t2;
    let t0 = text_item("segment_id"@) + t1;
    assert(segment_then(m, t) == map_head(6) + t0);
    lemma_map(6, t0);
    lemma_text_within("segment_id"@, t1);
    lemma_bytes_within(m.segment_id, t2);
    lemma_text_within("first_seq"@, t3);
    lemma_uint(m.first_seq, t4);
    lemma_text_within("last_seq"@, t5);
    lemma_uint(m.last_seq, t6);
    lemma_text_within("previous_hash"@, t7);
    lemma_bytes_within(m.previous_hash, t8);
    lemma_text_within("last_hash"@, t9);
    lemma_bytes_within(m.last_hash, t10);
    lemma_text_within("record_hashes"@, t11);
    assert(t11 == array_head(m.record_hashes.len() as u64) + u);
    lemma_array(m.record_hashes.len() as u64, u);
}

/// The hashes of a segment's records come one after the other.
pub proof fn lemma_hash_read(v: Seq<Seq<u8>>, t: Seq<u8>)
    requires
        hashes_tail(v, t).len() <= u64::MAX,
    ensures
        v.len() == 0 ==> hashes_tail(v, t) == t,
        v.len() > 0 ==> next_bytes(Some(hashes_tail(v, t))) == Some(
            (v[0], hashes_tail(v.skip(1), t)),
        ),
{
    if v.len() > 0 {
        lemma_bytes_within(v[0], hashes_tail(v.skip(1), t));
    }
}

} // verus!

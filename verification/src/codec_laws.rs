//! What is encoded is read back.
use crate::authorization::{
    credential_bytes, credential_of, lemma_reason_names_differ, AuthorizationReason,
    OperationalModel,
};
use crate::backup_format::{outer_bytes, outer_of, OuterModel};
use crate::bodies::{
    agent_grant_body_bytes, agent_grant_body_of, digests_valid, enable_body_bytes, enable_body_of,
    enable_body_valid, grant_body_valid, heads_bytes, heads_of, heads_valid, item_purge_body_bytes,
    item_purge_body_of, lifecycle_body_bytes, lifecycle_body_of, purge_body_valid,
    purge_scope_name, reason_body_bytes, reason_body_of, resume_body_bytes, resume_body_of,
    EnableBodyModel, GrantBodyModel, PurgeBodyModel,
};
use crate::cbor::{
    array_head, bool_item, bytes_item, int_item, lemma_array, lemma_bool, lemma_bytes_len,
    lemma_bytes_within, lemma_head_len, lemma_int, lemma_map, lemma_null, lemma_text_len,
    lemma_text_within, lemma_uint, map_head, null_item, optional_bytes_item, optional_text_item,
    take_array, take_bool, take_bytes, take_int, take_map, take_null, take_nullable_text,
    take_optional_bytes, take_text, take_uint, text_item, uint_item, ARRAY, MAP, NEGATIVE,
    UNSIGNED,
};
use crate::command::{
    body_bytes, body_of, body_valid, command_bytes, command_of, command_valid, Body, CommandModel,
};
use crate::content::{
    lemma_kind_names_differ, lemma_private_key_format_names_differ,
    lemma_source_encoding_names_differ, lemma_totp_algorithm_names_differ, parts_of,
    AttachmentModel, AuthModel, DestinationModel, FieldModel, HumanModel, RecordKind, RecordModel,
    SourceFieldModel,
};
use crate::lists::{
    digest_list_at, digests_then, ids_tail, ids_then, lemma_digest_list, lemma_nullable_text,
    lemma_optional_bytes, opt_array,
};
use crate::ordered::{increasing, lemma_same_array};
use crate::record_codec::{
    attachment_then, attachments_tail, attachments_then, auth_then, auths_tail, auths_then,
    destination_then, destinations_tail, destinations_then, field_then, fields_tail, fields_then,
    human_then, optional_int_item, refs_tail, refs_then, source_field_then, source_fields_tail,
    source_fields_then, strings_tail, strings_then, without_content,
};
use vstd::prelude::*;

verus! {

/// A signed integer takes at least one byte.
proof fn lemma_int_len(n: i64)
    ensures
        int_item(n).len() >= 1,
{
    reveal(int_item);
    if n >= 0 {
        lemma_head_len(UNSIGNED, n as u64);
    } else {
        lemma_head_len(NEGATIVE, (-1 - n) as u64);
    }
}

/// Every item takes some bytes and is read back from the front of any bytes
/// that fit in memory.
proof fn lemma_read_back()
    ensures
        forall|n: u64, t: Seq<u8>|
            #![trigger map_head(n) + t]
            take_map(map_head(n) + t) == Some((n, t)) && t.len() < (map_head(n) + t).len(),
        forall|n: u64, t: Seq<u8>|
            #![trigger array_head(n) + t]
            take_array(array_head(n) + t) == Some((n, t)) && t.len() < (array_head(n) + t).len(),
        forall|n: u64, t: Seq<u8>|
            #![trigger uint_item(n) + t]
            take_uint(uint_item(n) + t) == Some((n, t)) && t.len() < (uint_item(n) + t).len(),
        forall|n: i64, t: Seq<u8>|
            #![trigger int_item(n) + t]
            take_int(int_item(n) + t) == Some((n, t)) && take_null(int_item(n) + t) is None
                && t.len() < (int_item(n) + t).len(),
        forall|v: bool, t: Seq<u8>|
            #![trigger bool_item(v) + t]
            take_bool(bool_item(v) + t) == Some((v, t)) && t.len() < (bool_item(v) + t).len(),
        forall|s: Seq<char>, t: Seq<u8>|
            #![trigger text_item(s) + t]
            ((text_item(s) + t).len() <= u64::MAX ==> take_text(text_item(s) + t) == Some((s, t)))
                && t.len() < (text_item(s) + t).len(),
        forall|s: Seq<u8>, t: Seq<u8>|
            #![trigger bytes_item(s) + t]
            ((bytes_item(s) + t).len() <= u64::MAX
                ==> take_bytes(bytes_item(s) + t) == Some((s, t)))
                && t.len() < (bytes_item(s) + t).len(),
        forall|t: Seq<u8>|
            #![trigger null_item() + t]
            take_null(null_item() + t) == Some(t) && t.len() < (null_item() + t).len(),
        forall|v: Option<Seq<u8>>, t: Seq<u8>|
            #![trigger optional_bytes_item(v) + t]
            ((optional_bytes_item(v) + t).len() <= u64::MAX
                ==> take_optional_bytes(optional_bytes_item(v) + t) == Some((v, t)))
                && t.len() < (optional_bytes_item(v) + t).len(),
        forall|v: Option<Seq<char>>, t: Seq<u8>|
            #![trigger optional_text_item(v) + t]
            ((optional_text_item(v) + t).len() <= u64::MAX
                ==> take_nullable_text(optional_text_item(v) + t) == Some((v, t)))
                && t.len() < (optional_text_item(v) + t).len(),
        forall|v: Seq<[u8; 32]>, t: Seq<u8>|
            #![trigger digests_then(v, t)]
            digests_then(v, t).len() <= u64::MAX ==> digest_list_at(digests_then(v, t)) == Some(
                (v, t),
            ) && t.len() <= digests_then(v, t).len(),
{
    assert forall|n: u64, t: Seq<u8>| #![trigger map_head(n) + t] take_map(map_head(n) + t)
        == Some((n, t)) && t.len() < (map_head(n) + t).len() by {
        lemma_map(n, t);
        lemma_head_len(MAP, n);
    }
    assert forall|n: u64, t: Seq<u8>| #![trigger array_head(n) + t] take_array(array_head(n) + t)
        == Some((n, t)) && t.len() < (array_head(n) + t).len() by {
        lemma_array(n, t);
        lemma_head_len(ARRAY, n);
    }
    assert forall|n: u64, t: Seq<u8>| #![trigger uint_item(n) + t] take_uint(uint_item(n) + t)
        == Some((n, t)) && t.len() < (uint_item(n) + t).len() by {
        lemma_uint(n, t);
        lemma_head_len(UNSIGNED, n);
    }
    assert forall|n: i64, t: Seq<u8>| #![trigger int_item(n) + t] take_int(int_item(n) + t)
        == Some((n, t)) && take_null(int_item(n) + t) is None
        && t.len() < (int_item(n) + t).len() by {
        lemma_int(n, t);
        lemma_int_len(n);
    }
    assert forall|v: bool, t: Seq<u8>| #![trigger bool_item(v) + t] take_bool(bool_item(v) + t)
        == Some((v, t)) && t.len() < (bool_item(v) + t).len() by {
        lemma_bool(v, t);
        reveal(bool_item);
    }
    assert forall|s: Seq<char>, t: Seq<u8>| #![trigger text_item(s)
        + t] ((text_item(s) + t).len() <= u64::MAX ==> take_text(text_item(s) + t) == Some((s, t)))
        && t.len() < (text_item(s) + t).len() by {
        if (text_item(s) + t).len() <= u64::MAX {
            lemma_text_within(s, t);
        }
        lemma_text_len(s);
    }
    assert forall|s: Seq<u8>, t: Seq<u8>| #![trigger bytes_item(s)
        + t] ((bytes_item(s) + t).len() <= u64::MAX
        ==> take_bytes(bytes_item(s) + t) == Some((s, t)))
        && t.len() < (bytes_item(s) + t).len() by {
        if (bytes_item(s) + t).len() <= u64::MAX {
            lemma_bytes_within(s, t);
        }
        lemma_bytes_len(s);
    }
    assert forall|t: Seq<u8>| #![trigger null_item() + t] take_null(null_item() + t) == Some(t)
        && t.len() < (null_item() + t).len() by {
        lemma_null(t);
        reveal(null_item);
    }
    assert forall|v: Option<Seq<u8>>, t: Seq<u8>| #![trigger optional_bytes_item(v)
        + t] ((optional_bytes_item(v) + t).len() <= u64::MAX
        ==> take_optional_bytes(optional_bytes_item(v) + t) == Some((v, t)))
        && t.len() < (optional_bytes_item(v) + t).len() by {
        if (optional_bytes_item(v) + t).len() <= u64::MAX {
            lemma_optional_bytes(v, t);
        }
        if v is Some {
            lemma_bytes_len(v->0);
        }
        reveal(null_item);
    }
    assert forall|v: Option<Seq<char>>, t: Seq<u8>| #![trigger optional_text_item(v)
        + t] ((optional_text_item(v) + t).len() <= u64::MAX
        ==> take_nullable_text(optional_text_item(v) + t) == Some((v, t)))
        && t.len() < (optional_text_item(v) + t).len() by {
        if (optional_text_item(v) + t).len() <= u64::MAX {
            lemma_nullable_text(v, t);
        }
        if v is Some {
            lemma_text_len(v->0);
        }
        reveal(null_item);
    }
    assert forall|v: Seq<[u8; 32]>, t: Seq<u8>| #![trigger digests_then(v, t)] digests_then(
        v,
        t,
    ).len() <= u64::MAX implies digest_list_at(digests_then(v, t)) == Some((v, t)) && t.len()
        <= digests_then(v, t).len() by {
        lemma_digest_list(v, t);
    }
}

/// So many texts take at least so many bytes.
proof fn lemma_strings_len(v: Seq<Seq<char>>, t: Seq<u8>)
    ensures
        strings_tail(v, t).len() >= v.len() + t.len(),
    decreases v.len(),
{
    if v.len() > 0 {
        let rest = strings_tail(v.skip(1), t);
        lemma_strings_len(v.skip(1), t);
        lemma_text_len(v[0]);
    }
}

/// Lists of texts of one length with the same bytes are the same.
proof fn lemma_strings_tail(v: Seq<Seq<char>>, s: Seq<u8>, w: Seq<Seq<char>>, t: Seq<u8>)
    requires
        v.len() == w.len(),
        strings_tail(v, s) == strings_tail(w, t),
        strings_tail(v, s).len() <= u64::MAX,
    ensures
        v == w,
        s == t,
    decreases v.len(),
{
    if v.len() > 0 {
        let r = strings_tail(v.skip(1), s);
        let q = strings_tail(w.skip(1), t);
        lemma_read_back();
        lemma_strings_tail(v.skip(1), s, w.skip(1), t);
        assert(v =~= seq![v[0]] + v.skip(1));
        assert(w =~= seq![w[0]] + w.skip(1));
    } else {
        assert(v =~= w);
    }
}

/// Lists of texts with the same bytes are the same.
proof fn lemma_strings(v: Seq<Seq<char>>, s: Seq<u8>, w: Seq<Seq<char>>, t: Seq<u8>)
    requires
        strings_then(v, s) == strings_then(w, t),
        strings_then(v, s).len() <= u64::MAX,
    ensures
        v == w,
        s == t,
        s.len() <= strings_then(v, s).len(),
{
    lemma_strings_len(v, s);
    lemma_strings_len(w, t);
    lemma_read_back();
    lemma_strings_tail(v, s, w, t);
}

/// So many indices take at least so many bytes.
proof fn lemma_refs_len(v: Seq<u16>, t: Seq<u8>)
    ensures
        refs_tail(v, t).len() >= v.len() + t.len(),
    decreases v.len(),
{
    if v.len() > 0 {
        let rest = refs_tail(v.skip(1), t);
        lemma_refs_len(v.skip(1), t);
        lemma_head_len(UNSIGNED, v[0] as u64);
    }
}

/// Lists of indices of one length with the same bytes are the same.
proof fn lemma_refs_tail(v: Seq<u16>, s: Seq<u8>, w: Seq<u16>, t: Seq<u8>)
    requires
        v.len() == w.len(),
        refs_tail(v, s) == refs_tail(w, t),
        refs_tail(v, s).len() <= u64::MAX,
    ensures
        v == w,
        s == t,
    decreases v.len(),
{
    if v.len() > 0 {
        let r = refs_tail(v.skip(1), s);
        let q = refs_tail(w.skip(1), t);
        lemma_read_back();
        lemma_refs_tail(v.skip(1), s, w.skip(1), t);
        assert(v =~= seq![v[0]] + v.skip(1));
        assert(w =~= seq![w[0]] + w.skip(1));
    } else {
        assert(v =~= w);
    }
}

/// Lists of indices with the same bytes are the same.
proof fn lemma_refs(v: Seq<u16>, s: Seq<u8>, w: Seq<u16>, t: Seq<u8>)
    requires
        refs_then(v, s) == refs_then(w, t),
        refs_then(v, s).len() <= u64::MAX,
    ensures
        v == w,
        s == t,
        s.len() <= refs_then(v, s).len(),
{
    lemma_refs_len(v, s);
    lemma_refs_len(w, t);
    lemma_read_back();
    lemma_refs_tail(v, s, w, t);
}

/// So many identifiers take at least so many bytes.
proof fn lemma_ids_len(v: Seq<[u8; 16]>, t: Seq<u8>)
    ensures
        ids_tail(v, t).len() >= v.len() + t.len(),
    decreases v.len(),
{
    if v.len() > 0 {
        let rest = ids_tail(v.skip(1), t);
        lemma_ids_len(v.skip(1), t);
        lemma_bytes_len(v[0]@);
    }
}

/// Lists of identifiers of one length with the same bytes are the same.
proof fn lemma_ids_tail(v: Seq<[u8; 16]>, s: Seq<u8>, w: Seq<[u8; 16]>, t: Seq<u8>)
    requires
        v.len() == w.len(),
        ids_tail(v, s) == ids_tail(w, t),
        ids_tail(v, s).len() <= u64::MAX,
    ensures
        v == w,
        s == t,
    decreases v.len(),
{
    if v.len() > 0 {
        let r = ids_tail(v.skip(1), s);
        let q = ids_tail(w.skip(1), t);
        lemma_read_back();
        lemma_same_array(v[0], w[0]);
        lemma_ids_tail(v.skip(1), s, w.skip(1), t);
        assert(v =~= seq![v[0]] + v.skip(1));
        assert(w =~= seq![w[0]] + w.skip(1));
    } else {
        assert(v =~= w);
    }
}

/// Lists of identifiers with the same bytes are the same.
proof fn lemma_ids(v: Seq<[u8; 16]>, s: Seq<u8>, w: Seq<[u8; 16]>, t: Seq<u8>)
    requires
        ids_then(v, s) == ids_then(w, t),
        ids_then(v, s).len() <= u64::MAX,
    ensures
        v == w,
        s == t,
        s.len() <= ids_then(v, s).len(),
{
    lemma_ids_len(v, s);
    lemma_ids_len(w, t);
    lemma_read_back();
    lemma_ids_tail(v, s, w, t);
}

/// A destination takes some bytes.
proof fn lemma_destination_len(m: DestinationModel, t: Seq<u8>)
    ensures
        destination_then(m, t).len() > t.len(),
{
    lemma_read_back();
}

/// A destination is determined by its bytes.
proof fn lemma_destination(m: DestinationModel, s: Seq<u8>, w: DestinationModel, t: Seq<u8>)
    requires
        destination_then(m, s) == destination_then(w, t),
        destination_then(m, s).len() <= u64::MAX,
    ensures
        m == w,
        s == t,
{
    lemma_read_back();
    assert(m == w);
}

/// So many destinations take at least so many bytes.
proof fn lemma_destinations_len(v: Seq<DestinationModel>, t: Seq<u8>)
    ensures
        destinations_tail(v, t).len() >= v.len() + t.len(),
    decreases v.len(),
{
    if v.len() > 0 {
        let rest = destinations_tail(v.skip(1), t);
        lemma_destinations_len(v.skip(1), t);
        lemma_destination_len(v[0], rest);
    }
}

/// Lists of destinations of one length with the same bytes are the same.
proof fn lemma_destinations_tail(v: Seq<DestinationModel>, s: Seq<u8>, w: Seq<DestinationModel>,
    t: Seq<u8>)
    requires
        v.len() == w.len(),
        destinations_tail(v, s) == destinations_tail(w, t),
        destinations_tail(v, s).len() <= u64::MAX,
    ensures
        v == w,
        s == t,
    decreases v.len(),
{
    if v.len() > 0 {
        let r = destinations_tail(v.skip(1), s);
        let q = destinations_tail(w.skip(1), t);
        lemma_destination(v[0], r, w[0], q);
        lemma_destinations_tail(v.skip(1), s, w.skip(1), t);
        assert(v =~= seq![v[0]] + v.skip(1));
        assert(w =~= seq![w[0]] + w.skip(1));
    } else {
        assert(v =~= w);
    }
}

/// Lists of destinations with the same bytes are the same.
proof fn lemma_destinations(v: Seq<DestinationModel>, s: Seq<u8>, w: Seq<DestinationModel>,
    t: Seq<u8>)
    requires
        destinations_then(v, s) == destinations_then(w, t),
        destinations_then(v, s).len() <= u64::MAX,
    ensures
        v == w,
        s == t,
        s.len() <= destinations_then(v, s).len(),
{
    lemma_destinations_len(v, s);
    lemma_destinations_len(w, t);
    lemma_read_back();
    lemma_destinations_tail(v, s, w, t);
}

/// A custom field takes some bytes.
proof fn lemma_field_len(m: FieldModel, t: Seq<u8>)
    ensures
        field_then(m, t).len() > t.len(),
{
    lemma_read_back();
}

/// A custom field is determined by its bytes.
proof fn lemma_field(m: FieldModel, s: Seq<u8>, w: FieldModel, t: Seq<u8>)
    requires
        field_then(m, s) == field_then(w, t),
        field_then(m, s).len() <= u64::MAX,
    ensures
        m == w,
        s == t,
{
    lemma_read_back();
    lemma_same_array(m.id, w.id);
    reveal_strlit("utf8");
    reveal_strlit("bytes");
    assert("utf8"@.len() != "bytes"@.len());
    assert(m.value == w.value);
    assert(m == w);
}

/// So many custom fields take at least so many bytes.
proof fn lemma_fields_len(v: Seq<FieldModel>, t: Seq<u8>)
    ensures
        fields_tail(v, t).len() >= v.len() + t.len(),
    decreases v.len(),
{
    if v.len() > 0 {
        let rest = fields_tail(v.skip(1), t);
        lemma_fields_len(v.skip(1), t);
        lemma_field_len(v[0], rest);
    }
}

/// Lists of custom fields of one length with the same bytes are the same.
proof fn lemma_fields_tail(v: Seq<FieldModel>, s: Seq<u8>, w: Seq<FieldModel>, t: Seq<u8>)
    requires
        v.len() == w.len(),
        fields_tail(v, s) == fields_tail(w, t),
        fields_tail(v, s).len() <= u64::MAX,
    ensures
        v == w,
        s == t,
    decreases v.len(),
{
    if v.len() > 0 {
        let r = fields_tail(v.skip(1), s);
        let q = fields_tail(w.skip(1), t);
        lemma_field(v[0], r, w[0], q);
        lemma_fields_tail(v.skip(1), s, w.skip(1), t);
        assert(v =~= seq![v[0]] + v.skip(1));
        assert(w =~= seq![w[0]] + w.skip(1));
    } else {
        assert(v =~= w);
    }
}

/// Lists of custom fields with the same bytes are the same.
proof fn lemma_fields(v: Seq<FieldModel>, s: Seq<u8>, w: Seq<FieldModel>, t: Seq<u8>)
    requires
        fields_then(v, s) == fields_then(w, t),
        fields_then(v, s).len() <= u64::MAX,
    ensures
        v == w,
        s == t,
        s.len() <= fields_then(v, s).len(),
{
    lemma_fields_len(v, s);
    lemma_fields_len(w, t);
    lemma_read_back();
    lemma_fields_tail(v, s, w, t);
}

/// A source field takes some bytes.
proof fn lemma_source_field_len(m: SourceFieldModel, t: Seq<u8>)
    ensures
        source_field_then(m, t).len() > t.len(),
{
    lemma_read_back();
}

/// A source field is determined by its bytes.
proof fn lemma_source_field(m: SourceFieldModel, s: Seq<u8>, w: SourceFieldModel, t: Seq<u8>)
    requires
        source_field_then(m, s) == source_field_then(w, t),
        source_field_then(m, s).len() <= u64::MAX,
    ensures
        m == w,
        s == t,
{
    lemma_read_back();
    lemma_source_encoding_names_differ(m.encoding, w.encoding);
    assert(m == w);
}

/// So many source fields take at least so many bytes.
proof fn lemma_source_fields_len(v: Seq<SourceFieldModel>, t: Seq<u8>)
    ensures
        source_fields_tail(v, t).len() >= v.len() + t.len(),
    decreases v.len(),
{
    if v.len() > 0 {
        let rest = source_fields_tail(v.skip(1), t);
        lemma_source_fields_len(v.skip(1), t);
        lemma_source_field_len(v[0], rest);
    }
}

/// Lists of source fields of one length with the same bytes are the same.
proof fn lemma_source_fields_tail(v: Seq<SourceFieldModel>, s: Seq<u8>, w: Seq<SourceFieldModel>,
    t: Seq<u8>)
    requires
        v.len() == w.len(),
        source_fields_tail(v, s) == source_fields_tail(w, t),
        source_fields_tail(v, s).len() <= u64::MAX,
    ensures
        v == w,
        s == t,
    decreases v.len(),
{
    if v.len() > 0 {
        let r = source_fields_tail(v.skip(1), s);
        let q = source_fields_tail(w.skip(1), t);
        lemma_source_field(v[0], r, w[0], q);
        lemma_source_fields_tail(v.skip(1), s, w.skip(1), t);
        assert(v =~= seq![v[0]] + v.skip(1));
        assert(w =~= seq![w[0]] + w.skip(1));
    } else {
        assert(v =~= w);
    }
}

/// Lists of source fields with the same bytes are the same.
proof fn lemma_source_fields(v: Seq<SourceFieldModel>, s: Seq<u8>, w: Seq<SourceFieldModel>,
    t: Seq<u8>)
    requires
        source_fields_then(v, s) == source_fields_then(w, t),
        source_fields_then(v, s).len() <= u64::MAX,
    ensures
        v == w,
        s == t,
        s.len() <= source_fields_then(v, s).len(),
{
    lemma_source_fields_len(v, s);
    lemma_source_fields_len(w, t);
    lemma_read_back();
    lemma_source_fields_tail(v, s, w, t);
}

/// The description of a file takes some bytes.
proof fn lemma_attachment_len(m: AttachmentModel, t: Seq<u8>)
    ensures
        attachment_then(m, t).len() > t.len(),
{
    lemma_read_back();
}

/// The description of a file is determined by its bytes.
proof fn lemma_attachment(m: AttachmentModel, s: Seq<u8>, w: AttachmentModel, t: Seq<u8>)
    requires
        attachment_then(m, s) == attachment_then(w, t),
        attachment_then(m, s).len() <= u64::MAX,
        m.content == w.content,
    ensures
        m == w,
        s == t,
{
    lemma_read_back();
    lemma_same_array(m.id, w.id);
    lemma_same_array(m.sha256, w.sha256);
    assert(m == w);
}

/// So many files take at least so many bytes.
proof fn lemma_attachments_len(v: Seq<AttachmentModel>, t: Seq<u8>)
    ensures
        attachments_tail(v, t).len() >= v.len() + t.len(),
    decreases v.len(),
{
    if v.len() > 0 {
        let rest = attachments_tail(v.skip(1), t);
        lemma_attachments_len(v.skip(1), t);
        lemma_attachment_len(v[0], rest);
    }
}

/// Lists of files of one length with the same bytes are the same.
proof fn lemma_attachments_tail(v: Seq<AttachmentModel>, s: Seq<u8>, w: Seq<AttachmentModel>,
    t: Seq<u8>)
    requires
        v.len() == w.len(),
        attachments_tail(v, s) == attachments_tail(w, t),
        attachments_tail(v, s).len() <= u64::MAX,
        without_content(v),
        without_content(w),
    ensures
        v == w,
        s == t,
    decreases v.len(),
{
    if v.len() > 0 {
        let r = attachments_tail(v.skip(1), s);
        let q = attachments_tail(w.skip(1), t);
        lemma_attachment(v[0], r, w[0], q);
        lemma_attachments_tail(v.skip(1), s, w.skip(1), t);
        assert(v =~= seq![v[0]] + v.skip(1));
        assert(w =~= seq![w[0]] + w.skip(1));
    } else {
        assert(v =~= w);
    }
}

/// Lists of files with the same bytes are the same.
proof fn lemma_attachments(v: Seq<AttachmentModel>, s: Seq<u8>, w: Seq<AttachmentModel>, t: Seq<u8>)
    requires
        attachments_then(v, s) == attachments_then(w, t),
        attachments_then(v, s).len() <= u64::MAX,
        without_content(v),
        without_content(w),
    ensures
        v == w,
        s == t,
        s.len() <= attachments_then(v, s).len(),
{
    lemma_attachments_len(v, s);
    lemma_attachments_len(w, t);
    lemma_read_back();
    lemma_attachments_tail(v, s, w, t);
}

/// Indices take some bytes.
proof fn lemma_refs_then_len(v: Seq<u16>, t: Seq<u8>)
    ensures
        refs_then(v, t).len() > t.len(),
{
    lemma_refs_len(v, t);
    lemma_read_back();
}

/// A way to authenticate takes some bytes.
proof fn lemma_auth_len(m: AuthModel, t: Seq<u8>)
    ensures
        auth_then(m, t).len() > t.len(),
{
    lemma_read_back();
    match m {
        AuthModel::Password { destination_refs, .. } => {
            lemma_refs_then_len(destination_refs, t);
        },
        AuthModel::Totp { destination_refs, .. } => {
            lemma_refs_then_len(destination_refs, t);
        },
        AuthModel::Passkey { .. } => {},
        AuthModel::Ssh { destination_refs, passphrase, .. } => {
            lemma_refs_then_len(
                destination_refs,
                text_item("passphrase"@) + (optional_bytes_item(passphrase) + t),
            );
        },
        AuthModel::Token { destination_refs, expires_at, .. } => {
            lemma_optional_int(expires_at, t);
            lemma_refs_then_len(
                destination_refs,
                text_item("expires_at"@) + (optional_int_item(expires_at) + t),
            );
        },
    }
}

/// An optional integer takes some bytes and is read back.
proof fn lemma_optional_int(v: Option<i64>, t: Seq<u8>)
    ensures
        t.len() < (optional_int_item(v) + t).len(),
        v is Some <==> take_null(optional_int_item(v) + t) is None,
        v is Some ==> take_int(optional_int_item(v) + t) == Some((v->0, t)),
        v is None ==> take_null(optional_int_item(v) + t) == Some(t),
{
    lemma_read_back();
}

/// A way to authenticate is determined by its bytes.
#[verifier::rlimit(50)]
proof fn lemma_auth(m: AuthModel, s: Seq<u8>, w: AuthModel, t: Seq<u8>)
    requires
        auth_then(m, s) == auth_then(w, t),
        auth_then(m, s).len() <= u64::MAX,
    ensures
        m == w,
        s == t,
{
    lemma_read_back();
    match (m, w) {
        (
            AuthModel::Password { destination_refs: a, .. },
            AuthModel::Password { destination_refs: b, .. },
        ) => {
            lemma_refs(a, s, b, t);
            assert(m == w);
        },
        (
            AuthModel::Totp { algorithm: x, destination_refs: a, .. },
            AuthModel::Totp { algorithm: y, destination_refs: b, .. },
        ) => {
            lemma_totp_algorithm_names_differ(x, y);
            lemma_refs(a, s, b, t);
            assert(m == w);
        },
        (
            AuthModel::Passkey { private_key: a, public_key: c, .. },
            AuthModel::Passkey { private_key: b, public_key: d, .. },
        ) => {
            lemma_same_array(a, b);
            lemma_same_array(c, d);
            assert(m == w);
        },
        (
            AuthModel::Ssh { private_format: x, destination_refs: a, passphrase: c, .. },
            AuthModel::Ssh { private_format: y, destination_refs: b, passphrase: d, .. },
        ) => {
            lemma_private_key_format_names_differ(x, y);
            lemma_refs(
                a,
                text_item("passphrase"@) + (optional_bytes_item(c) + s),
                b,
                text_item("passphrase"@) + (optional_bytes_item(d) + t),
            );
            assert(m == w);
        },
        (
            AuthModel::Token { destination_refs: a, expires_at: c, .. },
            AuthModel::Token { destination_refs: b, expires_at: d, .. },
        ) => {
            lemma_refs(
                a,
                text_item("expires_at"@) + (optional_int_item(c) + s),
                b,
                text_item("expires_at"@) + (optional_int_item(d) + t),
            );
            lemma_optional_int(c, s);
            lemma_optional_int(d, t);
            assert(m == w);
        },
        _ => {
            assert(false);
        },
    }
}

/// So many ways to authenticate take at least so many bytes.
proof fn lemma_auths_len(v: Seq<AuthModel>, t: Seq<u8>)
    ensures
        auths_tail(v, t).len() >= v.len() + t.len(),
    decreases v.len(),
{
    if v.len() > 0 {
        let rest = auths_tail(v.skip(1), t);
        lemma_auths_len(v.skip(1), t);
        lemma_auth_len(v[0], rest);
    }
}

/// Lists of ways to authenticate of one length with the same bytes are the same.
proof fn lemma_auths_tail(v: Seq<AuthModel>, s: Seq<u8>, w: Seq<AuthModel>, t: Seq<u8>)
    requires
        v.len() == w.len(),
        auths_tail(v, s) == auths_tail(w, t),
        auths_tail(v, s).len() <= u64::MAX,
    ensures
        v == w,
        s == t,
    decreases v.len(),
{
    if v.len() > 0 {
        let r = auths_tail(v.skip(1), s);
        let q = auths_tail(w.skip(1), t);
        lemma_auth_len(v[0], r);
        lemma_auth(v[0], r, w[0], q);
        lemma_auths_tail(v.skip(1), s, w.skip(1), t);
        assert(v =~= seq![v[0]] + v.skip(1));
        assert(w =~= seq![w[0]] + w.skip(1));
    } else {
        assert(v =~= w);
    }
}

/// Lists of ways to authenticate with the same bytes are the same.
proof fn lemma_auths(v: Seq<AuthModel>, s: Seq<u8>, w: Seq<AuthModel>, t: Seq<u8>)
    requires
        auths_then(v, s) == auths_then(w, t),
        auths_then(v, s).len() <= u64::MAX,
    ensures
        v == w,
        s == t,
        s.len() <= auths_then(v, s).len(),
{
    lemma_auths_len(v, s);
    lemma_auths_len(w, t);
    lemma_read_back();
    lemma_auths_tail(v, s, w, t);
}

/// The description of a record is determined by its bytes.
proof fn lemma_human(
    kind: RecordKind,
    m: HumanModel,
    files: Seq<AttachmentModel>,
    other_kind: RecordKind,
    w: HumanModel,
    other_files: Seq<AttachmentModel>,
)
    requires
        human_then(kind, m, files, Seq::empty()) == human_then(
            other_kind,
            w,
            other_files,
            Seq::empty(),
        ),
        human_then(kind, m, files, Seq::empty()).len() <= u64::MAX,
        without_content(files),
        without_content(other_files),
    ensures
        kind == other_kind,
        m == w,
        files == other_files,
{
    let none = Seq::<u8>::empty();
    let a5 = attachments_then(files, none);
    let b5 = attachments_then(other_files, none);
    let a4 = text_item("attachments"@) + a5;
    let b4 = text_item("attachments"@) + b5;
    let a3 = text_item("source_fields"@) + source_fields_then(m.source_fields, a4);
    let b3 = text_item("source_fields"@) + source_fields_then(w.source_fields, b4);
    let a2 = text_item("favorite"@) + (bool_item(m.favorite) + (text_item("notes"@) + (text_item(
        m.notes,
    ) + (text_item("fields"@) + fields_then(m.fields, a3)))));
    let b2 = text_item("favorite"@) + (bool_item(w.favorite) + (text_item("notes"@) + (text_item(
        w.notes,
    ) + (text_item("fields"@) + fields_then(w.fields, b3)))));
    let a1 = text_item("tags"@) + strings_then(m.tags, a2);
    let b1 = text_item("tags"@) + strings_then(w.tags, b2);
    lemma_read_back();
    lemma_kind_names_differ(kind, other_kind);
    lemma_destinations(m.destinations, a1, w.destinations, b1);
    lemma_strings(m.tags, a2, w.tags, b2);
    lemma_fields(m.fields, a3, w.fields, b3);
    lemma_source_fields(m.source_fields, a4, w.source_fields, b4);
    lemma_attachments(files, none, other_files, none);
    assert(m == w);
}

/// A record is determined by its two encoded parts: what is sealed for the owner
/// is the record that is opened.
pub proof fn lemma_record_parts(
    a: RecordModel,
    b: RecordModel,
    human: Seq<u8>,
    auth: Option<Seq<u8>>,
)
    requires
        parts_of(a, human, auth),
        parts_of(b, human, auth),
        human.len() <= u64::MAX,
        auth is Some ==> (auth->0).len() <= u64::MAX,
    ensures
        a == b,
{
    lemma_human(a.kind, a.human, a.attachments, b.kind, b.human, b.attachments);
    if auth is Some {
        lemma_auths(a.auth, Seq::empty(), b.auth, Seq::empty());
    } else {
        assert(a.auth =~= b.auth);
    }
}

/// Optional arrays with the same bytes are the same.
proof fn lemma_same_optional<const N: usize>(a: Option<[u8; N]>, b: Option<[u8; N]>)
    requires
        opt_array(a) == opt_array(b),
    ensures
        a == b,
{
    if a is Some {
        lemma_same_array(a->0, b->0);
    }
}

/// A command is read back from its encoding.
pub proof fn lemma_command(m: CommandModel)
    requires
        command_valid(m),
        command_bytes(m).len() <= u64::MAX,
    ensures
        command_of(command_bytes(m)) == Some(m),
{
    let w = command_of(command_bytes(m))->0;
    assert(command_bytes(w) == command_bytes(m));
    lemma_read_back();
    lemma_same_array(m.vault, w.vault);
    lemma_same_array(m.challenge, w.challenge);
    lemma_same_array(m.expected_state, w.expected_state);
    lemma_same_array(m.body_hash, w.body_hash);
    assert(m == w);
}

/// The body of a command is read back from its encoding.
pub proof fn lemma_body(m: Body)
    requires
        body_valid(m),
        body_bytes(m).len() <= u64::MAX,
    ensures
        body_of(body_bytes(m)) == Some(m),
{
    let w = body_of(body_bytes(m))->0;
    assert(body_bytes(w) == body_bytes(m));
    lemma_read_back();
    lemma_same_array(m.transaction_id, w.transaction_id);
    lemma_same_array(m.events_manifest_digest, w.events_manifest_digest);
    lemma_same_optional(m.object_manifest_digest, w.object_manifest_digest);
    assert(m == w);
}

/// The body of an agent grant is read back from its encoding.
pub proof fn lemma_agent_grant_body(m: GrantBodyModel)
    requires
        grant_body_valid(m),
        agent_grant_body_bytes(m).len() <= u64::MAX,
    ensures
        agent_grant_body_of(agent_grant_body_bytes(m)) == Some(m),
{
    let w = agent_grant_body_of(agent_grant_body_bytes(m))->0;
    assert(agent_grant_body_bytes(w) == agent_grant_body_bytes(m));
    lemma_read_back();
    lemma_same_array(m.request_id, w.request_id);
    lemma_same_array(m.transport_rpk, w.transport_rpk);
    assert(m == w);
}

/// The body of a lifecycle event is read back from its encoding.
pub proof fn lemma_lifecycle_body(m: Seq<[u8; 32]>)
    requires
        digests_valid(m),
        lifecycle_body_bytes(m).len() <= u64::MAX,
    ensures
        lifecycle_body_of(lifecycle_body_bytes(m)) == Some(m),
{
    let w = lifecycle_body_of(lifecycle_body_bytes(m))->0;
    assert(lifecycle_body_bytes(w) == lifecycle_body_bytes(m));
    lemma_read_back();
    assert(m == w);
}

/// The body of a purge is read back from its encoding.
pub proof fn lemma_item_purge_body(m: PurgeBodyModel)
    requires
        purge_body_valid(m),
        item_purge_body_bytes(m).len() <= u64::MAX,
    ensures
        item_purge_body_of(item_purge_body_bytes(m)) == Some(m),
{
    let w = item_purge_body_of(item_purge_body_bytes(m))->0;
    assert(item_purge_body_bytes(w) == item_purge_body_bytes(m));
    lemma_read_back();
    let none = Seq::<u8>::empty();
    lemma_same_array(m.item, w.item);
    lemma_ids(
        m.revisions,
        text_item("scope"@) + (text_item(purge_scope_name(m.terminal)) + none),
        w.revisions,
        text_item("scope"@) + (text_item(purge_scope_name(w.terminal)) + none),
    );
    reveal_strlit("item");
    reveal_strlit("revisions");
    assert("item"@.len() != "revisions"@.len());
    assert(m == w);
}

/// The body of a withdrawal is read back from its encoding.
pub proof fn lemma_reason_body(m: AuthorizationReason)
    requires
        reason_body_bytes(m).len() <= u64::MAX,
    ensures
        reason_body_of(reason_body_bytes(m)) == Some(m),
{
    let w = reason_body_of(reason_body_bytes(m))->0;
    assert(reason_body_bytes(w) == reason_body_bytes(m));
    lemma_read_back();
    lemma_reason_names_differ(m, w);
}

/// The body of a resumption is read back from its encoding.
pub proof fn lemma_resume_body(m: Seq<[u8; 32]>)
    requires
        increasing(m),
        resume_body_bytes(m).len() <= u64::MAX,
    ensures
        resume_body_of(resume_body_bytes(m)) == Some(m),
{
    let w = resume_body_of(resume_body_bytes(m))->0;
    assert(resume_body_bytes(w) == resume_body_bytes(m));
    lemma_read_back();
    assert(m == w);
}

/// The body of a delegation is read back from its encoding.
pub proof fn lemma_enable_body(m: EnableBodyModel)
    requires
        enable_body_valid(m),
        enable_body_bytes(m).len() <= u64::MAX,
    ensures
        enable_body_of(enable_body_bytes(m)) == Some(m),
{
    let w = enable_body_of(enable_body_bytes(m))->0;
    assert(enable_body_bytes(w) == enable_body_bytes(m));
    lemma_read_back();
    lemma_same_array(m.revision, w.revision);
    lemma_same_array(m.commitment, w.commitment);
    assert(m == w);
}

/// A list of heads is read back from its encoding.
pub proof fn lemma_heads(m: Seq<[u8; 32]>)
    requires
        heads_valid(m),
        heads_bytes(m).len() <= u64::MAX,
    ensures
        heads_of(heads_bytes(m)) == Some(m),
{
    let w = heads_of(heads_bytes(m))->0;
    assert(heads_bytes(w) == heads_bytes(m));
    lemma_read_back();
    assert(m == w);
}

/// A delegated credential is read back from its encoding.
pub proof fn lemma_credential(m: OperationalModel)
    requires
        credential_bytes(m).len() <= u64::MAX,
    ensures
        credential_of(credential_bytes(m)) == Some(m),
{
    let w = credential_of(credential_bytes(m))->0;
    assert(credential_bytes(w) == credential_bytes(m));
    lemma_read_back();
    lemma_same_array(m.descriptor.item_id, w.descriptor.item_id);
    lemma_same_array(m.descriptor.revision_id, w.descriptor.revision_id);
    lemma_kind_names_differ(m.descriptor.kind, w.descriptor.kind);
    assert(m.descriptor == w.descriptor);
    assert(m == w);
}

/// The header of a backup is read back from its encoding.
pub proof fn lemma_outer(m: OuterModel)
    requires
        outer_bytes(m).len() <= u64::MAX,
    ensures
        outer_of(outer_bytes(m)) == Some(m),
{
    let w = outer_of(outer_bytes(m))->0;
    assert(outer_bytes(w) == outer_bytes(m));
    lemma_read_back();
    lemma_same_array(m.backup_id, w.backup_id);
    lemma_same_array(m.vault, w.vault);
    assert(m == w);
}

} // verus!

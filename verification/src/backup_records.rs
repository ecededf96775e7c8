//! The records of a backup hold what was written: each part is found in its place.
use crate::backup::{entries_tail, entry_then, page_bytes, EntryModel};
use crate::backup_format::{
    attachment_then, chunk_then, data_then, end_then, item_then, revision_then, settings_then,
    start_then, StartRecordModel,
};
use crate::backup_history::{
    audit_bundle_then, audit_row_then, audit_rows_tail, audit_rows_then, digested_value, row_bytes,
    value_item, values_bytes, AuditBundleModel, AuditRowModel, SqlValue,
};
use crate::bytes::be64;
use crate::cbor::{
    array_head, bool_item, bytes_item, int_item, lemma_array, lemma_bool, lemma_bytes_within,
    lemma_int, lemma_map, lemma_text_within, lemma_uint, map_head, null_item, text_item, uint_item,
};
use crate::format_laws::next_map;
use crate::lists::{
    after, next_array, next_bool, next_bytes, next_int, next_key, next_text, next_uint,
};
use vstd::utf8::{decode_utf8, valid_utf8};
use vstd::prelude::*;

verus! {

/// The start of a backup holds its parts under their names, in their order.
#[verifier::rlimit(60)]
pub proof fn lemma_start_fields(m: StartRecordModel, t: Seq<u8>)
    requires
        start_then(m, t).len() <= u64::MAX,
    ensures
        ({
            let r0 = next_map(Some(start_then(m, t)), 10);
            let r1 = next_key(r0, "type"@);
            let r2 = next_key(r1, "manifest_start"@);
            let r3 = next_key(r2, "v"@);
            let r4 = next_uint(r3);
            let r5 = next_key(after(r4), "backup_id"@);
            let r6 = next_bytes(r5);
            let r7 = next_key(after(r6), "snapshot_id"@);
            let r8 = next_bytes(r7);
            let r9 = next_key(after(r8), "created_at"@);
            let r10 = next_int(r9);
            let r11 = next_key(after(r10), "outer_sha256"@);
            let r12 = next_bytes(r11);
            let r13 = next_key(after(r12), "source_vault"@);
            let r14 = next_bytes(r13);
            let r15 = next_key(after(r14), "content_frontier"@);
            let r16 = next_bytes(r15);
            let r17 = next_key(after(r16), "authority_checkpoint_ref"@);
            let r18 = next_bytes(r17);
            let r19 = next_key(after(r18), "scope"@);
            let r20 = next_key(r19, "full"@);
            &&& r4 is Some && (r4->0).0 == 1
            &&& r6 is Some && (r6->0).0 == m.backup_id@
            &&& r8 is Some && (r8->0).0 == m.snapshot_id@
            &&& r10 is Some && (r10->0).0 == m.created_at
            &&& r12 is Some && (r12->0).0 == m.outer_sha256@
            &&& r14 is Some && (r14->0).0 == m.source_vault@
            &&& r16 is Some && (r16->0).0 == m.content_frontier@
            &&& r18 is Some && (r18->0).0 == m.authority_checkpoint_ref@
            &&& r20 == Some(t)
        }),
{
    let t21 = t;
    let t20 = text_item("full"@) + t21;
    let t19 = text_item("scope"@) + t20;
    let t18 = bytes_item(m.authority_checkpoint_ref@) + t19;
    let t17 = text_item("authority_checkpoint_ref"@) + t18;
    let t16 = bytes_item(m.content_frontier@) + t17;
    let t15 = text_item("content_frontier"@) + t16;
    let t14 = bytes_item(m.source_vault@) + t15;
    let t13 = text_item("source_vault"@) + t14;
    let t12 = bytes_item(m.outer_sha256@) + t13;
    let t11 = text_item("outer_sha256"@) + t12;
    let t10 = int_item(m.created_at) + t11;
    let t9 = text_item("created_at"@) + t10;
    let t8 = bytes_item(m.snapshot_id@) + t9;
    let t7 = text_item("snapshot_id"@) + t8;
    let t6 = bytes_item(m.backup_id@) + t7;
    let t5 = text_item("backup_id"@) + t6;
    let t4 = uint_item(1) + t5;
    let t3 = text_item("v"@) + t4;
    let t2 = text_item("manifest_start"@) + t3;
    let t1 = text_item("type"@) + t2;
    let t0 = map_head(10) + t1;
    assert(t0 == start_then(m, t));
    lemma_map(10, t1);
    lemma_text_within("type"@, t2);
    lemma_text_within("manifest_start"@, t3);
    lemma_text_within("v"@, t4);
    lemma_uint(1, t5);
    lemma_text_within("backup_id"@, t6);
    lemma_bytes_within(m.backup_id@, t7);
    lemma_text_within("snapshot_id"@, t8);
    lemma_bytes_within(m.snapshot_id@, t9);
    lemma_text_within("created_at"@, t10);
    lemma_int(m.created_at, t11);
    lemma_text_within("outer_sha256"@, t12);
    lemma_bytes_within(m.outer_sha256@, t13);
    lemma_text_within("source_vault"@, t14);
    lemma_bytes_within(m.source_vault@, t15);
    lemma_text_within("content_frontier"@, t16);
    lemma_bytes_within(m.content_frontier@, t17);
    lemma_text_within("authority_checkpoint_ref"@, t18);
    lemma_bytes_within(m.authority_checkpoint_ref@, t19);
    lemma_text_within("scope"@, t20);
    lemma_text_within("full"@, t21);
}

/// A record of a backup holds its parts under their names, in their order.
#[verifier::rlimit(60)]
pub proof fn lemma_data_fields(kind: Seq<char>, id: [u8; 16], payload: Seq<u8>, t: Seq<u8>)
    requires
        data_then(kind, id, payload, t).len() <= u64::MAX,
    ensures
        ({
            let r0 = next_map(Some(data_then(kind, id, payload, t)), 3);
            let r1 = next_key(r0, "type"@);
            let r2 = next_text(r1);
            let r3 = next_key(after(r2), "id"@);
            let r4 = next_bytes(r3);
            let r5 = next_key(after(r4), "payload"@);
            let r6 = next_bytes(r5);
            &&& r2 is Some && (r2->0).0 == kind
            &&& r4 is Some && (r4->0).0 == id@
            &&& r6 is Some && (r6->0).0 == payload
            &&& after(r6) == Some(t)
        }),
{
    let t7 = t;
    let t6 = bytes_item(payload) + t7;
    let t5 = text_item("payload"@) + t6;
    let t4 = bytes_item(id@) + t5;
    let t3 = text_item("id"@) + t4;
    let t2 = text_item(kind) + t3;
    let t1 = text_item("type"@) + t2;
    let t0 = map_head(3) + t1;
    assert(t0 == data_then(kind, id, payload, t));
    lemma_map(3, t1);
    lemma_text_within("type"@, t2);
    lemma_text_within(kind, t3);
    lemma_text_within("id"@, t4);
    lemma_bytes_within(id@, t5);
    lemma_text_within("payload"@, t6);
    lemma_bytes_within(payload, t7);
}

/// An item of a backup holds its parts under their names, in their order.
#[verifier::rlimit(60)]
pub proof fn lemma_item_fields(visible: [u8; 16], kind: Seq<char>, status: Seq<char>, t: Seq<u8>)
    requires
        item_then(visible, kind, status, t).len() <= u64::MAX,
    ensures
        ({
            let r0 = next_array(Some(item_then(visible, kind, status, t)));
            let r1 = next_bytes(after(r0));
            let r2 = next_text(after(r1));
            let r3 = next_text(after(r2));
            &&& r0 is Some && (r0->0).0 == 3
            &&& r1 is Some && (r1->0).0 == visible@
            &&& r2 is Some && (r2->0).0 == kind
            &&& r3 is Some && (r3->0).0 == status
            &&& after(r3) == Some(t)
        }),
{
    let t4 = t;
    let t3 = text_item(status) + t4;
    let t2 = text_item(kind) + t3;
    let t1 = bytes_item(visible@) + t2;
    let t0 = array_head(3) + t1;
    assert(t0 == item_then(visible, kind, status, t));
    lemma_array(3, t1);
    lemma_bytes_within(visible@, t2);
    lemma_text_within(kind, t3);
    lemma_text_within(status, t4);
}

/// A revision of a backup holds its parts under their names, in their order.
#[verifier::rlimit(60)]
pub proof fn lemma_revision_fields(
    item: [u8; 16],
    issuer: [u8; 16],
    modified: i64,
    descriptor: Seq<u8>,
    t: Seq<u8>,
)
    requires
        revision_then(item, issuer, modified, descriptor, t).len() <= u64::MAX,
    ensures
        ({
            let r0 = next_array(Some(revision_then(item, issuer, modified, descriptor, t)));
            let r1 = next_bytes(after(r0));
            let r2 = next_bytes(after(r1));
            let r3 = next_int(after(r2));
            let r4 = next_bytes(after(r3));
            &&& r0 is Some && (r0->0).0 == 4
            &&& r1 is Some && (r1->0).0 == item@
            &&& r2 is Some && (r2->0).0 == issuer@
            &&& r3 is Some && (r3->0).0 == modified
            &&& r4 is Some && (r4->0).0 == descriptor
            &&& after(r4) == Some(t)
        }),
{
    let t5 = t;
    let t4 = bytes_item(descriptor) + t5;
    let t3 = int_item(modified) + t4;
    let t2 = bytes_item(issuer@) + t3;
    let t1 = bytes_item(item@) + t2;
    let t0 = array_head(4) + t1;
    assert(t0 == revision_then(item, issuer, modified, descriptor, t));
    lemma_array(4, t1);
    lemma_bytes_within(item@, t2);
    lemma_bytes_within(issuer@, t3);
    lemma_int(modified, t4);
    lemma_bytes_within(descriptor, t5);
}

/// A file of a backup holds its parts under their names, in their order.
#[verifier::rlimit(60)]
pub proof fn lemma_attachment_fields(
    item: [u8; 16],
    revision: [u8; 16],
    attachment: [u8; 16],
    name: Seq<char>,
    mime: Seq<char>,
    size: u64,
    sha256: [u8; 32],
    chunks: u64,
    t: Seq<u8>,
)
    requires
        attachment_then(item, revision, attachment, name, mime, size, sha256, chunks,
            t).len() <= u64::MAX,
    ensures
        ({
            let r0 = next_array(Some(attachment_then(item, revision, attachment, name, mime, size,
                sha256, chunks, t)));
            let r1 = next_bytes(after(r0));
            let r2 = next_bytes(after(r1));
            let r3 = next_bytes(after(r2));
            let r4 = next_text(after(r3));
            let r5 = next_text(after(r4));
            let r6 = next_uint(after(r5));
            let r7 = next_bytes(after(r6));
            let r8 = next_uint(after(r7));
            &&& r0 is Some && (r0->0).0 == 8
            &&& r1 is Some && (r1->0).0 == item@
            &&& r2 is Some && (r2->0).0 == revision@
            &&& r3 is Some && (r3->0).0 == attachment@
            &&& r4 is Some && (r4->0).0 == name
            &&& r5 is Some && (r5->0).0 == mime
            &&& r6 is Some && (r6->0).0 == size
            &&& r7 is Some && (r7->0).0 == sha256@
            &&& r8 is Some && (r8->0).0 == chunks
            &&& after(r8) == Some(t)
        }),
{
    let t9 = t;
    let t8 = uint_item(chunks) + t9;
    let t7 = bytes_item(sha256@) + t8;
    let t6 = uint_item(size) + t7;
    let t5 = text_item(mime) + t6;
    let t4 = text_item(name) + t5;
    let t3 = bytes_item(attachment@) + t4;
    let t2 = bytes_item(revision@) + t3;
    let t1 = bytes_item(item@) + t2;
    let t0 = array_head(8) + t1;
    assert(t0 == attachment_then(item, revision, attachment, name, mime, size, sha256, chunks, t));
    lemma_array(8, t1);
    lemma_bytes_within(item@, t2);
    lemma_bytes_within(revision@, t3);
    lemma_bytes_within(attachment@, t4);
    lemma_text_within(name, t5);
    lemma_text_within(mime, t6);
    lemma_uint(size, t7);
    lemma_bytes_within(sha256@, t8);
    lemma_uint(chunks, t9);
}

/// A piece of a file of a backup holds its parts under their names, in their order.
#[verifier::rlimit(60)]
pub proof fn lemma_chunk_fields(
    revision: [u8; 16],
    attachment: [u8; 16],
    index: u64,
    content: Seq<u8>,
    t: Seq<u8>,
)
    requires
        chunk_then(revision, attachment, index, content, t).len() <= u64::MAX,
    ensures
        ({
            let r0 = next_array(Some(chunk_then(revision, attachment, index, content, t)));
            let r1 = next_bytes(after(r0));
            let r2 = next_bytes(after(r1));
            let r3 = next_uint(after(r2));
            let r4 = next_bytes(after(r3));
            &&& r0 is Some && (r0->0).0 == 4
            &&& r1 is Some && (r1->0).0 == revision@
            &&& r2 is Some && (r2->0).0 == attachment@
            &&& r3 is Some && (r3->0).0 == index
            &&& r4 is Some && (r4->0).0 == content
            &&& after(r4) == Some(t)
        }),
{
    let t5 = t;
    let t4 = bytes_item(content) + t5;
    let t3 = uint_item(index) + t4;
    let t2 = bytes_item(attachment@) + t3;
    let t1 = bytes_item(revision@) + t2;
    let t0 = array_head(4) + t1;
    assert(t0 == chunk_then(revision, attachment, index, content, t));
    lemma_array(4, t1);
    lemma_bytes_within(revision@, t2);
    lemma_bytes_within(attachment@, t3);
    lemma_uint(index, t4);
    lemma_bytes_within(content, t5);
}

/// The settings of a backup hold their parts under their names, in their order.
#[verifier::rlimit(60)]
pub proof fn lemma_settings_fields(t: Seq<u8>)
    requires
        settings_then(t).len() <= u64::MAX,
    ensures
        ({
            let r0 = next_map(Some(settings_then(t)), 3);
            let r1 = next_key(r0, "retention"@);
            let r2 = next_array(r1);
            let r3 = next_key(after(r2), "manual"@);
            let r4 = next_key(r3, "manual"@);
            let r5 = next_key(r4, "manual"@);
            let r6 = next_key(r5, "locale"@);
            let r7 = next_key(r6, "und"@);
            let r8 = next_key(r7, "theme"@);
            let r9 = next_key(r8, "system"@);
            &&& r2 is Some && (r2->0).0 == 3
            &&& r9 == Some(t)
        }),
{
    let t10 = t;
    let t9 = text_item("system"@) + t10;
    let t8 = text_item("theme"@) + t9;
    let t7 = text_item("und"@) + t8;
    let t6 = text_item("locale"@) + t7;
    let t5 = text_item("manual"@) + t6;
    let t4 = text_item("manual"@) + t5;
    let t3 = text_item("manual"@) + t4;
    let t2 = array_head(3) + t3;
    let t1 = text_item("retention"@) + t2;
    let t0 = map_head(3) + t1;
    assert(t0 == settings_then(t));
    lemma_map(3, t1);
    lemma_text_within("retention"@, t2);
    lemma_array(3, t3);
    lemma_text_within("manual"@, t4);
    lemma_text_within("manual"@, t5);
    lemma_text_within("manual"@, t6);
    lemma_text_within("locale"@, t7);
    lemma_text_within("und"@, t8);
    lemma_text_within("theme"@, t9);
    lemma_text_within("system"@, t10);
}

/// The end of a backup holds its parts under their names, in their order.
#[verifier::rlimit(60)]
pub proof fn lemma_end_fields(
    records: u64,
    attachments: u64,
    logical_bytes: u64,
    pages: [u8; 32],
    attachment_bytes: u64,
    t: Seq<u8>,
)
    requires
        end_then(records, attachments, logical_bytes, pages, attachment_bytes, t).len() <= u64::MAX,
    ensures
        ({
            let r0 = next_map(Some(end_then(records, attachments, logical_bytes, pages,
                attachment_bytes, t)), 6);
            let r1 = next_key(r0, "type"@);
            let r2 = next_key(r1, "manifest_end"@);
            let r3 = next_key(r2, "record_count"@);
            let r4 = next_uint(r3);
            let r5 = next_key(after(r4), "attachment_count"@);
            let r6 = next_uint(r5);
            let r7 = next_key(after(r6), "logical_bytes"@);
            let r8 = next_uint(r7);
            let r9 = next_key(after(r8), "inventory_pages_sha256"@);
            let r10 = next_bytes(r9);
            let r11 = next_key(after(r10), "attachment_bytes"@);
            let r12 = next_uint(r11);
            &&& r4 is Some && (r4->0).0 == records
            &&& r6 is Some && (r6->0).0 == attachments
            &&& r8 is Some && (r8->0).0 == logical_bytes
            &&& r10 is Some && (r10->0).0 == pages@
            &&& r12 is Some && (r12->0).0 == attachment_bytes
            &&& after(r12) == Some(t)
        }),
{
    let t13 = t;
    let t12 = uint_item(attachment_bytes) + t13;
    let t11 = text_item("attachment_bytes"@) + t12;
    let t10 = bytes_item(pages@) + t11;
    let t9 = text_item("inventory_pages_sha256"@) + t10;
    let t8 = uint_item(logical_bytes) + t9;
    let t7 = text_item("logical_bytes"@) + t8;
    let t6 = uint_item(attachments) + t7;
    let t5 = text_item("attachment_count"@) + t6;
    let t4 = uint_item(records) + t5;
    let t3 = text_item("record_count"@) + t4;
    let t2 = text_item("manifest_end"@) + t3;
    let t1 = text_item("type"@) + t2;
    let t0 = map_head(6) + t1;
    assert(t0 == end_then(records, attachments, logical_bytes, pages, attachment_bytes, t));
    lemma_map(6, t1);
    lemma_text_within("type"@, t2);
    lemma_text_within("manifest_end"@, t3);
    lemma_text_within("record_count"@, t4);
    lemma_uint(records, t5);
    lemma_text_within("attachment_count"@, t6);
    lemma_uint(attachments, t7);
    lemma_text_within("logical_bytes"@, t8);
    lemma_uint(logical_bytes, t9);
    lemma_text_within("inventory_pages_sha256"@, t10);
    lemma_bytes_within(pages@, t11);
    lemma_text_within("attachment_bytes"@, t12);
    lemma_uint(attachment_bytes, t13);
}

/// An entry of the inventory holds its parts under their names, in their order.
#[verifier::rlimit(60)]
pub proof fn lemma_entry_fields(m: EntryModel, t: Seq<u8>)
    requires
        entry_then(m, t).len() <= u64::MAX,
    ensures
        ({
            let r0 = next_map(Some(entry_then(m, t)), 4);
            let r1 = next_key(r0, "type"@);
            let r2 = next_text(r1);
            let r3 = next_key(after(r2), "id"@);
            let r4 = next_bytes(r3);
            let r5 = next_key(after(r4), "record_sha256"@);
            let r6 = next_bytes(r5);
            let r7 = next_key(after(r6), "logical_size"@);
            let r8 = next_uint(r7);
            &&& r2 is Some && (r2->0).0 == m.kind
            &&& r4 is Some && (r4->0).0 == m.id@
            &&& r6 is Some && (r6->0).0 == m.hash@
            &&& r8 is Some && (r8->0).0 == m.size
            &&& after(r8) == Some(t)
        }),
{
    let t9 = t;
    let t8 = uint_item(m.size) + t9;
    let t7 = text_item("logical_size"@) + t8;
    let t6 = bytes_item(m.hash@) + t7;
    let t5 = text_item("record_sha256"@) + t6;
    let t4 = bytes_item(m.id@) + t5;
    let t3 = text_item("id"@) + t4;
    let t2 = text_item(m.kind) + t3;
    let t1 = text_item("type"@) + t2;
    let t0 = map_head(4) + t1;
    assert(t0 == entry_then(m, t));
    lemma_map(4, t1);
    lemma_text_within("type"@, t2);
    lemma_text_within(m.kind, t3);
    lemma_text_within("id"@, t4);
    lemma_bytes_within(m.id@, t5);
    lemma_text_within("record_sha256"@, t6);
    lemma_bytes_within(m.hash@, t7);
    lemma_text_within("logical_size"@, t8);
    lemma_uint(m.size, t9);
}

/// A record of the audit in a backup holds its parts under their names, in their order.
#[verifier::rlimit(60)]
pub proof fn lemma_audit_row_fields(m: AuditRowModel, t: Seq<u8>)
    requires
        audit_row_then(m, t).len() <= u64::MAX,
    ensures
        ({
            let r0 = next_array(Some(audit_row_then(m, t)));
            let r1 = next_int(after(r0));
            let r2 = next_bytes(after(r1));
            let r3 = next_bytes(after(r2));
            let r4 = next_bytes(after(r3));
            let r5 = next_bytes(after(r4));
            &&& r0 is Some && (r0->0).0 == 5
            &&& r1 is Some && (r1->0).0 == m.seq
            &&& r2 is Some && (r2->0).0 == m.event_id
            &&& r3 is Some && (r3->0).0 == m.record
            &&& r4 is Some && (r4->0).0 == m.signature
            &&& r5 is Some && (r5->0).0 == m.record_hash
            &&& after(r5) == Some(t)
        }),
{
    let t6 = t;
    let t5 = bytes_item(m.record_hash) + t6;
    let t4 = bytes_item(m.signature) + t5;
    let t3 = bytes_item(m.record) + t4;
    let t2 = bytes_item(m.event_id) + t3;
    let t1 = int_item(m.seq) + t2;
    let t0 = array_head(5) + t1;
    assert(t0 == audit_row_then(m, t));
    lemma_array(5, t1);
    lemma_int(m.seq, t2);
    lemma_bytes_within(m.event_id, t3);
    lemma_bytes_within(m.record, t4);
    lemma_bytes_within(m.signature, t5);
    lemma_bytes_within(m.record_hash, t6);
}

/// A segment of the audit in a backup holds its parts under their names, in their order.
#[verifier::rlimit(60)]
pub proof fn lemma_audit_bundle_fields(m: AuditBundleModel, t: Seq<u8>)
    requires
        audit_bundle_then(m, t).len() <= u64::MAX,
        m.records.len() <= u64::MAX,
    ensures
        ({
            let r0 = next_array(Some(audit_bundle_then(m, t)));
            let r1 = next_bytes(after(r0));
            let r2 = next_bytes(after(r1));
            let r3 = next_int(after(r2));
            let r4 = next_int(after(r3));
            let r5 = next_int(after(r4));
            let r6 = next_bytes(after(r5));
            let r7 = next_bytes(after(r6));
            let r8 = next_int(after(r7));
            let r9 = next_int(after(r8));
            let r10 = next_bool(after(r9));
            let r11 = next_bytes(after(r10));
            let r12 = next_bytes(after(r11));
            let r13 = next_bytes(after(r12));
            let r14 = next_bytes(after(r13));
            let r15 = next_bytes(after(r14));
            let r16 = next_array(after(r15));
            &&& r0 is Some && (r0->0).0 == 16
            &&& r1 is Some && (r1->0).0 == m.segment@
            &&& r2 is Some && (r2->0).0 == m.device@
            &&& r3 is Some && (r3->0).0 == m.generation
            &&& r4 is Some && (r4->0).0 == m.first_seq
            &&& r5 is Some && (r5->0).0 == m.last_seq
            &&& r6 is Some && (r6->0).0 == m.previous_hash
            &&& r7 is Some && (r7->0).0 == m.last_hash
            &&& r8 is Some && (r8->0).0 == m.record_count
            &&& r9 is Some && (r9->0).0 == m.stored_bytes
            &&& r10 is Some && (r10->0).0 == m.closed
            &&& r11 is Some && (r11->0).0 == m.human_envelope
            &&& r12 is Some && (r12->0).0 == m.encryption_public_key
            &&& r13 is Some && (r13->0).0 == m.signing_public_key
            &&& r14 is Some && (r14->0).0 == m.human_signature
            &&& r15 is Some && (r15->0).0 == m.manifest
            &&& r16 is Some && (r16->0).0 == m.records.len()
            &&& (r16->0).1 == audit_rows_tail(m.records, t)
        }),
{
    let t17 = t;
    let t16 = audit_rows_then(m.records, t17);
    let t15 = bytes_item(m.manifest) + t16;
    let t14 = bytes_item(m.human_signature) + t15;
    let t13 = bytes_item(m.signing_public_key) + t14;
    let t12 = bytes_item(m.encryption_public_key) + t13;
    let t11 = bytes_item(m.human_envelope) + t12;
    let t10 = bool_item(m.closed) + t11;
    let t9 = int_item(m.stored_bytes) + t10;
    let t8 = int_item(m.record_count) + t9;
    let t7 = bytes_item(m.last_hash) + t8;
    let t6 = bytes_item(m.previous_hash) + t7;
    let t5 = int_item(m.last_seq) + t6;
    let t4 = int_item(m.first_seq) + t5;
    let t3 = int_item(m.generation) + t4;
    let t2 = bytes_item(m.device@) + t3;
    let t1 = bytes_item(m.segment@) + t2;
    let t0 = array_head(16) + t1;
    assert(t0 == audit_bundle_then(m, t));
    lemma_array(16, t1);
    lemma_bytes_within(m.segment@, t2);
    lemma_bytes_within(m.device@, t3);
    lemma_int(m.generation, t4);
    lemma_int(m.first_seq, t5);
    lemma_int(m.last_seq, t6);
    lemma_bytes_within(m.previous_hash, t7);
    lemma_bytes_within(m.last_hash, t8);
    lemma_int(m.record_count, t9);
    lemma_int(m.stored_bytes, t10);
    lemma_bool(m.closed, t11);
    lemma_bytes_within(m.human_envelope, t12);
    lemma_bytes_within(m.encryption_public_key, t13);
    lemma_bytes_within(m.signing_public_key, t14);
    lemma_bytes_within(m.human_signature, t15);
    lemma_bytes_within(m.manifest, t16);
    assert(t16 == array_head(m.records.len() as u64) + audit_rows_tail(m.records, t));
    lemma_array(m.records.len() as u64, audit_rows_tail(m.records, t));
}

/// The records of a segment come one after the other.
pub proof fn lemma_audit_rows(v: Seq<AuditRowModel>, t: Seq<u8>)
    ensures
        v.len() == 0 ==> audit_rows_tail(v, t) == t,
        v.len() > 0 ==> audit_rows_tail(v, t) == audit_row_then(
            v[0],
            audit_rows_tail(v.skip(1), t),
        ),
{
}

/// A page of the inventory holds its number, how many entries it has, and its
/// entries one after the other.
pub proof fn lemma_page_fields(index: u64, v: Seq<EntryModel>)
    requires
        page_bytes(index, v).len() <= u64::MAX,
        v.len() <= u64::MAX,
    ensures
        ({
            let kind = next_key(
                next_key(next_map(Some(page_bytes(index, v)), 3), "type"@),
                "inventory_page"@,
            );
            let number = next_uint(next_key(kind, "index"@));
            let entries = next_array(next_key(after(number), "entries"@));
            &&& number is Some && (number->0).0 == index
            &&& entries is Some && (entries->0).0 == v.len()
            &&& (entries->0).1 == entries_tail(v, Seq::empty())
        }),
        forall|w: Seq<EntryModel>, t: Seq<u8>|
            w.len() > 0 ==> #[trigger] entries_tail(w, t) == entry_then(
                w[0],
                entries_tail(w.skip(1), t),
            ),
        forall|w: Seq<EntryModel>, t: Seq<u8>|
            w.len() == 0 ==> #[trigger] entries_tail(w, t) == t,
{
    let u = entries_tail(v, Seq::empty());
    let t5 = array_head(v.len() as u64) + u;
    let t4 = text_item("entries"@) + t5;
    let t3 = uint_item(index) + t4;
    let t2 = text_item("index"@) + t3;
    let t1 = text_item("inventory_page"@) + t2;
    let t0 = text_item("type"@) + t1;
    assert(page_bytes(index, v) == map_head(3) + t0);
    lemma_map(3, t0);
    lemma_text_within("type"@, t1);
    lemma_text_within("inventory_page"@, t2);
    lemma_text_within("index"@, t3);
    lemma_uint(index, t4);
    lemma_text_within("entries"@, t5);
    lemma_array(v.len() as u64, u);
}

/// What is written of a stored row is its values, one after the other: nothing,
/// a number, a text or bytes; a text that is not one, and a number with a
/// fraction, cannot be written.
pub proof fn lemma_row_values(v: Seq<SqlValue>, n: nat)
    requires
        0 < n <= v.len(),
    ensures
        value_item(v[n - 1]) is None ==> values_bytes(v, n) is None,
        values_bytes(v, (n - 1) as nat) is Some && value_item(v[n - 1]) is Some ==> values_bytes(
            v,
            n,
        ) == Some(values_bytes(v, (n - 1) as nat)->0 + value_item(v[n - 1])->0),
        values_bytes(v, 0) == Some(Seq::<u8>::empty()),
        row_bytes(v) is Some <==> values_bytes(v, v.len()) is Some,
        row_bytes(v) is Some ==> row_bytes(v)->0 == array_head(v.len() as u64) + values_bytes(
            v,
            v.len(),
        )->0,
        match v[n - 1] {
            SqlValue::Null => value_item(v[n - 1]) == Some(null_item()),
            SqlValue::Integer(k) => value_item(v[n - 1]) == Some(int_item(k)),
            SqlValue::Text(s) => value_item(v[n - 1]) == (if valid_utf8(s@) {
                Some(text_item(decode_utf8(s@)))
            } else {
                None
            }),
            SqlValue::Blob(s) => value_item(v[n - 1]) == Some(bytes_item(s@)),
            SqlValue::Real => value_item(v[n - 1]) is None,
        },
{
}

/// What is hashed of a value: a mark of its sort, and a number in eight bytes,
/// or a text or bytes behind its length.
pub proof fn lemma_digested(n: i64, s: Vec<u8>)
    ensures
        digested_value(SqlValue::Null) == Some(seq![0u8]),
        n >= 0 ==> digested_value(SqlValue::Integer(n)) == Some(seq![1u8] + be64(n as u64)),
        n < 0 ==> digested_value(SqlValue::Integer(n)) == Some(
            seq![1u8] + be64((n + 0x1_0000_0000_0000_0000) as u64),
        ),
        digested_value(SqlValue::Text(s)) == Some(seq![2u8] + be64(s@.len() as u64) + s@),
        digested_value(SqlValue::Blob(s)) == Some(seq![2u8] + be64(s@.len() as u64) + s@),
        digested_value(SqlValue::Real) is None,
{
}

} // verus!

//! The encodings hold what they encode: each part is found under its name.
use crate::attempts::{params_bytes, scope_bytes, ScopeModel, StartModel};
use crate::audit::{
    action_name, actor_name, outcome_name, record_bytes, stored_bytes, AuditRecordModel,
    StoredModel,
};
use crate::authorization::{credential_bytes, reason_name, AuthorizationReason, OperationalModel};
use crate::backup_format::{
    identity_bytes, imported_audit_bytes, organization_bytes, outer_bytes, partial_item_bytes,
    partial_revision_bytes, OuterModel,
};
use crate::bodies::{
    agent_grant_body_bytes, enable_body_bytes, item_purge_body_bytes, lifecycle_body_bytes,
    purge_scope_name, reason_body_bytes, resume_body_bytes, EnableBodyModel, GrantBodyModel,
    PurgeBodyModel,
};
use crate::cbor::{
    array_head, bool_item, bytes_item, int_item, lemma_array, lemma_bool, lemma_bytes_len,
    lemma_bytes_within, lemma_int, lemma_map, lemma_null, lemma_text_within, lemma_uint, map_head,
    null_item, optional_bytes_item, optional_text_item, optional_uint_item, take_array,
    take_map_of, take_null, take_nullable_text, take_optional_bytes, take_uint, text_item,
    uint_item,
};
use crate::command::{
    body_bytes, command_bytes, event_manifest_bytes, head_list, import_manifest_bytes,
    receipt_bytes, restore_manifest_bytes, state_view_bytes, Body, CommandModel,
    EventManifestModel, ImportManifestModel, ReceiptModel, RestoreManifest, StateView,
};
use crate::content::kind_name;
use crate::events::{
    g5_event_bytes, import_revision_body_bytes, legacy_event_body_bytes, EventModel,
    ImportRevisionModel, LegacyEventBody,
};
use crate::history::{purge_confirmation_bytes, ConfirmationModel};
use crate::lists::{
    after, digest_list_at, digests_then, fixed_at, ids_tail, ids_then, lemma_array_of,
    lemma_digest_list, lemma_nullable_text, lemma_optional_bytes, next_array, next_bool,
    next_bytes, next_int, next_key, next_text, next_uint, opt_array,
};
use vstd::prelude::*;

verus! {

/// What follows the head of a map of `n` entries.
pub open spec fn next_map(b: Option<Seq<u8>>, n: u64) -> Option<Seq<u8>> {
    match b {
        Some(b) => take_map_of(b, n),
        None => None,
    }
}

/// What follows the null value.
pub open spec fn next_null(b: Option<Seq<u8>>) -> Option<Seq<u8>> {
    match b {
        Some(b) => take_null(b),
        None => None,
    }
}

/// The byte string, or the null value, and what follows it.
pub open spec fn next_optional_bytes(b: Option<Seq<u8>>) -> Option<(Option<Seq<u8>>, Seq<u8>)> {
    match b {
        Some(b) => take_optional_bytes(b),
        None => None,
    }
}

/// The text, or the null value, and what follows it.
pub open spec fn next_optional_text(b: Option<Seq<u8>>) -> Option<(Option<Seq<char>>, Seq<u8>)> {
    match b {
        Some(b) => take_nullable_text(b),
        None => None,
    }
}

/// The unsigned integer, or the null value, and what follows it.
pub open spec fn next_optional_uint(b: Option<Seq<u8>>) -> Option<(Option<u64>, Seq<u8>)> {
    match b {
        Some(b) => match take_null(b) {
            Some(t) => Some((None, t)),
            None => match take_uint(b) {
                Some((n, t)) => Some((Some(n), t)),
                None => None,
            },
        },
        None => None,
    }
}

/// The list of digests and what follows it.
pub open spec fn next_digests(b: Option<Seq<u8>>) -> Option<(Seq<[u8; 32]>, Seq<u8>)> {
    match b {
        Some(b) => digest_list_at(b),
        None => None,
    }
}

/// The first `n` identifiers and what follows them.
pub open spec fn ids_read(b: Seq<u8>, n: nat) -> Option<(Seq<[u8; 16]>, Seq<u8>)>
    decreases n,
{
    if n == 0 {
        Some((Seq::empty(), b))
    } else {
        match fixed_at::<16>(b) {
            Some((a, t)) => match ids_read(t, (n - 1) as nat) {
                Some((v, u)) => Some((seq![a] + v, u)),
                None => None,
            },
            None => None,
        }
    }
}

/// The list of identifiers and what follows it.
pub open spec fn next_ids(b: Option<Seq<u8>>) -> Option<(Seq<[u8; 16]>, Seq<u8>)> {
    match b {
        Some(b) => match take_array(b) {
            Some((n, t)) => ids_read(t, n as nat),
            None => None,
        },
        None => None,
    }
}

/// The entries of a list of identifiers are read back.
proof fn lemma_ids_read(v: Seq<[u8; 16]>, t: Seq<u8>)
    requires
        ids_tail(v, t).len() <= u64::MAX,
    ensures
        ids_read(ids_tail(v, t), v.len()) == Some((v, t)),
        t.len() + v.len() <= ids_tail(v, t).len(),
    decreases v.len(),
{
    if v.len() > 0 {
        let rest = ids_tail(v.skip(1), t);
        lemma_bytes_within(v[0]@, rest);
        lemma_array_of(v[0]);
        lemma_bytes_len(v[0]@);
        lemma_ids_read(v.skip(1), t);
        assert(seq![v[0]] + v.skip(1) =~= v);
    } else {
        assert(v =~= Seq::empty());
    }
}

/// A list of identifiers is read back.
proof fn lemma_id_list(v: Seq<[u8; 16]>, t: Seq<u8>)
    requires
        ids_then(v, t).len() <= u64::MAX,
    ensures
        next_ids(Some(ids_then(v, t))) == Some((v, t)),
        t.len() <= ids_then(v, t).len(),
{
    lemma_ids_read(v, t);
    lemma_array(v.len() as u64, ids_tail(v, t));
}

/// An unsigned integer, or the null value, is read back.
proof fn lemma_optional_uint(value: Option<u64>, t: Seq<u8>)
    ensures
        next_optional_uint(Some(optional_uint_item(value) + t)) == Some((value, t)),
{
    match value {
        Some(n) => {
            lemma_uint(n, t);
        },
        None => {
            lemma_null(t);
        },
    }
}

/// The parameters of an attempt hold their parts under their names, in their
/// order, and nothing else.
#[verifier::rlimit(60)]
pub proof fn lemma_params_fields(m: StartModel)
    requires
        params_bytes(m).len() <= u64::MAX,
    ensures
        ({
            let r0 = next_array(Some(params_bytes(m)));
            let r1 = next_bytes(after(r0));
            let r2 = next_text(after(r1));
            let r3 = next_uint(after(r2));
            let r4 = next_text(after(r3));
            let r5 = next_text(after(r4));
            let r6 = next_bytes(after(r5));
            &&& r0 is Some && (r0->0).0 == 6
            &&& r1 is Some && (r1->0).0 == m.credential_id@
            &&& r2 is Some && (r2->0).0 == m.integration_id
            &&& r3 is Some && (r3->0).0 == m.integration_version as u64
            &&& r4 is Some && (r4->0).0 == m.method
            &&& r5 is Some && (r5->0).0 == m.destination
            &&& r6 is Some && (r6->0).0 == m.context
            &&& after(r6) is Some && (after(r6)->0).len() == 0
        }),
{
    let t7 = Seq::<u8>::empty();
    let t6 = bytes_item(m.context) + t7;
    let t5 = text_item(m.destination) + t6;
    let t4 = text_item(m.method) + t5;
    let t3 = uint_item(m.integration_version as u64) + t4;
    let t2 = text_item(m.integration_id) + t3;
    let t1 = bytes_item(m.credential_id@) + t2;
    let t0 = array_head(6) + t1;
    assert(t0 == params_bytes(m));
    lemma_array(6, t1);
    lemma_bytes_within(m.credential_id@, t2);
    lemma_text_within(m.integration_id, t3);
    lemma_uint(m.integration_version as u64, t4);
    lemma_text_within(m.method, t5);
    lemma_text_within(m.destination, t6);
    lemma_bytes_within(m.context, t7);
}

/// The scope of an attempt holds its parts under their names, in their order, and nothing else.
#[verifier::rlimit(60)]
pub proof fn lemma_scope_fields(m: ScopeModel)
    requires
        scope_bytes(m).len() <= u64::MAX,
    ensures
        ({
            let r0 = next_array(Some(scope_bytes(m)));
            let r1 = next_key(after(r0), "pm/idempotency/v1"@);
            let r2 = next_bytes(r1);
            let r3 = next_bytes(after(r2));
            let r4 = next_bytes(after(r3));
            let r5 = next_uint(after(r4));
            let r6 = next_int(after(r5));
            let r7 = next_bytes(after(r6));
            &&& r0 is Some && (r0->0).0 == 7
            &&& r2 is Some && (r2->0).0 == m.vault@
            &&& r3 is Some && (r3->0).0 == m.device@
            &&& r4 is Some && (r4->0).0 == m.identity.subject@
            &&& r5 is Some && (r5->0).0 == m.identity.generation
            &&& r6 is Some && (r6->0).0 == m.key.issued_at_us
            &&& r7 is Some && (r7->0).0 == m.key.nonce@
            &&& after(r7) is Some && (after(r7)->0).len() == 0
        }),
{
    let t8 = Seq::<u8>::empty();
    let t7 = bytes_item(m.key.nonce@) + t8;
    let t6 = int_item(m.key.issued_at_us) + t7;
    let t5 = uint_item(m.identity.generation) + t6;
    let t4 = bytes_item(m.identity.subject@) + t5;
    let t3 = bytes_item(m.device@) + t4;
    let t2 = bytes_item(m.vault@) + t3;
    let t1 = text_item("pm/idempotency/v1"@) + t2;
    let t0 = array_head(7) + t1;
    assert(t0 == scope_bytes(m));
    lemma_array(7, t1);
    lemma_text_within("pm/idempotency/v1"@, t2);
    lemma_bytes_within(m.vault@, t3);
    lemma_bytes_within(m.device@, t4);
    lemma_bytes_within(m.identity.subject@, t5);
    lemma_uint(m.identity.generation, t6);
    lemma_int(m.key.issued_at_us, t7);
    lemma_bytes_within(m.key.nonce@, t8);
}

/// An audit record holds its parts under their names, in their order, and nothing else.
#[verifier::rlimit(60)]
pub proof fn lemma_record_fields(m: AuditRecordModel)
    requires
        record_bytes(m).len() <= u64::MAX,
    ensures
        ({
            let r0 = next_map(Some(record_bytes(m)), 19);
            let r1 = next_key(r0, "v"@);
            let r2 = next_uint(r1);
            let r3 = next_key(after(r2), "vault"@);
            let r4 = next_bytes(r3);
            let r5 = next_key(after(r4), "device"@);
            let r6 = next_bytes(r5);
            let r7 = next_key(after(r6), "audit_generation"@);
            let r8 = next_uint(r7);
            let r9 = next_key(after(r8), "seq"@);
            let r10 = next_uint(r9);
            let r11 = next_key(after(r10), "event_id"@);
            let r12 = next_bytes(r11);
            let r13 = next_key(after(r12), "wall_time_us"@);
            let r14 = next_int(r13);
            let r15 = next_key(after(r14), "monotonic_us"@);
            let r16 = next_uint(r15);
            let r17 = next_key(after(r16), "boot_id"@);
            let r18 = next_null(r17);
            let r19 = next_key(r18, "actor_kind"@);
            let r20 = next_text(r19);
            let r21 = next_key(after(r20), "actor_id"@);
            let r22 = next_optional_bytes(r21);
            let r23 = next_key(after(r22), "action"@);
            let r24 = next_text(r23);
            let r25 = next_key(after(r24), "outcome"@);
            let r26 = next_text(r25);
            let r27 = next_key(after(r26), "reason"@);
            let r28 = next_null(r27);
            let r29 = next_key(r28, "item_id"@);
            let r30 = next_optional_bytes(r29);
            let r31 = next_key(after(r30), "revision_id"@);
            let r32 = next_optional_bytes(r31);
            let r33 = next_key(after(r32), "attempt_id"@);
            let r34 = next_optional_bytes(r33);
            let r35 = next_key(after(r34), "authority_frontier_hash"@);
            let r36 = next_bytes(r35);
            let r37 = next_key(after(r36), "previous_record_hash"@);
            let r38 = next_bytes(r37);
            &&& r2 is Some && (r2->0).0 == 1
            &&& r4 is Some && (r4->0).0 == m.vault@
            &&& r6 is Some && (r6->0).0 == m.device@
            &&& r8 is Some && (r8->0).0 == m.generation
            &&& r10 is Some && (r10->0).0 == m.seq
            &&& r12 is Some && (r12->0).0 == m.event_id@
            &&& r14 is Some && (r14->0).0 == m.wall_time_us
            &&& r16 is Some && (r16->0).0 == 0
            &&& r20 is Some && (r20->0).0 == actor_name(m.event.actor_kind)
            &&& r22 is Some && (r22->0).0 == opt_array(m.event.actor_id)
            &&& r24 is Some && (r24->0).0 == action_name(m.event.action)
            &&& r26 is Some && (r26->0).0 == outcome_name(m.event.outcome)
            &&& r30 is Some && (r30->0).0 == opt_array(m.event.item_id)
            &&& r32 is Some && (r32->0).0 == opt_array(m.event.revision_id)
            &&& r34 is Some && (r34->0).0 == opt_array(m.event.attempt_id)
            &&& r36 is Some && (r36->0).0 == m.frontier@
            &&& r38 is Some && (r38->0).0 == m.previous_hash@
            &&& after(r38) is Some && (after(r38)->0).len() == 0
        }),
{
    let t39 = Seq::<u8>::empty();
    let t38 = bytes_item(m.previous_hash@) + t39;
    let t37 = text_item("previous_record_hash"@) + t38;
    let t36 = bytes_item(m.frontier@) + t37;
    let t35 = text_item("authority_frontier_hash"@) + t36;
    let t34 = optional_bytes_item(opt_array(m.event.attempt_id)) + t35;
    let t33 = text_item("attempt_id"@) + t34;
    let t32 = optional_bytes_item(opt_array(m.event.revision_id)) + t33;
    let t31 = text_item("revision_id"@) + t32;
    let t30 = optional_bytes_item(opt_array(m.event.item_id)) + t31;
    let t29 = text_item("item_id"@) + t30;
    let t28 = null_item() + t29;
    let t27 = text_item("reason"@) + t28;
    let t26 = text_item(outcome_name(m.event.outcome)) + t27;
    let t25 = text_item("outcome"@) + t26;
    let t24 = text_item(action_name(m.event.action)) + t25;
    let t23 = text_item("action"@) + t24;
    let t22 = optional_bytes_item(opt_array(m.event.actor_id)) + t23;
    let t21 = text_item("actor_id"@) + t22;
    let t20 = text_item(actor_name(m.event.actor_kind)) + t21;
    let t19 = text_item("actor_kind"@) + t20;
    let t18 = null_item() + t19;
    let t17 = text_item("boot_id"@) + t18;
    let t16 = uint_item(0) + t17;
    let t15 = text_item("monotonic_us"@) + t16;
    let t14 = int_item(m.wall_time_us) + t15;
    let t13 = text_item("wall_time_us"@) + t14;
    let t12 = bytes_item(m.event_id@) + t13;
    let t11 = text_item("event_id"@) + t12;
    let t10 = uint_item(m.seq) + t11;
    let t9 = text_item("seq"@) + t10;
    let t8 = uint_item(m.generation) + t9;
    let t7 = text_item("audit_generation"@) + t8;
    let t6 = bytes_item(m.device@) + t7;
    let t5 = text_item("device"@) + t6;
    let t4 = bytes_item(m.vault@) + t5;
    let t3 = text_item("vault"@) + t4;
    let t2 = uint_item(1) + t3;
    let t1 = text_item("v"@) + t2;
    let t0 = map_head(19) + t1;
    assert(t0 == record_bytes(m));
    lemma_map(19, t1);
    lemma_text_within("v"@, t2);
    lemma_uint(1, t3);
    lemma_text_within("vault"@, t4);
    lemma_bytes_within(m.vault@, t5);
    lemma_text_within("device"@, t6);
    lemma_bytes_within(m.device@, t7);
    lemma_text_within("audit_generation"@, t8);
    lemma_uint(m.generation, t9);
    lemma_text_within("seq"@, t10);
    lemma_uint(m.seq, t11);
    lemma_text_within("event_id"@, t12);
    lemma_bytes_within(m.event_id@, t13);
    lemma_text_within("wall_time_us"@, t14);
    lemma_int(m.wall_time_us, t15);
    lemma_text_within("monotonic_us"@, t16);
    lemma_uint(0, t17);
    lemma_text_within("boot_id"@, t18);
    lemma_null(t19);
    lemma_text_within("actor_kind"@, t20);
    lemma_text_within(actor_name(m.event.actor_kind), t21);
    lemma_text_within("actor_id"@, t22);
    lemma_optional_bytes(opt_array(m.event.actor_id), t23);
    lemma_text_within("action"@, t24);
    lemma_text_within(action_name(m.event.action), t25);
    lemma_text_within("outcome"@, t26);
    lemma_text_within(outcome_name(m.event.outcome), t27);
    lemma_text_within("reason"@, t28);
    lemma_null(t29);
    lemma_text_within("item_id"@, t30);
    lemma_optional_bytes(opt_array(m.event.item_id), t31);
    lemma_text_within("revision_id"@, t32);
    lemma_optional_bytes(opt_array(m.event.revision_id), t33);
    lemma_text_within("attempt_id"@, t34);
    lemma_optional_bytes(opt_array(m.event.attempt_id), t35);
    lemma_text_within("authority_frontier_hash"@, t36);
    lemma_bytes_within(m.frontier@, t37);
    lemma_text_within("previous_record_hash"@, t38);
    lemma_bytes_within(m.previous_hash@, t39);
}

/// A stored audit record holds its parts under their names, in their order, and nothing else.
#[verifier::rlimit(60)]
pub proof fn lemma_stored_fields(m: StoredModel)
    requires
        stored_bytes(m).len() <= u64::MAX,
    ensures
        ({
            let r0 = next_map(Some(stored_bytes(m)), 2);
            let r1 = next_key(r0, "envelope"@);
            let r2 = next_bytes(r1);
            let r3 = next_key(after(r2), "signature"@);
            let r4 = next_bytes(r3);
            &&& r2 is Some && (r2->0).0 == m.envelope
            &&& r4 is Some && (r4->0).0 == m.signature@
            &&& after(r4) is Some && (after(r4)->0).len() == 0
        }),
{
    let t5 = Seq::<u8>::empty();
    let t4 = bytes_item(m.signature@) + t5;
    let t3 = text_item("signature"@) + t4;
    let t2 = bytes_item(m.envelope) + t3;
    let t1 = text_item("envelope"@) + t2;
    let t0 = map_head(2) + t1;
    assert(t0 == stored_bytes(m));
    lemma_map(2, t1);
    lemma_text_within("envelope"@, t2);
    lemma_bytes_within(m.envelope, t3);
    lemma_text_within("signature"@, t4);
    lemma_bytes_within(m.signature@, t5);
}

/// A delegated credential holds its parts under their names, in their order, and nothing else.
#[verifier::rlimit(60)]
pub proof fn lemma_credential_fields(m: OperationalModel)
    requires
        credential_bytes(m).len() <= u64::MAX,
    ensures
        ({
            let r0 = next_map(Some(credential_bytes(m)), 7);
            let r1 = next_key(r0, "item_id"@);
            let r2 = next_bytes(r1);
            let r3 = next_key(after(r2), "revision_id"@);
            let r4 = next_bytes(r3);
            let r5 = next_key(after(r4), "kind"@);
            let r6 = next_text(r5);
            let r7 = next_key(after(r6), "title"@);
            let r8 = next_text(r7);
            let r9 = next_key(after(r8), "destination"@);
            let r10 = next_optional_text(r9);
            let r11 = next_key(after(r10), "account"@);
            let r12 = next_optional_text(r11);
            let r13 = next_key(after(r12), "auth"@);
            let r14 = next_bytes(r13);
            &&& r2 is Some && (r2->0).0 == m.descriptor.item_id@
            &&& r4 is Some && (r4->0).0 == m.descriptor.revision_id@
            &&& r6 is Some && (r6->0).0 == kind_name(m.descriptor.kind)
            &&& r8 is Some && (r8->0).0 == m.descriptor.title
            &&& r10 is Some && (r10->0).0 == m.descriptor.destination
            &&& r12 is Some && (r12->0).0 == m.descriptor.account
            &&& r14 is Some && (r14->0).0 == m.auth
            &&& after(r14) is Some && (after(r14)->0).len() == 0
        }),
{
    let t15 = Seq::<u8>::empty();
    let t14 = bytes_item(m.auth) + t15;
    let t13 = text_item("auth"@) + t14;
    let t12 = optional_text_item(m.descriptor.account) + t13;
    let t11 = text_item("account"@) + t12;
    let t10 = optional_text_item(m.descriptor.destination) + t11;
    let t9 = text_item("destination"@) + t10;
    let t8 = text_item(m.descriptor.title) + t9;
    let t7 = text_item("title"@) + t8;
    let t6 = text_item(kind_name(m.descriptor.kind)) + t7;
    let t5 = text_item("kind"@) + t6;
    let t4 = bytes_item(m.descriptor.revision_id@) + t5;
    let t3 = text_item("revision_id"@) + t4;
    let t2 = bytes_item(m.descriptor.item_id@) + t3;
    let t1 = text_item("item_id"@) + t2;
    let t0 = map_head(7) + t1;
    assert(t0 == credential_bytes(m));
    lemma_map(7, t1);
    lemma_text_within("item_id"@, t2);
    lemma_bytes_within(m.descriptor.item_id@, t3);
    lemma_text_within("revision_id"@, t4);
    lemma_bytes_within(m.descriptor.revision_id@, t5);
    lemma_text_within("kind"@, t6);
    lemma_text_within(kind_name(m.descriptor.kind), t7);
    lemma_text_within("title"@, t8);
    lemma_text_within(m.descriptor.title, t9);
    lemma_text_within("destination"@, t10);
    lemma_nullable_text(m.descriptor.destination, t11);
    lemma_text_within("account"@, t12);
    lemma_nullable_text(m.descriptor.account, t13);
    lemma_text_within("auth"@, t14);
    lemma_bytes_within(m.auth, t15);
}

/// The outer header of a backup holds its parts under their names, in their
/// order, and nothing else.
#[verifier::rlimit(60)]
pub proof fn lemma_outer_fields(m: OuterModel)
    requires
        outer_bytes(m).len() <= u64::MAX,
    ensures
        ({
            let r0 = next_map(Some(outer_bytes(m)), 8);
            let r1 = next_key(r0, "v"@);
            let r2 = next_uint(r1);
            let r3 = next_key(after(r2), "suite"@);
            let r4 = next_uint(r3);
            let r5 = next_key(after(r4), "backup_id"@);
            let r6 = next_bytes(r5);
            let r7 = next_key(after(r6), "vault"@);
            let r8 = next_bytes(r7);
            let r9 = next_key(after(r8), "key_generation"@);
            let r10 = next_uint(r9);
            let r11 = next_key(after(r10), "password_root_envelope"@);
            let r12 = next_bytes(r11);
            let r13 = next_key(after(r12), "recovery_root_envelope"@);
            let r14 = next_bytes(r13);
            let r15 = next_key(after(r14), "backup_key_envelope"@);
            let r16 = next_bytes(r15);
            &&& r2 is Some && (r2->0).0 == 1
            &&& r4 is Some && (r4->0).0 == 1
            &&& r6 is Some && (r6->0).0 == m.backup_id@
            &&& r8 is Some && (r8->0).0 == m.vault@
            &&& r10 is Some && (r10->0).0 == m.key_generation
            &&& r12 is Some && (r12->0).0 == m.password_envelope
            &&& r14 is Some && (r14->0).0 == m.recovery_envelope
            &&& r16 is Some && (r16->0).0 == m.backup_key_envelope
            &&& after(r16) is Some && (after(r16)->0).len() == 0
        }),
{
    let t17 = Seq::<u8>::empty();
    let t16 = bytes_item(m.backup_key_envelope) + t17;
    let t15 = text_item("backup_key_envelope"@) + t16;
    let t14 = bytes_item(m.recovery_envelope) + t15;
    let t13 = text_item("recovery_root_envelope"@) + t14;
    let t12 = bytes_item(m.password_envelope) + t13;
    let t11 = text_item("password_root_envelope"@) + t12;
    let t10 = uint_item(m.key_generation) + t11;
    let t9 = text_item("key_generation"@) + t10;
    let t8 = bytes_item(m.vault@) + t9;
    let t7 = text_item("vault"@) + t8;
    let t6 = bytes_item(m.backup_id@) + t7;
    let t5 = text_item("backup_id"@) + t6;
    let t4 = uint_item(1) + t5;
    let t3 = text_item("suite"@) + t4;
    let t2 = uint_item(1) + t3;
    let t1 = text_item("v"@) + t2;
    let t0 = map_head(8) + t1;
    assert(t0 == outer_bytes(m));
    lemma_map(8, t1);
    lemma_text_within("v"@, t2);
    lemma_uint(1, t3);
    lemma_text_within("suite"@, t4);
    lemma_uint(1, t5);
    lemma_text_within("backup_id"@, t6);
    lemma_bytes_within(m.backup_id@, t7);
    lemma_text_within("vault"@, t8);
    lemma_bytes_within(m.vault@, t9);
    lemma_text_within("key_generation"@, t10);
    lemma_uint(m.key_generation, t11);
    lemma_text_within("password_root_envelope"@, t12);
    lemma_bytes_within(m.password_envelope, t13);
    lemma_text_within("recovery_root_envelope"@, t14);
    lemma_bytes_within(m.recovery_envelope, t15);
    lemma_text_within("backup_key_envelope"@, t16);
    lemma_bytes_within(m.backup_key_envelope, t17);
}

/// A tag of a backup holds its parts under their names, in their order, and nothing else.
#[verifier::rlimit(60)]
pub proof fn lemma_organization_fields(name: Seq<char>, items: Seq<[u8; 16]>)
    requires
        organization_bytes(name, items).len() <= u64::MAX,
    ensures
        ({
            let r0 = next_array(Some(organization_bytes(name, items)));
            let r1 = next_text(after(r0));
            let r2 = next_ids(after(r1));
            &&& r0 is Some && (r0->0).0 == 2
            &&& r1 is Some && (r1->0).0 == name
            &&& r2 is Some && (r2->0).0 == items
            &&& after(r2) is Some && (after(r2)->0).len() == 0
        }),
{
    let t3 = Seq::<u8>::empty();
    let t2 = ids_then(items, t3);
    let t1 = text_item(name) + t2;
    let t0 = array_head(2) + t1;
    assert(t0 == organization_bytes(name, items));
    lemma_array(2, t1);
    lemma_text_within(name, t2);
    lemma_id_list(items, t3);
}

/// A purged revision of a backup holds its parts under their names, in their
/// order, and nothing else.
#[verifier::rlimit(60)]
pub proof fn lemma_partial_revision_fields(
    item: [u8; 16],
    revision: [u8; 16],
    purge_event: [u8; 32],
)
    requires
        partial_revision_bytes(item, revision, purge_event).len() <= u64::MAX,
    ensures
        ({
            let r0 = next_array(Some(partial_revision_bytes(item, revision, purge_event)));
            let r1 = next_key(after(r0), "purged_revision"@);
            let r2 = next_bytes(r1);
            let r3 = next_bytes(after(r2));
            let r4 = next_bytes(after(r3));
            &&& r0 is Some && (r0->0).0 == 4
            &&& r2 is Some && (r2->0).0 == item@
            &&& r3 is Some && (r3->0).0 == revision@
            &&& r4 is Some && (r4->0).0 == purge_event@
            &&& after(r4) is Some && (after(r4)->0).len() == 0
        }),
{
    let t5 = Seq::<u8>::empty();
    let t4 = bytes_item(purge_event@) + t5;
    let t3 = bytes_item(revision@) + t4;
    let t2 = bytes_item(item@) + t3;
    let t1 = text_item("purged_revision"@) + t2;
    let t0 = array_head(4) + t1;
    assert(t0 == partial_revision_bytes(item, revision, purge_event));
    lemma_array(4, t1);
    lemma_text_within("purged_revision"@, t2);
    lemma_bytes_within(item@, t3);
    lemma_bytes_within(revision@, t4);
    lemma_bytes_within(purge_event@, t5);
}

/// A purged item of a backup holds its parts under their names, in their order, and nothing else.
#[verifier::rlimit(60)]
pub proof fn lemma_partial_item_fields(
    item: [u8; 16],
    purge_event: [u8; 32],
    revision_count: u64,
    attachment_count: u64,
    encrypted_bytes: u64,
)
    requires
        partial_item_bytes(item, purge_event, revision_count, attachment_count,
            encrypted_bytes).len() <= u64::MAX,
    ensures
        ({
            let r0 = next_array(Some(partial_item_bytes(item, purge_event, revision_count,
                attachment_count, encrypted_bytes)));
            let r1 = next_key(after(r0), "purged_item"@);
            let r2 = next_bytes(r1);
            let r3 = next_bytes(after(r2));
            let r4 = next_uint(after(r3));
            let r5 = next_uint(after(r4));
            let r6 = next_uint(after(r5));
            &&& r0 is Some && (r0->0).0 == 6
            &&& r2 is Some && (r2->0).0 == item@
            &&& r3 is Some && (r3->0).0 == purge_event@
            &&& r4 is Some && (r4->0).0 == revision_count
            &&& r5 is Some && (r5->0).0 == attachment_count
            &&& r6 is Some && (r6->0).0 == encrypted_bytes
            &&& after(r6) is Some && (after(r6)->0).len() == 0
        }),
{
    let t7 = Seq::<u8>::empty();
    let t6 = uint_item(encrypted_bytes) + t7;
    let t5 = uint_item(attachment_count) + t6;
    let t4 = uint_item(revision_count) + t5;
    let t3 = bytes_item(purge_event@) + t4;
    let t2 = bytes_item(item@) + t3;
    let t1 = text_item("purged_item"@) + t2;
    let t0 = array_head(6) + t1;
    assert(t0 == partial_item_bytes(item, purge_event, revision_count, attachment_count,
        encrypted_bytes));
    lemma_array(6, t1);
    lemma_text_within("purged_item"@, t2);
    lemma_bytes_within(item@, t3);
    lemma_bytes_within(purge_event@, t4);
    lemma_uint(revision_count, t5);
    lemma_uint(attachment_count, t6);
    lemma_uint(encrypted_bytes, t7);
}

/// An identity of a backup holds its parts under their names, in their order, and nothing else.
#[verifier::rlimit(60)]
pub proof fn lemma_identity_fields(
    kind: Seq<char>,
    label: Seq<char>,
    public: Seq<u8>,
    state: Seq<char>,
    generation: u64,
)
    requires
        identity_bytes(kind, label, public, state, generation).len() <= u64::MAX,
    ensures
        ({
            let r0 = next_array(Some(identity_bytes(kind, label, public, state, generation)));
            let r1 = next_text(after(r0));
            let r2 = next_text(after(r1));
            let r3 = next_bytes(after(r2));
            let r4 = next_text(after(r3));
            let r5 = next_uint(after(r4));
            &&& r0 is Some && (r0->0).0 == 5
            &&& r1 is Some && (r1->0).0 == kind
            &&& r2 is Some && (r2->0).0 == label
            &&& r3 is Some && (r3->0).0 == public
            &&& r4 is Some && (r4->0).0 == state
            &&& r5 is Some && (r5->0).0 == generation
            &&& after(r5) is Some && (after(r5)->0).len() == 0
        }),
{
    let t6 = Seq::<u8>::empty();
    let t5 = uint_item(generation) + t6;
    let t4 = text_item(state) + t5;
    let t3 = bytes_item(public) + t4;
    let t2 = text_item(label) + t3;
    let t1 = text_item(kind) + t2;
    let t0 = array_head(5) + t1;
    assert(t0 == identity_bytes(kind, label, public, state, generation));
    lemma_array(5, t1);
    lemma_text_within(kind, t2);
    lemma_text_within(label, t3);
    lemma_bytes_within(public, t4);
    lemma_text_within(state, t5);
    lemma_uint(generation, t6);
}

/// An imported audit bundle holds its parts under their names, in their order, and nothing else.
#[verifier::rlimit(60)]
pub proof fn lemma_imported_audit_fields(source_bundle: Seq<u8>, human_envelope: Seq<u8>)
    requires
        imported_audit_bytes(source_bundle, human_envelope).len() <= u64::MAX,
    ensures
        ({
            let r0 = next_array(Some(imported_audit_bytes(source_bundle, human_envelope)));
            let r1 = next_key(after(r0), "pm/imported-audit-bundle/v1"@);
            let r2 = next_bytes(r1);
            let r3 = next_bytes(after(r2));
            &&& r0 is Some && (r0->0).0 == 3
            &&& r2 is Some && (r2->0).0 == source_bundle
            &&& r3 is Some && (r3->0).0 == human_envelope
            &&& after(r3) is Some && (after(r3)->0).len() == 0
        }),
{
    let t4 = Seq::<u8>::empty();
    let t3 = bytes_item(human_envelope) + t4;
    let t2 = bytes_item(source_bundle) + t3;
    let t1 = text_item("pm/imported-audit-bundle/v1"@) + t2;
    let t0 = array_head(3) + t1;
    assert(t0 == imported_audit_bytes(source_bundle, human_envelope));
    lemma_array(3, t1);
    lemma_text_within("pm/imported-audit-bundle/v1"@, t2);
    lemma_bytes_within(source_bundle, t3);
    lemma_bytes_within(human_envelope, t4);
}

/// The body of a grant holds its parts under their names, in their order, and nothing else.
#[verifier::rlimit(60)]
pub proof fn lemma_agent_grant_body_fields(m: GrantBodyModel)
    requires
        agent_grant_body_bytes(m).len() <= u64::MAX,
    ensures
        ({
            let r0 = next_map(Some(agent_grant_body_bytes(m)), 5);
            let r1 = next_key(r0, "request_id"@);
            let r2 = next_bytes(r1);
            let r3 = next_key(after(r2), "public_identity"@);
            let r4 = next_map(r3, 2);
            let r5 = next_key(r4, "transport_rpk"@);
            let r6 = next_bytes(r5);
            let r7 = next_key(after(r6), "label"@);
            let r8 = next_text(r7);
            let r9 = next_key(after(r8), "predecessor_grants"@);
            let r10 = next_digests(r9);
            let r11 = next_key(after(r10), "expires_at"@);
            let r12 = next_null(r11);
            let r13 = next_key(r12, "environment_binding"@);
            let r14 = next_text(r13);
            &&& r2 is Some && (r2->0).0 == m.request_id@
            &&& r6 is Some && (r6->0).0 == m.transport_rpk@
            &&& r8 is Some && (r8->0).0 == m.label
            &&& r10 is Some && (r10->0).0 == m.predecessors
            &&& r14 is Some && (r14->0).0 == m.environment_binding
            &&& after(r14) is Some && (after(r14)->0).len() == 0
        }),
{
    let t15 = Seq::<u8>::empty();
    let t14 = text_item(m.environment_binding) + t15;
    let t13 = text_item("environment_binding"@) + t14;
    let t12 = null_item() + t13;
    let t11 = text_item("expires_at"@) + t12;
    let t10 = digests_then(m.predecessors, t11);
    let t9 = text_item("predecessor_grants"@) + t10;
    let t8 = text_item(m.label) + t9;
    let t7 = text_item("label"@) + t8;
    let t6 = bytes_item(m.transport_rpk@) + t7;
    let t5 = text_item("transport_rpk"@) + t6;
    let t4 = map_head(2) + t5;
    let t3 = text_item("public_identity"@) + t4;
    let t2 = bytes_item(m.request_id@) + t3;
    let t1 = text_item("request_id"@) + t2;
    let t0 = map_head(5) + t1;
    assert(t0 == agent_grant_body_bytes(m));
    lemma_map(5, t1);
    lemma_text_within("request_id"@, t2);
    lemma_bytes_within(m.request_id@, t3);
    lemma_text_within("public_identity"@, t4);
    lemma_map(2, t5);
    lemma_text_within("transport_rpk"@, t6);
    lemma_bytes_within(m.transport_rpk@, t7);
    lemma_text_within("label"@, t8);
    lemma_text_within(m.label, t9);
    lemma_text_within("predecessor_grants"@, t10);
    lemma_digest_list(m.predecessors, t11);
    lemma_text_within("expires_at"@, t12);
    lemma_null(t13);
    lemma_text_within("environment_binding"@, t14);
    lemma_text_within(m.environment_binding, t15);
}

/// The body of a trash or restore event holds its parts under their names, in
/// their order, and nothing else.
#[verifier::rlimit(60)]
pub proof fn lemma_lifecycle_body_fields(m: Seq<[u8; 32]>)
    requires
        lifecycle_body_bytes(m).len() <= u64::MAX,
    ensures
        ({
            let r0 = next_map(Some(lifecycle_body_bytes(m)), 1);
            let r1 = next_key(r0, "deletions_seen"@);
            let r2 = next_digests(r1);
            &&& r2 is Some && (r2->0).0 == m
            &&& after(r2) is Some && (after(r2)->0).len() == 0
        }),
{
    let t3 = Seq::<u8>::empty();
    let t2 = digests_then(m, t3);
    let t1 = text_item("deletions_seen"@) + t2;
    let t0 = map_head(1) + t1;
    assert(t0 == lifecycle_body_bytes(m));
    lemma_map(1, t1);
    lemma_text_within("deletions_seen"@, t2);
    lemma_digest_list(m, t3);
}

/// The body of a purge holds its parts under their names, in their order, and nothing else.
#[verifier::rlimit(60)]
pub proof fn lemma_item_purge_body_fields(m: PurgeBodyModel)
    requires
        item_purge_body_bytes(m).len() <= u64::MAX,
    ensures
        ({
            let r0 = next_map(Some(item_purge_body_bytes(m)), 3);
            let r1 = next_key(r0, "item_id"@);
            let r2 = next_bytes(r1);
            let r3 = next_key(after(r2), "revision_ids"@);
            let r4 = next_ids(r3);
            let r5 = next_key(after(r4), "scope"@);
            let r6 = next_text(r5);
            &&& r2 is Some && (r2->0).0 == m.item@
            &&& r4 is Some && (r4->0).0 == m.revisions
            &&& r6 is Some && (r6->0).0 == purge_scope_name(m.terminal)
            &&& after(r6) is Some && (after(r6)->0).len() == 0
        }),
{
    let t7 = Seq::<u8>::empty();
    let t6 = text_item(purge_scope_name(m.terminal)) + t7;
    let t5 = text_item("scope"@) + t6;
    let t4 = ids_then(m.revisions, t5);
    let t3 = text_item("revision_ids"@) + t4;
    let t2 = bytes_item(m.item@) + t3;
    let t1 = text_item("item_id"@) + t2;
    let t0 = map_head(3) + t1;
    assert(t0 == item_purge_body_bytes(m));
    lemma_map(3, t1);
    lemma_text_within("item_id"@, t2);
    lemma_bytes_within(m.item@, t3);
    lemma_text_within("revision_ids"@, t4);
    lemma_id_list(m.revisions, t5);
    lemma_text_within("scope"@, t6);
    lemma_text_within(purge_scope_name(m.terminal), t7);
}

/// The body of a withdrawal holds its parts under their names, in their order, and nothing else.
#[verifier::rlimit(60)]
pub proof fn lemma_reason_body_fields(m: AuthorizationReason)
    requires
        reason_body_bytes(m).len() <= u64::MAX,
    ensures
        ({
            let r0 = next_map(Some(reason_body_bytes(m)), 1);
            let r1 = next_key(r0, "reason_code"@);
            let r2 = next_text(r1);
            &&& r2 is Some && (r2->0).0 == reason_name(m)
            &&& after(r2) is Some && (after(r2)->0).len() == 0
        }),
{
    let t3 = Seq::<u8>::empty();
    let t2 = text_item(reason_name(m)) + t3;
    let t1 = text_item("reason_code"@) + t2;
    let t0 = map_head(1) + t1;
    assert(t0 == reason_body_bytes(m));
    lemma_map(1, t1);
    lemma_text_within("reason_code"@, t2);
    lemma_text_within(reason_name(m), t3);
}

/// The body of a resumption holds its parts under their names, in their order, and nothing else.
#[verifier::rlimit(60)]
pub proof fn lemma_resume_body_fields(m: Seq<[u8; 32]>)
    requires
        resume_body_bytes(m).len() <= u64::MAX,
    ensures
        ({
            let r0 = next_map(Some(resume_body_bytes(m)), 2);
            let r1 = next_key(r0, "prior_positive_events"@);
            let r2 = next_array(r1);
            let r3 = next_key(after(r2), "withdrawals_seen"@);
            let r4 = next_digests(r3);
            &&& r2 is Some && (r2->0).0 == 0
            &&& r4 is Some && (r4->0).0 == m
            &&& after(r4) is Some && (after(r4)->0).len() == 0
        }),
{
    let t5 = Seq::<u8>::empty();
    let t4 = digests_then(m, t5);
    let t3 = text_item("withdrawals_seen"@) + t4;
    let t2 = array_head(0) + t3;
    let t1 = text_item("prior_positive_events"@) + t2;
    let t0 = map_head(2) + t1;
    assert(t0 == resume_body_bytes(m));
    lemma_map(2, t1);
    lemma_text_within("prior_positive_events"@, t2);
    lemma_array(0, t3);
    lemma_text_within("withdrawals_seen"@, t4);
    lemma_digest_list(m, t5);
}

/// The body of a delegation holds its parts under their names, in their order, and nothing else.
#[verifier::rlimit(60)]
pub proof fn lemma_enable_body_fields(m: EnableBodyModel)
    requires
        enable_body_bytes(m).len() <= u64::MAX,
    ensures
        ({
            let r0 = next_map(Some(enable_body_bytes(m)), 4);
            let r1 = next_key(r0, "revision_id"@);
            let r2 = next_bytes(r1);
            let r3 = next_key(after(r2), "grant_commitments"@);
            let r4 = next_array(r3);
            let r5 = next_bytes(after(r4));
            let r6 = next_key(after(r5), "prior_positive_events"@);
            let r7 = next_digests(r6);
            let r8 = next_key(after(r7), "withdrawals_seen"@);
            let r9 = next_digests(r8);
            &&& r2 is Some && (r2->0).0 == m.revision@
            &&& r4 is Some && (r4->0).0 == 1
            &&& r5 is Some && (r5->0).0 == m.commitment@
            &&& r7 is Some && (r7->0).0 == m.positives
            &&& r9 is Some && (r9->0).0 == m.withdrawals
            &&& after(r9) is Some && (after(r9)->0).len() == 0
        }),
{
    let t10 = Seq::<u8>::empty();
    let t9 = digests_then(m.withdrawals, t10);
    let t8 = text_item("withdrawals_seen"@) + t9;
    let t7 = digests_then(m.positives, t8);
    let t6 = text_item("prior_positive_events"@) + t7;
    let t5 = bytes_item(m.commitment@) + t6;
    let t4 = array_head(1) + t5;
    let t3 = text_item("grant_commitments"@) + t4;
    let t2 = bytes_item(m.revision@) + t3;
    let t1 = text_item("revision_id"@) + t2;
    let t0 = map_head(4) + t1;
    assert(t0 == enable_body_bytes(m));
    lemma_map(4, t1);
    lemma_text_within("revision_id"@, t2);
    lemma_bytes_within(m.revision@, t3);
    lemma_text_within("grant_commitments"@, t4);
    lemma_array(1, t5);
    lemma_bytes_within(m.commitment@, t6);
    lemma_text_within("prior_positive_events"@, t7);
    lemma_digest_list(m.positives, t8);
    lemma_text_within("withdrawals_seen"@, t9);
    lemma_digest_list(m.withdrawals, t10);
}

/// A signed command holds its parts under their names, in their order, and nothing else.
#[verifier::rlimit(60)]
pub proof fn lemma_command_fields(m: CommandModel)
    requires
        command_bytes(m).len() <= u64::MAX,
    ensures
        ({
            let r0 = next_map(Some(command_bytes(m)), 7);
            let r1 = next_key(r0, "v"@);
            let r2 = next_uint(r1);
            let r3 = next_key(after(r2), "vault"@);
            let r4 = next_bytes(r3);
            let r5 = next_key(after(r4), "challenge"@);
            let r6 = next_bytes(r5);
            let r7 = next_key(after(r6), "expected_state"@);
            let r8 = next_bytes(r7);
            let r9 = next_key(after(r8), "operation"@);
            let r10 = next_text(r9);
            let r11 = next_key(after(r10), "body_hash"@);
            let r12 = next_bytes(r11);
            let r13 = next_key(after(r12), "expires_at"@);
            let r14 = next_int(r13);
            &&& r2 is Some && (r2->0).0 == 1
            &&& r4 is Some && (r4->0).0 == m.vault@
            &&& r6 is Some && (r6->0).0 == m.challenge@
            &&& r8 is Some && (r8->0).0 == m.expected_state@
            &&& r10 is Some && (r10->0).0 == m.operation
            &&& r12 is Some && (r12->0).0 == m.body_hash@
            &&& r14 is Some && (r14->0).0 == m.expires_at_us
            &&& after(r14) is Some && (after(r14)->0).len() == 0
        }),
{
    let t15 = Seq::<u8>::empty();
    let t14 = int_item(m.expires_at_us) + t15;
    let t13 = text_item("expires_at"@) + t14;
    let t12 = bytes_item(m.body_hash@) + t13;
    let t11 = text_item("body_hash"@) + t12;
    let t10 = text_item(m.operation) + t11;
    let t9 = text_item("operation"@) + t10;
    let t8 = bytes_item(m.expected_state@) + t9;
    let t7 = text_item("expected_state"@) + t8;
    let t6 = bytes_item(m.challenge@) + t7;
    let t5 = text_item("challenge"@) + t6;
    let t4 = bytes_item(m.vault@) + t5;
    let t3 = text_item("vault"@) + t4;
    let t2 = uint_item(1) + t3;
    let t1 = text_item("v"@) + t2;
    let t0 = map_head(7) + t1;
    assert(t0 == command_bytes(m));
    lemma_map(7, t1);
    lemma_text_within("v"@, t2);
    lemma_uint(1, t3);
    lemma_text_within("vault"@, t4);
    lemma_bytes_within(m.vault@, t5);
    lemma_text_within("challenge"@, t6);
    lemma_bytes_within(m.challenge@, t7);
    lemma_text_within("expected_state"@, t8);
    lemma_bytes_within(m.expected_state@, t9);
    lemma_text_within("operation"@, t10);
    lemma_text_within(m.operation, t11);
    lemma_text_within("body_hash"@, t12);
    lemma_bytes_within(m.body_hash@, t13);
    lemma_text_within("expires_at"@, t14);
    lemma_int(m.expires_at_us, t15);
}

/// The body of a command holds its parts under their names, in their order, and nothing else.
#[verifier::rlimit(60)]
pub proof fn lemma_body_fields(m: Body)
    requires
        body_bytes(m).len() <= u64::MAX,
    ensures
        ({
            let r0 = next_map(Some(body_bytes(m)), 5);
            let r1 = next_key(r0, "transaction_id"@);
            let r2 = next_bytes(r1);
            let r3 = next_key(after(r2), "events_manifest_digest"@);
            let r4 = next_bytes(r3);
            let r5 = next_key(after(r4), "event_count"@);
            let r6 = next_uint(r5);
            let r7 = next_key(after(r6), "object_manifest_digest"@);
            let r8 = next_optional_bytes(r7);
            let r9 = next_key(after(r8), "local_effect"@);
            let r10 = next_null(r9);
            &&& r2 is Some && (r2->0).0 == m.transaction_id@
            &&& r4 is Some && (r4->0).0 == m.events_manifest_digest@
            &&& r6 is Some && (r6->0).0 == m.event_count
            &&& r8 is Some && (r8->0).0 == opt_array(m.object_manifest_digest)
            &&& r10 is Some && (r10->0).len() == 0
        }),
{
    let t11 = Seq::<u8>::empty();
    let t10 = null_item() + t11;
    let t9 = text_item("local_effect"@) + t10;
    let t8 = optional_bytes_item(opt_array(m.object_manifest_digest)) + t9;
    let t7 = text_item("object_manifest_digest"@) + t8;
    let t6 = uint_item(m.event_count) + t7;
    let t5 = text_item("event_count"@) + t6;
    let t4 = bytes_item(m.events_manifest_digest@) + t5;
    let t3 = text_item("events_manifest_digest"@) + t4;
    let t2 = bytes_item(m.transaction_id@) + t3;
    let t1 = text_item("transaction_id"@) + t2;
    let t0 = map_head(5) + t1;
    assert(t0 == body_bytes(m));
    lemma_map(5, t1);
    lemma_text_within("transaction_id"@, t2);
    lemma_bytes_within(m.transaction_id@, t3);
    lemma_text_within("events_manifest_digest"@, t4);
    lemma_bytes_within(m.events_manifest_digest@, t5);
    lemma_text_within("event_count"@, t6);
    lemma_uint(m.event_count, t7);
    lemma_text_within("object_manifest_digest"@, t8);
    lemma_optional_bytes(opt_array(m.object_manifest_digest), t9);
    lemma_text_within("local_effect"@, t10);
    lemma_null(t11);
}

/// The manifest of an event holds its parts under their names, in their order, and nothing else.
#[verifier::rlimit(60)]
pub proof fn lemma_event_manifest_fields(m: EventManifestModel)
    requires
        event_manifest_bytes(m).len() <= u64::MAX,
    ensures
        ({
            let r0 = next_array(Some(event_manifest_bytes(m)));
            let r1 = next_map(after(r0), 7);
            let r2 = next_key(r1, "kind"@);
            let r3 = next_text(r2);
            let r4 = next_key(after(r3), "item"@);
            let r5 = next_bytes(r4);
            let r6 = next_key(after(r5), "revision"@);
            let r7 = next_optional_bytes(r6);
            let r8 = next_key(after(r7), "object_digest"@);
            let r9 = next_optional_bytes(r8);
            let r10 = next_key(after(r9), "audit_generation"@);
            let r11 = next_optional_uint(r10);
            let r12 = next_key(after(r11), "audit_through_seq"@);
            let r13 = next_optional_uint(r12);
            let r14 = next_key(after(r13), "authority_body_digest"@);
            let r15 = next_optional_bytes(r14);
            &&& r0 is Some && (r0->0).0 == 1
            &&& r3 is Some && (r3->0).0 == m.kind
            &&& r5 is Some && (r5->0).0 == m.item@
            &&& r7 is Some && (r7->0).0 == opt_array(m.revision)
            &&& r9 is Some && (r9->0).0 == opt_array(m.object_digest)
            &&& r11 is Some && (r11->0).0 == m.audit_generation
            &&& r13 is Some && (r13->0).0 == m.audit_through_seq
            &&& r15 is Some && (r15->0).0 == opt_array(m.authority_body_digest)
            &&& after(r15) is Some && (after(r15)->0).len() == 0
        }),
{
    let t16 = Seq::<u8>::empty();
    let t15 = optional_bytes_item(opt_array(m.authority_body_digest)) + t16;
    let t14 = text_item("authority_body_digest"@) + t15;
    let t13 = optional_uint_item(m.audit_through_seq) + t14;
    let t12 = text_item("audit_through_seq"@) + t13;
    let t11 = optional_uint_item(m.audit_generation) + t12;
    let t10 = text_item("audit_generation"@) + t11;
    let t9 = optional_bytes_item(opt_array(m.object_digest)) + t10;
    let t8 = text_item("object_digest"@) + t9;
    let t7 = optional_bytes_item(opt_array(m.revision)) + t8;
    let t6 = text_item("revision"@) + t7;
    let t5 = bytes_item(m.item@) + t6;
    let t4 = text_item("item"@) + t5;
    let t3 = text_item(m.kind) + t4;
    let t2 = text_item("kind"@) + t3;
    let t1 = map_head(7) + t2;
    let t0 = array_head(1) + t1;
    assert(t0 == event_manifest_bytes(m));
    lemma_array(1, t1);
    lemma_map(7, t2);
    lemma_text_within("kind"@, t3);
    lemma_text_within(m.kind, t4);
    lemma_text_within("item"@, t5);
    lemma_bytes_within(m.item@, t6);
    lemma_text_within("revision"@, t7);
    lemma_optional_bytes(opt_array(m.revision), t8);
    lemma_text_within("object_digest"@, t9);
    lemma_optional_bytes(opt_array(m.object_digest), t10);
    lemma_text_within("audit_generation"@, t11);
    lemma_optional_uint(m.audit_generation, t12);
    lemma_text_within("audit_through_seq"@, t13);
    lemma_optional_uint(m.audit_through_seq, t14);
    lemma_text_within("authority_body_digest"@, t15);
    lemma_optional_bytes(opt_array(m.authority_body_digest), t16);
}

/// The manifest of a restored revision holds its parts under their names, in
/// their order, and nothing else.
#[verifier::rlimit(60)]
pub proof fn lemma_restore_manifest_fields(m: RestoreManifest)
    requires
        restore_manifest_bytes(m).len() <= u64::MAX,
    ensures
        ({
            let r0 = next_array(Some(restore_manifest_bytes(m)));
            let r1 = next_map(after(r0), 4);
            let r2 = next_key(r1, "kind"@);
            let r3 = next_key(r2, "item-revision"@);
            let r4 = next_key(r3, "item"@);
            let r5 = next_bytes(r4);
            let r6 = next_key(after(r5), "revision"@);
            let r7 = next_bytes(r6);
            let r8 = next_key(after(r7), "object_digest"@);
            let r9 = next_bytes(r8);
            let r10 = next_map(after(r9), 3);
            let r11 = next_key(r10, "kind"@);
            let r12 = next_key(r11, "restore"@);
            let r13 = next_key(r12, "item"@);
            let r14 = next_bytes(r13);
            let r15 = next_key(after(r14), "body_digest"@);
            let r16 = next_bytes(r15);
            &&& r0 is Some && (r0->0).0 == 2
            &&& r5 is Some && (r5->0).0 == m.item@
            &&& r7 is Some && (r7->0).0 == m.revision@
            &&& r9 is Some && (r9->0).0 == m.object_digest@
            &&& r14 is Some && (r14->0).0 == m.item@
            &&& r16 is Some && (r16->0).0 == m.body_digest@
            &&& after(r16) is Some && (after(r16)->0).len() == 0
        }),
{
    let t17 = Seq::<u8>::empty();
    let t16 = bytes_item(m.body_digest@) + t17;
    let t15 = text_item("body_digest"@) + t16;
    let t14 = bytes_item(m.item@) + t15;
    let t13 = text_item("item"@) + t14;
    let t12 = text_item("restore"@) + t13;
    let t11 = text_item("kind"@) + t12;
    let t10 = map_head(3) + t11;
    let t9 = bytes_item(m.object_digest@) + t10;
    let t8 = text_item("object_digest"@) + t9;
    let t7 = bytes_item(m.revision@) + t8;
    let t6 = text_item("revision"@) + t7;
    let t5 = bytes_item(m.item@) + t6;
    let t4 = text_item("item"@) + t5;
    let t3 = text_item("item-revision"@) + t4;
    let t2 = text_item("kind"@) + t3;
    let t1 = map_head(4) + t2;
    let t0 = array_head(2) + t1;
    assert(t0 == restore_manifest_bytes(m));
    lemma_array(2, t1);
    lemma_map(4, t2);
    lemma_text_within("kind"@, t3);
    lemma_text_within("item-revision"@, t4);
    lemma_text_within("item"@, t5);
    lemma_bytes_within(m.item@, t6);
    lemma_text_within("revision"@, t7);
    lemma_bytes_within(m.revision@, t8);
    lemma_text_within("object_digest"@, t9);
    lemma_bytes_within(m.object_digest@, t10);
    lemma_map(3, t11);
    lemma_text_within("kind"@, t12);
    lemma_text_within("restore"@, t13);
    lemma_text_within("item"@, t14);
    lemma_bytes_within(m.item@, t15);
    lemma_text_within("body_digest"@, t16);
    lemma_bytes_within(m.body_digest@, t17);
}

/// The manifest of an import holds its parts under their names, in their order, and nothing else.
#[verifier::rlimit(60)]
pub proof fn lemma_import_manifest_fields(m: ImportManifestModel)
    requires
        import_manifest_bytes(m).len() <= u64::MAX,
    ensures
        ({
            let r0 = next_map(Some(import_manifest_bytes(m)), 11);
            let r1 = next_key(r0, "domain"@);
            let r2 = next_key(r1, "pm/import-manifest/v1"@);
            let r3 = next_key(r2, "batch"@);
            let r4 = next_bytes(r3);
            let r5 = next_key(after(r4), "source"@);
            let r6 = next_text(r5);
            let r7 = next_key(after(r6), "object_digest"@);
            let r8 = next_bytes(r7);
            let r9 = next_key(after(r8), "total"@);
            let r10 = next_uint(r9);
            let r11 = next_key(after(r10), "new"@);
            let r12 = next_uint(r11);
            let r13 = next_key(after(r12), "replaced"@);
            let r14 = next_uint(r13);
            let r15 = next_key(after(r14), "skipped_exact"@);
            let r16 = next_uint(r15);
            let r17 = next_key(after(r16), "excluded"@);
            let r18 = next_uint(r17);
            let r19 = next_key(after(r18), "preserved_fields"@);
            let r20 = next_uint(r19);
            let r21 = next_key(after(r20), "event_pages"@);
            let r22 = next_uint(r21);
            &&& r4 is Some && (r4->0).0 == m.batch@
            &&& r6 is Some && (r6->0).0 == m.source
            &&& r8 is Some && (r8->0).0 == m.object_digest@
            &&& r10 is Some && (r10->0).0 == m.report.total as u64
            &&& r12 is Some && (r12->0).0 == m.report.new_items as u64
            &&& r14 is Some && (r14->0).0 == m.report.replaced as u64
            &&& r16 is Some && (r16->0).0 == m.report.skipped_exact as u64
            &&& r18 is Some && (r18->0).0 == m.report.excluded as u64
            &&& r20 is Some && (r20->0).0 == m.report.preserved_fields as u64
            &&& r22 is Some && (r22->0).0 == m.report.event_pages as u64
            &&& after(r22) is Some && (after(r22)->0).len() == 0
        }),
{
    let t23 = Seq::<u8>::empty();
    let t22 = uint_item(m.report.event_pages as u64) + t23;
    let t21 = text_item("event_pages"@) + t22;
    let t20 = uint_item(m.report.preserved_fields as u64) + t21;
    let t19 = text_item("preserved_fields"@) + t20;
    let t18 = uint_item(m.report.excluded as u64) + t19;
    let t17 = text_item("excluded"@) + t18;
    let t16 = uint_item(m.report.skipped_exact as u64) + t17;
    let t15 = text_item("skipped_exact"@) + t16;
    let t14 = uint_item(m.report.replaced as u64) + t15;
    let t13 = text_item("replaced"@) + t14;
    let t12 = uint_item(m.report.new_items as u64) + t13;
    let t11 = text_item("new"@) + t12;
    let t10 = uint_item(m.report.total as u64) + t11;
    let t9 = text_item("total"@) + t10;
    let t8 = bytes_item(m.object_digest@) + t9;
    let t7 = text_item("object_digest"@) + t8;
    let t6 = text_item(m.source) + t7;
    let t5 = text_item("source"@) + t6;
    let t4 = bytes_item(m.batch@) + t5;
    let t3 = text_item("batch"@) + t4;
    let t2 = text_item("pm/import-manifest/v1"@) + t3;
    let t1 = text_item("domain"@) + t2;
    let t0 = map_head(11) + t1;
    assert(t0 == import_manifest_bytes(m));
    lemma_map(11, t1);
    lemma_text_within("domain"@, t2);
    lemma_text_within("pm/import-manifest/v1"@, t3);
    lemma_text_within("batch"@, t4);
    lemma_bytes_within(m.batch@, t5);
    lemma_text_within("source"@, t6);
    lemma_text_within(m.source, t7);
    lemma_text_within("object_digest"@, t8);
    lemma_bytes_within(m.object_digest@, t9);
    lemma_text_within("total"@, t10);
    lemma_uint(m.report.total as u64, t11);
    lemma_text_within("new"@, t12);
    lemma_uint(m.report.new_items as u64, t13);
    lemma_text_within("replaced"@, t14);
    lemma_uint(m.report.replaced as u64, t15);
    lemma_text_within("skipped_exact"@, t16);
    lemma_uint(m.report.skipped_exact as u64, t17);
    lemma_text_within("excluded"@, t18);
    lemma_uint(m.report.excluded as u64, t19);
    lemma_text_within("preserved_fields"@, t20);
    lemma_uint(m.report.preserved_fields as u64, t21);
    lemma_text_within("event_pages"@, t22);
    lemma_uint(m.report.event_pages as u64, t23);
}

/// The view of the authority state holds its parts under their names, in their
/// order, and nothing else.
#[verifier::rlimit(60)]
pub proof fn lemma_state_view_fields(m: StateView)
    requires
        state_view_bytes(m).len() <= u64::MAX,
    ensures
        ({
            let r0 = next_array(Some(state_view_bytes(m)));
            let r1 = next_key(after(r0), "pm/state-view/v1"@);
            let r2 = next_bytes(r1);
            let r3 = next_uint(after(r2));
            let r4 = next_digests(after(r3));
            let r5 = next_bytes(after(r4));
            &&& r0 is Some && (r0->0).0 == 5
            &&& r2 is Some && (r2->0).0 == m.vault@
            &&& r3 is Some && (r3->0).0 == m.epoch
            &&& r4 is Some && (r4->0).0 == head_list(m.head)
            &&& r5 is Some && (r5->0).0 == m.bundle_digest@
            &&& after(r5) is Some && (after(r5)->0).len() == 0
        }),
{
    let t6 = Seq::<u8>::empty();
    let t5 = bytes_item(m.bundle_digest@) + t6;
    let t4 = digests_then(head_list(m.head), t5);
    let t3 = uint_item(m.epoch) + t4;
    let t2 = bytes_item(m.vault@) + t3;
    let t1 = text_item("pm/state-view/v1"@) + t2;
    let t0 = array_head(5) + t1;
    assert(t0 == state_view_bytes(m));
    lemma_array(5, t1);
    lemma_text_within("pm/state-view/v1"@, t2);
    lemma_bytes_within(m.vault@, t3);
    lemma_uint(m.epoch, t4);
    lemma_digest_list(head_list(m.head), t5);
    lemma_bytes_within(m.bundle_digest@, t6);
}

/// A receipt holds its parts under their names, in their order, and nothing else.
#[verifier::rlimit(60)]
pub proof fn lemma_receipt_fields(m: ReceiptModel)
    requires
        receipt_bytes(m).len() <= u64::MAX,
    ensures
        ({
            let r0 = next_map(Some(receipt_bytes(m)), 5);
            let r1 = next_key(r0, "transaction_id"@);
            let r2 = next_bytes(r1);
            let r3 = next_key(after(r2), "body_hash"@);
            let r4 = next_bytes(r3);
            let r5 = next_key(after(r4), "committed_heads"@);
            let r6 = next_digests(r5);
            let r7 = next_key(after(r6), "committed_at"@);
            let r8 = next_int(r7);
            let r9 = next_key(after(r8), "outcome"@);
            let r10 = next_key(r9, "committed"@);
            &&& r2 is Some && (r2->0).0 == m.transaction_id@
            &&& r4 is Some && (r4->0).0 == m.body_hash@
            &&& r6 is Some && (r6->0).0 == m.committed_heads
            &&& r8 is Some && (r8->0).0 == m.committed_at_us
            &&& r10 is Some && (r10->0).len() == 0
        }),
{
    let t11 = Seq::<u8>::empty();
    let t10 = text_item("committed"@) + t11;
    let t9 = text_item("outcome"@) + t10;
    let t8 = int_item(m.committed_at_us) + t9;
    let t7 = text_item("committed_at"@) + t8;
    let t6 = digests_then(m.committed_heads, t7);
    let t5 = text_item("committed_heads"@) + t6;
    let t4 = bytes_item(m.body_hash@) + t5;
    let t3 = text_item("body_hash"@) + t4;
    let t2 = bytes_item(m.transaction_id@) + t3;
    let t1 = text_item("transaction_id"@) + t2;
    let t0 = map_head(5) + t1;
    assert(t0 == receipt_bytes(m));
    lemma_map(5, t1);
    lemma_text_within("transaction_id"@, t2);
    lemma_bytes_within(m.transaction_id@, t3);
    lemma_text_within("body_hash"@, t4);
    lemma_bytes_within(m.body_hash@, t5);
    lemma_text_within("committed_heads"@, t6);
    lemma_digest_list(m.committed_heads, t7);
    lemma_text_within("committed_at"@, t8);
    lemma_int(m.committed_at_us, t9);
    lemma_text_within("outcome"@, t10);
    lemma_text_within("committed"@, t11);
}

/// An authority event holds its parts under their names, in their order, and nothing else.
#[verifier::rlimit(60)]
pub proof fn lemma_g5_event_fields(m: EventModel)
    requires
        g5_event_bytes(m).len() <= u64::MAX,
    ensures
        ({
            let r0 = next_map(Some(g5_event_bytes(m)), 13);
            let r1 = next_key(r0, "v"@);
            let r2 = next_uint(r1);
            let r3 = next_key(after(r2), "vault"@);
            let r4 = next_bytes(r3);
            let r5 = next_key(after(r4), "event_id"@);
            let r6 = next_bytes(r5);
            let r7 = next_key(after(r6), "authority_epoch"@);
            let r8 = next_uint(r7);
            let r9 = next_key(after(r8), "issuer_device"@);
            let r10 = next_bytes(r9);
            let r11 = next_key(after(r10), "issuer_generation"@);
            let r12 = next_uint(r11);
            let r13 = next_key(after(r12), "seq"@);
            let r14 = next_uint(r13);
            let r15 = next_key(after(r14), "prev"@);
            let r16 = next_optional_bytes(r15);
            let r17 = next_key(after(r16), "parents"@);
            let r18 = next_digests(r17);
            let r19 = next_key(after(r18), "kind"@);
            let r20 = next_text(r19);
            let r21 = next_key(after(r20), "subject"@);
            let r22 = next_bytes(r21);
            let r23 = next_key(after(r22), "subject_generation"@);
            let r24 = next_uint(r23);
            let r25 = next_key(after(r24), "body"@);
            &&& r2 is Some && (r2->0).0 == 1
            &&& r4 is Some && (r4->0).0 == m.vault@
            &&& r6 is Some && (r6->0).0 == m.event_id@
            &&& r8 is Some && (r8->0).0 == m.authority_epoch
            &&& r10 is Some && (r10->0).0 == m.issuer_device@
            &&& r12 is Some && (r12->0).0 == m.issuer_generation
            &&& r14 is Some && (r14->0).0 == m.seq
            &&& r16 is Some && (r16->0).0 == opt_array(m.previous)
            &&& r18 is Some && (r18->0).0 == m.parents
            &&& r20 is Some && (r20->0).0 == m.kind
            &&& r22 is Some && (r22->0).0 == m.subject@
            &&& r24 is Some && (r24->0).0 == m.subject_generation
            &&& r25 is Some && (r25->0) == m.body
        }),
{
    let t27 = Seq::<u8>::empty();
    let t26 = m.body + t27;
    let t25 = text_item("body"@) + t26;
    let t24 = uint_item(m.subject_generation) + t25;
    let t23 = text_item("subject_generation"@) + t24;
    let t22 = bytes_item(m.subject@) + t23;
    let t21 = text_item("subject"@) + t22;
    let t20 = text_item(m.kind) + t21;
    let t19 = text_item("kind"@) + t20;
    let t18 = digests_then(m.parents, t19);
    let t17 = text_item("parents"@) + t18;
    let t16 = optional_bytes_item(opt_array(m.previous)) + t17;
    let t15 = text_item("prev"@) + t16;
    let t14 = uint_item(m.seq) + t15;
    let t13 = text_item("seq"@) + t14;
    let t12 = uint_item(m.issuer_generation) + t13;
    let t11 = text_item("issuer_generation"@) + t12;
    let t10 = bytes_item(m.issuer_device@) + t11;
    let t9 = text_item("issuer_device"@) + t10;
    let t8 = uint_item(m.authority_epoch) + t9;
    let t7 = text_item("authority_epoch"@) + t8;
    let t6 = bytes_item(m.event_id@) + t7;
    let t5 = text_item("event_id"@) + t6;
    let t4 = bytes_item(m.vault@) + t5;
    let t3 = text_item("vault"@) + t4;
    let t2 = uint_item(1) + t3;
    let t1 = text_item("v"@) + t2;
    let t0 = map_head(13) + t1;
    assert(t0 == g5_event_bytes(m));
    lemma_map(13, t1);
    lemma_text_within("v"@, t2);
    lemma_uint(1, t3);
    lemma_text_within("vault"@, t4);
    lemma_bytes_within(m.vault@, t5);
    lemma_text_within("event_id"@, t6);
    lemma_bytes_within(m.event_id@, t7);
    lemma_text_within("authority_epoch"@, t8);
    lemma_uint(m.authority_epoch, t9);
    lemma_text_within("issuer_device"@, t10);
    lemma_bytes_within(m.issuer_device@, t11);
    lemma_text_within("issuer_generation"@, t12);
    lemma_uint(m.issuer_generation, t13);
    lemma_text_within("seq"@, t14);
    lemma_uint(m.seq, t15);
    lemma_text_within("prev"@, t16);
    lemma_optional_bytes(opt_array(m.previous), t17);
    lemma_text_within("parents"@, t18);
    lemma_digest_list(m.parents, t19);
    lemma_text_within("kind"@, t20);
    lemma_text_within(m.kind, t21);
    lemma_text_within("subject"@, t22);
    lemma_bytes_within(m.subject@, t23);
    lemma_text_within("subject_generation"@, t24);
    lemma_uint(m.subject_generation, t25);
    lemma_text_within("body"@, t26);
    assert(t26 =~= m.body);
}

/// The body of an event holds its parts under their names, in their order, and nothing else.
#[verifier::rlimit(60)]
pub proof fn lemma_legacy_event_body_fields(m: LegacyEventBody)
    requires
        legacy_event_body_bytes(m).len() <= u64::MAX,
    ensures
        ({
            let r0 = next_map(Some(legacy_event_body_bytes(m)), 5);
            let r1 = next_key(r0, "revision_id"@);
            let r2 = next_optional_bytes(r1);
            let r3 = next_key(after(r2), "modified_at"@);
            let r4 = next_int(r3);
            let r5 = next_key(after(r4), "audit_generation"@);
            let r6 = next_optional_uint(r5);
            let r7 = next_key(after(r6), "audit_through_seq"@);
            let r8 = next_optional_uint(r7);
            let r9 = next_key(after(r8), "object_manifest_digest"@);
            let r10 = next_optional_bytes(r9);
            &&& r2 is Some && (r2->0).0 == opt_array(m.revision)
            &&& r4 is Some && (r4->0).0 == m.modified_at
            &&& r6 is Some && (r6->0).0 == m.audit_generation
            &&& r8 is Some && (r8->0).0 == m.audit_through_seq
            &&& r10 is Some && (r10->0).0 == opt_array(m.object_manifest_digest)
            &&& after(r10) is Some && (after(r10)->0).len() == 0
        }),
{
    let t11 = Seq::<u8>::empty();
    let t10 = optional_bytes_item(opt_array(m.object_manifest_digest)) + t11;
    let t9 = text_item("object_manifest_digest"@) + t10;
    let t8 = optional_uint_item(m.audit_through_seq) + t9;
    let t7 = text_item("audit_through_seq"@) + t8;
    let t6 = optional_uint_item(m.audit_generation) + t7;
    let t5 = text_item("audit_generation"@) + t6;
    let t4 = int_item(m.modified_at) + t5;
    let t3 = text_item("modified_at"@) + t4;
    let t2 = optional_bytes_item(opt_array(m.revision)) + t3;
    let t1 = text_item("revision_id"@) + t2;
    let t0 = map_head(5) + t1;
    assert(t0 == legacy_event_body_bytes(m));
    lemma_map(5, t1);
    lemma_text_within("revision_id"@, t2);
    lemma_optional_bytes(opt_array(m.revision), t3);
    lemma_text_within("modified_at"@, t4);
    lemma_int(m.modified_at, t5);
    lemma_text_within("audit_generation"@, t6);
    lemma_optional_uint(m.audit_generation, t7);
    lemma_text_within("audit_through_seq"@, t8);
    lemma_optional_uint(m.audit_through_seq, t9);
    lemma_text_within("object_manifest_digest"@, t10);
    lemma_optional_bytes(opt_array(m.object_manifest_digest), t11);
}

/// The body of an imported revision holds its parts under their names, in their
/// order, and nothing else.
#[verifier::rlimit(60)]
pub proof fn lemma_import_revision_body_fields(m: ImportRevisionModel)
    requires
        import_revision_body_bytes(m).len() <= u64::MAX,
    ensures
        ({
            let r0 = next_map(Some(import_revision_body_bytes(m)), 4);
            let r1 = next_key(r0, "revision_id"@);
            let r2 = next_bytes(r1);
            let r3 = next_key(after(r2), "modified_at"@);
            let r4 = next_int(r3);
            let r5 = next_key(after(r4), "manifest_digest"@);
            let r6 = next_bytes(r5);
            let r7 = next_key(after(r6), "previous_revisions"@);
            let r8 = next_ids(r7);
            &&& r2 is Some && (r2->0).0 == m.revision@
            &&& r4 is Some && (r4->0).0 == m.modified_at
            &&& r6 is Some && (r6->0).0 == m.manifest_digest@
            &&& r8 is Some && (r8->0).0 == m.previous_revisions
            &&& after(r8) is Some && (after(r8)->0).len() == 0
        }),
{
    let t9 = Seq::<u8>::empty();
    let t8 = ids_then(m.previous_revisions, t9);
    let t7 = text_item("previous_revisions"@) + t8;
    let t6 = bytes_item(m.manifest_digest@) + t7;
    let t5 = text_item("manifest_digest"@) + t6;
    let t4 = int_item(m.modified_at) + t5;
    let t3 = text_item("modified_at"@) + t4;
    let t2 = bytes_item(m.revision@) + t3;
    let t1 = text_item("revision_id"@) + t2;
    let t0 = map_head(4) + t1;
    assert(t0 == import_revision_body_bytes(m));
    lemma_map(4, t1);
    lemma_text_within("revision_id"@, t2);
    lemma_bytes_within(m.revision@, t3);
    lemma_text_within("modified_at"@, t4);
    lemma_int(m.modified_at, t5);
    lemma_text_within("manifest_digest"@, t6);
    lemma_bytes_within(m.manifest_digest@, t7);
    lemma_text_within("previous_revisions"@, t8);
    lemma_id_list(m.previous_revisions, t9);
}

/// The confirmation of a purge holds its parts under their names, in their order, and nothing else.
#[verifier::rlimit(60)]
pub proof fn lemma_purge_confirmation_fields(m: ConfirmationModel)
    requires
        purge_confirmation_bytes(m).len() <= u64::MAX,
    ensures
        ({
            let r0 = next_map(Some(purge_confirmation_bytes(m)), 7);
            let r1 = next_key(r0, "domain"@);
            let r2 = next_key(r1, "pm/purge-confirmation/v1"@);
            let r3 = next_key(r2, "item_id"@);
            let r4 = next_bytes(r3);
            let r5 = next_key(after(r4), "revision_ids"@);
            let r6 = next_ids(r5);
            let r7 = next_key(after(r6), "attachment_count"@);
            let r8 = next_uint(r7);
            let r9 = next_key(after(r8), "encrypted_bytes"@);
            let r10 = next_uint(r9);
            let r11 = next_key(after(r10), "terminal"@);
            let r12 = next_bool(r11);
            let r13 = next_key(after(r12), "authority_body_digest"@);
            let r14 = next_bytes(r13);
            &&& r4 is Some && (r4->0).0 == m.scope.item_id@
            &&& r6 is Some && (r6->0).0 == m.scope.revision_ids
            &&& r8 is Some && (r8->0).0 == m.scope.attachment_count as u64
            &&& r10 is Some && (r10->0).0 == m.scope.encrypted_bytes
            &&& r12 is Some && (r12->0).0 == m.scope.terminal
            &&& r14 is Some && (r14->0).0 == m.body_digest@
            &&& after(r14) is Some && (after(r14)->0).len() == 0
        }),
{
    let t15 = Seq::<u8>::empty();
    let t14 = bytes_item(m.body_digest@) + t15;
    let t13 = text_item("authority_body_digest"@) + t14;
    let t12 = bool_item(m.scope.terminal) + t13;
    let t11 = text_item("terminal"@) + t12;
    let t10 = uint_item(m.scope.encrypted_bytes) + t11;
    let t9 = text_item("encrypted_bytes"@) + t10;
    let t8 = uint_item(m.scope.attachment_count as u64) + t9;
    let t7 = text_item("attachment_count"@) + t8;
    let t6 = ids_then(m.scope.revision_ids, t7);
    let t5 = text_item("revision_ids"@) + t6;
    let t4 = bytes_item(m.scope.item_id@) + t5;
    let t3 = text_item("item_id"@) + t4;
    let t2 = text_item("pm/purge-confirmation/v1"@) + t3;
    let t1 = text_item("domain"@) + t2;
    let t0 = map_head(7) + t1;
    assert(t0 == purge_confirmation_bytes(m));
    lemma_map(7, t1);
    lemma_text_within("domain"@, t2);
    lemma_text_within("pm/purge-confirmation/v1"@, t3);
    lemma_text_within("item_id"@, t4);
    lemma_bytes_within(m.scope.item_id@, t5);
    lemma_text_within("revision_ids"@, t6);
    lemma_id_list(m.scope.revision_ids, t7);
    lemma_text_within("attachment_count"@, t8);
    lemma_uint(m.scope.attachment_count as u64, t9);
    lemma_text_within("encrypted_bytes"@, t10);
    lemma_uint(m.scope.encrypted_bytes, t11);
    lemma_text_within("terminal"@, t12);
    lemma_bool(m.scope.terminal, t13);
    lemma_text_within("authority_body_digest"@, t14);
    lemma_bytes_within(m.body_digest@, t15);
}

} // verus!

//! What is written into a backup is what its verification accepts.
use crate::backup::{
    entries_tail, entry_then, page_bytes, page_count, page_entries, pages_of, summarized,
    EntryModel, MAX_RECORDS,
};
use crate::backup_format::{
    data_type, end_bytes, start_bytes, type_of, StartRecordModel, INVENTORY_PAGE,
};
use crate::backup_verify::{
    consumed, crossed, entry_key, finished, fresh, graph_valid, page_entry_at, ExpectedFile,
    Observed, RecordDigests, VerifierModel,
};
use crate::cbor::{
    array_head, bytes_item, int_item, lemma_array, lemma_bytes_within, lemma_head_len, lemma_int,
    lemma_map, lemma_text_within, lemma_uint, map_head, text_item, uint_item,
};
use crate::errors::HumanCommitError;
use crate::lists::lemma_array_of;
use vstd::prelude::*;

verus! {

/// The key under which an entry is observed.
pub open spec fn key_of(e: EntryModel) -> Seq<u8> {
    entry_key(e.kind, e.id)
}

/// Whether no record is listed twice.
pub open spec fn distinct(v: Seq<EntryModel>) -> bool {
    forall|i: int, j: int|
        #![trigger v[i], v[j]]
        0 <= i < j < v.len() ==> key_of(v[i]) != key_of(v[j])
}

/// The records of an inventory as they are observed.
pub open spec fn observed_of(v: Seq<EntryModel>) -> Map<Seq<u8>, Observed>
    decreases v.len(),
{
    if v.len() == 0 {
        Map::empty()
    } else {
        observed_of(v.drop_last()).insert(
            key_of(v.last()),
            Observed { hash: v.last().hash, size: v.last().size },
        )
    }
}

/// What is left of observed records without those of a list.
pub open spec fn without(observed: Map<Seq<u8>, Observed>, v: Seq<EntryModel>) -> Map<
    Seq<u8>,
    Observed,
>
    decreases v.len(),
{
    if v.len() == 0 {
        observed
    } else {
        without(observed.remove(key_of(v[0])), v.skip(1))
    }
}

/// Whether a list names a key.
pub open spec fn names(v: Seq<EntryModel>, key: Seq<u8>) -> bool {
    exists|i: int| 0 <= i < v.len() && key_of(#[trigger] v[i]) == key
}

/// What is left is what the list does not name.
proof fn lemma_without(observed: Map<Seq<u8>, Observed>, v: Seq<EntryModel>)
    ensures
        forall|key: Seq<u8>| #[trigger]
            without(observed, v).contains_key(key)
                == (observed.contains_key(key) && !names(v, key)),
        forall|key: Seq<u8>|
            without(observed, v).contains_key(key) ==> #[trigger] without(observed, v)[key]
                == observed[key],
    decreases v.len(),
{
    if v.len() > 0 {
        let rest = v.skip(1);
        lemma_without(observed.remove(key_of(v[0])), rest);
        assert forall|key: Seq<u8>| names(v, key) == (key == key_of(v[0]) || names(rest, key)) by {
            if names(v, key) {
                let i = choose|i: int| 0 <= i < v.len() && key_of(#[trigger] v[i]) == key;
                if i > 0 {
                    assert(rest[i - 1] == v[i]);
                }
            }
            if names(rest, key) {
                let i = choose|i: int| 0 <= i < rest.len() && key_of(#[trigger] rest[i]) == key;
                assert(v[i + 1] == rest[i]);
            }
            if key == key_of(v[0]) {
                assert(key_of(v[0]) == key);
            }
        }
        let left = observed.remove(key_of(v[0]));
        assert(without(observed, v) == without(left, rest));
        assert forall|key: Seq<u8>| #[trigger]
            without(observed, v).contains_key(key) == (observed.contains_key(key) && !names(
                v,
                key,
            )) by {
            assert(without(left, rest).contains_key(key) == (left.contains_key(key) && !names(
                rest,
                key,
            )));
            assert(names(v, key) == (key == key_of(v[0]) || names(rest, key)));
        }
        assert forall|key: Seq<u8>|
            without(observed, v).contains_key(key) implies #[trigger] without(observed, v)[key]
            == observed[key] by {
            assert(without(left, rest).contains_key(key));
            assert(without(left, rest)[key] == left[key]);
            assert(left.contains_key(key));
        }
    }
}

/// Observed are exactly the records of the inventory.
pub(crate) proof fn lemma_observed(v: Seq<EntryModel>)
    requires
        distinct(v),
    ensures
        forall|key: Seq<u8>| #[trigger] observed_of(v).contains_key(key) == names(v, key),
        forall|i: int|
            0 <= i < v.len() ==> observed_of(v).contains_key(key_of(#[trigger] v[i]))
                && observed_of(v)[key_of(v[i])] == (Observed { hash: v[i].hash, size: v[i].size }),
    decreases v.len(),
{
    if v.len() > 0 {
        let front = v.drop_last();
        assert forall|i: int, j: int|
            #![trigger front[i], front[j]]
            0 <= i < j < front.len() implies key_of(front[i]) != key_of(front[j]) by {
            assert(front[i] == v[i] && front[j] == v[j]);
        }
        lemma_observed(front);
        assert forall|key: Seq<u8>| names(v, key) == (key == key_of(v.last()) || names(
            front,
            key,
        )) by {
            if names(v, key) {
                let i = choose|i: int| 0 <= i < v.len() && key_of(#[trigger] v[i]) == key;
                if i < front.len() {
                    assert(front[i] == v[i]);
                }
            }
            if names(front, key) {
                let i = choose|i: int| 0 <= i < front.len() && key_of(#[trigger] front[i]) == key;
                assert(v[i] == front[i]);
            }
            if key == key_of(v.last()) {
                assert(key_of(v[v.len() - 1]) == key);
            }
        }
        assert forall|key: Seq<u8>| #[trigger]
            observed_of(v).contains_key(key) == names(v, key) by {
            assert(observed_of(front).contains_key(key) == names(front, key));
            assert(names(v, key) == (key == key_of(v.last()) || names(front, key)));
        }
        assert forall|i: int| 0 <= i < v.len() implies observed_of(v).contains_key(
            key_of(#[trigger] v[i]),
        ) && observed_of(v)[key_of(v[i])] == (Observed { hash: v[i].hash, size: v[i].size }) by {
            if i < front.len() {
                assert(front[i] == v[i]);
                assert(key_of(v[i]) != key_of(v[v.len() - 1]));
            }
        }
    }
}

/// A written inventory entry is read back.
proof fn lemma_entry(m: EntryModel, t: Seq<u8>)
    requires
        entry_then(m, t).len() <= u64::MAX,
    ensures
        page_entry_at(entry_then(m, t)) == Some((m, t)),
        t.len() < entry_then(m, t).len(),
{
    let t9 = t;
    let t8 = uint_item(m.size) + t9;
    let t7 = text_item("logical_size"@) + t8;
    let t6 = bytes_item(m.hash@) + t7;
    let t5 = text_item("record_sha256"@) + t6;
    let t4 = bytes_item(m.id@) + t5;
    let t3 = text_item("id"@) + t4;
    let t2 = text_item(m.kind) + t3;
    let t1 = text_item("type"@) + t2;
    let t0 = map_head(4) + t1;
    assert(t0 == entry_then(m, t));
    lemma_map(4, t1);
    lemma_text_within("type"@, t2);
    lemma_text_within(m.kind, t3);
    lemma_text_within("id"@, t4);
    lemma_bytes_within(m.id@, t5);
    lemma_array_of(m.id);
    lemma_text_within("record_sha256"@, t6);
    lemma_bytes_within(m.hash@, t7);
    lemma_array_of(m.hash);
    lemma_text_within("logical_size"@, t8);
    lemma_uint(m.size, t9);
    lemma_head_len(5, 4);
}

/// Entries that were observed are crossed off.
proof fn lemma_crossed(observed: Map<Seq<u8>, Observed>, v: Seq<EntryModel>, t: Seq<u8>)
    requires
        distinct(v),
        entries_tail(v, t).len() <= u64::MAX,
        forall|i: int|
            0 <= i < v.len() ==> observed.contains_key(key_of(#[trigger] v[i]))
                && observed[key_of(v[i])] == (Observed { hash: v[i].hash, size: v[i].size }),
    ensures
        crossed(observed, entries_tail(v, t), v.len()) == Ok::<
            (Map<Seq<u8>, Observed>, Seq<u8>),
            HumanCommitError,
        >((without(observed, v), t)),
        t.len() + v.len() <= entries_tail(v, t).len(),
    decreases v.len(),
{
    if v.len() > 0 {
        let rest = v.skip(1);
        let left = observed.remove(key_of(v[0]));
        lemma_entry(v[0], entries_tail(rest, t));
        assert forall|i: int, j: int|
            #![trigger rest[i], rest[j]]
            0 <= i < j < rest.len() implies key_of(rest[i]) != key_of(rest[j]) by {
            assert(rest[i] == v[i + 1] && rest[j] == v[j + 1]);
        }
        assert forall|i: int| 0 <= i < rest.len() implies left.contains_key(
            key_of(#[trigger] rest[i]),
        ) && left[key_of(rest[i])] == (Observed { hash: rest[i].hash, size: rest[i].size }) by {
            assert(rest[i] == v[i + 1]);
            assert(key_of(v[0]) != key_of(v[i + 1]));
        }
        lemma_crossed(left, rest, t);
    }
}

/// The types of records are different.
pub(crate) proof fn lemma_types()
    ensures
        "manifest_start"@ != "inventory_page"@,
        "manifest_start"@ != "manifest_end"@,
        "inventory_page"@ != "manifest_end"@,
        !data_type("manifest_start"@),
        !data_type("inventory_page"@),
        !data_type("manifest_end"@),
{
    reveal_strlit("manifest_start");
    reveal_strlit("inventory_page");
    reveal_strlit("manifest_end");
    reveal_strlit("item");
    reveal_strlit("revision");
    reveal_strlit("partial_history");
    reveal_strlit("attachment");
    reveal_strlit("attachment_chunk");
    reveal_strlit("organization");
    reveal_strlit("settings");
    reveal_strlit("audit_bundle");
    reveal_strlit("authority_history");
    reveal_strlit("identity_metadata");
    assert("manifest_start"@.len() == 14);
    assert("inventory_page"@.len() == 14);
    assert("manifest_end"@.len() == 12);
    assert("item"@.len() == 4);
    assert("revision"@.len() == 8);
    assert("partial_history"@.len() == 15);
    assert("attachment"@.len() == 10);
    assert("attachment_chunk"@.len() == 16);
    assert("organization"@.len() == 12);
    assert("settings"@.len() == 8);
    assert("audit_bundle"@.len() == 12);
    assert("authority_history"@.len() == 17);
    assert("identity_metadata"@.len() == 17);
    assert("inventory_page"@[0] == 'i');
    assert("manifest_start"@[0] == 'm');
    assert("organization"@[0] == 'o');
    assert("manifest_end"@[0] == 'm');
    assert("settings"@[0] == 's');
    assert("revision"@[0] == 'r');
    assert("audit_bundle"@[0] == 'a');
    assert("identity_metadata"@[0] == 'i');
    assert("authority_history"@[0] == 'a');
}

/// A written inventory page is accepted where all its records were observed,
/// and crosses them off.
#[verifier::rlimit(60)]
proof fn lemma_page(m: VerifierModel, v: Seq<EntryModel>, digests: RecordDigests)
    requires
        m.start_seen,
        !m.end_seen,
        m.active is None,
        m.next_page < u64::MAX,
        0 < v.len() <= INVENTORY_PAGE,
        page_bytes(m.next_page, v).len() <= u64::MAX,
        distinct(v),
        forall|i: int|
            0 <= i < v.len() ==> m.observed.contains_key(key_of(#[trigger] v[i]))
                && m.observed[key_of(v[i])] == (Observed { hash: v[i].hash, size: v[i].size }),
    ensures
        consumed(m, page_bytes(m.next_page, v), digests) == Ok::<VerifierModel, HumanCommitError>(
            VerifierModel {
                observed: without(m.observed, v),
                next_page: (m.next_page + 1) as u64,
                ..m
            },
        ),
{
    let index = m.next_page;
    let t6 = array_head(v.len() as u64) + entries_tail(v, Seq::empty());
    let t5 = text_item("entries"@) + t6;
    let t4 = uint_item(index) + t5;
    let t3 = text_item("index"@) + t4;
    let t2 = text_item("inventory_page"@) + t3;
    let t1 = text_item("type"@) + t2;
    let t0 = map_head(3) + t1;
    let u = entries_tail(v, Seq::empty());
    assert(t0 == page_bytes(index, v));
    lemma_map(3, t1);
    lemma_text_within("type"@, t2);
    lemma_text_within("inventory_page"@, t3);
    lemma_text_within("index"@, t4);
    lemma_uint(index, t5);
    lemma_text_within("entries"@, t6);
    lemma_crossed(m.observed, v, Seq::empty());
    lemma_array(v.len() as u64, u);
    lemma_types();
    assert(type_of(t0) == Some("inventory_page"@));
}

/// After the first `n` of some records.
pub open spec fn after_records(
    m: VerifierModel,
    records: Seq<Seq<u8>>,
    n: nat,
    digests: RecordDigests,
) -> Result<VerifierModel, HumanCommitError>
    decreases n,
{
    if n == 0 {
        Ok(m)
    } else {
        match after_records(m, records, (n - 1) as nat, digests) {
            Ok(m) => consumed(m, records[n - 1], digests),
            Err(e) => Err(e),
        }
    }
}

/// Taking two lists away is taking their join away.
proof fn lemma_without_join(
    observed: Map<Seq<u8>, Observed>,
    a: Seq<EntryModel>,
    b: Seq<EntryModel>,
)
    ensures
        without(without(observed, a), b) == without(observed, a + b),
{
    lemma_without(observed, a);
    lemma_without(without(observed, a), b);
    lemma_without(observed, a + b);
    let x = without(without(observed, a), b);
    let y = without(observed, a + b);
    assert forall|key: Seq<u8>| x.contains_key(key) == y.contains_key(key) by {
        assert(names(a + b, key) == (names(a, key) || names(b, key))) by {
            if names(a, key) {
                let i = choose|i: int| 0 <= i < a.len() && key_of(#[trigger] a[i]) == key;
                assert((a + b)[i] == a[i]);
            }
            if names(b, key) {
                let i = choose|i: int| 0 <= i < b.len() && key_of(#[trigger] b[i]) == key;
                assert((a + b)[a.len() + i] == b[i]);
            }
            if names(a + b, key) {
                let i = choose|i: int|
                    0 <= i < (a + b).len() && key_of(#[trigger] (a + b)[i]) == key;
                if i < a.len() {
                    assert(a[i] == (a + b)[i]);
                } else {
                    assert(b[i - a.len()] == (a + b)[i]);
                }
            }
        }
    }
    assert(x =~= y);
}

/// How many entries the first pages list.
pub open spec fn listed(entries: int, pages: int) -> int {
    if pages * INVENTORY_PAGE <= entries {
        pages * INVENTORY_PAGE
    } else {
        entries
    }
}

/// The pages of an inventory are accepted one after the other.
#[verifier::rlimit(40)]
proof fn lemma_pages(m: VerifierModel, v: Seq<EntryModel>, k: nat, digests: RecordDigests)
    requires
        m.start_seen,
        !m.end_seen,
        m.active is None,
        m.next_page == 0,
        m.observed == observed_of(v),
        distinct(v),
        v.len() <= MAX_RECORDS,
        k <= page_count(v.len() as int),
        forall|i: int| 0 <= i < pages_of(v).len() ==> (#[trigger] pages_of(v)[i]).len() <= u64::MAX,
    ensures
        after_records(m, pages_of(v), k, digests) == Ok::<VerifierModel, HumanCommitError>(
            VerifierModel {
                observed: without(observed_of(v), v.take(listed(v.len() as int, k as int))),
                next_page: k as u64,
                ..m
            },
        ),
    decreases k,
{
    let n = v.len() as int;
    if k == 0 {
        assert(v.take(0) =~= Seq::empty());
    } else {
        let p = (k - 1) as nat;
        lemma_pages(m, v, p, digests);
        let a = v.take(listed(n, p as int));
        let b = page_entries(v, p as int);
        let before = VerifierModel {
            observed: without(observed_of(v), a),
            next_page: p as u64,
            ..m
        };
        assert(p * INVENTORY_PAGE < n);
        assert(listed(n, p as int) == p * INVENTORY_PAGE);
        assert(a + b =~= v.take(listed(n, k as int)));
        assert forall|i: int, j: int|
            #![trigger b[i], b[j]]
            0 <= i < j < b.len() implies key_of(b[i]) != key_of(b[j]) by {
            assert(b[i] == v[p * INVENTORY_PAGE + i] && b[j] == v[p * INVENTORY_PAGE + j]);
        }
        lemma_observed(v);
        lemma_without(observed_of(v), a);
        assert forall|i: int| 0 <= i < b.len() implies before.observed.contains_key(
            key_of(#[trigger] b[i]),
        ) && before.observed[key_of(b[i])] == (Observed { hash: b[i].hash, size: b[i].size }) by {
            let at = p * INVENTORY_PAGE + i;
            assert(b[i] == v[at]);
            if names(a, key_of(v[at])) {
                let j = choose|j: int| 0 <= j < a.len() && key_of(#[trigger] a[j]) == key_of(v[at]);
                assert(a[j] == v[j]);
                assert(key_of(v[j]) != key_of(v[at]));
            }
        }
        assert(pages_of(v)[p as int] == page_bytes(p as u64, b));
        lemma_page(before, b, digests);
        lemma_without_join(observed_of(v), a, b);
    }
}

/// A written last record is accepted where its counts are those of what was
/// seen and everything seen was listed.
#[verifier::rlimit(60)]
proof fn lemma_end(m: VerifierModel, pages: [u8; 32], digests: RecordDigests)
    requires
        m.start_seen,
        !m.end_seen,
        m.active is None,
        m.observed == Map::<Seq<u8>, Observed>::empty(),
        pages == digests.pages,
        end_bytes(
            m.state.records,
            m.state.attachments,
            m.state.logical_bytes,
            pages,
            m.state.attachment_bytes,
        ).len() <= u64::MAX,
    ensures
        consumed(
            m,
            end_bytes(
                m.state.records,
                m.state.attachments,
                m.state.logical_bytes,
                pages,
                m.state.attachment_bytes,
            ),
            digests,
        ) == Ok::<VerifierModel, HumanCommitError>(VerifierModel { end_seen: true, ..m }),
{
    let s = m.state;
    let t13 = Seq::<u8>::empty();
    let t12 = uint_item(s.attachment_bytes) + t13;
    let t11 = text_item("attachment_bytes"@) + t12;
    let t10 = bytes_item(pages@) + t11;
    let t9 = text_item("inventory_pages_sha256"@) + t10;
    let t8 = uint_item(s.logical_bytes) + t9;
    let t7 = text_item("logical_bytes"@) + t8;
    let t6 = uint_item(s.attachments) + t7;
    let t5 = text_item("attachment_count"@) + t6;
    let t4 = uint_item(s.records) + t5;
    let t3 = text_item("record_count"@) + t4;
    let t2 = text_item("manifest_end"@) + t3;
    let t1 = text_item("type"@) + t2;
    let t0 = map_head(6) + t1;
    assert(t0 == end_bytes(
        s.records,
        s.attachments,
        s.logical_bytes,
        pages,
        s.attachment_bytes,
    ));
    lemma_map(6, t1);
    lemma_text_within("type"@, t2);
    lemma_text_within("manifest_end"@, t3);
    lemma_text_within("record_count"@, t4);
    lemma_uint(s.records, t5);
    lemma_text_within("attachment_count"@, t6);
    lemma_uint(s.attachments, t7);
    lemma_text_within("logical_bytes"@, t8);
    lemma_uint(s.logical_bytes, t9);
    lemma_text_within("inventory_pages_sha256"@, t10);
    lemma_bytes_within(pages@, t11);
    lemma_array_of(pages);
    lemma_text_within("attachment_bytes"@, t12);
    lemma_uint(s.attachment_bytes, t13);
    lemma_types();
    assert(type_of(t0) == Some("manifest_end"@));
}

/// The first record of a backup is accepted by the verification of that backup
/// alone: the backup, the vault and the digest of the outer header must agree.
#[verifier::rlimit(60)]
pub proof fn lemma_start(
    s: StartRecordModel,
    backup_id: [u8; 16],
    vault: [u8; 16],
    outer_hash: [u8; 32],
    digests: RecordDigests,
)
    requires
        start_bytes(s).len() <= u64::MAX,
    ensures
        consumed(fresh(backup_id, vault, outer_hash), start_bytes(s), digests) == (if s.backup_id
            == backup_id && s.source_vault == vault && s.outer_sha256 == outer_hash {
            Ok::<VerifierModel, HumanCommitError>(
                VerifierModel { start_seen: true, ..fresh(backup_id, vault, outer_hash) },
            )
        } else {
            Err(HumanCommitError::Integrity)
        }),
{
    let t21 = Seq::<u8>::empty();
    let t20 = text_item("full"@) + t21;
    let t19 = text_item("scope"@) + t20;
    let t18 = bytes_item(s.authority_checkpoint_ref@) + t19;
    let t17 = text_item("authority_checkpoint_ref"@) + t18;
    let t16 = bytes_item(s.content_frontier@) + t17;
    let t15 = text_item("content_frontier"@) + t16;
    let t14 = bytes_item(s.source_vault@) + t15;
    let t13 = text_item("source_vault"@) + t14;
    let t12 = bytes_item(s.outer_sha256@) + t13;
    let t11 = text_item("outer_sha256"@) + t12;
    let t10 = int_item(s.created_at) + t11;
    let t9 = text_item("created_at"@) + t10;
    let t8 = bytes_item(s.snapshot_id@) + t9;
    let t7 = text_item("snapshot_id"@) + t8;
    let t6 = bytes_item(s.backup_id@) + t7;
    let t5 = text_item("backup_id"@) + t6;
    let t4 = uint_item(1) + t5;
    let t3 = text_item("v"@) + t4;
    let t2 = text_item("manifest_start"@) + t3;
    let t1 = text_item("type"@) + t2;
    let t0 = map_head(10) + t1;
    assert(t0 == start_bytes(s));
    lemma_map(10, t1);
    lemma_text_within("type"@, t2);
    lemma_text_within("manifest_start"@, t3);
    lemma_text_within("v"@, t4);
    lemma_uint(1, t5);
    lemma_text_within("backup_id"@, t6);
    lemma_bytes_within(s.backup_id@, t7);
    lemma_array_of(s.backup_id);
    lemma_text_within("snapshot_id"@, t8);
    lemma_bytes_within(s.snapshot_id@, t9);
    lemma_array_of(s.snapshot_id);
    lemma_text_within("created_at"@, t10);
    lemma_int(s.created_at, t11);
    lemma_text_within("outer_sha256"@, t12);
    lemma_bytes_within(s.outer_sha256@, t13);
    lemma_array_of(s.outer_sha256);
    lemma_text_within("source_vault"@, t14);
    lemma_bytes_within(s.source_vault@, t15);
    lemma_array_of(s.source_vault);
    lemma_text_within("content_frontier"@, t16);
    lemma_bytes_within(s.content_frontier@, t17);
    lemma_array_of(s.content_frontier);
    lemma_text_within("authority_checkpoint_ref"@, t18);
    lemma_bytes_within(s.authority_checkpoint_ref@, t19);
    lemma_array_of(s.authority_checkpoint_ref);
    lemma_text_within("scope"@, t20);
    lemma_text_within("full"@, t21);
    assert(type_of(t0) == Some("manifest_start"@));
}

/// A backup whose data records were accepted is accepted as a whole: its own
/// inventory and last record cross off what was observed, and the summary is
/// that of the counts. Files must be complete, references answered, and items
/// and revisions fit together.
pub proof fn lemma_written_backup(
    m: VerifierModel,
    inventory: Seq<EntryModel>,
    pages: [u8; 32],
    digests: RecordDigests,
)
    requires
        m.start_seen,
        !m.end_seen,
        m.active is None,
        m.next_page == 0,
        m.input.len() == 0,
        m.observed == observed_of(inventory),
        distinct(inventory),
        inventory.len() <= MAX_RECORDS,
        pages == digests.pages,
        forall|i: int|
            0 <= i < pages_of(inventory).len() ==> (#[trigger] pages_of(inventory)[i]).len()
                <= u64::MAX,
        end_bytes(
            m.state.records,
            m.state.attachments,
            m.state.logical_bytes,
            pages,
            m.state.attachment_bytes,
        ).len() <= u64::MAX,
        m.expected == Map::<Seq<u8>, ExpectedFile>::empty(),
        m.references.subset_of(m.digests),
        graph_valid(m),
    ensures
        ({
            let listed = after_records(m, pages_of(inventory), pages_of(inventory).len(), digests);
            let end = end_bytes(
                m.state.records,
                m.state.attachments,
                m.state.logical_bytes,
                pages,
                m.state.attachment_bytes,
            );
            &&& listed is Ok
            &&& consumed(listed->Ok_0, end, digests) is Ok
            &&& finished(consumed(listed->Ok_0, end, digests)->Ok_0) == Ok::<_, HumanCommitError>(
                summarized(m.state, m.backup_id, m.vault),
            )
        }),
{
    let n = inventory.len() as int;
    let k = page_count(n) as nat;
    lemma_pages(m, inventory, k, digests);
    assert(inventory.take(listed(n, k as int)) =~= inventory);
    lemma_observed(inventory);
    lemma_without(observed_of(inventory), inventory);
    let left = without(observed_of(inventory), inventory);
    assert(left =~= Map::empty());
    let after = VerifierModel { observed: left, next_page: k as u64, ..m };
    lemma_end(after, pages, digests);
    let last = VerifierModel { end_seen: true, ..after };
    assert(graph_valid(last)) by {
        assert forall|item: Seq<u8>| #[trigger] last.items.contains_key(item)
            implies crate::backup_verify::item_valid(
            last,
            item,
        ) by {
            assert(crate::backup_verify::item_valid(m, item));
        }
        assert forall|revision: Seq<u8>| #[trigger]
            last.revisions.contains_key(revision) implies crate::backup_verify::revision_valid(
            last,
            revision,
        ) by {
            assert(crate::backup_verify::revision_valid(m, revision));
        }
        assert forall|file: Seq<u8>| #[trigger] last.files.contains_key(file)
            implies crate::backup_verify::file_valid(
            last,
            file,
        ) by {
            assert(crate::backup_verify::file_valid(m, file));
        }
    }
}

} // verus!

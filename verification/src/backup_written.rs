//! What is written of whole contents is verified, with the summary of what was
//! written.
use crate::backup::{
    counted, entries_tail, entry_then, page_entries, pages_of, summarized, EntryModel, ExportState,
    MAX_RECORDS,
};
use crate::backup_contents::{
    all_counted, all_read_as, all_records, announce, bytes_of, chunk_digest, chunk_record,
    chunk_records, complete_file, content_of, contents_whole, digests_for, digests_of, entry_for,
    file_whole, files_of, first_record, inventory_of, items_of, missing_of, other_type, part_sound,
    parts_sound, read_as, records_of, references_of, revisions_of, written, ChunkContent,
    FileContent, Hashing, Part, Written,
};
use crate::backup_format::{
    data_type, described, end_bytes, framed, lemma_attachment_record, lemma_chunk_record,
    lemma_data_record, lemma_item_record, lemma_revision_record, start_bytes, type_of,
    StartRecordModel, CHUNK, INVENTORY_PAGE, MAX_RECORD,
};
use crate::backup_history::lemma_authority_row;
use crate::backup_laws::{
    after_records, distinct, key_of, lemma_observed, lemma_start, lemma_types,
    lemma_written_backup, names, observed_of,
};
use crate::backup_verify::{
    after_chunk, all_read, announced, applied, consumed, entry_key, file_valid, finished, fresh,
    graph_valid, item_valid, pair_key, revision_valid, settled, unseen, ExpectedFile, FileCheck,
    ItemCheck, Observed, RecordDigests, RevisionCheck, StreamRecord, VerifierModel,
};
use crate::cbor::{
    array_head, bytes_item, lemma_array16, lemma_bytes_most, lemma_head_most, lemma_int_most,
    lemma_map, lemma_text_most, lemma_text_within, map_head, text_item, uint_item, ARRAY, MAP,
    UNSIGNED,
};
use crate::content::{descriptor_bytes, ids_distinct, AttachmentModel};
use crate::errors::HumanCommitError;
use vstd::prelude::*;

verus! {

/// The types of data records are different.
proof fn lemma_kinds()
    ensures
        "item"@ != "revision"@,
        "item"@ != "attachment"@,
        "item"@ != "attachment_chunk"@,
        "item"@ != "authority_history"@,
        "revision"@ != "attachment"@,
        "revision"@ != "attachment_chunk"@,
        "revision"@ != "authority_history"@,
        "attachment"@ != "attachment_chunk"@,
        "attachment"@ != "authority_history"@,
        "attachment_chunk"@ != "authority_history"@,
        !other_type("item"@),
        !other_type("revision"@),
        !other_type("attachment"@),
        !other_type("attachment_chunk"@),
        !other_type("authority_history"@),
{
    reveal_strlit("item");
    reveal_strlit("revision");
    reveal_strlit("partial_history");
    reveal_strlit("attachment");
    reveal_strlit("attachment_chunk");
    reveal_strlit("organization");
    reveal_strlit("settings");
    reveal_strlit("audit_bundle");
    reveal_strlit("authority_history");
    reveal_strlit("identity_metadata");
    assert("item"@.len() == 4);
    assert("revision"@.len() == 8);
    assert("partial_history"@.len() == 15);
    assert("attachment"@.len() == 10);
    assert("attachment_chunk"@.len() == 16);
    assert("organization"@.len() == 12);
    assert("settings"@.len() == 8);
    assert("audit_bundle"@.len() == 12);
    assert("authority_history"@.len() == 17);
    assert("identity_metadata"@.len() == 17);
    assert("revision"@[0] == 'r');
    assert("settings"@[0] == 's');
    assert("authority_history"@[0] == 'a');
    assert("identity_metadata"@[0] == 'i');
}

/// Reading records that follow others is reading on.
pub(crate) proof fn lemma_read_on(m: VerifierModel, a: Seq<StreamRecord>, b: Seq<StreamRecord>)
    ensures
        all_read(m, a + b) == (match all_read(m, a) {
            Ok(n) => all_read(n, b),
            Err(e) => Err(e),
        }),
    decreases b.len(),
{
    if b.len() == 0 {
        assert(a + b =~= a);
    } else {
        lemma_read_on(m, a, b.drop_last());
        assert((a + b).drop_last() =~= a + b.drop_last());
    }
}

/// Reading one record.
pub(crate) proof fn lemma_read_one(m: VerifierModel, r: StreamRecord)
    ensures
        all_read(m, seq![r]) == consumed(m, r.bytes, r.digests),
{
    assert(seq![r].drop_last() =~= Seq::<StreamRecord>::empty());
    assert(all_read(m, seq![r].drop_last()) == Ok::<VerifierModel, HumanCommitError>(m));
}

/// Counting records that follow others is counting on.
proof fn lemma_count_on(s: ExportState, a: Seq<Written>, b: Seq<Written>)
    ensures
        all_counted(s, a + b) == (match all_counted(s, a) {
            Some(t) => all_counted(t, b),
            None => None,
        }),
    decreases b.len(),
{
    if b.len() == 0 {
        assert(a + b =~= a);
    } else {
        lemma_count_on(s, a, b.drop_last());
        assert((a + b).drop_last() =~= a + b.drop_last());
    }
}

/// Counting one record.
proof fn lemma_count_one(s: ExportState, w: Written)
    ensures
        all_counted(s, seq![w]) == counted(s, w.kind, bytes_of(w).len() as int),
{
    assert(seq![w].drop_last() =~= Seq::<Written>::empty());
    assert(all_counted(s, seq![w].drop_last()) == Some(s));
}

/// Records are counted without regard to the bytes of files.
proof fn lemma_count_apart(s: ExportState, bytes: u64, v: Seq<Written>)
    ensures
        all_counted(ExportState { attachment_bytes: bytes, ..s }, v) == (match all_counted(s, v) {
            Some(t) => Some(ExportState { attachment_bytes: bytes, ..t }),
            None => None,
        }),
        all_counted(s, v) matches Some(t) ==> t.attachment_bytes == s.attachment_bytes,
    decreases v.len(),
{
    if v.len() > 0 {
        lemma_count_apart(s, bytes, v.drop_last());
    }
}

/// The first records of a list that is counted are counted.
proof fn lemma_count_first(s: ExportState, v: Seq<Written>, n: int)
    requires
        all_counted(s, v) is Some,
        0 <= n <= v.len(),
    ensures
        all_counted(s, v.take(n)) is Some,
    decreases v.len(),
{
    if n == v.len() {
        assert(v.take(n) =~= v);
    } else {
        lemma_count_first(s, v.drop_last(), n);
        assert(v.drop_last().take(n) =~= v.take(n));
    }
}

/// The verifier once a record was noted.
pub open spec fn noted_as(s: VerifierModel, w: Written, h: Hashing) -> VerifierModel {
    VerifierModel {
        observed: s.observed.insert(
            entry_key(w.kind, w.id),
            Observed { hash: (h.hash)(bytes_of(w)), size: bytes_of(w).len() as u64 },
        ),
        state: counted(s.state, w.kind, bytes_of(w).len() as int)->0,
        ..s
    }
}

/// A written record is noted and what it holds is applied.
#[verifier::rlimit(40)]
proof fn lemma_record(m: VerifierModel, s: VerifierModel, w: Written, h: Hashing)
    requires
        bytes_of(w).len() <= MAX_RECORD,
        data_type(w.kind),
        m.start_seen,
        m.next_page == 0,
        !m.end_seen,
        if w.kind == "attachment_chunk"@ {
            s == m
        } else {
            settled(m) == Ok::<VerifierModel, HumanCommitError>(s)
        },
        !s.observed.contains_key(entry_key(w.kind, w.id)),
        counted(s.state, w.kind, bytes_of(w).len() as int) is Some,
    ensures
        consumed(m, bytes_of(w), digests_for(w, h)) == applied(
            noted_as(s, w, h),
            w.kind,
            w.id,
            w.payload,
            digests_for(w, h),
        ),
{
    let t7 = Seq::<u8>::empty();
    let t6 = bytes_item(w.payload) + t7;
    let t5 = text_item("payload"@) + t6;
    let t4 = bytes_item(w.id@) + t5;
    let t3 = text_item("id"@) + t4;
    let t2 = text_item(w.kind) + t3;
    let t1 = text_item("type"@) + t2;
    let t0 = map_head(3) + t1;
    assert(t0 == bytes_of(w));
    lemma_data_record(w.kind, w.id, w.payload);
    lemma_map(3, t1);
    lemma_text_within("type"@, t2);
    lemma_text_within(w.kind, t3);
    assert(type_of(t0) == Some(w.kind));
    lemma_types();
}

/// What is listed next is observed next.
proof fn lemma_observe_next(v: Seq<Written>, w: Written, h: Hashing)
    requires
        distinct(inventory_of(v.push(w), h)),
    ensures
        distinct(inventory_of(v, h)),
        !observed_of(inventory_of(v, h)).contains_key(entry_key(w.kind, w.id)),
        observed_of(inventory_of(v.push(w), h)) == observed_of(inventory_of(v, h)).insert(
            entry_key(w.kind, w.id),
            Observed { hash: (h.hash)(bytes_of(w)), size: bytes_of(w).len() as u64 },
        ),
{
    let a = inventory_of(v, h);
    let b = inventory_of(v.push(w), h);
    assert(b.drop_last() =~= a);
    assert forall|i: int, j: int|
        #![trigger a[i], a[j]]
        0 <= i < j < a.len() implies key_of(a[i]) != key_of(a[j]) by {
        assert(a[i] == b[i] && a[j] == b[j]);
    }
    lemma_observed(a);
    let key = entry_key(w.kind, w.id);
    if names(a, key) {
        let i = choose|i: int| 0 <= i < a.len() && key_of(#[trigger] a[i]) == key;
        assert(a[i] == b[i]);
        assert(key_of(b[i]) != key_of(b[b.len() - 1]));
    }
}

/// The first records of a list have different keys where all have.
proof fn lemma_distinct_first(v: Seq<Written>, n: int, h: Hashing)
    requires
        distinct(inventory_of(v, h)),
        0 <= n <= v.len(),
    ensures
        distinct(inventory_of(v.take(n), h)),
{
    let a = inventory_of(v.take(n), h);
    let b = inventory_of(v, h);
    assert forall|i: int, j: int|
        #![trigger a[i], a[j]]
        0 <= i < j < a.len() implies key_of(a[i]) != key_of(a[j]) by {
        assert(a[i] == b[i] && a[j] == b[j]);
    }
}

/// Parts without the last can be written where all can.
pub(crate) proof fn lemma_sound_before(v: Seq<Part>, h: Hashing)
    requires
        parts_sound(v, h),
        v.len() > 0,
    ensures
        parts_sound(v.drop_last(), h),
        part_sound(v.drop_last(), v.last(), h),
{
    let before = v.drop_last();
    assert forall|i: int| 0 <= i < before.len() implies part_sound(
        before.take(i),
        #[trigger] before[i],
        h,
    ) by {
        assert(before[i] == v[i]);
        assert(before.take(i) =~= v.take(i));
    }
    let records = all_records(v, h);
    let n = all_records(before, h).len() as int;
    assert(records.take(n) =~= all_records(before, h));
    lemma_distinct_first(records, n, h);
    assert(part_sound(v.take(v.len() - 1), v[v.len() - 1], h));
    assert(v.take(v.len() - 1) =~= before);
}

/// Where the first record of a part stands among all records.
proof fn lemma_listed(v: Seq<Part>, i: int, h: Hashing) -> (at: int)
    requires
        0 <= i < v.len(),
    ensures
        0 <= at < all_records(v, h).len(),
        all_records(v, h)[at] == first_record(v[i], h),
    decreases v.len(),
{
    let before = v.drop_last();
    if i == v.len() - 1 {
        assert(records_of(v.last(), h)[0] == first_record(v.last(), h));
        all_records(before, h).len() as int
    } else {
        assert(before[i] == v[i]);
        lemma_listed(before, i, h)
    }
}

/// Two parts do not have the same type and identifier.
proof fn lemma_parts_differ(v: Seq<Part>, i: int, j: int, h: Hashing)
    requires
        distinct(inventory_of(all_records(v, h), h)),
        0 <= i < j < v.len(),
    ensures
        first_record(v[i], h).kind != first_record(v[j], h).kind || first_record(v[i], h).id
            != first_record(v[j], h).id,
    decreases v.len(),
{
    let before = v.drop_last();
    let all = inventory_of(all_records(v, h), h);
    if j == v.len() - 1 {
        let at = lemma_listed(before, i, h);
        let n = all_records(before, h).len() as int;
        assert(before[i] == v[i]);
        assert(records_of(v.last(), h)[0] == first_record(v.last(), h));
        assert(all[at] == entry_for(first_record(v[i], h), h));
        assert(all[n] == entry_for(first_record(v[j], h), h));
        assert(key_of(all[at]) != key_of(all[n]));
    } else {
        let n = all_records(before, h).len() as int;
        assert(all_records(v, h).take(n) =~= all_records(before, h));
        lemma_distinct_first(all_records(v, h), n, h);
        lemma_parts_differ(before, i, j, h);
        assert(before[i] == v[i] && before[j] == v[j]);
    }
}

/// An item that is known is one of the parts.
proof fn lemma_item_at(v: Seq<Part>, key: Seq<u8>) -> (i: int)
    requires
        items_of(v).contains_key(key),
    ensures
        0 <= i < v.len(),
        match v[i] {
            Part::Item { id, visible, kind, .. } => id@ == key && items_of(v)[key] == (ItemCheck {
                visible,
                kind,
            }),
            _ => false,
        },
    decreases v.len(),
{
    match v.last() {
        Part::Item { id, .. } => if id@ == key {
            v.len() - 1
        } else {
            lemma_item_at(v.drop_last(), key)
        },
        _ => lemma_item_at(v.drop_last(), key),
    }
}

/// A revision that is known is one of the parts.
proof fn lemma_revision_at(v: Seq<Part>, key: Seq<u8>) -> (i: int)
    requires
        revisions_of(v).contains_key(key),
    ensures
        0 <= i < v.len(),
        match v[i] {
            Part::Revision { id, item, descriptor, .. } => id@ == key && revisions_of(v)[key] == (
            RevisionCheck { item, kind: (described(descriptor)->0).kind }),
            _ => false,
        },
    decreases v.len(),
{
    match v.last() {
        Part::Revision { id, .. } => if id@ == key {
            v.len() - 1
        } else {
            lemma_revision_at(v.drop_last(), key)
        },
        _ => lemma_revision_at(v.drop_last(), key),
    }
}

/// A revision among the parts is known.
proof fn lemma_revision_known(v: Seq<Part>, i: int)
    requires
        0 <= i < v.len(),
        v[i] is Revision,
    ensures
        revisions_of(v).contains_key(v[i]->Revision_id@),
    decreases v.len(),
{
    if i < v.len() - 1 {
        assert(v.drop_last()[i] == v[i]);
        lemma_revision_known(v.drop_last(), i);
    }
}

/// A file that is known is one of the parts.
proof fn lemma_file_at(v: Seq<Part>, key: Seq<u8>, h: Hashing) -> (i: int)
    requires
        files_of(v, h).contains_key(key),
    ensures
        0 <= i < v.len(),
        match v[i] {
            Part::File(f) => pair_key(f.revision, f.attachment) == key && files_of(v, h)[key]
                == complete_file(f, h),
            _ => false,
        },
    decreases v.len(),
{
    match v.last() {
        Part::File(f) => if pair_key(f.revision, f.attachment) == key {
            v.len() - 1
        } else {
            lemma_file_at(v.drop_last(), key, h)
        },
        _ => lemma_file_at(v.drop_last(), key, h),
    }
}

/// An event whose digest is known is one of the parts.
proof fn lemma_event_at(v: Seq<Part>, digest: Seq<u8>) -> (i: int)
    requires
        digests_of(v).contains(digest),
    ensures
        0 <= i < v.len(),
        v[i] is Event,
        v[i]->event.digest@ == digest,
    decreases v.len(),
{
    match v.last() {
        Part::Event { event, .. } => if event.digest@ == digest {
            v.len() - 1
        } else {
            lemma_event_at(v.drop_last(), digest)
        },
        _ => lemma_event_at(v.drop_last(), digest),
    }
}

/// A file that is announced is one of its revision.
proof fn lemma_announced_key(
    expected: Map<Seq<u8>, ExpectedFile>,
    revision: [u8; 16],
    item: [u8; 16],
    files: Seq<AttachmentModel>,
    n: nat,
    key: Seq<u8>,
)
    requires
        announce(expected, revision, item, files, n).contains_key(key),
    ensures
        expected.contains_key(key) || key.take(16) == revision@,
    decreases n,
{
    if n > 0 {
        let f = files[n - 1];
        if key == pair_key(revision, f.id) {
            assert(pair_key(revision, f.id).take(16) =~= revision@);
        } else {
            lemma_announced_key(expected, revision, item, files, (n - 1) as nat, key);
        }
    }
}

/// What is announced stays announced while a revision announces more.
proof fn lemma_announce_keeps(
    expected: Map<Seq<u8>, ExpectedFile>,
    revision: [u8; 16],
    item: [u8; 16],
    files: Seq<AttachmentModel>,
    n: nat,
    j: int,
)
    requires
        announce(expected, revision, item, files, n).contains_key(pair_key(revision, files[j].id)),
        n <= j < files.len(),
        ids_distinct(files),
    ensures
        expected.contains_key(pair_key(revision, files[j].id)),
    decreases n,
{
    if n > 0 {
        let a = files[n - 1].id;
        let b = files[j].id;
        assert(a != b);
        assert(pair_key(revision, a) != pair_key(revision, b)) by {
            assert(pair_key(revision, a).skip(16) =~= a@);
            assert(pair_key(revision, b).skip(16) =~= b@);
            if a@ == b@ {
                lemma_array16(a, b);
            }
        }
        lemma_announce_keeps(expected, revision, item, files, (n - 1) as nat, j);
    }
}

/// A revision that is not yet known can announce its files.
proof fn lemma_announce(
    expected: Map<Seq<u8>, ExpectedFile>,
    revision: [u8; 16],
    item: [u8; 16],
    files: Seq<AttachmentModel>,
    n: nat,
)
    requires
        n <= files.len(),
        ids_distinct(files),
        forall|key: Seq<u8>| #[trigger] expected.contains_key(key) ==> key.take(16) != revision@,
    ensures
        announced(expected, revision, item, files, n) == Some(
            announce(expected, revision, item, files, n),
        ),
    decreases n,
{
    if n > 0 {
        lemma_announce(expected, revision, item, files, (n - 1) as nat);
        let key = pair_key(revision, files[n - 1].id);
        if announce(expected, revision, item, files, (n - 1) as nat).contains_key(key) {
            lemma_announce_keeps(expected, revision, item, files, (n - 1) as nat, n - 1);
            assert(key.take(16) =~= revision@);
        }
    }
}

/// A file that is missing was announced by a revision among the parts.
proof fn lemma_missing_at(v: Seq<Part>, key: Seq<u8>) -> (i: int)
    requires
        missing_of(v).contains_key(key),
    ensures
        0 <= i < v.len(),
        v[i] is Revision,
        v[i]->Revision_id@ == key.take(16),
    decreases v.len(),
{
    let before = v.drop_last();
    match v.last() {
        Part::Revision { id, item, descriptor, .. } => {
            let files = (described(descriptor)->0).attachments;
            lemma_announced_key(missing_of(before), id, item, files, files.len(), key);
            if key.take(16) == id@ {
                v.len() - 1
            } else {
                lemma_missing_at(before, key)
            }
        },
        _ => lemma_missing_at(before, key),
    }
}

/// A later revision does not announce a file that is among the parts.
proof fn lemma_not_announced(v: Seq<Part>, i: int, key: Seq<u8>, h: Hashing)
    requires
        parts_sound(v, h),
        0 <= i < v.len() - 1,
        v[i] is File,
        key == pair_key(v[i]->File_0.revision, v[i]->File_0.attachment),
        v.last() is Revision,
    ensures
        key.take(16) != v.last()->Revision_id@,
{
    assert(part_sound(v.take(i), v[i], h));
    let j = lemma_missing_at(v.take(i), key);
    assert(v.take(i)[j] == v[j]);
    if key.take(16) == v.last()->Revision_id@ {
        lemma_array16(v[j]->Revision_id, v.last()->Revision_id);
        lemma_parts_differ(v, j, v.len() - 1, h);
    }
}

/// A file that is among the parts is not missing.
proof fn lemma_not_missing(v: Seq<Part>, i: int, key: Seq<u8>, h: Hashing)
    requires
        parts_sound(v, h),
        0 <= i < v.len(),
        v[i] is File,
        key == pair_key(v[i]->File_0.revision, v[i]->File_0.attachment),
    ensures
        !missing_of(v).contains_key(key),
    decreases v.len(),
{
    if i < v.len() - 1 {
        let before = v.drop_last();
        lemma_sound_before(v, h);
        assert(before[i] == v[i]);
        lemma_not_missing(before, i, key, h);
        match v.last() {
            Part::Revision { id, item, descriptor, .. } => {
                let files = (described(descriptor)->0).attachments;
                lemma_not_announced(v, i, key, h);
                if missing_of(v).contains_key(key) {
                    lemma_announced_key(missing_of(before), id, item, files, files.len(), key);
                }
            },
            _ => {},
        }
    }
}

/// A verifier that has read the records of parts, and has no file open.
pub open spec fn after_parts(m: VerifierModel, v: Seq<Part>, h: Hashing) -> VerifierModel {
    VerifierModel {
        observed: observed_of(inventory_of(all_records(v, h), h)),
        items: items_of(v),
        revisions: revisions_of(v),
        expected: missing_of(v),
        files: files_of(v, h),
        active: None,
        digests: digests_of(v),
        references: references_of(v),
        state: written(v, h)->0,
        ..m
    }
}

/// Whether a verifier reads data records.
pub open spec fn reads_data(m: VerifierModel) -> bool {
    m.start_seen && m.next_page == 0 && !m.end_seen
}

/// The first record of the last part is noted and applied.
proof fn lemma_first_record(m: VerifierModel, n: VerifierModel, v: Seq<Part>, h: Hashing)
    requires
        v.len() > 0,
        parts_sound(v, h),
        reads_data(n),
        settled(n) == Ok::<VerifierModel, HumanCommitError>(after_parts(m, v.drop_last(), h)),
    ensures
        ({
            let s = after_parts(m, v.drop_last(), h);
            let w = first_record(v.last(), h);
            let records = all_records(v.drop_last(), h);
            &&& consumed(n, bytes_of(w), digests_for(w, h)) == applied(
                noted_as(s, w, h),
                w.kind,
                w.id,
                w.payload,
                digests_for(w, h),
            )
            &&& counted(s.state, w.kind, bytes_of(w).len() as int) is Some
            &&& noted_as(s, w, h).observed == observed_of(inventory_of(records.push(w), h))
            &&& distinct(inventory_of(records.push(w), h))
            &&& bytes_of(w).len() <= MAX_RECORD
        }),
{
    let before = v.drop_last();
    let p = v.last();
    let s = after_parts(m, before, h);
    let w = first_record(p, h);
    let all = all_records(v, h);
    let records = all_records(before, h);
    lemma_sound_before(v, h);
    assert(records_of(p, h)[0] == w);
    let k = records.len() as int + 1;
    assert(all.take(k) =~= records.push(w));
    lemma_distinct_first(all, k, h);
    lemma_observe_next(records, w, h);
    lemma_count_first(s.state, records_of(p, h), 1);
    assert(records_of(p, h).take(1) =~= seq![w]);
    lemma_count_one(s.state, w);
    lemma_kinds();
    lemma_record(n, s, w, h);
}

/// The records of the last part follow those of the parts before it.
proof fn lemma_single(m: VerifierModel, v: Seq<Part>, h: Hashing)
    requires
        v.len() > 0,
        !(v.last() is File),
    ensures
        all_records(v, h) == all_records(v.drop_last(), h).push(first_record(v.last(), h)),
        all_read(m, all_read_as(all_records(v, h), h)) == (match all_read(
            m,
            all_read_as(all_records(v.drop_last(), h), h),
        ) {
            Ok(n) => consumed(
                n,
                bytes_of(first_record(v.last(), h)),
                digests_for(first_record(v.last(), h), h),
            ),
            Err(e) => Err(e),
        }),
        written(v, h) == (match written(v.drop_last(), h) {
            Some(s) => counted(
                s,
                first_record(v.last(), h).kind,
                bytes_of(first_record(v.last(), h)).len() as int,
            ),
            None => None,
        }),
{
    let before = all_records(v.drop_last(), h);
    let w = first_record(v.last(), h);
    assert(before + seq![w] =~= before.push(w));
    assert(all_read_as(all_records(v, h), h) =~= all_read_as(before, h) + seq![read_as(w, h)]);
    lemma_read_on(m, all_read_as(before, h), seq![read_as(w, h)]);
    match all_read(m, all_read_as(before, h)) {
        Ok(n) => {
            lemma_read_one(n, read_as(w, h));
        },
        Err(e) => {},
    }
    match written(v.drop_last(), h) {
        Some(s) => {
            lemma_count_one(s, w);
        },
        None => {},
    }
}

/// The payload of a record is not longer than the record.
proof fn lemma_payload_len(w: Written)
    ensures
        w.payload.len() <= bytes_of(w).len(),
{
    reveal(bytes_item);
    let t6 = bytes_item(w.payload) + Seq::<u8>::empty();
    let t5 = text_item("payload"@) + t6;
    let t4 = bytes_item(w.id@) + t5;
    let t3 = text_item("id"@) + t4;
    let t2 = text_item(w.kind) + t3;
    let t1 = text_item("type"@) + t2;
    assert(bytes_of(w) == map_head(3) + t1);
}

/// After an item.
#[verifier::rlimit(40)]
proof fn lemma_item_part(m: VerifierModel, n: VerifierModel, v: Seq<Part>, h: Hashing)
    requires
        v.len() > 0,
        v.last() is Item,
        parts_sound(v, h),
        reads_data(n),
        settled(n) == Ok::<VerifierModel, HumanCommitError>(after_parts(m, v.drop_last(), h)),
        all_read(m, all_read_as(all_records(v.drop_last(), h), h)) == Ok::<_, HumanCommitError>(n),
    ensures
        all_read(m, all_read_as(all_records(v, h), h)) == Ok::<_, HumanCommitError>(
            after_parts(m, v, h),
        ),
{
    let before = v.drop_last();
    lemma_first_record(m, n, v, h);
    lemma_single(m, v, h);
    lemma_sound_before(v, h);
    lemma_kinds();
    match v.last() {
        Part::Item { id, visible, kind, status } => {
            let w = first_record(v.last(), h);
            lemma_payload_len(w);
            lemma_item_record(visible, kind, status);
            if items_of(before).contains_key(id@) {
                let i = lemma_item_at(before, id@);
                assert(v[i] == before[i]);
                lemma_array16(v[i]->Item_id, id);
                lemma_parts_differ(v, i, v.len() - 1, h);
            }
        },
        _ => {},
    }
}

/// After a revision.
#[verifier::rlimit(40)]
proof fn lemma_revision_part(m: VerifierModel, n: VerifierModel, v: Seq<Part>, h: Hashing)
    requires
        v.len() > 0,
        v.last() is Revision,
        parts_sound(v, h),
        reads_data(n),
        settled(n) == Ok::<VerifierModel, HumanCommitError>(after_parts(m, v.drop_last(), h)),
        all_read(m, all_read_as(all_records(v.drop_last(), h), h)) == Ok::<_, HumanCommitError>(n),
    ensures
        all_read(m, all_read_as(all_records(v, h), h)) == Ok::<_, HumanCommitError>(
            after_parts(m, v, h),
        ),
{
    let before = v.drop_last();
    lemma_first_record(m, n, v, h);
    lemma_single(m, v, h);
    lemma_sound_before(v, h);
    lemma_kinds();
    match v.last() {
        Part::Revision { id, item, issuer, modified, descriptor } => {
            let w = first_record(v.last(), h);
            lemma_payload_len(w);
            let record = described(descriptor)->0;
            assert(descriptor_bytes(record) == descriptor && ids_distinct(record.attachments));
            lemma_revision_record(item, issuer, modified, record);
            if revisions_of(before).contains_key(id@) {
                let i = lemma_revision_at(before, id@);
                assert(v[i] == before[i]);
                lemma_array16(v[i]->Revision_id, id);
                lemma_parts_differ(v, i, v.len() - 1, h);
            }
            assert forall|key: Seq<u8>| #[trigger]
                missing_of(before).contains_key(key) implies key.take(16) != id@ by {
                let i = lemma_missing_at(before, key);
                assert(v[i] == before[i]);
                if key.take(16) == id@ {
                    lemma_array16(v[i]->Revision_id, id);
                    lemma_parts_differ(v, i, v.len() - 1, h);
                }
            }
            lemma_announce(
                missing_of(before),
                id,
                item,
                record.attachments,
                record.attachments.len(),
            );
        },
        _ => {},
    }
}

/// After an event.
#[verifier::rlimit(40)]
proof fn lemma_event_part(m: VerifierModel, n: VerifierModel, v: Seq<Part>, h: Hashing)
    requires
        v.len() > 0,
        v.last() is Event,
        parts_sound(v, h),
        reads_data(n),
        settled(n) == Ok::<VerifierModel, HumanCommitError>(after_parts(m, v.drop_last(), h)),
        all_read(m, all_read_as(all_records(v.drop_last(), h), h)) == Ok::<_, HumanCommitError>(n),
    ensures
        all_read(m, all_read_as(all_records(v, h), h)) == Ok::<_, HumanCommitError>(
            after_parts(m, v, h),
        ),
{
    let before = v.drop_last();
    lemma_first_record(m, n, v, h);
    lemma_single(m, v, h);
    lemma_sound_before(v, h);
    lemma_kinds();
    match v.last() {
        Part::Event { id, row, event } => {
            let w = first_record(v.last(), h);
            lemma_payload_len(w);
            lemma_authority_row(row, event);
            if digests_of(before).contains(event.digest@) {
                let i = lemma_event_at(before, event.digest@);
                assert(v[i] == before[i]);
                assert(part_sound(v.take(i), v[i], h));
                lemma_array16(v[i]->Event_id, id);
                lemma_parts_differ(v, i, v.len() - 1, h);
            }
        },
        _ => {},
    }
}

/// After a record that is carried along as it is.
#[verifier::rlimit(40)]
proof fn lemma_other_part(m: VerifierModel, n: VerifierModel, v: Seq<Part>, h: Hashing)
    requires
        v.len() > 0,
        v.last() is Other,
        parts_sound(v, h),
        reads_data(n),
        settled(n) == Ok::<VerifierModel, HumanCommitError>(after_parts(m, v.drop_last(), h)),
        all_read(m, all_read_as(all_records(v.drop_last(), h), h)) == Ok::<_, HumanCommitError>(n),
    ensures
        all_read(m, all_read_as(all_records(v, h), h)) == Ok::<_, HumanCommitError>(
            after_parts(m, v, h),
        ),
{
    lemma_first_record(m, n, v, h);
    lemma_single(m, v, h);
    lemma_sound_before(v, h);
    lemma_kinds();
}

/// More chunks do not have less content.
proof fn lemma_content_grows(v: Seq<ChunkContent>, k: nat, n: nat)
    requires
        k <= n,
    ensures
        content_of(v, k).len() <= content_of(v, n).len(),
    decreases n,
{
    if k < n {
        lemma_content_grows(v, k, (n - 1) as nat);
    }
}

/// A verifier that has read the first chunks of a file.
pub open spec fn after_chunks(
    a: VerifierModel,
    f: FileContent,
    records: Seq<Written>,
    k: nat,
    h: Hashing,
) -> VerifierModel {
    VerifierModel {
        observed: observed_of(inventory_of(records + chunk_records(f, k, h), h)),
        files: a.files.insert(
            pair_key(f.revision, f.attachment),
            FileCheck {
                size: f.size,
                sha256: f.sha256,
                chunks: f.chunks.len() as u64,
                seen: k as u64,
                bytes: content_of(f.chunks, k).len() as u64,
                digest: if k == 0 {
                    f.sha256
                } else {
                    chunk_digest(f, k - 1, h)
                },
            },
        ),
        state: all_counted(a.state, chunk_records(f, k, h))->0,
        ..a
    }
}

/// The chunks of a file are accepted one after the other.
#[verifier::rlimit(40)]
proof fn lemma_chunks(
    a: VerifierModel,
    f: FileContent,
    records: Seq<Written>,
    k: nat,
    h: Hashing,
)
    requires
        reads_data(a),
        a.active == Some((f.revision, f.attachment)),
        a.files.contains_key(pair_key(f.revision, f.attachment)),
        a.files[pair_key(f.revision, f.attachment)] == unseen(
            f.size,
            f.sha256,
            f.chunks.len() as u64,
        ),
        a.observed == observed_of(inventory_of(records, h)),
        distinct(inventory_of(records + chunk_records(f, f.chunks.len(), h), h)),
        all_counted(a.state, chunk_records(f, f.chunks.len(), h)) is Some,
        file_whole(f, h),
        forall|i: int|
            0 <= i < f.chunks.len() ==> bytes_of(#[trigger] chunk_record(f, i, h)).len()
                <= MAX_RECORD,
        k <= f.chunks.len(),
    ensures
        all_read(a, all_read_as(chunk_records(f, k, h), h)) == Ok::<_, HumanCommitError>(
            after_chunks(a, f, records, k, h),
        ),
    decreases k,
{
    let key = pair_key(f.revision, f.attachment);
    if k == 0 {
        assert(records + chunk_records(f, 0, h) =~= records);
        assert(after_chunks(a, f, records, 0, h).files =~= a.files);
    } else {
        let j = (k - 1) as nat;
        let all = f.chunks.len();
        lemma_chunks(a, f, records, j, h);
        let b = after_chunks(a, f, records, j, h);
        let w = chunk_record(f, j as int, h);
        let before = chunk_records(f, j, h);
        let now = chunk_records(f, k, h);
        let whole = records + chunk_records(f, all, h);
        assert(now =~= before.push(w));
        assert(before + seq![w] =~= now);
        assert((records + before).push(w) =~= records + now);
        let taken = records.len() as int + k;
        assert(whole.take(taken) =~= records + now);
        lemma_distinct_first(whole, taken, h);
        lemma_observe_next(records + before, w, h);
        assert(chunk_records(f, all, h).take(k as int) =~= now);
        assert(chunk_records(f, all, h).take(j as int) =~= before);
        lemma_count_first(a.state, chunk_records(f, all, h), k as int);
        lemma_count_first(a.state, chunk_records(f, all, h), j as int);
        lemma_count_on(a.state, before, seq![w]);
        lemma_count_one(b.state, w);
        lemma_content_grows(f.chunks, k, all);
        lemma_kinds();
        lemma_record(b, b, w, h);
        lemma_payload_len(w);
        lemma_chunk_record(f.revision, f.attachment, j as u64, f.chunks[j as int].content);
        assert(all_read_as(now, h) =~= all_read_as(before, h) + seq![read_as(w, h)]);
        lemma_read_on(a, all_read_as(before, h), seq![read_as(w, h)]);
        lemma_read_one(b, read_as(w, h));
        let n = noted_as(b, w, h);
        let after = after_chunk(n, w.payload, w.content);
        assert(f.chunks[j as int].content.len() <= CHUNK);
        assert(after is Ok);
        assert((after->Ok_0).files =~= after_chunks(a, f, records, k, h).files);
    }
}

/// After a file.
#[verifier::rlimit(40)]
proof fn lemma_file_part(m: VerifierModel, n: VerifierModel, v: Seq<Part>, h: Hashing)
    requires
        v.len() > 0,
        v.last() is File,
        parts_sound(v, h),
        reads_data(n),
        settled(n) == Ok::<VerifierModel, HumanCommitError>(after_parts(m, v.drop_last(), h)),
        all_read(m, all_read_as(all_records(v.drop_last(), h), h)) == Ok::<_, HumanCommitError>(n),
    ensures
        ({
            let r = all_read(m, all_read_as(all_records(v, h), h));
            &&& r is Ok
            &&& reads_data(r->Ok_0)
            &&& settled(r->Ok_0) == Ok::<_, HumanCommitError>(after_parts(m, v, h))
        }),
{
    let before = v.drop_last();
    let f = v.last()->File_0;
    let key = pair_key(f.revision, f.attachment);
    let w = first_record(v.last(), h);
    let all = f.chunks.len();
    let chunks = chunk_records(f, all, h);
    let records = all_records(before, h).push(w);
    let s = after_parts(m, before, h);
    lemma_first_record(m, n, v, h);
    lemma_sound_before(v, h);
    lemma_kinds();
    lemma_payload_len(w);
    lemma_attachment_record(
        f.item,
        f.revision,
        f.attachment,
        f.name,
        f.mime,
        f.size,
        f.sha256,
        all as u64,
    );
    if files_of(before, h).contains_key(key) {
        let i = lemma_file_at(before, key, h);
        lemma_not_missing(before, i, key, h);
    }
    lemma_count_on(s.state, seq![w], chunks);
    lemma_count_one(s.state, w);
    let t = counted(s.state, w.kind, bytes_of(w).len() as int)->0;
    let total = (t.attachment_bytes + f.size) as u64;
    lemma_count_apart(t, total, chunks);
    let a = VerifierModel {
        expected: s.expected.remove(key),
        files: s.files.insert(key, unseen(f.size, f.sha256, all as u64)),
        active: Some((f.revision, f.attachment)),
        state: ExportState { attachment_bytes: total, ..t },
        ..noted_as(s, w, h)
    };
    assert(consumed(n, bytes_of(w), digests_for(w, h)) == Ok::<_, HumanCommitError>(a));
    assert(all_records(v, h) =~= records + chunks);
    assert forall|i: int| 0 <= i < all implies bytes_of(#[trigger] chunk_record(f, i, h)).len()
        <= MAX_RECORD by {
        assert(records_of(v.last(), h)[i + 1] == chunk_record(f, i, h));
    }
    lemma_chunks(a, f, records, all, h);
    let b = after_chunks(a, f, records, all, h);
    let first = all_read_as(all_records(before, h), h);
    let second = seq![read_as(w, h)];
    let third = all_read_as(chunks, h);
    assert(all_read_as(all_records(v, h), h) =~= (first + second) + third);
    lemma_read_on(m, first, second);
    lemma_read_one(n, read_as(w, h));
    lemma_read_on(m, first + second, third);
    assert(b.files =~= files_of(v, h));
    assert(settled(b) == Ok::<_, HumanCommitError>(VerifierModel { active: None, ..b }));
}

/// After all parts.
proof fn lemma_parts(m: VerifierModel, v: Seq<Part>, h: Hashing)
    requires
        parts_sound(v, h),
        reads_data(m),
        m == after_parts(m, Seq::empty(), h),
    ensures
        ({
            let r = all_read(m, all_read_as(all_records(v, h), h));
            &&& r is Ok
            &&& reads_data(r->Ok_0)
            &&& settled(r->Ok_0) == Ok::<_, HumanCommitError>(after_parts(m, v, h))
        }),
    decreases v.len(),
{
    if v.len() == 0 {
        assert(v =~= Seq::empty());
        assert(all_read_as(all_records(v, h), h).len() == 0);
    } else {
        let before = v.drop_last();
        lemma_sound_before(v, h);
        lemma_parts(m, before, h);
        let n = all_read(m, all_read_as(all_records(before, h), h))->Ok_0;
        match v.last() {
            Part::Item { .. } => lemma_item_part(m, n, v, h),
            Part::Revision { .. } => lemma_revision_part(m, n, v, h),
            Part::File(_) => lemma_file_part(m, n, v, h),
            Part::Event { .. } => lemma_event_part(m, n, v, h),
            Part::Other { .. } => lemma_other_part(m, n, v, h),
        }
    }
}

/// The number of records is counted, within its limit.
proof fn lemma_counted_records(s: ExportState, v: Seq<Written>)
    requires
        all_counted(s, v) is Some,
        s.records <= MAX_RECORDS,
    ensures
        (all_counted(s, v)->0).records == s.records + v.len(),
        s.records + v.len() <= MAX_RECORDS,
    decreases v.len(),
{
    if v.len() > 0 {
        lemma_counted_records(s, v.drop_last());
    }
}

/// All records are counted, within their limit.
proof fn lemma_written_records(v: Seq<Part>, h: Hashing)
    requires
        written(v, h) is Some,
    ensures
        (written(v, h)->0).records == all_records(v, h).len(),
        all_records(v, h).len() <= MAX_RECORDS,
    decreases v.len(),
{
    if v.len() > 0 {
        lemma_written_records(v.drop_last(), h);
        lemma_counted_records(written(v.drop_last(), h)->0, records_of(v.last(), h));
    }
}

/// The frames of records, one after the other.
pub open spec fn framed_all(v: Seq<Seq<u8>>) -> Seq<u8>
    decreases v.len(),
{
    if v.len() == 0 {
        Seq::empty()
    } else {
        framed(v[0]) + framed_all(v.skip(1))
    }
}

/// A record that holds no data as it is read, with the digest of the pages
/// before it.
pub open spec fn control_read_as(b: Seq<u8>, pages: [u8; 32], h: Hashing) -> StreamRecord {
    StreamRecord {
        bytes: b,
        digests: RecordDigests {
            record: (h.hash)(b),
            event: h.other,
            content: h.other,
            pages,
        },
    }
}

/// The pages of the inventory of what was written.
pub open spec fn pages_for(v: Seq<Part>, h: Hashing) -> Seq<Seq<u8>> {
    pages_of(inventory_of(all_records(v, h), h))
}

/// The digest of the pages of the inventory.
pub open spec fn pages_digest(v: Seq<Part>, h: Hashing) -> [u8; 32] {
    (h.hash)(framed_all(pages_for(v, h)))
}

/// The last record of what was written.
pub open spec fn end_for(v: Seq<Part>, h: Hashing) -> Seq<u8> {
    let s = written(v, h)->0;
    end_bytes(
        s.records,
        s.attachments,
        s.logical_bytes,
        pages_digest(v, h),
        s.attachment_bytes,
    )
}

/// The pages of the inventory as they are read.
pub open spec fn pages_read_as(v: Seq<Part>, h: Hashing) -> Seq<StreamRecord> {
    Seq::new(
        pages_for(v, h).len(),
        |i: int| control_read_as(pages_for(v, h)[i], h.other, h),
    )
}

/// A whole backup as it is read: the first record, the records of all parts,
/// the pages of the inventory and the last record.
pub open spec fn backup_read_as(start: StartRecordModel, v: Seq<Part>, h: Hashing) -> Seq<
    StreamRecord,
> {
    seq![control_read_as(start_bytes(start), h.other, h)] + all_read_as(all_records(v, h), h)
        + pages_read_as(v, h) + seq![control_read_as(end_for(v, h), pages_digest(v, h), h)]
}

/// A page is read alike whatever its digests are, and ends a file.
proof fn lemma_page_read(m: VerifierModel, s: VerifierModel, b: Seq<u8>, d: RecordDigests,
    e: RecordDigests)
    requires
        type_of(b) == Some("inventory_page"@),
        settled(m) == Ok::<VerifierModel, HumanCommitError>(s),
    ensures
        consumed(m, b, d) == consumed(s, b, e),
{
    lemma_types();
}

/// The last record is read alike whatever its digests are but for that of the
/// pages, and ends a file.
proof fn lemma_end_read(m: VerifierModel, s: VerifierModel, b: Seq<u8>, d: RecordDigests,
    e: RecordDigests)
    requires
        type_of(b) == Some("manifest_end"@),
        settled(m) == Ok::<VerifierModel, HumanCommitError>(s),
        d.pages == e.pages,
    ensures
        consumed(m, b, d) == consumed(s, b, e),
{
    lemma_types();
}

/// A record names its type at its front.
proof fn lemma_type(n: u64, kind: Seq<char>, t: Seq<u8>)
    requires
        (map_head(n) + (text_item("type"@) + (text_item(kind) + t))).len() <= u64::MAX,
    ensures
        type_of(map_head(n) + (text_item("type"@) + (text_item(kind) + t))) == Some(kind),
{
    lemma_map(n, text_item("type"@) + (text_item(kind) + t));
    lemma_text_within("type"@, text_item(kind) + t);
    lemma_text_within(kind, t);
}

/// The first pages are read as they are listed.
proof fn lemma_pages_read(
    n: VerifierModel,
    s: VerifierModel,
    v: Seq<Part>,
    k: nat,
    d: RecordDigests,
    h: Hashing,
)
    requires
        settled(n) == Ok::<VerifierModel, HumanCommitError>(s),
        s.active is None,
        0 < k <= pages_for(v, h).len(),
        forall|i: int|
            0 <= i < pages_for(v, h).len() ==> (#[trigger] pages_for(v, h)[i]).len() <= MAX_RECORD,
    ensures
        all_read(n, pages_read_as(v, h).take(k as int)) == after_records(s, pages_for(v, h), k, d),
        after_records(s, pages_for(v, h), k, d) matches Ok(m) ==> m.active is None,
    decreases k,
{
    let records = pages_read_as(v, h);
    let page = pages_for(v, h)[k - 1];
    let entries = page_entries(inventory_of(all_records(v, h), h), k - 1);
    let tail = text_item("index"@) + (uint_item((k - 1) as u64) + (text_item("entries"@) + (
    array_head(entries.len() as u64) + entries_tail(entries, Seq::empty()))));
    assert(page == map_head(3) + (text_item("type"@) + (text_item("inventory_page"@) + tail)));
    assert(page.len() <= MAX_RECORD);
    lemma_type(3, "inventory_page"@, tail);
    assert(records.take(k as int).drop_last() =~= records.take(k - 1));
    assert(records.take(k as int).last() == control_read_as(page, h.other, h));
    let e = control_read_as(page, h.other, h).digests;
    if k == 1 {
        assert(records.take(0) =~= Seq::empty());
        assert(all_read(n, records.take(0)) == Ok::<_, HumanCommitError>(n));
        assert(after_records(s, pages_for(v, h), 0, d) == Ok::<_, HumanCommitError>(s));
        lemma_page_read(n, s, page, e, d);
        lemma_types();
    } else {
        lemma_pages_read(n, s, v, (k - 1) as nat, d, h);
        match after_records(s, pages_for(v, h), (k - 1) as nat, d) {
            Ok(m) => {
                lemma_page_read(m, m, page, e, d);
                lemma_types();
            },
            Err(_) => {},
        }
    }
}

/// Where items and revisions among the parts fit and files are whole, the
/// verifier finds its graph in order.
proof fn lemma_graph(m: VerifierModel, v: Seq<Part>, h: Hashing)
    requires
        contents_whole(v, h),
    ensures
        graph_valid(after_parts(m, v, h)),
{
    let s = after_parts(m, v, h);
    assert forall|item: Seq<u8>| #[trigger] s.items.contains_key(item) implies item_valid(
        s,
        item,
    ) by {
        let i = lemma_item_at(v, item);
        assert(v[i] is Item);
    }
    assert forall|revision: Seq<u8>| #[trigger]
        s.revisions.contains_key(revision) implies revision_valid(s, revision) by {
        let i = lemma_revision_at(v, revision);
        assert(v[i] is Revision);
    }
    assert forall|file: Seq<u8>| #[trigger] s.files.contains_key(file) implies file_valid(
        s,
        file,
    ) by {
        let i = lemma_file_at(v, file, h);
        assert(part_sound(v.take(i), v[i], h));
        let j = lemma_missing_at(v.take(i), file);
        assert(v.take(i)[j] == v[j]);
        lemma_revision_known(v, j);
    }
}

/// The inventory entry of a data record takes less than 512 bytes.
proof fn lemma_entry_most(m: EntryModel, t: Seq<u8>)
    requires
        data_type(m.kind),
    ensures
        entry_then(m, t).len() <= 512 + t.len(),
{
    reveal_strlit("item");
    reveal_strlit("revision");
    reveal_strlit("partial_history");
    reveal_strlit("attachment");
    reveal_strlit("attachment_chunk");
    reveal_strlit("organization");
    reveal_strlit("settings");
    reveal_strlit("audit_bundle");
    reveal_strlit("authority_history");
    reveal_strlit("identity_metadata");
    reveal_strlit("type");
    reveal_strlit("id");
    reveal_strlit("record_sha256");
    reveal_strlit("logical_size");
    assert(m.kind.len() <= 17);
    lemma_head_most(MAP, 4);
    lemma_text_most("type"@);
    lemma_text_most(m.kind);
    lemma_text_most("id"@);
    lemma_bytes_most(m.id@);
    lemma_text_most("record_sha256"@);
    lemma_bytes_most(m.hash@);
    lemma_text_most("logical_size"@);
    lemma_head_most(UNSIGNED, m.size);
}

/// The inventory entries of data records take less than 512 bytes each.
proof fn lemma_entries_most(v: Seq<EntryModel>)
    requires
        forall|i: int| 0 <= i < v.len() ==> data_type((#[trigger] v[i]).kind),
    ensures
        entries_tail(v, Seq::empty()).len() <= 512 * v.len(),
    decreases v.len(),
{
    if v.len() > 0 {
        let rest = v.skip(1);
        assert forall|i: int| 0 <= i < rest.len() implies data_type((#[trigger] rest[i]).kind) by {
            assert(rest[i] == v[i + 1]);
        }
        lemma_entries_most(rest);
        lemma_entry_most(v[0], entries_tail(rest, Seq::empty()));
    }
}

/// All records of parts hold data.
proof fn lemma_all_data(v: Seq<Part>, i: int, h: Hashing)
    requires
        parts_sound(v, h),
        0 <= i < all_records(v, h).len(),
    ensures
        data_type(all_records(v, h)[i].kind),
    decreases v.len(),
{
    let before = all_records(v.drop_last(), h);
    lemma_sound_before(v, h);
    if i < before.len() {
        lemma_all_data(v.drop_last(), i, h);
    } else {
        let j = i - before.len();
        assert(all_records(v, h)[i] == records_of(v.last(), h)[j]);
    }
}

/// The records of a backup that hold no data are not too long.
pub(crate) proof fn lemma_control_fits(start: StartRecordModel, v: Seq<Part>, h: Hashing)
    requires
        parts_sound(v, h),
    ensures
        start_bytes(start).len() <= MAX_RECORD,
        forall|i: int|
            0 <= i < pages_for(v, h).len() ==> (#[trigger] pages_for(v, h)[i]).len() <= MAX_RECORD,
        end_for(v, h).len() <= MAX_RECORD,
{
    reveal_strlit("type");
    lemma_text_most("type"@);
    assert(start_bytes(start).len() <= MAX_RECORD) by {
        reveal_strlit("manifest_start");
        reveal_strlit("v");
        reveal_strlit("backup_id");
        reveal_strlit("snapshot_id");
        reveal_strlit("created_at");
        reveal_strlit("outer_sha256");
        reveal_strlit("source_vault");
        reveal_strlit("content_frontier");
        reveal_strlit("authority_checkpoint_ref");
        reveal_strlit("scope");
        reveal_strlit("full");
        lemma_head_most(MAP, 10);
        lemma_text_most("manifest_start"@);
        lemma_text_most("v"@);
        lemma_head_most(UNSIGNED, 1);
        lemma_text_most("backup_id"@);
        lemma_bytes_most(start.backup_id@);
        lemma_text_most("snapshot_id"@);
        lemma_bytes_most(start.snapshot_id@);
        lemma_text_most("created_at"@);
        lemma_int_most(start.created_at);
        lemma_text_most("outer_sha256"@);
        lemma_bytes_most(start.outer_sha256@);
        lemma_text_most("source_vault"@);
        lemma_bytes_most(start.source_vault@);
        lemma_text_most("content_frontier"@);
        lemma_bytes_most(start.content_frontier@);
        lemma_text_most("authority_checkpoint_ref"@);
        lemma_bytes_most(start.authority_checkpoint_ref@);
        lemma_text_most("scope"@);
        lemma_text_most("full"@);
    }
    let inventory = inventory_of(all_records(v, h), h);
    assert forall|i: int| 0 <= i < pages_for(v, h).len() implies (#[trigger] pages_for(
        v,
        h,
    )[i]).len() <= MAX_RECORD by {
        let entries = page_entries(inventory, i);
        assert(i * INVENTORY_PAGE < inventory.len());
        assert forall|j: int| 0 <= j < entries.len() implies data_type(
            (#[trigger] entries[j]).kind,
        ) by {
            let at = i * INVENTORY_PAGE + j;
            lemma_all_data(v, at, h);
            assert(entries[j] == inventory[at]);
        }
        lemma_entries_most(entries);
        reveal_strlit("inventory_page");
        reveal_strlit("index");
        reveal_strlit("entries");
        lemma_head_most(MAP, 3);
        lemma_text_most("inventory_page"@);
        lemma_text_most("index"@);
        lemma_head_most(UNSIGNED, i as u64);
        lemma_text_most("entries"@);
        lemma_head_most(ARRAY, entries.len() as u64);
    }
    assert(end_for(v, h).len() <= MAX_RECORD) by {
        let s = written(v, h)->0;
        reveal_strlit("manifest_end");
        reveal_strlit("record_count");
        reveal_strlit("attachment_count");
        reveal_strlit("logical_bytes");
        reveal_strlit("inventory_pages_sha256");
        reveal_strlit("attachment_bytes");
        lemma_head_most(MAP, 6);
        lemma_text_most("manifest_end"@);
        lemma_text_most("record_count"@);
        lemma_head_most(UNSIGNED, s.records);
        lemma_text_most("attachment_count"@);
        lemma_head_most(UNSIGNED, s.attachments);
        lemma_text_most("logical_bytes"@);
        lemma_head_most(UNSIGNED, s.logical_bytes);
        lemma_text_most("inventory_pages_sha256"@);
        lemma_bytes_most(pages_digest(v, h)@);
        lemma_text_most("attachment_bytes"@);
        lemma_head_most(UNSIGNED, s.attachment_bytes);
    }
}

/// What is written of the whole contents of a vault is verified, with the
/// summary of what was written.
#[verifier::rlimit(40)]
pub proof fn lemma_backup_verified(start: StartRecordModel, v: Seq<Part>, h: Hashing)
    requires
        contents_whole(v, h),
    ensures
        ({
            let m = fresh(start.backup_id, start.source_vault, start.outer_sha256);
            let r = all_read(m, backup_read_as(start, v, h));
            &&& r is Ok
            &&& finished(r->Ok_0) == Ok::<_, HumanCommitError>(
                summarized(written(v, h)->0, start.backup_id, start.source_vault),
            )
        }),
{
    lemma_control_fits(start, v, h);
    let m = fresh(start.backup_id, start.source_vault, start.outer_sha256);
    let begun = VerifierModel { start_seen: true, ..m };
    let first = control_read_as(start_bytes(start), h.other, h);
    let data = all_read_as(all_records(v, h), h);
    let pages = pages_read_as(v, h);
    let end = end_for(v, h);
    let last = control_read_as(end, pages_digest(v, h), h);
    let inventory = inventory_of(all_records(v, h), h);
    let count = pages_for(v, h).len();
    lemma_start(
        start,
        start.backup_id,
        start.source_vault,
        start.outer_sha256,
        first.digests,
    );
    lemma_read_one(m, first);
    let none = after_parts(begun, Seq::empty(), h);
    assert(inventory_of(all_records(Seq::empty(), h), h) =~= Seq::empty());
    assert(none == begun);
    lemma_parts(begun, v, h);
    let n = all_read(begun, data)->Ok_0;
    let s = after_parts(begun, v, h);
    lemma_read_on(m, seq![first], data);
    lemma_read_on(m, seq![first] + data, pages);
    lemma_read_on(m, seq![first] + data + pages, seq![last]);
    lemma_graph(begun, v, h);
    lemma_written_records(v, h);
    lemma_written_backup(s, inventory, pages_digest(v, h), last.digests);
    let listed = after_records(s, pages_for(v, h), count, last.digests);
    let t = text_item("record_count"@) + (uint_item(s.state.records) + (text_item(
        "attachment_count"@,
    ) + (uint_item(s.state.attachments) + (text_item("logical_bytes"@) + (uint_item(
        s.state.logical_bytes,
    ) + (text_item("inventory_pages_sha256"@) + (bytes_item(pages_digest(v, h)@) + (text_item(
        "attachment_bytes"@,
    ) + (uint_item(s.state.attachment_bytes) + Seq::<u8>::empty())))))))));
    assert(end == map_head(6) + (text_item("type"@) + (text_item("manifest_end"@) + t)));
    lemma_type(6, "manifest_end"@, t);
    if count == 0 {
        assert(pages =~= Seq::empty());
        assert(all_read(n, pages) == Ok::<_, HumanCommitError>(n));
        lemma_read_one(n, last);
        lemma_end_read(n, s, end, last.digests, last.digests);
    } else {
        assert(pages.take(count as int) =~= pages);
        lemma_pages_read(n, s, v, count, last.digests, h);
        lemma_read_one(listed->Ok_0, last);
    }
}

} // verus!

//! A backup as a stream of bytes: what is written is read back, whole or in pieces.
use crate::backup::{cut, joined, lemma_cut, summarized, SummaryModel};
use crate::backup_contents::{
    all_records, bytes_of, contents_whole, parts_sound, read_as, records_of, written, Hashing,
    Part,
};
use crate::backup_format::{frame_at, framed, lemma_frame, StartRecordModel, MAX_RECORD};
use crate::backup_verify::{
    all_read, consumed, finished, fresh, lemma_complete, RecordDigests, StreamRecord,
    VerifierModel,
};
use crate::backup_written::{
    backup_read_as, framed_all, lemma_backup_verified, lemma_control_fits, lemma_read_on,
    lemma_read_one, lemma_sound_before, pages_for,
};
use crate::bytes::number32;
use crate::cbor::{lemma_head_len, lemma_regroup, MAP};
use crate::errors::HumanCommitError;
use vstd::prelude::*;

verus! {

/// What a stream of bytes is verified as: its records are read as long as they
/// are complete, each with its digests, and then it must be finished.
pub open spec fn stream_verified(
    m: VerifierModel,
    b: Seq<u8>,
    digests: Seq<RecordDigests>,
) -> Result<SummaryModel, HumanCommitError>
    decreases b.len(),
{
    match frame_at(b) {
        Ok(Some((record, rest))) => match consumed(m, record, digests[0]) {
            Ok(n) => stream_verified(n, rest, digests.skip(1)),
            Err(e) => Err(e),
        },
        Ok(None) => finished(VerifierModel { input: b, ..m }),
        Err(e) => Err(e),
    }
}

/// The bytes of records.
pub open spec fn stream_bytes(v: Seq<StreamRecord>) -> Seq<u8> {
    framed_all(Seq::new(v.len(), |i: int| v[i].bytes))
}

/// The digests of records.
pub open spec fn stream_digests(v: Seq<StreamRecord>) -> Seq<RecordDigests> {
    Seq::new(v.len(), |i: int| v[i].digests)
}

/// Whether records can be framed.
pub open spec fn can_frame(v: Seq<StreamRecord>) -> bool {
    forall|i: int| 0 <= i < v.len() ==> 0 < (#[trigger] v[i]).bytes.len() <= MAX_RECORD
}

/// The frame of the first record stands before those of the others.
proof fn lemma_stream_first(v: Seq<StreamRecord>)
    requires
        v.len() > 0,
        can_frame(v),
    ensures
        stream_bytes(v) == framed(v[0].bytes) + stream_bytes(v.skip(1)),
        stream_digests(v).skip(1) == stream_digests(v.skip(1)),
        stream_digests(v)[0] == v[0].digests,
        can_frame(v.skip(1)),
{
    let all = Seq::new(v.len(), |i: int| v[i].bytes);
    let rest = v.skip(1);
    assert(all.skip(1) =~= Seq::new(rest.len(), |i: int| rest[i].bytes));
    assert(stream_digests(v).skip(1) =~= stream_digests(rest));
    assert forall|i: int| 0 <= i < rest.len() implies 0 < (#[trigger] rest[i]).bytes.len()
        <= MAX_RECORD by {
        assert(rest[i] == v[i + 1]);
    }
}

/// Reading the first record, then the others.
proof fn lemma_read_first(m: VerifierModel, v: Seq<StreamRecord>)
    requires
        v.len() > 0,
    ensures
        all_read(m, v) == (match consumed(m, v[0].bytes, v[0].digests) {
            Ok(n) => all_read(n, v.skip(1)),
            Err(e) => Err(e),
        }),
{
    assert(v =~= seq![v[0]] + v.skip(1));
    lemma_read_on(m, seq![v[0]], v.skip(1));
    lemma_read_one(m, v[0]);
}

/// The records of a stream are read before what follows them.
proof fn lemma_stream_read(
    m: VerifierModel,
    v: Seq<StreamRecord>,
    t: Seq<u8>,
    more: Seq<RecordDigests>,
)
    requires
        can_frame(v),
    ensures
        stream_verified(m, stream_bytes(v) + t, stream_digests(v) + more) == (match all_read(m, v) {
            Ok(n) => stream_verified(n, t, more),
            Err(e) => Err(e),
        }),
    decreases v.len(),
{
    if v.len() == 0 {
        assert(stream_bytes(v) + t =~= t);
        assert(stream_digests(v) + more =~= more);
    } else {
        let rest = v.skip(1);
        lemma_stream_first(v);
        lemma_read_first(m, v);
        lemma_regroup(framed(v[0].bytes), stream_bytes(rest), t);
        lemma_frame(v[0].bytes, stream_bytes(rest) + t);
        assert((stream_digests(v) + more).skip(1) =~= stream_digests(rest) + more);
        match consumed(m, v[0].bytes, v[0].digests) {
            Ok(n) => lemma_stream_read(n, rest, t, more),
            Err(_) => {},
        }
    }
}

/// Reading the first record, then some of the others.
proof fn lemma_read_first_of(m: VerifierModel, v: Seq<StreamRecord>, k: int)
    requires
        0 < k <= v.len(),
        consumed(m, v[0].bytes, v[0].digests) is Ok,
    ensures
        all_read(m, v.take(k)) == all_read(
            consumed(m, v[0].bytes, v[0].digests)->Ok_0,
            v.skip(1).take(k - 1),
        ),
{
    lemma_read_first(m, v.take(k));
    assert(v.take(k).skip(1) =~= v.skip(1).take(k - 1));
}

/// A record that is cut off is not complete.
proof fn lemma_frame_cut(record: Seq<u8>, k: int)
    requires
        0 < record.len() <= MAX_RECORD,
        0 <= k < framed(record).len(),
    ensures
        frame_at(framed(record).take(k)) == Ok::<Option<(Seq<u8>, Seq<u8>)>, HumanCommitError>(
            None,
        ),
{
    let f = framed(record);
    lemma_frame(record, Seq::empty());
    assert(f + Seq::<u8>::empty() =~= f);
    if k >= 4 {
        assert(f.take(k).take(4) =~= f.take(4));
        assert(number32(f.take(k)) == number32(f));
    }
}

/// A stream that is cut off is not accepted, where only its last record ends
/// the backup.
#[verifier::rlimit(40)]
proof fn lemma_stream_cut(
    m: VerifierModel,
    v: Seq<StreamRecord>,
    k: int,
    more: Seq<RecordDigests>,
)
    requires
        can_frame(v),
        0 <= k < stream_bytes(v).len(),
        all_read(m, v) is Ok,
        forall|j: int|
            0 <= j < v.len() ==> !(#[trigger] all_read(m, v.take(j))->Ok_0).end_seen,
    ensures
        stream_verified(m, stream_bytes(v).take(k), stream_digests(v) + more) is Err,
    decreases v.len(),
{
    if v.len() > 0 {
        let rest = v.skip(1);
        let f = framed(v[0].bytes);
        let b = stream_bytes(v).take(k);
        lemma_stream_first(v);
        lemma_read_first(m, v);
        assert(v.take(0) =~= Seq::empty());
        assert(!(all_read(m, v.take(0))->Ok_0).end_seen);
        if k < f.len() {
            assert(b =~= f.take(k));
            lemma_frame_cut(v[0].bytes, k);
        } else {
            let n = consumed(m, v[0].bytes, v[0].digests)->Ok_0;
            let cut = stream_bytes(rest).take(k - f.len());
            assert(b =~= f + cut);
            lemma_frame(v[0].bytes, cut);
            assert forall|j: int| 0 <= j < rest.len() implies !(#[trigger] all_read(
                n,
                rest.take(j),
            )->Ok_0).end_seen by {
                lemma_read_first_of(m, v, j + 1);
                assert(!(all_read(m, v.take(j + 1))->Ok_0).end_seen);
            }
            assert((stream_digests(v) + more).skip(1) =~= stream_digests(rest) + more);
            lemma_stream_cut(n, rest, k - f.len(), more);
        }
    }
}

/// No record of parts is too long.
proof fn lemma_all_fit(v: Seq<Part>, i: int, h: Hashing)
    requires
        parts_sound(v, h),
        0 <= i < all_records(v, h).len(),
    ensures
        0 < bytes_of(all_records(v, h)[i]).len() <= MAX_RECORD,
    decreases v.len(),
{
    let before = all_records(v.drop_last(), h);
    lemma_sound_before(v, h);
    if i < before.len() {
        lemma_all_fit(v.drop_last(), i, h);
    } else {
        let j = i - before.len();
        assert(all_records(v, h)[i] == records_of(v.last(), h)[j]);
        lemma_head_len(MAP, 3);
    }
}

/// The records of a backup can be framed.
proof fn lemma_backup_frames(start: StartRecordModel, v: Seq<Part>, h: Hashing)
    requires
        parts_sound(v, h),
    ensures
        can_frame(backup_read_as(start, v, h)),
{
    let all = backup_read_as(start, v, h);
    let records = all_records(v, h);
    let pages = pages_for(v, h);
    lemma_control_fits(start, v, h);
    lemma_head_len(MAP, 3);
    lemma_head_len(MAP, 6);
    lemma_head_len(MAP, 10);
    assert forall|i: int| 0 <= i < all.len() implies 0 < (#[trigger] all[i]).bytes.len()
        <= MAX_RECORD by {
        if 1 <= i <= records.len() {
            assert(all[i] == read_as(records[i - 1], h));
            lemma_all_fit(v, i - 1, h);
        } else if records.len() < i <= records.len() + pages.len() {
            let at = i - 1 - records.len();
            assert(all[i].bytes == pages[at]);
        }
    }
}

/// Records that are read leave no bytes behind.
proof fn lemma_input_stays(m: VerifierModel, v: Seq<StreamRecord>)
    requires
        all_read(m, v) is Ok,
    ensures
        (all_read(m, v)->Ok_0).input == m.input,
    decreases v.len(),
{
    if v.len() > 0 {
        lemma_input_stays(m, v.drop_last());
    }
}

/// What is written of the whole contents of a vault is verified as a stream of
/// bytes, with the summary of what was written. It is not accepted where bytes
/// are missing at its end, nor where bytes follow it.
#[verifier::rlimit(40)]
pub proof fn lemma_stream_verified(
    start: StartRecordModel,
    v: Seq<Part>,
    h: Hashing,
    more: Seq<RecordDigests>,
)
    requires
        contents_whole(v, h),
    ensures
        ({
            let m = fresh(start.backup_id, start.source_vault, start.outer_sha256);
            let records = backup_read_as(start, v, h);
            let b = stream_bytes(records);
            let digests = stream_digests(records) + more;
            &&& stream_verified(m, b, digests) == Ok::<_, HumanCommitError>(
                summarized(written(v, h)->0, start.backup_id, start.source_vault),
            )
            &&& forall|k: int|
                0 <= k < b.len() ==> stream_verified(m, #[trigger] b.take(k), digests) is Err
            &&& forall|t: Seq<u8>|
                t.len() > 0 ==> stream_verified(m, #[trigger] (b + t), digests) is Err
        }),
{
    let m = fresh(start.backup_id, start.source_vault, start.outer_sha256);
    let records = backup_read_as(start, v, h);
    let b = stream_bytes(records);
    let digests = stream_digests(records) + more;
    let none = Seq::<u8>::empty();
    lemma_backup_verified(start, v, h);
    lemma_backup_frames(start, v, h);
    let last = all_read(m, records)->Ok_0;
    lemma_stream_read(m, records, none, more);
    assert(b + none =~= b);
    lemma_input_stays(m, records);
    assert(frame_at(none) == Ok::<Option<(Seq<u8>, Seq<u8>)>, HumanCommitError>(None));
    assert(VerifierModel { input: none, ..last } == last);
    lemma_complete(m, records, records[0]);
    assert forall|k: int| 0 <= k < b.len() implies stream_verified(
        m,
        #[trigger] b.take(k),
        digests,
    ) is Err by {
        lemma_stream_cut(m, records, k, more);
    }
    assert forall|t: Seq<u8>| t.len() > 0 implies stream_verified(
        m,
        #[trigger] (b + t),
        digests,
    ) is Err by {
        lemma_stream_read(m, records, t, more);
        match frame_at(t) {
            Ok(Some((record, _))) => {
                let next = StreamRecord { bytes: record, digests: more[0] };
                lemma_complete(m, records, next);
                assert(records.push(next).drop_last() =~= records);
            },
            _ => {},
        }
    }
}

/// A verifier that has taken all complete records off its input, and the digests
/// of the records that are yet to come.
pub open spec fn drained(m: VerifierModel, digests: Seq<RecordDigests>) -> Result<
    (VerifierModel, Seq<RecordDigests>),
    HumanCommitError,
>
    decreases m.input.len(),
{
    match frame_at(m.input) {
        Ok(Some((record, rest))) => match consumed(
            VerifierModel { input: rest, ..m },
            record,
            digests[0],
        ) {
            Ok(n) => {
                proof {
                    lemma_input_apart(
                        VerifierModel { input: rest, ..m },
                        rest,
                        record,
                        digests[0],
                    );
                }
                drained(n, digests.skip(1))
            },
            Err(e) => Err(e),
        },
        Ok(None) => Ok((m, digests)),
        Err(e) => Err(e),
    }
}

/// What a stream that comes in pieces is verified as: after each piece the
/// complete records are taken, and no piece may follow the last record.
pub open spec fn pieces_verified(
    m: VerifierModel,
    pieces: Seq<Seq<u8>>,
    digests: Seq<RecordDigests>,
) -> Result<SummaryModel, HumanCommitError>
    decreases pieces.len(),
{
    if pieces.len() == 0 {
        finished(m)
    } else if m.end_seen && pieces[0].len() > 0 {
        Err(HumanCommitError::InvalidInput)
    } else {
        match drained(VerifierModel { input: m.input + pieces[0], ..m }, digests) {
            Ok((n, left)) => pieces_verified(n, pieces.skip(1), left),
            Err(e) => Err(e),
        }
    }
}

/// A verifier that keeps no input.
pub open spec fn without_input(m: VerifierModel) -> VerifierModel {
    VerifierModel { input: Seq::empty(), ..m }
}

/// What follows a record is not looked at while it is read.
pub proof fn lemma_input_apart(m: VerifierModel, input: Seq<u8>, b: Seq<u8>, d: RecordDigests)
    ensures
        consumed(VerifierModel { input, ..m }, b, d) == (match consumed(m, b, d) {
            Ok(n) => Ok(VerifierModel { input, ..n }),
            Err(e) => Err(e),
        }),
        consumed(m, b, d) matches Ok(n) ==> n.input == m.input,
{
}

/// What follows a complete record, or a wrong length, does not matter.
proof fn lemma_frame_before(b: Seq<u8>, t: Seq<u8>)
    ensures
        match frame_at(b) {
            Ok(Some((record, rest))) => frame_at(b + t) == Ok::<_, HumanCommitError>(
                Some((record, rest + t)),
            ) && rest.len() < b.len(),
            Ok(None) => true,
            Err(e) => frame_at(b + t) is Err,
        },
{
    if b.len() >= 4 {
        let n = number32(b);
        assert((b + t).take(4) =~= b.take(4));
        assert(number32(b + t) == n);
        if b.len() >= 4 + n {
            assert((b + t).subrange(4, 4 + n) =~= b.subrange(4, 4 + n));
            assert((b + t).skip(4 + n) =~= b.skip(4 + n) + t);
        }
    }
}

/// No record is read behind the last one.
proof fn lemma_nothing_follows(m: VerifierModel, b: Seq<u8>, digests: Seq<RecordDigests>)
    requires
        m.start_seen,
        m.end_seen,
        b.len() > 0,
    ensures
        stream_verified(m, b, digests) is Err,
{
}

/// Taking the complete records first does not change what a stream is verified
/// as.
#[verifier::rlimit(40)]
proof fn lemma_drained(m: VerifierModel, t: Seq<u8>, digests: Seq<RecordDigests>)
    requires
        m.end_seen ==> m.start_seen,
    ensures
        match drained(m, digests) {
            Ok((n, left)) => {
                &&& stream_verified(without_input(m), m.input + t, digests) == stream_verified(
                    without_input(n),
                    n.input + t,
                    left,
                )
                &&& frame_at(n.input) == Ok::<Option<(Seq<u8>, Seq<u8>)>, HumanCommitError>(None)
                &&& n.end_seen ==> n.start_seen
            },
            Err(_) => stream_verified(without_input(m), m.input + t, digests) is Err,
        },
    decreases m.input.len(),
{
    lemma_frame_before(m.input, t);
    match frame_at(m.input) {
        Ok(Some((record, rest))) => {
            lemma_input_apart(without_input(m), rest, record, digests[0]);
            lemma_input_apart(VerifierModel { input: rest, ..m }, rest, record, digests[0]);
            match consumed(VerifierModel { input: rest, ..m }, record, digests[0]) {
                Ok(n) => {
                    assert(n.input == rest);
                    assert(consumed(without_input(m), record, digests[0])
                        == Ok::<VerifierModel, HumanCommitError>(without_input(n)));
                    lemma_drained(n, t, digests.skip(1));
                },
                Err(_) => {},
            }
        },
        _ => {},
    }
}

/// A stream is accepted in pieces where it is accepted as a whole, with the
/// same summary, and nowhere else.
pub proof fn lemma_pieces(m: VerifierModel, pieces: Seq<Seq<u8>>, digests: Seq<RecordDigests>)
    requires
        m.end_seen ==> m.start_seen,
        frame_at(m.input) == Ok::<Option<(Seq<u8>, Seq<u8>)>, HumanCommitError>(None),
    ensures
        match stream_verified(without_input(m), m.input + joined(pieces), digests) {
            Ok(s) => pieces_verified(m, pieces, digests) == Ok::<_, HumanCommitError>(s),
            Err(_) => pieces_verified(m, pieces, digests) is Err,
        },
    decreases pieces.len(),
{
    if pieces.len() == 0 {
        assert(m.input + joined(pieces) =~= m.input);
        assert(VerifierModel { input: m.input, ..without_input(m) } == m);
    } else {
        let rest = joined(pieces.skip(1));
        let fed = VerifierModel { input: m.input + pieces[0], ..m };
        lemma_regroup(m.input, pieces[0], rest);
        if m.end_seen && pieces[0].len() > 0 {
            lemma_nothing_follows(without_input(m), m.input + joined(pieces), digests);
        } else {
            assert(without_input(fed) == without_input(m));
            lemma_drained(fed, rest, digests);
            match drained(fed, digests) {
                Ok((n, left)) => lemma_pieces(n, pieces.skip(1), left),
                Err(_) => {},
            }
        }
    }
}

/// What is written of the whole contents of a vault is verified in whatever
/// pieces it comes, with the summary of what was written. It is not accepted
/// where bytes are missing at its end, nor where bytes follow it.
pub proof fn lemma_pieces_verified(
    start: StartRecordModel,
    v: Seq<Part>,
    h: Hashing,
    pieces: Seq<Seq<u8>>,
    more: Seq<RecordDigests>,
)
    requires
        contents_whole(v, h),
    ensures
        ({
            let m = fresh(start.backup_id, start.source_vault, start.outer_sha256);
            let records = backup_read_as(start, v, h);
            let b = stream_bytes(records);
            let r = pieces_verified(m, pieces, stream_digests(records) + more);
            &&& joined(pieces) == b ==> r == Ok::<_, HumanCommitError>(
                summarized(written(v, h)->0, start.backup_id, start.source_vault),
            )
            &&& forall|k: int|
                0 <= k < b.len() && joined(pieces) == #[trigger] b.take(k) ==> r is Err
            &&& forall|t: Seq<u8>|
                t.len() > 0 && joined(pieces) == #[trigger] (b + t) ==> r is Err
        }),
{
    let m = fresh(start.backup_id, start.source_vault, start.outer_sha256);
    let digests = stream_digests(backup_read_as(start, v, h)) + more;
    lemma_stream_verified(start, v, h, more);
    lemma_pieces(m, pieces, digests);
    assert(m.input + joined(pieces) =~= joined(pieces));
    assert(without_input(m) == m);
}

/// What a writer has handed out after records, and what it keeps.
pub open spec fn writer_chunks(v: Seq<Seq<u8>>) -> (Seq<Seq<u8>>, Seq<u8>)
    decreases v.len(),
{
    if v.len() == 0 {
        (Seq::empty(), Seq::empty())
    } else {
        let (chunks, left) = writer_chunks(v.drop_last());
        let (more, rest) = cut(left + framed(v.last()));
        (chunks + more, rest)
    }
}

/// The bytes of two lists of chunks follow each other.
proof fn lemma_joined(a: Seq<Seq<u8>>, b: Seq<Seq<u8>>)
    ensures
        joined(a + b) == joined(a) + joined(b),
    decreases a.len(),
{
    if a.len() == 0 {
        assert(a + b =~= b);
        assert(joined(a) + joined(b) =~= joined(b));
    } else {
        assert((a + b).skip(1) =~= a.skip(1) + b);
        lemma_joined(a.skip(1), b);
        lemma_regroup(a[0], joined(a.skip(1)), joined(b));
    }
}

/// The frame of the last record stands behind those of the others.
proof fn lemma_framed_last(v: Seq<Seq<u8>>)
    requires
        v.len() > 0,
    ensures
        framed_all(v) == framed_all(v.drop_last()) + framed(v.last()),
    decreases v.len(),
{
    if v.len() == 1 {
        assert(v.skip(1) =~= Seq::empty());
        assert(v.drop_last() =~= Seq::empty());
        assert(framed(v[0]) + framed_all(Seq::empty()) =~= framed_all(Seq::empty()) + framed(v[0]));
    } else {
        let rest = v.skip(1);
        lemma_framed_last(rest);
        assert(rest.drop_last() =~= v.drop_last().skip(1));
        lemma_regroup(framed(v[0]), framed_all(rest.drop_last()), framed(v.last()));
    }
}

/// The chunks that a writer hands out and what it keeps at the end are the
/// frames of its records, without losing a byte.
pub proof fn lemma_writer_stream(v: Seq<Seq<u8>>)
    ensures
        joined(writer_chunks(v).0) + writer_chunks(v).1 == framed_all(v),
    decreases v.len(),
{
    if v.len() == 0 {
        assert(joined(writer_chunks(v).0) + writer_chunks(v).1 =~= framed_all(v));
    } else {
        let (chunks, left) = writer_chunks(v.drop_last());
        let frame = framed(v.last());
        let (more, rest) = cut(left + frame);
        lemma_writer_stream(v.drop_last());
        lemma_cut(left + frame);
        lemma_joined(chunks, more);
        lemma_framed_last(v);
        lemma_regroup(joined(chunks), joined(more), rest);
        lemma_regroup(joined(chunks), left, frame);
    }
}

} // verus!

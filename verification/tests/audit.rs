use pm_vault::audit::{
    check_complete, check_custody, check_head, check_purge, check_query, commit_event,
    decode_record, encode_record, encode_stored, frontier_of, interaction_event, next_record,
    purge_scope, purged_ranges, select_segment, sql_i64, AuditAction, AuditActorKind,
    AuditDiscontinuity, AuditEvent, AuditOutcome, AuditReader, AuditRecord, AuditRow, AuditState,
    OpenSegment, SegmentChoice, StoredRecord, MAX_SEGMENT_BYTES,
};
use pm_vault::audit_manifest::{
    decode_manifest_purges, encode_manifest, read_previous, read_segment, verify_manifest,
    Manifest, ManifestSegment, PreviousGeneration, SegmentRow,
};
use pm_vault::errors::HumanCommitError;
use std::collections::HashSet;

fn event() -> AuditEvent {
    AuditEvent::new(
        AuditActorKind::Agent,
        Some([1; 16]),
        AuditAction::AuthUse,
        AuditOutcome::Accepted,
    )
    .with_item([2; 16], Some([3; 16]))
    .with_attempt([4; 16])
}

fn record(seq: u64, previous: [u8; 32]) -> AuditRecord {
    AuditRecord {
        vault: [5; 16],
        device: [6; 16],
        generation: 1,
        seq,
        event_id: [7; 16],
        wall_time_us: -3,
        event: event(),
        frontier: [8; 32],
        previous_hash: previous,
    }
}

#[test]
fn names_are_stored_and_read() {
    assert_eq!(AuditActorKind::parse("custodian").unwrap(), AuditActorKind::Custodian);
    assert_eq!(AuditAction::parse("profile_fault").unwrap(), AuditAction::ProfileFault);
    assert_eq!(AuditAction::AuditPurge.name(), "audit_purge");
    assert_eq!(AuditOutcome::parse("denied").unwrap(), AuditOutcome::Denied);
    assert!(matches!(AuditAction::parse("sudo"), Err(HumanCommitError::InvalidCommand)));
    assert!(AuditActorKind::parse("").is_err());
    assert!(AuditOutcome::parse("ok").is_err());
}

#[test]
fn records_are_read_at_their_place_alone() {
    let bytes = encode_record(&record(4, [9; 32]));
    let read = |vault: u8, device: u8, generation, seq, previous| {
        decode_record(&bytes, &[vault; 16], &[device; 16], generation, seq, previous)
    };
    let view = read(5, 6, 1, 4, Some([9; 32])).unwrap();
    assert_eq!(view.seq(), 4);
    assert_eq!(view.actor_kind(), AuditActorKind::Agent);
    assert_eq!(view.actor_id(), Some(&[1; 16]));
    assert_eq!(view.action(), AuditAction::AuthUse);
    assert_eq!(view.outcome(), AuditOutcome::Accepted);
    assert_eq!(view.item_id(), Some(&[2; 16]));
    assert_eq!(view.revision_id(), Some(&[3; 16]));
    assert_eq!(view.attempt_id(), Some(&[4; 16]));
    assert!(read(5, 6, 1, 4, None).is_ok());
    for bad in [
        read(4, 6, 1, 4, None),
        read(5, 5, 1, 4, None),
        read(5, 6, 2, 4, None),
        read(5, 6, 1, 5, None),
        read(5, 6, 1, 4, Some([0; 32])),
    ] {
        assert!(matches!(bad, Err(HumanCommitError::Integrity)));
    }
    let mut longer = bytes.clone();
    longer.push(0);
    assert!(decode_record(&longer, &[5; 16], &[6; 16], 1, 4, None).is_err());
    let at = bytes.windows(8).position(|w| w == b"auth_use").unwrap();
    let mut renamed = bytes.clone();
    renamed[at] = b'x';
    assert!(matches!(
        decode_record(&renamed, &[5; 16], &[6; 16], 1, 4, None),
        Err(HumanCommitError::InvalidCommand)
    ));
}

#[test]
fn stored_records_are_hashed_with_their_signature() {
    let stored = StoredRecord { envelope: vec![1, 2], signature: [3; 64] };
    let mut expected = b"\xa2\x68envelope\x42\x01\x02\x69signature\x58\x40".to_vec();
    expected.extend([3; 64]);
    assert_eq!(encode_stored(&stored), expected);
}

#[test]
fn a_page_of_records_is_linked() {
    let mut reader = AuditReader::new([5; 16], [6; 16], 1);
    let row = |seq: i64, previous: [u8; 32], hash: [u8; 32], stored| AuditRow {
        seq,
        plaintext: encode_record(&record(seq as u64, previous)),
        record_hash: hash,
        computed_hash: hash,
        previous_hash: stored,
    };
    reader.read(&row(1, [0; 32], [11; 32], None)).unwrap();
    reader.read(&row(2, [11; 32], [12; 32], None)).unwrap();
    assert!(matches!(
        reader.read(&row(3, [99; 32], [13; 32], None)),
        Err(HumanCommitError::Integrity)
    ));
    let mut changed = row(3, [12; 32], [13; 32], None);
    changed.computed_hash = [14; 32];
    assert!(matches!(reader.read(&changed), Err(HumanCommitError::Integrity)));
    reader.read(&row(7, [20; 32], [17; 32], Some([20; 32]))).unwrap();
    assert!(reader.read(&row(9, [20; 32], [17; 32], Some([21; 32]))).is_err());
    reader.read(&row(9, [22; 32], [19; 32], None)).unwrap();
    let query = reader
        .finish(vec![AuditDiscontinuity::new(3, 6, [1; 16])], 2, 1)
        .unwrap();
    assert_eq!(query.records().len(), 4);
    assert_eq!(query.discontinuities()[0].last_seq(), 6);
    assert_eq!((query.segment_count(), query.closed_segment_count()), (2, 1));
    let reader = AuditReader::new([5; 16], [6; 16], 1);
    assert!(matches!(reader.finish(vec![], -1, 0), Err(HumanCommitError::Integrity)));
}

#[test]
fn records_are_numbered_within_a_generation() {
    let state = |generation, seq, hash: Vec<u8>| {
        Some(AuditState { generation, seq, last_hash: hash })
    };
    assert_eq!(next_record(&None, 1).unwrap(), (1, [0; 32]));
    assert_eq!(next_record(&state(1, 4, vec![9; 32]), 1).unwrap(), (5, [9; 32]));
    assert_eq!(next_record(&state(1, 4, vec![9; 32]), 2).unwrap(), (1, [0; 32]));
    assert!(matches!(
        next_record(&state(1, 4, vec![9; 31]), 1),
        Err(HumanCommitError::Integrity)
    ));
    assert!(matches!(
        next_record(&state(1, i64::MAX, vec![9; 32]), 1),
        Err(HumanCommitError::InvalidCommand)
    ));
    assert!(matches!(
        next_record(&state(1, -5, vec![9; 32]), 1),
        Err(HumanCommitError::InvalidCommand)
    ));
    assert!(matches!(
        next_record(&state(1, 4, vec![9; 32]), u64::MAX),
        Err(HumanCommitError::InvalidCommand)
    ));
}

#[test]
fn segments_are_continued_while_they_have_room() {
    let open = |count, bytes| {
        Some(OpenSegment { segment_id: vec![1; 16], record_count: count, stored_bytes: bytes })
    };
    let newest = Some((7i64, vec![9u8; 32]));
    assert!(matches!(
        select_segment(open(255, 0), 10, &newest),
        Ok(SegmentChoice::Continue(id)) if id == [1; 16]
    ));
    assert!(matches!(
        select_segment(open(1, MAX_SEGMENT_BYTES - 10), 10, &newest),
        Ok(SegmentChoice::Continue(_))
    ));
    for full in [open(256, 0), open(1, MAX_SEGMENT_BYTES - 9)] {
        match select_segment(full, 10, &newest) {
            Ok(SegmentChoice::Start { close, first_seq, previous_hash }) => {
                assert_eq!(close, Some(vec![1; 16]));
                assert_eq!(first_seq, 8);
                assert_eq!(previous_hash, [9; 32]);
            }
            _ => panic!("a full segment is closed"),
        }
    }
    match select_segment(None, 10, &None) {
        Ok(SegmentChoice::Start { close, first_seq, previous_hash }) => {
            assert_eq!((close, first_seq, previous_hash), (None, 1, [0; 32]));
        }
        _ => panic!("the first segment is started"),
    }
    assert!(matches!(
        select_segment(None, 10, &Some((i64::MAX, vec![9; 32]))),
        Err(HumanCommitError::InvalidCommand)
    ));
    assert!(matches!(
        select_segment(None, 10, &Some((1, vec![9; 31]))),
        Err(HumanCommitError::Integrity)
    ));
}

#[test]
fn purges_leave_the_newest_record_and_account_for_the_rest() {
    assert!(check_purge(4, Some(5)).is_ok());
    for (through, head) in [(0, Some(5)), (5, Some(5)), (4, None), (1, Some(-1))] {
        assert!(matches!(check_purge(through, head), Err(HumanCommitError::InvalidInput)));
    }
    let scope = purge_scope(4, Some(5), 3).unwrap();
    assert_eq!((scope.first_seq(), scope.last_seq(), scope.record_count()), (1, 4, 3));
    assert!(matches!(purge_scope(4, Some(5), 0), Err(HumanCommitError::InvalidInput)));
    let gaps = purged_ranges(vec![AuditDiscontinuity::new(1, 3, [1; 16])], 4, [2; 16]);
    assert_eq!(gaps, vec![AuditDiscontinuity::new(1, 4, [2; 16])]);
    let gaps = purged_ranges(vec![AuditDiscontinuity::new(1, 9, [1; 16])], 4, [2; 16]);
    assert_eq!(gaps.len(), 2);
    assert_eq!(gaps[1].purge_event_id(), &[2; 16]);
    let present: HashSet<u64> = [1, 2, 3, 4, 5].into_iter().collect();
    assert!(check_complete(5, &present, &vec![]).is_ok());
    let left: HashSet<u64> = [5].into_iter().collect();
    assert!(matches!(check_complete(5, &left, &vec![]), Err(HumanCommitError::Integrity)));
    assert!(check_complete(5, &left, &purged_ranges(vec![], 4, [2; 16])).is_ok());
    assert!(check_complete(6, &left, &purged_ranges(vec![], 4, [2; 16])).is_err());
    assert!(check_complete(0, &HashSet::new(), &vec![]).is_ok());
}

#[test]
fn queries_are_bounded_and_end_where_the_state_says() {
    assert!(check_query(1, 4096).is_ok());
    for (from, limit) in [(0, 1), (1, 0), (1, 4097)] {
        assert!(matches!(check_query(from, limit), Err(HumanCommitError::InvalidInput)));
    }
    let head = |seq: i64| Some((seq, vec![9u8; 32]));
    assert_eq!(check_head(head(5), 1, 1, None, &head(5)).unwrap(), 5);
    assert_eq!(check_head(None, 1, 2, head(4), &head(4)).unwrap(), 4);
    assert!(matches!(
        check_head(None, 2, 2, head(4), &head(4)),
        Err(HumanCommitError::Integrity)
    ));
    assert!(check_head(head(5), 1, 1, None, &head(4)).is_err());
    assert!(check_head(head(5), 1, 1, None, &Some((5, vec![8; 32]))).is_err());
    assert!(check_head(head(5), 1, 1, None, &None).is_err());
    assert_eq!(sql_i64(5).unwrap(), 5);
    assert!(matches!(sql_i64(u64::MAX), Err(HumanCommitError::InvalidInput)));
}

#[test]
fn custody_and_frontier_are_checked() {
    assert!(check_custody(&[1; 32], &[2; 32], &[1; 32], &[2; 32]).is_ok());
    assert!(matches!(
        check_custody(&[1; 31], &[2; 32], &[1; 32], &[2; 32]),
        Err(HumanCommitError::AuditKeyUnavailable)
    ));
    assert_eq!(frontier_of(None).unwrap(), [0; 32]);
    assert_eq!(frontier_of(Some(&[3; 32])).unwrap(), [3; 32]);
    assert!(matches!(frontier_of(Some(&[3; 31])), Err(HumanCommitError::Integrity)));
}

#[test]
fn interactions_are_human_ones() {
    assert!(interaction_event(AuditAction::Reveal, Some([1; 16])).is_ok());
    assert!(interaction_event(AuditAction::HumanUnlock, None).is_ok());
    assert!(interaction_event(AuditAction::Copy, None).is_ok());
    assert!(matches!(
        interaction_event(AuditAction::Export, None),
        Err(HumanCommitError::InvalidInput)
    ));
    let mut r = record(1, [0; 32]);
    r.event = commit_event(true, [2; 16], None);
    let view = decode_record(&encode_record(&r), &[5; 16], &[6; 16], 1, 1, None).unwrap();
    assert_eq!(view.action(), AuditAction::AuthorityChange);
    assert_eq!(view.actor_id(), None);
    r.event = commit_event(false, [2; 16], Some([3; 16]));
    let view = decode_record(&encode_record(&r), &[5; 16], &[6; 16], 1, 1, None).unwrap();
    assert_eq!(view.action(), AuditAction::ItemChange);
    assert_eq!(view.revision_id(), Some(&[3; 16]));
}

fn manifest() -> Manifest {
    Manifest {
        device: [1; 16],
        generation: 3,
        previous_generation: Some(PreviousGeneration { generation: 2, last_hash: vec![4; 32] }),
        segments: vec![ManifestSegment {
            segment_id: vec![5; 16],
            first_seq: 1,
            last_seq: 2,
            previous_hash: vec![0; 32],
            last_hash: vec![6; 32],
            record_hashes: vec![vec![7; 32], vec![6; 32]],
        }],
        purges: vec![AuditDiscontinuity::new(1, 4, [2; 16])],
    }
}

#[test]
fn a_manifest_lists_the_purged_ranges() {
    let m = manifest();
    let bytes = encode_manifest(&m);
    assert_eq!(decode_manifest_purges(&bytes, &[1; 16], 3).unwrap(), m.purges);
    assert_eq!(verify_manifest(&bytes, &m).unwrap(), m.purges);
    assert!(matches!(
        decode_manifest_purges(&bytes, &[2; 16], 3),
        Err(HumanCommitError::Integrity)
    ));
    assert!(decode_manifest_purges(&bytes, &[1; 16], 4).is_err());
    for end in 0..bytes.len() {
        assert!(decode_manifest_purges(&bytes[..end], &[1; 16], 3).is_err());
    }
    let mut other = manifest();
    other.purges = vec![];
    assert!(matches!(verify_manifest(&bytes, &other), Err(HumanCommitError::Integrity)));
    let mut later = manifest();
    later.previous_generation =
        Some(PreviousGeneration { generation: 3, last_hash: vec![4; 32] });
    let bytes = encode_manifest(&later);
    assert!(matches!(verify_manifest(&bytes, &later), Err(HumanCommitError::Integrity)));
    let mut first = manifest();
    first.previous_generation = None;
    let bytes = encode_manifest(&first);
    assert!(verify_manifest(&bytes, &first).is_ok());
}

#[test]
fn manifest_rows_have_no_negative_numbers() {
    let row = |first, last| SegmentRow {
        segment_id: vec![5; 16],
        first_seq: first,
        last_seq: last,
        previous_hash: vec![0; 32],
        last_hash: vec![6; 32],
        record_hashes: vec![],
    };
    assert_eq!(read_segment(row(1, 2)).unwrap().last_seq, 2);
    assert!(matches!(read_segment(row(-1, 2)), Err(HumanCommitError::Integrity)));
    assert!(read_segment(row(1, -2)).is_err());
    assert!(read_previous(None).unwrap().is_none());
    assert_eq!(read_previous(Some((2, vec![1]))).unwrap().unwrap().generation, 2);
    assert!(matches!(read_previous(Some((-2, vec![1]))), Err(HumanCommitError::Integrity)));
}

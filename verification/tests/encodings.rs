use pm_vault::backup::backup_frontier;
use pm_vault::backup_format::{
    encode_identity, encode_imported_audit, encode_organization, encode_partial_item,
    encode_partial_revision,
};
use pm_vault::content::{HumanMetadata, LogicalRecord, RecordKind};
use pm_vault::errors::HumanCommitError;
use pm_vault::export::check_exported;
use pm_vault::import::{package_matches, ImportItem};
use pm_vault::prepare::rotation_body;
use pm_vault::staging::{
    stream_chunk, stream_header, stream_start, validate_staged, Staged, StagedFacts,
};

fn text(s: &str) -> Vec<u8> {
    let mut out = vec![0x60 + s.len() as u8];
    if s.len() > 23 {
        out = vec![0x78, s.len() as u8];
    }
    out.extend(s.as_bytes());
    out
}

fn bytes(b: &[u8]) -> Vec<u8> {
    let mut out = vec![0x40 + b.len() as u8];
    if b.len() > 23 {
        out = vec![0x58, b.len() as u8];
    }
    out.extend(b);
    out
}

#[test]
fn partial_history_has_fixed_bytes() {
    let expected = [
        vec![0x84],
        text("purged_revision"),
        bytes(&[1; 16]),
        bytes(&[2; 16]),
        bytes(&[3; 32]),
    ]
    .concat();
    assert_eq!(encode_partial_revision(&[1; 16], &[2; 16], &[3; 32]), expected);
    let expected = [
        vec![0x86],
        text("purged_item"),
        bytes(&[1; 16]),
        bytes(&[3; 32]),
        vec![4, 5, 0x18, 60],
    ]
    .concat();
    assert_eq!(encode_partial_item(&[1; 16], &[3; 32], 4, 5, 60), expected);
}

#[test]
fn identities_have_fixed_bytes() {
    let expected =
        [vec![0x85], text("agent"), text("label"), bytes(&[7; 3]), text("active"), vec![2]].concat();
    assert_eq!(encode_identity("agent", "label", &[7; 3], "active", 2), expected);
}

#[test]
fn imported_audit_has_fixed_bytes() {
    let expected = [
        vec![0x83],
        text("pm/imported-audit-bundle/v1"),
        bytes(&[1, 2]),
        bytes(&[3]),
    ]
    .concat();
    assert_eq!(encode_imported_audit(&[1, 2], &[3]), expected);
}

#[test]
fn organizations_have_fixed_bytes() {
    let expected =
        [vec![0x82], text("work"), vec![0x82], bytes(&[1; 16]), bytes(&[2; 16])].concat();
    assert_eq!(encode_organization("work", &vec![[1; 16], [2; 16]]), expected);
}

#[test]
fn frontiers_are_digests_or_zero() {
    assert_eq!(backup_frontier(Some(&[4; 32])), [4; 32]);
    assert_eq!(backup_frontier(Some(&[4; 31])), [0; 32]);
    assert_eq!(backup_frontier(None), [0; 32]);
}

#[test]
fn exported_revisions_are_checked() {
    let (a, b) = ([1; 16], [2; 16]);
    assert!(check_exported((&a, &b), (&a, &b), true, true).is_ok());
    assert!(check_exported((&b, &b), (&a, &b), true, true).is_err());
    assert!(check_exported((&a, &a), (&a, &b), true, true).is_err());
    assert!(check_exported((&a, &b), (&a, &b), false, true).is_err());
    assert!(check_exported((&a, &b), (&a, &b), true, false).is_err());
}

#[test]
fn staged_packages_match_their_item() {
    let record = LogicalRecord::new(
        RecordKind::Note,
        HumanMetadata {
            title: "Note".to_owned(),
            destinations: vec![],
            tags: vec![],
            favorite: false,
            notes: "text".to_owned(),
            fields: vec![],
            source_fields: vec![],
        },
        vec![],
        vec![],
        &vec![],
    )
    .unwrap();
    let item = ImportItem {
        ordinal: 0,
        item: [1; 16],
        revision: [2; 16],
        kind: RecordKind::Note.name().to_owned(),
        package: vec![],
        replacement: false,
    };
    assert!(package_matches(&item, &[1; 16], &[2; 16], RecordKind::Note, &record));
    assert!(!package_matches(&item, &[3; 16], &[2; 16], RecordKind::Note, &record));
    assert!(!package_matches(&item, &[1; 16], &[3; 16], RecordKind::Note, &record));
    assert!(!package_matches(&item, &[1; 16], &[2; 16], RecordKind::Password, &record));
    assert_eq!(LogicalRecord::embedded_contents(&record.to_bytes()), Some(vec![]));
}

#[test]
fn streams_are_framed_by_their_lengths() {
    let expected = [b"pm/staged-stream/v1".to_vec(), vec![0, 0, 0, 0, 0, 0, 0, 1, 9]].concat();
    assert_eq!(stream_start(&[9]), expected);
    let expected = [vec![1; 16], vec![0, 0, 0, 0, 0, 0, 0, 3], vec![0, 0, 0, 0, 0, 0, 0, 1, 2]];
    assert_eq!(stream_chunk(&[1; 16], 3, &[2]), expected.concat());
    assert_ne!(stream_header(&[1; 16], &[2], 1), stream_header(&[1; 16], &[2], 2));
    assert_ne!(stream_chunk(&[1; 16], 0, &[2]), stream_chunk(&[1; 16], 1, &[2]));
}

#[test]
fn rotations_are_validated_as_staged() {
    let staged = |kind: &str| Staged {
        transaction_id: [2; 16],
        operation: "root_rotation".to_owned(),
        event_kind: kind.to_owned(),
        item_id: [1; 16],
        revision_id: None,
        body: vec![],
        package: Some(vec![7]),
        item_kind: None,
        attachments: None,
        audit_generation: None,
        audit_through_seq: None,
        subject_generation: None,
        authority_body: None,
        staged_grant: None,
    };
    let body =
        rotation_body("root-password-rotate", true, [2; 16], [3; 32], [4; 32]).unwrap();
    let facts = |vault: u8, package: u8| StagedFacts::Rotation {
        bundle_vault: [vault; 16],
        package_digest: [package; 32],
        kind_digest: [3; 32],
    };
    let s = staged("root-password-rotate");
    assert!(validate_staged(&s, &body, &facts(1, 4)).is_ok());
    assert!(validate_staged(&s, &body, &facts(2, 4)).is_err());
    assert!(validate_staged(&s, &body, &facts(1, 5)).is_err());
    let other = staged("trash");
    assert!(matches!(
        validate_staged(&other, &body, &facts(1, 4)),
        Err(HumanCommitError::BodyChanged)
    ));
}

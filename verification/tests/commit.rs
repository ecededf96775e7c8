use pm_vault::bodies::{
    decode_agent_grant_body, decode_enable_body, decode_heads, decode_item_purge_body,
    decode_lifecycle_body, decode_reason_body, decode_resume_body, encode_agent_grant_body,
    encode_enable_body, encode_heads, encode_item_purge_body, encode_lifecycle_body,
    encode_reason_body, encode_resume_body, AgentGrantBody, EnableBody, ItemPurgeBody,
};
use pm_vault::authorization::{AgentEnrollment, AuthorizationReason};
use pm_vault::command::{
    challenge_expiry, decode_body, decode_command, encode_body, encode_command, encode_state_view,
    heads_of, prepare_command, random_challenge, Body, CommandFields, HumanReceipt, StateView,
};
use pm_vault::commit::{
    accept, accept_export, check_challenge, check_command, commit_path, plan_event, plan_single,
    staged_action, Admitted, Challenge, CommitFacts, CommitPath, Issuer, StagedAction,
};
use pm_vault::errors::{AuthorizationError, HumanCommitError};
use pm_vault::events::{
    authority_digests, authority_specific_parents, decode_event_header, encode_signed_event,
    join_parents, next_authority_seq, AuthorityRow, SignedEvent,
};
use pm_vault::staging::{
    decode_staged_attachments, encode_staged_attachments, object_source, staged_manifest,
    staged_object, valid_shape, validate_event, validate_purge_against_current, ItemRow,
    ObjectSource, Staged, StagedAttachment, SubjectState,
};

fn body() -> Body {
    Body {
        transaction_id: [2; 16],
        events_manifest_digest: [8; 32],
        event_count: 1,
        object_manifest_digest: None,
    }
}

fn command(operation: &str) -> CommandFields {
    CommandFields {
        vault: [1; 16],
        challenge: [3; 32],
        expected_state: [4; 32],
        operation: operation.to_owned(),
        body_hash: [5; 32],
        expires_at_us: 60_000_000,
    }
}

fn staged(operation: &str, event_kind: &str) -> Staged {
    Staged {
        transaction_id: [2; 16],
        operation: operation.to_owned(),
        event_kind: event_kind.to_owned(),
        item_id: [6; 16],
        revision_id: None,
        body: encode_body(&body()),
        package: None,
        item_kind: None,
        attachments: None,
        audit_generation: None,
        audit_through_seq: None,
        subject_generation: None,
        authority_body: None,
        staged_grant: None,
    }
}

fn trash(digests: &[[u8; 32]]) -> Staged {
    let mut s = staged("item_lifecycle", "trash");
    s.subject_generation = Some(1);
    s.authority_body = Some(encode_lifecycle_body(&digests.to_vec()));
    s
}

fn row(digest: u8, kind: &str) -> AuthorityRow {
    AuthorityRow { digest: vec![digest; 32], kind: kind.to_owned() }
}

fn facts(command: &[u8]) -> CommitFacts {
    CommitFacts {
        signed: true,
        receipt: None,
        challenge: Some(Challenge {
            command: command.to_vec(),
            body_hash: [5; 32],
            expires_at_us: 60_000_000,
            consumed: false,
        }),
        now_us: 60_000_000,
        state: [4; 32],
        staged: Some(trash(&[])),
    }
}

#[test]
fn every_kind_has_its_way_to_be_committed() {
    for (kind, path) in [
        ("root-password-rotate", CommitPath::Rotation),
        ("root-recovery-rotate", CommitPath::Rotation),
        ("import-batch", CommitPath::Import),
        ("backup-restore", CommitPath::BackupRestore),
        ("restore", CommitPath::Restore),
        ("item-revision", CommitPath::Single),
        ("disable", CommitPath::Single),
    ] {
        assert_eq!(commit_path(kind), path);
    }
}

#[test]
fn commands_come_back() {
    let bytes = encode_command(&command("item_write"));
    assert_eq!(bytes[0], 0xa7);
    let c = decode_command(&bytes).unwrap();
    assert_eq!(c.vault, [1; 16]);
    assert_eq!(c.challenge, [3; 32]);
    assert_eq!(c.expected_state, [4; 32]);
    assert_eq!(c.operation, "item_write");
    assert_eq!(c.body_hash, [5; 32]);
    assert_eq!(c.expires_at_us, 60_000_000);
    assert!(decode_command(&encode_command(&command("item_read"))).is_err());
    for end in 0..bytes.len() {
        assert!(decode_command(&bytes[..end]).is_err());
    }
    let mut longer = bytes;
    longer.push(0);
    assert!(decode_command(&longer).is_err());
}

#[test]
fn every_operation_has_a_command() {
    for operation in [
        "item_write",
        "item_lifecycle",
        "history_restore",
        "item_purge",
        "audit_purge",
        "identity_change",
        "availability_change",
        "import_commit",
        "plaintext_export",
        "backup_restore",
        "root_rotation",
    ] {
        assert_eq!(decode_command(&encode_command(&command(operation))).unwrap().operation, operation);
    }
}

#[test]
fn bodies_come_back() {
    let mut b = body();
    for object in [None, Some([9; 32])] {
        b.object_manifest_digest = object;
        let read = decode_body(&encode_body(&b)).unwrap();
        assert_eq!(read.transaction_id, [2; 16]);
        assert_eq!(read.events_manifest_digest, [8; 32]);
        assert_eq!(read.event_count, 1);
        assert_eq!(read.object_manifest_digest, object);
    }
    b.event_count = 0;
    assert_eq!(decode_body(&encode_body(&b)).unwrap().event_count, 0);
    b.event_count = 1_000_000;
    assert!(decode_body(&encode_body(&b)).is_ok());
    b.event_count = 1_000_001;
    assert!(decode_body(&encode_body(&b)).is_err());
}

#[test]
fn challenges_live_a_minute() {
    assert_eq!(challenge_expiry(7).unwrap(), 60_000_007);
    assert!(matches!(challenge_expiry(i64::MAX), Err(HumanCommitError::InvalidCommand)));
    let value = random_challenge(&[1; 16], &[2; 16]);
    assert_eq!(&value[..16], &[1; 16]);
    assert_eq!(&value[16..], &[2; 16]);
}

#[test]
fn prepared_commands_hold_what_they_were_made_from() {
    let p = prepare_command(
        [1; 16], [3; 32], [4; 32], "item_write", [6; 16], &body(), [5; 32], 0,
    )
    .unwrap();
    assert_eq!(p.transaction_id(), &[2; 16]);
    assert_eq!(p.item_id(), &[6; 16]);
    assert_eq!(p.command(), encode_command(&command("item_write")));
    assert_eq!(p.body(), encode_body(&body()));
}

#[test]
fn state_views_follow_the_head() {
    assert!(heads_of(&None).is_empty());
    assert_eq!(heads_of(&Some([1; 32])), vec![[1; 32]]);
    let view = |head: Option<[u8; 32]>| {
        encode_state_view(&StateView { vault: [1; 16], epoch: 1, head, bundle_digest: [2; 32] })
    };
    assert_ne!(view(None), view(Some([1; 32])));
    assert_eq!(view(Some([1; 32])), view(Some([1; 32])));
}

#[test]
fn challenges_are_checked_in_order() {
    let bytes = encode_command(&command("item_lifecycle"));
    let mut c = Challenge {
        command: bytes.clone(),
        body_hash: [5; 32],
        expires_at_us: 10,
        consumed: false,
    };
    assert!(matches!(
        check_challenge(&None, &bytes, &[5; 32], 0),
        Err(HumanCommitError::InvalidCommand)
    ));
    c.consumed = true;
    assert!(matches!(
        check_challenge(&Some(c), &bytes, &[6; 32], 11),
        Err(HumanCommitError::BodyChanged)
    ));
    let c = |consumed: bool| {
        Some(Challenge {
            command: bytes.clone(),
            body_hash: [5; 32],
            expires_at_us: 10,
            consumed,
        })
    };
    assert!(matches!(
        check_challenge(&c(false), &bytes, &[5; 32], 11),
        Err(HumanCommitError::ChallengeExpired)
    ));
    assert!(matches!(
        check_challenge(&c(true), &bytes, &[5; 32], 10),
        Err(HumanCommitError::ChallengeExpired)
    ));
    assert!(check_challenge(&c(false), &bytes, &[5; 32], 10).is_ok());
}

#[test]
fn commands_are_held_to_their_body() {
    let bytes = encode_command(&command("item_lifecycle"));
    let b = encode_body(&body());
    let (c, read) = check_command(&[1; 16], &bytes, &b, &[5; 32]).unwrap();
    assert_eq!(c.operation, "item_lifecycle");
    assert_eq!(read.event_count, 1);
    assert!(matches!(
        check_command(&[9; 16], &bytes, &b, &[5; 32]),
        Err(HumanCommitError::InvalidCommand)
    ));
    assert!(matches!(
        check_command(&[1; 16], &[0xa7], &b, &[5; 32]),
        Err(HumanCommitError::InvalidCommand)
    ));
    assert!(matches!(
        check_command(&[1; 16], &bytes, &b[1..], &[5; 32]),
        Err(HumanCommitError::BodyChanged)
    ));
    assert!(matches!(
        check_command(&[1; 16], &bytes, &b, &[6; 32]),
        Err(HumanCommitError::BodyChanged)
    ));
}

#[test]
fn fresh_transactions_are_accepted() {
    let bytes = encode_command(&command("item_lifecycle"));
    let b = encode_body(&body());
    match accept(&[1; 16], &bytes, &b, &[5; 32], facts(&bytes)).unwrap() {
        Admitted::Fresh(read, s) => {
            assert_eq!(read.transaction_id, [2; 16]);
            assert_eq!(s.event_kind, "trash");
        }
        Admitted::Replayed(_) => panic!("nothing was committed"),
    }
}

#[test]
fn committed_transactions_are_replayed() {
    let bytes = encode_command(&command("item_lifecycle"));
    let b = encode_body(&body());
    let mut f = facts(&bytes);
    f.challenge = None;
    f.staged = None;
    f.state = [0; 32];
    f.receipt = Some(HumanReceipt::new([2; 16], [5; 32], vec![[7; 32]], 12));
    match accept(&[1; 16], &bytes, &b, &[5; 32], f).unwrap() {
        Admitted::Replayed(receipt) => {
            assert_eq!(receipt.transaction_id(), &[2; 16]);
            assert_eq!(receipt.body_hash(), &[5; 32]);
            assert_eq!(receipt.committed_heads(), &[[7; 32]]);
            assert_eq!(receipt.outcome(), "committed");
            assert!(!receipt.to_bytes().is_empty());
        }
        Admitted::Fresh(..) => panic!("it was committed before"),
    }
    let mut f = facts(&bytes);
    f.receipt = Some(HumanReceipt::new([2; 16], [6; 32], vec![], 12));
    assert!(matches!(
        accept(&[1; 16], &bytes, &b, &[5; 32], f),
        Err(HumanCommitError::TransactionConflict)
    ));
}

#[test]
fn refused_transactions_name_the_reason() {
    let bytes = encode_command(&command("item_lifecycle"));
    let b = encode_body(&body());
    let mut f = facts(&bytes);
    f.signed = false;
    assert!(matches!(
        accept(&[1; 16], &bytes, &b, &[5; 32], f),
        Err(HumanCommitError::InvalidSignature)
    ));
    let mut f = facts(&bytes);
    f.now_us = 60_000_001;
    assert!(matches!(
        accept(&[1; 16], &bytes, &b, &[5; 32], f),
        Err(HumanCommitError::ChallengeExpired)
    ));
    let mut f = facts(&bytes);
    f.state = [0; 32];
    assert!(matches!(
        accept(&[1; 16], &bytes, &b, &[5; 32], f),
        Err(HumanCommitError::StateChanged)
    ));
    let mut f = facts(&bytes);
    f.staged = None;
    assert!(matches!(
        accept(&[1; 16], &bytes, &b, &[5; 32], f),
        Err(HumanCommitError::InvalidCommand)
    ));
    let mut f = facts(&bytes);
    f.staged = Some(staged("item_write", "item-revision"));
    assert!(matches!(
        accept(&[1; 16], &bytes, &b, &[5; 32], f),
        Err(HumanCommitError::BodyChanged)
    ));
}

#[test]
fn exports_are_accepted_for_their_manifest() {
    let bytes = encode_command(&command("plaintext_export"));
    let mut plain = body();
    plain.event_count = 0;
    let b = encode_body(&plain);
    let one = encode_body(&body());
    assert!(accept_export(&[1; 16], &bytes, &one, &[5; 32], &[8; 32], &facts(&bytes)).is_err());
    assert_eq!(
        accept_export(&[1; 16], &bytes, &b, &[5; 32], &[8; 32], &facts(&bytes)).unwrap(),
        [2; 16]
    );
    assert!(accept_export(&[1; 16], &bytes, &b, &[5; 32], &[7; 32], &facts(&bytes)).is_err());
    let other = encode_command(&command("item_lifecycle"));
    assert!(accept_export(&[1; 16], &other, &b, &[5; 32], &[8; 32], &facts(&other)).is_err());
}

#[test]
fn parents_follow_the_kind() {
    let rows = vec![
        row(1, "item-revision"),
        row(2, "trash"),
        row(3, "enable"),
        row(4, "suspend"),
        row(5, "agent-grant"),
    ];
    assert_eq!(authority_specific_parents(&rows, "trash").unwrap(), vec![[1; 32], [2; 32]]);
    assert_eq!(authority_specific_parents(&rows, "enable").unwrap(), vec![[2; 32], [3; 32]]);
    assert_eq!(authority_specific_parents(&rows, "resume").unwrap(), vec![[4; 32]]);
    assert_eq!(authority_specific_parents(&rows, "agent-grant").unwrap(), vec![[5; 32]]);
    assert!(authority_specific_parents(&rows, "audit-purge").unwrap().is_empty());
    assert_eq!(authority_digests(&rows, &["trash", "suspend"]).unwrap(), vec![[2; 32], [4; 32]]);
    let short = vec![AuthorityRow { digest: vec![1; 31], kind: "trash".to_owned() }];
    assert!(authority_digests(&short, &["trash"]).is_err());
    assert_eq!(
        join_parents(&vec![[2; 32], [1; 32]], &Some([1; 32])),
        vec![[1; 32], [2; 32]]
    );
    assert!(join_parents(&vec![], &None).is_empty());
    assert_eq!(next_authority_seq(0).unwrap(), 1);
    assert!(next_authority_seq(-2).is_err());
}

#[test]
fn planned_events_are_read_back() {
    let issuer = Issuer { vault: [1; 16], device: [10; 16] };
    let p = plan_event(
        &issuer,
        [11; 16],
        4,
        &Some([12; 32]),
        &vec![[13; 32]],
        "trash",
        [6; 16],
        1,
        encode_lifecycle_body(&vec![]),
    )
    .unwrap();
    assert_eq!(p.seq, 5);
    assert_eq!(p.parents, vec![[12; 32], [13; 32]]);
    let header = decode_event_header([14; 32], &p.event).unwrap();
    assert_eq!(header.digest(), &[14; 32]);
    assert_eq!(header.seq(), 5);
    assert_eq!(header.previous(), Some(&[12; 32]));
    assert_eq!(header.parents(), &[[12; 32], [13; 32]]);
    assert_eq!(header.kind(), "trash");
    assert_eq!(header.subject(), &[6; 16]);
    assert_eq!(header.subject_generation(), 1);
    assert!(decode_event_header([14; 32], &p.event[..p.event.len() - 1]).is_err());
    let signed = encode_signed_event(&SignedEvent {
        event: p.event.clone(),
        device_signature: [1; 64],
        human_signature: [2; 64],
    });
    assert!(signed.len() > p.event.len() + 128);
}

#[test]
fn single_events_are_planned_from_what_is_staged() {
    let issuer = Issuer { vault: [1; 16], device: [10; 16] };
    let rows = vec![row(1, "item-revision")];
    let p = plan_single(&issuer, [11; 16], 0, &None, &rows, &trash(&[]), &body(), 5).unwrap();
    let header = decode_event_header([14; 32], &p.event).unwrap();
    assert_eq!(header.kind(), "trash");
    assert_eq!(header.seq(), 1);
    assert_eq!(header.previous(), None);
    assert_eq!(header.parents(), &[[1; 32]]);
    assert_eq!(header.subject(), &[6; 16]);
}

#[test]
fn staged_transactions_say_what_to_do() {
    assert!(matches!(staged_action(&trash(&[]), None), Ok(StagedAction::Trash)));
    let mut s = staged("item_write", "item-revision");
    s.revision_id = Some([7; 16]);
    s.package = Some(vec![1, 2]);
    s.item_kind = Some("note".to_owned());
    let files = vec![StagedAttachment { id: [8; 16], package: vec![3] }];
    s.attachments = Some(encode_staged_attachments(&files));
    assert!(valid_shape(&s, 0));
    match staged_action(&s, None) {
        Ok(StagedAction::WriteRevision { revision, kind, package, attachments }) => {
            assert_eq!(revision, [7; 16]);
            assert_eq!(kind, "note");
            assert_eq!(package, vec![1, 2]);
            assert_eq!(attachments.len(), 1);
            assert_eq!(attachments[0].id, [8; 16]);
            assert_eq!(attachments[0].package, vec![3]);
        }
        _ => panic!("a revision is written"),
    }
    s.package = None;
    assert!(!valid_shape(&s, 0));
    assert!(matches!(staged_action(&s, None), Err(HumanCommitError::BodyChanged)));
    let mut s = staged("audit_purge", "audit-purge");
    s.audit_generation = Some(3);
    s.audit_through_seq = Some(9);
    assert!(matches!(
        staged_action(&s, None),
        Ok(StagedAction::PurgeAudit { generation: 3, through_seq: 9 })
    ));
    let mut s = staged("item_purge", "purge-revisions");
    s.subject_generation = Some(1);
    s.authority_body = Some(encode_item_purge_body(&ItemPurgeBody {
        item: [6; 16],
        revisions: vec![[1; 16], [2; 16]],
        terminal: false,
    }));
    assert!(valid_shape(&s, 0));
    match staged_action(&s, None) {
        Ok(StagedAction::PurgeRevisions(ids)) => assert_eq!(ids, vec![[1; 16], [2; 16]]),
        _ => panic!("revisions are purged"),
    }
}

#[test]
fn shapes_bind_operation_and_kind() {
    assert!(valid_shape(&trash(&[]), 0));
    let mut s = trash(&[]);
    s.operation = "item_purge".to_owned();
    assert!(!valid_shape(&s, 0));
    let mut s = trash(&[]);
    s.subject_generation = Some(2);
    assert!(!valid_shape(&s, 0));
    let mut s = trash(&[]);
    s.staged_grant = Some(vec![]);
    assert!(!valid_shape(&s, 0));
    assert!(!valid_shape(&staged("item_lifecycle", "unknown"), 0));
}

#[test]
fn events_are_validated_against_the_state() {
    let state = |events: Vec<AuthorityRow>| SubjectState { events, item: None, revisions: vec![] };
    let s = trash(&[[2; 32]]);
    let check = |events: Vec<AuthorityRow>, manifest: [u8; 32]| {
        validate_event(&s, &body(), 0, &None, &Some(manifest), &state(events))
    };
    assert!(check(vec![row(2, "trash")], [8; 32]).is_ok());
    assert!(matches!(check(vec![], [8; 32]), Err(HumanCommitError::StateChanged)));
    assert!(matches!(
        check(vec![row(2, "trash")], [9; 32]),
        Err(HumanCommitError::BodyChanged)
    ));
}

#[test]
fn purges_are_validated_against_the_item() {
    let m = ItemPurgeBody { item: [6; 16], revisions: vec![[1; 16]], terminal: false };
    let state = |visible: u8, status: &str| SubjectState {
        events: vec![],
        item: Some(ItemRow { visible: vec![visible; 16], status: status.to_owned() }),
        revisions: vec![[1; 16], [2; 16]],
    };
    assert!(validate_purge_against_current(&m, &state(2, "active")).is_ok());
    assert!(validate_purge_against_current(&m, &state(1, "active")).is_err());
    let all =
        ItemPurgeBody { item: [6; 16], revisions: vec![[1; 16], [2; 16]], terminal: true };
    assert!(validate_purge_against_current(&all, &state(2, "trash")).is_ok());
    assert!(validate_purge_against_current(&all, &state(2, "active")).is_err());
}

#[test]
fn staged_attachments_come_back() {
    let files = vec![
        StagedAttachment { id: [1; 16], package: vec![] },
        StagedAttachment { id: [2; 16], package: vec![7; 300] },
    ];
    let bytes = encode_staged_attachments(&files);
    let read = decode_staged_attachments(&bytes).unwrap();
    assert_eq!(read.len(), 2);
    assert_eq!(read[1].id, [2; 16]);
    assert_eq!(read[1].package, vec![7; 300]);
    assert!(decode_staged_attachments(&bytes[..bytes.len() - 1]).is_err());
    assert_ne!(staged_object(&[1], Some(&bytes)), staged_object(&[1], None));
    let mut s = staged("item_write", "item-revision");
    s.package = Some(vec![1]);
    s.attachments = Some(bytes.clone());
    match object_source(&s, 0) {
        Ok(ObjectSource::Bytes(b)) => assert_eq!(b, staged_object(&[1], Some(&bytes))),
        _ => panic!("the object is inline"),
    }
    assert!(matches!(object_source(&trash(&[]), 0), Ok(ObjectSource::Bytes(_))));
}

#[test]
fn manifests_cover_the_digests() {
    let s = trash(&[]);
    let a = staged_manifest(&s, Some([1; 32]), Some([2; 32]));
    assert!(a.is_some());
    assert_ne!(a, staged_manifest(&s, Some([1; 32]), Some([3; 32])));
    assert_ne!(a, staged_manifest(&s, None, Some([2; 32])));
}

#[test]
fn authority_bodies_come_back() {
    let enrollment =
        AgentEnrollment::new([1; 16], [2; 16], &[3; 44], "label", "environment").unwrap();
    let grant = AgentGrantBody::new(&enrollment, vec![[4; 32]]);
    let read = decode_agent_grant_body(&encode_agent_grant_body(&grant)).unwrap();
    assert_eq!(read.request_id, [2; 16]);
    assert_eq!(read.transport_rpk, [3; 44]);
    assert_eq!(read.label, "label");
    assert_eq!(read.environment_binding, "environment");
    assert_eq!(read.predecessors, vec![[4; 32]]);
    let list = vec![[1; 32], [2; 32]];
    assert_eq!(decode_lifecycle_body(&encode_lifecycle_body(&list)).unwrap(), list);
    assert_eq!(decode_resume_body(&encode_resume_body(&list)).unwrap(), list);
    assert_eq!(decode_heads(&encode_heads(&list)).unwrap(), list);
    for reason in [
        AuthorizationReason::OwnerRequest,
        AuthorizationReason::Replacement,
        AuthorizationReason::SuspectedCompromise,
    ] {
        assert_eq!(decode_reason_body(&encode_reason_body(&reason)).unwrap(), reason);
        assert_eq!(AuthorizationReason::parse(reason.name()), Some(reason));
    }
    assert_eq!(AuthorizationReason::parse("other"), None);
    let enable = EnableBody {
        revision: [5; 16],
        commitment: [6; 32],
        positives: vec![[7; 32]],
        withdrawals: vec![],
    };
    let read = decode_enable_body(&encode_enable_body(&enable)).unwrap();
    assert_eq!(read.revision, [5; 16]);
    assert_eq!(read.commitment, [6; 32]);
    assert_eq!(read.positives, vec![[7; 32]]);
    assert!(read.withdrawals.is_empty());
    let purge = ItemPurgeBody { item: [1; 16], revisions: vec![[2; 16]], terminal: true };
    let read = decode_item_purge_body(&encode_item_purge_body(&purge)).unwrap();
    assert_eq!(read.revisions, vec![[2; 16]]);
    assert!(read.terminal);
}

#[test]
fn authority_bodies_are_canonical() {
    let mut bytes = encode_lifecycle_body(&vec![[1; 32]]);
    bytes.push(0);
    assert!(decode_lifecycle_body(&bytes).is_err());
    let twice = ItemPurgeBody { item: [1; 16], revisions: vec![[2; 16], [2; 16]], terminal: true };
    assert!(decode_item_purge_body(&encode_item_purge_body(&twice)).is_err());
    let none = ItemPurgeBody { item: [1; 16], revisions: vec![], terminal: true };
    assert!(decode_item_purge_body(&encode_item_purge_body(&none)).is_err());
    assert!(matches!(decode_event_header([0; 32], &[0x80]), Err(AuthorizationError::Integrity)));
}

use pm_vault::batch::{
    check_restore_batch, BackupRestoreItem, EventChain, ImportAction, ImportProgress,
    RestoreAction, RestoreChain, RestoredItem, RestoredRevision,
};
use pm_vault::bodies::encode_lifecycle_body;
use pm_vault::command::Body;
use pm_vault::commit::Issuer;
use pm_vault::content::{
    Attachment, AuthRecord, Destination, HumanMetadata, LogicalRecord, RecordKind,
};
use pm_vault::errors::{AuthorizationError, HumanCommitError};
use pm_vault::events::{decode_event_header, AuthorityRow};
use pm_vault::history::{
    encode_purge_confirmation, item_history, lifecycle_of, purge_item_selection, purge_scope,
    purge_selection, ItemLifecycle, PurgeConfirmation, PurgeRow, RevisionRow,
};
use pm_vault::human::{check_file_count, check_revision, HumanCatalogEntry, HumanCredentialAccess};
use pm_vault::import::ImportItem;
use pm_vault::prepare::{
    check_carried, check_changed, check_registration, check_rotation, check_source_end,
    check_sources, delegate,
    find_attachment, restored_object, rotation_body,
};

fn row(revision: u8) -> RevisionRow {
    RevisionRow {
        revision: vec![revision; 16],
        opened_item: [1; 16],
        opened_revision: [revision; 16],
        modified_at_us: revision as i64,
        issuer_device: [9; 16],
        attachment_count: 2,
    }
}

fn issuer() -> Issuer {
    Issuer { vault: [1; 16], device: [2; 16] }
}

fn login() -> LogicalRecord {
    let human = HumanMetadata {
        title: "Login".to_owned(),
        destinations: vec![Destination {
            label: "web".to_owned(),
            value: "https://example.test".to_owned(),
        }],
        tags: vec!["work".to_owned()],
        favorite: true,
        notes: String::new(),
        fields: vec![],
        source_fields: vec![],
    };
    let auth = AuthRecord::Password {
        username: "ada".to_owned(),
        password: b"secret".to_vec(),
        destination_refs: vec![0],
    };
    LogicalRecord::new(RecordKind::Password, human, vec![auth], vec![], &vec![]).unwrap()
}

#[test]
fn histories_show_one_revision() {
    let h = item_history([1; 16], &[5; 16], "active", &vec![row(4), row(5)]).unwrap();
    assert_eq!(h.lifecycle(), ItemLifecycle::Active);
    assert_eq!(h.entries().len(), 2);
    assert!(!h.entries()[0].visible());
    assert!(h.entries()[1].visible());
    assert_eq!(h.entries()[1].revision_id(), &[5; 16]);
    assert_eq!(h.entries()[1].modified_at_us(), 5);
    assert_eq!(h.entries()[1].issuer_device(), &[9; 16]);
    assert_eq!(h.entries()[1].attachment_count(), 2);
    assert_eq!(h.find(&[4; 16]).map(|e| e.visible()), Some(false));
    let h = item_history([1; 16], &[4; 16], "active", &vec![row(6), row(5), row(4)]).unwrap();
    let shown: Vec<bool> = h.entries().iter().map(|e| e.visible()).collect();
    assert_eq!(shown, vec![true, false, false]);
    let h = item_history([1; 16], &[5; 16], "active", &vec![row(4), row(5)]).unwrap();
    assert!(h.find(&[6; 16]).is_none());
    assert!(item_history([1; 16], &[6; 16], "active", &vec![row(4), row(5)]).is_err());
    assert!(item_history([1; 16], &[5; 16], "gone", &vec![row(5)]).is_err());
    assert!(item_history([2; 16], &[5; 16], "active", &vec![row(5)]).is_err());
    assert!(item_history([1; 16], &[5; 16], "active", &vec![]).is_err());
    let mut negative = row(5);
    negative.attachment_count = -1;
    assert!(item_history([1; 16], &[5; 16], "active", &vec![negative]).is_err());
    assert_eq!(lifecycle_of("trash"), Some(ItemLifecycle::Trash));
    assert_eq!(lifecycle_of("other"), None);
}

#[test]
fn purges_keep_the_visible_revision() {
    let h =
        item_history([1; 16], &[5; 16], "active", &vec![row(3), row(4), row(5)]).unwrap();
    assert_eq!(
        purge_selection(&h, &vec![[4; 16], [3; 16]]).unwrap(),
        vec![[3; 16], [4; 16]]
    );
    assert!(matches!(
        purge_selection(&h, &vec![[5; 16]]),
        Err(HumanCommitError::InvalidInput)
    ));
    assert!(purge_selection(&h, &vec![]).is_err());
    assert!(purge_selection(&h, &vec![[3; 16], [3; 16]]).is_err());
    assert!(purge_selection(&h, &vec![[7; 16]]).is_err());
    assert!(purge_item_selection(&h).is_err());
    let gone = item_history([1; 16], &[5; 16], "trash", &vec![row(5), row(3)]).unwrap();
    assert_eq!(purge_item_selection(&gone).unwrap(), vec![[3; 16], [5; 16]]);
}

#[test]
fn purge_scopes_add_up() {
    let r = PurgeRow {
        package_bytes: Some(100),
        inline_count: 1,
        inline_bytes: 10,
        stream_count: 2,
        stream_bytes: 20,
        chunk_bytes: 30,
    };
    let scope = purge_scope([1; 16], &vec![[2; 16], [3; 16]], &vec![r, r], true).unwrap();
    assert_eq!(scope.item_id(), &[1; 16]);
    assert_eq!(scope.revision_ids(), &[[2; 16], [3; 16]]);
    assert_eq!(scope.attachment_count(), 6);
    assert_eq!(scope.encrypted_bytes(), 320);
    assert!(scope.terminal());
    let a = encode_purge_confirmation(&PurgeConfirmation { scope: scope.clone(), body_digest: [1; 32] });
    let b = encode_purge_confirmation(&PurgeConfirmation { scope, body_digest: [2; 32] });
    assert_ne!(a, b);
    let mut missing = r;
    missing.package_bytes = None;
    assert!(matches!(
        purge_scope([1; 16], &vec![[2; 16]], &vec![missing], true),
        Err(HumanCommitError::ItemNotFound)
    ));
}

#[test]
fn imported_events_form_a_chain() {
    let mut chain = EventChain::new(issuer(), Some([3; 32]));
    let item = ImportItem {
        ordinal: 0,
        item: [4; 16],
        revision: [5; 16],
        kind: "note".to_owned(),
        package: vec![],
        replacement: false,
    };
    let p = chain.plan_import([6; 16], 7, &vec![], &item, None, [8; 32], 9).unwrap();
    assert_eq!(p.seq, 8);
    let header = decode_event_header([0; 32], &p.event).unwrap();
    assert_eq!(header.kind(), "item-revision");
    assert_eq!(header.subject(), &[4; 16]);
    assert_eq!(header.previous(), Some(&[3; 32]));
    chain.record([10; 32]);
    let events = vec![
        stored("enable", 11),
        stored("disable", 12),
        stored("trash", 13),
        stored("item-revision", 14),
    ];
    let p = chain.plan_replacement([6; 16], 8, &events, [4; 16]).unwrap();
    assert_eq!((p.event_id, p.previous, p.subject), ([6; 16], Some([10; 32]), [4; 16]));
    assert_eq!((p.kind.as_str(), p.subject_generation), ("disable", 1));
    let header = decode_event_header([0; 32], &p.event).unwrap();
    assert_eq!(header.kind(), "disable");
    assert_eq!(header.previous(), Some(&[10; 32]));
    assert_eq!(header.parents(), &[[10; 32], [11; 32], [12; 32]]);
    let p = chain.plan_import([6; 16], 8, &events, &item, None, [8; 32], 9).unwrap();
    assert_eq!(p.parents, vec![[10; 32], [14; 32]]);
    let short = vec![AuthorityRow { digest: vec![1], kind: "enable".to_owned() }];
    assert!(matches!(
        chain.plan_replacement([6; 16], 8, &short, [4; 16]),
        Err(HumanCommitError::InvalidCommand)
    ));
    assert_eq!(chain.finish().unwrap(), [10; 32]);
    assert!(EventChain::new(issuer(), None).finish().is_err());
}

#[test]
fn restored_items_come_in_two_events() {
    let mut chain = EventChain::new(issuer(), Some([3; 32]));
    let body = Body {
        transaction_id: [1; 16],
        events_manifest_digest: [2; 32],
        event_count: 2,
        object_manifest_digest: Some([3; 32]),
    };
    let p = chain
        .plan_restored_revision([6; 16], 1, &vec![], [4; 16], [5; 16], &body, 9)
        .unwrap();
    assert_eq!(decode_event_header([0; 32], &p.event).unwrap().kind(), "item-revision");
    chain.record([7; 32]);
    let p = chain
        .plan_restore(
            [8; 16],
            2,
            &vec![stored("trash", 9), stored("enable", 8)],
            [4; 16],
            &encode_lifecycle_body(&vec![[9; 32]]),
        )
        .unwrap();
    assert_eq!(p.parents, vec![[7; 32], [9; 32]]);
    let header = decode_event_header([0; 32], &p.event).unwrap();
    assert_eq!(header.kind(), "restore");
    assert_eq!(header.previous(), Some(&[7; 32]));
}

fn stored(kind: &str, digest: u8) -> AuthorityRow {
    AuthorityRow { digest: vec![digest; 32], kind: kind.to_owned() }
}

#[test]
fn replaced_items_are_withdrawn_behind_their_revision() {
    let item = |id: u8, replacement| ImportItem {
        ordinal: 1,
        item: [id; 16],
        revision: [5; 16],
        kind: "note".to_owned(),
        package: vec![],
        replacement,
    };
    let items = vec![item(1, true), item(2, false)];
    let mut progress = ImportProgress::new();
    assert_eq!(progress.event_transaction([1; 16], [2; 16]), [1; 16]);
    let mut done = Vec::new();
    loop {
        let action = progress.action(&items);
        done.push(action);
        if action == ImportAction::Finish {
            break;
        }
        progress.advance(&items);
        assert_eq!(progress.event_transaction([1; 16], [2; 16]), [2; 16]);
    }
    assert_eq!(
        done,
        vec![
            ImportAction::Revise(0),
            ImportAction::Withdraw(0),
            ImportAction::Revise(1),
            ImportAction::Finish,
        ]
    );
}

#[test]
fn trashed_items_are_restored_into_the_trash() {
    let mut trashed = restored();
    trashed.item.status = "trash".to_owned();
    let items = vec![trashed, restored()];
    let mut chain = RestoreChain::new(issuer(), None);
    let mut done = Vec::new();
    loop {
        let action = chain.action(&items);
        done.push(action);
        match action {
            RestoreAction::Finish => break,
            RestoreAction::Revise(_, _) => chain.record_revision([8; 32]),
            _ => {}
        }
        chain.advance(&items);
        assert_eq!(chain.siblings.len(), usize::from(chain.at.revision > 0));
    }
    assert_eq!(
        done,
        vec![
            RestoreAction::Revise(0, 0),
            RestoreAction::Store(0),
            RestoreAction::Trash(0),
            RestoreAction::Revise(1, 0),
            RestoreAction::Store(1),
            RestoreAction::Finish,
        ]
    );
}

fn restored() -> RestoredItem {
    RestoredItem {
        taken: false,
        item: BackupRestoreItem {
            target_item: [1; 16],
            visible_revision: [2; 16],
            kind: RecordKind::Password.name().to_owned(),
            status: "active".to_owned(),
        },
        revisions: vec![RestoredRevision {
            target_revision: [2; 16],
            modified_at_us: 3,
            kind: RecordKind::Password.name().to_owned(),
            object_digest: [4; 32],
            opened_item: [1; 16],
            opened_revision: [2; 16],
            opened_modified_at: 3,
            opened_kind: RecordKind::Password,
            record_kind: RecordKind::Password,
            record_files: 0,
            graph_digest: [4; 32],
            stream_count: 0,
        }],
    }
}

#[test]
fn restored_batches_are_unchanged() {
    let check = |x: RestoredItem| check_restore_batch(1, 1, &[5; 32], &[5; 32], &vec![x]);
    assert!(check(restored()).is_ok());
    let mut x = restored();
    x.taken = true;
    assert!(matches!(check(x), Err(HumanCommitError::StateChanged)));
    let mut x = restored();
    x.item.visible_revision = [3; 16];
    assert!(matches!(check(x), Err(HumanCommitError::BodyChanged)));
    let mut x = restored();
    x.revisions[0].graph_digest = [0; 32];
    assert!(matches!(check(x), Err(HumanCommitError::BodyChanged)));
    let mut x = restored();
    x.revisions[0].stream_count = 1;
    assert!(matches!(check(x), Err(HumanCommitError::BodyChanged)));
    assert!(check_restore_batch(1, 2, &[5; 32], &[5; 32], &vec![restored()]).is_err());
    assert!(check_restore_batch(2, 1, &[5; 32], &[5; 32], &vec![restored()]).is_err());
    assert!(check_restore_batch(1, 1, &[5; 32], &[6; 32], &vec![restored()]).is_err());
}

#[test]
fn restored_backups_form_a_chain() {
    let mut chain = RestoreChain::new(issuer(), None);
    assert_eq!(chain.finish([1; 32]), [1; 32]);
    assert_eq!(chain.event_transaction([1; 16], [2; 16]), [1; 16]);
    let p = chain.plan_revision([3; 16], 0, [4; 16], [5; 16], [6; 32], 7).unwrap();
    assert_eq!(decode_event_header([0; 32], &p.event).unwrap().kind(), "item-revision");
    chain.record_revision([8; 32]);
    assert_eq!(chain.event_transaction([1; 16], [2; 16]), [2; 16]);
    let p = chain.plan_trash([9; 16], 1, [4; 16]).unwrap();
    let header = decode_event_header([0; 32], &p.event).unwrap();
    assert_eq!(header.kind(), "trash");
    assert_eq!(header.previous(), Some(&[8; 32]));
    chain.record_trash([10; 32]);
    assert_eq!(chain.finish([1; 32]), [10; 32]);
}

#[test]
fn streamed_files_are_carried_over() {
    let file = |id: u8, size: u64| {
        Attachment::descriptor([id; 16], "a", "m", size, [4; 32]).unwrap()
    };
    let streamed = |files: Vec<Attachment>| {
        let human = HumanMetadata {
            title: "File".to_owned(),
            destinations: vec![],
            tags: vec![],
            favorite: false,
            notes: String::new(),
            fields: vec![],
            source_fields: vec![],
        };
        LogicalRecord::new_streaming(RecordKind::File, human, vec![], files).unwrap()
    };
    let record = streamed(vec![file(1, 5), file(2, 0)]);
    assert!(check_carried(&record, &vec![[2; 16], [1; 16]]));
    assert!(!check_carried(&record, &vec![[1; 16]]));
    assert!(!check_carried(&record, &vec![]));
    assert!(!check_carried(&streamed(vec![file(2, 0)]), &vec![[2; 16]]));
    assert!(!check_carried(&login(), &vec![]));
}

#[test]
fn rotations_are_staged_once() {
    let b =
        rotation_body("root-password-rotate", true, [1; 16], [2; 32], [3; 32]).unwrap();
    assert_eq!(b.event_count, 0);
    assert_eq!(b.events_manifest_digest, [2; 32]);
    assert_eq!(b.object_manifest_digest, Some([3; 32]));
    assert!(rotation_body("root-recovery-rotate", true, [1; 16], [2; 32], [3; 32]).is_ok());
    assert!(rotation_body("root-rotate", true, [1; 16], [2; 32], [3; 32]).is_err());
    assert!(rotation_body("root-password-rotate", false, [1; 16], [2; 32], [3; 32]).is_err());
    assert!(check_rotation(true, true, 1).is_ok());
    assert!(matches!(check_rotation(false, true, 1), Err(HumanCommitError::BodyChanged)));
    assert!(matches!(check_rotation(true, false, 1), Err(HumanCommitError::Integrity)));
    assert!(matches!(check_rotation(true, true, 2), Err(HumanCommitError::Integrity)));
}

#[test]
fn restored_objects_are_streamed_or_inline() {
    assert_eq!(restored_object(1, 0, Some([1; 32]), Some([2; 32])).unwrap(), [1; 32]);
    assert_eq!(restored_object(0, 1, Some([1; 32]), Some([2; 32])).unwrap(), [2; 32]);
    assert!(restored_object(1, 1, Some([1; 32]), Some([2; 32])).is_err());
    assert!(restored_object(0, 0, Some([1; 32]), None).is_err());
}

#[test]
fn sources_match_the_files() {
    let r = login();
    assert!(check_sources(&r, &vec![]).is_ok());
    assert!(matches!(
        check_sources(&r, &vec![[1; 16]]),
        Err(HumanCommitError::InvalidInput)
    ));
    assert!(check_source_end(0, &[1; 32], &[1; 32]).is_ok());
    assert!(check_source_end(1, &[1; 32], &[1; 32]).is_err());
    assert!(check_source_end(0, &[1; 32], &[2; 32]).is_err());
    assert_eq!(find_attachment(&r, &[1; 16]), None);
    assert!(check_file_count(&r, 0).is_ok());
    assert!(check_file_count(&r, 1).is_err());
}

#[test]
fn delegated_credentials_show_no_notes() {
    let c = delegate([1; 16], [2; 16], &login()).unwrap();
    assert_eq!(c.descriptor.item_id(), &[1; 16]);
    assert_eq!(c.descriptor.revision_id(), &[2; 16]);
    assert_eq!(c.descriptor.kind(), RecordKind::Password);
    assert_eq!(c.descriptor.title(), "Login");
    assert_eq!(c.descriptor.destination(), Some("https://example.test"));
    assert_eq!(c.descriptor.account(), Some("ada"));
    let note = LogicalRecord::new(
        RecordKind::Note,
        HumanMetadata {
            title: "Note".to_owned(),
            destinations: vec![],
            tags: vec![],
            favorite: false,
            notes: "text".to_owned(),
            fields: vec![],
            source_fields: vec![],
        },
        vec![],
        vec![],
        &vec![],
    )
    .unwrap();
    assert!(matches!(
        delegate([1; 16], [2; 16], &note),
        Err(AuthorizationError::CredentialUnavailable)
    ));
    assert!(HumanCredentialAccess::new([1; 16], &note, false).is_none());
    let shown = HumanCredentialAccess::new([1; 16], &login(), true).unwrap();
    assert_eq!(shown.item(), &[1; 16]);
    assert_eq!(shown.title(), "Login");
    assert!(shown.enabled());
}

#[test]
fn opened_revisions_are_checked() {
    let r = login();
    let name = RecordKind::Password.name();
    let check = |item: u8, revision: u8, kind: RecordKind, expected: Option<&str>| {
        check_revision(&[1; 16], &[2; 16], &[item; 16], &[revision; 16], kind, &r, expected)
    };
    assert!(check(1, 2, RecordKind::Password, Some(name)).is_ok());
    assert!(check(1, 2, RecordKind::Password, None).is_ok());
    assert!(check(2, 2, RecordKind::Password, None).is_err());
    assert!(check(1, 1, RecordKind::Password, None).is_err());
    assert!(check(1, 2, RecordKind::Note, None).is_err());
    assert!(check(1, 2, RecordKind::Password, Some("other")).is_err());
    let e = HumanCatalogEntry::new(&[1; 16], "trash", &r).unwrap();
    assert_eq!(e.item_id(), &[1; 16]);
    assert_eq!(e.kind(), RecordKind::Password);
    assert_eq!(e.title(), "Login");
    assert_eq!(e.tags(), &["work".to_owned()]);
    assert!(e.favorite());
    assert_eq!(e.lifecycle(), ItemLifecycle::Trash);
    assert!(HumanCatalogEntry::new(&[1; 15], "trash", &r).is_err());
    assert!(HumanCatalogEntry::new(&[1; 16], "odd", &r).is_err());
}

#[test]
fn registrations_belong_to_their_revision() {
    assert!(check_registration("item-revision", &[1; 16], &[1; 16]).is_ok());
    assert!(matches!(
        check_registration("trash", &[1; 16], &[1; 16]),
        Err(HumanCommitError::BodyChanged)
    ));
    assert!(check_registration("item-revision", &[1; 16], &[2; 16]).is_err());
    assert!(check_registration("item-revision", &[1; 16], &[1; 15]).is_err());
    assert!(check_changed(1).is_ok());
    assert!(matches!(check_changed(0), Err(HumanCommitError::StateChanged)));
    assert!(matches!(check_changed(2), Err(HumanCommitError::StateChanged)));
}

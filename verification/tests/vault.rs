use std::cell::RefCell;

use pm_vault::vault::{
    check_bundle, check_identity, check_journal, check_metadata, check_unlocked,
    cleanup_persist_artifacts, combine_persist_result, IoFault, PersistArtifacts,
    PersistPublication, VaultError, VaultMetadata, MAX_ROOT_BUNDLE_BYTES,
};

#[test]
fn cleanup_distinguishes_optional_absence_and_attempts_every_artifact() {
    let paths = PersistArtifacts::synthetic("/synthetic/temp");
    let attempted = RefCell::new(Vec::new());
    let errors = cleanup_persist_artifacts(&paths, |path: &str| {
        attempted.borrow_mut().push(path.to_owned());
        if path == paths.temporary {
            Err(IoFault::PermissionDenied)
        } else {
            Err(IoFault::NotFound)
        }
    });
    let attempted = attempted.into_inner();
    assert_eq!(attempted.len(), 3);
    assert_eq!(errors.len(), 1);
    assert_eq!(errors[0], IoFault::PermissionDenied);
    assert_eq!(
        attempted,
        vec!["/synthetic/temp", "/synthetic/temp-wal", "/synthetic/temp-shm"]
    );
}

#[test]
fn published_cleanup_failure_retains_operation_and_publication_state() {
    let original = VaultError::InvalidFormat;
    let error = combine_persist_result(
        Err(original),
        PersistPublication::Published,
        vec![IoFault::PermissionDenied],
    )
    .unwrap_err();
    let VaultError::Cleanup(cleanup) = error else {
        panic!("cleanup failure was discarded")
    };
    assert_eq!(cleanup.publication(), PersistPublication::Published);
    assert_eq!(cleanup.failure_count(), 1);
    assert!(matches!(cleanup.operation(), Some(VaultError::InvalidFormat)));
    assert_eq!(cleanup.failures(), &[IoFault::PermissionDenied]);
}

#[test]
fn a_missing_temporary_file_is_a_cleanup_failure() {
    let paths = PersistArtifacts::synthetic("t");
    let remove = |path: &str| if path == "t" { Err(IoFault::NotFound) } else { Ok(()) };
    assert_eq!(cleanup_persist_artifacts(&paths, remove), vec![IoFault::NotFound]);
}

#[test]
fn a_clean_success_stays_a_success() {
    let paths = PersistArtifacts::synthetic("t");
    let remove = |path: &str| if path == "t-wal" { Err(IoFault::NotFound) } else { Ok(()) };
    let failures = cleanup_persist_artifacts(&paths, remove);
    assert!(failures.is_empty());
    assert!(combine_persist_result(Ok(()), PersistPublication::Published, failures).is_ok());
    let failed = combine_persist_result(
        Err(VaultError::AlreadyExists),
        PersistPublication::Unpublished,
        vec![],
    );
    assert!(matches!(failed, Err(VaultError::AlreadyExists)));
}

#[test]
fn a_failed_cleanup_after_success_has_no_operation_error() {
    let error =
        combine_persist_result(Ok(()), PersistPublication::Published, vec![IoFault::Other])
            .unwrap_err();
    assert_eq!(error.message(), "vault cleanup failed");
    let VaultError::Cleanup(cleanup) = error else { panic!("not a cleanup failure") };
    assert!(cleanup.operation().is_none());
}

#[test]
fn link_faults_tell_an_existing_vault_apart() {
    assert!(matches!(VaultError::from_link(IoFault::AlreadyExists), VaultError::AlreadyExists));
    assert!(matches!(
        VaultError::from_link(IoFault::NotFound),
        VaultError::Io(IoFault::NotFound)
    ));
}

fn metadata() -> VaultMetadata {
    VaultMetadata {
        format_version: 1,
        suite: 1,
        vault_id: vec![7; 16],
        authority_epoch: 1,
        human_public_key: vec![9; 32],
    }
}

#[test]
fn metadata_of_other_formats_is_rejected() {
    assert!(check_metadata(Some(metadata())).is_ok());
    assert!(check_metadata(None).is_err());
    let mut other = metadata();
    other.format_version = 2;
    assert!(matches!(check_metadata(Some(other)), Err(VaultError::InvalidFormat)));
    let mut other = metadata();
    other.suite = 0;
    assert!(check_metadata(Some(other)).is_err());
    let mut other = metadata();
    other.vault_id = vec![7; 15];
    assert!(check_metadata(Some(other)).is_err());
    let mut other = metadata();
    other.authority_epoch = 2;
    assert!(check_metadata(Some(other)).is_err());
    let mut other = metadata();
    other.human_public_key = vec![9; 31];
    assert!(check_metadata(Some(other)).is_err());
}

#[test]
fn only_one_bounded_root_bundle_is_read() {
    assert!(check_bundle(1, Some(1)).is_ok());
    assert!(check_bundle(1, Some(MAX_ROOT_BUNDLE_BYTES)).is_ok());
    assert!(check_bundle(1, Some(MAX_ROOT_BUNDLE_BYTES + 1)).is_err());
    assert!(check_bundle(1, Some(0)).is_err());
    assert!(check_bundle(2, Some(1)).is_err());
    assert!(check_bundle(1, None).is_err());
}

#[test]
fn the_bundle_must_be_the_announced_one() {
    assert!(check_identity(&metadata(), &[7; 16], 1, &[9; 32]).is_ok());
    assert!(check_identity(&metadata(), &[8; 16], 1, &[9; 32]).is_err());
    assert!(check_identity(&metadata(), &[7; 16], 2, &[9; 32]).is_err());
    assert!(check_identity(&metadata(), &[7; 16], 1, &[8; 32]).is_err());
    assert!(check_unlocked(&[7; 16], &[9; 32], &[7; 16], &[9; 32]).is_ok());
    assert!(check_unlocked(&[7; 16], &[9; 32], &[7; 16], &[8; 32]).is_err());
}

#[test]
fn the_journal_must_stand_beside_the_database() {
    assert!(check_journal("wal").is_ok());
    assert!(matches!(check_journal("delete"), Err(VaultError::InvalidFormat)));
}

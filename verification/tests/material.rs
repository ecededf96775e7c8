use pm_vault::attempts::{claim, start, Execution, IdempotencyKey, StartAttempt};
use pm_vault::authorization::{new_credential, AgentIdentity};
use pm_vault::content::{
    AuthRecord, Destination, HumanMetadata, LogicalRecord, RecordKind, TotpAlgorithm,
};
use pm_vault::errors::{AttemptError, AuthorizationError};
use pm_vault::material::{
    credential_material, password_material, token_exchange_material, AttemptLease,
};
use pm_vault::prepare::delegate;

fn password() -> AuthRecord {
    AuthRecord::Password {
        username: "ada".to_owned(),
        password: b"secret".to_vec(),
        destination_refs: vec![0],
    }
}

fn totp(account: &str) -> AuthRecord {
    AuthRecord::Totp {
        secret: vec![1, 2, 3, 4, 5, 6, 7, 8, 9, 10],
        algorithm: TotpAlgorithm::Sha256,
        digits: 6,
        period: 30,
        t0: 0,
        issuer: "issuer".to_owned(),
        account: account.to_owned(),
        destination_refs: vec![],
    }
}

fn record(auth: Vec<AuthRecord>) -> LogicalRecord {
    LogicalRecord::new(
        RecordKind::Password,
        HumanMetadata {
            title: "login".to_owned(),
            destinations: vec![Destination {
                label: "web".to_owned(),
                value: "https://example.test".to_owned(),
            }],
            tags: vec![],
            favorite: false,
            notes: String::new(),
            fields: vec![],
            source_fields: vec![],
        },
        auth,
        vec![],
        &vec![],
    )
    .unwrap()
}

fn auth(list: Vec<AuthRecord>) -> Vec<u8> {
    record(list).encode_auth().unwrap()
}

#[test]
fn the_password_of_a_delegated_item_is_given() {
    let r = record(vec![password()]);
    let credential = delegate([1; 16], [2; 16], &r).unwrap();
    assert_eq!(credential.descriptor.title(), "login");
    assert_eq!(credential.descriptor.account(), Some("ada"));
    assert_eq!(credential.descriptor.destination(), Some("https://example.test"));
    let m = password_material(&credential.auth, "password").unwrap();
    assert_eq!(m.username, "ada");
    assert_eq!(m.password, b"secret".to_vec());
    assert!(m.totp.is_none() && m.subject_token.is_none());
}

#[test]
fn items_without_a_way_to_authenticate_are_not_delegated() {
    let note = LogicalRecord::new(
        RecordKind::Note,
        HumanMetadata {
            title: "note".to_owned(),
            destinations: vec![],
            tags: vec![],
            favorite: false,
            notes: String::new(),
            fields: vec![],
            source_fields: vec![],
        },
        vec![],
        vec![],
        &vec![],
    )
    .unwrap();
    assert!(matches!(
        delegate([1; 16], [2; 16], &note),
        Err(AuthorizationError::CredentialUnavailable)
    ));
}

#[test]
fn one_time_passwords_must_be_for_the_same_account() {
    let both = auth(vec![password(), totp("ada")]);
    assert!(password_material(&both, "password").unwrap().totp.is_none());
    let m = password_material(&both, "password_totp").unwrap();
    let t = m.totp.as_ref().unwrap();
    assert_eq!(t.secret(), &[1, 2, 3, 4, 5, 6, 7, 8, 9, 10]);
    assert_eq!(t.algorithm(), TotpAlgorithm::Sha256);
    assert_eq!((t.digits(), t.period(), t.t0()), (6, 30, 0));
    assert!(matches!(
        password_material(&auth(vec![password(), totp("bob")]), "password_totp"),
        Err(AttemptError::CredentialUnavailable)
    ));
    assert!(matches!(
        password_material(&auth(vec![password()]), "password_totp"),
        Err(AttemptError::CredentialUnavailable)
    ));
}

#[test]
fn broken_lists_are_refused() {
    assert!(matches!(password_material(b"", "password"), Err(AttemptError::Integrity)));
    assert!(matches!(
        password_material(b"\x80", "password"),
        Err(AttemptError::CredentialUnavailable)
    ));
    assert!(matches!(
        password_material(b"\x81\xa1\x66method\x68password", "password"),
        Err(AttemptError::Integrity)
    ));
    assert!(matches!(
        password_material(b"\x81\xa1\x66method\x64totp", "password"),
        Err(AttemptError::Integrity)
    ));
    let unknown = b"\x81\xa4\x66method\x68password\x67unknown\x82\x01\x02\x68username\x61u\x68password\x41p";
    let m = password_material(unknown, "password").unwrap();
    assert_eq!((m.username.as_str(), m.password.as_slice()), ("u", b"p".as_slice()));
    assert!(matches!(
        password_material(b"\x81\xa1\x69algorithm\x63MD5", "password"),
        Err(AttemptError::Integrity)
    ));
}

fn exchange(token: &[u8], secret: &[u8], expires: &[u8]) -> Vec<u8> {
    let mut b = b"\x81\xa8\x66method\x6etoken_exchange\x6dsubject_token".to_vec();
    b.push(0x40 + token.len() as u8);
    b.extend(token);
    b.extend(b"\x73requester_client_id\x66client\x77requester_client_secret");
    b.push(0x40 + secret.len() as u8);
    b.extend(secret);
    b.extend(b"\x68provider\x68keycloak\x6aprofile_id\x61d\x70destination_refs\x81\x00\x6aexpires_at");
    b.extend(expires);
    b
}

#[test]
fn exchangeable_tokens_are_given_until_they_expire() {
    let m = token_exchange_material(&exchange(b"tok", b"sec", b"\xf6"), "d", 5).unwrap();
    assert_eq!(m.username, "client");
    assert_eq!(m.password, b"sec".to_vec());
    assert_eq!(m.subject_token, Some(b"tok".to_vec()));
    assert!(token_exchange_material(&exchange(b"tok", b"sec", b"\x06"), "d", 5).is_ok());
    assert!(matches!(
        token_exchange_material(&exchange(b"tok", b"sec", b"\x05"), "d", 5),
        Err(AttemptError::CredentialUnavailable)
    ));
    assert!(matches!(
        token_exchange_material(&exchange(b"", b"sec", b"\xf6"), "d", 5),
        Err(AttemptError::CredentialUnavailable)
    ));
    assert!(token_exchange_material(&exchange(b"tok", b"", b"\xf6"), "d", 5).is_err());
    assert!(matches!(
        token_exchange_material(&exchange(b"tok", b"sec", b"\xf6"), "other", 5),
        Err(AttemptError::Integrity)
    ));
    let mut longer = exchange(b"tok", b"sec", b"\xf6");
    longer.push(0);
    assert!(matches!(
        token_exchange_material(&longer, "d", 5),
        Err(AttemptError::CredentialUnavailable)
    ));
}

#[test]
fn reconciliation_gives_nothing() {
    let m = credential_material(true, "any", b"", "d", "password", 0).unwrap();
    assert!(m.username.is_empty() && m.password.is_empty());
    assert!(m.subject_token.is_none() && m.totp.is_none());
    let m = credential_material(
        false,
        "keycloak-token-exchange",
        &exchange(b"tok", b"sec", b"\xf6"),
        "d",
        "token_exchange",
        0,
    )
    .unwrap();
    assert!(m.subject_token.is_some());
    let m = credential_material(
        false,
        "controlled.external",
        &auth(vec![password()]),
        "d",
        "password",
        0,
    )
    .unwrap();
    assert_eq!(m.username, "ada");
}

#[test]
fn a_lease_can_be_wiped() {
    let key = IdempotencyKey::new(0, [9; 16]).unwrap();
    let request = StartAttempt::new(
        [1; 16],
        "controlled.external",
        1,
        "password",
        "d",
        vec![],
        key,
    )
    .unwrap();
    let credential = new_credential(
        [1; 16],
        [2; 16],
        RecordKind::Password,
        "t".to_owned(),
        Some("d".to_owned()),
        None,
    );
    let snapshot =
        claim(start(&request, &credential, (0, 0), [3; 16], 0).unwrap(), &[2; 16]).unwrap();
    let material =
        password_material(&auth(vec![password(), totp("ada")]), "password_totp").unwrap();
    let execution = Execution {
        destination: "d".to_owned(),
        context: vec![1],
        method: "password_totp".to_owned(),
    };
    let owner = AgentIdentity::new([5; 16], 2);
    let mut lease = AttemptLease::new(&snapshot, [4; 16], execution, owner, material, false);
    assert_eq!(lease.attempt_id(), &[3; 16]);
    assert_eq!(lease.lease_token(), &[4; 16]);
    assert_eq!(lease.credential_id(), &[1; 16]);
    assert_eq!(lease.revision_id(), &[2; 16]);
    assert_eq!(lease.destination(), "d");
    assert_eq!(lease.context(), &[1]);
    assert_eq!(lease.integration_id(), "controlled.external");
    assert_eq!(lease.method(), "password_totp");
    assert_eq!(lease.owner(), &owner);
    assert_eq!(lease.username(), "ada");
    assert_eq!(lease.password(), b"secret");
    assert!(!lease.reconciliation_only());
    lease.wipe();
    assert!(lease.password().is_empty());
    assert!(lease.totp().unwrap().secret().is_empty());
    assert!(lease.subject_token().is_none());
}

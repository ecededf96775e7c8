use pm_vault::attempts::{
    attempt_event, cancel, check_clock, check_lease, check_leased, check_repeated, check_revision,
    claim, claimed_row, decode_execution, decode_snapshot, encode_params, encode_scope,
    encode_snapshot, free_row, load_owned, next_claim, observe, recover, settle, start,
    AttemptOutcome, AttemptScope, AttemptSnapshot, AttemptState, ClaimRow, Execution,
    ExistingAttempt, IdempotencyKey, LeaseRow, OwnerRow, StartAttempt, ATTEMPT_LIFETIME_US,
    IDEMPOTENCY_LIFETIME_US, KEY_FUTURE_US, KEY_PAST_US, MAX_CONTEXT, RESULT_LIFETIME_US,
};
use pm_vault::audit::{AuditAction, AuditOutcome};
use pm_vault::authorization::{new_credential, AgentIdentity, DelegatedCredential};
use pm_vault::content::RecordKind;
use pm_vault::errors::AttemptError;

const NOW: i64 = 1_700_000_000_000_000;

fn key() -> IdempotencyKey {
    IdempotencyKey::new(NOW, [9; 16]).unwrap()
}

fn request(integration: &str, method: &str, context: &[u8]) -> StartAttempt {
    StartAttempt::new(
        [1; 16],
        integration,
        1,
        method,
        "https://example.test",
        context.to_vec(),
        key(),
    )
    .unwrap()
}

fn credential(kind: RecordKind) -> DelegatedCredential {
    new_credential(
        [1; 16],
        [2; 16],
        kind,
        "title".to_owned(),
        Some("https://example.test".to_owned()),
        Some("account".to_owned()),
    )
}

fn created() -> AttemptSnapshot {
    start(
        &request("controlled.external", "password", b""),
        &credential(RecordKind::Password),
        (0, 0),
        [3; 16],
        NOW,
    )
    .unwrap()
}

fn running() -> AttemptSnapshot {
    claim(created(), &[2; 16]).unwrap()
}

#[test]
fn states_have_stored_names() {
    for (state, name, terminal) in [
        (AttemptState::Created, "created", false),
        (AttemptState::Running, "running", false),
        (AttemptState::WaitingForHuman, "waiting_for_human", false),
        (AttemptState::Succeeded, "succeeded", true),
        (AttemptState::Failed, "failed", true),
        (AttemptState::Cancelled, "cancelled", true),
        (AttemptState::Expired, "expired", true),
        (AttemptState::Indeterminate, "indeterminate", false),
    ] {
        assert_eq!(state.name(), name);
        assert_eq!(AttemptState::parse(name).unwrap(), state);
        assert_eq!(state.terminal(), terminal);
    }
    assert!(matches!(AttemptState::parse("done"), Err(AttemptError::Integrity)));
}

#[test]
fn keys_and_requests_are_bounded() {
    assert!(matches!(IdempotencyKey::new(1, [0; 16]), Err(AttemptError::InvalidArgument)));
    assert_eq!(key().issued_at_us(), NOW);
    assert_eq!(key().nonce(), &[9; 16]);
    let make = |id: [u8; 16], integration: &str, version, method: &str, to: &str, n: usize| {
        StartAttempt::new(id, integration, version, method, to, vec![0; n], key()).is_ok()
    };
    assert!(make([1; 16], "i", 1, "m", "d", MAX_CONTEXT));
    assert!(!make([0; 16], "i", 1, "m", "d", 0));
    assert!(!make([1; 16], "", 1, "m", "d", 0));
    assert!(!make([1; 16], &"i".repeat(129), 1, "m", "d", 0));
    assert!(!make([1; 16], "i", 0, "m", "d", 0));
    assert!(!make([1; 16], "i", 1, "", "d", 0));
    assert!(!make([1; 16], "i", 1, &"m".repeat(65), "d", 0));
    assert!(!make([1; 16], "i", 1, "m", "", 0));
    assert!(!make([1; 16], "i", 1, "m", &"d".repeat(8193), 0));
    assert!(!make([1; 16], "i", 1, "m", "d", MAX_CONTEXT + 1));
}

#[test]
fn parameters_and_scopes_are_encoded_in_order() {
    let request = StartAttempt::new([1; 16], "i", 2, "m", "d", vec![7], key()).unwrap();
    let mut expected = vec![0x86, 0x50];
    expected.extend([1; 16]);
    expected.extend(b"\x61i\x02\x61m\x61d\x41\x07");
    assert_eq!(encode_params(&request), expected);
    let scope = AttemptScope {
        vault: [1; 16],
        device: [2; 16],
        identity: AgentIdentity::new([3; 16], 4),
        key: IdempotencyKey::new(-1, [5; 16]).unwrap(),
    };
    let mut expected = vec![0x87, 0x71];
    expected.extend(b"pm/idempotency/v1");
    for byte in [1u8, 2, 3] {
        expected.push(0x50);
        expected.extend([byte; 16]);
    }
    expected.extend([4, 0x20, 0x50]);
    expected.extend([5; 16]);
    assert_eq!(encode_scope(&scope), expected);
}

#[test]
fn a_clock_that_fell_behind_is_not_trusted() {
    assert_eq!(check_clock(None, 5).unwrap(), 5);
    assert_eq!(check_clock(Some(10), 5).unwrap(), 10);
    assert_eq!(check_clock(Some(KEY_FUTURE_US + 5), 5).unwrap(), KEY_FUTURE_US + 5);
    assert!(matches!(
        check_clock(Some(KEY_FUTURE_US + 6), 5),
        Err(AttemptError::ClockUntrusted)
    ));
    assert_eq!(check_clock(Some(i64::MAX), i64::MAX).unwrap(), i64::MAX);
}

#[test]
fn requests_are_repeated_under_their_key() {
    let existing = |params: u8, created: i64| {
        Some(ExistingAttempt {
            attempt_id: vec![3; 16],
            params_digest: vec![params; 32],
            created_at_us: created,
        })
    };
    assert_eq!(check_repeated(&existing(1, NOW), &[1; 32], &key(), NOW).unwrap(), Some([3; 16]));
    assert!(matches!(
        check_repeated(&existing(2, NOW), &[1; 32], &key(), NOW),
        Err(AttemptError::IdempotencyConflict)
    ));
    let old = NOW - IDEMPOTENCY_LIFETIME_US;
    assert!(check_repeated(&existing(1, old), &[1; 32], &key(), NOW).is_ok());
    assert!(matches!(
        check_repeated(&existing(1, old - 1), &[1; 32], &key(), NOW),
        Err(AttemptError::IdempotencyExpired)
    ));
    assert!(matches!(
        check_repeated(
            &Some(ExistingAttempt {
                attempt_id: vec![3; 15],
                params_digest: vec![1; 32],
                created_at_us: NOW
            }),
            &[1; 32],
            &key(),
            NOW
        ),
        Err(AttemptError::Integrity)
    ));
    assert_eq!(check_repeated(&None, &[1; 32], &key(), NOW + KEY_PAST_US).unwrap(), None);
    assert!(matches!(
        check_repeated(&None, &[1; 32], &key(), NOW + KEY_PAST_US + 1),
        Err(AttemptError::InvalidArgument)
    ));
    assert!(check_repeated(&None, &[1; 32], &key(), NOW - KEY_FUTURE_US).is_ok());
    assert!(check_repeated(&None, &[1; 32], &key(), NOW - KEY_FUTURE_US - 1).is_err());
}

#[test]
fn integrations_use_what_they_support() {
    let to = b"https://example.test".as_slice();
    let supported = |integration: &str, method: &str, context: &[u8], kind| {
        start(&request(integration, method, context), &credential(kind), (0, 0), [3; 16], NOW)
            .is_ok()
    };
    assert!(supported("controlled.external", "password", b"any", RecordKind::Password));
    assert!(!supported("controlled.external", "password_totp", b"", RecordKind::Password));
    assert!(!supported("controlled.external", "password", b"", RecordKind::Token));
    assert!(supported("keycloak-browser-oidc", "password", to, RecordKind::Password));
    assert!(supported("keycloak-browser-oidc", "password_totp", to, RecordKind::Password));
    assert!(!supported("keycloak-browser-oidc", "password", b"other", RecordKind::Password));
    assert!(supported("keycloak-token-exchange", "token_exchange", to, RecordKind::Token));
    assert!(!supported("keycloak-token-exchange", "token_exchange", to, RecordKind::Password));
    assert!(!supported("unknown", "password", to, RecordKind::Password));
    let mut other = request("controlled.external", "password", b"");
    other.destination = "https://other.test".to_owned();
    assert!(matches!(
        start(&other, &credential(RecordKind::Password), (0, 0), [3; 16], NOW),
        Err(AttemptError::CredentialUnavailable)
    ));
    let mut newer = request("controlled.external", "password", b"");
    newer.integration_version = 2;
    assert!(start(&newer, &credential(RecordKind::Password), (0, 0), [3; 16], NOW).is_err());
}

#[test]
fn unfinished_attempts_are_limited() {
    let go = |unfinished, now| {
        start(
            &request("controlled.external", "password", b""),
            &credential(RecordKind::Password),
            unfinished,
            [3; 16],
            now,
        )
    };
    assert!(go((15, 127), NOW).is_ok());
    assert!(matches!(go((16, 16), NOW), Err(AttemptError::RateLimited)));
    assert!(matches!(go((0, 128), NOW), Err(AttemptError::RateLimited)));
    assert!(matches!(go((0, 0), i64::MAX), Err(AttemptError::ClockUntrusted)));
}

#[test]
fn a_started_attempt_is_created() {
    let s = created();
    assert_eq!(s.attempt_id(), &[3; 16]);
    assert_eq!(s.credential_id(), &[1; 16]);
    assert_eq!(s.revision_id(), &[2; 16]);
    assert_eq!(s.integration_id(), "controlled.external");
    assert_eq!(s.integration_version(), 1);
    assert_eq!(s.state(), AttemptState::Created);
    assert_eq!(s.created_at_us(), NOW);
    assert_eq!(s.expires_at_us(), NOW + ATTEMPT_LIFETIME_US);
    assert_eq!(s.reason(), None);
    assert_eq!(s.result(), None);
}

#[test]
fn snapshots_and_executions_are_read_back() {
    let execution = Execution {
        destination: "https://example.test".to_owned(),
        context: vec![1, 2],
        method: "password".to_owned(),
    };
    let s = settle(
        running(),
        "password",
        "password",
        AttemptOutcome::Succeeded { result: vec![7; 300] },
    )
    .unwrap()
    .snapshot;
    let bytes = encode_snapshot(&s, &Some(execution));
    assert_eq!(decode_snapshot(&bytes).unwrap(), s);
    let back = decode_execution(&bytes).unwrap();
    assert_eq!(back.destination, "https://example.test");
    assert_eq!(back.context, vec![1, 2]);
    assert_eq!(back.method, "password");
    let without = encode_snapshot(&s, &None);
    assert_eq!(decode_snapshot(&without).unwrap(), s);
    assert!(matches!(decode_execution(&without), Err(AttemptError::Integrity)));
    for end in 0..bytes.len() {
        assert!(matches!(decode_snapshot(&bytes[..end]), Err(AttemptError::Integrity)));
    }
    let mut longer = bytes.clone();
    longer.push(0);
    assert!(decode_snapshot(&longer).is_err());
    assert!(decode_execution(&longer).is_err());
}

#[test]
fn the_oldest_executions_are_password_executions() {
    let s = created();
    let mut bytes = encode_snapshot(&s, &None);
    bytes.pop();
    let mut old = bytes.clone();
    old.extend(b"\x82\x61d\x41\x05");
    let back = decode_execution(&old).unwrap();
    assert_eq!(back.method, "password");
    assert_eq!(back.destination, "d");
    assert_eq!(back.context, vec![5]);
    assert!(decode_snapshot(&old).is_ok());
    let other = start(
        &request("keycloak-browser-oidc", "password", b"https://example.test"),
        &credential(RecordKind::Password),
        (0, 0),
        [3; 16],
        NOW,
    )
    .unwrap();
    let mut bytes = encode_snapshot(&other, &None);
    bytes.pop();
    bytes.extend(b"\x82\x61d\x41\x05");
    assert!(decode_execution(&bytes).is_err());
}

#[test]
fn an_unread_tail_may_be_any_item() {
    let mut bytes = encode_snapshot(&created(), &None);
    bytes.pop();
    bytes.extend(b"\x9f\x01\xff");
    assert!(decode_snapshot(&bytes).is_ok());
    bytes.pop();
    assert!(decode_snapshot(&bytes).is_err());
}

#[test]
fn attempts_expire_and_results_are_dropped() {
    let end = NOW + ATTEMPT_LIFETIME_US;
    let seen = observe(created(), end, None, end - 1);
    assert!(!seen.expired && !seen.result_expired);
    let seen = observe(created(), end, None, end);
    assert!(seen.expired && !seen.result_expired);
    assert_eq!(seen.snapshot.state(), AttemptState::Expired);
    assert_eq!(seen.snapshot.reason(), Some("ATTEMPT_EXPIRED"));
    let seen = observe(created(), NOW + 5, None, NOW + 5);
    assert!(seen.expired);
    assert_eq!(seen.snapshot.expires_at_us(), NOW + 5);
    let done = settle(
        running(),
        "password",
        "password",
        AttemptOutcome::Succeeded { result: vec![1] },
    )
    .unwrap();
    assert!(done.terminal);
    assert_eq!(done.audit_outcome, AuditOutcome::Succeeded);
    let seen = observe(done.snapshot.clone(), end, Some(NOW), NOW + RESULT_LIFETIME_US - 1);
    assert!(!seen.result_expired && !seen.expired);
    assert_eq!(seen.snapshot.result(), Some([1u8].as_slice()));
    let seen = observe(done.snapshot, end, Some(NOW), NOW + RESULT_LIFETIME_US);
    assert!(seen.result_expired && !seen.expired);
    assert_eq!(seen.snapshot.result(), None);
    assert_eq!(seen.snapshot.state(), AttemptState::Succeeded);
}

#[test]
fn ended_attempts_stay_as_they_are() {
    let (s, changed) = cancel(created());
    assert!(changed);
    assert_eq!(s.state(), AttemptState::Cancelled);
    assert_eq!(s.reason(), Some("ATTEMPT_CANCELLED"));
    let (again, changed) = cancel(s.clone());
    assert!(!changed);
    assert_eq!(again, s);
    assert!(!observe(s, 0, None, i64::MAX).expired);
    for reconcile in [true, false] {
        assert!(!claimable(AttemptState::Cancelled, i64::MAX, Some(0), reconcile, NOW));
        assert!(!claimable(AttemptState::Running, i64::MAX, Some(0), reconcile, NOW));
    }
}

fn claimable(
    state: AttemptState,
    expires_at_us: i64,
    claimed_at_us: Option<i64>,
    reconcile: bool,
    now: i64,
) -> bool {
    let row = ClaimRow { state, created_at_us: 0, expires_at_us, claimed_at_us };
    next_claim(&vec![row], reconcile, now) == Some(0)
}

#[test]
fn the_longest_waiting_attempt_is_claimed() {
    let row = |state, created_at_us, claimed_at_us| ClaimRow {
        state,
        created_at_us,
        expires_at_us: NOW + 1,
        claimed_at_us,
    };
    let rows = vec![
        row(AttemptState::Created, 5, None),
        row(AttemptState::Indeterminate, 0, Some(9)),
        row(AttemptState::Created, 3, None),
        row(AttemptState::Running, 1, Some(1)),
        row(AttemptState::WaitingForHuman, 2, Some(7)),
    ];
    assert_eq!(next_claim(&rows, false, NOW), Some(2));
    assert_eq!(next_claim(&rows, true, NOW), Some(4));
    assert_eq!(next_claim(&rows, false, NOW + 1), None);
    assert_eq!(next_claim(&vec![], true, NOW), None);
}

#[test]
fn attempts_are_claimed_in_time() {
    assert!(claimable(AttemptState::Created, NOW + 1, None, false, NOW));
    assert!(!claimable(AttemptState::Created, NOW, None, false, NOW));
    assert!(!claimable(AttemptState::Created, NOW + 1, None, true, NOW));
    assert!(claimable(AttemptState::WaitingForHuman, NOW + 1, Some(NOW - 100_000), true, NOW));
    assert!(!claimable(AttemptState::WaitingForHuman, NOW + 1, Some(NOW - 99_999), true, NOW));
    assert!(claimable(AttemptState::Indeterminate, NOW + 1, Some(0), true, NOW));
    assert!(!claimable(AttemptState::Indeterminate, NOW + 1, None, true, NOW));
    assert!(matches!(claim(created(), &[9; 16]), Err(AttemptError::CredentialUnavailable)));
    assert_eq!(running().state(), AttemptState::Running);
    assert!(check_revision(&[1; 16], &[1; 16]).is_ok());
    assert!(matches!(
        check_revision(&[1; 16], &[2; 16]),
        Err(AttemptError::CredentialUnavailable)
    ));
}

#[test]
fn outcomes_settle_an_attempt() {
    let go = |outcome| settle(running(), "password", "password", outcome);
    let waiting =
        go(AttemptOutcome::WaitingForHuman { challenge: b"scan".to_vec() }).unwrap();
    assert_eq!(waiting.snapshot.state(), AttemptState::WaitingForHuman);
    assert_eq!(waiting.snapshot.reason(), Some("scan"));
    assert_eq!(waiting.audit_outcome, AuditOutcome::Accepted);
    assert!(!waiting.terminal);
    let failed = go(AttemptOutcome::Failed { reason: "DENIED" }).unwrap();
    assert_eq!(failed.snapshot.state(), AttemptState::Failed);
    assert_eq!(failed.snapshot.reason(), Some("DENIED"));
    assert!(failed.terminal);
    let unknown = go(AttemptOutcome::Indeterminate).unwrap();
    assert_eq!(unknown.snapshot, recover(running()));
    assert_eq!(unknown.snapshot.reason(), Some("INDETERMINATE"));
    assert!(!unknown.terminal);
    assert!(matches!(
        go(AttemptOutcome::Succeeded { result: vec![0; MAX_CONTEXT + 1] }),
        Err(AttemptError::InvalidArgument)
    ));
    assert!(go(AttemptOutcome::WaitingForHuman { challenge: vec![0xff] }).is_err());
    assert!(go(AttemptOutcome::WaitingForHuman { challenge: vec![b'a'; MAX_CONTEXT + 1] }).is_err());
    assert!(matches!(
        settle(running(), "password", "password_totp", AttemptOutcome::Indeterminate),
        Err(AttemptError::Integrity)
    ));
}

#[test]
fn attempts_exist_for_their_owner_alone() {
    let owner = AgentIdentity::new([5; 16], 2);
    let row = |subject: Vec<u8>, generation, kept: bool| {
        Some(OwnerRow { package: kept.then_some(vec![7]), subject, generation })
    };
    assert_eq!(load_owned(row(vec![5; 16], 2, true), &owner).unwrap(), vec![7]);
    assert!(matches!(load_owned(None, &owner), Err(AttemptError::NotFound)));
    assert!(matches!(
        load_owned(row(vec![6; 16], 2, true), &owner),
        Err(AttemptError::NotFound)
    ));
    assert!(matches!(
        load_owned(row(vec![5; 16], 3, true), &owner),
        Err(AttemptError::NotFound)
    ));
    assert!(matches!(
        load_owned(row(vec![5; 15], 2, true), &owner),
        Err(AttemptError::Integrity)
    ));
    assert!(matches!(
        load_owned(row(vec![5; 16], -1, true), &owner),
        Err(AttemptError::Integrity)
    ));
    assert!(matches!(
        load_owned(row(vec![5; 16], 2, false), &owner),
        Err(AttemptError::ResultExpired)
    ));
}

#[test]
fn a_lease_holds_for_its_attempt() {
    let owner = AgentIdentity::new([5; 16], 2);
    let row = |revision: u8, subject: u8, generation: i64, token: u8| {
        Some(LeaseRow {
            revision_id: vec![revision; 16],
            subject: vec![subject; 16],
            generation,
            lease_token: vec![token; 16],
        })
    };
    let check = |r| check_lease(&r, &[1; 16], &owner, &[3; 16]);
    assert!(check(row(1, 5, 2, 3)).is_ok());
    assert!(matches!(check(None), Err(AttemptError::NotFound)));
    assert!(matches!(check(row(2, 5, 2, 3)), Err(AttemptError::Integrity)));
    assert!(check(row(1, 6, 2, 3)).is_err());
    assert!(check(row(1, 5, 3, 3)).is_err());
    assert!(check(row(1, 5, -2, 3)).is_err());
    assert!(check(row(1, 5, 2, 4)).is_err());
}

#[test]
fn a_lease_is_settled_once() {
    let held = claimed_row(&[7; 16]);
    assert_eq!((held.state.as_str(), held.terminal_at_us), ("running", None));
    let held = Some(held);
    assert!(check_leased(&held, &[7; 16]).is_ok());
    assert!(matches!(check_leased(&held, &[8; 16]), Err(AttemptError::NotFound)));
    assert!(matches!(check_leased(&None, &[7; 16]), Err(AttemptError::NotFound)));
    for (outcome, terminal) in [
        (AttemptOutcome::Succeeded { result: vec![1] }, Some(NOW)),
        (AttemptOutcome::Failed { reason: "REJECTED" }, Some(NOW)),
        (AttemptOutcome::WaitingForHuman { challenge: b"code".to_vec() }, None),
        (AttemptOutcome::Indeterminate, None),
    ] {
        let ended = settle(created(), "password", "password", outcome).unwrap();
        let row = free_row(&ended.snapshot, NOW);
        assert_eq!(row.state, ended.snapshot.state().name());
        assert_eq!(row.terminal_at_us, terminal);
        assert!(matches!(check_leased(&Some(row), &[7; 16]), Err(AttemptError::NotFound)));
    }
}

#[test]
fn attempts_are_recorded_for_their_agent() {
    assert!(attempt_event(&[5; 16], &created(), AuditAction::AuthUse, AuditOutcome::Accepted).is_ok());
    assert!(matches!(
        attempt_event(&[5; 15], &created(), AuditAction::AuthUse, AuditOutcome::Accepted),
        Err(AttemptError::Integrity)
    ));
}

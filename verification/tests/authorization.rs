use pm_vault::authorization::{
    decode_credential, encode_credential, new_credential, open_operational_credential,
    signature_rule, verify_agent, verify_global, zero_id, AgentEnrollment, AgentPeer, AgentRow,
    OperationalCredential,
};
use pm_vault::commit::{plan_event, Issuer};
use pm_vault::content::RecordKind;
use pm_vault::errors::{AttemptError, AuthorizationError, HumanCommitError};
use pm_vault::events::{decode_event_header, AuthorityEventHeader};
use pm_vault::human::{
    delegation_suspended, enrollment_generation, next_chunk, revocation_generation,
    check_attempt_access, HumanAccessOverview, HumanAgentAccess, StreamCheck, STREAM_CHUNK,
};
use pm_vault::table::Table;

fn header(kind: &str, subject: [u8; 16], generation: u64) -> AuthorityEventHeader {
    let issuer = Issuer { vault: [1; 16], device: [2; 16] };
    let p = plan_event(
        &issuer, [3; 16], 0, &None, &vec![], kind, subject, generation, vec![0xa0],
    )
    .unwrap();
    decode_event_header([9; 32], &p.event).unwrap()
}

fn agent(status: &str, revoked: bool) -> Option<AgentRow> {
    Some(AgentRow { subject: vec![4; 16], generation: 2, status: status.to_owned(), revoked })
}

#[test]
fn enrollments_have_limits() {
    let e = AgentEnrollment::new([1; 16], [2; 16], &[3; 44], "agent", "host").unwrap();
    assert_eq!(e.subject_id(), &[1; 16]);
    assert_eq!(e.request_id(), &[2; 16]);
    assert_eq!(e.transport_rpk(), &[3; 44]);
    assert_eq!(e.label(), "agent");
    assert_eq!(e.environment_binding(), "host");
    let long = "a".repeat(256);
    assert!(AgentEnrollment::new([1; 16], [2; 16], &[3; 44], &long, &long).is_ok());
    let longer = "a".repeat(257);
    assert!(AgentEnrollment::new([1; 16], [2; 16], &[3; 44], &longer, "").is_err());
    assert!(AgentEnrollment::new([1; 16], [2; 16], &[3; 44], "", &longer).is_err());
    assert!(AgentEnrollment::new([0; 16], [2; 16], &[3; 44], "", "").is_err());
    assert!(AgentEnrollment::new([1; 16], [0; 16], &[3; 44], "", "").is_err());
    assert!(matches!(
        AgentEnrollment::new([1; 16], [2; 16], &[3; 43], "", ""),
        Err(AuthorizationError::InvalidInput)
    ));
    assert!(zero_id(&[0; 16]));
    assert!(!zero_id(&[1; 16]));
}

#[test]
fn peers_are_keys_of_fixed_length() {
    assert_eq!(AgentPeer::from_transport_rpk(&[5; 44]).unwrap().transport_rpk(), &[5; 44]);
    assert!(AgentPeer::from_transport_rpk(&[5; 45]).is_err());
    assert!(AgentPeer::from_transport_rpk(&[]).is_err());
}

#[test]
fn active_agents_are_known() {
    let grant = header("agent-grant", [4; 16], 2);
    let id = verify_agent(&agent("active", false), &grant, &None).unwrap();
    assert_eq!(id.subject(), &[4; 16]);
    assert_eq!(id.generation(), 2);
    assert!(matches!(
        verify_agent(&None, &grant, &None),
        Err(AuthorizationError::Unauthorized)
    ));
    let other = header("agent-grant", [4; 16], 3);
    assert!(matches!(
        verify_agent(&agent("active", false), &other, &None),
        Err(AuthorizationError::Integrity)
    ));
    assert!(matches!(
        verify_agent(&agent("active", true), &grant, &None),
        Err(AuthorizationError::Integrity)
    ));
}

#[test]
fn revoked_agents_are_refused() {
    let grant = header("agent-grant", [4; 16], 2);
    let revocation = Some(header("agent-revoke", [4; 16], 2));
    assert!(matches!(
        verify_agent(&agent("revoked", true), &grant, &revocation),
        Err(AuthorizationError::AgentRevoked)
    ));
    assert!(matches!(
        verify_agent(&agent("revoked", true), &grant, &None),
        Err(AuthorizationError::Integrity)
    ));
    assert!(matches!(
        verify_agent(&agent("superseded", false), &grant, &None),
        Err(AuthorizationError::AgentRevoked)
    ));
    assert!(matches!(
        verify_agent(&agent("odd", false), &grant, &None),
        Err(AuthorizationError::Integrity)
    ));
}

#[test]
fn delegation_needs_a_resumption() {
    let resume = header("resume", [1; 16], 1);
    let suspend = header("suspend", [1; 16], 1);
    assert!(verify_global(Some("resumed"), &resume, &[1; 16]).is_ok());
    assert!(matches!(
        verify_global(None, &resume, &[1; 16]),
        Err(AuthorizationError::AccessSuspended)
    ));
    assert!(matches!(
        verify_global(Some("suspended"), &suspend, &[1; 16]),
        Err(AuthorizationError::AccessSuspended)
    ));
    assert!(matches!(
        verify_global(Some("resumed"), &suspend, &[1; 16]),
        Err(AuthorizationError::Integrity)
    ));
    assert!(matches!(
        verify_global(Some("resumed"), &resume, &[2; 16]),
        Err(AuthorizationError::Integrity)
    ));
    assert!(delegation_suspended(None).unwrap());
    assert!(!delegation_suspended(Some("resumed")).unwrap());
}

#[test]
fn signatures_follow_the_kind() {
    assert!(signature_rule("trash", true).unwrap());
    assert!(signature_rule("trash", false).is_err());
    assert!(!signature_rule("join", false).unwrap());
    assert!(!signature_rule("checkpoint-cache", false).unwrap());
    assert!(signature_rule("join", true).is_err());
}

#[test]
fn credentials_open_for_their_grant() {
    let x = OperationalCredential {
        descriptor: new_credential(
            [4; 16],
            [5; 16],
            RecordKind::Password,
            "Login".to_owned(),
            Some("https://d.test".to_owned()),
            None,
        ),
        auth: vec![1, 2, 3],
    };
    let bytes = encode_credential(&x);
    let read = decode_credential(&bytes).unwrap();
    assert_eq!(read.descriptor, x.descriptor);
    assert_eq!(read.auth, vec![1, 2, 3]);
    assert!(decode_credential(&bytes[1..]).is_err());
    let enable = header("enable", [4; 16], 1);
    let open = |item: u8, revision: u8, digest: u8| {
        open_operational_credential(
            &enable, &[item; 16], &[revision; 16], &[6; 32], &[digest; 32], &bytes,
        )
    };
    assert_eq!(open(4, 5, 6).unwrap().descriptor.title(), "Login");
    for (item, revision, digest) in [(3, 5, 6), (4, 4, 6), (4, 5, 7)] {
        assert!(matches!(open(item, revision, digest), Err(AuthorizationError::Integrity)));
    }
    let mut wiped = read;
    wiped.wipe();
    assert!(wiped.auth.is_empty());
}

#[test]
fn generations_count_up() {
    assert_eq!(enrollment_generation(None, false, 0).unwrap(), 1);
    assert_eq!(enrollment_generation(Some("revoked"), false, 4).unwrap(), 5);
    assert!(enrollment_generation(Some("active"), false, 4).is_err());
    assert!(enrollment_generation(None, true, 4).is_err());
    assert!(enrollment_generation(None, false, -1).is_err());
    assert_eq!(revocation_generation(Some(3)).unwrap(), 3);
    assert!(matches!(revocation_generation(None), Err(AuthorizationError::Unauthorized)));
}

#[test]
fn overviews_hold_their_agents() {
    let a = HumanAgentAccess::new(
        &[1; 16],
        2,
        "label".to_owned(),
        "host".to_owned(),
        "active".to_owned(),
    )
    .unwrap();
    assert!(HumanAgentAccess::new(&[1; 15], 2, String::new(), String::new(), String::new())
        .is_err());
    let o = HumanAccessOverview::new(true, vec![a], vec![]);
    assert!(o.suspended());
    assert_eq!(o.agents()[0].subject(), &[1; 16]);
    assert_eq!(o.agents()[0].generation(), 2);
    assert_eq!(o.agents()[0].label(), "label");
    assert_eq!(o.agents()[0].environment(), "host");
    assert_eq!(o.agents()[0].status(), "active");
    assert!(o.credentials().is_empty());
}

#[test]
fn streams_are_counted() {
    assert_eq!(next_chunk(0), (0, true));
    assert_eq!(next_chunk(STREAM_CHUNK), (STREAM_CHUNK, true));
    assert_eq!(next_chunk(STREAM_CHUNK + 1), (STREAM_CHUNK, false));
    let mut c = StreamCheck::new(2);
    assert!(!c.expect(0).unwrap());
    assert!(c.expect(1).is_err());
    c.add_chunk(10).unwrap();
    assert!(c.expect(1).unwrap());
    c.add_chunk(5).unwrap();
    assert!(c.finish(15, &[1; 32], &[1; 32]).is_ok());
    assert!(c.finish(14, &[1; 32], &[1; 32]).is_err());
    assert!(c.finish(15, &[1; 32], &[2; 32]).is_err());
    assert!(StreamCheck::new(1).finish(0, &[1; 32], &[1; 32]).is_err());
}

#[test]
fn attempts_are_bound_to_their_vault() {
    assert!(check_attempt_access(true, &[1; 16], &[1; 16], &[2; 16], &[2; 16]).is_ok());
    assert!(check_attempt_access(false, &[1; 16], &[1; 16], &[2; 16], &[2; 16]).is_err());
    assert!(check_attempt_access(true, &[1; 16], &[3; 16], &[2; 16], &[2; 16]).is_err());
    assert!(check_attempt_access(true, &[1; 16], &[1; 16], &[2; 16], &[3; 16]).is_err());
}

#[test]
fn errors_have_fixed_texts() {
    assert_eq!(HumanCommitError::StateChanged.message(), "vault authority state changed");
    assert_eq!(HumanCommitError::BodyChanged.message(), "human transaction body changed");
    assert!(!AuthorizationError::AgentRevoked.message().is_empty());
    assert_eq!(AttemptError::NotFound.code(), "NOT_FOUND");
    assert!(matches!(
        AttemptError::from(AuthorizationError::AgentRevoked),
        AttemptError::AgentRevoked
    ));
    assert!(matches!(
        AttemptError::from(AuthorizationError::AccessSuspended),
        AttemptError::AccessSuspended
    ));
}

#[test]
fn tables_hold_one_value_per_key() {
    let mut t: Table<u64> = Table::new();
    assert!(t.is_empty());
    assert!(t.enter(b"a", 1));
    assert!(!t.enter(b"a", 2));
    assert_eq!(t.get(b"a"), Some(&1));
    t.put(b"a", 3);
    t.put(b"b", 4);
    assert_eq!(t.get(b"a"), Some(&3));
    assert_eq!(t.get(b"c"), None);
    assert_eq!(t.remove(b"a"), Some(3));
    assert_eq!(t.remove(b"a"), None);
    assert_eq!(t.get(b"a"), None);
    let mut seen = Vec::new();
    for i in 0..t.slots() {
        if let Some((key, value)) = t.at(i) {
            seen.push((key.to_vec(), *value));
        }
    }
    assert_eq!(seen, vec![(b"b".to_vec(), 4)]);
    assert_eq!(t.remove(b"b"), Some(4));
    assert!(t.is_empty());
}

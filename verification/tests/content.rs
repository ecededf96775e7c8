use pm_vault::compare::same_record;
use pm_vault::content::{
    Attachment, AuthRecord, CustomField, Destination, HumanMetadata, LogicalRecord, LogicalValue,
    PrivateKeyFormat, RecordKind, SourceEncoding, SourceField, TotpAlgorithm, MAX_FIELD, MAX_FILE,
    MAX_TITLE,
};
use pm_vault::errors::HumanCommitError;
use pm_vault::generator::{generate_password, GeneratorConfig, PasswordGenerator, PasswordRng};
use pm_vault::human::{
    authenticator_data, logical_from_password, passkey_usable, password_from_logical,
    register_passkey, PasswordRecord,
};
use pm_vault::search::{search, SearchQuery};

fn human(title: &str) -> HumanMetadata {
    HumanMetadata {
        title: title.to_owned(),
        destinations: vec![Destination {
            label: "web".to_owned(),
            value: "https://example.test".to_owned(),
        }],
        tags: vec!["work".to_owned()],
        favorite: true,
        notes: "nota \u{e9}".to_owned(),
        fields: vec![
            CustomField {
                id: [1; 16],
                label: "pin".to_owned(),
                value: LogicalValue::Text("1234".to_owned()),
                concealed: true,
            },
            CustomField {
                id: [2; 16],
                label: "blob".to_owned(),
                value: LogicalValue::Bytes(vec![0, 255]),
                concealed: false,
            },
        ],
        source_fields: vec![SourceField {
            path: "csv:extra".to_owned(),
            encoding: SourceEncoding::Utf8,
            value: b"kept".to_vec(),
        }],
    }
}

fn password() -> AuthRecord {
    AuthRecord::Password {
        username: "ada".to_owned(),
        password: b"secret".to_vec(),
        destination_refs: vec![0],
    }
}

fn login() -> LogicalRecord {
    LogicalRecord::new(RecordKind::Password, human("Login"), vec![password()], vec![], &vec![])
        .unwrap()
}

fn filed() -> LogicalRecord {
    LogicalRecord::new(
        RecordKind::File,
        human("File"),
        vec![],
        vec![Attachment::new([3; 16], "a.txt", "text/plain", b"bytes", [4; 32]).unwrap()],
        &vec![[4; 32]],
    )
    .unwrap()
}

#[test]
fn records_of_every_kind_are_read_back() {
    let ssh = AuthRecord::Ssh {
        private_format: PrivateKeyFormat::OpenSsh,
        private_key: b"key".to_vec(),
        public_key: b"pub".to_vec(),
        username: "root".to_owned(),
        destination_refs: vec![],
        passphrase: Some(b"pass".to_vec()),
    };
    let token = AuthRecord::Token {
        secret: b"token".to_vec(),
        provider: "forge".to_owned(),
        profile_id: "me".to_owned(),
        destination_refs: vec![0],
        expires_at: Some(-5),
    };
    let totp = AuthRecord::Totp {
        secret: vec![7; 20],
        algorithm: TotpAlgorithm::Sha512,
        digits: 8,
        period: 60,
        t0: 0,
        issuer: "i".to_owned(),
        account: "a".to_owned(),
        destination_refs: vec![],
    };
    let all = vec![
        login(),
        filed(),
        LogicalRecord::new(RecordKind::Ssh, human("s"), vec![ssh], vec![], &vec![]).unwrap(),
        LogicalRecord::new(RecordKind::Token, human("t"), vec![token], vec![], &vec![]).unwrap(),
        LogicalRecord::new(RecordKind::Totp, human("o"), vec![totp], vec![], &vec![]).unwrap(),
        LogicalRecord::new(RecordKind::Note, human("n"), vec![], vec![], &vec![]).unwrap(),
    ];
    for record in &all {
        let digests: Vec<[u8; 32]> =
            record.attachments().iter().map(|a| *a.sha256()).collect();
        let back = LogicalRecord::from_bytes(&record.to_bytes(), &digests).unwrap();
        assert!(same_record(&back, record));
        let auth = record.encode_auth();
        let parts =
            LogicalRecord::decode_parts(&record.encode_human(), auth.as_deref()).unwrap();
        assert_eq!(parts.kind(), record.kind());
        let bytes = record.to_descriptor_bytes();
        let described = LogicalRecord::from_descriptor_bytes(&bytes).unwrap();
        assert_eq!(described.human().title, record.human().title);
        let mut longer = bytes.clone();
        longer.push(0);
        assert!(matches!(
            LogicalRecord::from_descriptor_bytes(&longer),
            Err(HumanCommitError::InvalidInput)
        ));
        for end in 0..bytes.len() {
            assert!(LogicalRecord::from_descriptor_bytes(&bytes[..end]).is_err());
        }
    }
}

#[test]
fn kinds_fix_their_ways_to_authenticate() {
    assert!(LogicalRecord::new(RecordKind::Note, human("n"), vec![password()], vec![], &vec![]).is_err());
    assert!(LogicalRecord::new(RecordKind::Password, human("n"), vec![], vec![], &vec![]).is_err());
    assert!(LogicalRecord::new(RecordKind::File, human("n"), vec![], vec![], &vec![]).is_err());
    let out_of_range = AuthRecord::Password {
        username: String::new(),
        password: vec![],
        destination_refs: vec![1],
    };
    assert!(matches!(
        LogicalRecord::new(RecordKind::Password, human("n"), vec![out_of_range], vec![], &vec![]),
        Err(HumanCommitError::InvalidInput)
    ));
}

#[test]
fn limits_hold_at_their_edge() {
    assert!(LogicalRecord::new(RecordKind::Note, human(&"t".repeat(MAX_TITLE)), vec![], vec![], &vec![]).is_ok());
    assert!(LogicalRecord::new(RecordKind::Note, human(&"t".repeat(MAX_TITLE + 1)), vec![], vec![], &vec![]).is_err());
    let mut broken = human("n");
    broken.source_fields[0].value = vec![0xff];
    assert!(LogicalRecord::new(RecordKind::Note, broken, vec![], vec![], &vec![]).is_err());
    let mut raw = human("n");
    raw.source_fields[0].value = vec![0xff];
    raw.source_fields[0].encoding = SourceEncoding::Bytes;
    assert!(LogicalRecord::new(RecordKind::Note, raw, vec![], vec![], &vec![]).is_ok());
    let long = AuthRecord::Password {
        username: "u".to_owned(),
        password: vec![0; MAX_FIELD + 1],
        destination_refs: vec![],
    };
    assert!(LogicalRecord::new(RecordKind::Password, human("n"), vec![long], vec![], &vec![]).is_err());
    assert!(Attachment::descriptor([1; 16], "n", "m", MAX_FILE, [0; 32]).is_ok());
    assert!(Attachment::descriptor([1; 16], "n", "m", MAX_FILE + 1, [0; 32]).is_err());
    assert!(Attachment::new([1; 16], &"n".repeat(1025), "m", b"", [0; 32]).is_err());
}

#[test]
fn files_must_be_what_they_say() {
    let a = |size, sha, digest| Attachment::from_parts([1; 16], "n", "m", size, sha, b"abc", digest);
    assert!(a(3, [1; 32], [1; 32]).is_ok());
    assert!(matches!(a(4, [1; 32], [1; 32]), Err(HumanCommitError::InvalidInput)));
    assert!(a(3, [1; 32], [2; 32]).is_err());
    let two = || {
        vec![
            Attachment::new([3; 16], "a", "m", b"x", [4; 32]).unwrap(),
            Attachment::new([3; 16], "b", "m", b"y", [5; 32]).unwrap(),
        ]
    };
    assert!(LogicalRecord::new(RecordKind::File, human("f"), vec![], two(), &vec![[4; 32], [5; 32]]).is_err());
    let mut record = LogicalRecord::new_streaming(
        RecordKind::File,
        human("f"),
        vec![],
        vec![Attachment::descriptor([3; 16], "a", "m", 5, [4; 32]).unwrap()],
    )
    .unwrap();
    assert!(record.validate_descriptors().is_ok());
    assert!(record.validate_complete(&vec![[4; 32]]).is_err());
    assert!(record.restore_attachment([9; 16], b"bytes".to_vec(), [4; 32]).is_err());
    assert!(record.restore_attachment([3; 16], b"byte".to_vec(), [4; 32]).is_err());
    assert!(record.restore_attachment([3; 16], b"bytes".to_vec(), [5; 32]).is_err());
    record.restore_attachment([3; 16], b"bytes".to_vec(), [4; 32]).unwrap();
    assert!(record.validate_complete(&vec![[4; 32]]).is_ok());
    assert_eq!(record.attachment_inputs(), vec![([3; 16], b"bytes".to_vec())]);
    assert!(record.remap_attachment_ids(&vec![]).is_err());
    record.remap_attachment_ids(&vec![[8; 16]]).unwrap();
    assert_eq!(record.attachments()[0].id(), &[8; 16]);
    assert_eq!(record.attachments()[0].name(), "a");
    assert_eq!(record.attachments()[0].content(), b"bytes");
}

#[test]
fn organization_changes_and_wiping() {
    let mut record = login();
    record.set_organization(vec!["home".to_owned()], false).unwrap();
    assert_eq!(record.human().tags, vec!["home"]);
    assert!(!record.human().favorite);
    record.wipe();
    match &record.auth()[..] {
        [AuthRecord::Password { password, .. }] => assert!(password.is_empty()),
        [] => {}
        _ => panic!("unexpected ways to authenticate"),
    }
}

#[test]
fn streamed_files_do_not_stop_organization() {
    let mut record = LogicalRecord::new_streaming(
        RecordKind::File,
        human("File"),
        vec![],
        vec![Attachment::descriptor([3; 16], "a", "m", 5, [4; 32]).unwrap()],
    )
    .unwrap();
    record.set_organization(vec!["x".repeat(1024)], true).unwrap();
    assert_eq!(record.attachments()[0].size(), 5);
    assert!(matches!(
        record.set_organization(vec!["x".repeat(1025)], true),
        Err(HumanCommitError::InvalidInput)
    ));
    assert!(record.set_organization(vec![String::new(); 1025], true).is_err());
    record.set_organization(vec![String::new(); 1024], false).unwrap();
}

#[test]
fn names_of_kinds_and_formats() {
    for (kind, name) in [
        (RecordKind::Password, "password"),
        (RecordKind::Totp, "totp"),
        (RecordKind::Passkey, "passkey"),
        (RecordKind::Ssh, "ssh"),
        (RecordKind::Token, "token"),
        (RecordKind::Note, "note"),
        (RecordKind::File, "file"),
    ] {
        assert_eq!(kind.name(), name);
        assert_eq!(RecordKind::from_name(name), Some(kind));
    }
    assert_eq!(RecordKind::from_name("card"), None);
    assert_eq!(TotpAlgorithm::parse(TotpAlgorithm::Sha1.name()), Some(TotpAlgorithm::Sha1));
    assert_eq!(TotpAlgorithm::parse("MD5"), None);
    assert_eq!(SourceEncoding::parse(SourceEncoding::Json.name()), Some(SourceEncoding::Json));
    assert_eq!(
        PrivateKeyFormat::parse(PrivateKeyFormat::Pkcs8.name()),
        Some(PrivateKeyFormat::Pkcs8)
    );
}

#[test]
fn records_are_found_by_text_tag_and_favorite() {
    let records = vec![([1u8; 16], login()), ([2u8; 16], filed())];
    let query = |text: Option<&str>, tag: Option<&str>, favorite| SearchQuery {
        text: text.map(str::to_owned),
        tag: tag.map(str::to_owned),
        favorite,
    };
    let hits = search(&records, &query(Some("login"), None, None));
    assert_eq!(hits.len(), 1);
    assert_eq!(hits[0].item_id(), &[1; 16]);
    assert_eq!(hits[0].title(), "Login");
    assert_eq!(hits[0].kind(), RecordKind::Password);
    assert_eq!(search(&records, &query(None, Some("work"), Some(true))).len(), 2);
    assert_eq!(search(&records, &query(None, Some("home"), None)).len(), 0);
    assert_eq!(search(&records, &query(None, None, Some(false))).len(), 0);
    assert_eq!(search(&records, &query(None, None, None)).len(), 2);
    assert_eq!(search(&records, &query(Some("secret"), None, None)).len(), 0);
}

struct Counting(u8);

impl PasswordRng for Counting {
    fn fill(&mut self, output: &mut [u8]) -> Result<(), HumanCommitError> {
        for byte in output.iter_mut() {
            *byte = self.0;
            self.0 = self.0.wrapping_add(1);
        }
        Ok(())
    }
}

struct Broken;

impl PasswordRng for Broken {
    fn fill(&mut self, _: &mut [u8]) -> Result<(), HumanCommitError> {
        Err(HumanCommitError::RandomUnavailable)
    }
}

struct Failing {
    blocks: usize,
    calls: usize,
}

impl PasswordRng for Failing {
    fn fill(&mut self, output: &mut [u8]) -> Result<(), HumanCommitError> {
        self.calls += 1;
        if self.calls > self.blocks {
            return Err(HumanCommitError::WrongChannel);
        }
        output.fill(0);
        Ok(())
    }
}

#[test]
fn the_error_of_a_source_comes_back() {
    let mut rng = Failing { blocks: 1, calls: 0 };
    assert!(matches!(
        generate_password(&config(65), &mut rng),
        Err(HumanCommitError::WrongChannel)
    ));
    assert_eq!(rng.calls, 2);
    let mut rng = Failing { blocks: 1, calls: 0 };
    assert_eq!(generate_password(&config(64), &mut rng).unwrap().expose(), [b'a'; 64]);
    assert_eq!(rng.calls, 1);
    let mut rng = Failing { blocks: 0, calls: 0 };
    assert!(matches!(
        generate_password(&config(0), &mut rng),
        Err(HumanCommitError::InvalidInput)
    ));
    assert_eq!(rng.calls, 0);
}

fn config(length: usize) -> GeneratorConfig {
    GeneratorConfig { length, lowercase: true, uppercase: false, digits: true, symbols: false }
}

#[test]
fn passwords_are_drawn_from_their_alphabet() {
    let mut made = generate_password(&config(100), &mut Counting(0)).unwrap();
    assert_eq!(made.expose().len(), 100);
    assert!(made.expose().iter().all(|b| b.is_ascii_lowercase() || b.is_ascii_digit()));
    made.wipe();
    assert!(made.expose().is_empty());
    assert!(matches!(
        generate_password(&config(0), &mut Counting(0)),
        Err(HumanCommitError::InvalidInput)
    ));
    assert!(generate_password(&config(1025), &mut Counting(0)).is_err());
    let none = GeneratorConfig {
        length: 8,
        lowercase: false,
        uppercase: false,
        digits: false,
        symbols: false,
    };
    assert!(generate_password(&none, &mut Counting(0)).is_err());
    assert!(matches!(
        generate_password(&config(8), &mut Broken),
        Err(HumanCommitError::RandomUnavailable)
    ));
    let mut steps = PasswordGenerator::new(&config(3)).unwrap();
    assert!(!steps.complete());
    steps.absorb(&[255; 64]);
    assert!(!steps.complete());
    steps.absorb(&[0; 64]);
    assert!(steps.complete());
    assert_eq!(steps.finish().expose().len(), 3);
}

#[test]
fn the_largest_password_survives_as_a_record() {
    let field = "x".repeat(1_048_576);
    let p = PasswordRecord::new(
        &"t".repeat(1024),
        &field,
        field.as_bytes(),
        &"d".repeat(8192),
        &field,
    )
    .unwrap();
    let back = password_from_logical(&logical_from_password(&p).unwrap()).unwrap();
    assert_eq!(back.username(), p.username());
    assert_eq!(back.password(), p.password());
    assert_eq!(back.notes(), p.notes());
}

#[test]
fn a_password_survives_as_a_record() {
    let mut p = PasswordRecord::new("t", "u", b"p", "https://d.test", "n").unwrap();
    let record = logical_from_password(&p).unwrap();
    let back = password_from_logical(&record).unwrap();
    assert_eq!((back.title(), back.username()), ("t", "u"));
    assert_eq!((back.password(), back.destination(), back.notes()), (b"p".as_slice(), "https://d.test", "n"));
    assert!(password_from_logical(&filed()).is_err());
    p.wipe();
    assert!(p.password().is_empty());
}

#[test]
fn passkeys_are_registered_and_used() {
    let record = register_passkey(
        "example.test",
        "https://example.test",
        b"handle",
        "ada",
        "Ada",
        b"credential",
        [1; 32],
        [2; 32],
    )
    .unwrap();
    assert_eq!(record.kind(), RecordKind::Passkey);
    assert_eq!(passkey_usable(&record, "example.test", &vec![]), Some(false));
    assert_eq!(passkey_usable(&login(), "example.test", &vec![]), None);
    assert_eq!(passkey_usable(&record, "example.test", &vec![b"credential".to_vec()]), Some(true));
    assert_eq!(passkey_usable(&record, "example.test", &vec![b"other".to_vec()]), Some(false));
    assert_eq!(passkey_usable(&record, "other.test", &vec![]), Some(false));
    let data = authenticator_data(&[7; 32], true);
    assert_eq!(data.len(), 37);
    assert_eq!(&data[..32], &[7; 32]);
    assert_eq!(&data[32..], &[5, 0, 0, 0, 0]);
    assert_eq!(authenticator_data(&[7; 32], false)[32], 1);
}

use pm_vault::backup::{
    check_checkpoint, check_root, data_record, inventory_pages, BackupWriter, ExportState,
    InventoryEntry, MAX_ATTACHMENTS, MAX_RECORDS,
};
use pm_vault::backup_format::{
    decode_attachment, decode_data, decode_item, decode_outer, encode_attachment,
    encode_attachment_chunk, encode_end, encode_item, encode_outer, encode_outer_file,
    encode_revision, encode_start, frame_length, frame_record, outer_length, stream_header_length,
    cipher_length, Outer, Start, CHUNK, MAX_FILE_BYTES, MAX_RECORD,
};
use pm_vault::backup_history::{
    audit_key_fields, decode_authority_history, digest_value, encode_audit_bundle, encode_sql_row,
    AuditBundle, SqlValue,
};
use pm_vault::backup_verify::{Consumed, Demand, RecordDigests, RecordVerifier};
use pm_vault::content::{
    AuthRecord, HumanMetadata, LogicalRecord, RecordKind,
};
use pm_vault::errors::HumanCommitError;
use pm_vault::export::{
    derived_id_input, device_identity_input, digest_id, organizations, push_base64, push_decimal,
    push_hex, sort_by_id, stored_chunks, write_first_lines, write_last_line, write_line,
    FileExport, IdRow, TaggedItem,
};
use pm_vault::history::ItemLifecycle;
use pm_vault::restore::{restore_event_count, RestoreCollector, StagedRecord};

#[test]
fn attachment_metadata_accepts_16_gib_and_rejects_one_byte_more_without_allocating_it() {
    let at_limit = encode_attachment(
        &[1; 16],
        &[2; 16],
        &[3; 16],
        "limit.bin",
        "application/octet-stream",
        MAX_FILE_BYTES,
        &[4; 32],
        16 * 1024,
    );
    assert!(decode_attachment(&at_limit).is_ok());
    let above = encode_attachment(
        &[1; 16],
        &[2; 16],
        &[3; 16],
        "above.bin",
        "application/octet-stream",
        MAX_FILE_BYTES + 1,
        &[4; 32],
        16 * 1024 + 1,
    );
    assert!(decode_attachment(&above).is_err());
}

/// A stand-in for a digest: different bytes give different values here.
fn digest(bytes: &[u8]) -> [u8; 32] {
    let mut out = [0u8; 32];
    let mut h: u64 = 1469598103934665603;
    for b in bytes {
        h = (h ^ u64::from(*b)).wrapping_mul(1099511628211);
    }
    for i in 0..4 {
        let part = h.wrapping_mul(2 * i as u64 + 3).to_be_bytes();
        out[i * 8..i * 8 + 8].copy_from_slice(&part);
    }
    out
}

fn digests(record: &[u8], pages: &[u8]) -> RecordDigests {
    RecordDigests { record: digest(record), event: [0; 32], content: [0; 32], pages: digest(pages) }
}

fn note() -> LogicalRecord {
    LogicalRecord::new(
        RecordKind::Note,
        HumanMetadata {
            title: "note".to_owned(),
            destinations: vec![],
            tags: vec!["home".to_owned()],
            favorite: false,
            notes: "text".to_owned(),
            fields: vec![],
            source_fields: vec![],
        },
        Vec::<AuthRecord>::new(),
        vec![],
        &vec![],
    )
    .unwrap()
}

fn outer() -> Outer {
    Outer {
        backup_id: [1; 16],
        vault: [2; 16],
        key_generation: 1,
        password_envelope: vec![3; 40],
        recovery_envelope: vec![4; 40],
        backup_key_envelope: vec![5; 40],
    }
}

fn start(outer_hash: [u8; 32]) -> Start {
    Start {
        backup_id: [1; 16],
        snapshot_id: [6; 16],
        created_at: 1,
        outer_sha256: outer_hash,
        source_vault: [2; 16],
        content_frontier: [0; 32],
        authority_checkpoint_ref: [0; 32],
    }
}

/// The data records of a small backup: one item with one revision.
fn small_records() -> Vec<(&'static str, [u8; 16], Vec<u8>)> {
    let item = [10u8; 16];
    let revision = [11u8; 16];
    vec![
        ("item", item, encode_item(&revision, "note", "active")),
        (
            "revision",
            revision,
            encode_revision(&item, &[12; 16], 5, &note().to_descriptor_bytes()),
        ),
        ("settings", [0; 16], pm_vault::backup_format::encode_settings()),
    ]
}

/// Writes a whole backup and returns its plaintext stream and its chunk count.
fn written(records: &[(&'static str, [u8; 16], Vec<u8>)], outer_hash: [u8; 32]) -> (Vec<u8>, ExportState) {
    let mut writer = BackupWriter::new();
    let mut stream: Vec<u8> = vec![];
    for chunk in writer.control(&encode_start(&start(outer_hash))) {
        stream.extend(chunk);
    }
    for (kind, id, payload) in records {
        let record = data_record(kind, id, payload).unwrap();
        for chunk in writer.data(kind, *id, &record, digest(&record)).unwrap() {
            stream.extend(chunk);
        }
    }
    let mut pages: Vec<u8> = vec![];
    for page in writer.pages() {
        pages.extend(frame_record(&page));
        for chunk in writer.control(&page) {
            stream.extend(chunk);
        }
    }
    let s = writer.state();
    let end =
        encode_end(s.records, s.attachments, s.logical_bytes, &digest(&pages), s.attachment_bytes);
    for chunk in writer.control(&end) {
        stream.extend(chunk);
    }
    stream.extend(writer.finish());
    (stream, s)
}

/// Verifies a plaintext stream in pieces of a size.
fn verified(stream: &[u8], outer_hash: [u8; 32], size: usize) -> Result<u64, HumanCommitError> {
    let mut verifier = RecordVerifier::new([1; 16], [2; 16], outer_hash);
    let mut pages: Vec<u8> = vec![];
    for piece in stream.chunks(size) {
        verifier.feed(piece)?;
        while let Some(record) = verifier.next_record()? {
            let facts = digests(&record, &pages);
            if let Consumed::Page = verifier.consume(&record, &facts)? {
                pages.extend(frame_record(&record));
            }
        }
    }
    Ok(verifier.finish()?.records())
}

#[test]
fn a_written_backup_verifies_in_pieces_of_any_size() {
    let hash = digest(&encode_outer_file(&outer()).unwrap());
    let (stream, state) = written(&small_records(), hash);
    assert_eq!(state.records, 3);
    assert_eq!(state.items, 1);
    assert_eq!(state.revisions, 1);
    for size in [1, 7, 64, stream.len()] {
        assert_eq!(verified(&stream, hash, size).unwrap(), 3);
    }
}

#[test]
fn a_backup_is_whole_and_nothing_follows_it() {
    let hash = [9; 32];
    let (stream, _) = written(&small_records(), hash);
    for cut in [1, 2, 40, stream.len() - 1] {
        assert!(verified(&stream[..stream.len() - cut], hash, 64).is_err());
    }
    let mut longer = stream.clone();
    longer.push(0);
    assert!(verified(&longer, hash, 64).is_err());
    let mut verifier = RecordVerifier::new([1; 16], [2; 16], hash);
    verifier.feed(&stream).unwrap();
    let mut pages: Vec<u8> = vec![];
    while let Some(record) = verifier.next_record().unwrap() {
        let facts = digests(&record, &pages);
        let ends = matches!(verifier.demand(&record), Demand::Pages);
        match verifier.consume(&record, &facts).unwrap() {
            Consumed::Page => pages.extend(frame_record(&record)),
            Consumed::End => assert!(ends),
            _ => assert!(!ends),
        }
    }
    assert!(matches!(verifier.feed(&[0]), Err(HumanCommitError::InvalidInput)));
    verifier.feed(&[]).unwrap();
    assert_eq!(verifier.finish().unwrap().records(), 3);
}

#[test]
fn the_summary_names_the_backup_and_its_counts() {
    let hash = [9; 32];
    let (stream, _) = written(&small_records(), hash);
    let mut verifier = RecordVerifier::new([1; 16], [2; 16], hash);
    verifier.feed(&stream).unwrap();
    let mut pages: Vec<u8> = vec![];
    while let Some(record) = verifier.next_record().unwrap() {
        match verifier.consume(&record, &digests(&record, &pages)).unwrap() {
            Consumed::Page => pages.extend(frame_record(&record)),
            Consumed::Data { kind, .. } => assert!(!kind.is_empty()),
            _ => {}
        }
    }
    let summary = verifier.finish().unwrap();
    assert_eq!(summary.backup_id(), &[1; 16]);
    assert_eq!(summary.source_vault(), &[2; 16]);
    assert_eq!(summary.items(), 1);
    assert_eq!(summary.revisions(), 1);
    assert_eq!(summary.attachments(), 0);
    assert_eq!(summary.attachment_bytes(), 0);
    assert_eq!(summary.audit_bundles(), 0);
    assert_eq!(summary.authority_events(), 0);
    assert_eq!(summary.identity_metadata(), 0);
    assert_eq!(summary.records(), 3);
    assert!(summary.logical_bytes() > 0);
}

#[test]
fn a_changed_data_byte_or_a_missing_tail_fails() {
    let hash = [9; 32];
    let (stream, _) = written(&small_records(), hash);
    let data = 4 + encode_start(&start(hash)).len();
    for at in data..stream.len() {
        let mut changed = stream.clone();
        changed[at] ^= 1;
        assert!(verified(&changed, hash, 4096).is_err(), "byte {}", at);
    }
    for end in 0..stream.len() {
        assert!(verified(&stream[..end], hash, 4096).is_err());
    }
    let mut longer = stream.clone();
    longer.push(0);
    assert!(verified(&longer, hash, 4096).is_err());
}

#[test]
fn the_start_must_name_this_backup() {
    let (stream, _) = written(&small_records(), [9; 32]);
    assert!(matches!(verified(&stream, [8; 32], 4096), Err(HumanCommitError::Integrity)));
}

#[test]
fn an_item_needs_its_visible_revision() {
    let hash = [9; 32];
    let records = vec![("item", [10u8; 16], encode_item(&[11; 16], "note", "active"))];
    let (stream, _) = written(&records, hash);
    assert!(matches!(verified(&stream, hash, 4096), Err(HumanCommitError::Integrity)));
    let mut records = small_records();
    records[0].2 = encode_item(&[11; 16], "file", "active");
    let (stream, _) = written(&records, hash);
    assert!(matches!(verified(&stream, hash, 4096), Err(HumanCommitError::Integrity)));
    let mut records = small_records();
    records.push(records[2].clone());
    let (stream, _) = written(&records, hash);
    assert!(matches!(verified(&stream, hash, 4096), Err(HumanCommitError::Integrity)));
}

#[test]
fn records_before_the_start_are_refused() {
    let mut verifier = RecordVerifier::new([1; 16], [2; 16], [9; 32]);
    let record = data_record("settings", &[0; 16], b"x").unwrap();
    assert!(matches!(
        verifier.consume(&record, &digests(&record, b"")),
        Err(HumanCommitError::InvalidInput)
    ));
    assert!(matches!(verifier.finish(), Err(HumanCommitError::InvalidInput)));
}

#[test]
fn an_unknown_type_is_refused() {
    let hash = [9; 32];
    let mut verifier = RecordVerifier::new([1; 16], [2; 16], hash);
    let first = encode_start(&start(hash));
    assert!(matches!(verifier.consume(&first, &digests(&first, b"")), Ok(Consumed::Start)));
    let record = data_record("surprise", &[0; 16], b"x").unwrap();
    assert!(matches!(
        verifier.consume(&record, &digests(&record, b"")),
        Err(HumanCommitError::InvalidInput)
    ));
    assert!(matches!(
        verifier.consume(b"\x01", &digests(b"", b"")),
        Err(HumanCommitError::InvalidInput)
    ));
}

#[test]
fn chunks_without_their_file_are_refused() {
    let hash = [9; 32];
    let mut verifier = RecordVerifier::new([1; 16], [2; 16], hash);
    let first = encode_start(&start(hash));
    verifier.consume(&first, &digests(&first, b"")).unwrap();
    let payload = encode_attachment_chunk(&[1; 16], &[2; 16], 0, b"bytes");
    let record = data_record("attachment_chunk", &[3; 16], &payload).unwrap();
    match verifier.demand(&record) {
        Demand::Content { bytes, first, last } => {
            assert_eq!(bytes, b"bytes".to_vec());
            assert!(first);
            assert!(!last);
        }
        _ => panic!("a chunk has content"),
    }
    assert!(matches!(
        verifier.consume(&record, &digests(&record, b"")),
        Err(HumanCommitError::Integrity)
    ));
    let payload = encode_attachment(&[1; 16], &[2; 16], &[3; 16], "n", "m", 5, &[4; 32], 1);
    let record = data_record("attachment", &[5; 16], &payload).unwrap();
    assert!(matches!(verifier.demand(&record), Demand::Nothing));
    assert!(matches!(
        verifier.consume(&record, &digests(&record, b"")),
        Err(HumanCommitError::Integrity)
    ));
}

#[test]
fn the_outer_header_is_canonical_and_bounded() {
    let bytes = encode_outer(&outer());
    let back = decode_outer(&bytes).unwrap();
    assert_eq!(back.backup_id, [1; 16]);
    assert_eq!(back.backup_key_envelope, vec![5; 40]);
    let mut longer = bytes.clone();
    longer.push(0);
    assert!(matches!(decode_outer(&longer), Err(HumanCommitError::InvalidInput)));
    let file = encode_outer_file(&outer()).unwrap();
    assert_eq!(&file[..4], b"PMB1");
    let mut prefix = [0u8; 8];
    prefix.copy_from_slice(&file[..8]);
    assert_eq!(outer_length(&prefix).unwrap(), bytes.len());
    prefix[0] = b'X';
    assert!(outer_length(&prefix).is_err());
    assert!(outer_length(b"PMB1\0\0\0\0").is_err());
    assert!(outer_length(b"PMB1\0\x01\0\0").is_ok());
    assert!(outer_length(b"PMB1\0\x01\0\x01").is_err());
    assert_eq!(stream_header_length(b"PMF1\0\0\x10\0").unwrap(), 4096);
    assert!(stream_header_length(b"PMF1\0\0\x10\x01").is_err());
    assert!(stream_header_length(b"PMB1\0\0\0\x01").is_err());
    assert_eq!(cipher_length(&[0, 0, 0, 17]).unwrap(), 17);
    assert!(cipher_length(&[0, 0, 0, 16]).is_err());
    assert!(cipher_length(&[0, 0x10, 0, 17]).is_ok());
    assert!(cipher_length(&[0, 0x10, 0, 18]).is_err());
    let mut big = outer();
    big.password_envelope = vec![0; 65536];
    assert!(matches!(encode_outer_file(&big), Err(HumanCommitError::InvalidInput)));
}

#[test]
fn frames_have_bounded_lengths() {
    let framed = frame_record(b"abc");
    assert_eq!(framed, vec![0, 0, 0, 3, b'a', b'b', b'c']);
    assert_eq!(frame_length(&framed).unwrap(), Some(3));
    assert_eq!(frame_length(&framed[..6]).unwrap(), None);
    assert_eq!(frame_length(&framed[..3]).unwrap(), None);
    assert!(frame_length(&[0, 0, 0, 0]).is_err());
    assert!(frame_length(&[1, 0, 0, 0]).unwrap().is_none());
    assert!(frame_length(&[1, 0, 0, 1]).is_err());
    assert_eq!(MAX_RECORD, 16777216);
}

#[test]
fn data_records_are_read_under_their_own_type() {
    let record = data_record("item", &[1; 16], b"payload").unwrap();
    let (id, payload) = decode_data(&record, "item").unwrap();
    assert_eq!(id, [1; 16]);
    assert_eq!(payload, b"payload");
    assert!(matches!(decode_data(&record, "revision"), Err(HumanCommitError::InvalidInput)));
    let too_long = vec![0u8; MAX_RECORD];
    assert!(matches!(
        data_record("item", &[1; 16], &too_long),
        Err(HumanCommitError::InvalidInput)
    ));
}

#[test]
fn items_have_known_kinds_and_states() {
    let item = decode_item(&encode_item(&[1; 16], "ssh", "trash")).unwrap();
    assert_eq!(item.visible, [1; 16]);
    assert_eq!(item.kind, RecordKind::Ssh);
    assert_eq!(item.status, ItemLifecycle::Trash);
    assert!(decode_item(&encode_item(&[1; 16], "card", "trash")).is_err());
    assert!(decode_item(&encode_item(&[1; 16], "ssh", "purged")).is_err());
}

#[test]
fn counts_stop_at_their_limits() {
    let mut state = ExportState::new();
    state.records = MAX_RECORDS - 1;
    assert!(state.record("settings", 1).is_ok());
    assert!(matches!(state.record("settings", 1), Err(HumanCommitError::InvalidInput)));
    let mut state = ExportState::new();
    state.records = MAX_ATTACHMENTS;
    state.attachments = MAX_ATTACHMENTS - 1;
    assert!(state.record("attachment", 1).is_ok());
    assert!(state.record("attachment", 1).is_err());
    assert!(state.record("attachment_chunk", 1).is_ok());
    assert!(state.add_attachment_bytes(1099511627776).is_ok());
    assert!(state.add_attachment_bytes(1).is_err());
}

#[test]
fn the_inventory_is_paged() {
    let entries: Vec<InventoryEntry> = (0..1025u32)
        .map(|i| {
            let mut id = [0u8; 16];
            id[..4].copy_from_slice(&i.to_be_bytes());
            InventoryEntry { kind: "item".to_owned(), id, hash: [1; 32], size: 5 }
        })
        .collect();
    assert_eq!(inventory_pages(&entries).len(), 2);
    assert_eq!(inventory_pages(&vec![]).len(), 0);
    let one = vec![InventoryEntry { kind: "item".to_owned(), id: [7; 16], hash: [8; 32], size: 5 }];
    let page = &inventory_pages(&one)[0];
    let mut expected: Vec<u8> = vec![0xa3];
    expected.extend(b"\x64type\x6einventory_page\x65index\x00\x67entries\x81\xa4\x64type\x64item\x62id\x50");
    expected.extend([7; 16]);
    expected.extend(b"\x6drecord_sha256\x58\x20");
    expected.extend([8; 32]);
    expected.extend(b"\x6clogical_size\x05");
    assert_eq!(page, &expected);
}

#[test]
fn the_writer_cuts_whole_chunks() {
    let mut writer = BackupWriter::new();
    let record = vec![7u8; CHUNK];
    let chunks = writer.control(&record);
    assert_eq!(chunks.len(), 1);
    assert_eq!(chunks[0].len(), CHUNK);
    let rest = writer.finish();
    assert_eq!(rest, vec![7u8; 4]);
}

#[test]
fn authority_rows_are_identified_by_their_event() {
    let event = b"event".to_vec();
    let parents = {
        let mut p = vec![0x82u8, 0x58, 0x20];
        p.extend([9; 32]);
        p.extend([0x58, 0x20]);
        p.extend([3; 32]);
        p
    };
    let row = vec![
        SqlValue::Blob(vec![5; 32]),
        SqlValue::Blob(vec![1; 16]),
        SqlValue::Blob(vec![2; 16]),
        SqlValue::Integer(1),
        SqlValue::Integer(4),
        SqlValue::Blob(vec![3; 32]),
        SqlValue::Blob(parents),
        SqlValue::Text(b"enable".to_vec()),
        SqlValue::Blob(vec![6; 16]),
        SqlValue::Integer(1),
        SqlValue::Blob(event),
        SqlValue::Null,
        SqlValue::Blob(vec![7; 64]),
    ];
    let payload = encode_sql_row(&row).unwrap();
    let (digest, references) = decode_authority_history(&payload, &[5; 32]).unwrap();
    assert_eq!(digest, [5; 32]);
    assert_eq!(references, vec![[3; 32], [9; 32]]);
    assert!(matches!(
        decode_authority_history(&payload, &[6; 32]),
        Err(HumanCommitError::Integrity)
    ));
    assert!(matches!(
        decode_authority_history(&payload[1..], &[5; 32]),
        Err(HumanCommitError::InvalidInput)
    ));
    let mut longer = payload.clone();
    longer.push(0);
    assert!(matches!(
        decode_authority_history(&longer, &[5; 32]),
        Err(HumanCommitError::Integrity)
    ));
}

#[test]
fn rows_without_real_numbers_are_encoded() {
    assert!(matches!(
        encode_sql_row(&vec![SqlValue::Real]),
        Err(HumanCommitError::InvalidInput)
    ));
    assert!(matches!(
        encode_sql_row(&vec![SqlValue::Text(vec![0xff])]),
        Err(HumanCommitError::InvalidInput)
    ));
    assert_eq!(
        encode_sql_row(&vec![SqlValue::Null, SqlValue::Integer(-1)]).unwrap(),
        vec![0x82, 0xf6, 0x20]
    );
    assert_eq!(digest_value(&SqlValue::Null).unwrap(), vec![0]);
    assert_eq!(
        digest_value(&SqlValue::Integer(-1)).unwrap(),
        vec![1, 255, 255, 255, 255, 255, 255, 255, 255]
    );
    assert_eq!(
        digest_value(&SqlValue::Text(b"a".to_vec())).unwrap(),
        vec![2, 0, 0, 0, 0, 0, 0, 0, 1, b'a']
    );
    assert!(matches!(digest_value(&SqlValue::Real), Err(HumanCommitError::Integrity)));
}

#[test]
fn the_audit_key_is_read_out_of_a_bundle() {
    let mut bundle = AuditBundle {
        segment: [1; 16],
        device: [2; 16],
        generation: 3,
        first_seq: 1,
        last_seq: 1,
        previous_hash: vec![0; 32],
        last_hash: vec![1; 32],
        record_count: 1,
        stored_bytes: 10,
        closed: false,
        human_envelope: b"envelope".to_vec(),
        encryption_public_key: vec![4; 32],
        signing_public_key: vec![5; 32],
        human_signature: vec![6; 64],
        manifest: vec![7; 3],
        records: vec![],
    };
    let bytes = encode_audit_bundle(&bundle);
    let (device, generation, envelope) = audit_key_fields(&bytes).unwrap();
    assert_eq!((device, generation, envelope), ([2; 16], 3, b"envelope".as_slice()));
    bundle.generation = 0;
    assert!(audit_key_fields(&encode_audit_bundle(&bundle)).is_err());
}

#[test]
fn identifiers_are_derived_from_their_parts() {
    let input = derived_id_input("pm/x", &vec![b"ab".as_slice(), b"".as_slice()]);
    let mut expected = b"pm/x".to_vec();
    expected.extend([0, 0, 0, 0, 0, 0, 0, 2, b'a', b'b', 0, 0, 0, 0, 0, 0, 0, 0]);
    assert_eq!(input, expected);
    let mut digest = [0u8; 32];
    digest[15] = 1;
    digest[16] = 2;
    let mut id = [0u8; 16];
    id[15] = 1;
    assert_eq!(digest_id(&digest), id);
}

#[test]
fn rows_are_sorted_by_identifier() {
    let rows = vec![
        IdRow { id: [3; 16], value: "c" },
        IdRow { id: [1; 16], value: "a" },
        IdRow { id: [2; 16], value: "b" },
    ];
    let sorted: Vec<&str> = sort_by_id(rows).into_iter().map(|r| r.value).collect();
    assert_eq!(sorted, vec!["a", "b", "c"]);
}

#[test]
fn tags_gather_their_items() {
    let rows = vec![
        TaggedItem { item: [2; 16], tags: vec!["x".to_owned(), "y".to_owned()] },
        TaggedItem { item: [1; 16], tags: vec!["x".to_owned(), "x".to_owned()] },
        TaggedItem { item: [3; 16], tags: vec![] },
    ];
    let groups = organizations(&rows);
    assert_eq!(groups.len(), 2);
    assert_eq!(groups[0].name, "x");
    assert_eq!(groups[0].items, vec![[1; 16], [2; 16]]);
    assert_eq!(groups[1].name, "y");
    assert_eq!(groups[1].items, vec![[2; 16]]);
}

#[test]
fn stored_files_are_whole_or_streams() {
    assert_eq!(stored_chunks(Some(0), None).unwrap(), 1);
    assert_eq!(stored_chunks(Some(CHUNK), None).unwrap(), 1);
    assert_eq!(stored_chunks(Some(CHUNK + 1), None).unwrap(), 2);
    assert_eq!(stored_chunks(None, Some(5)).unwrap(), 5);
    assert!(stored_chunks(None, Some(0)).is_err());
    assert!(stored_chunks(None, None).is_err());
    assert!(stored_chunks(Some(1), Some(1)).is_err());
    let mut file = FileExport::new();
    assert!(!file.expect(0, 2).unwrap());
    file.add_chunk(CHUNK).unwrap();
    assert!(file.expect(1, 2).unwrap());
    assert!(matches!(file.expect(0, 2), Err(HumanCommitError::Integrity)));
    assert!(matches!(file.add_chunk(CHUNK + 1), Err(HumanCommitError::InvalidInput)));
    file.add_chunk(1).unwrap();
    assert_eq!(
        file.finish(2, CHUNK as u64 + 1, &[1; 32], &[1; 32]).unwrap(),
        CHUNK as u64 + 1
    );
    assert!(file.finish(3, CHUNK as u64 + 1, &[1; 32], &[1; 32]).is_err());
    assert!(file.finish(2, 1, &[1; 32], &[1; 32]).is_err());
    assert!(file.finish(2, CHUNK as u64 + 1, &[1; 32], &[2; 32]).is_err());
}

#[test]
fn plaintext_lines_have_one_form() {
    let mut out = vec![];
    push_hex(&mut out, &[0x0f, 0xa0]);
    assert_eq!(out, b"0fa0");
    for (plain, encoded) in [
        ("", ""),
        ("f", "Zg=="),
        ("fo", "Zm8="),
        ("foo", "Zm9v"),
        ("foob", "Zm9vYg=="),
        ("fooba", "Zm9vYmE="),
        ("foobar", "Zm9vYmFy"),
    ] {
        let mut out = vec![];
        push_base64(&mut out, plain.as_bytes());
        assert_eq!(out, encoded.as_bytes());
    }
    let mut out = vec![];
    push_base64(&mut out, &[0xfb, 0xff, 0xfe]);
    assert_eq!(out, b"+//+");
    let mut out = vec![];
    push_decimal(&mut out, 0);
    push_decimal(&mut out, 1099511627776);
    push_decimal(&mut out, u64::MAX);
    assert_eq!(out, b"0109951162777618446744073709551615");
    let mut state = ExportState::new();
    let line = write_line("item", &[0xab; 16], b"foo", &mut state).unwrap();
    assert_eq!(
        String::from_utf8(line).unwrap(),
        "{\"v\":1,\"type\":\"item\",\"id\":\"abababababababababababababababab\",\"payload\":\"Zm9v\"}\n"
    );
    assert_eq!(state.items, 1);
    let first = String::from_utf8(write_first_lines(&[1; 16], &[2; 16])).unwrap();
    assert_eq!(
        first,
        "PM-LOGICAL-JSONL/1\n{\"type\":\"manifest_start\",\"v\":1,\"backup_id\":\"01010101010101010101010101010101\",\"source_vault\":\"02020202020202020202020202020202\",\"scope\":\"full\"}\n"
    );
    let last = String::from_utf8(write_last_line(&state)).unwrap();
    assert_eq!(
        last,
        format!(
            "{{\"type\":\"manifest_end\",\"record_count\":1,\"attachment_count\":0,\"logical_bytes\":{},\"attachment_bytes\":0}}\n",
            state.logical_bytes
        )
    );
}

#[test]
fn every_key_of_a_device_has_its_own_record() {
    assert!(device_identity_input(&[1; 16], 1).is_none());
    let second = device_identity_input(&[1; 16], 2).unwrap();
    let third = device_identity_input(&[1; 16], 3).unwrap();
    assert_ne!(second, third);
    let mut expected = b"pm/backup-device-identity/v1".to_vec();
    expected.extend_from_slice(&16_u64.to_be_bytes());
    expected.extend_from_slice(&[1; 16]);
    expected.extend_from_slice(&8_u64.to_be_bytes());
    expected.extend_from_slice(&2_u64.to_be_bytes());
    assert_eq!(second, expected);
}

#[test]
fn restored_records_get_fresh_identifiers() {
    let mut collector = RestoreCollector::new();
    let item = collector
        .take_item(&[10; 16], &encode_item(&[11; 16], "note", "trash"), [20; 16])
        .unwrap();
    assert_eq!(item.target, [20; 16]);
    assert_eq!(item.status, ItemLifecycle::Trash);
    assert!(matches!(
        collector.take_item(&[10; 16], &encode_item(&[11; 16], "note", "trash"), [21; 16]),
        Err(HumanCommitError::Integrity)
    ));
    assert!(matches!(collector.finish(), Err(HumanCommitError::Integrity)));
    let payload = encode_revision(&[10; 16], &[12; 16], 5, &note().to_descriptor_bytes());
    let revision = collector.open_revision(&payload).unwrap();
    assert_eq!(revision.modified, 5);
    let staged = collector.take_revision(&[11; 16], revision, [22; 16], &vec![]).unwrap();
    assert!(staged.visible);
    assert_eq!(staged.target_item, [20; 16]);
    collector.finish().unwrap();
    assert_eq!(collector.item_ids(), vec![[20; 16]]);
    let orphan = encode_revision(&[99; 16], &[12; 16], 5, &note().to_descriptor_bytes());
    assert!(matches!(collector.open_revision(&orphan), Err(HumanCommitError::Integrity)));
    assert!(collector.take_history("settings").is_ok());
    assert!(matches!(collector.take_history("item"), Err(HumanCommitError::InvalidInput)));
    let file = encode_attachment(&[1; 16], &[2; 16], &[3; 16], "n", "m", 5, &[4; 32], 1);
    assert!(matches!(collector.take_file(&file), Err(HumanCommitError::Integrity)));
    let chunk = encode_attachment_chunk(&[1; 16], &[2; 16], 0, b"bytes");
    assert!(matches!(collector.take_chunk(&chunk), Err(HumanCommitError::Integrity)));
}

#[test]
fn records_are_staged_by_their_type() {
    let mut collector = RestoreCollector::new();
    let none = vec![];
    let item = encode_item(&[11; 16], "note", "active");
    let revision = encode_revision(&[10; 16], &[12; 16], 5, &note().to_descriptor_bytes());
    assert_eq!(RestoreCollector::needed("item", &item), 0);
    assert_eq!(RestoreCollector::needed("revision", &revision), 0);
    assert_eq!(RestoreCollector::needed("revision", b"\x00"), 0);
    assert!(matches!(
        collector.data("revision", &[11; 16], &revision, [21; 16], &none),
        Err(HumanCommitError::Integrity)
    ));
    match collector.data("item", &[10; 16], &item, [20; 16], &none).unwrap() {
        StagedRecord::Item(staged) => assert_eq!(staged.target, [20; 16]),
        _ => panic!("an item is staged as one"),
    }
    assert!(matches!(
        collector.data("revision", &[11; 16], &revision, [21; 16], &vec![[1; 16]]),
        Err(HumanCommitError::InvalidInput)
    ));
    match collector.data("revision", &[11; 16], &revision, [21; 16], &none).unwrap() {
        StagedRecord::Revision(target, staged) => {
            assert_eq!((target, staged.target_item), ([21; 16], [20; 16]));
            assert!(staged.visible);
        }
        _ => panic!("a revision is staged as one"),
    }
    assert!(matches!(
        collector.data("settings", &[0; 16], b"x", [22; 16], &none),
        Ok(StagedRecord::History)
    ));
    assert!(matches!(
        collector.data("surprise", &[0; 16], b"x", [22; 16], &none),
        Err(HumanCommitError::InvalidInput)
    ));
    let chunk = encode_attachment_chunk(&[1; 16], &[2; 16], 0, b"bytes");
    assert!(matches!(
        collector.data("attachment_chunk", &[0; 16], &chunk, [22; 16], &none),
        Err(HumanCommitError::Integrity)
    ));
    collector.finish().unwrap();
}

#[test]
fn restored_items_keep_the_order_of_the_old_ones() {
    let mut collector = RestoreCollector::new();
    for (source, target) in [([3u8; 16], [1u8; 16]), ([1; 16], [2; 16]), ([2; 16], [3; 16])] {
        collector.take_item(&source, &encode_item(&[9; 16], "note", "active"), target).unwrap();
    }
    assert_eq!(collector.item_ids(), vec![[2; 16], [3; 16], [1; 16]]);
}

#[test]
fn restores_count_revisions_and_trash() {
    assert_eq!(restore_event_count(3, 2).unwrap(), 5);
    assert!(matches!(restore_event_count(-1, 2), Err(HumanCommitError::InvalidInput)));
    assert!(check_checkpoint(&[0; 32]).is_ok());
    assert!(matches!(check_checkpoint(&[0; 31]), Err(HumanCommitError::Integrity)));
    assert!(check_root(&[1; 16], &[1; 16]).is_ok());
    assert!(matches!(check_root(&[1; 16], &[2; 16]), Err(HumanCommitError::InvalidCommand)));
}

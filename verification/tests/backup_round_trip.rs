use pm_vault::backup::{data_record, BackupSummary, BackupWriter};
use pm_vault::backup_format::{
    encode_attachment, encode_attachment_chunk, encode_end, encode_item, encode_revision,
    encode_settings, encode_start, frame_record, Start, CHUNK,
};
use pm_vault::backup_history::{decode_authority_history, encode_sql_row, SqlValue};
use pm_vault::backup_verify::{Consumed, Demand, RecordDigests, RecordVerifier};
use pm_vault::bodies::encode_heads;
use pm_vault::content::{Attachment, HumanMetadata, LogicalRecord, RecordKind};
use pm_vault::errors::HumanCommitError;
use pm_vault::export::digest_id;

/// A stand-in for a digest: different bytes give different values here.
fn digest(bytes: &[u8]) -> [u8; 32] {
    let mut out = [0u8; 32];
    let mut h: u64 = 1469598103934665603;
    for b in bytes {
        h = (h ^ u64::from(*b)).wrapping_mul(1099511628211);
    }
    for i in 0..4 {
        let part = h.wrapping_mul(2 * i as u64 + 3).to_be_bytes();
        out[i * 8..i * 8 + 8].copy_from_slice(&part);
    }
    out
}

const ITEM: [u8; 16] = [10; 16];
const REVISION: [u8; 16] = [11; 16];
const FILE: [u8; 16] = [12; 16];

fn event_row(event: &[u8], previous: Option<[u8; 32]>, parents: Vec<[u8; 32]>) -> Vec<SqlValue> {
    vec![
        SqlValue::Blob(digest(event).to_vec()),
        SqlValue::Blob(vec![1; 16]),
        SqlValue::Blob(vec![2; 16]),
        SqlValue::Integer(1),
        SqlValue::Integer(4),
        match previous {
            Some(previous) => SqlValue::Blob(previous.to_vec()),
            None => SqlValue::Null,
        },
        SqlValue::Blob(encode_heads(&parents)),
        SqlValue::Text(b"enable".to_vec()),
        SqlValue::Blob(vec![6; 16]),
        SqlValue::Integer(1),
        SqlValue::Blob(event.to_vec()),
        SqlValue::Null,
        SqlValue::Blob(vec![7; 64]),
    ]
}

fn event(event: &[u8], previous: Option<[u8; 32]>, parents: Vec<[u8; 32]>) -> Record {
    let payload = encode_sql_row(&event_row(event, previous, parents)).unwrap();
    ("authority_history", digest_id(&digest(event)), payload)
}

type Record = (&'static str, [u8; 16], Vec<u8>);

/// The records of a vault with a file of two chunks and two events.
fn records(content: &[u8]) -> Vec<Record> {
    let sha256 = digest(content);
    let record = LogicalRecord::new(
        RecordKind::File,
        HumanMetadata {
            title: "file".to_owned(),
            destinations: vec![],
            tags: vec![],
            favorite: false,
            notes: String::new(),
            fields: vec![],
            source_fields: vec![],
        },
        vec![],
        vec![Attachment::new(FILE, "a.bin", "m", content, sha256).unwrap()],
        &vec![sha256],
    )
    .unwrap();
    let first = digest(b"first");
    let chunk = |index: u64, bytes: &[u8]| -> Record {
        let payload = encode_attachment_chunk(&REVISION, &FILE, index, bytes);
        ("attachment_chunk", [20 + index as u8; 16], payload)
    };
    let size = content.len() as u64;
    vec![
        ("item", ITEM, encode_item(&REVISION, "file", "active")),
        (
            "revision",
            REVISION,
            encode_revision(&ITEM, &[13; 16], 5, &record.to_descriptor_bytes()),
        ),
        (
            "attachment",
            [14; 16],
            encode_attachment(&ITEM, &REVISION, &FILE, "a.bin", "m", size, &sha256, 2),
        ),
        chunk(0, &content[..CHUNK]),
        chunk(1, &content[CHUNK..]),
        ("settings", [0; 16], encode_settings()),
        event(b"second", Some(first), vec![first]),
        event(b"first", None, vec![]),
    ]
}

fn start() -> Start {
    Start {
        backup_id: [1; 16],
        snapshot_id: [6; 16],
        created_at: -1,
        outer_sha256: [9; 32],
        source_vault: [2; 16],
        content_frontier: [0; 32],
        authority_checkpoint_ref: [0; 32],
    }
}

/// Writes a backup and returns its stream with the summary of the writer.
fn written(records: &[Record], file_bytes: u64) -> (Vec<u8>, BackupSummary) {
    let mut writer = BackupWriter::new();
    let mut chunks = writer.control(&encode_start(&start()));
    for (kind, id, payload) in records {
        let record = data_record(kind, id, payload).unwrap();
        chunks.extend(writer.data(kind, *id, &record, digest(&record)).unwrap());
    }
    writer.add_attachment_bytes(file_bytes).unwrap();
    let mut pages: Vec<u8> = vec![];
    for page in writer.pages() {
        pages.extend(frame_record(&page));
        chunks.extend(writer.control(&page));
    }
    let s = writer.state();
    let pages = digest(&pages);
    chunks.extend(writer.control(&encode_end(
        s.records,
        s.attachments,
        s.logical_bytes,
        &pages,
        s.attachment_bytes,
    )));
    let mut stream: Vec<u8> = chunks.concat();
    stream.extend(writer.finish());
    (stream, s.summary([1; 16], [2; 16]))
}

/// Verifies a stream in pieces of a size.
fn verified(stream: &[u8], size: usize) -> Result<BackupSummary, HumanCommitError> {
    let mut verifier = RecordVerifier::new([1; 16], [2; 16], [9; 32]);
    let mut pages: Vec<u8> = vec![];
    let mut content: Vec<u8> = vec![];
    for piece in stream.chunks(size) {
        verifier.feed(piece)?;
        while let Some(record) = verifier.next_record()? {
            let mut digests = RecordDigests {
                record: digest(&record),
                event: [0; 32],
                content: [0; 32],
                pages: [0; 32],
            };
            match verifier.demand(&record) {
                Demand::Nothing => {}
                Demand::Event(event) => digests.event = digest(&event),
                Demand::Content { bytes, first, last } => {
                    if first {
                        content.clear();
                    }
                    content.extend(bytes);
                    if last {
                        digests.content = digest(&content);
                    }
                }
                Demand::Pages => digests.pages = digest(&pages),
            }
            if let Consumed::Page = verifier.consume(&record, &digests)? {
                pages.extend(frame_record(&record));
            }
        }
    }
    verifier.finish()
}

fn counts(s: &BackupSummary) -> [u64; 9] {
    [
        s.items(),
        s.revisions(),
        s.attachments(),
        s.attachment_bytes(),
        s.audit_bundles(),
        s.authority_events(),
        s.identity_metadata(),
        s.records(),
        s.logical_bytes(),
    ]
}

#[test]
fn a_vault_with_a_file_and_a_history_is_verified_as_it_was_written() {
    let content = vec![5u8; CHUNK + 3];
    let (stream, summary) = written(&records(&content), content.len() as u64);
    assert_eq!(counts(&summary)[..8], [1, 1, 1, CHUNK as u64 + 3, 0, 2, 0, 8]);
    for size in [4096, stream.len()] {
        let read = verified(&stream, size).unwrap();
        assert_eq!(counts(&read), counts(&summary));
        assert_eq!(read.backup_id(), &[1; 16]);
        assert_eq!(read.source_vault(), &[2; 16]);
    }
}

#[test]
fn a_cut_or_continued_stream_is_refused() {
    let content = vec![5u8; CHUNK + 3];
    let (stream, _) = written(&records(&content), content.len() as u64);
    for cut in [0, 3, 4, 100, CHUNK, stream.len() - 200, stream.len() - 1] {
        assert!(verified(&stream[..cut], 65536).is_err(), "{}", cut);
    }
    for more in [vec![0], frame_record(b"more"), stream.clone()] {
        let longer = [stream.clone(), more].concat();
        assert!(verified(&longer, 65536).is_err());
        assert!(verified(&longer, longer.len()).is_err());
    }
}

#[test]
fn what_is_missing_from_the_contents_is_found() {
    let content = vec![5u8; CHUNK + 3];
    let size = content.len() as u64;
    for left_out in [0, 1, 2, 4, 7] {
        let mut some = records(&content);
        some.remove(left_out);
        let (stream, _) = written(&some, size);
        assert!(verified(&stream, 65536).is_err(), "{}", left_out);
    }
    let mut other = content.clone();
    other[CHUNK] = 6;
    let mut changed = records(&content);
    changed[4] = records(&other)[4].clone();
    let (stream, _) = written(&changed, size);
    assert!(matches!(verified(&stream, 65536), Err(HumanCommitError::Integrity)));
}

#[test]
fn an_event_is_read_back_from_its_row() {
    let (a, b) = ([1; 32], [2; 32]);
    let payload = encode_sql_row(&event_row(b"event", Some(b), vec![b, a])).unwrap();
    assert_eq!(
        decode_authority_history(&payload, &digest(b"event")).unwrap(),
        (digest(b"event"), vec![a, b])
    );
    let payload = encode_sql_row(&event_row(b"event", None, vec![])).unwrap();
    assert_eq!(
        decode_authority_history(&payload, &digest(b"event")).unwrap(),
        (digest(b"event"), vec![])
    );
    for column in [3, 4, 9] {
        let mut row = event_row(b"event", None, vec![]);
        row[column] = SqlValue::Integer(0);
        let payload = encode_sql_row(&row).unwrap();
        assert!(decode_authority_history(&payload, &digest(b"event")).is_err());
    }
    let row = event_row(b"event", None, vec![a; 4097]);
    let payload = encode_sql_row(&row).unwrap();
    assert!(decode_authority_history(&payload, &digest(b"event")).is_err());
}

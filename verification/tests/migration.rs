use pm_vault::content::{AuthRecord, LogicalRecord, RecordKind, TotpAlgorithm};
use pm_vault::csv::{decode_text, parse_csv, CsvDelimiter, CsvEncoding};
use pm_vault::errors::HumanCommitError;
use pm_vault::import::{
    choose_row, classify, event_pages, import_candidate, import_page, import_root, items_of,
    load_import_batch, plan_import, select_rows, sources_match, staging_demand,
    validate_import_streams, HeldItem, ImportItem, ImportSource, RowChoice, SelectedRow, StreamRow,
};
use pm_vault::migration::{
    parse, CsvField, CsvImportDecision, CsvImportPreview, CsvImportProfile, CsvMapping,
    CsvRowStatus,
};
use pm_vault::totp::{base32, parse_number, parse_totp, percent};

const CHROME: &str = "name,url,username,password,note\n\
Example,https://example.test,ada,secret,hi\n\
Other,https://other.test,bob,\"quo\"\"ted, value\",\n";

fn chrome() -> CsvImportPreview {
    parse(CHROME.as_bytes(), &CsvImportProfile::chrome()).unwrap()
}

#[test]
fn rows_are_cut_at_delimiters_and_quotes() {
    let rows = parse_csv(b"a,b\r\n\"c\"\"d\",\"e\nf\"\n", b',').unwrap();
    assert_eq!(rows, vec![vec!["a", "b"], vec!["c\"d", "e\nf"]]);
    let rows = parse_csv(b"a;b,c", CsvDelimiter::Semicolon.byte()).unwrap();
    assert_eq!(rows, vec![vec!["a", "b,c"]]);
    assert_eq!(CsvDelimiter::Tab.byte(), b'\t');
    assert!(matches!(parse_csv(b"a,\"open", b','), Err(HumanCommitError::InvalidInput)));
    assert!(parse_csv(b"\"a\"b", b',').is_err());
    assert!(parse_csv(&[0xff], b',').is_err());
}

#[test]
fn texts_are_decoded_by_their_encoding() {
    assert_eq!(decode_text("\u{e9}".as_bytes(), CsvEncoding::Utf8).unwrap(), "\u{e9}");
    assert_eq!(decode_text(&[0xff, 0xfe, 0x41, 0, 0x3d, 0xd8, 0, 0xde], CsvEncoding::Utf16Le).unwrap(), "A\u{1f600}");
    assert_eq!(decode_text(&[0xfe, 0xff, 0, 0x41], CsvEncoding::Utf16Be).unwrap(), "A");
    assert!(decode_text(&[0xff], CsvEncoding::Utf8).is_err());
    assert_eq!(decode_text(b"\xef\xbb\xbfA", CsvEncoding::Utf8).unwrap(), "A");
    assert!(decode_text(&[0x41, 0], CsvEncoding::Utf16Le).is_err());
    assert!(decode_text(&[0xff, 0xfe, 0x41], CsvEncoding::Utf16Le).is_err());
    assert!(decode_text(&[0xff, 0xfe, 0x3d, 0xd8], CsvEncoding::Utf16Le).is_err());
}

#[test]
fn one_time_password_links_are_read() {
    let auth = parse_totp(
        "otpauth://totp/Issuer:ada?secret=JBSWY3DPEHPK3PXP&issuer=Issuer&algorithm=SHA256&digits=8&period=60",
        &vec![0],
    )
    .unwrap();
    match &auth {
        AuthRecord::Totp { secret, algorithm, digits, period, t0, .. } => {
            assert_eq!(*secret, b"Hello!\xde\xad\xbe\xef".to_vec());
            assert_eq!(*algorithm, TotpAlgorithm::Sha256);
            assert_eq!((*digits, *period, *t0), (8, 60, 0));
        }
        _ => panic!("not a one-time password"),
    }
    assert!(matches!(
        parse_totp("https://example.test", &vec![]),
        Err(HumanCommitError::InvalidInput)
    ));
    assert!(parse_totp("otpauth://totp/x?issuer=a", &vec![]).is_err());
    assert!(parse_totp("otpauth://totp/x?secret=A1&secret=B2", &vec![]).is_err());
    assert_eq!(base32("jbswy3dpehpk3pxp").unwrap(), b"Hello!\xde\xad\xbe\xef".to_vec());
    assert_eq!(base32("MZXW6==="), None);
    assert_eq!(base32("1"), None);
    assert_eq!(percent("a%20b").as_deref(), Some("a b"));
    assert_eq!(percent("%zz"), None);
    assert_eq!(parse_number("60", 255), Some(60));
    assert_eq!(parse_number("256", 255), None);
    assert_eq!(parse_number("", 255), None);
}

#[test]
fn a_browser_export_is_previewed() {
    let preview = chrome();
    assert_eq!(preview.source(), "chrome");
    assert_eq!(preview.total(), 2);
    let first = preview.record(0).unwrap();
    assert_eq!(first.title(), "Example");
    assert_eq!(first.kind(), RecordKind::Password);
    assert_eq!(first.destination(), Some("https://example.test"));
    assert_eq!(first.account(), Some("ada"));
    assert_eq!(first.row().ordinal(), 1);
    assert_eq!(first.row().status(), CsvRowStatus::New);
    assert!(first.unknown_field_paths().is_empty());
    assert!(preview.record(2).is_err());
    assert_eq!(preview.page(0, 10).unwrap().len(), 2);
    assert_eq!(preview.page(1, 1).unwrap()[0].ordinal(), 2);
    assert!(parse(b"name,url\nx,y\n", &CsvImportProfile::chrome()).is_err());
}

#[test]
fn mapped_columns_keep_the_others() {
    let mapping = CsvMapping::new(
        CsvDelimiter::Semicolon,
        CsvEncoding::Utf8,
        true,
        RecordKind::Password,
        vec![
            (0, CsvField::Title),
            (1, CsvField::Username),
            (2, CsvField::Password),
            (4, CsvField::Destination),
        ],
    )
    .unwrap();
    let preview = parse(
        b"t;u;p;extra;d\nA;ada;secret;kept;https://d.test\n",
        &CsvImportProfile::mappable(mapping),
    )
    .unwrap();
    assert_eq!(preview.source(), "mappable");
    let r = preview.record(0).unwrap();
    assert_eq!(r.row().unknown_fields(), 1);
    assert_eq!(r.unknown_field_paths().len(), 1);
    assert!(CsvMapping::new(
        CsvDelimiter::Comma,
        CsvEncoding::Utf8,
        true,
        RecordKind::Password,
        vec![(0, CsvField::Title), (0, CsvField::Password)],
    )
    .is_err());
}

fn held(preview_row: usize, id: u8) -> HeldItem {
    let rows = parse_csv(CHROME.as_bytes(), b',').unwrap();
    let row = &rows[preview_row + 1];
    let line = format!(
        "name,url,username,password,note\n{},{},{},\"{}\",{}\n",
        row[0],
        row[1],
        row[2],
        row[3].replace('"', "\"\""),
        row[4]
    );
    let preview = parse(line.as_bytes(), &CsvImportProfile::chrome()).unwrap();
    let record = preview.record(0).unwrap();
    assert_eq!(record.title(), row[0]);
    let direct = pm_vault::human::PasswordRecord::new(
        record.title(),
        record.account().unwrap(),
        row[3].as_bytes(),
        record.destination().unwrap(),
        &row[4],
    )
    .unwrap();
    HeldItem {
        id: [id; 16],
        record: pm_vault::human::logical_from_password(&direct).unwrap(),
    }
}

#[test]
fn rows_that_are_held_are_marked() {
    let mut preview = chrome();
    classify(&mut preview, &vec![held(0, 7)]);
    let first = preview.record(0).unwrap();
    assert_ne!(first.row().status(), CsvRowStatus::New);
    assert_eq!(first.row().duplicate_item(), Some(&[7; 16]));
    assert_eq!(preview.record(1).unwrap().row().status(), CsvRowStatus::New);
    assert!(import_candidate(&held(0, 1).record, &held(0, 2).record));
    assert!(!import_candidate(&held(0, 1).record, &held(1, 2).record));
}

#[test]
fn decisions_fit_their_rows() {
    let d = Some([7u8; 16]);
    assert!(matches!(
        choose_row(CsvRowStatus::New, None, &CsvImportDecision::ImportNew),
        Some(RowChoice::New)
    ));
    assert!(choose_row(CsvRowStatus::ExactDuplicate, d, &CsvImportDecision::ImportNew).is_none());
    assert!(matches!(
        choose_row(CsvRowStatus::ExactDuplicate, d, &CsvImportDecision::SkipExact),
        Some(RowChoice::Skip)
    ));
    assert!(choose_row(CsvRowStatus::New, None, &CsvImportDecision::SkipExact).is_none());
    assert!(matches!(
        choose_row(CsvRowStatus::CandidateDuplicate, d, &CsvImportDecision::Replace([7; 16])),
        Some(RowChoice::Replace(id)) if id == [7; 16]
    ));
    assert!(choose_row(CsvRowStatus::CandidateDuplicate, d, &CsvImportDecision::Replace([8; 16])).is_none());
    assert!(matches!(
        choose_row(CsvRowStatus::New, None, &CsvImportDecision::Exclude),
        Some(RowChoice::Exclude)
    ));
    assert!(matches!(
        choose_row(CsvRowStatus::ExactDuplicate, d, &CsvImportDecision::KeepBoth),
        Some(RowChoice::New)
    ));
}

#[test]
fn a_plan_counts_every_row_once() {
    let mut preview = chrome();
    classify(&mut preview, &vec![held(0, 7)]);
    let plan = plan_import(
        &preview,
        &vec![CsvImportDecision::Replace([7; 16]), CsvImportDecision::ImportNew],
        &vec![[7; 16]],
    )
    .unwrap();
    let r = &plan.report;
    assert_eq!((r.total(), r.new_items(), r.replaced()), (2, 1, 1));
    assert_eq!((r.skipped_exact(), r.excluded(), r.event_pages()), (0, 0, 1));
    assert_eq!(plan.choices.len(), 2);
    assert!(plan_import(&preview, &vec![CsvImportDecision::Exclude], &vec![]).is_err());
    assert!(plan_import(
        &preview,
        &vec![CsvImportDecision::Replace([7; 16]), CsvImportDecision::ImportNew],
        &vec![],
    )
    .is_err());
}

#[test]
fn selected_rows_keep_their_order() {
    let choices = vec![
        RowChoice::New,
        RowChoice::Exclude,
        RowChoice::Replace([7; 16]),
        RowChoice::Skip,
        RowChoice::New,
    ];
    let rows = select_rows(&choices, &vec![[1; 16], [2; 16]]).unwrap();
    assert_eq!(items_of(&rows), vec![[1; 16], [7; 16], [2; 16]]);
    assert_eq!(rows[1], SelectedRow { row: 2, item: [7; 16], replacement: true });
    assert_eq!(rows[2], SelectedRow { row: 4, item: [2; 16], replacement: false });
    assert!(matches!(
        select_rows(&choices, &vec![[1; 16]]),
        Err(HumanCommitError::InvalidInput)
    ));
    assert!(matches!(
        select_rows(&choices, &vec![[1; 16], [7; 16]]),
        Err(HumanCommitError::Storage)
    ));
}

#[test]
fn columns_are_mapped_in_any_order() {
    let mapping = |columns: Vec<(usize, CsvField)>| {
        CsvMapping::new(CsvDelimiter::Comma, CsvEncoding::Utf8, true, RecordKind::Password, columns)
    };
    let columns = vec![
        (1, CsvField::Username),
        (2, CsvField::Password),
        (4, CsvField::Destination),
    ];
    let mut turned = columns.clone();
    turned.reverse();
    assert_eq!(mapping(columns.clone()).unwrap(), mapping(turned.clone()).unwrap());
    assert!(mapping(columns[1..].to_vec()).is_err());
    assert!(mapping(turned[..2].to_vec()).is_err());
}

#[test]
fn import_digests_cover_pages() {
    assert_eq!(event_pages(0), 1);
    let item = |ordinal: usize| ImportItem {
        ordinal,
        item: [1; 16],
        revision: [2; 16],
        kind: "password".to_owned(),
        package: vec![3],
        replacement: false,
    };
    let items = vec![item(1), item(2)];
    let page = import_page(&items, &vec![[4; 32], [5; 32]], 0);
    assert!(page.starts_with(b"pm/import-object-page/v1"));
    assert_ne!(page, import_page(&items, &vec![[5; 32], [4; 32]], 0));
    let root = import_root(2, &vec![[6; 32]]);
    let mut expected = b"pm/import-object-root/v1".to_vec();
    expected.extend([0, 0, 0, 0, 0, 0, 0, 1]);
    expected.extend([6; 32]);
    assert_eq!(root, expected);
}

#[test]
fn file_sources_are_demanded_and_matched() {
    let source = |id: u8, size| ImportSource { id: [id; 16], size, digest: [9; 32] };
    let (bytes, files) = staging_demand(
        &vec![vec![source(1, 10), source(2, 5)], vec![source(3, 100)]],
        &vec![CsvImportDecision::ImportNew, CsvImportDecision::Exclude],
    )
    .unwrap();
    assert_eq!(files, 2);
    assert!(bytes >= 15);
    let note = || {
        let h = held(0, 1);
        let bytes = h.record.to_descriptor_bytes();
        LogicalRecord::from_descriptor_bytes(&bytes).unwrap()
    };
    assert!(sources_match(&note(), &vec![]));
    assert!(!sources_match(&note(), &vec![source(1, 1)]));
    assert!(validate_import_streams(&note(), &vec![]).is_ok());
    assert!(validate_import_streams(
        &note(),
        &vec![StreamRow {
            attachment: vec![1; 16],
            chunk_count: 1,
            stored: 1,
            first: Some(0),
            last: Some(0)
        }]
    )
    .is_err());
}

#[test]
fn stored_batches_are_read() {
    let batch = load_import_batch(&[1; 16], "chrome", &[2; 32], &[3, 1, 1, 1, 0, 4, 1]).unwrap();
    assert_eq!(batch.batch_id, [1; 16]);
    assert_eq!(batch.report.total(), 3);
    assert_eq!(batch.report.preserved_fields(), 4);
    assert!(load_import_batch(&[1; 15], "chrome", &[2; 32], &[0; 7]).is_err());
    assert!(load_import_batch(&[1; 16], "chrome", &[2; 32], &[-1, 0, 0, 0, 0, 0, 0]).is_err());
}

//! Closed CSV import profiles and loss-visible preview data.
use crate::bytes::same_str;
use crate::command::{PreparedHumanCommand, PreparedModel};
use crate::content::{
    shape_valid, AttachmentModel, AuthModel, AuthRecord, Destination, DestinationModel,
    HumanMetadata, HumanModel, LogicalRecord, PrivateKeyFormat, RecordKind, RecordModel,
    SourceEncoding, SourceField, SourceFieldModel,
};
use crate::csv::{
    csv_table, decode_text, decoded_text, parse_csv, table_view, CsvDelimiter, CsvEncoding,
    MAX_COLUMNS, MAX_RECORDS,
};
use crate::errors::HumanCommitError;
use crate::text::{decimal_digits, push_decimal};
use crate::totp::{parse_totp, totp_auth};
use crate::views::views;
use vstd::prelude::*;
use vstd::utf8::encode_utf8;

verus! {

/// Items of one page of an import event.
pub const IMPORT_PAGE_ITEMS: usize = 64;

/// Most rows of one preview page.
pub const MAX_PREVIEW_PAGE: usize = 100;

/// What a column holds.
#[derive(Clone, Copy, Debug, PartialEq, Eq, PartialOrd, Ord, Structural)]
pub enum CsvField {
    Title,
    Destination,
    Username,
    Password,
    Notes,
    OtpAuth,
    TokenSecret,
    Provider,
    ProfileId,
    SshPrivateKey,
    SshPublicKey,
    SshPassphrase,
}

/// Which columns hold what, one column for each scalar.
#[derive(Clone, Debug, PartialEq, Eq)]
pub struct CsvMapping {
    delimiter: CsvDelimiter,
    encoding: CsvEncoding,
    has_header: bool,
    kind: RecordKind,
    columns: Vec<(usize, CsvField)>,
}

/// The contents of a [`CsvMapping`].
pub struct MappingModel {
    pub delimiter: CsvDelimiter,
    pub encoding: CsvEncoding,
    pub has_header: bool,
    pub kind: RecordKind,
    pub columns: Seq<(usize, CsvField)>,
}

impl View for CsvMapping {
    type V = MappingModel;

    closed spec fn view(&self) -> MappingModel {
        MappingModel {
            delimiter: self.delimiter,
            encoding: self.encoding,
            has_header: self.has_header,
            kind: self.kind,
            columns: self.columns@,
        }
    }
}

/// Whether some column holds `field`.
pub open spec fn has_field(columns: Seq<(usize, CsvField)>, field: CsvField) -> bool {
    exists|i: int| 0 <= i < columns.len() && (#[trigger] columns[i]).1 == field
}

/// Whether columns are numbered in order without repetition, below the most.
pub open spec fn columns_ordered(columns: Seq<(usize, CsvField)>) -> bool {
    &&& forall|i: int, j: int|
        0 <= i < j < columns.len() ==> (#[trigger] columns[i]).0 < (#[trigger] columns[j]).0
    &&& forall|i: int| 0 <= i < columns.len() ==> (#[trigger] columns[i]).0 < MAX_COLUMNS
}

/// Whether no two columns hold the same field.
pub open spec fn fields_distinct(columns: Seq<(usize, CsvField)>) -> bool {
    forall|i: int, j: int|
        0 <= i < j < columns.len() ==> (#[trigger] columns[i]).1 != (#[trigger] columns[j]).1
}

/// Whether the fields that a kind of record needs are there.
pub open spec fn fields_suffice(kind: RecordKind, columns: Seq<(usize, CsvField)>) -> bool {
    match kind {
        RecordKind::Password => has_field(columns, CsvField::Destination) && has_field(
            columns,
            CsvField::Username,
        ) && has_field(columns, CsvField::Password),
        RecordKind::Note => true,
        RecordKind::Totp => has_field(columns, CsvField::OtpAuth),
        RecordKind::Token => has_field(columns, CsvField::TokenSecret) && has_field(
            columns,
            CsvField::Provider,
        ) && has_field(columns, CsvField::ProfileId),
        RecordKind::Ssh => has_field(columns, CsvField::SshPrivateKey) && has_field(
            columns,
            CsvField::SshPublicKey,
        ) && has_field(columns, CsvField::Username),
        _ => false,
    }
}

/// Whether a mapping is usable: at least one column, each numbered once and
/// each field once, and enough fields for the kind.
pub open spec fn mapping_valid(m: MappingModel) -> bool {
    &&& m.columns.len() > 0
    &&& columns_ordered(m.columns)
    &&& fields_distinct(m.columns)
    &&& fields_suffice(m.kind, m.columns)
}

/// Whether no two columns have the same number.
pub open spec fn numbers_distinct(columns: Seq<(usize, CsvField)>) -> bool {
    forall|i: int, j: int|
        0 <= i < j < columns.len() ==> (#[trigger] columns[i]).0 != (#[trigger] columns[j]).0
}

/// Whether columns in any order make a usable mapping for a kind.
pub open spec fn columns_usable(kind: RecordKind, columns: Seq<(usize, CsvField)>) -> bool {
    &&& columns.len() > 0
    &&& numbers_distinct(columns)
    &&& forall|i: int| 0 <= i < columns.len() ==> (#[trigger] columns[i]).0 < MAX_COLUMNS
    &&& fields_distinct(columns)
    &&& fields_suffice(kind, columns)
}

/// Columns in the order of their numbers.
pub open spec fn ascending(columns: Seq<(usize, CsvField)>) -> Seq<(usize, CsvField)> {
    choose|s: Seq<(usize, CsvField)>|
        columns_ordered(s) && #[trigger] s.to_multiset() == columns.to_multiset()
}

/// Columns with different numbers and fields, in the order of their numbers.
fn sort_columns(columns: &Vec<(usize, CsvField)>) -> (r: Vec<(usize, CsvField)>)
    requires
        numbers_distinct(columns@),
        fields_distinct(columns@),
    ensures
        r@.to_multiset() == columns@.to_multiset(),
        r@.len() == columns@.len(),
        forall|i: int, j: int| 0 <= i < j < r@.len()
            ==> (#[trigger] r@[i]).0 < (#[trigger] r@[j]).0,
        fields_distinct(r@),
        forall|i: int| 0 <= i < r@.len() ==> columns@.contains(#[trigger] r@[i]),
        forall|i: int| 0 <= i < columns@.len() ==> r@.contains(#[trigger] columns@[i]),
{
    let mut out: Vec<(usize, CsvField)> = Vec::new();
    let mut i: usize = 0;
    assert(columns@.take(0) =~= out@);
    while i < columns.len()
        invariant
            i <= columns@.len(),
            out@.len() == i,
            numbers_distinct(columns@),
            fields_distinct(columns@),
            forall|a: int, b: int|
                0 <= a < b < out@.len() ==> (#[trigger] out@[a]).0 < (#[trigger] out@[b]).0,
            fields_distinct(out@),
            forall|a: int|
                0 <= a < out@.len() ==> exists|b: int|
                    0 <= b < i && #[trigger] columns@[b] == #[trigger] out@[a],
            forall|b: int| 0 <= b < i ==> out@.contains(#[trigger] columns@[b]),
            out@.to_multiset() == columns@.take(i as int).to_multiset(),
        decreases columns@.len() - i,
    {
        let x = columns[i];
        assert forall|a: int| 0 <= a < out@.len() implies (#[trigger] out@[a]).0 != x.0 && out@[a].1
            != x.1 by {
            let b = choose|b: int| 0 <= b < i && #[trigger] columns@[b] == out@[a];
            assert(columns@[b].0 != columns@[i as int].0);
        }
        let mut k: usize = out.len();
        while k > 0 && out[k - 1].0 > x.0
            invariant
                k <= out@.len(),
                forall|j: int| k <= j < out@.len() ==> (#[trigger] out@[j]).0 > x.0,
            decreases k,
        {
            k -= 1;
        }
        let ghost before = out@;
        out.insert(k, x);
        proof {
            assert(out@ =~= before.insert(k as int, x));
            assert(columns@.take(i + 1) =~= columns@.take(i as int).push(x));
            vstd::seq_lib::to_multiset_insert(before, k as int, x);
            vstd::seq_lib::to_multiset_build(columns@.take(i as int), x);
            assert forall|a: int, b: int| 0 <= a < b < out@.len() implies (#[trigger] out@[a]).0 < (
            #[trigger] out@[b]).0 && out@[a].1 != out@[b].1 by {
                let p = if a < k {
                    a
                } else {
                    a - 1
                };
                let q = if b < k {
                    b
                } else {
                    b - 1
                };
                if a != k && b != k {
                    assert(before[p].0 < before[q].0 && before[p].1 != before[q].1);
                } else if b == k {
                    assert(before[a].0 != x.0 && before[a].1 != x.1);
                    if a < k - 1 {
                        assert(before[a].0 < before[k - 1].0);
                    }
                } else {
                    assert(before[q].0 > x.0 && before[q].1 != x.1);
                }
            }
            assert forall|a: int| 0 <= a < out@.len() implies exists|b: int|
                0 <= b < i + 1 && #[trigger] columns@[b] == #[trigger] out@[a] by {
                if a == k {
                    assert(columns@[i as int] == out@[a]);
                } else {
                    let p = if a < k {
                        a
                    } else {
                        a - 1
                    };
                    let b = choose|b: int| 0 <= b < i && #[trigger] columns@[b] == before[p];
                    assert(columns@[b] == out@[a]);
                }
            }
            assert forall|b: int| 0 <= b < i + 1 implies out@.contains(#[trigger] columns@[b]) by {
                if b == i {
                    assert(out@[k as int] == columns@[b]);
                } else {
                    assert(before.contains(columns@[b]));
                    let p = choose|p: int| 0 <= p < before.len() && before[p] == columns@[b];
                    let q = if p < k {
                        p
                    } else {
                        p + 1
                    };
                    assert(out@[q] == columns@[b]);
                }
            }
        }
        i += 1;
    }
    assert(columns@.take(i as int) =~= columns@);
    assert forall|a: int| 0 <= a < out@.len() implies columns@.contains(#[trigger] out@[a]) by {
        let b = choose|b: int| 0 <= b < i && #[trigger] columns@[b] == out@[a];
        assert(columns@[b] == out@[a]);
    }
    out
}

/// Whether some column holds `field`.
fn holds_field(columns: &Vec<(usize, CsvField)>, field: CsvField) -> (r: bool)
    ensures
        r == has_field(columns@, field),
{
    let mut i: usize = 0;
    while i < columns.len()
        invariant
            i <= columns@.len(),
            forall|j: int| 0 <= j < i ==> (#[trigger] columns@[j]).1 != field,
        decreases columns@.len() - i,
    {
        if columns[i].1 == field {
            assert(columns@[i as int].1 == field);
            return true;
        }
        i += 1;
    }
    false
}

/// Whether no two columns have the same number or the same field.
fn columns_differ(columns: &Vec<(usize, CsvField)>) -> (r: bool)
    ensures
        r == (numbers_distinct(columns@) && fields_distinct(columns@)),
{
    let mut i: usize = 0;
    while i < columns.len()
        invariant
            i <= columns@.len(),
            forall|a: int, b: int|
                0 <= a < b < i ==> (#[trigger] columns@[a]).0 != (#[trigger] columns@[b]).0
                    && columns@[a].1 != columns@[b].1,
        decreases columns@.len() - i,
    {
        let mut j: usize = 0;
        while j < i
            invariant
                j <= i < columns@.len(),
                forall|a: int|
                    0 <= a < j ==> (#[trigger] columns@[a]).0 != columns@[i as int].0
                        && columns@[a].1 != columns@[i as int].1,
            decreases i - j,
        {
            if columns[j].0 == columns[i].0 || columns[j].1 == columns[i].1 {
                assert(columns@[j as int].0 == columns@[i as int].0 || columns@[j as int].1
                    == columns@[i as int].1);
                return false;
            }
            j += 1;
        }
        i += 1;
    }
    true
}

/// Whether every column number is below the most.
fn columns_bounded(columns: &Vec<(usize, CsvField)>) -> (r: bool)
    ensures
        r == (forall|i: int| 0 <= i < columns@.len() ==> (#[trigger] columns@[i]).0 < MAX_COLUMNS),
{
    let mut i: usize = 0;
    while i < columns.len()
        invariant
            i <= columns@.len(),
            forall|j: int| 0 <= j < i ==> (#[trigger] columns@[j]).0 < MAX_COLUMNS,
        decreases columns@.len() - i,
    {
        if columns[i].0 >= MAX_COLUMNS {
            assert(!(columns@[i as int].0 < MAX_COLUMNS));
            return false;
        }
        i += 1;
    }
    true
}

impl CsvMapping {
    /// Builds an explicit, one-column-per-scalar mapping.
    pub fn new(
        delimiter: CsvDelimiter,
        encoding: CsvEncoding,
        has_header: bool,
        kind: RecordKind,
        columns: Vec<(usize, CsvField)>,
    ) -> (r: Result<CsvMapping, HumanCommitError>)
        ensures
            r is Ok <==> columns_usable(kind, columns@),
            r is Ok ==> (r->Ok_0)@ == (MappingModel {
                delimiter,
                encoding,
                has_header,
                kind,
                columns: ascending(columns@),
            }) && mapping_valid((r->Ok_0)@) && (r->Ok_0)@.columns.to_multiset()
                == columns@.to_multiset(),
            r is Err ==> r->Err_0 is InvalidInput,
    {
        if columns.len() == 0 || !columns_differ(&columns) || !columns_bounded(&columns) {
            return Err(HumanCommitError::InvalidInput);
        }
        let valid = match kind {
            RecordKind::Password => holds_field(&columns, CsvField::Destination) && holds_field(
                &columns,
                CsvField::Username,
            ) && holds_field(&columns, CsvField::Password),
            RecordKind::Note => true,
            RecordKind::Totp => holds_field(&columns, CsvField::OtpAuth),
            RecordKind::Token => holds_field(&columns, CsvField::TokenSecret) && holds_field(
                &columns,
                CsvField::Provider,
            ) && holds_field(&columns, CsvField::ProfileId),
            RecordKind::Ssh => holds_field(&columns, CsvField::SshPrivateKey) && holds_field(
                &columns,
                CsvField::SshPublicKey,
            ) && holds_field(&columns, CsvField::Username),
            _ => false,
        };
        if !valid {
            return Err(HumanCommitError::InvalidInput);
        }
        let sorted = sort_columns(&columns);
        proof {
            assert forall|f: CsvField| has_field(columns@, f) implies has_field(sorted@, f) by {
                let i = choose|i: int| 0 <= i < columns@.len() && (#[trigger] columns@[i]).1 == f;
                assert(sorted@.contains(columns@[i]));
                let j = choose|j: int| 0 <= j < sorted@.len() && sorted@[j] == columns@[i];
                assert(sorted@[j].1 == f);
            }
            assert forall|i: int| 0 <= i < sorted@.len() implies (#[trigger] sorted@[i]).0
                < MAX_COLUMNS by {
                assert(columns@.contains(sorted@[i]));
                let j = choose|j: int| 0 <= j < columns@.len() && columns@[j] == sorted@[i];
                assert(columns@[j].0 < MAX_COLUMNS);
            }
            assert(columns_ordered(sorted@));
            lemma_ascending_unique(sorted@, ascending(columns@));
        }
        Ok(CsvMapping { delimiter, encoding, has_header, kind, columns: sorted })
    }
}

/// Two ascending lists of the same columns are equal.
proof fn lemma_ascending_unique(a: Seq<(usize, CsvField)>, b: Seq<(usize, CsvField)>)
    requires
        columns_ordered(a),
        columns_ordered(b),
        a.to_multiset() == b.to_multiset(),
    ensures
        a == b,
    decreases a.len(),
{
    a.to_multiset_ensures();
    b.to_multiset_ensures();
    if a.len() > 0 {
        vstd::seq_lib::to_multiset_contains(a, a.last());
        vstd::seq_lib::to_multiset_contains(b, a.last());
        vstd::seq_lib::to_multiset_contains(a, b.last());
        vstd::seq_lib::to_multiset_contains(b, b.last());
        assert(a.contains(a.last()) && b.contains(b.last()));
        let i = choose|i: int| 0 <= i < a.len() && a[i] == b.last();
        let j = choose|j: int| 0 <= j < b.len() && b[j] == a.last();
        assert(i == a.len() - 1 && j == b.len() - 1);
        let (x, y) = (a.drop_last(), b.drop_last());
        assert(a =~= x.push(a.last()));
        assert(b =~= y.push(a.last()));
        vstd::seq_lib::to_multiset_build(x, a.last());
        vstd::seq_lib::to_multiset_build(y, a.last());
        assert(x.to_multiset() =~= a.to_multiset().remove(a.last()));
        assert(y.to_multiset() =~= b.to_multiset().remove(a.last()));
        lemma_ascending_unique(x, y);
    } else {
        assert(a =~= b);
    }
}

/// What a list of columns is usable for does not depend on its order.
proof fn lemma_usable_in_any_order(
    kind: RecordKind,
    a: Seq<(usize, CsvField)>,
    b: Seq<(usize, CsvField)>,
)
    requires
        a.to_multiset() == b.to_multiset(),
        columns_usable(kind, a),
    ensures
        columns_usable(kind, b),
{
    a.to_multiset_ensures();
    b.to_multiset_ensures();
    assert(a.no_duplicates());
    a.lemma_multiset_has_no_duplicates();
    b.lemma_multiset_has_no_duplicates_conv();
    assert forall|i: int| 0 <= i < b.len() implies a.contains(#[trigger] b[i]) by {
        vstd::seq_lib::to_multiset_contains(a, b[i]);
        vstd::seq_lib::to_multiset_contains(b, b[i]);
        assert(b.contains(b[i]));
    }
    assert forall|i: int, j: int| 0 <= i < j < b.len() implies (#[trigger] b[i]).0 != (
    #[trigger] b[j]).0 && b[i].1 != b[j].1 by {
        let x = choose|x: int| 0 <= x < a.len() && a[x] == b[i];
        let y = choose|y: int| 0 <= y < a.len() && a[y] == b[j];
        assert(b[i] != b[j]);
        assert(a[x].0 != a[y].0 && a[x].1 != a[y].1);
    }
    assert forall|f: CsvField| has_field(a, f) implies has_field(b, f) by {
        let x = choose|x: int| 0 <= x < a.len() && (#[trigger] a[x]).1 == f;
        vstd::seq_lib::to_multiset_contains(a, a[x]);
        vstd::seq_lib::to_multiset_contains(b, a[x]);
        assert(a.contains(a[x]));
        let y = choose|y: int| 0 <= y < b.len() && b[y] == a[x];
        assert(b[y].1 == f);
    }
}

/// Two orders of one list of columns are both refused, or make the same
/// mapping.
pub proof fn lemma_mapping_in_any_order(
    kind: RecordKind,
    a: Seq<(usize, CsvField)>,
    b: Seq<(usize, CsvField)>,
)
    requires
        a.to_multiset() == b.to_multiset(),
    ensures
        columns_usable(kind, a) == columns_usable(kind, b),
        ascending(a) == ascending(b),
{
    if columns_usable(kind, a) {
        lemma_usable_in_any_order(kind, a, b);
    }
    if columns_usable(kind, b) {
        lemma_usable_in_any_order(kind, b, a);
    }
}

/// Where an import comes from.
#[derive(Clone, Debug, PartialEq, Eq)]
pub enum CsvImportProfile {
    Chrome,
    Apple(CsvMapping),
    Mappable(CsvMapping),
}

impl CsvImportProfile {
    pub fn chrome() -> (r: CsvImportProfile)
        ensures
            r == CsvImportProfile::Chrome,
    {
        CsvImportProfile::Chrome
    }

    pub fn apple(mapping: CsvMapping) -> (r: CsvImportProfile)
        ensures
            r == CsvImportProfile::Apple(mapping),
    {
        CsvImportProfile::Apple(mapping)
    }

    pub fn mappable(mapping: CsvMapping) -> (r: CsvImportProfile)
        ensures
            r == CsvImportProfile::Mappable(mapping),
    {
        CsvImportProfile::Mappable(mapping)
    }
}

/// How a row relates to what the vault holds.
#[derive(Clone, Copy, Debug, PartialEq, Eq, Structural)]
pub enum CsvRowStatus {
    New,
    ExactDuplicate,
    CandidateDuplicate,
}

/// One row of a preview.
#[derive(Clone, Debug, PartialEq, Eq)]
pub struct CsvRowPreview {
    ordinal: usize,
    status: CsvRowStatus,
    unknown_fields: usize,
    duplicate_item: Option<[u8; 16]>,
}

/// The contents of a [`CsvRowPreview`].
pub struct RowModel {
    pub ordinal: nat,
    pub status: CsvRowStatus,
    pub unknown_fields: nat,
    pub duplicate_item: Option<[u8; 16]>,
}

impl View for CsvRowPreview {
    type V = RowModel;

    closed spec fn view(&self) -> RowModel {
        RowModel {
            ordinal: self.ordinal as nat,
            status: self.status,
            unknown_fields: self.unknown_fields as nat,
            duplicate_item: self.duplicate_item,
        }
    }
}

impl CsvRowPreview {
    /// A row that the vault does not hold yet.
    pub(crate) fn fresh(ordinal: usize, unknown_fields: usize) -> (r: CsvRowPreview)
        ensures
            r@ == (RowModel {
                ordinal: ordinal as nat,
                status: CsvRowStatus::New,
                unknown_fields: unknown_fields as nat,
                duplicate_item: None,
            }),
    {
        CsvRowPreview { ordinal, status: CsvRowStatus::New, unknown_fields, duplicate_item: None }
    }

    /// Marks the row as a duplicate of a held item.
    pub(crate) fn mark(&mut self, status: CsvRowStatus, item: [u8; 16])
        ensures
            final(self)@ == (RowModel { status, duplicate_item: Some(item), ..old(self)@ }),
    {
        self.status = status;
        self.duplicate_item = Some(item);
    }

    pub fn ordinal(&self) -> (r: usize)
        ensures
            r == self@.ordinal,
    {
        self.ordinal
    }

    pub fn status(&self) -> (r: CsvRowStatus)
        ensures
            r == self@.status,
    {
        self.status
    }

    pub fn unknown_fields(&self) -> (r: usize)
        ensures
            r == self@.unknown_fields,
    {
        self.unknown_fields
    }

    pub fn duplicate_item(&self) -> (r: Option<&[u8; 16]>)
        ensures
            match self@.duplicate_item {
                Some(id) => r is Some && *(r->0) == id,
                None => r is None,
            },
    {
        self.duplicate_item.as_ref()
    }
}

/// The number of the first column at `i` or behind it that holds `field`.
pub open spec fn column_of(columns: Seq<(usize, CsvField)>, field: CsvField, i: int) -> Option<int>
    decreases columns.len() - i,
{
    if i < 0 || i >= columns.len() {
        None
    } else if columns[i].1 == field {
        Some(columns[i].0 as int)
    } else {
        column_of(columns, field, i + 1)
    }
}

/// Whether column `c` holds a field.
pub open spec fn is_mapped(columns: Seq<(usize, CsvField)>, c: int) -> bool {
    exists|i: int| 0 <= i < columns.len() && (#[trigger] columns[i]).0 == c
}

/// The text of a row in the column that holds `field`.
pub open spec fn field_text(columns: Seq<(usize, CsvField)>, row: Seq<Seq<char>>,
    field: CsvField) -> Option<
    Seq<char>,
> {
    match column_of(columns, field, 0) {
        Some(c) => Some(row[c]),
        None => None,
    }
}

/// The text of a row for `field`, empty where no column holds it.
pub open spec fn field_or_empty(
    columns: Seq<(usize, CsvField)>,
    row: Seq<Seq<char>>,
    field: CsvField,
) -> Seq<char> {
    match field_text(columns, row, field) {
        Some(s) => s,
        None => Seq::empty(),
    }
}

/// The first `n` columns of a row that hold no field, kept under their header.
pub open spec fn unmapped_fields(
    columns: Seq<(usize, CsvField)>,
    headers: Seq<Seq<char>>,
    row: Seq<Seq<char>>,
    n: int,
) -> Seq<SourceFieldModel>
    decreases n,
{
    if n <= 0 {
        Seq::empty()
    } else {
        let before = unmapped_fields(columns, headers, row, n - 1);
        if is_mapped(columns, n - 1) {
            before
        } else {
            before.push(
                SourceFieldModel {
                    path: headers[n - 1],
                    encoding: SourceEncoding::Utf8,
                    value: encode_utf8(row[n - 1]),
                },
            )
        }
    }
}

/// The fields of a row that are kept as they came: the unmapped columns, and
/// the one-time-password URI where there is one.
pub open spec fn kept_fields(
    columns: Seq<(usize, CsvField)>,
    headers: Seq<Seq<char>>,
    row: Seq<Seq<char>>,
) -> Seq<SourceFieldModel> {
    let unmapped = unmapped_fields(columns, headers, row, row.len() as int);
    let uri = field_or_empty(columns, row, CsvField::OtpAuth);
    if uri.len() > 0 {
        unmapped.push(
            SourceFieldModel {
                path: "OTPAuth"@,
                encoding: SourceEncoding::Utf8,
                value: encode_utf8(uri),
            },
        )
    } else {
        unmapped
    }
}

/// The destinations of a row: the one given, if any.
pub open spec fn row_destinations(
    columns: Seq<(usize, CsvField)>,
    row: Seq<Seq<char>>,
) -> Seq<DestinationModel> {
    let destination = field_or_empty(columns, row, CsvField::Destination);
    if destination.len() == 0 {
        Seq::empty()
    } else {
        seq![DestinationModel { label: Seq::empty(), value: destination }]
    }
}

/// References to every destination of a row.
pub open spec fn row_refs(columns: Seq<(usize, CsvField)>, row: Seq<Seq<char>>) -> Seq<u16> {
    if row_destinations(columns, row).len() == 0 {
        Seq::empty()
    } else {
        seq![0u16]
    }
}

/// The way to authenticate that a row gives for its kind; nothing for a
/// one-time password or a note, and no import of the remaining kinds.
pub open spec fn kind_auth(
    kind: RecordKind,
    columns: Seq<(usize, CsvField)>,
    row: Seq<Seq<char>>,
) -> Option<Seq<AuthModel>> {
    let refs = row_refs(columns, row);
    match kind {
        RecordKind::Password => Some(
            seq![
                AuthModel::Password {
                    username: field_or_empty(columns, row, CsvField::Username),
                    password: encode_utf8(field_or_empty(columns, row, CsvField::Password)),
                    destination_refs: refs,
                },
            ],
        ),
        RecordKind::Totp | RecordKind::Note => Some(Seq::empty()),
        RecordKind::Token => Some(
            seq![
                AuthModel::Token {
                    secret: encode_utf8(field_or_empty(columns, row, CsvField::TokenSecret)),
                    provider: field_or_empty(columns, row, CsvField::Provider),
                    profile_id: field_or_empty(columns, row, CsvField::ProfileId),
                    destination_refs: refs,
                    expires_at: None,
                },
            ],
        ),
        RecordKind::Ssh => Some(
            seq![
                AuthModel::Ssh {
                    private_format: PrivateKeyFormat::OpenSsh,
                    private_key: encode_utf8(field_or_empty(columns, row, CsvField::SshPrivateKey)),
                    public_key: encode_utf8(field_or_empty(columns, row, CsvField::SshPublicKey)),
                    username: field_or_empty(columns, row, CsvField::Username),
                    destination_refs: refs,
                    passphrase: if field_or_empty(columns, row, CsvField::SshPassphrase).len()
                        > 0 {
                        Some(encode_utf8(field_or_empty(columns, row, CsvField::SshPassphrase)))
                    } else {
                        None
                    },
                },
            ],
        ),
        _ => None,
    }
}

/// All ways to authenticate that a row gives, the one-time password last.
pub open spec fn row_auth(
    kind: RecordKind,
    columns: Seq<(usize, CsvField)>,
    row: Seq<Seq<char>>,
) -> Option<Seq<AuthModel>> {
    let uri = field_or_empty(columns, row, CsvField::OtpAuth);
    match kind_auth(kind, columns, row) {
        Some(auth) => if uri.len() == 0 {
            Some(auth)
        } else {
            match totp_auth(uri, row_refs(columns, row)) {
                Some(totp) => Some(auth.push(totp)),
                None => None,
            }
        },
        None => None,
    }
}

/// The record that a row gives; none where its width is wrong, a mapped column
/// is missing, its one-time password is malformed or a limit is exceeded.
pub open spec fn row_record(
    kind: RecordKind,
    columns: Seq<(usize, CsvField)>,
    headers: Seq<Seq<char>>,
    row: Seq<Seq<char>>,
) -> Option<RecordModel> {
    if row.len() != headers.len() || (exists|i: int|
        0 <= i < columns.len() && (#[trigger] columns[i]).0 >= row.len()) {
        None
    } else {
        match row_auth(kind, columns, row) {
            Some(auth) => {
                let m = RecordModel {
                    kind,
                    human: HumanModel {
                        title: field_or_empty(columns, row, CsvField::Title),
                        destinations: row_destinations(columns, row),
                        tags: Seq::empty(),
                        favorite: false,
                        notes: field_or_empty(columns, row, CsvField::Notes),
                        fields: Seq::empty(),
                        source_fields: kept_fields(columns, headers, row),
                    },
                    auth,
                    attachments: Seq::empty(),
                };
                if shape_valid(m) {
                    Some(m)
                } else {
                    None
                }
            },
            None => None,
        }
    }
}

/// The records that the first `n` rows of `data` give; none where one fails.
pub open spec fn row_records(
    kind: RecordKind,
    columns: Seq<(usize, CsvField)>,
    headers: Seq<Seq<char>>,
    data: Seq<Seq<Seq<char>>>,
    n: int,
) -> Option<Seq<RecordModel>>
    decreases n,
{
    if n <= 0 {
        Some(Seq::empty())
    } else {
        match (
            row_records(kind, columns, headers, data, n - 1),
            row_record(kind, columns, headers, data[n - 1]),
        ) {
            (Some(before), Some(m)) => Some(before.push(m)),
            _ => None,
        }
    }
}

/// One failing row fails all longer prefixes.
proof fn lemma_row_records_fail(
    kind: RecordKind,
    columns: Seq<(usize, CsvField)>,
    headers: Seq<Seq<char>>,
    data: Seq<Seq<Seq<char>>>,
    i: int,
    n: int,
)
    requires
        0 <= i <= n,
        row_records(kind, columns, headers, data, i) is None,
    ensures
        row_records(kind, columns, headers, data, n) is None,
    decreases n - i,
{
    if i < n {
        lemma_row_records_fail(kind, columns, headers, data, i, n - 1);
    }
}

/// The headers of a table without a header row.
pub open spec fn numbered_headers(width: nat) -> Seq<Seq<char>> {
    Seq::new(width, |i: int| "column:"@ + decimal_digits(i as nat))
}

/// The number of the first header at `i` or behind it that reads `name`.
pub open spec fn find_header(headers: Seq<Seq<char>>, name: Seq<char>, i: int) -> Option<int>
    decreases headers.len() - i,
{
    if i < 0 || i >= headers.len() {
        None
    } else if headers[i] == name {
        Some(i)
    } else {
        find_header(headers, name, i + 1)
    }
}

/// Column `c` holding `field`, or nothing.
pub open spec fn column_if(c: Option<int>, field: CsvField) -> Seq<(usize, CsvField)> {
    match c {
        Some(c) => seq![(c as usize, field)],
        None => Seq::empty(),
    }
}

/// The columns of a Chrome export; an address, a user name and a password are
/// required, a name and a note are not.
pub open spec fn chrome_columns(headers: Seq<Seq<char>>) -> Option<Seq<(usize, CsvField)>> {
    match (
        find_header(headers, "url"@, 0),
        find_header(headers, "username"@, 0),
        find_header(headers, "password"@, 0),
    ) {
        (Some(url), Some(username), Some(password)) => Some(
            column_if(find_header(headers, "name"@, 0), CsvField::Title) + seq![
                (url as usize, CsvField::Destination),
                (username as usize, CsvField::Username),
                (password as usize, CsvField::Password),
            ] + column_if(find_header(headers, "note"@, 0), CsvField::Notes),
        ),
        _ => None,
    }
}

/// How the source of an import is named.
pub open spec fn source_name(profile: CsvImportProfile) -> Seq<char> {
    match profile {
        CsvImportProfile::Chrome => "chrome"@,
        CsvImportProfile::Apple(_) => "apple"@,
        CsvImportProfile::Mappable(_) => "mappable"@,
    }
}

/// The mapping a profile brings along; Chrome derives its own from the
/// headers.
pub open spec fn profile_mapping(profile: CsvImportProfile) -> Option<MappingModel> {
    match profile {
        CsvImportProfile::Chrome => None,
        CsvImportProfile::Apple(m) => Some(m@),
        CsvImportProfile::Mappable(m) => Some(m@),
    }
}

/// The table of an import source: decoded and split as the profile says.
pub open spec fn source_table(bytes: Seq<u8>, profile: CsvImportProfile) -> Option<
    Seq<Seq<Seq<char>>>,
> {
    let (encoding, delimiter) = match profile_mapping(profile) {
        Some(m) => (m.encoding, m.delimiter),
        None => (CsvEncoding::Utf8, CsvDelimiter::Comma),
    };
    match decoded_text(bytes, encoding) {
        Some(text) => csv_table(encode_utf8(text), delimiter.byte_value()),
        None => None,
    }
}

/// The records of a table: the headers come from its first row or are
/// numbered, and there must be rows behind them, but not too many.
pub open spec fn table_records(table: Seq<Seq<Seq<char>>>, profile: CsvImportProfile) -> Option<
    Seq<RecordModel>,
> {
    let has_header = match profile_mapping(profile) {
        Some(m) => m.has_header,
        None => true,
    };
    if table.len() == 0 || table[0].len() == 0 || table[0].len() > MAX_COLUMNS {
        None
    } else {
        let headers = if has_header {
            table[0]
        } else {
            numbered_headers(table[0].len())
        };
        let data = if has_header {
            table.skip(1)
        } else {
            table
        };
        if data.len() == 0 || data.len() > MAX_RECORDS {
            None
        } else {
            match profile_mapping(profile) {
                Some(m) => row_records(m.kind, m.columns, headers, data, data.len() as int),
                None => match chrome_columns(headers) {
                    Some(columns) => if columns_usable(RecordKind::Password, columns) {
                        row_records(
                            RecordKind::Password,
                            columns,
                            headers,
                            data,
                            data.len() as int,
                        )
                    } else {
                        None
                    },
                    None => None,
                },
            }
        }
    }
}

/// The records of an import source.
pub open spec fn source_records(bytes: Seq<u8>, profile: CsvImportProfile) -> Option<
    Seq<RecordModel>,
> {
    match source_table(bytes, profile) {
        Some(table) => table_records(table, profile),
        None => None,
    }
}

/// The preview rows of freshly parsed records.
pub open spec fn fresh_rows(records: Seq<RecordModel>) -> Seq<RowModel> {
    Seq::new(
        records.len(),
        |i: int|
            RowModel {
                ordinal: (i + 1) as nat,
                status: CsvRowStatus::New,
                unknown_fields: records[i].human.source_fields.len(),
                duplicate_item: None,
            },
    )
}

/// Parsed records with the classification of each.
pub struct CsvImportPreview {
    records: Vec<LogicalRecord>,
    rows: Vec<CsvRowPreview>,
    source: &'static str,
}

/// The contents of a [`CsvImportPreview`].
pub struct PreviewModel {
    pub records: Seq<RecordModel>,
    pub rows: Seq<RowModel>,
    pub source: Seq<char>,
}

impl View for CsvImportPreview {
    type V = PreviewModel;

    closed spec fn view(&self) -> PreviewModel {
        PreviewModel {
            records: views(self.records@),
            rows: views(self.rows@),
            source: self.source@,
        }
    }
}

/// The text of a row in the column that holds `field`.
fn value_in<'a>(columns: &Vec<(usize, CsvField)>, row: &'a Vec<String>,
    field: CsvField) -> (r: Option<
    &'a String,
>)
    requires
        forall|i: int| 0 <= i < columns@.len() ==> (#[trigger] columns@[i]).0 < row@.len(),
    ensures
        match field_text(columns@, views(row@), field) {
            Some(s) => r is Some && (r->0)@ == s,
            None => r is None,
        },
{
    let mut i: usize = 0;
    while i < columns.len()
        invariant
            i <= columns@.len(),
            forall|j: int| 0 <= j < columns@.len() ==> (#[trigger] columns@[j]).0 < row@.len(),
            column_of(columns@, field, 0) == column_of(columns@, field, i as int),
        decreases columns@.len() - i,
    {
        if columns[i].1 == field {
            return Some(&row[columns[i].0]);
        }
        i += 1;
    }
    None
}

/// The text of a row for `field`, empty where no column holds it.
fn text_in(columns: &Vec<(usize, CsvField)>, row: &Vec<String>, field: CsvField) -> (r: String)
    requires
        forall|i: int| 0 <= i < columns@.len() ==> (#[trigger] columns@[i]).0 < row@.len(),
    ensures
        r@ == field_or_empty(columns@, views(row@), field),
{
    match value_in(columns, row, field) {
        Some(s) => s.clone(),
        None => String::new(),
    }
}

/// The UTF-8 bytes of a row for `field`.
fn bytes_in(columns: &Vec<(usize, CsvField)>, row: &Vec<String>, field: CsvField) -> (r: Vec<u8>)
    requires
        forall|i: int| 0 <= i < columns@.len() ==> (#[trigger] columns@[i]).0 < row@.len(),
    ensures
        r@ == encode_utf8(field_or_empty(columns@, views(row@), field)),
{
    let text = text_in(columns, row, field);
    vstd::slice::slice_to_vec(text.as_str().as_bytes())
}

/// Whether column `c` holds a field.
fn mapped(columns: &Vec<(usize, CsvField)>, c: usize) -> (r: bool)
    ensures
        r == is_mapped(columns@, c as int),
{
    let mut i: usize = 0;
    while i < columns.len()
        invariant
            i <= columns@.len(),
            forall|j: int| 0 <= j < i ==> (#[trigger] columns@[j]).0 != c,
        decreases columns@.len() - i,
    {
        if columns[i].0 == c {
            assert(columns@[i as int].0 == c);
            return true;
        }
        i += 1;
    }
    false
}

/// The fields of a row that are kept as they came.
fn keep_fields(columns: &Vec<(usize, CsvField)>, headers: &Vec<String>,
    row: &Vec<String>) -> (r: Vec<
    SourceField,
>)
    requires
        forall|i: int| 0 <= i < columns@.len() ==> (#[trigger] columns@[i]).0 < row@.len(),
        headers@.len() == row@.len(),
    ensures
        views(r@) == kept_fields(columns@, views(headers@), views(row@)),
{
    let mut out: Vec<SourceField> = Vec::new();
    let mut i: usize = 0;
    assert(views(out@) =~= Seq::<SourceFieldModel>::empty());
    while i < row.len()
        invariant
            i <= row@.len() == headers@.len(),
            views(out@) == unmapped_fields(columns@, views(headers@), views(row@), i as int),
        decreases row@.len() - i,
    {
        let ghost before = out@;
        if !mapped(columns, i) {
            let field = SourceField {
                path: headers[i].clone(),
                encoding: SourceEncoding::Utf8,
                value: vstd::slice::slice_to_vec(row[i].as_str().as_bytes()),
            };
            out.push(field);
            assert(views(out@) =~= views(before).push(field@));
        }
        i += 1;
    }
    let uri = text_in(columns, row, CsvField::OtpAuth);
    if !uri.as_str().is_empty() {
        let ghost before = out@;
        let field = SourceField {
            path: "OTPAuth".to_owned(),
            encoding: SourceEncoding::Utf8,
            value: vstd::slice::slice_to_vec(uri.as_str().as_bytes()),
        };
        out.push(field);
        assert(views(out@) =~= views(before).push(field@));
    }
    out
}

/// The ways to authenticate that a row gives.
fn read_auth(
    kind: RecordKind,
    columns: &Vec<(usize, CsvField)>,
    row: &Vec<String>,
    refs: &Vec<u16>,
) -> (r: Option<Vec<AuthRecord>>)
    requires
        forall|i: int| 0 <= i < columns@.len() ==> (#[trigger] columns@[i]).0 < row@.len(),
        refs@ == row_refs(columns@, views(row@)),
    ensures
        match row_auth(kind, columns@, views(row@)) {
            Some(v) => r is Some && views((r->0)@) == v,
            None => r is None,
        },
{
    let mut auth: Vec<AuthRecord> = Vec::new();
    match kind {
        RecordKind::Password => {
            let x = AuthRecord::Password {
                username: text_in(columns, row, CsvField::Username),
                password: bytes_in(columns, row, CsvField::Password),
                destination_refs: vstd::slice::slice_to_vec(refs.as_slice()),
            };
            auth.push(x);
            assert(views(auth@) =~= seq![x@]);
        },
        RecordKind::Totp | RecordKind::Note => {
            assert(views(auth@) =~= Seq::<AuthModel>::empty());
        },
        RecordKind::Token => {
            let x = AuthRecord::Token {
                secret: bytes_in(columns, row, CsvField::TokenSecret),
                provider: text_in(columns, row, CsvField::Provider),
                profile_id: text_in(columns, row, CsvField::ProfileId),
                destination_refs: vstd::slice::slice_to_vec(refs.as_slice()),
                expires_at: None,
            };
            auth.push(x);
            assert(views(auth@) =~= seq![x@]);
        },
        RecordKind::Ssh => {
            let phrase = text_in(columns, row, CsvField::SshPassphrase);
            let passphrase = if phrase.as_str().is_empty() {
                None
            } else {
                Some(vstd::slice::slice_to_vec(phrase.as_str().as_bytes()))
            };
            let x = AuthRecord::Ssh {
                private_format: PrivateKeyFormat::OpenSsh,
                private_key: bytes_in(columns, row, CsvField::SshPrivateKey),
                public_key: bytes_in(columns, row, CsvField::SshPublicKey),
                username: text_in(columns, row, CsvField::Username),
                destination_refs: vstd::slice::slice_to_vec(refs.as_slice()),
                passphrase,
            };
            auth.push(x);
            assert(views(auth@) =~= seq![x@]);
        },
        _ => {
            return None;
        },
    }
    let uri = text_in(columns, row, CsvField::OtpAuth);
    if !uri.as_str().is_empty() {
        let ghost before = auth@;
        match parse_totp(&uri, refs) {
            Ok(x) => {
                auth.push(x);
                assert(views(auth@) =~= views(before).push(x@));
            },
            Err(_) => {
                return None;
            },
        }
    }
    Some(auth)
}

/// Whether every mapped column lies within a row of that width.
fn columns_within(columns: &Vec<(usize, CsvField)>, width: usize) -> (r: bool)
    ensures
        r == !(exists|i: int| 0 <= i < columns@.len() && (#[trigger] columns@[i]).0 >= width),
{
    let mut i: usize = 0;
    while i < columns.len()
        invariant
            i <= columns@.len(),
            forall|j: int| 0 <= j < i ==> (#[trigger] columns@[j]).0 < width,
        decreases columns@.len() - i,
    {
        if columns[i].0 >= width {
            assert(columns@[i as int].0 >= width);
            return false;
        }
        i += 1;
    }
    true
}

/// The record that a row gives.
fn read_row(
    kind: RecordKind,
    columns: &Vec<(usize, CsvField)>,
    headers: &Vec<String>,
    row: &Vec<String>,
) -> (r: Option<LogicalRecord>)
    ensures
        match row_record(kind, columns@, views(headers@), views(row@)) {
            Some(m) => r is Some && (r->0)@ == m,
            None => r is None,
        },
{
    if row.len() != headers.len() || !columns_within(columns, row.len()) {
        return None;
    }
    let source_fields = keep_fields(columns, headers, row);
    let title = text_in(columns, row, CsvField::Title);
    let destination = text_in(columns, row, CsvField::Destination);
    let mut destinations: Vec<Destination> = Vec::new();
    let mut refs: Vec<u16> = Vec::new();
    if !destination.as_str().is_empty() {
        destinations.push(Destination { label: String::new(), value: destination });
        refs.push(0);
        assert(views(destinations@) =~= row_destinations(columns@, views(row@)));
        assert(refs@ =~= row_refs(columns@, views(row@)));
    } else {
        assert(views(destinations@) =~= row_destinations(columns@, views(row@)));
        assert(refs@ =~= row_refs(columns@, views(row@)));
    }
    let auth = read_auth(kind, columns, row, &refs)?;
    let tags: Vec<String> = Vec::new();
    let fields: Vec<crate::content::CustomField> = Vec::new();
    let attachments: Vec<crate::content::Attachment> = Vec::new();
    let digests: Vec<[u8; 32]> = Vec::new();
    assert(views(tags@) =~= Seq::<Seq<char>>::empty());
    assert(views(fields@) =~= Seq::<crate::content::FieldModel>::empty());
    assert(views(attachments@) =~= Seq::<AttachmentModel>::empty());
    let human = HumanMetadata {
        title,
        destinations,
        tags,
        favorite: false,
        notes: text_in(columns, row, CsvField::Notes),
        fields,
        source_fields,
    };
    match LogicalRecord::new(kind, human, auth, attachments, &digests) {
        Ok(record) => Some(record),
        Err(_) => None,
    }
}

/// The records that the rows from `first` on give.
fn read_rows(
    kind: RecordKind,
    columns: &Vec<(usize, CsvField)>,
    headers: &Vec<String>,
    table: &Vec<Vec<String>>,
    first: usize,
) -> (r: Option<Vec<LogicalRecord>>)
    requires
        first <= table@.len(),
    ensures
        ({
            let data = table_view(table@).skip(first as int);
            match row_records(kind, columns@, views(headers@), data, data.len() as int) {
                Some(v) => r is Some && views((r->0)@) == v,
                None => r is None,
            }
        }),
{
    let ghost data = table_view(table@).skip(first as int);
    let mut out: Vec<LogicalRecord> = Vec::new();
    let mut i: usize = first;
    assert(views(out@) =~= Seq::<RecordModel>::empty());
    while i < table.len()
        invariant
            first <= i <= table@.len(),
            data == table_view(table@).skip(first as int),
            row_records(kind, columns@, views(headers@), data, i - first) == Some(views(out@)),
        decreases table@.len() - i,
    {
        assert(data[i - first] == views(table@[i as int]@));
        match read_row(kind, columns, headers, &table[i]) {
            Some(record) => {
                let ghost before = out@;
                out.push(record);
                assert(views(out@) =~= views(before).push(record@));
            },
            None => {
                proof {
                    lemma_row_records_fail(
                        kind,
                        columns@,
                        views(headers@),
                        data,
                        i - first + 1,
                        data.len() as int,
                    );
                }
                return None;
            },
        }
        i += 1;
    }
    Some(out)
}

/// What finding a field means.
proof fn lemma_column_of(columns: Seq<(usize, CsvField)>, field: CsvField, i: int)
    requires
        0 <= i,
    ensures
        match column_of(columns, field, i) {
            Some(c) => columns.contains((c as usize, field)) && 0 <= c <= usize::MAX,
            None => forall|j: int| i <= j < columns.len() ==> (#[trigger] columns[j]).1 != field,
        },
    decreases columns.len() - i,
{
    if i < columns.len() {
        if columns[i].1 == field {
            assert(columns[i] == (columns[i].0, field));
        } else {
            lemma_column_of(columns, field, i + 1);
        }
    }
}

/// The order of the columns does not matter.
proof fn lemma_columns_permuted(
    a: Seq<(usize, CsvField)>,
    b: Seq<(usize, CsvField)>,
    field: CsvField,
)
    requires
        fields_distinct(a),
        fields_distinct(b),
        forall|x: (usize, CsvField)| a.contains(x) <==> b.contains(x),
    ensures
        column_of(a, field, 0) == column_of(b, field, 0),
{
    lemma_column_of(a, field, 0);
    lemma_column_of(b, field, 0);
    match column_of(a, field, 0) {
        Some(c) => {
            let x = (c as usize, field);
            assert(b.contains(x));
            let j = choose|j: int| 0 <= j < b.len() && b[j] == x;
            assert(b[j].1 == field);
            let y = (column_of(b, field, 0)->0 as usize, field);
            assert(b.contains(y));
            let k = choose|k: int| 0 <= k < b.len() && b[k] == y;
            assert(b[k].1 == field);
        },
        None => {
            if column_of(b, field, 0) is Some {
                let y = (column_of(b, field, 0)->0 as usize, field);
                assert(a.contains(y));
                let k = choose|k: int| 0 <= k < a.len() && a[k] == y;
                assert(a[k].1 == field);
            }
        },
    }
}

/// A mapped column is mapped in any order.
proof fn lemma_mapped_permuted(a: Seq<(usize, CsvField)>, b: Seq<(usize, CsvField)>, c: int)
    requires
        forall|x: (usize, CsvField)| a.contains(x) <==> b.contains(x),
        is_mapped(a, c),
    ensures
        is_mapped(b, c),
{
    let i = choose|i: int| 0 <= i < a.len() && (#[trigger] a[i]).0 == c;
    assert(a.contains(a[i]));
    assert(b.contains(a[i]));
    let j = choose|j: int| 0 <= j < b.len() && b[j] == a[i];
    assert(b[j].0 == c);
}

/// The unmapped fields are the same in any order of the columns.
proof fn lemma_unmapped_permuted(
    a: Seq<(usize, CsvField)>,
    b: Seq<(usize, CsvField)>,
    headers: Seq<Seq<char>>,
    row: Seq<Seq<char>>,
    n: int,
)
    requires
        forall|x: (usize, CsvField)| a.contains(x) <==> b.contains(x),
    ensures
        unmapped_fields(a, headers, row, n) == unmapped_fields(b, headers, row, n),
    decreases n,
{
    if n > 0 {
        lemma_unmapped_permuted(a, b, headers, row, n - 1);
        if is_mapped(a, n - 1) {
            lemma_mapped_permuted(a, b, n - 1);
        }
        if is_mapped(b, n - 1) {
            lemma_mapped_permuted(b, a, n - 1);
        }
    }
}

/// The record of a row is the same in any order of the columns.
proof fn lemma_row_permuted(
    kind: RecordKind,
    a: Seq<(usize, CsvField)>,
    b: Seq<(usize, CsvField)>,
    headers: Seq<Seq<char>>,
    row: Seq<Seq<char>>,
)
    requires
        fields_distinct(a),
        fields_distinct(b),
        forall|x: (usize, CsvField)| a.contains(x) <==> b.contains(x),
    ensures
        row_record(kind, a, headers, row) == row_record(kind, b, headers, row),
{
    assert forall|f: CsvField| #[trigger] column_of(a, f, 0) == column_of(b, f, 0) by {
        lemma_columns_permuted(a, b, f);
    }
    assert forall|f: CsvField| #[trigger]
        field_or_empty(a, row, f) == field_or_empty(b, row, f) by {
        assert(column_of(a, f, 0) == column_of(b, f, 0));
    }
    lemma_unmapped_permuted(a, b, headers, row, row.len() as int);
    if exists|i: int| 0 <= i < a.len() && (#[trigger] a[i]).0 >= row.len() {
        let i = choose|i: int| 0 <= i < a.len() && (#[trigger] a[i]).0 >= row.len();
        lemma_mapped_permuted(a, b, a[i].0 as int);
    }
    if exists|i: int| 0 <= i < b.len() && (#[trigger] b[i]).0 >= row.len() {
        let i = choose|i: int| 0 <= i < b.len() && (#[trigger] b[i]).0 >= row.len();
        lemma_mapped_permuted(b, a, b[i].0 as int);
    }
}

/// The records of a table are the same in any order of the columns.
proof fn lemma_rows_permuted(
    kind: RecordKind,
    a: Seq<(usize, CsvField)>,
    b: Seq<(usize, CsvField)>,
    headers: Seq<Seq<char>>,
    data: Seq<Seq<Seq<char>>>,
    n: int,
)
    requires
        fields_distinct(a),
        fields_distinct(b),
        forall|x: (usize, CsvField)| a.contains(x) <==> b.contains(x),
    ensures
        row_records(kind, a, headers, data, n) == row_records(kind, b, headers, data, n),
    decreases n,
{
    if n > 0 {
        lemma_rows_permuted(kind, a, b, headers, data, n - 1);
        lemma_row_permuted(kind, a, b, headers, data[n - 1]);
    }
}

/// The number of the first header that reads `name`.
fn position_of_header(headers: &Vec<String>, name: &str) -> (r: Option<usize>)
    ensures
        match find_header(views(headers@), name@, 0) {
            Some(c) => r == Some(c as usize) && 0 <= c < headers@.len(),
            None => r is None,
        },
{
    let mut i: usize = 0;
    while i < headers.len()
        invariant
            i <= headers@.len(),
            find_header(views(headers@), name@, 0) == find_header(views(headers@), name@, i as int),
        decreases headers@.len() - i,
    {
        if same_str(headers[i].as_str(), name) {
            return Some(i);
        }
        i += 1;
    }
    None
}

/// The mapping of a Chrome export.
fn chrome_mapping(headers: &Vec<String>) -> (r: Result<CsvMapping, HumanCommitError>)
    ensures
        r is Ok <==> (match chrome_columns(views(headers@)) {
            Some(columns) => columns_usable(RecordKind::Password, columns),
            None => false,
        }),
        r is Ok ==> {
            &&& (r->Ok_0)@.kind == RecordKind::Password
            &&& (r->Ok_0)@.columns.to_multiset() == chrome_columns(
                views(headers@),
            )->0.to_multiset()
            &&& fields_distinct((r->Ok_0)@.columns)
        },
        r is Err ==> r->Err_0 is InvalidInput,
{
    let mut columns: Vec<(usize, CsvField)> = Vec::new();
    if let Some(c) = position_of_header(headers, "name") {
        columns.push((c, CsvField::Title));
    }
    assert(columns@ =~= column_if(find_header(views(headers@), "name"@, 0), CsvField::Title));
    let ghost name = columns@;
    let url: usize = match position_of_header(headers, "url") {
        Some(c) => c,
        None => {
            return Err(HumanCommitError::InvalidInput);
        },
    };
    let username: usize = match position_of_header(headers, "username") {
        Some(c) => c,
        None => {
            return Err(HumanCommitError::InvalidInput);
        },
    };
    let password: usize = match position_of_header(headers, "password") {
        Some(c) => c,
        None => {
            return Err(HumanCommitError::InvalidInput);
        },
    };
    columns.push((url, CsvField::Destination));
    columns.push((username, CsvField::Username));
    columns.push((password, CsvField::Password));
    if let Some(c) = position_of_header(headers, "note") {
        columns.push((c, CsvField::Notes));
    }
    assert(columns@ =~= chrome_columns(views(headers@))->0);
    CsvMapping::new(
        CsvDelimiter::Comma,
        CsvEncoding::Utf8,
        true,
        RecordKind::Password,
        columns,
    )
}

/// Headers for a table without a header row.
fn number_headers(width: usize) -> (r: Vec<String>)
    ensures
        views(r@) == numbered_headers(width as nat),
{
    let mut out: Vec<String> = Vec::new();
    let mut i: usize = 0;
    while i < width
        invariant
            i <= width,
            out@.len() == i,
            forall|j: int| 0 <= j < i ==> (#[trigger] out@[j])@
                == numbered_headers(width as nat)[j],
        decreases width - i,
    {
        let mut name = "column:".to_owned();
        push_decimal(&mut name, i);
        out.push(name);
        i += 1;
    }
    assert(views(out@) =~= numbered_headers(width as nat));
    out
}

/// A copy of a row.
fn copy_row(row: &Vec<String>) -> (r: Vec<String>)
    ensures
        views(r@) == views(row@),
{
    let mut out: Vec<String> = Vec::new();
    let mut i: usize = 0;
    while i < row.len()
        invariant
            i <= row@.len(),
            out@.len() == i,
            forall|j: int| 0 <= j < i ==> (#[trigger] out@[j])@ == row@[j]@,
        decreases row@.len() - i,
    {
        out.push(row[i].clone());
        i += 1;
    }
    assert(views(out@) =~= views(row@));
    out
}

/// The records of a table.
fn read_table(table: &Vec<Vec<String>>, profile: &CsvImportProfile) -> (r: Option<
    Vec<LogicalRecord>,
>)
    ensures
        match table_records(table_view(table@), *profile) {
            Some(v) => r is Some && views((r->0)@) == v,
            None => r is None,
        },
{
    if table.len() == 0 {
        return None;
    }
    let width: usize = table[0].len();
    if width == 0 || width > MAX_COLUMNS {
        return None;
    }
    let has_header = match profile {
        CsvImportProfile::Chrome => true,
        CsvImportProfile::Apple(m) | CsvImportProfile::Mappable(m) => m.has_header,
    };
    let headers = if has_header {
        copy_row(&table[0])
    } else {
        number_headers(width)
    };
    let first: usize = if has_header {
        1
    } else {
        0
    };
    assert(table_view(table@).skip(0) =~= table_view(table@));
    let rows: usize = table.len() - first;
    if rows == 0 {
        return None;
    }
    match profile {
        CsvImportProfile::Chrome => {
            let mapping = match chrome_mapping(&headers) {
                Ok(mapping) => mapping,
                Err(_) => {
                    return None;
                },
            };
            if rows > MAX_RECORDS {
                return None;
            }
            proof {
                let data = table_view(table@).skip(first as int);
                let columns = chrome_columns(views(headers@))->0;
                assert forall|x: (usize, CsvField)|
                    columns.contains(x) <==> mapping.columns@.contains(x) by {
                    vstd::seq_lib::to_multiset_contains(columns, x);
                    vstd::seq_lib::to_multiset_contains(mapping.columns@, x);
                }
                lemma_rows_permuted(
                    RecordKind::Password,
                    columns,
                    mapping.columns@,
                    views(headers@),
                    data,
                    data.len() as int,
                );
            }
            read_rows(mapping.kind, &mapping.columns, &headers, table, first)
        },
        CsvImportProfile::Apple(mapping) | CsvImportProfile::Mappable(mapping) => {
            if rows > MAX_RECORDS {
                return None;
            }
            read_rows(mapping.kind, &mapping.columns, &headers, table, first)
        },
    }
}

/// Preview rows for freshly parsed records.
fn preview_rows(records: &Vec<LogicalRecord>) -> (r: Vec<CsvRowPreview>)
    ensures
        views(r@) == fresh_rows(views(records@)),
{
    let mut rows: Vec<CsvRowPreview> = Vec::new();
    let mut i: usize = 0;
    while i < records.len()
        invariant
            i <= records@.len(),
            rows@.len() == i,
            forall|j: int|
                0 <= j < i ==> (#[trigger] rows@[j])@ == fresh_rows(views(records@))[j],
        decreases records@.len() - i,
    {
        let unknown: usize = records[i].human().source_fields.len();
        assert(views(records@)[i as int] == records@[i as int]@);
        rows.push(CsvRowPreview::fresh(i + 1, unknown));
        i += 1;
    }
    assert(views(rows@) =~= fresh_rows(views(records@)));
    rows
}

/// The records of an import source.
fn read_source(bytes: &[u8], profile: &CsvImportProfile) -> (r: Option<Vec<LogicalRecord>>)
    ensures
        match source_records(bytes@, *profile) {
            Some(v) => r is Some && views((r->0)@) == v,
            None => r is None,
        },
{
    let (encoding, delimiter) = match profile {
        CsvImportProfile::Chrome => (CsvEncoding::Utf8, CsvDelimiter::Comma),
        CsvImportProfile::Apple(m) => (m.encoding, m.delimiter),
        CsvImportProfile::Mappable(m) => (m.encoding, m.delimiter),
    };
    match decode_text(bytes, encoding) {
        Ok(text) => match parse_csv(text.as_str().as_bytes(), delimiter.byte()) {
            Ok(table) => read_table(&table, profile),
            Err(_) => None,
        },
        Err(_) => None,
    }
}

/// Reads an import source into records and a preview of each.
///
/// Any malformed text, table, row, one-time-password URI or record is refused
/// as a whole: nothing is dropped.
pub fn parse(bytes: &[u8], profile: &CsvImportProfile) -> (r: Result<
    CsvImportPreview,
    HumanCommitError,
>)
    ensures
        match source_records(bytes@, *profile) {
            Some(records) => r is Ok && (r->Ok_0)@ == (PreviewModel {
                records,
                rows: fresh_rows(records),
                source: source_name(*profile),
            }),
            None => r is Err && r->Err_0 is InvalidInput,
        },
{
    let source = match profile {
        CsvImportProfile::Chrome => "chrome",
        CsvImportProfile::Apple(_) => "apple",
        CsvImportProfile::Mappable(_) => "mappable",
    };
    match read_source(bytes, profile) {
        Some(records) => {
            let rows = preview_rows(&records);
            Ok(CsvImportPreview { records, rows, source })
        },
        None => Err(HumanCommitError::InvalidInput),
    }
}

/// The column of a field is the one that a mapping gives it.
proof fn lemma_column(columns: Seq<(usize, CsvField)>, i: int, from: int)
    requires
        fields_distinct(columns),
        0 <= from <= i < columns.len(),
    ensures
        column_of(columns, columns[i].1, from) == Some(columns[i].0 as int),
    decreases i - from,
{
    if from < i {
        assert(columns[from].1 != columns[i].1);
        lemma_column(columns, i, from + 1);
    }
}

/// A field that no column holds has none.
proof fn lemma_no_column(columns: Seq<(usize, CsvField)>, field: CsvField, from: int)
    requires
        forall|i: int| 0 <= i < columns.len() ==> (#[trigger] columns[i]).1 != field,
        0 <= from,
    ensures
        column_of(columns, field, from) is None,
    decreases columns.len() - from,
{
    if from < columns.len() {
        assert(columns[from].1 != field);
        lemma_no_column(columns, field, from + 1);
    }
}

/// Every cell of an imported row goes where its column is mapped to: the title,
/// the notes, the destination, and each part of a password, a token or a key.
/// `i` is the place of a column in the mapping.
pub proof fn lemma_mapped_cell(
    kind: RecordKind,
    columns: Seq<(usize, CsvField)>,
    headers: Seq<Seq<char>>,
    row: Seq<Seq<char>>,
    i: int,
)
    requires
        fields_distinct(columns),
        0 <= i < columns.len(),
        row_record(kind, columns, headers, row) is Some,
    ensures
        ({
            let m = row_record(kind, columns, headers, row)->0;
            let cell = row[columns[i].0 as int];
            let field = columns[i].1;
            let auth = m.auth[0];
            &&& m.kind == kind
            &&& field == CsvField::Title ==> m.human.title == cell
            &&& field == CsvField::Notes ==> m.human.notes == cell
            &&& field == CsvField::Destination && cell.len() > 0 ==> m.human.destinations == seq![
                DestinationModel { label: Seq::empty(), value: cell },
            ]
            &&& field == CsvField::Destination && cell.len() == 0 ==> m.human.destinations.len()
                == 0
            &&& kind == RecordKind::Password ==> m.auth.len() >= 1 && auth is Password && (field
                == CsvField::Username ==> auth->Password_username == cell) && (field
                == CsvField::Password ==> auth->password == encode_utf8(cell)) && (
            auth->Password_destination_refs == (if m.human.destinations.len() == 0 {
                Seq::<u16>::empty()
            } else {
                seq![0u16]
            }))
            &&& kind == RecordKind::Token ==> m.auth.len() >= 1 && auth is Token && (field
                == CsvField::TokenSecret ==> auth->Token_secret == encode_utf8(cell)) && (field
                == CsvField::Provider ==> auth->provider == cell) && (field == CsvField::ProfileId
                ==> auth->profile_id == cell) && auth->expires_at is None
            &&& kind == RecordKind::Ssh ==> m.auth.len() >= 1 && auth is Ssh && (field
                == CsvField::SshPrivateKey ==> auth->Ssh_private_key == encode_utf8(cell)) && (field
                == CsvField::SshPublicKey ==> auth->Ssh_public_key == encode_utf8(cell)) && (field
                == CsvField::Username ==> auth->Ssh_username == cell) && (field
                == CsvField::SshPassphrase ==> auth->passphrase == (if cell.len() > 0 {
                Some(encode_utf8(cell))
            } else {
                None
            }))
            &&& field == CsvField::OtpAuth && cell.len() > 0 ==> m.auth.len() >= 1
                && totp_auth(cell, row_refs(columns, row)) == Some(m.auth.last())
                && m.human.source_fields.last() == (SourceFieldModel {
                path: "OTPAuth"@,
                encoding: SourceEncoding::Utf8,
                value: encode_utf8(cell),
            })
        }),
{
    lemma_column(columns, i, 0);
    let uri = field_or_empty(columns, row, CsvField::OtpAuth);
    let auth = kind_auth(kind, columns, row)->0;
    if uri.len() > 0 {
        let totp = totp_auth(uri, row_refs(columns, row))->0;
        assert(auth.push(totp).last() == totp);
        if auth.len() > 0 {
            assert(auth.push(totp)[0] == auth[0]);
        }
    }
}

/// What no column holds is empty: nothing is made up, and nothing is a file, a
/// tag or a favorite.
pub proof fn lemma_unmapped_field(
    kind: RecordKind,
    columns: Seq<(usize, CsvField)>,
    headers: Seq<Seq<char>>,
    row: Seq<Seq<char>>,
)
    requires
        row_record(kind, columns, headers, row) is Some,
    ensures
        ({
            let m = row_record(kind, columns, headers, row)->0;
            let auth = m.auth[0];
            &&& !has_field(columns, CsvField::Title) ==> m.human.title.len() == 0
            &&& !has_field(columns, CsvField::Notes) ==> m.human.notes.len() == 0
            &&& !has_field(columns, CsvField::Destination) ==> m.human.destinations.len() == 0
            &&& !has_field(columns, CsvField::OtpAuth) ==> m.auth.len() == (if kind
                == RecordKind::Note || kind == RecordKind::Totp {
                0nat
            } else {
                1nat
            })
            &&& kind == RecordKind::Ssh && !has_field(columns, CsvField::SshPassphrase)
                ==> auth is Ssh && auth->passphrase is None
            &&& m.human.tags.len() == 0
            &&& !m.human.favorite
            &&& m.human.fields.len() == 0
            &&& m.attachments.len() == 0
        }),
{
    assert forall|field: CsvField| !#[trigger] has_field(columns, field) implies column_of(
        columns,
        field,
        0,
    ) is None by {
        assert forall|i: int| 0 <= i < columns.len() implies (#[trigger] columns[i]).1
            != field by {}
        lemma_no_column(columns, field, 0);
    }
}

/// A cell of a column that is not mapped is kept beside the record, under its
/// header, and nothing else is.
pub proof fn lemma_unmapped_cell(
    kind: RecordKind,
    columns: Seq<(usize, CsvField)>,
    headers: Seq<Seq<char>>,
    row: Seq<Seq<char>>,
    c: int,
)
    requires
        row_record(kind, columns, headers, row) is Some,
        0 <= c < row.len(),
        forall|i: int| 0 <= i < columns.len() ==> (#[trigger] columns[i]).0 != c,
    ensures
        (row_record(kind, columns, headers, row)->0).human.source_fields.contains(
            SourceFieldModel {
                path: headers[c],
                encoding: SourceEncoding::Utf8,
                value: encode_utf8(row[c]),
            },
        ),
{
    let kept = unmapped_fields(columns, headers, row, row.len() as int);
    lemma_kept(columns, headers, row, c, row.len() as int);
    let field = SourceFieldModel {
        path: headers[c],
        encoding: SourceEncoding::Utf8,
        value: encode_utf8(row[c]),
    };
    let i = choose|i: int| 0 <= i < kept.len() && kept[i] == field;
    let all = kept_fields(columns, headers, row);
    assert(all[i] == field);
}

/// A cell of a column that is not mapped is among those kept.
proof fn lemma_kept(
    columns: Seq<(usize, CsvField)>,
    headers: Seq<Seq<char>>,
    row: Seq<Seq<char>>,
    c: int,
    n: int,
)
    requires
        0 <= c < n,
        !is_mapped(columns, c),
    ensures
        unmapped_fields(columns, headers, row, n).contains(
            SourceFieldModel {
                path: headers[c],
                encoding: SourceEncoding::Utf8,
                value: encode_utf8(row[c]),
            },
        ),
    decreases n,
{
    let all = unmapped_fields(columns, headers, row, n);
    let before = unmapped_fields(columns, headers, row, n - 1);
    let field = SourceFieldModel {
        path: headers[c],
        encoding: SourceEncoding::Utf8,
        value: encode_utf8(row[c]),
    };
    if c == n - 1 {
        assert(all.last() == field);
    } else {
        lemma_kept(columns, headers, row, c, n - 1);
        let i = choose|i: int| 0 <= i < before.len() && before[i] == field;
        assert(all[i] == field);
    }
}

/// What is kept beside a record is the cells that are not mapped, as many as
/// there are, in the order of their columns.
pub proof fn lemma_kept_in_order(
    columns: Seq<(usize, CsvField)>,
    headers: Seq<Seq<char>>,
    row: Seq<Seq<char>>,
    n: int,
)
    requires
        0 <= n,
    ensures
        unmapped_fields(columns, headers, row, n).len() == Set::<int>::new(
            |c: int| 0 <= c < n && !is_mapped(columns, c),
        ).len(),
        n > 0 && is_mapped(columns, n - 1) ==> unmapped_fields(columns, headers, row, n)
            == unmapped_fields(columns, headers, row, n - 1),
    decreases n,
{
    let here = Set::<int>::new(|c: int| 0 <= c < n && !is_mapped(columns, c));
    if n > 0 {
        let before = Set::<int>::new(|c: int| 0 <= c < n - 1 && !is_mapped(columns, c));
        lemma_kept_in_order(columns, headers, row, n - 1);
        lemma_below(columns, n - 1);
        if is_mapped(columns, n - 1) {
            assert(here =~= before);
        } else {
            assert(here =~= before.insert(n - 1));
        }
    } else {
        assert(here =~= Set::<int>::empty());
    }
}

/// There are finitely many columns before one.
proof fn lemma_below(columns: Seq<(usize, CsvField)>, n: int)
    requires
        0 <= n,
    ensures
        Set::<int>::new(|c: int| 0 <= c < n && !is_mapped(columns, c)).finite(),
    decreases n,
{
    let here = Set::<int>::new(|c: int| 0 <= c < n && !is_mapped(columns, c));
    if n > 0 {
        let before = Set::<int>::new(|c: int| 0 <= c < n - 1 && !is_mapped(columns, c));
        lemma_below(columns, n - 1);
        if is_mapped(columns, n - 1) {
            assert(here =~= before);
        } else {
            assert(here =~= before.insert(n - 1));
        }
    } else {
        assert(here =~= Set::<int>::empty());
    }
}

/// Rows become records one for one, in their order.
proof fn lemma_rows(
    kind: RecordKind,
    columns: Seq<(usize, CsvField)>,
    headers: Seq<Seq<char>>,
    data: Seq<Seq<Seq<char>>>,
    n: int,
)
    requires
        0 <= n <= data.len(),
        row_records(kind, columns, headers, data, n) is Some,
    ensures
        (row_records(kind, columns, headers, data, n)->0).len() == n,
        forall|i: int|
            0 <= i < n ==> row_record(kind, columns, headers, #[trigger] data[i]) == Some(
                (row_records(kind, columns, headers, data, n)->0)[i],
            ),
    decreases n,
{
    if n > 0 {
        lemma_rows(kind, columns, headers, data, n - 1);
        let before = row_records(kind, columns, headers, data, n - 1)->0;
        let all = row_records(kind, columns, headers, data, n)->0;
        assert forall|i: int| 0 <= i < n implies row_record(
            kind,
            columns,
            headers,
            #[trigger] data[i],
        ) == Some(all[i]) by {
            if i < n - 1 {
                assert(all[i] == before[i]);
            }
        }
    }
}

/// Every row of a mapped file becomes a record, in its order: the first row is
/// left out where it is a header, and without one the columns are named by
/// their numbers.
pub proof fn lemma_mapped_file(table: Seq<Seq<Seq<char>>>, profile: CsvImportProfile, i: int)
    requires
        !(profile is Chrome),
        table_records(table, profile) is Some,
    ensures
        ({
            let m = profile_mapping(profile)->0;
            let records = table_records(table, profile)->0;
            &&& profile == CsvImportProfile::Apple(profile->Apple_0) ==> m == profile->Apple_0@
            &&& profile is Mappable ==> m == profile->Mappable_0@
            &&& m.has_header ==> records.len() == table.len() - 1
            &&& !m.has_header ==> records.len() == table.len()
            &&& m.has_header && 0 <= i < records.len() ==> row_record(
                m.kind,
                m.columns,
                table[0],
                table[i + 1],
            ) == Some(records[i])
            &&& !m.has_header && 0 <= i < records.len() ==> row_record(
                m.kind,
                m.columns,
                Seq::new(table[0].len(), |c: int| "column:"@ + decimal_digits(c as nat)),
                table[i],
            ) == Some(records[i])
        }),
{
    let m = profile_mapping(profile)->0;
    let headers = if m.has_header {
        table[0]
    } else {
        numbered_headers(table[0].len())
    };
    let data = if m.has_header {
        table.skip(1)
    } else {
        table
    };
    lemma_rows(m.kind, m.columns, headers, data, data.len() as int);
    if 0 <= i < data.len() {
        assert(row_record(m.kind, m.columns, headers, data[i]) is Some);
    }
    assert(numbered_headers(table[0].len()) =~= Seq::new(
        table[0].len(),
        |c: int| "column:"@ + decimal_digits(c as nat),
    ));
}

/// The first header that reads a name.
proof fn lemma_header(headers: Seq<Seq<char>>, name: Seq<char>, c: int, from: int)
    requires
        0 <= from <= c < headers.len(),
        headers[c] == name,
        forall|j: int| 0 <= j < c ==> #[trigger] headers[j] != name,
    ensures
        find_header(headers, name, from) == Some(c),
    decreases c - from,
{
    if from < c {
        assert(headers[from] != name);
        lemma_header(headers, name, c, from + 1);
    }
}

/// A header that is not there.
proof fn lemma_no_header(headers: Seq<Seq<char>>, name: Seq<char>, from: int)
    requires
        0 <= from,
        forall|j: int| 0 <= j < headers.len() ==> #[trigger] headers[j] != name,
    ensures
        find_header(headers, name, from) is None,
    decreases headers.len() - from,
{
    if from < headers.len() {
        assert(headers[from] != name);
        lemma_no_header(headers, name, from + 1);
    }
}

/// Whether a column is the first whose header reads a name.
pub open spec fn first_headed(headers: Seq<Seq<char>>, name: Seq<char>, c: int) -> bool {
    &&& 0 <= c < headers.len()
    &&& headers[c] == name
    &&& forall|j: int| 0 <= j < c ==> #[trigger] headers[j] != name
}

/// The column that a browser's export has for a field.
pub open spec fn chrome_field(name: Seq<char>) -> CsvField {
    if name == "name"@ {
        CsvField::Title
    } else if name == "url"@ {
        CsvField::Destination
    } else if name == "username"@ {
        CsvField::Username
    } else if name == "password"@ {
        CsvField::Password
    } else {
        CsvField::Notes
    }
}

/// The headers of a browser's export are different.
proof fn lemma_chrome_names()
    ensures
        chrome_field("name"@) == CsvField::Title,
        chrome_field("url"@) == CsvField::Destination,
        chrome_field("username"@) == CsvField::Username,
        chrome_field("password"@) == CsvField::Password,
        chrome_field("note"@) == CsvField::Notes,
{
    reveal_strlit("name");
    reveal_strlit("url");
    reveal_strlit("username");
    reveal_strlit("password");
    reveal_strlit("note");
    assert("name"@[1] == 'a');
    assert("note"@[1] == 'o');
    assert("url"@.len() == 3 && "name"@.len() == 4 && "username"@.len() == 8);
    assert("username"@[0] == 'u');
    assert("password"@[0] == 'p');
    assert("password"@.len() == 8 && "note"@.len() == 4);
}

/// A column is mapped to what its header reads.
proof fn lemma_chrome_column(headers: Seq<Seq<char>>, name: Seq<char>, c: int) -> (j: int)
    requires
        chrome_columns(headers) is Some,
        headers.len() <= MAX_COLUMNS,
        first_headed(headers, name, c),
        name == "name"@ || name == "url"@ || name == "username"@ || name == "password"@ || name
            == "note"@,
    ensures
        0 <= j < (chrome_columns(headers)->0).len(),
        (chrome_columns(headers)->0)[j] == (c as usize, chrome_field(name)),
{
    let columns = chrome_columns(headers)->0;
    let at: int = if find_header(headers, "name"@, 0) is Some {
        1
    } else {
        0
    };
    lemma_chrome_names();
    lemma_header(headers, name, c, 0);
    if name == "name"@ {
        0
    } else if name == "url"@ {
        at
    } else if name == "username"@ {
        at + 1
    } else if name == "password"@ {
        at + 2
    } else {
        at + 3
    }
}

/// No column of a browser's export holds a one-time password.
proof fn lemma_chrome_has_no_otp(headers: Seq<Seq<char>>)
    requires
        chrome_columns(headers) is Some,
    ensures
        !has_field(chrome_columns(headers)->0, CsvField::OtpAuth),
{
    let columns = chrome_columns(headers)->0;
    assert forall|j: int| 0 <= j < columns.len() implies (#[trigger] columns[j]).1
        != CsvField::OtpAuth by {}
}

/// A browser's export becomes one password for each row behind the header: the
/// columns are found by the headers "name", "url", "username", "password" and
/// "note", wherever they stand. `i` is the place of a record and `c` a column.
#[verifier::rlimit(60)]
pub proof fn lemma_chrome_file(table: Seq<Seq<Seq<char>>>, i: int, c: int)
    requires
        table_records(table, CsvImportProfile::Chrome) is Some,
        0 <= i < table.len() - 1,
    ensures
        ({
            let records = table_records(table, CsvImportProfile::Chrome)->0;
            let m = records[i];
            let cell = table[i + 1][c];
            &&& records.len() == table.len() - 1
            &&& m.kind == RecordKind::Password
            &&& m.auth.len() == 1 && m.auth[0] is Password
            &&& first_headed(table[0], "name"@, c) ==> m.human.title == cell
            &&& first_headed(table[0], "url"@, c) && cell.len() > 0 ==> m.human.destinations
                == seq![DestinationModel { label: Seq::empty(), value: cell }]
            &&& first_headed(table[0], "url"@, c) && cell.len() == 0 ==> m.human.destinations.len()
                == 0
            &&& first_headed(table[0], "username"@, c) ==> m.auth[0]->Password_username == cell
            &&& first_headed(table[0], "password"@, c) ==> m.auth[0]->password == encode_utf8(cell)
            &&& first_headed(table[0], "note"@, c) ==> m.human.notes == cell
        }),
{
    let headers = table[0];
    let data = table.skip(1);
    let columns = chrome_columns(headers)->0;
    let kind = RecordKind::Password;
    let records = table_records(table, CsvImportProfile::Chrome)->0;
    lemma_rows(kind, columns, headers, data, data.len() as int);
    assert(data[i] == table[i + 1]);
    assert(row_record(kind, columns, headers, data[i]) == Some(records[i]));
    lemma_chrome_has_no_otp(headers);
    lemma_unmapped_field(kind, columns, headers, data[i]);
    lemma_mapped_cell(kind, columns, headers, data[i], 0);
    let name = headers[c];
    if first_headed(headers, name, c) && (name == "name"@ || name == "url"@ || name
        == "username"@ || name == "password"@ || name == "note"@) {
        let j = lemma_chrome_column(headers, name, c);
        lemma_chrome_names();
        lemma_mapped_cell(kind, columns, headers, data[i], j);
    }
}

/// A browser's export is refused where the address, the user name or the
/// password has no column.
pub proof fn lemma_chrome_needs(table: Seq<Seq<Seq<char>>>, name: Seq<char>)
    requires
        table.len() > 0,
        name == "url"@ || name == "username"@ || name == "password"@,
        forall|j: int| 0 <= j < table[0].len() ==> #[trigger] table[0][j] != name,
    ensures
        table_records(table, CsvImportProfile::Chrome) is None,
{
    lemma_no_header(table[0], name, 0);
}

/// A preview numbers the records from one, takes each for new, and counts what
/// is kept beside it.
pub proof fn lemma_preview_rows(records: Seq<RecordModel>, i: int)
    ensures
        fresh_rows(records).len() == records.len(),
        0 <= i < records.len() ==> fresh_rows(records)[i] == (RowModel {
            ordinal: (i + 1) as nat,
            status: CsvRowStatus::New,
            unknown_fields: records[i].human.source_fields.len(),
            duplicate_item: None,
        }),
{
}

/// A file is read with the encoding and the delimiter that its mapping names; a
/// browser's export is UTF-8 with commas.
pub proof fn lemma_source_format(bytes: Seq<u8>, profile: CsvImportProfile)
    ensures
        profile is Chrome ==> source_table(bytes, profile) == (match decoded_text(
            bytes,
            CsvEncoding::Utf8,
        ) {
            Some(text) => csv_table(encode_utf8(text), 0x2c),
            None => None,
        }),
        profile is Mappable ==> source_table(bytes, profile) == (match decoded_text(
            bytes,
            profile->Mappable_0@.encoding,
        ) {
            Some(text) => csv_table(encode_utf8(text), profile->Mappable_0@.delimiter.byte_value()),
            None => None,
        }),
        profile is Apple ==> source_table(bytes, profile) == (match decoded_text(
            bytes,
            profile->Apple_0@.encoding,
        ) {
            Some(text) => csv_table(encode_utf8(text), profile->Apple_0@.delimiter.byte_value()),
            None => None,
        }),
        source_records(bytes, profile) == (match source_table(bytes, profile) {
            Some(table) => table_records(table, profile),
            None => None,
        }),
{
}

/// The account a way to authenticate belongs to.
pub open spec fn account_of(auth: AuthModel) -> Seq<char> {
    match auth {
        AuthModel::Password { username, .. } => username,
        AuthModel::Ssh { username, .. } => username,
        AuthModel::Totp { account, .. } => account,
        AuthModel::Token { profile_id, .. } => profile_id,
        AuthModel::Passkey { user_name, .. } => user_name,
    }
}

/// What the owner may see of one preview row; secret material is not exposed.
pub struct CsvRecordPreview<'a> {
    row: &'a CsvRowPreview,
    record: &'a LogicalRecord,
}

impl<'a> CsvRecordPreview<'a> {
    /// The classification shown.
    pub closed spec fn row_model(&self) -> RowModel {
        self.row@
    }

    /// The record shown.
    pub closed spec fn record_model(&self) -> RecordModel {
        self.record@
    }

    pub fn row(&self) -> (r: &CsvRowPreview)
        ensures
            r@ == self.row_model(),
    {
        self.row
    }

    pub fn kind(&self) -> (r: RecordKind)
        ensures
            r == self.record_model().kind,
    {
        self.record.kind()
    }

    pub fn title(&self) -> (r: &str)
        ensures
            r@ == self.record_model().human.title,
    {
        self.record.human().title.as_str()
    }

    /// The first destination.
    pub fn destination(&self) -> (r: Option<&str>)
        ensures
            match r {
                Some(s) => self.record_model().human.destinations.len() > 0 && s@
                    == self.record_model().human.destinations[0].value,
                None => self.record_model().human.destinations.len() == 0,
            },
    {
        let human = self.record.human();
        assert(views(human.destinations@) == self.record_model().human.destinations);
        if human.destinations.len() == 0 {
            None
        } else {
            Some(human.destinations[0].value.as_str())
        }
    }

    /// The account of the first way to authenticate.
    pub fn account(&self) -> (r: Option<&str>)
        ensures
            match r {
                Some(s) => self.record_model().auth.len() > 0 && s@ == account_of(
                    self.record_model().auth[0],
                ),
                None => self.record_model().auth.len() == 0,
            },
    {
        let auth = self.record.auth();
        if auth.len() == 0 {
            return None;
        }
        assert(views(auth@)[0] == auth@[0]@);
        Some(
            match &auth[0] {
                AuthRecord::Password { username, .. } => username.as_str(),
                AuthRecord::Ssh { username, .. } => username.as_str(),
                AuthRecord::Totp { account, .. } => account.as_str(),
                AuthRecord::Token { profile_id, .. } => profile_id.as_str(),
                AuthRecord::Passkey { user_name, .. } => user_name.as_str(),
            },
        )
    }

    /// The paths of the fields kept as they came.
    pub fn unknown_field_paths(&self) -> (r: Vec<&str>)
        ensures
            r@.len() == self.record_model().human.source_fields.len(),
            forall|i: int|
                0 <= i < r@.len() ==> (#[trigger] r@[i])@
                    == self.record_model().human.source_fields[i].path,
    {
        let human = self.record.human();
        assert(views(human.source_fields@) == self.record_model().human.source_fields);
        let mut out: Vec<&str> = Vec::new();
        let mut i: usize = 0;
        while i < human.source_fields.len()
            invariant
                i <= human.source_fields@.len(),
                out@.len() == i,
                views(human.source_fields@) == self.record_model().human.source_fields,
                forall|j: int|
                    0 <= j < i ==> (#[trigger] out@[j])@
                        == self.record_model().human.source_fields[j].path,
            decreases human.source_fields@.len() - i,
        {
            assert(views(human.source_fields@)[i as int] == human.source_fields@[i as int]@);
            out.push(human.source_fields[i].path.as_str());
            i += 1;
        }
        out
    }
}

impl CsvImportPreview {
    /// The record of a row.
    pub(crate) fn record_at(&self, index: usize) -> (r: &LogicalRecord)
        requires
            index < self@.records.len(),
        ensures
            r@ == self@.records[index as int],
    {
        &self.records[index]
    }

    /// The record of a row, where there is such a row.
    pub fn logical_record(&self, index: usize) -> (r: Option<&LogicalRecord>)
        ensures
            match r {
                Some(record) => index < self@.records.len() && record@
                    == self@.records[index as int],
                None => index >= self@.records.len(),
            },
    {
        if index < self.records.len() {
            Some(self.record_at(index))
        } else {
            None
        }
    }

    /// The classification of a row.
    pub(crate) fn row_at(&self, index: usize) -> (r: &CsvRowPreview)
        requires
            index < self@.rows.len(),
        ensures
            r@ == self@.rows[index as int],
    {
        &self.rows[index]
    }

    /// How many records there are.
    pub(crate) fn record_count(&self) -> (r: usize)
        ensures
            r == self@.records.len(),
    {
        self.records.len()
    }

    /// How the source is named.
    pub fn source(&self) -> (r: &'static str)
        ensures
            r@ == self@.source,
    {
        self.source
    }

    /// Marks a row as a duplicate of a held item.
    pub(crate) fn mark_row(&mut self, index: usize, status: CsvRowStatus, item: [u8; 16])
        requires
            index < old(self)@.rows.len(),
        ensures
            final(self)@ == (PreviewModel {
                rows: old(self)@.rows.update(
                    index as int,
                    RowModel {
                        status,
                        duplicate_item: Some(item),
                        ..old(self)@.rows[index as int]
                    },
                ),
                ..old(self)@
            }),
    {
        let ghost before = self.rows@;
        self.rows[index].mark(status, item);
        assert(views(self.rows@) =~= views(before).update(
            index as int,
            RowModel { status, duplicate_item: Some(item), ..before[index as int]@ },
        ));
    }

    /// The rows in all.
    pub fn total(&self) -> (r: usize)
        ensures
            r == self@.rows.len(),
    {
        self.rows.len()
    }

    /// One bounded page of row classifications.
    pub fn page(&self, offset: usize, limit: usize) -> (r: Result<
        &[CsvRowPreview],
        HumanCommitError,
    >)
        ensures
            r is Ok <==> 0 < limit <= MAX_PREVIEW_PAGE && offset <= self@.rows.len(),
            r is Ok ==> views((r->Ok_0)@) == self@.rows.subrange(
                offset as int,
                if offset + limit < self@.rows.len() {
                    offset + limit
                } else {
                    self@.rows.len() as int
                },
            ),
            r is Err ==> r->Err_0 is InvalidInput,
    {
        if limit == 0 || limit > MAX_PREVIEW_PAGE || offset > self.rows.len() {
            return Err(HumanCommitError::InvalidInput);
        }
        let end: usize = if limit < self.rows.len() - offset {
            offset + limit
        } else {
            self.rows.len()
        };
        let page = vstd::slice::slice_subrange(self.rows.as_slice(), offset, end);
        assert(views(page@) =~= self@.rows.subrange(offset as int, end as int));
        Ok(page)
    }

    /// What the owner may see of one row, counted from zero.
    pub fn record(&self, index: usize) -> (r: Result<CsvRecordPreview<'_>, HumanCommitError>)
        ensures
            r is Ok <==> index < self@.rows.len() && index < self@.records.len(),
            r is Ok ==> (r->Ok_0).row_model() == self@.rows[index as int]
                && (r->Ok_0).record_model() == self@.records[index as int],
            r is Err ==> r->Err_0 is InvalidInput,
    {
        if index < self.rows.len() && index < self.records.len() {
            Ok(CsvRecordPreview { row: &self.rows[index], record: &self.records[index] })
        } else {
            Err(HumanCommitError::InvalidInput)
        }
    }
}

/// What to do with a row.
#[derive(Clone, Copy, Debug, PartialEq, Eq)]
pub enum CsvImportDecision {
    ImportNew,
    SkipExact,
    KeepBoth,
    Replace([u8; 16]),
    Exclude,
}

/// What an import does, in numbers.
#[derive(Clone, Debug, PartialEq, Eq)]
pub struct CsvImportReport {
    total: usize,
    new_items: usize,
    replaced: usize,
    skipped_exact: usize,
    excluded: usize,
    preserved_fields: usize,
    event_pages: usize,
}

/// The contents of a [`CsvImportReport`].
pub struct ReportModel {
    pub total: nat,
    pub new_items: nat,
    pub replaced: nat,
    pub skipped_exact: nat,
    pub excluded: nat,
    pub preserved_fields: nat,
    pub event_pages: nat,
}

impl View for CsvImportReport {
    type V = ReportModel;

    closed spec fn view(&self) -> ReportModel {
        ReportModel {
            total: self.total as nat,
            new_items: self.new_items as nat,
            replaced: self.replaced as nat,
            skipped_exact: self.skipped_exact as nat,
            excluded: self.excluded as nat,
            preserved_fields: self.preserved_fields as nat,
            event_pages: self.event_pages as nat,
        }
    }
}

impl CsvImportReport {
    /// A report of these numbers.
    pub(crate) fn new(
        total: usize,
        new_items: usize,
        replaced: usize,
        skipped_exact: usize,
        excluded: usize,
        preserved_fields: usize,
        event_pages: usize,
    ) -> (r: CsvImportReport)
        ensures
            r@ == (ReportModel {
                total: total as nat,
                new_items: new_items as nat,
                replaced: replaced as nat,
                skipped_exact: skipped_exact as nat,
                excluded: excluded as nat,
                preserved_fields: preserved_fields as nat,
                event_pages: event_pages as nat,
            }),
    {
        CsvImportReport {
            total,
            new_items,
            replaced,
            skipped_exact,
            excluded,
            preserved_fields,
            event_pages,
        }
    }

    /// All rows.
    pub fn total(&self) -> (r: usize)
        ensures
            r == self@.total,
    {
        self.total
    }

    /// Rows that became a new item.
    pub fn new_items(&self) -> (r: usize)
        ensures
            r == self@.new_items,
    {
        self.new_items
    }

    /// Rows that replaced an item.
    pub fn replaced(&self) -> (r: usize)
        ensures
            r == self@.replaced,
    {
        self.replaced
    }

    /// Rows that were held already.
    pub fn skipped_exact(&self) -> (r: usize)
        ensures
            r == self@.skipped_exact,
    {
        self.skipped_exact
    }

    /// Rows left out.
    pub fn excluded(&self) -> (r: usize)
        ensures
            r == self@.excluded,
    {
        self.excluded
    }

    /// Fields kept as they came.
    pub fn preserved_fields(&self) -> (r: usize)
        ensures
            r == self@.preserved_fields,
    {
        self.preserved_fields
    }

    /// Pages of events.
    pub fn event_pages(&self) -> (r: usize)
        ensures
            r == self@.event_pages,
    {
        self.event_pages
    }
}

/// A prepared import: the command to sign, what it will do, and the items it
/// writes.
pub struct PreparedCsvImport {
    prepared: PreparedHumanCommand,
    report: CsvImportReport,
    item_ids: Vec<[u8; 16]>,
}

/// The contents of a [`PreparedCsvImport`].
pub struct PreparedImportModel {
    pub prepared: PreparedModel,
    pub report: ReportModel,
    pub item_ids: Seq<[u8; 16]>,
}

impl View for PreparedCsvImport {
    type V = PreparedImportModel;

    closed spec fn view(&self) -> PreparedImportModel {
        PreparedImportModel {
            prepared: self.prepared@,
            report: self.report@,
            item_ids: self.item_ids@,
        }
    }
}

impl PreparedCsvImport {
    /// A prepared import.
    pub fn new(
        prepared: PreparedHumanCommand,
        report: CsvImportReport,
        item_ids: Vec<[u8; 16]>,
    ) -> (r: PreparedCsvImport)
        ensures
            r@ == (PreparedImportModel {
                prepared: prepared@,
                report: report@,
                item_ids: item_ids@,
            }),
    {
        PreparedCsvImport { prepared, report, item_ids }
    }

    pub fn prepared(&self) -> (r: &PreparedHumanCommand)
        ensures
            r@ == self@.prepared,
    {
        &self.prepared
    }

    pub fn report(&self) -> (r: &CsvImportReport)
        ensures
            r@ == self@.report,
    {
        &self.report
    }

    pub fn item_ids(&self) -> (r: &[[u8; 16]])
        ensures
            r@ == self@.item_ids,
    {
        self.item_ids.as_slice()
    }
}

/// A mapping is accepted where it maps some column, each column below
/// the 256th and each field once, and has what its kind needs: a password its
/// destination, user name and
/// password; a one-time password its URI; a token its secret, provider and
/// profile; a key both halves and its user name; a note nothing.
pub proof fn lemma_mapping(m: MappingModel)
    ensures
        mapping_valid(m) <==> {
            let has = |f: CsvField|
                exists|i: int| 0 <= i < m.columns.len() && (#[trigger] m.columns[i]).1 == f;
            &&& m.columns.len() > 0
            &&& forall|i: int, j: int|
                0 <= i < j < m.columns.len() ==> (#[trigger] m.columns[i]).0 < (
                #[trigger] m.columns[j]).0
            &&& forall|i: int| 0 <= i < m.columns.len() ==> (#[trigger] m.columns[i]).0 < 256
            &&& forall|i: int, j: int|
                0 <= i < j < m.columns.len() ==> (#[trigger] m.columns[i]).1 != (
                #[trigger] m.columns[j]).1
            &&& match m.kind {
                RecordKind::Password => has(CsvField::Destination) && has(CsvField::Username)
                    && has(CsvField::Password),
                RecordKind::Note => true,
                RecordKind::Totp => has(CsvField::OtpAuth),
                RecordKind::Token => has(CsvField::TokenSecret) && has(CsvField::Provider) && has(
                    CsvField::ProfileId,
                ),
                RecordKind::Ssh => has(CsvField::SshPrivateKey) && has(CsvField::SshPublicKey)
                    && has(CsvField::Username),
                RecordKind::Passkey => false,
                RecordKind::File => false,
            }
        },
{
}

/// The columns of a file without headings are numbered from zero.
pub proof fn lemma_numbered(width: nat, i: int)
    requires
        0 <= i < width,
    ensures
        numbered_headers(width).len() == width,
        numbered_headers(width)[i] == "column:"@ + decimal_digits(i as nat),
{
}

/// The name of the source of a file.
pub proof fn lemma_source_names(p: CsvImportProfile)
    ensures
        p is Chrome ==> source_name(p) == "chrome"@,
        p is Apple ==> source_name(p) == "apple"@,
        p is Mappable ==> source_name(p) == "mappable"@,
{
}

} // verus!

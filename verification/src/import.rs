//! Decisions of an import: what a row duplicates, what becomes of it, and what
//! the whole batch amounts to.
use crate::bytes::{be64, fixed16, push_be64, same_str};
use crate::compare::{same_destinations, same_record};
use crate::content::{
    kind_name, AttachmentModel, AuthModel, AuthRecord, LogicalRecord, RecordKind, RecordModel,
};
use crate::errors::HumanCommitError;
use crate::migration::{
    account_of, CsvImportDecision, CsvImportPreview, CsvImportReport, CsvRowStatus, PreviewModel,
    ReportModel, RowModel, IMPORT_PAGE_ITEMS,
};
use crate::ordered::{holds, same_array};
use crate::views::views;
use crate::table::{Table};
use vstd::prelude::*;
use vstd::utf8::encode_utf8;

verus! {

/// An item that the vault holds.
pub struct HeldItem {
    pub id: [u8; 16],
    pub record: LogicalRecord,
}

/// The contents of a [`HeldItem`].
pub struct HeldModel {
    pub id: [u8; 16],
    pub record: RecordModel,
}

impl View for HeldItem {
    type V = HeldModel;

    open spec fn view(&self) -> HeldModel {
        HeldModel { id: self.id, record: self.record@ }
    }
}

/// The account that a record is imported for.
pub open spec fn record_account(m: RecordModel) -> Seq<char> {
    if m.auth.len() == 0 {
        ""@
    } else {
        account_of(m.auth[0])
    }
}

/// The account that a record is imported for.
pub fn import_account(record: &LogicalRecord) -> (r: &str)
    ensures
        r@ == record_account(record@),
{
    let auth = record.auth();
    if auth.len() == 0 {
        return "";
    }
    assert(views(auth@)[0] == auth@[0]@);
    match &auth[0] {
        AuthRecord::Password { username, .. } => username.as_str(),
        AuthRecord::Ssh { username, .. } => username.as_str(),
        AuthRecord::Totp { account, .. } => account.as_str(),
        AuthRecord::Token { profile_id, .. } => profile_id.as_str(),
        AuthRecord::Passkey { user_name, .. } => user_name.as_str(),
    }
}

/// Whether two records may stand for the same account.
pub open spec fn is_candidate(a: RecordModel, b: RecordModel) -> bool {
    &&& a.kind == b.kind
    &&& a.human.title == b.human.title
    &&& a.human.destinations == b.human.destinations
    &&& record_account(a) == record_account(b)
}

/// Whether two records may stand for the same account.
pub fn import_candidate(left: &LogicalRecord, right: &LogicalRecord) -> (r: bool)
    ensures
        r == is_candidate(left@, right@),
{
    left.kind() == right.kind() && same_str(
        left.human().title.as_str(),
        right.human().title.as_str(),
    ) && same_destinations(
        left.human().destinations.as_slice(),
        right.human().destinations.as_slice(),
    ) && same_str(import_account(left), import_account(right))
}

/// The first held item at `i` or behind it that is the same record.
pub open spec fn exact_match(held: Seq<HeldModel>, record: RecordModel, i: int) -> Option<[u8; 16]>
    decreases held.len() - i,
{
    if i < 0 || i >= held.len() {
        None
    } else if held[i].record == record {
        Some(held[i].id)
    } else {
        exact_match(held, record, i + 1)
    }
}

/// The first held item at `i` or behind it that may stand for the same account.
pub open spec fn candidate_match(held: Seq<HeldModel>, record: RecordModel, i: int) -> Option<
    [u8; 16],
>
    decreases held.len() - i,
{
    if i < 0 || i >= held.len() {
        None
    } else if is_candidate(held[i].record, record) {
        Some(held[i].id)
    } else {
        candidate_match(held, record, i + 1)
    }
}

/// A row classified against the held items: an exact duplicate goes before a
/// candidate.
pub open spec fn classified(row: RowModel, record: RecordModel, held: Seq<HeldModel>) -> RowModel {
    match exact_match(held, record, 0) {
        Some(id) => RowModel {
            status: CsvRowStatus::ExactDuplicate,
            duplicate_item: Some(id),
            ..row
        },
        None => match candidate_match(held, record, 0) {
            Some(id) => RowModel {
                status: CsvRowStatus::CandidateDuplicate,
                duplicate_item: Some(id),
                ..row
            },
            None => row,
        },
    }
}

/// The first held item that is the same record.
fn find_exact(held: &Vec<HeldItem>, record: &LogicalRecord) -> (r: Option<[u8; 16]>)
    ensures
        r == exact_match(views(held@), record@, 0),
{
    let mut i: usize = 0;
    while i < held.len()
        invariant
            i <= held@.len(),
            exact_match(views(held@), record@, 0) == exact_match(views(held@), record@, i as int),
        decreases held@.len() - i,
    {
        assert(views(held@)[i as int] == held@[i as int]@);
        if same_record(&held[i].record, record) {
            return Some(held[i].id);
        }
        i += 1;
    }
    None
}

/// The first held item that may stand for the same account.
fn find_candidate(held: &Vec<HeldItem>, record: &LogicalRecord) -> (r: Option<[u8; 16]>)
    ensures
        r == candidate_match(views(held@), record@, 0),
{
    let mut i: usize = 0;
    while i < held.len()
        invariant
            i <= held@.len(),
            candidate_match(views(held@), record@, 0) == candidate_match(
                views(held@),
                record@,
                i as int,
            ),
        decreases held@.len() - i,
    {
        assert(views(held@)[i as int] == held@[i as int]@);
        if import_candidate(&held[i].record, record) {
            return Some(held[i].id);
        }
        i += 1;
    }
    None
}

/// A preview whose first `n` rows are classified.
pub open spec fn classified_rows(m: PreviewModel, held: Seq<HeldModel>, n: int) -> Seq<RowModel> {
    Seq::new(
        m.rows.len(),
        |i: int|
            if i < n && i < m.records.len() {
                classified(m.rows[i], m.records[i], held)
            } else {
                m.rows[i]
            },
    )
}

/// Classifies every row of a preview against the items that the vault holds.
pub fn classify(preview: &mut CsvImportPreview, held: &Vec<HeldItem>)
    ensures
        final(preview)@ == (PreviewModel {
            rows: classified_rows(
                old(preview)@,
                views(held@),
                old(preview)@.rows.len() as int,
            ),
            ..old(preview)@
        }),
{
    let ghost start = preview@;
    let mut i: usize = 0;
    assert(preview@.rows =~= classified_rows(start, views(held@), 0));
    while i < preview.total() && i < preview.record_count()
        invariant
            start == old(preview)@,
            i <= start.rows.len(),
            i <= start.records.len(),
            preview@ == (PreviewModel {
                rows: classified_rows(start, views(held@), i as int),
                ..start
            }),
        decreases start.rows.len() - i,
    {
        let ghost before = preview@.rows;
        let exact = find_exact(held, preview.record_at(i));
        match exact {
            Some(id) => {
                preview.mark_row(i, CsvRowStatus::ExactDuplicate, id);
            },
            None => {
                let candidate = find_candidate(held, preview.record_at(i));
                match candidate {
                    Some(id) => {
                        preview.mark_row(i, CsvRowStatus::CandidateDuplicate, id);
                    },
                    None => {},
                }
            },
        }
        assert(before[i as int] == start.rows[i as int]);
        assert(preview@.rows =~= classified_rows(start, views(held@), i + 1));
        i += 1;
    }
    assert(preview@.rows =~= classified_rows(start, views(held@), start.rows.len() as int));
}

/// What becomes of a row.
#[derive(Clone, Copy, Debug)]
pub enum RowChoice {
    New,
    Replace([u8; 16]),
    Skip,
    Exclude,
}

/// What a decision makes of a row; nothing where the decision does not fit how
/// the row was classified.
pub open spec fn choice_of(row: RowModel, decision: CsvImportDecision) -> Option<RowChoice> {
    match decision {
        CsvImportDecision::ImportNew => if row.status == CsvRowStatus::New {
            Some(RowChoice::New)
        } else {
            None
        },
        CsvImportDecision::KeepBoth => Some(RowChoice::New),
        CsvImportDecision::SkipExact => if row.status == CsvRowStatus::ExactDuplicate {
            Some(RowChoice::Skip)
        } else {
            None
        },
        CsvImportDecision::Replace(target) => if row.status != CsvRowStatus::New
            && row.duplicate_item == Some(target) {
            Some(RowChoice::Replace(target))
        } else {
            None
        },
        CsvImportDecision::Exclude => Some(RowChoice::Exclude),
    }
}

/// Row counts of an import.
pub struct Counts {
    pub new_items: int,
    pub replaced: int,
    pub skipped_exact: int,
    pub excluded: int,
}

/// The counts with one more row.
pub open spec fn counted(c: Counts, choice: RowChoice) -> Counts {
    match choice {
        RowChoice::New => Counts { new_items: c.new_items + 1, ..c },
        RowChoice::Replace(_) => Counts { replaced: c.replaced + 1, ..c },
        RowChoice::Skip => Counts { skipped_exact: c.skipped_exact + 1, ..c },
        RowChoice::Exclude => Counts { excluded: c.excluded + 1, ..c },
    }
}

/// What the decisions on the first `n` rows amount to; fails at the first
/// decision that does not fit, or that replaces an item that is not active.
pub open spec fn plan_counts(
    rows: Seq<RowModel>,
    decisions: Seq<CsvImportDecision>,
    active: Seq<[u8; 16]>,
    n: int,
) -> Result<Counts, HumanCommitError>
    decreases n,
{
    if n <= 0 {
        Ok(Counts { new_items: 0, replaced: 0, skipped_exact: 0, excluded: 0 })
    } else {
        match plan_counts(rows, decisions, active, n - 1) {
            Ok(c) => match choice_of(rows[n - 1], decisions[n - 1]) {
                Some(RowChoice::Replace(target)) => if active.contains(target) {
                    Ok(counted(c, RowChoice::Replace(target)))
                } else {
                    Err(HumanCommitError::ItemNotFound)
                },
                Some(choice) => Ok(counted(c, choice)),
                None => Err(HumanCommitError::InvalidInput),
            },
            Err(e) => Err(e),
        }
    }
}

/// A failure at one row is the failure of all longer lists.
proof fn lemma_plan_fail(
    rows: Seq<RowModel>,
    decisions: Seq<CsvImportDecision>,
    active: Seq<[u8; 16]>,
    i: int,
    n: int,
)
    requires
        0 <= i <= n,
        plan_counts(rows, decisions, active, i) is Err,
    ensures
        plan_counts(rows, decisions, active, n) == plan_counts(rows, decisions, active, i),
    decreases n - i,
{
    if i < n {
        lemma_plan_fail(rows, decisions, active, i, n - 1);
    }
}

/// Every row is counted once: new, replaced, skipped or excluded.
pub proof fn lemma_plan_adds_up(
    rows: Seq<RowModel>,
    decisions: Seq<CsvImportDecision>,
    active: Seq<[u8; 16]>,
    n: int,
)
    requires
        0 <= n,
    ensures
        match plan_counts(rows, decisions, active, n) {
            Ok(c) => {
                &&& c.new_items + c.replaced + c.skipped_exact + c.excluded == n
                &&& 0 <= c.new_items
                &&& 0 <= c.replaced
                &&& 0 <= c.skipped_exact
                &&& 0 <= c.excluded
            },
            Err(_) => true,
        },
    decreases n,
{
    if n > 0 {
        lemma_plan_adds_up(rows, decisions, active, n - 1);
    }
}

/// The fields kept as they came in the first `n` rows.
pub open spec fn preserved(rows: Seq<RowModel>, n: int) -> nat
    decreases n,
{
    if n <= 0 {
        0
    } else {
        preserved(rows, n - 1) + rows[n - 1].unknown_fields
    }
}

/// The fields kept grow with the rows.
proof fn lemma_preserved_grows(rows: Seq<RowModel>, i: int, n: int)
    requires
        0 <= i <= n,
    ensures
        preserved(rows, i) <= preserved(rows, n),
    decreases n - i,
{
    if i < n {
        lemma_preserved_grows(rows, i, n - 1);
    }
}

/// The event pages of so many items: full ones and what is left, but at least
/// one.
pub open spec fn pages_of(items: int) -> int {
    if items <= 1 {
        1
    } else {
        (items + IMPORT_PAGE_ITEMS - 1) / (IMPORT_PAGE_ITEMS as int)
    }
}

/// The event pages of so many items.
pub fn event_pages(items: usize) -> (r: usize)
    ensures
        r == pages_of(items as int),
{
    if items <= 1 {
        1
    } else {
        (items - 1) / IMPORT_PAGE_ITEMS + 1
    }
}

/// What becomes of every row, and what that amounts to.
pub struct ImportPlan {
    pub choices: Vec<RowChoice>,
    pub report: CsvImportReport,
}

/// What an import amounts to.
pub open spec fn plan_report(rows: Seq<RowModel>, c: Counts) -> ReportModel {
    ReportModel {
        total: rows.len(),
        new_items: c.new_items as nat,
        replaced: c.replaced as nat,
        skipped_exact: c.skipped_exact as nat,
        excluded: c.excluded as nat,
        preserved_fields: preserved(rows, rows.len() as int),
        event_pages: pages_of(c.new_items + c.replaced) as nat,
    }
}

/// What a decision makes of a row.
pub fn choose_row(
    status: CsvRowStatus,
    duplicate: Option<[u8; 16]>,
    decision: &CsvImportDecision,
) -> (r: Option<RowChoice>)
    ensures
        forall|row: RowModel|
            row.status == status && row.duplicate_item == duplicate ==> r == #[trigger] choice_of(
                row,
                *decision,
            ),
{
    match decision {
        CsvImportDecision::ImportNew => if status == CsvRowStatus::New {
            Some(RowChoice::New)
        } else {
            None
        },
        CsvImportDecision::KeepBoth => Some(RowChoice::New),
        CsvImportDecision::SkipExact => if status == CsvRowStatus::ExactDuplicate {
            Some(RowChoice::Skip)
        } else {
            None
        },
        CsvImportDecision::Replace(target) => match duplicate {
            Some(item) => if status != CsvRowStatus::New && same_array(&item, target) {
                Some(RowChoice::Replace(*target))
            } else {
                None
            },
            None => None,
        },
        CsvImportDecision::Exclude => Some(RowChoice::Exclude),
    }
}

/// Whether every row of an import has a decision, and the kept fields can be
/// counted.
pub open spec fn decisions_complete(m: PreviewModel, decisions: Seq<CsvImportDecision>) -> bool {
    &&& m.records.len() == decisions.len()
    &&& m.rows.len() == decisions.len()
    &&& preserved(m.rows, m.rows.len() as int) <= usize::MAX
}

/// Turns one decision for each row into a plan; `active` are the items that
/// may be replaced.
pub fn plan_import(
    preview: &CsvImportPreview,
    decisions: &Vec<CsvImportDecision>,
    active: &Vec<[u8; 16]>,
) -> (r: Result<ImportPlan, HumanCommitError>)
    ensures
        !decisions_complete(preview@, decisions@) ==> r is Err && r->Err_0 is InvalidInput,
        decisions_complete(preview@, decisions@) ==> match plan_counts(
            preview@.rows,
            decisions@,
            active@,
            decisions@.len() as int,
        ) {
            Ok(c) => {
                &&& r is Ok
                &&& (r->Ok_0).report@ == plan_report(preview@.rows, c)
                &&& (r->Ok_0).choices@.len() == decisions@.len()
                &&& forall|i: int|
                    0 <= i < decisions@.len() ==> Some(#[trigger] (r->Ok_0).choices@[i])
                        == choice_of(preview@.rows[i], decisions@[i])
            },
            Err(e) => r is Err && r->Err_0 == e,
        },
{
    if preview.record_count() != decisions.len() || preview.total() != decisions.len() {
        return Err(HumanCommitError::InvalidInput);
    }
    let ghost rows = preview@.rows;
    let mut kept: usize = 0;
    let mut k: usize = 0;
    while k < decisions.len()
        invariant
            rows == preview@.rows,
            rows.len() == decisions@.len(),
            k <= rows.len(),
            kept == preserved(rows, k as int),
        decreases rows.len() - k,
    {
        let unknown: usize = preview.row_at(k).unknown_fields();
        if unknown > usize::MAX - kept {
            proof {
                lemma_preserved_grows(rows, k + 1, rows.len() as int);
            }
            return Err(HumanCommitError::InvalidInput);
        }
        kept += unknown;
        k += 1;
    }
    let mut choices: Vec<RowChoice> = Vec::new();
    let mut new_items: usize = 0;
    let mut replaced: usize = 0;
    let mut skipped_exact: usize = 0;
    let mut excluded: usize = 0;
    let mut i: usize = 0;
    while i < decisions.len()
        invariant
            rows == preview@.rows,
            rows.len() == decisions@.len(),
            preview@.records.len() == decisions@.len(),
            preserved(rows, rows.len() as int) <= usize::MAX,
            i <= decisions@.len(),
            choices@.len() == i,
            new_items + replaced + skipped_exact + excluded == i,
            plan_counts(rows, decisions@, active@, i as int) == Ok::<Counts, HumanCommitError>(
                Counts {
                    new_items: new_items as int,
                    replaced: replaced as int,
                    skipped_exact: skipped_exact as int,
                    excluded: excluded as int,
                },
            ),
            forall|j: int|
                0 <= j < i ==> Some(#[trigger] choices@[j]) == choice_of(rows[j], decisions@[j]),
        decreases decisions@.len() - i,
    {
        let row = preview.row_at(i);
        let duplicate = match row.duplicate_item() {
            Some(id) => Some(*id),
            None => None,
        };
        let choice = match choose_row(row.status(), duplicate, &decisions[i]) {
            Some(choice) => choice,
            None => {
                proof {
                    assert(choice_of(rows[i as int], decisions@[i as int]) is None);
                    lemma_plan_fail(rows, decisions@, active@, i + 1, decisions@.len() as int);
                }
                return Err(HumanCommitError::InvalidInput);
            },
        };
        assert(choice_of(rows[i as int], decisions@[i as int]) == Some(choice));
        match choice {
            RowChoice::New => {
                new_items += 1;
            },
            RowChoice::Replace(target) => {
                if !holds(active, &target) {
                    proof {
                        lemma_plan_fail(rows, decisions@, active@, i + 1, decisions@.len() as int);
                    }
                    return Err(HumanCommitError::ItemNotFound);
                }
                replaced += 1;
            },
            RowChoice::Skip => {
                skipped_exact += 1;
            },
            RowChoice::Exclude => {
                excluded += 1;
            },
        }
        choices.push(choice);
        i += 1;
    }
    let pages: usize = event_pages(new_items + replaced);
    let report = CsvImportReport::new(
        decisions.len(),
        new_items,
        replaced,
        skipped_exact,
        excluded,
        kept,
        pages,
    );
    Ok(ImportPlan { choices, report })
}

/// A row that is imported: which one, as which item, and whether it replaces
/// one.
#[derive(Clone, Copy, Debug, PartialEq, Eq)]
pub struct SelectedRow {
    pub row: usize,
    pub item: [u8; 16],
    pub replacement: bool,
}

/// How many of the first `n` rows become new items.
pub open spec fn new_rows(choices: Seq<RowChoice>, n: int) -> nat
    decreases n,
{
    if n <= 0 {
        0
    } else {
        new_rows(choices, n - 1) + (if choices[n - 1] is New {
            1nat
        } else {
            0
        })
    }
}

/// The rows among the first `n` that are imported: a new item under the next
/// fresh identifier, a replacement under that of what it replaces.
pub open spec fn selected(choices: Seq<RowChoice>, fresh: Seq<[u8; 16]>, n: int) -> Seq<SelectedRow>
    decreases n,
{
    if n <= 0 {
        Seq::empty()
    } else {
        let before = selected(choices, fresh, n - 1);
        let row = (n - 1) as usize;
        match choices[n - 1] {
            RowChoice::New => before.push(
                SelectedRow {
                    row,
                    item: fresh[new_rows(choices, n - 1) as int],
                    replacement: false,
                },
            ),
            RowChoice::Replace(target) => before.push(
                SelectedRow { row, item: target, replacement: true },
            ),
            _ => before,
        }
    }
}

/// Whether no two rows are imported as the same item.
pub open spec fn items_differ(rows: Seq<SelectedRow>) -> bool {
    forall|i: int, j: int|
        #![trigger rows[i], rows[j]]
        0 <= i < j < rows.len() ==> rows[i].item != rows[j].item
}

/// The items that rows are imported as, in order.
pub open spec fn selected_items(rows: Seq<SelectedRow>) -> Seq<[u8; 16]> {
    Seq::new(rows.len(), |i: int| rows[i].item)
}

/// What is selected of fewer rows stands at the front of what is selected of
/// more.
proof fn lemma_selected_grows(choices: Seq<RowChoice>, fresh: Seq<[u8; 16]>, i: int, n: int)
    requires
        0 <= i <= n,
    ensures
        selected(choices, fresh, i).len() <= selected(choices, fresh, n).len(),
        forall|k: int|
            0 <= k < selected(choices, fresh, i).len() ==> #[trigger] selected(choices, fresh, n)[k]
                == selected(choices, fresh, i)[k],
        new_rows(choices, i) <= new_rows(choices, n),
    decreases n - i,
{
    if i < n {
        lemma_selected_grows(choices, fresh, i, n - 1);
    }
}

/// The rows that are imported, given one fresh identifier for each new item.
/// Two rows cannot be stored as the same item.
pub fn select_rows(choices: &Vec<RowChoice>, fresh: &Vec<[u8; 16]>) -> (r: Result<
    Vec<SelectedRow>,
    HumanCommitError,
>)
    ensures
        ({
            let all = selected(choices@, fresh@, choices@.len() as int);
            if new_rows(choices@, choices@.len() as int) != fresh@.len() {
                r is Err && r->Err_0 is InvalidInput
            } else if !items_differ(all) {
                r is Err && r->Err_0 is Storage
            } else {
                r is Ok && (r->Ok_0)@ == all
            }
        }),
{
    let ghost all = selected(choices@, fresh@, choices@.len() as int);
    let mut used: usize = 0;
    let mut count: usize = 0;
    while count < choices.len()
        invariant
            count <= choices@.len(),
            used <= count,
            used == new_rows(choices@, count as int),
        decreases choices@.len() - count,
    {
        if let RowChoice::New = choices[count] {
            used += 1;
        }
        count += 1;
    }
    if used != fresh.len() {
        return Err(HumanCommitError::InvalidInput);
    }
    let mut rows: Vec<SelectedRow> = Vec::new();
    let mut seen: Table<()> = Table::new();
    let mut next: usize = 0;
    let mut i: usize = 0;
    while i < choices.len()
        invariant
            i <= choices@.len(),
            all == selected(choices@, fresh@, choices@.len() as int),
            new_rows(choices@, choices@.len() as int) == fresh@.len(),
            next == new_rows(choices@, i as int),
            next <= i,
            rows@ == selected(choices@, fresh@, i as int),
            items_differ(rows@),
            seen.wf(),
            forall|k: int| 0 <= k < rows@.len() ==> seen@.contains_key((#[trigger] rows@[k]).item@),
            forall|key: Seq<u8>| #[trigger]
                seen@.contains_key(key) ==> exists|k: int|
                    0 <= k < rows@.len() && (#[trigger] rows@[k]).item@ == key,
        decreases choices@.len() - i,
    {
        let ghost before = rows@;
        proof {
            lemma_selected_grows(choices@, fresh@, i + 1, choices@.len() as int);
        }
        let chosen = match choices[i] {
            RowChoice::New => {
                let item = fresh[next];
                next += 1;
                Some(SelectedRow { row: i, item, replacement: false })
            },
            RowChoice::Replace(target) => Some(
                SelectedRow { row: i, item: target, replacement: true },
            ),
            _ => None,
        };
        if let Some(row) = chosen {
            let ghost held = seen@;
            let is_new = seen.enter(row.item.as_slice(), ());
            rows.push(row);
            assert(rows@ == selected(choices@, fresh@, i + 1));
            if !is_new {
                proof {
                    let k = choose|k: int|
                        0 <= k < before.len() && (#[trigger] before[k]).item@ == row.item@;
                    crate::ordered::lemma_same_array(before[k].item, row.item);
                    assert(all[k] == rows@[k] && all[before.len() as int] == row);
                    assert(all[k].item == all[before.len() as int].item);
                }
                return Err(HumanCommitError::Storage);
            }
            proof {
                assert forall|k: int| 0 <= k < before.len() implies (#[trigger] rows@[k]).item
                    != row.item by {
                    assert(rows@[k] == before[k]);
                    assert(held.contains_key(before[k].item@));
                }
                assert forall|key: Seq<u8>| #[trigger] seen@.contains_key(key) implies exists|
                    k: int,
                |
                    0 <= k < rows@.len() && (#[trigger] rows@[k]).item@ == key by {
                    if held.contains_key(key) {
                        let k = choose|k: int|
                            0 <= k < before.len() && (#[trigger] before[k]).item@ == key;
                        assert(rows@[k] == before[k]);
                    } else {
                        assert(rows@[before.len() as int].item@ == key);
                    }
                }
            }
        }
        i += 1;
    }
    Ok(rows)
}

/// The items that rows are imported as.
pub fn items_of(rows: &Vec<SelectedRow>) -> (r: Vec<[u8; 16]>)
    ensures
        r@ == selected_items(rows@),
{
    let mut out: Vec<[u8; 16]> = Vec::new();
    let mut i: usize = 0;
    while i < rows.len()
        invariant
            i <= rows@.len(),
            out@ == Seq::new(i as nat, |k: int| rows@[k].item),
        decreases rows@.len() - i,
    {
        out.push(rows[i].item);
        assert(out@ =~= Seq::new((i + 1) as nat, |k: int| rows@[k].item));
        i += 1;
    }
    out
}

/// The items of a planned import: as many as are new or replaced, which fill
/// the pages of the report, in the order of their rows, a replacement under the
/// identifier of what it replaces.
pub proof fn lemma_import_items(
    rows: Seq<RowModel>,
    decisions: Seq<CsvImportDecision>,
    active: Seq<[u8; 16]>,
    choices: Seq<RowChoice>,
    fresh: Seq<[u8; 16]>,
    n: int,
)
    requires
        0 <= n <= choices.len() <= usize::MAX,
        forall|i: int|
            0 <= i < choices.len() ==> Some(#[trigger] choices[i]) == choice_of(
                rows[i],
                decisions[i],
            ),
        plan_counts(rows, decisions, active, n) is Ok,
    ensures
        ({
            let c = plan_counts(rows, decisions, active, n)->Ok_0;
            let s = selected(choices, fresh, n);
            &&& new_rows(choices, n) == c.new_items
            &&& selected_items(s).len() == c.new_items + c.replaced
            &&& plan_report(rows, c).event_pages == pages_of(selected_items(s).len() as int)
            &&& forall|i: int|
                0 <= i < s.len() ==> (#[trigger] s[i]).row < n && s[i].replacement == (
                choices[s[i].row as int] is Replace)
            &&& forall|i: int, j: int|
                0 <= i < j < s.len() ==> (#[trigger] s[i]).row < (#[trigger] s[j]).row
            &&& forall|i: int|
                0 <= i < s.len() && (#[trigger] s[i]).replacement ==> choices[s[i].row as int]
                    == RowChoice::Replace(s[i].item)
        }),
    decreases n,
{
    if n > 0 {
        lemma_import_items(rows, decisions, active, choices, fresh, n - 1);
        lemma_plan_adds_up(rows, decisions, active, n);
        assert(Some(choices[n - 1]) == choice_of(rows[n - 1], decisions[n - 1]));
    }
}

/// One selected item of an import, as it is staged.
pub struct ImportItem {
    pub ordinal: usize,
    pub item: [u8; 16],
    pub revision: [u8; 16],
    pub kind: String,
    pub package: Vec<u8>,
    pub replacement: bool,
}

/// The contents of an [`ImportItem`].
pub struct ImportItemModel {
    pub ordinal: usize,
    pub item: [u8; 16],
    pub revision: [u8; 16],
    pub kind: Seq<char>,
    pub package: Seq<u8>,
    pub replacement: bool,
}

impl View for ImportItem {
    type V = ImportItemModel;

    open spec fn view(&self) -> ImportItemModel {
        ImportItemModel {
            ordinal: self.ordinal,
            item: self.item,
            revision: self.revision,
            kind: self.kind@,
            package: self.package@,
            replacement: self.replacement,
        }
    }
}

/// What a page digest covers of one item.
pub open spec fn item_entry(m: ImportItemModel, object_digest: [u8; 32]) -> Seq<u8> {
    be64(m.ordinal as u64) + m.item@ + m.revision@ + be64(encode_utf8(m.kind).len() as u64)
        + encode_utf8(m.kind) + object_digest@ + seq![if m.replacement {
        1u8
    } else {
        0u8
    }]
}

/// Appends what a page digest covers of one item.
fn push_item_entry(out: &mut Vec<u8>, item: &ImportItem, object_digest: &[u8; 32])
    ensures
        final(out)@ == old(out)@ + item_entry(item@, *object_digest),
{
    push_be64(out, item.ordinal as u64);
    out.extend_from_slice(item.item.as_slice());
    out.extend_from_slice(item.revision.as_slice());
    let kind = item.kind.as_str().as_bytes();
    push_be64(out, kind.len() as u64);
    out.extend_from_slice(kind);
    out.extend_from_slice(object_digest.as_slice());
    out.push(
        if item.replacement {
            1
        } else {
            0
        },
    );
    assert(out@ =~= old(out)@ + item_entry(item@, *object_digest));
}

/// The entries of the items from `i` to `end`.
pub open spec fn item_entries(
    items: Seq<ImportItemModel>,
    digests: Seq<[u8; 32]>,
    i: int,
    end: int,
) -> Seq<u8>
    decreases end - i,
{
    if i >= end {
        Seq::empty()
    } else {
        item_entry(items[i], digests[i]) + item_entries(items, digests, i + 1, end)
    }
}

/// What the digest of one page covers.
pub open spec fn page_bytes(
    items: Seq<ImportItemModel>,
    digests: Seq<[u8; 32]>,
    page: int,
) -> Seq<u8> {
    let start = page * IMPORT_PAGE_ITEMS;
    let end = if start + IMPORT_PAGE_ITEMS < items.len() {
        start + IMPORT_PAGE_ITEMS
    } else {
        items.len() as int
    };
    encode_utf8("pm/import-object-page/v1"@) + item_entries(items, digests, start, end)
}

/// What the digest of page `page` of the staged items covers, given the object
/// digest of each item.
pub fn import_page(items: &Vec<ImportItem>, digests: &Vec<[u8; 32]>, page: usize) -> (r: Vec<u8>)
    requires
        digests@.len() == items@.len(),
        page < pages_of(items@.len() as int),
    ensures
        r@ == page_bytes(views(items@), digests@, page as int),
{
    let ghost models = views(items@);
    let count: usize = items.len();
    let mut out: Vec<u8> = Vec::new();
    out.extend_from_slice("pm/import-object-page/v1".as_bytes());
    let ghost head = out@;
    assert(page == 0 || page * IMPORT_PAGE_ITEMS < count);
    let start: usize = if page == 0 {
        0
    } else {
        page * IMPORT_PAGE_ITEMS
    };
    let end: usize = if count - start > IMPORT_PAGE_ITEMS {
        start + IMPORT_PAGE_ITEMS
    } else {
        count
    };
    let mut i: usize = start;
    assert(head + item_entries(models, digests@, start as int, end as int) =~= out@ + item_entries(
        models,
        digests@,
        start as int,
        end as int,
    ));
    while i < end
        invariant
            start <= i <= end <= items@.len(),
            digests@.len() == items@.len(),
            models == views(items@),
            out@ + item_entries(models, digests@, i as int, end as int) == head + item_entries(
                models,
                digests@,
                start as int,
                end as int,
            ),
        decreases end - i,
    {
        let ghost before = out@;
        assert(models[i as int] == items@[i as int]@);
        push_item_entry(&mut out, &items[i], &digests[i]);
        proof {
            crate::cbor::lemma_regroup(
                before,
                item_entry(models[i as int], digests@[i as int]),
                item_entries(models, digests@, i + 1, end as int),
            );
        }
        i += 1;
    }
    assert(out@ + Seq::<u8>::empty() =~= out@);
    out
}

/// What the digest of the whole batch covers: the number of pages and the
/// digest of each.
pub open spec fn root_bytes(items: int, pages: Seq<[u8; 32]>) -> Seq<u8> {
    encode_utf8("pm/import-object-root/v1"@) + be64(pages_of(items) as u64) + joined(pages)
}

/// Digests one behind the other.
pub open spec fn joined(v: Seq<[u8; 32]>) -> Seq<u8>
    decreases v.len(),
{
    if v.len() == 0 {
        Seq::empty()
    } else {
        joined(v.drop_last()) + v.last()@
    }
}

/// What the digest of the whole batch covers, given the digest of each page.
pub fn import_root(items: usize, pages: &Vec<[u8; 32]>) -> (r: Vec<u8>)
    ensures
        r@ == root_bytes(items as int, pages@),
{
    let mut out: Vec<u8> = Vec::new();
    out.extend_from_slice("pm/import-object-root/v1".as_bytes());
    push_be64(&mut out, event_pages(items) as u64);
    let ghost head = out@;
    let mut i: usize = 0;
    assert(pages@.take(0) =~= Seq::<[u8; 32]>::empty());
    assert(out@ =~= head + joined(pages@.take(0)));
    while i < pages.len()
        invariant
            i <= pages@.len(),
            out@ == head + joined(pages@.take(i as int)),
        decreases pages@.len() - i,
    {
        let ghost before = out@;
        out.extend_from_slice(pages[i].as_slice());
        assert(pages@.take(i + 1).drop_last() =~= pages@.take(i as int));
        assert(out@ =~= head + joined(pages@.take(i + 1)));
        i += 1;
    }
    assert(pages@.take(i as int) =~= pages@);
    out
}

/// A file of an archive that is imported.
#[derive(Clone, Copy, Debug)]
pub struct ImportSource {
    pub id: [u8; 16],
    pub size: u64,
    pub digest: [u8; 32],
}

/// Whether the files of a row are taken over.
pub open spec fn takes_files(decision: CsvImportDecision) -> bool {
    !(decision is Exclude) && !(decision is SkipExact)
}

/// The sizes of the first `n` files.
pub open spec fn source_bytes(sources: Seq<ImportSource>, n: int) -> int
    decreases n,
{
    if n <= 0 {
        0
    } else {
        source_bytes(sources, n - 1) + sources[n - 1].size
    }
}

/// The bytes and the number of the files that the first `n` rows take over.
pub open spec fn selected_totals(
    sources: Seq<Vec<ImportSource>>,
    decisions: Seq<CsvImportDecision>,
    n: int,
) -> (int, int)
    decreases n,
{
    if n <= 0 {
        (0, 0)
    } else {
        let (bytes, files) = selected_totals(sources, decisions, n - 1);
        if takes_files(decisions[n - 1]) {
            let s = sources[n - 1]@;
            (bytes + source_bytes(s, s.len() as int), files + s.len())
        } else {
            (bytes, files)
        }
    }
}

/// Sizes only add.
proof fn lemma_source_bytes(sources: Seq<ImportSource>, i: int, n: int)
    requires
        0 <= i <= n,
    ensures
        0 <= source_bytes(sources, i) <= source_bytes(sources, n),
    decreases n,
{
    if i < n {
        lemma_source_bytes(sources, i, n - 1);
    } else if n > 0 {
        lemma_source_bytes(sources, n - 1, n - 1);
    }
}

/// Totals only grow.
proof fn lemma_selected_totals(
    sources: Seq<Vec<ImportSource>>,
    decisions: Seq<CsvImportDecision>,
    i: int,
    n: int,
)
    requires
        0 <= i <= n,
    ensures
        0 <= selected_totals(sources, decisions, i).0 <= selected_totals(sources, decisions, n).0,
        0 <= selected_totals(sources, decisions, i).1 <= selected_totals(sources, decisions, n).1,
    decreases n,
{
    if i < n {
        lemma_selected_totals(sources, decisions, i, n - 1);
        let s = sources[n - 1]@;
        lemma_source_bytes(s, 0, s.len() as int);
    } else if n > 0 {
        lemma_selected_totals(sources, decisions, n - 1, n - 1);
        let s = sources[n - 1]@;
        lemma_source_bytes(s, 0, s.len() as int);
    }
}

/// How much the selected files of an archive take up.
pub fn staging_demand(
    sources: &Vec<Vec<ImportSource>>,
    decisions: &Vec<CsvImportDecision>,
) -> (r: Result<(u64, usize), HumanCommitError>)
    requires
        sources@.len() == decisions@.len(),
    ensures
        ({
            let (bytes, files) = selected_totals(sources@, decisions@, decisions@.len() as int);
            if bytes <= u64::MAX && files <= usize::MAX {
                r is Ok && (r->Ok_0).0 == bytes && (r->Ok_0).1 == files
            } else {
                r is Err && r->Err_0 is InvalidInput
            }
        }),
{
    let mut bytes: u64 = 0;
    let mut files: usize = 0;
    let mut i: usize = 0;
    while i < decisions.len()
        invariant
            i <= decisions@.len() == sources@.len(),
            selected_totals(sources@, decisions@, i as int) == (bytes as int, files as int),
        decreases decisions@.len() - i,
    {
        let taken = match decisions[i] {
            CsvImportDecision::Exclude => false,
            CsvImportDecision::SkipExact => false,
            _ => true,
        };
        if taken {
            let row = &sources[i];
            let ghost start = bytes as int;
            let ghost files0 = files as int;
            let mut k: usize = 0;
            while k < row.len()
                invariant
                    k <= row@.len(),
                    row@ == sources@[i as int]@,
                    i < decisions@.len() == sources@.len(),
                    takes_files(decisions@[i as int]),
                    selected_totals(sources@, decisions@, i as int) == (start, files0),
                    bytes == start + source_bytes(row@, k as int),
                    files == files0 + k,
                decreases row@.len() - k,
            {
                proof {
                    lemma_source_bytes(row@, k + 1, row@.len() as int);
                    lemma_selected_totals(sources@, decisions@, i + 1, decisions@.len() as int);
                }
                if row[k].size > u64::MAX - bytes || files == usize::MAX {
                    return Err(HumanCommitError::InvalidInput);
                }
                bytes += row[k].size;
                files += 1;
                k += 1;
            }
        }
        i += 1;
    }
    Ok((bytes, files))
}

/// Whether the files of a record are the files of the archive, in order and
/// still without content.
pub open spec fn files_match(files: Seq<AttachmentModel>, sources: Seq<ImportSource>) -> bool {
    &&& files.len() == sources.len()
    &&& forall|i: int|
        0 <= i < files.len() ==> {
            &&& (#[trigger] files[i]).id == sources[i].id
            &&& files[i].size == sources[i].size
            &&& files[i].sha256 == sources[i].digest
            &&& files[i].content.len() == 0
        }
}

/// Whether the files of a record are the files of the archive.
pub fn sources_match(record: &LogicalRecord, sources: &Vec<ImportSource>) -> (r: bool)
    ensures
        r == files_match(record@.attachments, sources@),
{
    let files = record.attachments();
    if files.len() != sources.len() {
        return false;
    }
    let mut i: usize = 0;
    while i < files.len()
        invariant
            i <= files@.len() == sources@.len(),
            views(files@) == record@.attachments,
            forall|j: int|
                0 <= j < i ==> {
                    &&& (#[trigger] record@.attachments[j]).id == sources@[j].id
                    &&& record@.attachments[j].size == sources@[j].size
                    &&& record@.attachments[j].sha256 == sources@[j].digest
                    &&& record@.attachments[j].content.len() == 0
                },
        decreases files@.len() - i,
    {
        assert(record@.attachments[i as int] == files@[i as int]@);
        if !same_array(files[i].id(), &sources[i].id) || files[i].size() != sources[i].size
            || !same_array(files[i].sha256(), &sources[i].digest) || files[i].content().len()
            != 0 {
            return false;
        }
        i += 1;
    }
    true
}

/// A staged file stream: what is declared of it and what is stored.
pub struct StreamRow {
    pub attachment: Vec<u8>,
    pub chunk_count: i64,
    pub stored: i64,
    pub first: Option<i64>,
    pub last: Option<i64>,
}

/// Whether a record has a file of that identifier whose content is streamed.
pub open spec fn streams_file(files: Seq<AttachmentModel>, id: Seq<u8>) -> bool {
    exists|i: int|
        0 <= i < files.len() && (#[trigger] files[i]).id@ == id && files[i].content.len() == 0
}

/// What is wrong with a staged stream, if anything.
pub open spec fn stream_verdict(files: Seq<AttachmentModel>, row: StreamRow) -> Result<
    (),
    HumanCommitError,
> {
    if row.attachment@.len() != 16 {
        Err(HumanCommitError::InvalidCommand)
    } else if !streams_file(files, row.attachment@) || row.chunk_count <= 0 || row.stored
        != row.chunk_count || row.first != Some(0i64) || row.last != Some(
        (row.chunk_count - 1) as i64,
    ) {
        Err(HumanCommitError::BodyChanged)
    } else {
        Ok(())
    }
}

/// What is wrong with the first `n` staged streams, if anything.
pub open spec fn streams_verdict(files: Seq<AttachmentModel>, rows: Seq<StreamRow>,
    n: int) -> Result<
    (),
    HumanCommitError,
>
    decreases n,
{
    if n <= 0 {
        Ok(())
    } else {
        match streams_verdict(files, rows, n - 1) {
            Ok(()) => stream_verdict(files, rows[n - 1]),
            Err(e) => Err(e),
        }
    }
}

/// A failure at one stream is the failure of all longer lists.
proof fn lemma_streams_fail(files: Seq<AttachmentModel>, rows: Seq<StreamRow>, i: int, n: int)
    requires
        0 <= i <= n,
        streams_verdict(files, rows, i) is Err,
    ensures
        streams_verdict(files, rows, n) == streams_verdict(files, rows, i),
    decreases n - i,
{
    if i < n {
        lemma_streams_fail(files, rows, i, n - 1);
    }
}

/// Whether a record has a file of that identifier whose content is streamed.
fn has_stream(record: &LogicalRecord, id: &[u8; 16]) -> (r: bool)
    ensures
        r == streams_file(record@.attachments, id@),
{
    let files = record.attachments();
    let mut i: usize = 0;
    while i < files.len()
        invariant
            i <= files@.len(),
            views(files@) == record@.attachments,
            forall|j: int|
                0 <= j < i ==> (#[trigger] record@.attachments[j]).id@ != id@
                    || record@.attachments[j].content.len() != 0,
        decreases files@.len() - i,
    {
        assert(record@.attachments[i as int] == files@[i as int]@);
        if same_array(files[i].id(), id) {
            if files[i].content().len() == 0 {
                return true;
            }
        } else {
            proof {
                if files@[i as int]@.id@ == id@ {
                    crate::ordered::lemma_same_array(files@[i as int]@.id, *id);
                }
            }
        }
        i += 1;
    }
    false
}

/// Checks the staged streams of an item against its record: one for each file,
/// with all its chunks.
pub fn validate_import_streams(record: &LogicalRecord, rows: &Vec<StreamRow>) -> (r: Result<
    (),
    HumanCommitError,
>)
    ensures
        r == (if rows@.len() != record@.attachments.len() {
            Err::<(), HumanCommitError>(HumanCommitError::BodyChanged)
        } else {
            streams_verdict(record@.attachments, rows@, rows@.len() as int)
        }),
{
    if rows.len() != record.attachments().len() {
        return Err(HumanCommitError::BodyChanged);
    }
    let mut i: usize = 0;
    while i < rows.len()
        invariant
            i <= rows@.len() == record@.attachments.len(),
            streams_verdict(record@.attachments, rows@, i as int) is Ok,
        decreases rows@.len() - i,
    {
        let row = &rows[i];
        let id = match fixed16(row.attachment.as_slice()) {
            Some(id) => id,
            None => {
                proof {
                    lemma_streams_fail(record@.attachments, rows@, i + 1, rows@.len() as int);
                }
                return Err(HumanCommitError::InvalidCommand);
            },
        };
        let whole = row.chunk_count > 0 && row.stored == row.chunk_count && match row.first {
            Some(n) => n == 0,
            None => false,
        } && match row.last {
            Some(n) => n == row.chunk_count - 1,
            None => false,
        };
        if !has_stream(record, &id) || !whole {
            proof {
                lemma_streams_fail(record@.attachments, rows@, i + 1, rows@.len() as int);
            }
            return Err(HumanCommitError::BodyChanged);
        }
        i += 1;
    }
    Ok(())
}

/// Whether an opened package is the revision of a staged item: same item,
/// revision and kind.
pub fn package_matches(
    item: &ImportItem,
    opened_item: &[u8; 16],
    opened_revision: &[u8; 16],
    opened_kind: RecordKind,
    record: &LogicalRecord,
) -> (r: bool)
    ensures
        r == (*opened_item == item.item && *opened_revision == item.revision && kind_name(
            record@.kind,
        ) == item.kind@ && record@.kind == opened_kind),
{
    same_array(opened_item, &item.item) && same_array(opened_revision, &item.revision) && same_str(
        record.kind().name(),
        item.kind.as_str(),
    ) && record.kind() == opened_kind
}

/// A staged import as a whole.
pub struct ImportBatch {
    pub batch_id: [u8; 16],
    pub source: String,
    pub object_digest: [u8; 32],
    pub report: CsvImportReport,
}

/// Whether a stored number is a count.
pub open spec fn is_count(n: i64) -> bool {
    0 <= n <= usize::MAX
}

/// A stored number as a count.
fn count_of(n: i64) -> (r: Option<usize>)
    ensures
        r is Some <==> is_count(n),
        r is Some ==> r->0 == n,
{
    if n < 0 || n as u64 > usize::MAX as u64 {
        None
    } else {
        Some(n as usize)
    }
}

/// Reads a staged import from its stored columns.
pub fn load_import_batch(
    batch_id: &[u8],
    source: &str,
    object_digest: &[u8],
    counts: &[i64; 7],
) -> (r: Result<ImportBatch, HumanCommitError>)
    ensures
        ({
            let counted = forall|i: int| 0 <= i < 7 ==> is_count(#[trigger] counts@[i]);
            &&& r is Ok <==> batch_id@.len() == 16 && object_digest@.len() == 32 && counted
            &&& r is Ok ==> {
                &&& (r->Ok_0).batch_id@ == batch_id@
                &&& (r->Ok_0).source@ == source@
                &&& (r->Ok_0).object_digest@ == object_digest@
                &&& (r->Ok_0).report@ == (ReportModel {
                    total: counts@[0] as nat,
                    new_items: counts@[1] as nat,
                    replaced: counts@[2] as nat,
                    skipped_exact: counts@[3] as nat,
                    excluded: counts@[4] as nat,
                    preserved_fields: counts@[5] as nat,
                    event_pages: counts@[6] as nat,
                })
            }
            &&& r is Err ==> r->Err_0 == (if batch_id@.len() != 16 || object_digest@.len() != 32 {
                HumanCommitError::InvalidCommand
            } else {
                HumanCommitError::BodyChanged
            })
        }),
{
    let batch_id = match crate::bytes::fixed16(batch_id) {
        Some(v) => v,
        None => {
            return Err(HumanCommitError::InvalidCommand);
        },
    };
    let object_digest = match crate::bytes::fixed32(object_digest) {
        Some(v) => v,
        None => {
            return Err(HumanCommitError::InvalidCommand);
        },
    };
    assert(counts@[0] == counts[0] && counts@[1] == counts[1] && counts@[2] == counts[2]);
    match (
        count_of(counts[0]),
        count_of(counts[1]),
        count_of(counts[2]),
        count_of(counts[3]),
        count_of(counts[4]),
        count_of(counts[5]),
        count_of(counts[6]),
    ) {
        (
            Some(total),
            Some(new_items),
            Some(replaced),
            Some(skipped_exact),
            Some(excluded),
            Some(preserved_fields),
            Some(event_pages),
        ) => Ok(
            ImportBatch {
                batch_id,
                source: source.to_owned(),
                object_digest,
                report: CsvImportReport::new(
                    total,
                    new_items,
                    replaced,
                    skipped_exact,
                    excluded,
                    preserved_fields,
                    event_pages,
                ),
            },
        ),
        _ => Err(HumanCommitError::BodyChanged),
    }
}

/// The first held item that is the same record.
proof fn lemma_exact(held: Seq<HeldModel>, record: RecordModel, i: int, from: int)
    requires
        0 <= from <= i < held.len(),
        held[i].record == record,
        forall|j: int| 0 <= j < i ==> (#[trigger] held[j]).record != record,
    ensures
        exact_match(held, record, from) == Some(held[i].id),
    decreases i - from,
{
    if from < i {
        assert(held[from].record != record);
        lemma_exact(held, record, i, from + 1);
    }
}

/// No held item is the same record.
proof fn lemma_no_exact(held: Seq<HeldModel>, record: RecordModel, from: int)
    requires
        0 <= from,
        forall|j: int| 0 <= j < held.len() ==> (#[trigger] held[j]).record != record,
    ensures
        exact_match(held, record, from) is None,
    decreases held.len() - from,
{
    if from < held.len() {
        assert(held[from].record != record);
        lemma_no_exact(held, record, from + 1);
    }
}

/// Whether two records are of one kind, with one title, one list of
/// destinations, and the same account in the first way to authenticate.
pub open spec fn looks_alike(a: RecordModel, b: RecordModel) -> bool {
    &&& a.kind == b.kind
    &&& a.human.title == b.human.title
    &&& a.human.destinations == b.human.destinations
    &&& (if a.auth.len() > 0 {
        account_of(a.auth[0])
    } else {
        Seq::empty()
    }) == (if b.auth.len() > 0 {
        account_of(b.auth[0])
    } else {
        Seq::empty()
    })
}

/// Records look alike where they are candidates.
proof fn lemma_alike(a: RecordModel, b: RecordModel)
    ensures
        is_candidate(a, b) == looks_alike(a, b),
{
    reveal_strlit("");
    assert(""@ =~= Seq::<char>::empty());
}

/// The first held item that looks alike.
proof fn lemma_candidate(held: Seq<HeldModel>, record: RecordModel, i: int, from: int)
    requires
        0 <= from <= i < held.len(),
        looks_alike(held[i].record, record),
        forall|j: int| 0 <= j < i ==> !looks_alike((#[trigger] held[j]).record, record),
    ensures
        candidate_match(held, record, from) == Some(held[i].id),
    decreases i - from,
{
    lemma_alike(held[from].record, record);
    if from < i {
        assert(!looks_alike(held[from].record, record));
        lemma_candidate(held, record, i, from + 1);
    }
}

/// No held item looks alike.
proof fn lemma_no_candidate(held: Seq<HeldModel>, record: RecordModel, from: int)
    requires
        0 <= from,
        forall|j: int| 0 <= j < held.len() ==> !looks_alike((#[trigger] held[j]).record, record),
    ensures
        candidate_match(held, record, from) is None,
    decreases held.len() - from,
{
    if from < held.len() {
        lemma_alike(held[from].record, record);
        assert(!looks_alike(held[from].record, record));
        lemma_no_candidate(held, record, from + 1);
    }
}

/// A row whose record is held already is an exact duplicate of the first item
/// that holds it, even where an earlier one only looks alike.
pub proof fn lemma_row_exact(row: RowModel, record: RecordModel, held: Seq<HeldModel>, i: int)
    requires
        0 <= i < held.len(),
        held[i].record == record,
        forall|j: int| 0 <= j < i ==> (#[trigger] held[j]).record != record,
    ensures
        classified(row, record, held) == (RowModel {
            status: CsvRowStatus::ExactDuplicate,
            duplicate_item: Some(held[i].id),
            ..row
        }),
{
    lemma_exact(held, record, i, 0);
}

/// A row whose record is not held, but looks like one that is, may be a
/// duplicate of the first such item; any other row stays as it is.
pub proof fn lemma_row_candidate(row: RowModel, record: RecordModel, held: Seq<HeldModel>, i: int)
    requires
        forall|j: int| 0 <= j < held.len() ==> (#[trigger] held[j]).record != record,
    ensures
        0 <= i < held.len() && looks_alike(held[i].record, record) && (forall|j: int|
            0 <= j < i ==> !looks_alike((#[trigger] held[j]).record, record)) ==> classified(
            row,
            record,
            held,
        ) == (RowModel {
            status: CsvRowStatus::CandidateDuplicate,
            duplicate_item: Some(held[i].id),
            ..row
        }),
        (forall|j: int|
            0 <= j < held.len() ==> !looks_alike((#[trigger] held[j]).record, record))
            ==> classified(row, record, held) == row,
{
    lemma_no_exact(held, record, 0);
    if 0 <= i < held.len() && looks_alike(held[i].record, record) && (forall|j: int|
        0 <= j < i ==> !looks_alike((#[trigger] held[j]).record, record)) {
        lemma_candidate(held, record, i, 0);
    }
    if forall|j: int|
        0 <= j < held.len() ==> !looks_alike((#[trigger] held[j]).record, record) {
        lemma_no_candidate(held, record, 0);
    }
}

/// Each row is classified by its own record, and the rows keep their order.
pub proof fn lemma_rows_classified(m: PreviewModel, held: Seq<HeldModel>, i: int)
    requires
        m.rows.len() == m.records.len(),
        0 <= i < m.rows.len(),
    ensures
        classified_rows(m, held, m.records.len() as int).len() == m.rows.len(),
        classified_rows(m, held, m.records.len() as int)[i] == classified(
            m.rows[i],
            m.records[i],
            held,
        ),
{
}

/// What may be decided of a row: only a new one is imported as new, only an
/// exact duplicate is skipped as one, and only the item that it duplicates is
/// replaced; both may be kept, and any row left out.
pub proof fn lemma_choices(row: RowModel, target: [u8; 16])
    ensures
        choice_of(row, CsvImportDecision::ImportNew) == (if row.status is New {
            Some(RowChoice::New)
        } else {
            None
        }),
        choice_of(row, CsvImportDecision::KeepBoth) == Some(RowChoice::New),
        choice_of(row, CsvImportDecision::SkipExact) == (if row.status is ExactDuplicate {
            Some(RowChoice::Skip)
        } else {
            None
        }),
        choice_of(row, CsvImportDecision::Replace(target)) == (if (row.status is ExactDuplicate
            || row.status is CandidateDuplicate) && row.duplicate_item == Some(target) {
            Some(RowChoice::Replace(target))
        } else {
            None
        }),
        choice_of(row, CsvImportDecision::Exclude) == Some(RowChoice::Exclude),
{
}

/// The places below `n` at which a decision of some kinds stands.
pub open spec fn places(decisions: Seq<CsvImportDecision>, n: int, kinds: spec_fn(
    CsvImportDecision,
) -> bool) -> Set<int> {
    Set::new(|i: int| 0 <= i < n && kinds(decisions[i]))
}

/// One place more.
proof fn lemma_places(decisions: Seq<CsvImportDecision>, n: int, kinds: spec_fn(
    CsvImportDecision,
) -> bool)
    requires
        0 <= n,
    ensures
        places(decisions, n, kinds).finite(),
        places(decisions, 0, kinds).len() == 0,
        n > 0 ==> places(decisions, n, kinds).len() == places(decisions, n - 1, kinds).len() + (
        if kinds(decisions[n - 1]) {
            1nat
        } else {
            0nat
        }),
    decreases n,
{
    assert(places(decisions, 0, kinds) =~= Set::empty());
    if n > 0 {
        lemma_places(decisions, n - 1, kinds);
        let before = places(decisions, n - 1, kinds);
        if kinds(decisions[n - 1]) {
            assert(places(decisions, n, kinds) =~= before.insert(n - 1));
        } else {
            assert(places(decisions, n, kinds) =~= before);
        }
    }
}

/// The counts of an import are those of its decisions: how many rows become new
/// items, replace an item, are skipped as exact duplicates or are left out.
pub proof fn lemma_counts(
    rows: Seq<RowModel>,
    decisions: Seq<CsvImportDecision>,
    active: Seq<[u8; 16]>,
    n: int,
)
    requires
        0 <= n,
        plan_counts(rows, decisions, active, n) is Ok,
    ensures
        ({
            let c = plan_counts(rows, decisions, active, n)->Ok_0;
            let new = |d: CsvImportDecision| d is ImportNew || d is KeepBoth;
            let replace = |d: CsvImportDecision| d is Replace;
            let skip = |d: CsvImportDecision| d is SkipExact;
            let exclude = |d: CsvImportDecision| d is Exclude;
            &&& c.new_items == places(decisions, n, new).len()
            &&& c.replaced == places(decisions, n, replace).len()
            &&& c.skipped_exact == places(decisions, n, skip).len()
            &&& c.excluded == places(decisions, n, exclude).len()
        }),
        forall|i: int|
            0 <= i < n && (#[trigger] decisions[i]) is Replace ==> active.contains(
                decisions[i]->Replace_0,
            ),
        forall|i: int| 0 <= i < n ==> choice_of(rows[i], #[trigger] decisions[i]) is Some,
    decreases n,
{
    let new = |d: CsvImportDecision| d is ImportNew || d is KeepBoth;
    let replace = |d: CsvImportDecision| d is Replace;
    let skip = |d: CsvImportDecision| d is SkipExact;
    let exclude = |d: CsvImportDecision| d is Exclude;
    lemma_places(decisions, n, new);
    lemma_places(decisions, n, replace);
    lemma_places(decisions, n, skip);
    lemma_places(decisions, n, exclude);
    if n > 0 {
        lemma_counts(rows, decisions, active, n - 1);
        assert(choice_of(rows[n - 1], decisions[n - 1]) is Some);
    }
}

/// Items fill as many pages of sixty-four as they need, and at least one.
pub proof fn lemma_pages(items: int)
    requires
        0 <= items,
    ensures
        pages_of(items) >= 1,
        pages_of(items) * 64 >= items,
        items > 0 ==> (pages_of(items) - 1) * 64 < items,
        items == 0 ==> pages_of(items) == 1,
{
}

/// The report of an import counts all its rows, what is kept beside them, and
/// the pages that its items fill.
pub proof fn lemma_report(rows: Seq<RowModel>, c: Counts)
    requires
        0 <= c.new_items,
        0 <= c.replaced,
        0 <= c.skipped_exact,
        0 <= c.excluded,
    ensures
        plan_report(rows, c).total == rows.len(),
        plan_report(rows, c).new_items == c.new_items,
        plan_report(rows, c).replaced == c.replaced,
        plan_report(rows, c).skipped_exact == c.skipped_exact,
        plan_report(rows, c).excluded == c.excluded,
        plan_report(rows, c).event_pages == pages_of(c.new_items + c.replaced),
        plan_report(rows, c).preserved_fields == preserved(rows, rows.len() as int),
{
}

/// What is kept beside the rows is counted row by row.
pub proof fn lemma_preserved(rows: Seq<RowModel>, more: RowModel)
    ensures
        preserved(rows.push(more), (rows.len() + 1) as int) == preserved(rows, rows.len() as int)
            + more.unknown_fields,
        preserved(Seq::empty(), 0) == 0,
{
    lemma_preserved_of(rows, rows.push(more), rows.len() as int);
}

/// Only the first rows count.
proof fn lemma_preserved_of(a: Seq<RowModel>, b: Seq<RowModel>, n: int)
    requires
        forall|i: int| 0 <= i < n ==> #[trigger] a[i] == b[i],
    ensures
        preserved(a, n) == preserved(b, n),
    decreases n,
{
    if n > 0 {
        lemma_preserved_of(a, b, n - 1);
    }
}

/// Every row that is imported is selected: a new one under the next fresh
/// identifier, in the order of the rows, and a replacement under the identifier
/// of the item that it replaces.
pub proof fn lemma_selected(choices: Seq<RowChoice>, fresh: Seq<[u8; 16]>, n: int, i: int)
    requires
        0 <= i < n <= choices.len() <= usize::MAX,
    ensures
        choices[i] is New ==> selected(choices, fresh, n).contains(
            SelectedRow {
                row: i as usize,
                item: fresh[new_rows(choices, i) as int],
                replacement: false,
            },
        ),
        choices[i] matches RowChoice::Replace(target) ==> selected(choices, fresh, n).contains(
            SelectedRow { row: i as usize, item: target, replacement: true },
        ),
        choices[i] is New ==> new_rows(choices, i + 1) == new_rows(choices, i) + 1,
        !(choices[i] is New) ==> new_rows(choices, i + 1) == new_rows(choices, i),
        new_rows(choices, 0) == 0,
    decreases n,
{
    let all = selected(choices, fresh, n);
    let before = selected(choices, fresh, n - 1);
    if i == n - 1 {
        if all.len() > 0 {
            assert(all.contains(all.last()));
        }
    } else {
        lemma_selected(choices, fresh, n - 1, i);
        assert forall|x: SelectedRow| before.contains(x) implies #[trigger] all.contains(x) by {
            let k = choose|k: int| 0 <= k < before.len() && before[k] == x;
            assert(all[k] == x);
        }
    }
}

/// What is signed of an imported item names its place, its item, its revision,
/// its kind, its object and whether it replaces one.
pub proof fn lemma_item_entry(m: ImportItemModel, d: [u8; 32])
    ensures
        ({
            let b = item_entry(m, d);
            let k = encode_utf8(m.kind).len() as int;
            &&& b.len() == 81 + k
            &&& b.subrange(0, 8) == be64(m.ordinal as u64)
            &&& b.subrange(8, 24) == m.item@
            &&& b.subrange(24, 40) == m.revision@
            &&& b.subrange(40, 48) == be64(k as u64)
            &&& b.subrange(48, 48 + k) == encode_utf8(m.kind)
            &&& b.subrange(48 + k, 80 + k) == d@
            &&& b[80 + k] == (if m.replacement {
                1u8
            } else {
                0u8
            })
        }),
{
    let b = item_entry(m, d);
    let k = encode_utf8(m.kind).len() as int;
    assert(be64(m.ordinal as u64).len() == 8);
    assert(be64(k as u64).len() == 8);
    assert(b.subrange(0, 8) =~= be64(m.ordinal as u64));
    assert(b.subrange(8, 24) =~= m.item@);
    assert(b.subrange(24, 40) =~= m.revision@);
    assert(b.subrange(40, 48) =~= be64(k as u64));
    assert(b.subrange(48, 48 + k) =~= encode_utf8(m.kind));
    assert(b.subrange(48 + k, 80 + k) =~= d@);
}

/// The pages of an import cover its items, sixty-four to a page, each with its
/// own digest, in their order; the root covers the pages.
pub proof fn lemma_pages_cover(items: Seq<ImportItemModel>, digests: Seq<[u8; 32]>, page: int)
    requires
        0 <= page,
        page * 64 < items.len(),
    ensures
        items.len() <= page * 64 + 64 ==> page_bytes(items, digests, page) == encode_utf8(
            "pm/import-object-page/v1"@,
        ) + item_entries(items, digests, page * 64, items.len() as int),
        items.len() > page * 64 + 64 ==> page_bytes(items, digests, page) == encode_utf8(
            "pm/import-object-page/v1"@,
        ) + item_entries(items, digests, page * 64, page * 64 + 64),
        forall|i: int, end: int|
            i < end ==> #[trigger] item_entries(items, digests, i, end) == item_entry(
                items[i],
                digests[i],
            ) + item_entries(items, digests, i + 1, end),
        forall|i: int| #[trigger] item_entries(items, digests, i, i).len() == 0,
{
}

/// A stored stream is accepted where it is the whole content of a file that the
/// record leaves without bytes: all its chunks, from the first to the last.
pub proof fn lemma_stream_accepted(files: Seq<AttachmentModel>, row: StreamRow)
    ensures
        stream_verdict(files, row) is Ok <==> {
            &&& row.attachment@.len() == 16
            &&& exists|i: int|
                0 <= i < files.len() && (#[trigger] files[i]).id@ == row.attachment@
                    && files[i].content.len() == 0
            &&& row.chunk_count >= 1
            &&& row.stored == row.chunk_count
            &&& row.first == Some(0i64)
            &&& row.last is Some && row.last->0 + 1 == row.chunk_count
        },
{
}

/// Streams are accepted where each of them is.
pub proof fn lemma_streams_accepted(files: Seq<AttachmentModel>, rows: Seq<StreamRow>, n: int)
    requires
        0 <= n <= rows.len(),
    ensures
        streams_verdict(files, rows, n) is Ok <==> forall|i: int|
            0 <= i < n ==> stream_verdict(files, #[trigger] rows[i]) is Ok,
    decreases n,
{
    if n > 0 {
        lemma_streams_accepted(files, rows, n - 1);
    }
}

/// The files of an imported record are those of its sources, one for one.
pub proof fn lemma_files_of_sources(files: Seq<AttachmentModel>, sources: Seq<ImportSource>, i: int)
    requires
        files_match(files, sources),
    ensures
        files.len() == sources.len(),
        0 <= i < files.len() ==> files[i].id == sources[i].id && files[i].size == sources[i].size
            && files[i].sha256 == sources[i].digest && files[i].content.len() == 0,
{
}

/// The files of the rows that are imported are counted, with their bytes, and no
/// others.
pub proof fn lemma_files_counted(
    sources: Seq<Vec<ImportSource>>,
    decisions: Seq<CsvImportDecision>,
    n: int,
)
    requires
        n > 0,
    ensures
        ({
            let now = selected_totals(sources, decisions, n);
            let before = selected_totals(sources, decisions, n - 1);
            let d = decisions[n - 1];
            let files = sources[n - 1]@;
            &&& d is Exclude || d is SkipExact ==> now == before
            &&& d is ImportNew || d is KeepBoth || d is Replace ==> now.1 == before.1 + files.len()
                && now.0 == before.0 + source_bytes(files, files.len() as int)
        }),
        selected_totals(sources, decisions, 0) == (0int, 0int),
        forall|v: Seq<ImportSource>, k: int|
            k > 0 ==> #[trigger] source_bytes(v, k) == source_bytes(v, k - 1) + v[k - 1].size,
        forall|v: Seq<ImportSource>| #[trigger] source_bytes(v, 0) == 0,
{
}

/// What a record is compared by is the account of its first way to authenticate.
pub proof fn lemma_compared_account(m: RecordModel)
    ensures
        m.auth.len() == 0 ==> record_account(m).len() == 0,
        m.auth.len() > 0 ==> (match m.auth[0] {
            AuthModel::Password { username, .. } => record_account(m) == username,
            AuthModel::Ssh { username, .. } => record_account(m) == username,
            AuthModel::Totp { account, .. } => record_account(m) == account,
            AuthModel::Token { profile_id, .. } => record_account(m) == profile_id,
            AuthModel::Passkey { user_name, .. } => record_account(m) == user_name,
        }),
{
    reveal_strlit("");
    assert(""@.len() == 0);
}

/// A plan fails at the first row whose decision does not fit it, or that would
/// replace an item that is not active.
pub proof fn lemma_plan_fails(
    rows: Seq<RowModel>,
    decisions: Seq<CsvImportDecision>,
    active: Seq<[u8; 16]>,
    n: int,
    later: int,
)
    requires
        0 < n <= later,
        plan_counts(rows, decisions, active, n - 1) is Ok,
    ensures
        choice_of(rows[n - 1], decisions[n - 1]) is None ==> plan_counts(
            rows,
            decisions,
            active,
            later,
        ) == Err::<Counts, _>(HumanCommitError::InvalidInput),
        choice_of(rows[n - 1], decisions[n - 1]) matches Some(RowChoice::Replace(target))
            && !active.contains(target) ==> plan_counts(rows, decisions, active, later) == Err::<
            Counts,
            _,
        >(HumanCommitError::ItemNotFound),
        choice_of(rows[n - 1], decisions[n - 1]) is Some && (choice_of(
            rows[n - 1],
            decisions[n - 1],
        ) matches Some(RowChoice::Replace(target)) ==> active.contains(target)) ==> plan_counts(
            rows,
            decisions,
            active,
            n,
        ) is Ok,
    decreases later - n,
{
    if later > n {
        lemma_plan_fails(rows, decisions, active, n, later - 1);
    }
}

/// The root of an import is signed over the number of its pages and over each
/// page's digest, in their order.
pub proof fn lemma_root(items: int, pages: Seq<[u8; 32]>, more: [u8; 32])
    ensures
        root_bytes(items, Seq::empty()) == encode_utf8("pm/import-object-root/v1"@) + be64(
            pages_of(items) as u64,
        ),
        root_bytes(items, pages.push(more)) == root_bytes(items, pages) + more@,
{
    let all = pages.push(more);
    assert(all.drop_last() =~= pages);
    let head = encode_utf8("pm/import-object-root/v1"@) + be64(pages_of(items) as u64);
    assert(joined(Seq::empty()) =~= Seq::<u8>::empty());
    assert(head + Seq::<u8>::empty() =~= head);
    assert(head + (joined(pages) + more@) =~= head + joined(pages) + more@);
}

/// Decisions are complete where there is one for each row, and for each record.
pub proof fn lemma_decisions(m: PreviewModel, decisions: Seq<CsvImportDecision>)
    ensures
        decisions_complete(m, decisions) ==> decisions.len() == m.rows.len() && decisions.len()
            == m.records.len(),
        decisions.len() == m.rows.len() && decisions.len() == m.records.len() && preserved(
            m.rows,
            m.rows.len() as int,
        ) <= usize::MAX ==> decisions_complete(m, decisions),
{
}

} // verus!

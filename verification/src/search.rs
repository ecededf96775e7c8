//! Search over decrypted records.
use crate::bytes::same_str;
use crate::content::{
    DestinationModel, FieldModel, HumanModel, LogicalRecord, LogicalValue, RecordKind, RecordModel,
    ValueModel,
};
use crate::text::{lower_contains, lowercase, stands_at, text_contains, to_lower};
use crate::views::views;
use vstd::prelude::*;

verus! {

/// Filters evaluated after decrypting complete records.
#[derive(Debug, Default, PartialEq, Eq)]
pub struct SearchQuery {
    pub text: Option<String>,
    pub tag: Option<String>,
    pub favorite: Option<bool>,
}

/// Whether a text holds `term` when its case is ignored.
pub open spec fn holds(s: Seq<char>, term: Seq<char>) -> bool {
    text_contains(lowercase(s), term)
}

/// Whether a destination holds `term`.
pub open spec fn destination_holds(d: DestinationModel, term: Seq<char>) -> bool {
    holds(d.label, term) || holds(d.value, term)
}

/// Whether a custom field holds `term` in its label or its text.
pub open spec fn field_holds(f: FieldModel, term: Seq<char>) -> bool {
    holds(f.label, term) || match f.value {
        ValueModel::Text(s) => holds(s, term),
        ValueModel::Bytes(_) => false,
    }
}

/// Whether anything the owner sees holds `term`.
pub open spec fn human_holds(h: HumanModel, term: Seq<char>) -> bool {
    ||| holds(h.title, term)
    ||| holds(h.notes, term)
    ||| exists|i: int| 0 <= i < h.tags.len() && holds(#[trigger] h.tags[i], term)
    ||| exists|i: int|
        0 <= i < h.destinations.len() && destination_holds(#[trigger] h.destinations[i], term)
    ||| exists|i: int| 0 <= i < h.fields.len() && field_holds(#[trigger] h.fields[i], term)
}

/// Whether what the owner sees of a record passes every filter of a query.
pub open spec fn query_matches(h: HumanModel, query: SearchQuery) -> bool {
    &&& query.favorite is Some ==> h.favorite == query.favorite->0
    &&& query.tag is Some ==> exists|i: int|
        0 <= i < h.tags.len() && #[trigger] h.tags[i] == (query.tag->0)@
    &&& query.text is Some ==> human_holds(h, lowercase((query.text->0)@))
}

impl LogicalRecord {
    /// Whether some tag of the record is `expected`.
    fn has_tag(&self, expected: &str) -> (r: bool)
        ensures
            r == (exists|i: int|
                0 <= i < self@.human.tags.len() && #[trigger] self@.human.tags[i] == expected@),
    {
        let tags = &self.human().tags;
        let ghost v = views(tags@);
        let mut i: usize = 0;
        while i < tags.len()
            invariant
                i <= tags@.len(),
                v == views(tags@),
                v == self@.human.tags,
                forall|j: int| 0 <= j < i ==> #[trigger] v[j] != expected@,
            decreases tags@.len() - i,
        {
            if same_str(&tags[i], expected) {
                assert(v[i as int] == expected@);
                return true;
            }
            i += 1;
        }
        false
    }

    /// Whether some tag of the record holds `term`.
    fn tags_hold(&self, term: &str) -> (r: bool)
        ensures
            r == (exists|i: int|
                0 <= i < self@.human.tags.len() && holds(#[trigger] self@.human.tags[i], term@)),
    {
        let tags = &self.human().tags;
        let ghost v = views(tags@);
        let mut i: usize = 0;
        while i < tags.len()
            invariant
                i <= tags@.len(),
                v == views(tags@),
                v == self@.human.tags,
                forall|j: int| 0 <= j < i ==> !holds(#[trigger] v[j], term@),
            decreases tags@.len() - i,
        {
            if lower_contains(&tags[i], term) {
                assert(holds(v[i as int], term@));
                return true;
            }
            i += 1;
        }
        false
    }

    /// Whether some destination of the record holds `term`.
    fn destinations_hold(&self, term: &str) -> (r: bool)
        ensures
            r == (exists|i: int|
                0 <= i < self@.human.destinations.len() && destination_holds(
                    #[trigger] self@.human.destinations[i],
                    term@,
                )),
    {
        let values = &self.human().destinations;
        let ghost v = views(values@);
        let mut i: usize = 0;
        while i < values.len()
            invariant
                i <= values@.len(),
                v == views(values@),
                v == self@.human.destinations,
                forall|j: int| 0 <= j < i ==> !destination_holds(#[trigger] v[j], term@),
            decreases values@.len() - i,
        {
            if lower_contains(&values[i].label, term) || lower_contains(&values[i].value, term) {
                assert(destination_holds(v[i as int], term@));
                return true;
            }
            i += 1;
        }
        false
    }

    /// Whether some custom field of the record holds `term`.
    fn fields_hold(&self, term: &str) -> (r: bool)
        ensures
            r == (exists|i: int|
                0 <= i < self@.human.fields.len() && field_holds(
                    #[trigger] self@.human.fields[i],
                    term@,
                )),
    {
        let values = &self.human().fields;
        let ghost v = views(values@);
        let mut i: usize = 0;
        while i < values.len()
            invariant
                i <= values@.len(),
                v == views(values@),
                v == self@.human.fields,
                forall|j: int| 0 <= j < i ==> !field_holds(#[trigger] v[j], term@),
            decreases values@.len() - i,
        {
            let found = lower_contains(&values[i].label, term) || match &values[i].value {
                LogicalValue::Text(text) => lower_contains(text, term),
                LogicalValue::Bytes(_) => false,
            };
            assert(found == field_holds(v[i as int], term@));
            if found {
                return true;
            }
            i += 1;
        }
        false
    }

    /// Whether the record passes every filter of a query.
    pub fn matches(&self, query: &SearchQuery) -> (r: bool)
        ensures
            r == query_matches(self@.human, *query),
    {
        if let Some(expected) = query.favorite {
            if self.human().favorite != expected {
                return false;
            }
        }
        if let Some(expected) = &query.tag {
            if !self.has_tag(expected) {
                return false;
            }
        }
        match &query.text {
            None => true,
            Some(expected) => {
                let term = to_lower(expected);
                lower_contains(&self.human().title, &term) || lower_contains(
                    &self.human().notes,
                    &term,
                ) || self.tags_hold(&term) || self.destinations_hold(&term) || self.fields_hold(
                    &term,
                )
            },
        }
    }
}

/// One record that a search found.
#[derive(Debug, PartialEq, Eq)]
pub struct SearchHit {
    item_id: [u8; 16],
    kind: RecordKind,
    title: String,
}

/// The contents of a [`SearchHit`].
pub struct HitModel {
    pub item_id: [u8; 16],
    pub kind: RecordKind,
    pub title: Seq<char>,
}

impl View for SearchHit {
    type V = HitModel;

    closed spec fn view(&self) -> HitModel {
        HitModel { item_id: self.item_id, kind: self.kind, title: self.title@ }
    }
}

/// What a search shows of a record.
pub open spec fn hit_of(item_id: [u8; 16], m: RecordModel) -> HitModel {
    HitModel { item_id, kind: m.kind, title: m.human.title }
}

impl SearchHit {
    /// What a search shows of a record.
    pub fn new(item_id: [u8; 16], record: &LogicalRecord) -> (r: SearchHit)
        ensures
            r@ == hit_of(item_id, record@),
    {
        SearchHit { item_id, kind: record.kind(), title: record.human().title.clone() }
    }

    pub fn item_id(&self) -> (r: &[u8; 16])
        ensures
            *r == self@.item_id,
    {
        &self.item_id
    }

    pub fn kind(&self) -> (r: RecordKind)
        ensures
            r == self@.kind,
    {
        self.kind
    }

    pub fn title(&self) -> (r: &str)
        ensures
            r@ == self@.title,
    {
        self.title.as_str()
    }
}

/// What a search over records shows: those that pass the query, in order.
pub open spec fn hits(records: Seq<([u8; 16], RecordModel)>, query: SearchQuery) -> Seq<HitModel>
    decreases records.len(),
{
    if records.len() == 0 {
        Seq::empty()
    } else {
        let (id, m) = records.last();
        let before = hits(records.drop_last(), query);
        if query_matches(m.human, query) {
            before.push(hit_of(id, m))
        } else {
            before
        }
    }
}

/// Whether one text is a part of another.
pub open spec fn part_of(part: Seq<char>, whole: Seq<char>) -> bool {
    exists|k: int|
        0 <= k <= whole.len() - part.len() && #[trigger] whole.subrange(k, k + part.len()) == part
}

/// Whether a record passes the filters of a query that are not on its texts.
pub open spec fn filters_pass(m: RecordModel, query: SearchQuery) -> bool {
    &&& query.favorite is None || query.favorite == Some(m.human.favorite)
    &&& query.tag is None || m.human.tags.contains((query.tag->0)@)
}

/// A record is found by every text that the owner sees of it, whatever the case
/// of its letters: by its title, its notes, each tag, the label and the address
/// of each destination, and the label and the text of each custom field. `i` is
/// the place of the tag, the destination or the field.
pub proof fn lemma_found_by_text(id: [u8; 16], m: RecordModel, query: SearchQuery, i: int)
    requires
        query.text is Some,
        filters_pass(m, query),
    ensures
        ({
            let term = lowercase((query.text->0)@);
            let found = hits(seq![(id, m)], query) == seq![
                HitModel { item_id: id, kind: m.kind, title: m.human.title },
            ];
            let h = m.human;
            &&& part_of(term, lowercase(h.title)) ==> found
            &&& part_of(term, lowercase(h.notes)) ==> found
            &&& 0 <= i < h.tags.len() && part_of(term, lowercase(h.tags[i])) ==> found
            &&& 0 <= i < h.destinations.len() && part_of(term, lowercase(h.destinations[i].label))
                ==> found
            &&& 0 <= i < h.destinations.len() && part_of(term, lowercase(h.destinations[i].value))
                ==> found
            &&& 0 <= i < h.fields.len() && part_of(term, lowercase(h.fields[i].label)) ==> found
            &&& 0 <= i < h.fields.len() && h.fields[i].value is Text && part_of(
                term,
                lowercase(h.fields[i].value->Text_0),
            ) ==> found
        }),
{
    let term = lowercase((query.text->0)@);
    let h = m.human;
    lemma_part_of(term, lowercase(h.title));
    lemma_part_of(term, lowercase(h.notes));
    if 0 <= i < h.tags.len() {
        lemma_part_of(term, lowercase(h.tags[i]));
    }
    if 0 <= i < h.destinations.len() {
        lemma_part_of(term, lowercase(h.destinations[i].label));
        lemma_part_of(term, lowercase(h.destinations[i].value));
        assert(destination_holds(h.destinations[i], term) || !holds(h.destinations[i].label, term));
    }
    if 0 <= i < h.fields.len() {
        lemma_part_of(term, lowercase(h.fields[i].label));
        if h.fields[i].value is Text {
            lemma_part_of(term, lowercase(h.fields[i].value->Text_0));
        }
        assert(field_holds(h.fields[i], term) || !holds(h.fields[i].label, term));
    }
    lemma_one(id, m, query);
}

/// A search without a text finds every record that passes the other filters.
pub proof fn lemma_found_by_filters(id: [u8; 16], m: RecordModel, query: SearchQuery)
    requires
        query.text is None,
    ensures
        hits(seq![(id, m)], query) == (if filters_pass(m, query) {
            seq![HitModel { item_id: id, kind: m.kind, title: m.human.title }]
        } else {
            Seq::empty()
        }),
{
    lemma_one(id, m, query);
}

/// A record that fails a filter is not found, and neither is one none of whose
/// texts has the text of the query as a part. Bytes that only a machine reads
/// are not searched.
pub proof fn lemma_not_found(id: [u8; 16], m: RecordModel, query: SearchQuery)
    ensures
        !filters_pass(m, query) ==> hits(seq![(id, m)], query).len() == 0,
        ({
            let term = lowercase((query.text->0)@);
            let h = m.human;
            &&& query.text is Some
            &&& !part_of(term, lowercase(h.title))
            &&& !part_of(term, lowercase(h.notes))
            &&& forall|i: int|
                0 <= i < h.tags.len() ==> !part_of(term, lowercase(#[trigger] h.tags[i]))
            &&& forall|i: int|
                0 <= i < h.destinations.len() ==> !part_of(
                    term,
                    lowercase((#[trigger] h.destinations[i]).label),
                ) && !part_of(term, lowercase(h.destinations[i].value))
            &&& forall|i: int|
                0 <= i < h.fields.len() ==> !part_of(
                    term,
                    lowercase((#[trigger] h.fields[i]).label),
                ) && (h.fields[i].value is Text ==> !part_of(
                    term,
                    lowercase(h.fields[i].value->Text_0),
                ))
        }) ==> hits(seq![(id, m)], query).len() == 0,
{
    let term = lowercase((query.text->0)@);
    let h = m.human;
    lemma_one(id, m, query);
    lemma_part_of(term, lowercase(h.title));
    lemma_part_of(term, lowercase(h.notes));
    assert forall|i: int| 0 <= i < h.tags.len() implies holds(#[trigger] h.tags[i], term)
        == part_of(term, lowercase(h.tags[i])) by {
        lemma_part_of(term, lowercase(h.tags[i]));
    }
    assert forall|i: int| 0 <= i < h.destinations.len() implies destination_holds(
        #[trigger] h.destinations[i],
        term,
    ) == (part_of(term, lowercase(h.destinations[i].label)) || part_of(
        term,
        lowercase(h.destinations[i].value),
    )) by {
        lemma_part_of(term, lowercase(h.destinations[i].label));
        lemma_part_of(term, lowercase(h.destinations[i].value));
    }
    assert forall|i: int| 0 <= i < h.fields.len() implies field_holds(#[trigger] h.fields[i], term)
        == (part_of(term, lowercase(h.fields[i].label)) || (h.fields[i].value is Text && part_of(
        term,
        lowercase(h.fields[i].value->Text_0),
    ))) by {
        lemma_part_of(term, lowercase(h.fields[i].label));
        if h.fields[i].value is Text {
            lemma_part_of(term, lowercase(h.fields[i].value->Text_0));
        }
    }
}

/// Each record is searched for itself, and what is found keeps its order.
pub proof fn lemma_hits_in_order(
    a: Seq<([u8; 16], RecordModel)>,
    b: Seq<([u8; 16], RecordModel)>,
    query: SearchQuery,
)
    ensures
        hits(a + b, query) == hits(a, query) + hits(b, query),
        hits(a, query).len() <= a.len(),
    decreases a.len() + b.len(),
{
    if b.len() > 0 {
        lemma_hits_in_order(a, b.drop_last(), query);
        assert((a + b).drop_last() =~= a + b.drop_last());
        assert((a + b).last() == b.last());
        assert(hits(a + b, query) =~= hits(a, query) + hits(b, query));
    } else {
        assert(a + b =~= a);
        assert(hits(a, query) + hits(b, query) =~= hits(a, query));
        if a.len() > 0 {
            lemma_hits_in_order(a.drop_last(), b, query);
        }
    }
}

/// What a search over one record shows.
proof fn lemma_one(id: [u8; 16], m: RecordModel, query: SearchQuery)
    ensures
        hits(seq![(id, m)], query) == (if query_matches(m.human, query) {
            seq![hit_of(id, m)]
        } else {
            Seq::empty()
        }),
        query.favorite is Some ==> (query.favorite == Some(m.human.favorite)) == (m.human.favorite
            == query.favorite->0),
        query.tag is Some ==> (m.human.tags.contains((query.tag->0)@) == (exists|i: int|
            0 <= i < m.human.tags.len() && #[trigger] m.human.tags[i] == (query.tag->0)@)),
{
    reveal_with_fuel(hits, 2);
    assert(seq![(id, m)].drop_last() =~= Seq::<([u8; 16], RecordModel)>::empty());
    assert(hits(seq![(id, m)].drop_last(), query) =~= Seq::<HitModel>::empty());
    assert(Seq::<HitModel>::empty().push(hit_of(id, m)) =~= seq![hit_of(id, m)]);
}

/// A text is found in another where it is a part of it.
proof fn lemma_part_of(part: Seq<char>, whole: Seq<char>)
    ensures
        part_of(part, whole) == text_contains(whole, part),
{
    if part_of(part, whole) {
        let k = choose|k: int|
            0 <= k <= whole.len() - part.len() && #[trigger] whole.subrange(k, k + part.len())
                == part;
        assert(stands_at(whole, part, k)) by {
            assert forall|j: int| 0 <= j < part.len() implies whole[k + j] == part[j] by {
                assert(whole.subrange(k, k + part.len())[j] == whole[k + j]);
            }
            assert(whole.subrange(k, k + part.len()) =~= part);
        }
    }
    if text_contains(whole, part) {
        let k = choose|k: int| #[trigger] stands_at(whole, part, k);
        assert(whole.subrange(k, k + part.len()) =~= part);
    }
}

/// The identified records as their contents.
pub open spec fn record_models(v: Seq<([u8; 16], LogicalRecord)>) -> Seq<([u8; 16], RecordModel)> {
    Seq::new(v.len(), |i: int| (v[i].0, v[i].1@))
}

/// Searches decrypted records without a persistent plaintext index.
pub fn search(records: &Vec<([u8; 16], LogicalRecord)>, query: &SearchQuery) -> (r: Vec<SearchHit>)
    ensures
        views(r@) == hits(record_models(records@), *query),
{
    let ghost all = record_models(records@);
    let mut out: Vec<SearchHit> = Vec::new();
    let mut i: usize = 0;
    assert(views(out@) =~= hits(all.take(0), *query));
    while i < records.len()
        invariant
            i <= records@.len(),
            all == record_models(records@),
            views(out@) == hits(all.take(i as int), *query),
        decreases records@.len() - i,
    {
        let ghost before = out@;
        assert(all.take(i + 1).drop_last() =~= all.take(i as int));
        assert(all.take(i + 1).last() == all[i as int]);
        if records[i].1.matches(query) {
            out.push(SearchHit::new(records[i].0, &records[i].1));
            assert(views(out@) =~= views(before).push(
                hit_of(records@[i as int].0, records@[i as int].1@),
            ));
        }
        i += 1;
    }
    assert(all.take(i as int) =~= all);
    out
}

} // verus!

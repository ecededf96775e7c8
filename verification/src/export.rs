//! What an export is made of: identifiers, organizations, files and the lines
//! of a plaintext export.
use crate::backup::ExportState;
use crate::backup_format::{data_bytes, encode_data, CHUNK, MAX_RECORD};
use crate::bytes::{
    be64, less, lex_less, lemma_lex_irreflexive, lemma_lex_total, lemma_lex_transitive, push_be64,
    same_str,
};
use crate::errors::HumanCommitError;
use crate::ordered::{increasing, same_array, sorted_set};
use crate::views::views;
use vstd::prelude::*;
use vstd::utf8::encode_utf8;

verus! {

/// The first `n` parts of an identifier, each behind its length.
pub open spec fn parts_bytes(parts: Seq<Seq<u8>>, n: nat) -> Seq<u8>
    decreases n,
{
    if n == 0 {
        Seq::empty()
    } else {
        parts_bytes(parts, (n - 1) as nat) + be64(parts[n - 1].len() as u64) + parts[n - 1]
    }
}

/// What the digest of a derived identifier covers.
pub open spec fn id_bytes(domain: Seq<char>, parts: Seq<Seq<u8>>) -> Seq<u8> {
    encode_utf8(domain) + parts_bytes(parts, parts.len())
}

/// What the digest of a derived identifier covers: its domain and its parts.
pub fn derived_id_input(domain: &str, parts: &Vec<&[u8]>) -> (r: Vec<u8>)
    ensures
        r@ == id_bytes(domain@, views(parts@)),
{
    let ghost all = views(parts@);
    let mut out: Vec<u8> = Vec::new();
    out.extend_from_slice(domain.as_bytes());
    let ghost head = encode_utf8(domain@);
    let mut i: usize = 0;
    assert(out@ =~= head + parts_bytes(all, 0));
    while i < parts.len()
        invariant
            i <= parts@.len(),
            all == views(parts@),
            head == encode_utf8(domain@),
            out@ == head + parts_bytes(all, i as nat),
        decreases parts@.len() - i,
    {
        let ghost before = out@;
        let part = parts[i];
        assert(part@ == all[i as int]);
        push_be64(&mut out, part.len() as u64);
        out.extend_from_slice(part);
        assert(out@ =~= head + parts_bytes(all, (i + 1) as nat));
        i += 1;
    }
    out
}

/// What the record identifier of the key of a device is derived from. The first
/// generation is recorded under the identifier of the device itself; each later
/// one needs its own.
pub fn device_identity_input(device: &[u8; 16], generation: u64) -> (r: Option<Vec<u8>>)
    ensures
        match r {
            Some(input) => generation != 1 && input@ == id_bytes(
                "pm/backup-device-identity/v1"@,
                seq![device@, be64(generation)],
            ),
            None => generation == 1,
        },
{
    if generation == 1 {
        return None;
    }
    let mut number: Vec<u8> = Vec::new();
    push_be64(&mut number, generation);
    let mut parts: Vec<&[u8]> = Vec::new();
    parts.push(device.as_slice());
    parts.push(number.as_slice());
    assert(number@ =~= be64(generation));
    assert(views(parts@) =~= seq![device@, be64(generation)]);
    Some(derived_id_input("pm/backup-device-identity/v1", &parts))
}

/// The identifier that a digest begins with.
pub fn digest_id(digest: &[u8; 32]) -> (r: [u8; 16])
    ensures
        r@ == digest@.take(16),
{
    let mut id: [u8; 16] = [0u8; 16];
    let mut i: usize = 0;
    while i < 16
        invariant
            i <= 16,
            forall|j: int| 0 <= j < i ==> id@[j] == digest@[j],
        decreases 16 - i,
    {
        id[i] = digest[i];
        i += 1;
    }
    assert(id@ =~= digest@.take(16));
    id
}

/// A row that is written under an identifier.
pub struct IdRow<V> {
    pub id: [u8; 16],
    pub value: V,
}

/// Whether rows stand in the order of their identifiers.
pub open spec fn in_order<V>(rows: Seq<IdRow<V>>) -> bool {
    forall|i: int, j: int|
        #![trigger rows[i], rows[j]]
        0 <= i < j < rows.len() ==> !lex_less(rows[j].id@, rows[i].id@)
}

/// Inserts a row behind those whose identifiers are not greater.
fn insert_row<V>(rows: &mut Vec<IdRow<V>>, row: IdRow<V>)
    requires
        in_order(old(rows)@),
    ensures
        in_order(final(rows)@),
        final(rows)@.to_multiset() == old(rows)@.to_multiset().insert(row),
{
    let mut k: usize = rows.len();
    let ghost before = rows@;
    while k > 0 && less(row.id.as_slice(), rows[k - 1].id.as_slice())
        invariant
            k <= rows@.len(),
            rows@ == before,
            in_order(before),
            forall|j: int| k <= j < before.len() ==> lex_less(row.id@, (#[trigger] before[j]).id@),
        decreases k,
    {
        k -= 1;
    }
    rows.insert(k, row);
    proof {
        let after = rows@;
        assert(after == before.insert(k as int, row));
        vstd::seq_lib::to_multiset_insert(before, k as int, row);
        assert forall|i: int, j: int|
            #![trigger after[i], after[j]]
            0 <= i < j < after.len() implies !lex_less(after[j].id@, after[i].id@) by {
            if i < k && j > k {
                assert(after[i] == before[i] && after[j] == before[j - 1]);
            } else if i < k && j == k {
                let last = before[k - 1];
                assert(!lex_less(row.id@, last.id@));
                assert(after[i] == before[i]);
                if i < k - 1 {
                    assert(!lex_less(before[k - 1].id@, before[i].id@));
                    lemma_not_less(before[i].id@, last.id@, row.id@);
                }
            } else if i == k {
                assert(after[j] == before[j - 1]);
                lemma_asymmetric(row.id@, before[j - 1].id@);
            } else if i > k {
                assert(after[i] == before[i - 1] && after[j] == before[j - 1]);
            } else {
                assert(after[i] == before[i] && after[j] == before[j]);
            }
        }
    }
}

/// What is not less than something that is not less than a third is not less
/// than that.
proof fn lemma_not_less(a: Seq<u8>, b: Seq<u8>, c: Seq<u8>)
    requires
        !lex_less(b, a),
        !lex_less(c, b),
    ensures
        !lex_less(c, a),
{
    if lex_less(c, a) {
        crate::bytes::lemma_lex_total(a, b);
        if a == b {
        } else {
            lemma_lex_transitive(c, a, b);
        }
    }
}

/// Of two byte strings one at most is less than the other.
proof fn lemma_asymmetric(a: Seq<u8>, b: Seq<u8>)
    requires
        lex_less(a, b),
    ensures
        !lex_less(b, a),
{
    if lex_less(b, a) {
        lemma_lex_transitive(a, b, a);
        lemma_lex_irreflexive(a);
    }
}

/// Whether rows stand in the order of their identifiers, none of which occurs
/// twice.
pub open spec fn in_strict_order<V>(rows: Seq<IdRow<V>>) -> bool {
    forall|i: int, j: int|
        #![trigger rows[i], rows[j]]
        0 <= i < j < rows.len() ==> lex_less(rows[i].id@, rows[j].id@)
}

/// Rows with different identifiers stand in strict order when they are sorted.
pub(crate) proof fn lemma_strict_order<V>(loose: Seq<IdRow<V>>, sorted: Seq<IdRow<V>>)
    requires
        in_order(sorted),
        sorted.to_multiset() == loose.to_multiset(),
        forall|i: int, j: int|
            #![trigger loose[i], loose[j]]
            0 <= i < j < loose.len() ==> loose[i].id@ != loose[j].id@,
    ensures
        in_strict_order(sorted),
{
    assert(loose.no_duplicates());
    loose.lemma_multiset_has_no_duplicates();
    sorted.lemma_multiset_has_no_duplicates_conv();
    assert forall|i: int, j: int|
        #![trigger sorted[i], sorted[j]]
        0 <= i < j < sorted.len() implies lex_less(sorted[i].id@, sorted[j].id@) by {
        vstd::seq_lib::to_multiset_contains(sorted, sorted[i]);
        vstd::seq_lib::to_multiset_contains(loose, sorted[i]);
        vstd::seq_lib::to_multiset_contains(sorted, sorted[j]);
        vstd::seq_lib::to_multiset_contains(loose, sorted[j]);
        assert(sorted.contains(sorted[i]) && sorted.contains(sorted[j]));
        let a = choose|a: int| 0 <= a < loose.len() && loose[a] == sorted[i];
        let b = choose|b: int| 0 <= b < loose.len() && loose[b] == sorted[j];
        assert(sorted[i] != sorted[j]);
        assert(loose[a].id@ != loose[b].id@);
        lemma_lex_total(sorted[i].id@, sorted[j].id@);
    }
}

/// Puts rows into the order of their identifiers.
pub fn sort_by_id<V>(rows: Vec<IdRow<V>>) -> (r: Vec<IdRow<V>>)
    ensures
        in_order(r@),
        r@.to_multiset() == rows@.to_multiset(),
{
    let ghost all = rows@;
    let mut left = rows;
    let mut out: Vec<IdRow<V>> = Vec::new();
    proof {
        vstd::seq_lib::lemma_multiset_commutative(left@, out@);
        assert(left@ + out@ =~= all);
        Seq::<IdRow<V>>::empty().to_multiset_ensures();
        assert(left@.to_multiset().add(out@.to_multiset()) =~= all.to_multiset());
    }
    while left.len() > 0
        invariant
            in_order(out@),
            left@.to_multiset().add(out@.to_multiset()) == all.to_multiset(),
        decreases left@.len(),
    {
        let ghost before = left@;
        let ghost done = out@;
        match left.pop() {
            Some(row) => {
                insert_row(&mut out, row);
                proof {
                    assert(before =~= left@.push(row));
                    left@.to_multiset_ensures();
                    vstd::seq_lib::to_multiset_build(left@, row);
                    assert(left@.to_multiset().add(out@.to_multiset()) =~= before.to_multiset().add(
                        done.to_multiset(),
                    ));
                }
            },
            None => {},
        }
    }
    proof {
        assert(left@ =~= Seq::empty());
        left@.to_multiset_ensures();
        assert(out@.to_multiset() =~= all.to_multiset());
    }
    out
}

/// An item and its tags.
pub struct TaggedItem {
    pub item: [u8; 16],
    pub tags: Vec<String>,
}

/// Whether an item of some rows has a tag.
pub open spec fn tagged(rows: Seq<TaggedItem>, name: Seq<char>, item: [u8; 16]) -> bool {
    exists|i: int, j: int|
        0 <= i < rows.len() && 0 <= j < rows[i].tags@.len()
            && (#[trigger] rows[i].tags@[j])@ == name
            && rows[i].item == item
}

/// A tag and the items that have it.
pub struct Organization {
    pub name: String,
    pub items: Vec<[u8; 16]>,
}

/// Whether some items of the rows with a tag have been gathered: those of the
/// first `i` rows and the first `j` tags of the next one.
spec fn gathered(rows: Seq<TaggedItem>, i: int, j: int, name: Seq<char>, item: [u8; 16]) -> bool {
    exists|a: int, b: int|
        0 <= a < rows.len() && 0 <= b < rows[a].tags@.len() && (a < i || (a == i && b < j)) && (
        #[trigger] rows[a].tags@[b])@ == name && rows[a].item == item
}

/// Whether the groups hold what has been gathered.
spec fn groups_hold(
    groups: Seq<Organization>,
    rows: Seq<TaggedItem>,
    i: int,
    j: int,
) -> bool {
    &&& forall|g: int, h: int|
        #![trigger groups[g], groups[h]]
        0 <= g < h < groups.len() ==> groups[g].name@ != groups[h].name@
    &&& forall|g: int, item: [u8; 16]|
        #![trigger groups[g].items@.contains(item)]
        0 <= g < groups.len() ==> (groups[g].items@.contains(item) <==> gathered(
            rows,
            i,
            j,
            groups[g].name@,
            item,
        ))
    &&& forall|name: Seq<char>, item: [u8; 16]| #[trigger]
        gathered(rows, i, j, name, item) ==> has_group(groups, name)
    &&& forall|g: int| 0 <= g < groups.len() ==> (#[trigger] groups[g]).items@.len() > 0
}

/// Whether there is a group of a name.
spec fn has_group(groups: Seq<Organization>, name: Seq<char>) -> bool {
    exists|g: int| 0 <= g < groups.len() && (#[trigger] groups[g]).name@ == name
}

/// Adds an item to the group of a tag.
fn gather(groups: &mut Vec<Organization>, name: &String, item: [u8; 16])
    requires
        forall|g: int, h: int|
            #![trigger old(groups)@[g], old(groups)@[h]]
            0 <= g < h < old(groups)@.len() ==> old(groups)@[g].name@ != old(groups)@[h].name@,
    ensures
        forall|g: int, h: int|
            #![trigger final(groups)@[g], final(groups)@[h]]
            0 <= g < h < final(groups)@.len() ==> final(groups)@[g].name@
                != final(groups)@[h].name@,
        has_group(final(groups)@, name@),
        old(groups)@.len() <= final(groups)@.len(),
        forall|g: int|
            #![trigger final(groups)@[g]]
            0 <= g < old(groups)@.len() ==> final(groups)@[g].name@ == old(groups)@[g].name@,
        forall|g: int, x: [u8; 16]|
            #![trigger final(groups)@[g].items@.contains(x)]
            0 <= g < old(groups)@.len() ==> (final(groups)@[g].items@.contains(x) <==> (
            old(groups)@[g].items@.contains(x) || (x == item && old(groups)@[g].name@ == name@))),
        forall|g: int, x: [u8; 16]|
            #![trigger final(groups)@[g].items@.contains(x)]
            old(groups)@.len() <= g < final(groups)@.len() ==> (final(groups)@[g].items@.contains(x)
                <==> x == item),
        forall|g: int|
            #![trigger final(groups)@[g]]
            old(groups)@.len() <= g < final(groups)@.len() ==> final(groups)@[g].name@ == name@
                && !has_group(old(groups)@, name@) && final(groups)@[g].items@.len() > 0,
        forall|g: int|
            #![trigger final(groups)@[g]]
            0 <= g < old(groups)@.len() ==> final(groups)@[g].items@.len()
                >= old(groups)@[g].items@.len(),
{
    let ghost before = groups@;
    let mut g: usize = 0;
    while g < groups.len() && !same_str(groups[g].name.as_str(), name.as_str())
        invariant
            g <= groups@.len(),
            groups@ == before,
            forall|h: int| 0 <= h < g ==> (#[trigger] before[h]).name@ != name@,
        decreases groups@.len() - g,
    {
        g += 1;
    }
    if g < groups.len() {
        let mut group = Organization { name: name.as_str().to_owned(), items: Vec::new() };
        groups.set_and_swap(g, &mut group);
        let ghost items = group.items@;
        group.items.push(item);
        let ghost pushed = group.items@;
        groups.set(g, group);
        proof {
            assert(pushed == items.push(item));
            assert(items == before[g as int].items@);
            assert forall|x: [u8; 16]| pushed.contains(x) <==> (items.contains(x) || x == item) by {
                if items.contains(x) {
                    let k = choose|k: int| 0 <= k < items.len() && items[k] == x;
                    assert(pushed[k] == x);
                }
                if x == item {
                    assert(pushed[items.len() as int] == x);
                }
            }
            assert(groups@[g as int].name@ == name@);
            assert forall|h: int| 0 <= h < before.len() && h != g implies #[trigger] groups@[h]
                == before[h] by {}
            assert forall|a: int, b: int|
                #![trigger groups@[a], groups@[b]]
                0 <= a < b < groups@.len() implies groups@[a].name@ != groups@[b].name@ by {
                assert(before[a].name@ != before[b].name@);
            }
            assert forall|h: int, x: [u8; 16]|
                #![trigger groups@[h].items@.contains(x)]
                0 <= h < before.len() implies (groups@[h].items@.contains(x) <==> (
            before[h].items@.contains(x) || (x == item && before[h].name@ == name@))) by {
                if h != g {
                    if h < g {
                        assert(before[h].name@ != before[g as int].name@);
                    } else {
                        assert(before[g as int].name@ != before[h].name@);
                    }
                }
            }
        }
    } else {
        let mut items: Vec<[u8; 16]> = Vec::new();
        items.push(item);
        assert(forall|x: [u8; 16]| items@.contains(x) <==> x == item) by {
            assert(items@[0] == item);
        }
        groups.push(Organization { name: name.as_str().to_owned(), items });
        proof {
            assert(!has_group(before, name@));
            assert(groups@[before.len() as int].name@ == name@);
            assert forall|h: int| 0 <= h < before.len() implies #[trigger] groups@[h]
                == before[h] by {}
            assert forall|a: int, b: int|
                #![trigger groups@[a], groups@[b]]
                0 <= a < b < groups@.len() implies groups@[a].name@ != groups@[b].name@ by {
                if b < before.len() {
                    assert(before[a].name@ != before[b].name@);
                } else {
                    assert(before[a].name@ != name@);
                }
            }
        }
    }
}

/// The tags of some items: every tag once, with the items that have it, each
/// once and in order.
pub fn organizations(rows: &Vec<TaggedItem>) -> (r: Vec<Organization>)
    ensures
        forall|g: int, h: int|
            #![trigger r@[g], r@[h]]
            0 <= g < h < r@.len() ==> r@[g].name@ != r@[h].name@,
        forall|g: int, item: [u8; 16]|
            #![trigger r@[g].items@.contains(item)]
            0 <= g < r@.len() ==> (r@[g].items@.contains(item) <==> tagged(
                rows@,
                r@[g].name@,
                item,
            )),
        forall|g: int|
            #![trigger r@[g]]
            0 <= g < r@.len() ==> increasing(r@[g].items@) && r@[g].items@.len() > 0,
        forall|name: Seq<char>, item: [u8; 16]| #[trigger]
            tagged(rows@, name, item) ==> exists|g: int|
                0 <= g < r@.len() && (#[trigger] r@[g]).name@ == name,
{
    let mut groups: Vec<Organization> = Vec::new();
    let mut i: usize = 0;
    while i < rows.len()
        invariant
            i <= rows@.len(),
            groups_hold(groups@, rows@, i as int, 0),
        decreases rows@.len() - i,
    {
        let row = &rows[i];
        let mut j: usize = 0;
        while j < row.tags.len()
            invariant
                i < rows@.len(),
                *row == rows@[i as int],
                j <= row.tags@.len(),
                groups_hold(groups@, rows@, i as int, j as int),
            decreases row.tags@.len() - j,
        {
            let ghost before = groups@;
            gather(&mut groups, &row.tags[j], row.item);
            proof {
                lemma_gathered(before, groups@, rows@, i as int, j as int);
            }
            j += 1;
        }
        proof {
            lemma_row_done(groups@, rows@, i as int);
        }
        i += 1;
    }
    proof {
        assert forall|name: Seq<char>, item: [u8; 16]| #[trigger]
            gathered(rows@, i as int, 0, name, item) == tagged(rows@, name, item) by {
            lemma_all_rows(rows@, name, item);
        }
    }
    let ghost loose = groups@;
    let mut k: usize = 0;
    while k < groups.len()
        invariant
            k <= groups@.len(),
            groups@.len() == loose.len(),
            forall|g: int| 0 <= g < loose.len() ==> (#[trigger] groups@[g]).name == loose[g].name,
            forall|g: int, item: [u8; 16]|
                #![trigger groups@[g].items@.contains(item)]
                0 <= g < loose.len() ==> (groups@[g].items@.contains(item)
                    <==> loose[g].items@.contains(item)),
            forall|g: int| 0 <= g < k ==> increasing((#[trigger] groups@[g]).items@),
        decreases groups@.len() - k,
    {
        let ghost at = groups@;
        let mut group = Organization { name: "".to_owned(), items: Vec::new() };
        groups.set_and_swap(k, &mut group);
        let items = sorted_set(&group.items);
        groups.set(k, Organization { name: group.name, items });
        assert forall|g: int, item: [u8; 16]|
            #![trigger groups@[g].items@.contains(item)]
            0 <= g < loose.len() implies (groups@[g].items@.contains(item)
            <==> loose[g].items@.contains(item)) by {
            assert(at[g].items@.contains(item) <==> loose[g].items@.contains(item));
        }
        k += 1;
    }
    proof {
        assert forall|g: int, h: int|
            #![trigger groups@[g], groups@[h]]
            0 <= g < h < groups@.len() implies groups@[g].name@ != groups@[h].name@ by {
            assert(loose[g].name@ != loose[h].name@);
        }
        assert forall|g: int|
            #![trigger groups@[g]]
            0 <= g < groups@.len() implies increasing(groups@[g].items@) && groups@[g].items@.len()
            > 0 by {
            let x = loose[g].items@[0];
            assert(loose[g].items@.contains(x));
            assert(groups@[g].items@.contains(x));
        }
        assert forall|g: int, item: [u8; 16]|
            #![trigger groups@[g].items@.contains(item)]
            0 <= g < groups@.len() implies (groups@[g].items@.contains(item) <==> tagged(
            rows@,
            groups@[g].name@,
            item,
        )) by {
            assert(loose[g].items@.contains(item) <==> gathered(
                rows@,
                i as int,
                0,
                loose[g].name@,
                item,
            ));
        }
        assert forall|name: Seq<char>, item: [u8; 16]| #[trigger]
            tagged(rows@, name, item) implies exists|g: int|
            0 <= g < groups@.len() && (#[trigger] groups@[g]).name@ == name by {
            assert(gathered(rows@, i as int, 0, name, item));
            let g = choose|g: int| 0 <= g < loose.len() && (#[trigger] loose[g]).name@ == name;
            assert(groups@[g].name@ == name);
        }
    }
    groups
}

/// Gathering one more tag.
proof fn lemma_gathered(
    before: Seq<Organization>,
    after: Seq<Organization>,
    rows: Seq<TaggedItem>,
    i: int,
    j: int,
)
    requires
        0 <= i < rows.len(),
        0 <= j < rows[i].tags@.len(),
        groups_hold(before, rows, i, j),
        forall|g: int, h: int|
            #![trigger after[g], after[h]]
            0 <= g < h < after.len() ==> after[g].name@ != after[h].name@,
        has_group(after, rows[i].tags@[j]@),
        before.len() <= after.len(),
        forall|g: int|
            #![trigger after[g]]
            0 <= g < before.len() ==> after[g].name@ == before[g].name@,
        forall|g: int, x: [u8; 16]|
            #![trigger after[g].items@.contains(x)]
            0 <= g < before.len()
                ==> (after[g].items@.contains(x) <==> (before[g].items@.contains(x)
                || (x == rows[i].item && before[g].name@ == rows[i].tags@[j]@))),
        forall|g: int, x: [u8; 16]|
            #![trigger after[g].items@.contains(x)]
            before.len() <= g < after.len() ==> (after[g].items@.contains(x) <==> x
                == rows[i].item),
        forall|g: int|
            #![trigger after[g]]
            before.len() <= g < after.len() ==> after[g].name@ == rows[i].tags@[j]@ && !has_group(
                before,
                rows[i].tags@[j]@,
            ) && after[g].items@.len() > 0,
        forall|g: int|
            #![trigger after[g]]
            0 <= g < before.len() ==> after[g].items@.len() >= before[g].items@.len(),
    ensures
        groups_hold(after, rows, i, j + 1),
{
    let tag = rows[i].tags@[j]@;
    let own = rows[i].item;
    assert forall|name: Seq<char>, item: [u8; 16]| #[trigger]
        gathered(rows, i, j + 1, name, item) == (gathered(rows, i, j, name, item) || (name == tag
            && item == own)) by {
        if gathered(rows, i, j, name, item) {
            let (a, b) = choose|a: int, b: int|
                0 <= a < rows.len() && 0 <= b < rows[a].tags@.len() && (a < i || (a == i && b < j))
                    && (#[trigger] rows[a].tags@[b])@ == name && rows[a].item == item;
            assert(rows[a].tags@[b]@ == name);
        }
        if name == tag && item == own {
            assert(rows[i].tags@[j]@ == name);
        }
        if gathered(rows, i, j + 1, name, item) {
            let (a, b) = choose|a: int, b: int|
                0 <= a < rows.len() && 0 <= b < rows[a].tags@.len() && (a < i || (a == i && b < j
                    + 1)) && (#[trigger] rows[a].tags@[b])@ == name && rows[a].item == item;
            if !(a == i && b == j) {
                assert(rows[a].tags@[b]@ == name);
            }
        }
    }
    assert forall|g: int, item: [u8; 16]|
        #![trigger after[g].items@.contains(item)]
        0 <= g < after.len() implies (after[g].items@.contains(item) <==> gathered(
        rows,
        i,
        j + 1,
        after[g].name@,
        item,
    )) by {
        if g < before.len() {
            assert(after[g].name@ == before[g].name@);
            assert(before[g].items@.contains(item) <==> gathered(
                rows,
                i,
                j,
                before[g].name@,
                item,
            ));
        } else {
            if gathered(rows, i, j, tag, item) {
                assert(has_group(before, tag));
            }
        }
        assert(gathered(rows, i, j + 1, after[g].name@, item) == (gathered(
            rows,
            i,
            j,
            after[g].name@,
            item,
        ) || (after[g].name@ == tag && item == own)));
    }
    assert forall|name: Seq<char>, item: [u8; 16]| #[trigger]
        gathered(rows, i, j + 1, name, item) implies has_group(after, name) by {
        if gathered(rows, i, j, name, item) {
            assert(has_group(before, name));
            let g = choose|g: int| 0 <= g < before.len() && (#[trigger] before[g]).name@ == name;
            assert(after[g].name@ == name);
        }
    }
    assert forall|g: int| 0 <= g < after.len() implies (#[trigger] after[g]).items@.len() > 0 by {
        if g < before.len() {
            assert(before[g].items@.len() > 0);
        }
    }
}

/// All tags of a row are those before the next row.
proof fn lemma_next_row(rows: Seq<TaggedItem>, i: int, name: Seq<char>, item: [u8; 16])
    requires
        0 <= i < rows.len(),
    ensures
        gathered(rows, i, rows[i].tags@.len() as int, name, item) == gathered(
            rows,
            i + 1,
            0,
            name,
            item,
        ),
{
    let n = rows[i].tags@.len() as int;
    if gathered(rows, i, n, name, item) {
        let (a, b) = choose|a: int, b: int|
            0 <= a < rows.len() && 0 <= b < rows[a].tags@.len() && (a < i || (a == i && b < n)) && (
            #[trigger] rows[a].tags@[b])@ == name && rows[a].item == item;
        assert(rows[a].tags@[b]@ == name);
    }
    if gathered(rows, i + 1, 0, name, item) {
        let (a, b) = choose|a: int, b: int|
            0 <= a < rows.len() && 0 <= b < rows[a].tags@.len() && (a < i + 1 || (a == i + 1 && b
                < 0)) && (#[trigger] rows[a].tags@[b])@ == name && rows[a].item == item;
        assert(rows[a].tags@[b]@ == name);
    }
}

/// What holds behind a row holds before the next one.
proof fn lemma_row_done(groups: Seq<Organization>, rows: Seq<TaggedItem>, i: int)
    requires
        0 <= i < rows.len(),
        groups_hold(groups, rows, i, rows[i].tags@.len() as int),
    ensures
        groups_hold(groups, rows, i + 1, 0),
{
    let n = rows[i].tags@.len() as int;
    assert forall|g: int, item: [u8; 16]|
        #![trigger groups[g].items@.contains(item)]
        0 <= g < groups.len() implies (groups[g].items@.contains(item) <==> gathered(
        rows,
        i + 1,
        0,
        groups[g].name@,
        item,
    )) by {
        lemma_next_row(rows, i, groups[g].name@, item);
    }
    assert forall|name: Seq<char>, item: [u8; 16]| #[trigger]
        gathered(rows, i + 1, 0, name, item) implies has_group(groups, name) by {
        lemma_next_row(rows, i, name, item);
        assert(gathered(rows, i, n, name, item));
    }
}

/// What all rows gather is what is tagged.
proof fn lemma_all_rows(rows: Seq<TaggedItem>, name: Seq<char>, item: [u8; 16])
    ensures
        gathered(rows, rows.len() as int, 0, name, item) == tagged(rows, name, item),
{
    if tagged(rows, name, item) {
        let (a, b) = choose|a: int, b: int|
            0 <= a < rows.len() && 0 <= b < rows[a].tags@.len() && (#[trigger] rows[a].tags@[b])@
                == name && rows[a].item == item;
        assert(rows[a].tags@[b]@ == name);
    }
    if gathered(rows, rows.len() as int, 0, name, item) {
        let (a, b) = choose|a: int, b: int|
            0 <= a < rows.len() && 0 <= b < rows[a].tags@.len() && (a < rows.len() as int || (a
                == rows.len() as int && b < 0)) && (#[trigger] rows[a].tags@[b])@ == name
                && rows[a].item == item;
        assert(rows[a].tags@[b]@ == name);
    }
}

/// Checks that an opened revision is the stored one and that its item exists.
pub fn check_exported(
    opened: (&[u8; 16], &[u8; 16]),
    stored: (&[u8; 16], &[u8; 16]),
    kind_matches: bool,
    item_exists: bool,
) -> (r: Result<(), HumanCommitError>)
    ensures
        r == (if *opened.0 == *stored.0 && *opened.1 == *stored.1 && kind_matches && item_exists {
            Ok::<(), HumanCommitError>(())
        } else {
            Err(HumanCommitError::Integrity)
        }),
{
    if same_array(opened.0, stored.0) && same_array(opened.1, stored.1) && kind_matches
        && item_exists {
        Ok(())
    } else {
        Err(HumanCommitError::Integrity)
    }
}

/// How many chunks a stored file is exported in: it is stored either whole,
/// `inline` being the length of its plaintext, or as a stream of so many chunks.
pub fn stored_chunks(inline: Option<usize>, stream: Option<i64>) -> (r: Result<
    u64,
    HumanCommitError,
>)
    ensures
        match (inline, stream) {
            (Some(n), None) => r is Ok && r->Ok_0 == (if n <= 1 {
                1
            } else {
                (n + CHUNK - 1) / (CHUNK as int)
            }),
            (None, Some(n)) => if n > 0 {
                r is Ok && r->Ok_0 == n
            } else {
                r is Err && r->Err_0 is Integrity
            },
            _ => r is Err && r->Err_0 is Integrity,
        },
{
    match (inline, stream) {
        (Some(n), None) => if n <= 1 {
            Ok(1)
        } else {
            Ok(((n - 1) / CHUNK + 1) as u64)
        },
        (None, Some(n)) => if n > 0 {
            Ok(n as u64)
        } else {
            Err(HumanCommitError::Integrity)
        },
        _ => Err(HumanCommitError::Integrity),
    }
}

/// The export of a file, chunk by chunk.
pub struct FileExport {
    pub index: u64,
    pub total: u64,
}

impl FileExport {
    /// Nothing yet.
    pub fn new() -> (r: FileExport)
        ensures
            r.index == 0,
            r.total == 0,
    {
        FileExport { index: 0, total: 0 }
    }

    /// Checks that a stored chunk is the next one, and tells whether it is the
    /// last of so many.
    pub fn expect(&self, stored: i64, count: i64) -> (r: Result<bool, HumanCommitError>)
        ensures
            if stored == self.index {
                r is Ok && r->Ok_0 == (stored + 1 == count)
            } else {
                r is Err && r->Err_0 is Integrity
            },
    {
        if stored < 0 || stored as u64 != self.index {
            return Err(HumanCommitError::Integrity);
        }
        Ok(stored < 0x7fff_ffff_ffff_ffff && stored + 1 == count)
    }

    /// Adds a chunk.
    pub fn add_chunk(&mut self, length: usize) -> (r: Result<(), HumanCommitError>)
        ensures
            if length <= CHUNK && old(self).total + length <= u64::MAX && old(self).index
                < u64::MAX {
                r is Ok && final(self).total == old(self).total + length && final(self).index
                    == old(self).index + 1
            } else {
                r is Err && r->Err_0 is InvalidInput && *final(self) == *old(self)
            },
    {
        if length > CHUNK || self.index == u64::MAX {
            return Err(HumanCommitError::InvalidInput);
        }
        match self.total.checked_add(length as u64) {
            Some(total) => {
                self.total = total;
                self.index = self.index + 1;
                Ok(())
            },
            None => Err(HumanCommitError::InvalidInput),
        }
    }

    /// Checks that the whole file was exported: so many chunks, that size and
    /// that digest.
    pub fn finish(&self, chunks: u64, size: u64, sha256: &[u8; 32],
        digest: &[u8; 32]) -> (r: Result<
        u64,
        HumanCommitError,
    >)
        ensures
            if self.index == chunks && self.total == size && *digest == *sha256 {
                r is Ok && r->Ok_0 == self.total
            } else {
                r is Err && r->Err_0 is Integrity
            },
    {
        if self.index == chunks && self.total == size && same_array(digest, sha256) {
            Ok(self.total)
        } else {
            Err(HumanCommitError::Integrity)
        }
    }
}

/// A hexadecimal digit.
pub open spec fn hex_digit(n: u8) -> u8 {
    if n < 10 {
        (0x30 + n) as u8
    } else {
        (0x57 + n) as u8
    }
}

/// Bytes as hexadecimal digits.
pub open spec fn hex_bytes(b: Seq<u8>) -> Seq<u8>
    decreases b.len(),
{
    if b.len() == 0 {
        Seq::empty()
    } else {
        hex_bytes(b.drop_last()) + seq![hex_digit(b.last() / 16), hex_digit(b.last() % 16)]
    }
}

/// A hexadecimal digit.
fn digit(n: u8) -> (r: u8)
    requires
        n < 16,
    ensures
        r == hex_digit(n),
{
    if n < 10 {
        0x30 + n
    } else {
        0x57 + n
    }
}

/// Appends bytes as hexadecimal digits.
pub fn push_hex(out: &mut Vec<u8>, bytes: &[u8])
    ensures
        final(out)@ == old(out)@ + hex_bytes(bytes@),
{
    let ghost start = out@;
    let mut i: usize = 0;
    assert(bytes@.take(0) =~= Seq::empty());
    assert(out@ =~= start + hex_bytes(bytes@.take(0)));
    while i < bytes.len()
        invariant
            i <= bytes@.len(),
            out@ == start + hex_bytes(bytes@.take(i as int)),
        decreases bytes@.len() - i,
    {
        assert(bytes@.take(i + 1).drop_last() =~= bytes@.take(i as int));
        out.push(digit(bytes[i] / 16));
        out.push(digit(bytes[i] % 16));
        assert(out@ =~= start + hex_bytes(bytes@.take(i + 1)));
        i += 1;
    }
    assert(bytes@.take(i as int) =~= bytes@);
}

/// A digit of base sixty-four.
pub open spec fn base64_digit(n: int) -> u8 {
    if n < 26 {
        (0x41 + n) as u8
    } else if n < 52 {
        (0x61 + n - 26) as u8
    } else if n < 62 {
        (0x30 + n - 52) as u8
    } else if n == 62 {
        0x2b
    } else {
        0x2f
    }
}

/// Bytes in base sixty-four, padded to groups of four digits.
pub open spec fn base64_bytes(b: Seq<u8>) -> Seq<u8>
    decreases b.len(),
{
    if b.len() == 0 {
        Seq::empty()
    } else if b.len() == 1 {
        seq![
            base64_digit(b[0] as int / 4),
            base64_digit(b[0] as int % 4 * 16),
            0x3d,
            0x3d,
        ]
    } else if b.len() == 2 {
        seq![
            base64_digit(b[0] as int / 4),
            base64_digit(b[0] as int % 4 * 16 + b[1] as int / 16),
            base64_digit(b[1] as int % 16 * 4),
            0x3d,
        ]
    } else {
        seq![
            base64_digit(b[0] as int / 4),
            base64_digit(b[0] as int % 4 * 16 + b[1] as int / 16),
            base64_digit(b[1] as int % 16 * 4 + b[2] as int / 64),
            base64_digit(b[2] as int % 64),
        ] + base64_bytes(b.skip(3))
    }
}

/// A digit of base sixty-four.
fn digit64(n: u8) -> (r: u8)
    requires
        n < 64,
    ensures
        r == base64_digit(n as int),
{
    if n < 26 {
        0x41 + n
    } else if n < 52 {
        0x61 + (n - 26)
    } else if n < 62 {
        0x30 + (n - 52)
    } else if n == 62 {
        0x2b
    } else {
        0x2f
    }
}

/// Appends bytes in base sixty-four.
pub fn push_base64(out: &mut Vec<u8>, bytes: &[u8])
    ensures
        final(out)@ == old(out)@ + base64_bytes(bytes@),
{
    let ghost start = out@;
    let ghost whole = base64_bytes(bytes@);
    let mut i: usize = 0;
    assert(bytes@.skip(0) =~= bytes@);
    while bytes.len() - i >= 3
        invariant
            i <= bytes@.len(),
            whole == base64_bytes(bytes@),
            out@ + base64_bytes(bytes@.skip(i as int)) == start + whole,
        decreases bytes@.len() - i,
    {
        let (a, b, c): (u8, u8, u8) = (bytes[i], bytes[i + 1], bytes[i + 2]);
        let ghost rest = bytes@.skip(i as int);
        let ghost before = out@;
        assert(rest.skip(3) =~= bytes@.skip(i + 3));
        out.push(digit64(a / 4));
        out.push(digit64(a % 4 * 16 + b / 16));
        out.push(digit64(b % 16 * 4 + c / 64));
        out.push(digit64(c % 64));
        assert(out@ + base64_bytes(rest.skip(3)) =~= before + base64_bytes(rest));
        i += 3;
    }
    let ghost rest = bytes@.skip(i as int);
    let ghost before = out@;
    if bytes.len() - i == 1 {
        let a: u8 = bytes[i];
        out.push(digit64(a / 4));
        out.push(digit64(a % 4 * 16));
        out.push(0x3d);
        out.push(0x3d);
        assert(out@ =~= before + base64_bytes(rest));
    } else if bytes.len() - i == 2 {
        let (a, b): (u8, u8) = (bytes[i], bytes[i + 1]);
        out.push(digit64(a / 4));
        out.push(digit64(a % 4 * 16 + b / 16));
        out.push(digit64(b % 16 * 4));
        out.push(0x3d);
        assert(out@ =~= before + base64_bytes(rest));
    } else {
        assert(out@ =~= before + base64_bytes(rest));
    }
}

/// A number in decimal digits.
pub open spec fn decimal_bytes(n: int) -> Seq<u8>
    decreases n,
{
    if n < 10 {
        seq![(0x30 + n) as u8]
    } else {
        decimal_bytes(n / 10) + seq![(0x30 + n % 10) as u8]
    }
}

/// Appends a number in decimal digits.
pub fn push_decimal(out: &mut Vec<u8>, n: u64)
    ensures
        final(out)@ == old(out)@ + decimal_bytes(n as int),
    decreases n,
{
    let ghost start = out@;
    if n >= 10 {
        push_decimal(out, n / 10);
    }
    out.push(0x30 + (n % 10) as u8);
    assert(out@ =~= start + decimal_bytes(n as int));
}

/// A data record as a line of a plaintext export.
pub open spec fn line_bytes(kind: Seq<char>, id: [u8; 16], payload: Seq<u8>) -> Seq<u8> {
    encode_utf8("{\"v\":1,\"type\":\""@) + encode_utf8(kind) + encode_utf8("\",\"id\":\""@)
        + hex_bytes(id@) + encode_utf8("\",\"payload\":\""@) + base64_bytes(payload) + encode_utf8(
        "\"}\n"@,
    )
}

/// Writes a data record as a line of a plaintext export and counts it.
pub fn write_line(kind: &str, id: &[u8; 16], payload: &[u8], state: &mut ExportState) -> (r: Result<
    Vec<u8>,
    HumanCommitError,
>)
    requires
        crate::backup::consistent(*old(state)),
    ensures
        ({
            let size = data_bytes(kind@, *id, payload@).len();
            let after = crate::backup::counted(*old(state), kind@, size as int);
            if size <= MAX_RECORD && after is Some {
                r is Ok && (r->Ok_0)@ == line_bytes(kind@, *id, payload@) && *final(state)
                    == after->0
            } else {
                r is Err && r->Err_0 is InvalidInput && *final(state) == *old(state)
            }
        }),
        crate::backup::consistent(*final(state)),
{
    let record = encode_data(kind, id, payload);
    if record.len() > MAX_RECORD {
        return Err(HumanCommitError::InvalidInput);
    }
    state.record(kind, record.len())?;
    let mut out: Vec<u8> = Vec::new();
    out.extend_from_slice("{\"v\":1,\"type\":\"".as_bytes());
    out.extend_from_slice(kind.as_bytes());
    out.extend_from_slice("\",\"id\":\"".as_bytes());
    push_hex(&mut out, id.as_slice());
    out.extend_from_slice("\",\"payload\":\"".as_bytes());
    push_base64(&mut out, payload);
    out.extend_from_slice("\"}\n".as_bytes());
    assert(out@ =~= line_bytes(kind@, *id, payload@));
    Ok(out)
}

/// The first lines of a plaintext export.
pub open spec fn first_lines(backup_id: [u8; 16], vault: [u8; 16]) -> Seq<u8> {
    encode_utf8("PM-LOGICAL-JSONL/1\n"@) + encode_utf8(
        "{\"type\":\"manifest_start\",\"v\":1,\"backup_id\":\""@,
    ) + hex_bytes(backup_id@) + encode_utf8("\",\"source_vault\":\""@) + hex_bytes(vault@)
        + encode_utf8("\",\"scope\":\"full\"}\n"@)
}

/// Writes the first lines of a plaintext export.
pub fn write_first_lines(backup_id: &[u8; 16], vault: &[u8; 16]) -> (r: Vec<u8>)
    ensures
        r@ == first_lines(*backup_id, *vault),
{
    let mut out: Vec<u8> = Vec::new();
    out.extend_from_slice("PM-LOGICAL-JSONL/1\n".as_bytes());
    out.extend_from_slice("{\"type\":\"manifest_start\",\"v\":1,\"backup_id\":\"".as_bytes());
    push_hex(&mut out, backup_id.as_slice());
    out.extend_from_slice("\",\"source_vault\":\"".as_bytes());
    push_hex(&mut out, vault.as_slice());
    out.extend_from_slice("\",\"scope\":\"full\"}\n".as_bytes());
    assert(out@ =~= first_lines(*backup_id, *vault));
    out
}

/// The last line of a plaintext export.
pub open spec fn last_line(s: ExportState) -> Seq<u8> {
    encode_utf8("{\"type\":\"manifest_end\",\"record_count\":"@) + decimal_bytes(s.records as int)
        + encode_utf8(",\"attachment_count\":"@) + decimal_bytes(s.attachments as int)
        + encode_utf8(",\"logical_bytes\":"@) + decimal_bytes(s.logical_bytes as int)
        + encode_utf8(",\"attachment_bytes\":"@) + decimal_bytes(s.attachment_bytes as int)
        + encode_utf8("}\n"@)
}

/// Writes the last line of a plaintext export.
pub fn write_last_line(s: &ExportState) -> (r: Vec<u8>)
    ensures
        r@ == last_line(*s),
{
    let mut out: Vec<u8> = Vec::new();
    out.extend_from_slice("{\"type\":\"manifest_end\",\"record_count\":".as_bytes());
    push_decimal(&mut out, s.records);
    out.extend_from_slice(",\"attachment_count\":".as_bytes());
    push_decimal(&mut out, s.attachments);
    out.extend_from_slice(",\"logical_bytes\":".as_bytes());
    push_decimal(&mut out, s.logical_bytes);
    out.extend_from_slice(",\"attachment_bytes\":".as_bytes());
    push_decimal(&mut out, s.attachment_bytes);
    out.extend_from_slice("}\n".as_bytes());
    assert(out@ =~= last_line(*s));
    out
}

/// What is hashed to an identifier is its domain, and then each part behind its
/// length, in their order.
pub proof fn lemma_id_parts(domain: Seq<char>, parts: Seq<Seq<u8>>, more: Seq<u8>)
    ensures
        id_bytes(domain, Seq::empty()) == encode_utf8(domain),
        id_bytes(domain, parts.push(more)) == id_bytes(domain, parts) + be64(more.len() as u64)
            + more,
{
    let all = parts.push(more);
    lemma_parts_of(all, parts, parts.len());
    assert(id_bytes(domain, Seq::empty()) =~= encode_utf8(domain));
    assert(id_bytes(domain, all) =~= id_bytes(domain, parts) + be64(more.len() as u64) + more);
}

/// Only the first parts count.
proof fn lemma_parts_of(a: Seq<Seq<u8>>, b: Seq<Seq<u8>>, n: nat)
    requires
        n <= a.len(),
        n <= b.len(),
        forall|i: int| 0 <= i < n ==> #[trigger] a[i] == b[i],
    ensures
        parts_bytes(a, n) == parts_bytes(b, n),
    decreases n,
{
    if n > 0 {
        lemma_parts_of(a, b, (n - 1) as nat);
    }
}

/// Each byte is two digits, the high one first, with small letters.
pub proof fn lemma_hex(b: Seq<u8>, i: int)
    requires
        0 <= i < b.len(),
    ensures
        hex_bytes(b).len() == 2 * b.len(),
        ({
            let high = hex_bytes(b)[2 * i];
            let low = hex_bytes(b)[2 * i + 1];
            &&& b[i] / 16 < 10 ==> high == '0' as u8 + b[i] / 16
            &&& b[i] / 16 >= 10 ==> high == 'a' as u8 + b[i] / 16 - 10
            &&& b[i] % 16 < 10 ==> low == '0' as u8 + b[i] % 16
            &&& b[i] % 16 >= 10 ==> low == 'a' as u8 + b[i] % 16 - 10
        }),
    decreases b.len(),
{
    let before = b.drop_last();
    lemma_hex_len(before);
    if i < before.len() {
        lemma_hex(before, i);
        assert(before[i] == b[i]);
    }
}

/// Two digits to a byte.
proof fn lemma_hex_len(b: Seq<u8>)
    ensures
        hex_bytes(b).len() == 2 * b.len(),
    decreases b.len(),
{
    if b.len() > 0 {
        lemma_hex_len(b.drop_last());
    }
}

/// The value of a digit of the alphabet with sixty-four letters.
pub open spec fn base64_value(c: u8) -> int {
    if 'A' as u8 <= c <= 'Z' as u8 {
        c - 'A' as u8
    } else if 'a' as u8 <= c <= 'z' as u8 {
        c - 'a' as u8 + 26
    } else if '0' as u8 <= c <= '9' as u8 {
        c - '0' as u8 + 52
    } else if c == '+' as u8 {
        62
    } else {
        63
    }
}

/// A digit has its value.
proof fn lemma_base64_digit(n: int)
    requires
        0 <= n < 64,
    ensures
        base64_value(base64_digit(n)) == n,
        n == 63 <==> base64_digit(n) == '/' as u8,
{
}

/// Three bytes are four digits with the same number; the last bytes, where they
/// are fewer, are filled up with bits of zero, and each missing digit is an
/// equals sign.
pub proof fn lemma_base64(b: Seq<u8>, k: int)
    requires
        0 <= k,
        3 * k < b.len(),
    ensures
        base64_bytes(b).len() == (b.len() + 2) / 3 * 4,
        ({
            let e = base64_bytes(b);
            let v0 = base64_value(e[4 * k]);
            let v1 = base64_value(e[4 * k + 1]);
            let v2 = base64_value(e[4 * k + 2]);
            let v3 = base64_value(e[4 * k + 3]);
            &&& 3 * k + 2 < b.len() ==> ((v0 * 64 + v1) * 64 + v2) * 64 + v3 == (b[3 * k] * 256
                + b[3 * k + 1]) * 256 + b[3 * k + 2]
            &&& 3 * k + 2 == b.len() ==> (v0 * 64 + v1) * 64 + v2 == (b[3 * k] * 256 + b[3 * k
                + 1]) * 4 && e[4 * k + 3] == '=' as u8
            &&& 3 * k + 1 == b.len() ==> v0 * 64 + v1 == b[3 * k] * 16 && e[4 * k + 2] == '=' as u8
                && e[4 * k + 3] == '=' as u8
        }),
    decreases b.len(),
{
    lemma_base64_len(b);
    let e = base64_bytes(b);
    if k == 0 {
        lemma_base64_digit(b[0] as int / 4);
        if b.len() == 1 {
            lemma_base64_digit(b[0] as int % 4 * 16);
        } else {
            lemma_base64_digit(b[0] as int % 4 * 16 + b[1] as int / 16);
            if b.len() == 2 {
                lemma_base64_digit(b[1] as int % 16 * 4);
            } else {
                lemma_base64_digit(b[1] as int % 16 * 4 + b[2] as int / 64);
                lemma_base64_digit(b[2] as int % 64);
            }
        }
    } else {
        let rest = b.skip(3);
        let m = base64_bytes(rest);
        lemma_base64(rest, k - 1);
        assert(rest[3 * (k - 1)] == b[3 * k]);
        if 3 * k + 1 < b.len() {
            assert(rest[3 * (k - 1) + 1] == b[3 * k + 1]);
        }
        if 3 * k + 2 < b.len() {
            assert(rest[3 * (k - 1) + 2] == b[3 * k + 2]);
        }
        lemma_base64_len(rest);
        assert(e[4 * k] == m[4 * (k - 1)]);
        assert(e[4 * k + 1] == m[4 * (k - 1) + 1]);
        assert(e[4 * k + 2] == m[4 * (k - 1) + 2]);
        assert(e[4 * k + 3] == m[4 * (k - 1) + 3]);
    }
}

/// Four digits to three bytes or fewer.
proof fn lemma_base64_len(b: Seq<u8>)
    ensures
        base64_bytes(b).len() == (b.len() + 2) / 3 * 4,
    decreases b.len(),
{
    if b.len() >= 3 {
        lemma_base64_len(b.skip(3));
        assert((b.len() + 2) / 3 == (b.len() - 3 + 2) / 3 + 1);
    }
}

/// The number that decimal digits stand for.
pub open spec fn decimal_value(b: Seq<u8>) -> int
    decreases b.len(),
{
    if b.len() == 0 {
        0
    } else {
        10 * decimal_value(b.drop_last()) + (b.last() - '0' as u8)
    }
}

/// A number is written in its decimal digits, the first of which is zero only
/// where the number is.
pub proof fn lemma_decimal(n: int)
    requires
        0 <= n,
    ensures
        decimal_value(decimal_bytes(n)) == n,
        decimal_bytes(n).len() > 0,
        n > 0 ==> decimal_bytes(n)[0] != '0' as u8,
        forall|i: int|
            0 <= i < decimal_bytes(n).len() ==> '0' as u8 <= #[trigger] decimal_bytes(n)[i]
                <= '9' as u8,
    decreases n,
{
    let b = decimal_bytes(n);
    if n < 10 {
        assert(b.drop_last() =~= Seq::<u8>::empty());
        assert(decimal_value(b.drop_last()) == 0);
    } else {
        lemma_decimal(n / 10);
        assert(b.drop_last() =~= decimal_bytes(n / 10));
        assert forall|i: int| 0 <= i < b.len() implies '0' as u8 <= #[trigger] b[i]
            <= '9' as u8 by {
            if i < b.len() - 1 {
                assert(b[i] == decimal_bytes(n / 10)[i]);
            }
        }
    }
}

} // verus!

//! Strictly increasing lists of identifiers and digests.
use crate::bytes::{
    lemma_lex_irreflexive, lemma_lex_total, lemma_lex_transitive, less, lex_less, same,
};
use vstd::prelude::*;

verus! {

/// Arrays with the same elements are the same.
pub proof fn lemma_same_array<const N: usize>(a: [u8; N], b: [u8; N])
    requires
        a@ == b@,
    ensures
        a == b,
{
    assert forall|i: int| 0 <= i < N implies a[i] == b[i] by {
        assert(a@[i] == b@[i]);
    }
    assert(a =~= b);
}

/// Whether two arrays hold the same bytes.
pub fn same_array<const N: usize>(a: &[u8; N], b: &[u8; N]) -> (r: bool)
    ensures
        r == (*a == *b),
{
    let r = same(a.as_slice(), b.as_slice());
    proof {
        if r {
            lemma_same_array(*a, *b);
        }
    }
    r
}

/// Whether each entry precedes all later ones.
pub open spec fn increasing<const N: usize>(v: Seq<[u8; N]>) -> bool {
    forall|i: int, j: int|
        0 <= i < j < v.len() ==> lex_less((#[trigger] v[i])@, (#[trigger] v[j])@)
}

/// Whether each entry precedes all later ones.
pub fn is_increasing<const N: usize>(v: &Vec<[u8; N]>) -> (r: bool)
    ensures
        r == increasing(v@),
{
    if v.len() == 0 {
        return true;
    }
    let mut i: usize = 1;
    while i < v.len()
        invariant
            1 <= i <= v@.len(),
            increasing(v@.take(i as int)),
        decreases v@.len() - i,
    {
        if !less(v[i - 1].as_slice(), v[i].as_slice()) {
            assert(!lex_less(v@[i - 1]@, v@[i as int]@));
            return false;
        }
        proof {
            let w = v@.take(i + 1);
            assert forall|a: int, b: int| 0 <= a < b < w.len() implies lex_less(
                (#[trigger] w[a])@,
                (#[trigger] w[b])@,
            ) by {
                if b < i {
                    assert(v@.take(i as int)[a] == w[a] && v@.take(i as int)[b] == w[b]);
                } else if a < i - 1 {
                    assert(lex_less(v@.take(i as int)[a]@, v@.take(i as int)[i - 1]@));
                    lemma_lex_transitive(w[a]@, v@[i - 1]@, v@[i as int]@);
                }
            }
        }
        i += 1;
    }
    assert(v@.take(i as int) =~= v@);
    true
}

/// Increasing lists with the same entries are the same list.
pub proof fn lemma_increasing_unique<const N: usize>(a: Seq<[u8; N]>, b: Seq<[u8; N]>)
    requires
        increasing(a),
        increasing(b),
        forall|x: [u8; N]| a.contains(x) <==> b.contains(x),
    ensures
        a == b,
    decreases a.len(),
{
    if a.len() == 0 {
        if b.len() > 0 {
            assert(b.contains(b[0]));
            assert(a.contains(b[0]));
        }
        assert(a =~= b);
    } else if b.len() == 0 {
        assert(a.contains(a[0]));
        assert(b.contains(a[0]));
    } else {
        assert(b.contains(b[0]) && a.contains(a[0]));
        let i = choose|i: int| 0 <= i < b.len() && b[i] == a[0];
        let j = choose|j: int| 0 <= j < a.len() && a[j] == b[0];
        if i != 0 {
            assert(lex_less(b[0]@, b[i]@));
            if j != 0 {
                assert(lex_less(a[0]@, a[j]@));
                lemma_lex_transitive(a[0]@, b[0]@, a[0]@);
            }
            lemma_lex_irreflexive(a[0]@);
        }
        assert(a[0] == b[0]);
        let (ta, tb) = (a.skip(1), b.skip(1));
        assert forall|x: [u8; N]| ta.contains(x) <==> tb.contains(x) by {
            lemma_tail_entry(a, b, x);
            lemma_tail_entry(b, a, x);
        }
        lemma_increasing_unique(ta, tb);
        assert(a =~= seq![a[0]] + ta);
        assert(b =~= seq![b[0]] + tb);
    }
}

/// An entry behind the first of one list is behind the first of the other.
proof fn lemma_tail_entry<const N: usize>(a: Seq<[u8; N]>, b: Seq<[u8; N]>, x: [u8; N])
    requires
        a.len() > 0,
        b.len() > 0,
        a[0] == b[0],
        increasing(a),
        forall|x: [u8; N]| a.contains(x) <==> b.contains(x),
    ensures
        a.skip(1).contains(x) ==> b.skip(1).contains(x),
{
    if a.skip(1).contains(x) {
        let k = choose|k: int| 0 <= k < a.skip(1).len() && a.skip(1)[k] == x;
        assert(a[k + 1] == x);
        assert(a.contains(x));
        assert(lex_less(a[0]@, a[k + 1]@));
        lemma_lex_irreflexive(x@);
        let m = choose|m: int| 0 <= m < b.len() && b[m] == x;
        assert(m != 0);
        assert(b.skip(1)[m - 1] == x);
    }
}

/// Puts an entry at its place in an increasing list; tells whether it was
/// missing.
pub fn insert<const N: usize>(v: &mut Vec<[u8; N]>, x: [u8; N]) -> (r: bool)
    requires
        increasing(old(v)@),
    ensures
        increasing(final(v)@),
        forall|y: [u8; N]| final(v)@.contains(y) <==> old(v)@.contains(y) || y == x,
        r == !old(v)@.contains(x),
        final(v)@.len() == old(v)@.len() + (if r {
            1int
        } else {
            0
        }),
{
    let ghost before = v@;
    let mut i: usize = 0;
    while i < v.len() && less(v[i].as_slice(), x.as_slice())
        invariant
            v@ == before,
            i <= v@.len(),
            increasing(before),
            forall|j: int| 0 <= j < i ==> lex_less((#[trigger] before[j])@, x@),
        decreases v@.len() - i,
    {
        i += 1;
    }
    if i < v.len() && same_array(&v[i], &x) {
        assert(before[i as int] == x);
        return false;
    }
    proof {
        if i < before.len() {
            if before[i as int]@ == x@ {
                lemma_same_array(before[i as int], x);
            }
            lemma_lex_total(before[i as int]@, x@);
        }
        assert forall|j: int| i <= j < before.len() implies lex_less(
            x@,
            (#[trigger] before[j])@,
        ) by {
            if j > i {
                assert(lex_less(before[i as int]@, before[j]@));
                lemma_lex_transitive(x@, before[i as int]@, before[j]@);
            }
        }
        lemma_lex_irreflexive(x@);
    }
    v.insert(i, x);
    proof {
        let after = v@;
        assert(after =~= before.insert(i as int, x));
        assert forall|a: int, b: int| 0 <= a < b < after.len() implies lex_less(
            (#[trigger] after[a])@,
            (#[trigger] after[b])@,
        ) by {
            let pa = if a < i {
                before[a]
            } else if a == i {
                x
            } else {
                before[a - 1]
            };
            let pb = if b < i {
                before[b]
            } else if b == i {
                x
            } else {
                before[b - 1]
            };
            assert(after[a] == pa && after[b] == pb);
        }
        assert forall|y: [u8; N]| after.contains(y) <==> before.contains(y) || y == x by {
            if before.contains(y) {
                let k = choose|k: int| 0 <= k < before.len() && before[k] == y;
                if k < i {
                    assert(after[k] == y);
                } else {
                    assert(after[k + 1] == y);
                }
            }
            if y == x {
                assert(after[i as int] == y);
            }
            if after.contains(y) {
                let k = choose|k: int| 0 <= k < after.len() && after[k] == y;
                if k < i {
                    assert(before[k] == y);
                } else if k > i {
                    assert(before[k - 1] == y);
                }
            }
        }
        if before.contains(x) {
            let k = choose|k: int| 0 <= k < before.len() && before[k] == x;
            assert(before[k] == x);
        }
    }
    true
}

/// The entries of a list, each once, in increasing order.
pub fn sorted_set<const N: usize>(v: &Vec<[u8; N]>) -> (r: Vec<[u8; N]>)
    ensures
        increasing(r@),
        forall|x: [u8; N]| r@.contains(x) <==> v@.contains(x),
        r@.len() <= v@.len(),
        r@.len() == v@.len() <==> v@.no_duplicates(),
{
    let mut out: Vec<[u8; N]> = Vec::new();
    let mut i: usize = 0;
    while i < v.len()
        invariant
            i <= v@.len(),
            increasing(out@),
            forall|x: [u8; N]| out@.contains(x) <==> v@.take(i as int).contains(x),
            out@.len() <= i,
            out@.len() == i <==> v@.take(i as int).no_duplicates(),
        decreases v@.len() - i,
    {
        let ghost before = out@;
        let fresh = insert(&mut out, v[i]);
        proof {
            let (p, q) = (v@.take(i as int), v@.take(i + 1));
            assert(q =~= p.push(v@[i as int]));
            assert forall|x: [u8; N]| out@.contains(x) <==> q.contains(x) by {
                if p.contains(x) {
                    let k = choose|k: int| 0 <= k < p.len() && p[k] == x;
                    assert(q[k] == x);
                }
                if x == v@[i as int] {
                    assert(q[i as int] == x);
                }
                if q.contains(x) {
                    let k = choose|k: int| 0 <= k < q.len() && q[k] == x;
                    if k < i {
                        assert(p[k] == x);
                    }
                }
            }
            if q.no_duplicates() {
                assert forall|a: int, b: int| 0 <= a < p.len() && 0 <= b < p.len() && a != b
                    implies p[a]
                    != p[b] by {
                    assert(q[a] == p[a] && q[b] == p[b]);
                }
                if p.contains(v@[i as int]) {
                    let k = choose|k: int| 0 <= k < p.len() && p[k] == v@[i as int];
                    assert(q[k] == q[i as int]);
                }
            }
            if fresh && p.no_duplicates() {
                assert forall|a: int, b: int| 0 <= a < q.len() && 0 <= b < q.len() && a != b
                    implies q[a]
                    != q[b] by {
                    if a == i {
                        assert(p[b] == q[b]);
                    } else if b == i {
                        assert(p[a] == q[a]);
                    } else {
                        assert(p[a] == q[a] && p[b] == q[b]);
                    }
                }
            }
        }
        i += 1;
    }
    assert(v@.take(i as int) =~= v@);
    out
}

/// Whether no entry precedes an earlier one.
pub open spec fn nondecreasing<const N: usize>(v: Seq<[u8; N]>) -> bool {
    forall|i: int, j: int|
        0 <= i < j < v.len() ==> !lex_less((#[trigger] v[j])@, (#[trigger] v[i])@)
}

/// Not preceding is transitive.
proof fn lemma_not_less_transitive(a: Seq<u8>, b: Seq<u8>, c: Seq<u8>)
    requires
        !lex_less(b, a),
        !lex_less(c, b),
    ensures
        !lex_less(c, a),
{
    lemma_lex_total(a, b);
    lemma_lex_total(b, c);
    if lex_less(c, a) {
        if lex_less(a, b) {
            lemma_lex_transitive(c, a, b);
        }
    }
}

/// The entries of a list in order, repeated ones kept.
pub fn sorted<const N: usize>(v: &Vec<[u8; N]>) -> (r: Vec<[u8; N]>)
    ensures
        nondecreasing(r@),
        r@.to_multiset() == v@.to_multiset(),
{
    let mut out: Vec<[u8; N]> = Vec::new();
    let mut i: usize = 0;
    assert(v@.take(0) =~= out@);
    while i < v.len()
        invariant
            i <= v@.len(),
            nondecreasing(out@),
            out@.to_multiset() == v@.take(i as int).to_multiset(),
        decreases v@.len() - i,
    {
        let x = v[i];
        let ghost before = out@;
        let mut k: usize = 0;
        while k < out.len() && !less(x.as_slice(), out[k].as_slice())
            invariant
                out@ == before,
                k <= before.len(),
                forall|j: int| 0 <= j < k ==> !lex_less(x@, (#[trigger] before[j])@),
            decreases before.len() - k,
        {
            k += 1;
        }
        proof {
            assert forall|j: int| k <= j < before.len() implies !lex_less(
                (#[trigger] before[j])@,
                x@,
            ) by {
                if lex_less(before[k as int]@, x@) {
                    lemma_lex_transitive(x@, before[k as int]@, x@);
                    lemma_lex_irreflexive(x@);
                }
                if j > k {
                    lemma_not_less_transitive(x@, before[k as int]@, before[j]@);
                }
            }
        }
        out.insert(k, x);
        proof {
            let after = out@;
            assert(after =~= before.insert(k as int, x));
            vstd::seq_lib::to_multiset_insert(before, k as int, x);
            assert(v@.take(i + 1) =~= v@.take(i as int).push(x));
            vstd::seq_lib::to_multiset_build(v@.take(i as int), x);
            assert forall|a: int, b: int| 0 <= a < b < after.len() implies !lex_less(
                (#[trigger] after[b])@,
                (#[trigger] after[a])@,
            ) by {
                let pa = if a < k {
                    before[a]
                } else if a == k {
                    x
                } else {
                    before[a - 1]
                };
                let pb = if b < k {
                    before[b]
                } else if b == k {
                    x
                } else {
                    before[b - 1]
                };
                assert(after[a] == pa && after[b] == pb);
            }
        }
        i += 1;
    }
    assert(v@.take(i as int) =~= v@);
    out
}

/// Whether two lists hold the same entries in the same order.
pub fn same_list<const N: usize>(a: &Vec<[u8; N]>, b: &Vec<[u8; N]>) -> (r: bool)
    ensures
        r == (a@ == b@),
{
    if a.len() != b.len() {
        return false;
    }
    let mut i: usize = 0;
    while i < a.len()
        invariant
            i <= a@.len(),
            a@.len() == b@.len(),
            forall|j: int| 0 <= j < i ==> a@[j] == b@[j],
        decreases a@.len() - i,
    {
        if !same_array(&a[i], &b[i]) {
            assert(a@[i as int] != b@[i as int]);
            return false;
        }
        i += 1;
    }
    assert(a@ =~= b@);
    true
}

/// Whether a list holds an entry.
pub fn holds<const N: usize>(v: &Vec<[u8; N]>, x: &[u8; N]) -> (r: bool)
    ensures
        r == v@.contains(*x),
{
    let mut i: usize = 0;
    while i < v.len()
        invariant
            i <= v@.len(),
            forall|j: int| 0 <= j < i ==> v@[j] != *x,
        decreases v@.len() - i,
    {
        if same_array(&v[i], x) {
            assert(v@[i as int] == *x);
            return true;
        }
        i += 1;
    }
    false
}

/// Whether two optional arrays are the same.
pub fn same_option<const N: usize>(a: &Option<[u8; N]>, b: &Option<[u8; N]>) -> (r: bool)
    ensures
        r == (*a == *b),
{
    match (a, b) {
        (Some(x), Some(y)) => same_array(x, y),
        (None, None) => true,
        _ => false,
    }
}

} // verus!

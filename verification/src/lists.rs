//! Encoded lists of digests and identifiers, and optional items.
use crate::cbor::{
    array_head, bytes_item, items_after, lemma_array, lemma_bytes_len, lemma_bytes_within,
    lemma_items, lemma_null, lemma_text, lemma_text_within, opt_text, opt_view,
    optional_bytes_item, optional_text_item, take_array, take_bool, take_bytes, take_int, take_key,
    take_null, take_nullable_text, take_optional_bytes, take_text, take_uint, text_item, Reader,
    Writer,
};
use vstd::prelude::*;

verus! {

/// The bytes of an optional array.
pub open spec fn opt_array<const N: usize>(value: Option<[u8; N]>) -> Option<Seq<u8>> {
    match value {
        Some(a) => Some(a@),
        None => None,
    }
}

/// The characters of an optional string.
pub open spec fn opt_string(value: Option<String>) -> Option<Seq<char>> {
    match value {
        Some(s) => Some(s@),
        None => None,
    }
}

/// The array of those bytes.
pub open spec fn array_of<const N: usize>(s: Seq<u8>) -> [u8; N] {
    choose|a: [u8; N]| a@ == s
}

/// An array is the array of its bytes.
pub proof fn lemma_array_of<const N: usize>(a: [u8; N])
    ensures
        array_of::<N>(a@) == a,
{
    let b = array_of::<N>(a@);
    assert(b@ == a@);
    crate::ordered::lemma_same_array(b, a);
}

/// The byte string of `N` bytes at the front of `b` and what follows it.
pub open spec fn fixed_at<const N: usize>(b: Seq<u8>) -> Option<([u8; N], Seq<u8>)> {
    match take_bytes(b) {
        Some((s, t)) => if s.len() == N {
            Some((array_of::<N>(s), t))
        } else {
            None
        },
        None => None,
    }
}

/// The byte string of `N` bytes at the front of `b`, or nothing where the null
/// value stands, and what follows.
pub open spec fn optional_at<const N: usize>(b: Seq<u8>) -> Option<(Option<[u8; N]>, Seq<u8>)> {
    match take_null(b) {
        Some(t) => Some((None, t)),
        None => match fixed_at::<N>(b) {
            Some((a, t)) => Some((Some(a), t)),
            None => None,
        },
    }
}

/// The first `n` digests of `b` and what follows them.
pub open spec fn digests_at(b: Seq<u8>, n: nat) -> Option<(Seq<[u8; 32]>, Seq<u8>)>
    decreases n,
{
    if n == 0 {
        Some((Seq::empty(), b))
    } else {
        match fixed_at::<32>(b) {
            Some((a, t)) => match digests_at(t, (n - 1) as nat) {
                Some((v, u)) => Some((seq![a] + v, u)),
                None => None,
            },
            None => None,
        }
    }
}

/// The list of digests at the front of `b` and what follows it.
pub open spec fn digest_list_at(b: Seq<u8>) -> Option<(Seq<[u8; 32]>, Seq<u8>)> {
    match take_array(b) {
        Some((n, t)) => digests_at(t, n as nat),
        None => None,
    }
}

/// What follows something that was read.
pub open spec fn after<T>(x: Option<(T, Seq<u8>)>) -> Option<Seq<u8>> {
    match x {
        Some((_, t)) => Some(t),
        None => None,
    }
}

/// What follows the text `key`, where there is something to read on.
pub open spec fn next_key(b: Option<Seq<u8>>, key: Seq<char>) -> Option<Seq<u8>> {
    match b {
        Some(b) => take_key(b, key),
        None => None,
    }
}

/// The next unsigned integer, where there is something to read on.
pub open spec fn next_uint(b: Option<Seq<u8>>) -> Option<(u64, Seq<u8>)> {
    match b {
        Some(b) => take_uint(b),
        None => None,
    }
}

/// The next signed integer, where there is something to read on.
pub open spec fn next_int(b: Option<Seq<u8>>) -> Option<(i64, Seq<u8>)> {
    match b {
        Some(b) => take_int(b),
        None => None,
    }
}

/// The next text, where there is something to read on.
pub open spec fn next_text(b: Option<Seq<u8>>) -> Option<(Seq<char>, Seq<u8>)> {
    match b {
        Some(b) => take_text(b),
        None => None,
    }
}

/// The next byte string, where there is something to read on.
pub open spec fn next_bytes(b: Option<Seq<u8>>) -> Option<(Seq<u8>, Seq<u8>)> {
    match b {
        Some(b) => take_bytes(b),
        None => None,
    }
}

/// The next array head, where there is something to read on.
pub open spec fn next_array(b: Option<Seq<u8>>) -> Option<(u64, Seq<u8>)> {
    match b {
        Some(b) => take_array(b),
        None => None,
    }
}

/// The next truth value, where there is something to read on.
pub open spec fn next_bool(b: Option<Seq<u8>>) -> Option<(bool, Seq<u8>)> {
    match b {
        Some(b) => take_bool(b),
        None => None,
    }
}

/// The next byte string of `N` bytes, where there is something to read on.
pub open spec fn next_fixed<const N: usize>(b: Option<Seq<u8>>) -> Option<([u8; N], Seq<u8>)> {
    match b {
        Some(b) => fixed_at::<N>(b),
        None => None,
    }
}

/// The next optional byte string of `N` bytes, where there is something to read
/// on.
pub open spec fn next_optional<const N: usize>(b: Option<Seq<u8>>) -> Option<
    (Option<[u8; N]>, Seq<u8>),
> {
    match b {
        Some(b) => optional_at::<N>(b),
        None => None,
    }
}

/// An optional array is read back with what follows it.
pub proof fn lemma_optional_array<const N: usize>(value: Option<[u8; N]>, t: Seq<u8>)
    requires
        (optional_bytes_item(opt_array(value)) + t).len() <= u64::MAX,
    ensures
        optional_at::<N>(optional_bytes_item(opt_array(value)) + t) == Some((value, t)),
        t.len() <= (optional_bytes_item(opt_array(value)) + t).len(),
{
    match value {
        Some(a) => {
            lemma_bytes_within(a@, t);
            lemma_array_of(a);
        },
        None => {
            lemma_null(t);
        },
    }
}

/// Optional bytes are read back with what follows them.
pub proof fn lemma_optional_bytes(value: Option<Seq<u8>>, t: Seq<u8>)
    requires
        (optional_bytes_item(value) + t).len() <= u64::MAX,
    ensures
        take_optional_bytes(optional_bytes_item(value) + t) == Some((value, t)),
        t.len() <= (optional_bytes_item(value) + t).len(),
{
    match value {
        Some(s) => {
            lemma_bytes_within(s, t);
        },
        None => {
            lemma_null(t);
        },
    }
}

/// An optional text is read back with what follows it.
pub proof fn lemma_nullable_text(value: Option<Seq<char>>, t: Seq<u8>)
    requires
        (optional_text_item(value) + t).len() <= u64::MAX,
    ensures
        take_nullable_text(optional_text_item(value) + t) == Some((value, t)),
        t.len() <= (optional_text_item(value) + t).len(),
{
    match value {
        Some(s) => {
            lemma_text_within(s, t);
            reveal(text_item);
            lemma_text(s, t);
        },
        None => {
            lemma_null(t);
        },
    }
}

/// An optional array as a slice.
pub fn array_slice<const N: usize>(value: &Option<[u8; N]>) -> (r: Option<&[u8]>)
    ensures
        opt_view(r) == opt_array(*value),
{
    match value {
        Some(a) => Some(a.as_slice()),
        None => None,
    }
}

/// An optional byte vector as a slice.
pub fn vec_slice(value: &Option<Vec<u8>>) -> (r: Option<&[u8]>)
    ensures
        opt_view(r) == crate::content::opt_vec(*value),
{
    match value {
        Some(a) => Some(a.as_slice()),
        None => None,
    }
}

/// An optional string as a slice.
pub fn string_slice(value: &Option<String>) -> (r: Option<&str>)
    ensures
        opt_text(r) == opt_string(*value),
{
    match value {
        Some(s) => Some(s.as_str()),
        None => None,
    }
}

/// Reads an identifier.
pub fn take_id(d: &mut Reader) -> (r: Option<[u8; 16]>)
    ensures
        match fixed_at::<16>(old(d).rest()) {
            Some((a, t)) => r == Some(a) && final(d).rest() == t,
            None => r is None,
        },
{
    let value = d.fixed16()?;
    proof {
        lemma_array_of(value);
    }
    Some(value)
}

/// Reads a digest.
pub fn take_digest(d: &mut Reader) -> (r: Option<[u8; 32]>)
    ensures
        match fixed_at::<32>(old(d).rest()) {
            Some((a, t)) => r == Some(a) && final(d).rest() == t,
            None => r is None,
        },
{
    let value = d.fixed32()?;
    proof {
        lemma_array_of(value);
    }
    Some(value)
}

/// Reads an identifier, or nothing where the null value stands.
pub fn take_optional_id(d: &mut Reader) -> (r: Option<Option<[u8; 16]>>)
    ensures
        match optional_at::<16>(old(d).rest()) {
            Some((m, t)) => r == Some(m) && final(d).rest() == t,
            None => r is None,
        },
        forall|m: Option<[u8; 16]>, t: Seq<u8>|
            #![trigger optional_bytes_item(opt_array(m)) + t]
            old(d).rest() == optional_bytes_item(opt_array(m)) + t ==> r == Some(m)
                && final(d).rest() == t,
{
    if d.is_null() {
        d.null()?;
        Some(None)
    } else {
        let value = d.fixed16()?;
        proof {
            lemma_array_of(value);
        }
        Some(Some(value))
    }
}

/// Reads a digest, or nothing where the null value stands.
pub fn take_optional_digest(d: &mut Reader) -> (r: Option<Option<[u8; 32]>>)
    ensures
        match optional_at::<32>(old(d).rest()) {
            Some((m, t)) => r == Some(m) && final(d).rest() == t,
            None => r is None,
        },
        forall|m: Option<[u8; 32]>, t: Seq<u8>|
            #![trigger optional_bytes_item(opt_array(m)) + t]
            old(d).rest() == optional_bytes_item(opt_array(m)) + t ==> r == Some(m)
                && final(d).rest() == t,
{
    if d.is_null() {
        d.null()?;
        Some(None)
    } else {
        let value = d.fixed32()?;
        proof {
            lemma_array_of(value);
        }
        Some(Some(value))
    }
}

/// Reads a list of digests in whatever widths it is written.
pub fn read_digests(d: &mut Reader) -> (r: Option<Vec<[u8; 32]>>)
    ensures
        match digest_list_at(old(d).rest()) {
            Some((v, t)) => r is Some && (r->0)@ == v && final(d).rest() == t,
            None => r is None,
        },
{
    let n: u64 = d.array()?;
    let ghost start = d.rest();
    let mut out: Vec<[u8; 32]> = Vec::new();
    let mut i: u64 = 0;
    assert(digests_at(start, n as nat) == prefixed(out@, digests_at(start, n as nat))) by {
        match digests_at(start, n as nat) {
            Some((v, t)) => {
                assert(Seq::<[u8; 32]>::empty() + v =~= v);
            },
            None => {},
        }
    }
    while i < n
        invariant
            i <= n,
            digest_list_at(old(d).rest()) == digests_at(start, n as nat),
            digests_at(start, n as nat) == prefixed(out@, digests_at(d.rest(), (n - i) as nat)),
        decreases n - i,
    {
        let ghost before = out@;
        let ghost at = d.rest();
        let x = d.fixed32()?;
        out.push(x);
        proof {
            lemma_array_of(x);
            match digests_at(d.rest(), (n - i - 1) as nat) {
                Some((v, t)) => {
                    assert(before + (seq![x] + v) =~= out@ + v);
                },
                None => {},
            }
        }
        i += 1;
    }
    assert(out@ + Seq::<[u8; 32]>::empty() =~= out@);
    Some(out)
}

/// A list read in two parts.
spec fn prefixed(
    before: Seq<[u8; 32]>,
    rest: Option<(Seq<[u8; 32]>, Seq<u8>)>,
) -> Option<(Seq<[u8; 32]>, Seq<u8>)> {
    match rest {
        Some((v, t)) => Some((before + v, t)),
        None => None,
    }
}

/// Reads a text, or nothing where the null value stands.
pub fn take_optional_text(d: &mut Reader) -> (r: Option<Option<String>>)
    ensures
        match take_nullable_text(old(d).rest()) {
            Some((m, t)) => r is Some && opt_string(r->0) == m && final(d).rest() == t,
            None => r is None,
        },
        forall|m: Option<Seq<char>>, t: Seq<u8>|
            #![trigger optional_text_item(m) + t]
            old(d).rest() == optional_text_item(m) + t ==> r is Some && opt_string(r->0) == m
                && final(d).rest() == t,
{
    if d.is_null() {
        d.null()?;
        Some(None)
    } else {
        let value = d.str()?;
        Some(Some(value.to_owned()))
    }
}

/// The items of a list of digests, followed by `t`.
pub open spec fn digests_tail(v: Seq<[u8; 32]>, t: Seq<u8>) -> Seq<u8>
    decreases v.len(),
{
    if v.len() == 0 {
        t
    } else {
        bytes_item(v[0]@) + digests_tail(v.skip(1), t)
    }
}

/// A list of digests, followed by `t`.
pub open spec fn digests_then(v: Seq<[u8; 32]>, t: Seq<u8>) -> Seq<u8> {
    array_head(v.len() as u64) + digests_tail(v, t)
}

/// Every list item takes at least one byte.
proof fn lemma_digests_len(v: Seq<[u8; 32]>, t: Seq<u8>)
    ensures
        digests_tail(v, t).len() >= v.len() + t.len(),
    decreases v.len(),
{
    if v.len() > 0 {
        lemma_digests_len(v.skip(1), t);
        lemma_bytes_len(v[0]@);
    }
}

/// Appends a list of digests.
pub fn put_digests(w: &mut Writer, values: &Vec<[u8; 32]>)
    ensures
        forall|t: Seq<u8>|
            #![trigger old(w)@ + digests_then(values@, t)]
            final(w)@ + t == old(w)@ + digests_then(values@, t),
{
    let ghost start = w@;
    let ghost all = values@;
    w.array(values.len() as u64);
    let mut i: usize = 0;
    assert(all.skip(0) =~= all);
    while i < values.len()
        invariant
            i <= values@.len(),
            all == values@,
            forall|t: Seq<u8>|
                #![trigger start + digests_then(all, t)]
                w@ + digests_tail(all.skip(i as int), t) == start + digests_then(all, t),
        decreases values@.len() - i,
    {
        assert(all.skip(i as int).skip(1) =~= all.skip(i + 1));
        assert(all.skip(i as int)[0] == all[i as int]);
        assert forall|t: Seq<u8>| #![trigger start + digests_then(all, t)] w@
            + (bytes_item(all[i as int]@) + digests_tail(all.skip(i + 1), t))
            == start + digests_then(all, t) by {
        }
        w.bytes(&values[i]);
        i += 1;
    }
    assert(all.skip(i as int) =~= Seq::empty());
}

/// Reads a list of digests.
pub(crate) fn take_digests(d: &mut Reader) -> (r: Option<Vec<[u8; 32]>>)
    ensures
        forall|v: Seq<[u8; 32]>, t: Seq<u8>|
            #![trigger digests_then(v, t)]
            old(d).rest() == digests_then(v, t) ==> r is Some && (r->0)@ == v && final(d).rest()
                == t,
{
    let ghost rest0 = d.rest();
    assert forall|v: Seq<[u8; 32]>, t: Seq<u8>| #![trigger digests_then(v, t)] rest0
        == digests_then(
        v,
        t,
    ) implies v.len() <= u64::MAX by {
        lemma_digests_len(v, t);
        d.lemma_rest_len();
    }
    let n: u64 = d.array()?;
    let mut out: Vec<[u8; 32]> = Vec::new();
    let mut i: u64 = 0;
    assert forall|v: Seq<[u8; 32]>, t: Seq<u8>| #![trigger digests_then(v, t)] rest0
        == digests_then(
        v,
        t,
    ) implies v.skip(0) == v && v.take(0) == out@ by {
        assert(v.skip(0) =~= v);
        assert(v.take(0) =~= out@);
    }
    while i < n
        invariant
            i <= n,
            out@.len() == i,
            rest0 == old(d).rest(),
            forall|v: Seq<[u8; 32]>, t: Seq<u8>|
                #![trigger digests_then(v, t)]
                rest0 == digests_then(v, t) ==> v.len() == n && out@ == v.take(i as int)
                    && d.rest() == digests_tail(v.skip(i as int), t),
        decreases n - i,
    {
        let ghost before = out@;
        let ghost at = d.rest();
        assert forall|v: Seq<[u8; 32]>, t: Seq<u8>| #![trigger digests_then(v, t)] rest0
            == digests_then(v, t) implies at == (bytes_item(v[i as int]@)
                + digests_tail(v.skip(i + 1), t)) by {
            assert(v.skip(i as int).skip(1) =~= v.skip(i + 1));
            assert(v.skip(i as int)[0] == v[i as int]);
        }
        let x = d.fixed32()?;
        out.push(x);
        assert forall|v: Seq<[u8; 32]>, t: Seq<u8>| #![trigger digests_then(v, t)] rest0
            == digests_then(v, t) implies out@ == v.take(i + 1) by {
            assert(before == v.take(i as int));
            assert(x == v[i as int]);
            assert forall|j: int| 0 <= j < i implies out@[j] == v.take(i + 1)[j] by {
                assert(before[j] == v.take(i as int)[j]);
            }
            assert(out@ =~= v.take(i + 1));
        }
        i += 1;
    }
    assert forall|v: Seq<[u8; 32]>, t: Seq<u8>| #![trigger digests_then(v, t)] rest0
        == digests_then(
        v,
        t,
    ) implies v.take(i as int) == v && v.skip(i as int) == Seq::<[u8; 32]>::empty() by {
        assert(v.take(i as int) =~= v);
        assert(v.skip(i as int) =~= Seq::empty());
    }
    Some(out)
}

/// The items of a list of identifiers, followed by `t`.
pub open spec fn ids_tail(v: Seq<[u8; 16]>, t: Seq<u8>) -> Seq<u8>
    decreases v.len(),
{
    if v.len() == 0 {
        t
    } else {
        bytes_item(v[0]@) + ids_tail(v.skip(1), t)
    }
}

/// A list of identifiers, followed by `t`.
pub open spec fn ids_then(v: Seq<[u8; 16]>, t: Seq<u8>) -> Seq<u8> {
    array_head(v.len() as u64) + ids_tail(v, t)
}

/// Every list item takes at least one byte.
proof fn lemma_ids_len(v: Seq<[u8; 16]>, t: Seq<u8>)
    ensures
        ids_tail(v, t).len() >= v.len() + t.len(),
    decreases v.len(),
{
    if v.len() > 0 {
        lemma_ids_len(v.skip(1), t);
        lemma_bytes_len(v[0]@);
    }
}

/// Appends a list of identifiers.
pub fn put_ids(w: &mut Writer, values: &Vec<[u8; 16]>)
    ensures
        forall|t: Seq<u8>|
            #![trigger old(w)@ + ids_then(values@, t)]
            final(w)@ + t == old(w)@ + ids_then(values@, t),
{
    let ghost start = w@;
    let ghost all = values@;
    w.array(values.len() as u64);
    let mut i: usize = 0;
    assert(all.skip(0) =~= all);
    while i < values.len()
        invariant
            i <= values@.len(),
            all == values@,
            forall|t: Seq<u8>|
                #![trigger start + ids_then(all, t)]
                w@ + ids_tail(all.skip(i as int), t) == start + ids_then(all, t),
        decreases values@.len() - i,
    {
        assert(all.skip(i as int).skip(1) =~= all.skip(i + 1));
        assert(all.skip(i as int)[0] == all[i as int]);
        assert forall|t: Seq<u8>| #![trigger start + ids_then(all, t)] w@
            + (bytes_item(all[i as int]@) + ids_tail(all.skip(i + 1), t))
            == start + ids_then(all, t) by {
        }
        w.bytes(&values[i]);
        i += 1;
    }
    assert(all.skip(i as int) =~= Seq::empty());
}

/// Reads a list of identifiers.
pub(crate) fn take_ids(d: &mut Reader) -> (r: Option<Vec<[u8; 16]>>)
    ensures
        forall|v: Seq<[u8; 16]>, t: Seq<u8>|
            #![trigger ids_then(v, t)]
            old(d).rest() == ids_then(v, t) ==> r is Some && (r->0)@ == v && final(d).rest()
                == t,
{
    let ghost rest0 = d.rest();
    assert forall|v: Seq<[u8; 16]>, t: Seq<u8>| #![trigger ids_then(v, t)] rest0 == ids_then(
        v,
        t,
    ) implies v.len() <= u64::MAX by {
        lemma_ids_len(v, t);
        d.lemma_rest_len();
    }
    let n: u64 = d.array()?;
    let mut out: Vec<[u8; 16]> = Vec::new();
    let mut i: u64 = 0;
    assert forall|v: Seq<[u8; 16]>, t: Seq<u8>| #![trigger ids_then(v, t)] rest0 == ids_then(
        v,
        t,
    ) implies v.skip(0) == v && v.take(0) == out@ by {
        assert(v.skip(0) =~= v);
        assert(v.take(0) =~= out@);
    }
    while i < n
        invariant
            i <= n,
            out@.len() == i,
            rest0 == old(d).rest(),
            forall|v: Seq<[u8; 16]>, t: Seq<u8>|
                #![trigger ids_then(v, t)]
                rest0 == ids_then(v, t) ==> v.len() == n && out@ == v.take(i as int)
                    && d.rest() == ids_tail(v.skip(i as int), t),
        decreases n - i,
    {
        let ghost before = out@;
        let ghost at = d.rest();
        assert forall|v: Seq<[u8; 16]>, t: Seq<u8>| #![trigger ids_then(v, t)] rest0
            == ids_then(v, t) implies at == (bytes_item(v[i as int]@)
                + ids_tail(v.skip(i + 1), t)) by {
            assert(v.skip(i as int).skip(1) =~= v.skip(i + 1));
            assert(v.skip(i as int)[0] == v[i as int]);
        }
        let x = d.fixed16()?;
        out.push(x);
        assert forall|v: Seq<[u8; 16]>, t: Seq<u8>| #![trigger ids_then(v, t)] rest0
            == ids_then(v, t) implies out@ == v.take(i + 1) by {
            assert(before == v.take(i as int));
            assert(x == v[i as int]);
            assert forall|j: int| 0 <= j < i implies out@[j] == v.take(i + 1)[j] by {
                assert(before[j] == v.take(i as int)[j]);
            }
            assert(out@ =~= v.take(i + 1));
        }
        i += 1;
    }
    assert forall|v: Seq<[u8; 16]>, t: Seq<u8>| #![trigger ids_then(v, t)] rest0 == ids_then(
        v,
        t,
    ) implies v.take(i as int) == v && v.skip(i as int) == Seq::<[u8; 16]>::empty() by {
        assert(v.take(i as int) =~= v);
        assert(v.skip(i as int) =~= Seq::empty());
    }
    Some(out)
}

/// A written list of digests is read back.
pub proof fn lemma_digest_list(v: Seq<[u8; 32]>, t: Seq<u8>)
    requires
        digests_then(v, t).len() <= u64::MAX,
    ensures
        digest_list_at(digests_then(v, t)) == Some((v, t)),
        t.len() <= digests_then(v, t).len(),
{
    lemma_digests_len(v, t);
    lemma_array(v.len() as u64, digests_tail(v, t));
    lemma_digests_read(v, t);
}

/// The items of a written list of digests are read back.
proof fn lemma_digests_read(v: Seq<[u8; 32]>, t: Seq<u8>)
    requires
        digests_tail(v, t).len() <= u64::MAX,
    ensures
        digests_at(digests_tail(v, t), v.len()) == Some((v, t)),
    decreases v.len(),
{
    if v.len() == 0 {
        assert(v =~= Seq::empty());
    } else {
        let rest = digests_tail(v.skip(1), t);
        lemma_bytes_within(v[0]@, rest);
        lemma_array_of(v[0]);
        lemma_digests_read(v.skip(1), t);
        assert(seq![v[0]] + v.skip(1) =~= v);
    }
}

/// A written list of digests counts as one item.
pub proof fn lemma_digests_item(v: Seq<[u8; 32]>, t: Seq<u8>, n: nat)
    requires
        n > 0,
        digests_then(v, t).len() <= u64::MAX,
    ensures
        items_after(digests_then(v, t), n) == items_after(t, (n - 1) as nat),
        t.len() <= digests_then(v, t).len(),
{
    lemma_digests_len(v, t);
    lemma_items();
    lemma_digests_items(v, t, (n - 1 + v.len()) as nat);
}

/// The entries of a written list count as so many items.
proof fn lemma_digests_items(v: Seq<[u8; 32]>, t: Seq<u8>, n: nat)
    requires
        n >= v.len(),
        digests_tail(v, t).len() <= u64::MAX,
    ensures
        items_after(digests_tail(v, t), n) == items_after(t, (n - v.len()) as nat),
    decreases v.len(),
{
    if v.len() > 0 {
        lemma_items();
        let rest = digests_tail(v.skip(1), t);
        assert(items_after(bytes_item(v[0]@) + rest, n) == items_after(rest, (n - 1) as nat));
        lemma_digests_items(v.skip(1), t, (n - 1) as nat);
    }
}

/// A written list of identifiers counts as one item.
pub proof fn lemma_ids_item(v: Seq<[u8; 16]>, t: Seq<u8>, n: nat)
    requires
        n > 0,
        ids_then(v, t).len() <= u64::MAX,
    ensures
        items_after(ids_then(v, t), n) == items_after(t, (n - 1) as nat),
        t.len() <= ids_then(v, t).len(),
{
    lemma_ids_len(v, t);
    lemma_items();
    lemma_ids_items(v, t, (n - 1 + v.len()) as nat);
}

/// The entries of a written list count as so many items.
proof fn lemma_ids_items(v: Seq<[u8; 16]>, t: Seq<u8>, n: nat)
    requires
        n >= v.len(),
        ids_tail(v, t).len() <= u64::MAX,
    ensures
        items_after(ids_tail(v, t), n) == items_after(t, (n - v.len()) as nat),
    decreases v.len(),
{
    if v.len() > 0 {
        lemma_items();
        let rest = ids_tail(v.skip(1), t);
        assert(items_after(bytes_item(v[0]@) + rest, n) == items_after(rest, (n - 1) as nat));
        lemma_ids_items(v.skip(1), t, (n - 1) as nat);
    }
}

} // verus!

//! Comparisons and conversions of byte strings and identifiers.
use crate::cbor::{lemma_eight_bytes};
use vstd::prelude::*;
use vstd::utf8::encode_utf8;

verus! {

/// Lexicographic order of byte strings, a proper prefix coming first.
pub open spec fn lex_less(a: Seq<u8>, b: Seq<u8>) -> bool
    decreases a.len(),
{
    if b.len() == 0 {
        false
    } else if a.len() == 0 {
        true
    } else if a[0] != b[0] {
        a[0] < b[0]
    } else {
        lex_less(a.skip(1), b.skip(1))
    }
}

/// No byte string precedes itself.
pub proof fn lemma_lex_irreflexive(a: Seq<u8>)
    ensures
        !lex_less(a, a),
    decreases a.len(),
{
    if a.len() > 0 {
        lemma_lex_irreflexive(a.skip(1));
    }
}

/// Of two different byte strings one precedes the other.
pub proof fn lemma_lex_total(a: Seq<u8>, b: Seq<u8>)
    ensures
        a == b || lex_less(a, b) || lex_less(b, a),
    decreases a.len(),
{
    if a.len() > 0 && b.len() > 0 && a[0] == b[0] {
        lemma_lex_total(a.skip(1), b.skip(1));
        if a.skip(1) == b.skip(1) {
            assert(a =~= seq![a[0]] + a.skip(1));
            assert(b =~= seq![b[0]] + b.skip(1));
        }
    } else if a.len() == 0 && b.len() == 0 {
        assert(a =~= b);
    }
}

/// The order of byte strings is transitive.
pub proof fn lemma_lex_transitive(a: Seq<u8>, b: Seq<u8>, c: Seq<u8>)
    requires
        lex_less(a, b),
        lex_less(b, c),
    ensures
        lex_less(a, c),
    decreases a.len(),
{
    if a.len() > 0 && a[0] == b[0] && b[0] == c[0] {
        lemma_lex_transitive(a.skip(1), b.skip(1), c.skip(1));
    }
}

/// Whether two byte slices hold the same bytes.
pub fn same(a: &[u8], b: &[u8]) -> (r: bool)
    ensures
        r == (a@ == b@),
{
    if a.len() != b.len() {
        return false;
    }
    let mut i: usize = 0;
    while i < a.len()
        invariant
            a@.len() == b@.len(),
            i <= a@.len(),
            forall|j: int| 0 <= j < i ==> a@[j] == b@[j],
        decreases a@.len() - i,
    {
        if a[i] != b[i] {
            return false;
        }
        i += 1;
    }
    assert(a@ =~= b@);
    true
}

/// Two texts with the same encoding are the same.
pub proof fn lemma_utf8_injective(a: Seq<char>, b: Seq<char>)
    requires
        encode_utf8(a) == encode_utf8(b),
    ensures
        a == b,
{
    vstd::utf8::encode_utf8_decode_utf8(a);
    vstd::utf8::encode_utf8_decode_utf8(b);
}

/// Whether two string slices hold the same text.
pub fn same_str(a: &str, b: &str) -> (r: bool)
    ensures
        r == (a@ == b@),
{
    let r = same(a.as_bytes(), b.as_bytes());
    proof {
        if r {
            lemma_utf8_injective(a@, b@);
        }
    }
    r
}

/// The number of bytes of a string slice.
pub fn byte_len(s: &str) -> (r: usize)
    ensures
        r == encode_utf8(s@).len(),
{
    s.as_bytes().len()
}

/// Whether `a` precedes `b` in lexicographic order.
pub fn less(a: &[u8], b: &[u8]) -> (r: bool)
    ensures
        r == lex_less(a@, b@),
{
    let mut i: usize = 0;
    assert(a@.skip(0) =~= a@);
    assert(b@.skip(0) =~= b@);
    while i < a.len() && i < b.len()
        invariant
            i <= a@.len(),
            i <= b@.len(),
            lex_less(a@, b@) == lex_less(a@.skip(i as int), b@.skip(i as int)),
        decreases a@.len() - i,
    {
        if a[i] != b[i] {
            return a[i] < b[i];
        }
        assert(a@.skip(i as int).skip(1) =~= a@.skip(i + 1));
        assert(b@.skip(i as int).skip(1) =~= b@.skip(i + 1));
        i += 1;
    }
    i < b.len()
}

/// The sixteen bytes of a slice of that length.
pub fn fixed16(s: &[u8]) -> (r: Option<[u8; 16]>)
    ensures
        r is Some <==> s@.len() == 16,
        r is Some ==> (r->0)@ == s@,
{
    if s.len() != 16 {
        return None;
    }
    let mut a: [u8; 16] = [0u8;16];
    let mut i: usize = 0;
    while i < 16
        invariant
            i <= 16,
            s@.len() == 16,
            forall|j: int| 0 <= j < i ==> a@[j] == s@[j],
        decreases 16 - i,
    {
        a[i] = s[i];
        i += 1;
    }
    assert(a@ =~= s@);
    Some(a)
}

/// The thirty-two bytes of a slice of that length.
pub fn fixed32(s: &[u8]) -> (r: Option<[u8; 32]>)
    ensures
        r is Some <==> s@.len() == 32,
        r is Some ==> (r->0)@ == s@,
{
    if s.len() != 32 {
        return None;
    }
    let mut a: [u8; 32] = [0u8;32];
    let mut i: usize = 0;
    while i < 32
        invariant
            i <= 32,
            s@.len() == 32,
            forall|j: int| 0 <= j < i ==> a@[j] == s@[j],
        decreases 32 - i,
    {
        a[i] = s[i];
        i += 1;
    }
    assert(a@ =~= s@);
    Some(a)
}

/// The forty-four bytes of a slice of that length.
pub fn fixed44(s: &[u8]) -> (r: Option<[u8; 44]>)
    ensures
        r is Some <==> s@.len() == 44,
        r is Some ==> (r->0)@ == s@,
{
    if s.len() != 44 {
        return None;
    }
    let mut a: [u8; 44] = [0u8;44];
    let mut i: usize = 0;
    while i < 44
        invariant
            i <= 44,
            s@.len() == 44,
            forall|j: int| 0 <= j < i ==> a@[j] == s@[j],
        decreases 44 - i,
    {
        a[i] = s[i];
        i += 1;
    }
    assert(a@ =~= s@);
    Some(a)
}

/// The sixty-four bytes of a slice of that length.
pub fn fixed64(s: &[u8]) -> (r: Option<[u8; 64]>)
    ensures
        r is Some <==> s@.len() == 64,
        r is Some ==> (r->0)@ == s@,
{
    if s.len() != 64 {
        return None;
    }
    let mut a: [u8; 64] = [0u8;64];
    let mut i: usize = 0;
    while i < 64
        invariant
            i <= 64,
            s@.len() == 64,
            forall|j: int| 0 <= j < i ==> a@[j] == s@[j],
        decreases 64 - i,
    {
        a[i] = s[i];
        i += 1;
    }
    assert(a@ =~= s@);
    Some(a)
}

/// The eight bytes of a number, the highest first.
pub open spec fn be64(n: u64) -> Seq<u8> {
    seq![
        (n / 0x100_0000_0000_0000) as u8,
        (n / 0x1_0000_0000_0000 % 0x100) as u8,
        (n / 0x100_0000_0000 % 0x100) as u8,
        (n / 0x1_0000_0000 % 0x100) as u8,
        (n / 0x100_0000 % 0x100) as u8,
        (n / 0x1_0000 % 0x100) as u8,
        (n / 0x100 % 0x100) as u8,
        (n % 0x100) as u8,
    ]
}

/// Appends the eight bytes of a number, the highest first.
pub fn push_be64(out: &mut Vec<u8>, n: u64)
    ensures
        final(out)@ == old(out)@ + be64(n),
{
    out.push((n / 0x100_0000_0000_0000) as u8);
    out.push((n / 0x1_0000_0000_0000 % 0x100) as u8);
    out.push((n / 0x100_0000_0000 % 0x100) as u8);
    out.push((n / 0x1_0000_0000 % 0x100) as u8);
    out.push((n / 0x100_0000 % 0x100) as u8);
    out.push((n / 0x1_0000 % 0x100) as u8);
    out.push((n / 0x100 % 0x100) as u8);
    out.push((n % 0x100) as u8);
    assert(out@ =~= old(out)@ + be64(n));
}

/// The four bytes of a number, the highest first.
pub open spec fn be32(n: u32) -> Seq<u8> {
    seq![
        (n / 0x100_0000) as u8,
        (n / 0x1_0000 % 0x100) as u8,
        (n / 0x100 % 0x100) as u8,
        (n % 0x100) as u8,
    ]
}

/// The number whose four bytes stand at the front of `b`, the highest first.
pub open spec fn number32(b: Seq<u8>) -> int {
    b[0] * 0x100_0000 + b[1] * 0x1_0000 + b[2] * 0x100 + b[3]
}

/// A number is that of its four bytes.
pub proof fn lemma_be32(n: u32, t: Seq<u8>)
    ensures
        number32(be32(n) + t) == n,
        be32(n).len() == 4,
{
}

/// Appends the four bytes of a number, the highest first.
pub fn push_be32(out: &mut Vec<u8>, n: u32)
    ensures
        final(out)@ == old(out)@ + be32(n),
{
    out.push((n / 0x100_0000) as u8);
    out.push((n / 0x1_0000 % 0x100) as u8);
    out.push((n / 0x100 % 0x100) as u8);
    out.push((n % 0x100) as u8);
    assert(out@ =~= old(out)@ + be32(n));
}

/// The number whose four bytes stand at a place, the highest first.
pub fn read_be32(b: &[u8], at: usize) -> (r: u32)
    requires
        at + 4 <= b@.len(),
    ensures
        r == number32(b@.skip(at as int)),
{
    (b[at] as u32) * 0x100_0000 + (b[at + 1] as u32) * 0x1_0000 + (b[at + 2] as u32) * 0x100 + (
    b[at + 3] as u32)
}

/// A signed number as the unsigned one with the same two's complement bits.
pub open spec fn wrapped(n: i64) -> u64 {
    if n >= 0 {
        n as u64
    } else {
        (n + 0x1_0000_0000_0000_0000) as u64
    }
}

/// A signed number as the unsigned one with the same two's complement bits.
pub fn wrap(n: i64) -> (r: u64)
    ensures
        r == wrapped(n),
{
    if n >= 0 {
        n as u64
    } else {
        u64::MAX - (-1 - n) as u64
    }
}

/// A number's eight bytes are its digits to the base 256, the most significant
/// first.
pub proof fn lemma_be64(n: u64)
    ensures
        ({
            let b = be64(n);
            &&& b.len() == 8
            &&& b[0] * 0x100_0000_0000_0000 + b[1] * 0x1_0000_0000_0000 + b[2] * 0x100_0000_0000
                + b[3] * 0x1_0000_0000 + b[4] * 0x100_0000 + b[5] * 0x1_0000 + b[6] * 0x100 + b[7]
                == n
        }),
{
    let b = be64(n);
    lemma_eight_bytes(n);
    assert(b[0] == (n / 0x100_0000_0000_0000) as u8);
    assert(b[1] == (n / 0x1_0000_0000_0000 % 0x100) as u8);
    assert(b[2] == (n / 0x100_0000_0000 % 0x100) as u8);
    assert(b[3] == (n / 0x1_0000_0000 % 0x100) as u8);
    assert(b[4] == (n / 0x100_0000 % 0x100) as u8);
    assert(b[5] == (n / 0x1_0000 % 0x100) as u8);
    assert(b[6] == (n / 0x100 % 0x100) as u8);
    assert(b[7] == (n % 0x100) as u8);
}

/// Bytes are ordered by the first place at which they differ, and a beginning
/// comes before the whole.
pub proof fn lemma_lex_first(a: Seq<u8>, b: Seq<u8>, i: int)
    requires
        0 <= i <= a.len(),
        i <= b.len(),
        forall|j: int| 0 <= j < i ==> #[trigger] a[j] == b[j],
    ensures
        i < a.len() && i < b.len() && a[i] < b[i] ==> lex_less(a, b) && !lex_less(b, a),
        i == a.len() && i < b.len() ==> lex_less(a, b) && !lex_less(b, a),
        i == a.len() && i == b.len() ==> !lex_less(a, b),
    decreases i,
{
    if i > 0 {
        assert(a[0] == b[0]);
        let s = a.skip(1);
        let t = b.skip(1);
        assert(forall|j: int| 0 <= j < i - 1 ==> #[trigger] s[j] == a[j + 1]);
        assert(forall|j: int| 0 <= j < i - 1 ==> #[trigger] t[j] == b[j + 1]);
        lemma_lex_first(s, t, i - 1);
    }
}

/// A signed number is the unsigned one with the same remainder by 2 to the 64.
pub proof fn lemma_wrapped(n: i64)
    ensures
        n >= 0 ==> wrapped(n) == n,
        n < 0 ==> wrapped(n) == n + 0x1_0000_0000_0000_0000,
{
}

} // verus!

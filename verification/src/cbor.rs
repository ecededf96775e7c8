//! Deterministic CBOR: the byte layout of the items the vault formats are made
//! of, a writer that appends them and a reader that takes them apart.
use crate::bytes::{fixed16, fixed32, fixed44, fixed64, same_str};
use minicbor::data::Type;
use minicbor::{Decoder, Encoder};
use vstd::prelude::*;
use vstd::utf8::{decode_utf8, encode_utf8, valid_utf8};

verus! {

/// Major type of an unsigned integer.
pub const UNSIGNED: u8 = 0;

/// Major type of a negative integer.
pub const NEGATIVE: u8 = 1;

/// Major type of a byte string.
pub const BYTES: u8 = 2;

/// Major type of a text string.
pub const TEXT: u8 = 3;

/// Major type of an array.
pub const ARRAY: u8 = 4;

/// Major type of a map.
pub const MAP: u8 = 5;

/// The shortest head for `major` with argument `n`: the argument is folded
/// into the first byte below 24 and follows in 1, 2, 4 or 8 big-endian bytes
/// otherwise.
#[verifier::opaque]
pub open spec fn head_bytes(major: u8, n: u64) -> Seq<u8> {
    if n < 24 {
        seq![(major * 32 + n) as u8]
    } else if n <= 0xff {
        seq![(major * 32 + 24) as u8, n as u8]
    } else if n <= 0xffff {
        seq![(major * 32 + 25) as u8, (n / 0x100) as u8, (n % 0x100) as u8]
    } else if n <= 0xffff_ffff {
        seq![
            (major * 32 + 26) as u8,
            (n / 0x100_0000) as u8,
            (n / 0x1_0000 % 0x100) as u8,
            (n / 0x100 % 0x100) as u8,
            (n % 0x100) as u8,
        ]
    } else {
        seq![
            (major * 32 + 27) as u8,
            (n / 0x100_0000_0000_0000) as u8,
            (n / 0x1_0000_0000_0000 % 0x100) as u8,
            (n / 0x100_0000_0000 % 0x100) as u8,
            (n / 0x1_0000_0000 % 0x100) as u8,
            (n / 0x100_0000 % 0x100) as u8,
            (n / 0x1_0000 % 0x100) as u8,
            (n / 0x100 % 0x100) as u8,
            (n % 0x100) as u8,
        ]
    }
}

/// The argument that the low five bits `info` of a head announce, read from
/// the bytes `b` behind the first byte, and what follows it.
pub open spec fn head_argument(info: u8, b: Seq<u8>) -> Option<(u64, Seq<u8>)> {
    if info < 24 {
        Some((info as u64, b))
    } else if info == 24 && b.len() >= 1 {
        Some((b[0] as u64, b.skip(1)))
    } else if info == 25 && b.len() >= 2 {
        Some(((b[0] * 0x100 + b[1]) as u64, b.skip(2)))
    } else if info == 26 && b.len() >= 4 {
        Some((
            (b[0] * 0x100_0000 + b[1] * 0x1_0000 + b[2] * 0x100 + b[3]) as u64,
            b.skip(4),
        ))
    } else if info == 27 && b.len() >= 8 {
        Some((
            (b[0] * 0x100_0000_0000_0000 + b[1] * 0x1_0000_0000_0000 + b[2] * 0x100_0000_0000
                + b[3] * 0x1_0000_0000 + b[4] * 0x100_0000 + b[5] * 0x1_0000 + b[6] * 0x100
                + b[7]) as u64,
            b.skip(8),
        ))
    } else {
        None
    }
}

/// The argument of a definite head of type `major` at the front of `b`, in any
/// of the five widths, and what follows it.
#[verifier::opaque]
pub open spec fn take_head(major: u8, b: Seq<u8>) -> Option<(u64, Seq<u8>)> {
    if b.len() > 0 && b[0] / 32 == major {
        head_argument(b[0] % 32, b.skip(1))
    } else {
        None
    }
}

/// A byte string.
#[verifier::opaque]
pub open spec fn bytes_item(s: Seq<u8>) -> Seq<u8> {
    head_bytes(BYTES, s.len() as u64) + s
}

/// A text string.
#[verifier::opaque]
pub open spec fn text_item(s: Seq<char>) -> Seq<u8> {
    head_bytes(TEXT, encode_utf8(s).len() as u64) + encode_utf8(s)
}

/// An unsigned integer.
pub open spec fn uint_item(n: u64) -> Seq<u8> {
    head_bytes(UNSIGNED, n)
}

/// A signed integer.
#[verifier::opaque]
pub open spec fn int_item(n: i64) -> Seq<u8> {
    if n >= 0 {
        head_bytes(UNSIGNED, n as u64)
    } else {
        head_bytes(NEGATIVE, (-1 - n) as u64)
    }
}

/// The head of an array of `n` items.
pub open spec fn array_head(n: u64) -> Seq<u8> {
    head_bytes(ARRAY, n)
}

/// The head of a map of `n` entries.
pub open spec fn map_head(n: u64) -> Seq<u8> {
    head_bytes(MAP, n)
}

/// A truth value.
#[verifier::opaque]
pub open spec fn bool_item(value: bool) -> Seq<u8> {
    seq![if value { 0xf5u8 } else { 0xf4u8 }]
}

/// The null value.
#[verifier::opaque]
pub open spec fn null_item() -> Seq<u8> {
    seq![0xf6u8]
}

/// A byte string, or the null value where there is none.
pub open spec fn optional_bytes_item(value: Option<Seq<u8>>) -> Seq<u8> {
    match value {
        Some(s) => bytes_item(s),
        None => null_item(),
    }
}

/// A text string, or the null value where there is none.
pub open spec fn optional_text_item(value: Option<Seq<char>>) -> Seq<u8> {
    match value {
        Some(s) => text_item(s),
        None => null_item(),
    }
}

/// An unsigned integer, or the null value where there is none.
pub open spec fn optional_uint_item(value: Option<u64>) -> Seq<u8> {
    match value {
        Some(n) => uint_item(n),
        None => null_item(),
    }
}

/// The bytes of an optional slice.
pub open spec fn opt_view(value: Option<&[u8]>) -> Option<Seq<u8>> {
    match value {
        Some(s) => Some(s@),
        None => None,
    }
}

/// The characters of an optional string slice.
pub open spec fn opt_text(value: Option<&str>) -> Option<Seq<char>> {
    match value {
        Some(s) => Some(s@),
        None => None,
    }
}

/// The byte string at the front of `b` and what follows it.
#[verifier::opaque]
pub open spec fn take_bytes(b: Seq<u8>) -> Option<(Seq<u8>, Seq<u8>)> {
    match take_head(BYTES, b) {
        Some((n, t)) => if n <= t.len() {
            Some((t.take(n as int), t.skip(n as int)))
        } else {
            None
        },
        None => None,
    }
}

/// The text string at the front of `b` and what follows it.
#[verifier::opaque]
pub open spec fn take_text(b: Seq<u8>) -> Option<(Seq<char>, Seq<u8>)> {
    match take_head(TEXT, b) {
        Some((n, t)) => if n <= t.len() && valid_utf8(t.take(n as int)) {
            Some((decode_utf8(t.take(n as int)), t.skip(n as int)))
        } else {
            None
        },
        None => None,
    }
}

/// The unsigned integer at the front of `b` and what follows it.
pub open spec fn take_uint(b: Seq<u8>) -> Option<(u64, Seq<u8>)> {
    take_head(UNSIGNED, b)
}

/// The signed integer at the front of `b` and what follows it.
#[verifier::opaque]
pub open spec fn take_int(b: Seq<u8>) -> Option<(i64, Seq<u8>)> {
    match take_head(UNSIGNED, b) {
        Some((n, t)) => if n <= i64::MAX {
            Some((n as i64, t))
        } else {
            None
        },
        None => match take_head(NEGATIVE, b) {
            Some((n, t)) => if n <= i64::MAX {
                Some(((-1 - n) as i64, t))
            } else {
                None
            },
            None => None,
        },
    }
}

/// The head of a definite array at the front of `b` and what follows it.
pub open spec fn take_array(b: Seq<u8>) -> Option<(u64, Seq<u8>)> {
    take_head(ARRAY, b)
}

/// The head of a definite map at the front of `b` and what follows it.
pub open spec fn take_map(b: Seq<u8>) -> Option<(u64, Seq<u8>)> {
    take_head(MAP, b)
}

/// The truth value at the front of `b` and what follows it.
#[verifier::opaque]
pub open spec fn take_bool(b: Seq<u8>) -> Option<(bool, Seq<u8>)> {
    if b.len() > 0 && (b[0] == 0xf4 || b[0] == 0xf5) {
        Some((b[0] == 0xf5, b.skip(1)))
    } else {
        None
    }
}

/// What follows the text `key` at the front of `b`.
pub open spec fn take_key(b: Seq<u8>, key: Seq<char>) -> Option<Seq<u8>> {
    match take_text(b) {
        Some((s, t)) => if s == key {
            Some(t)
        } else {
            None
        },
        None => None,
    }
}

/// What follows the head of a map of `n` entries at the front of `b`.
pub open spec fn take_map_of(b: Seq<u8>, n: u64) -> Option<Seq<u8>> {
    match take_map(b) {
        Some((m, t)) => if m == n {
            Some(t)
        } else {
            None
        },
        None => None,
    }
}

/// What follows the head of an array of `n` items at the front of `b`.
pub open spec fn take_array_of(b: Seq<u8>, n: u64) -> Option<Seq<u8>> {
    match take_array(b) {
        Some((m, t)) => if m == n {
            Some(t)
        } else {
            None
        },
        None => None,
    }
}

/// The unsigned integer of at most `max` at the front of `b` and what follows it.
pub open spec fn take_uint_to(b: Seq<u8>, max: u64) -> Option<(u64, Seq<u8>)> {
    match take_uint(b) {
        Some((n, t)) => if n <= max {
            Some((n, t))
        } else {
            None
        },
        None => None,
    }
}

/// The text string at the front of `b`, or nothing where the null value
/// stands, and what follows.
pub open spec fn take_nullable_text(b: Seq<u8>) -> Option<(Option<Seq<char>>, Seq<u8>)> {
    match take_null(b) {
        Some(t) => Some((None, t)),
        None => match take_text(b) {
            Some((s, t)) => Some((Some(s), t)),
            None => None,
        },
    }
}

/// The byte string at the front of `b`, or nothing where the null value
/// stands, and what follows.
pub open spec fn take_optional_bytes(b: Seq<u8>) -> Option<(Option<Seq<u8>>, Seq<u8>)> {
    match take_null(b) {
        Some(t) => Some((None, t)),
        None => match take_bytes(b) {
            Some((s, t)) => Some((Some(s), t)),
            None => None,
        },
    }
}

/// What follows the null value at the front of `b`.
#[verifier::opaque]
pub open spec fn take_null(b: Seq<u8>) -> Option<Seq<u8>> {
    if b.len() > 0 && b[0] == 0xf6 {
        Some(b.skip(1))
    } else {
        None
    }
}

/// The first byte of a head holds the type above the five low bits.
proof fn lemma_initial_byte(major: u8, info: u8)
    requires
        major < 8,
        info < 32,
    ensures
        (major * 32 + info) as u8 / 32 == major,
        (major * 32 + info) as u8 % 32 == info,
{
}

/// The four bytes of a 32-bit number give it back.
proof fn lemma_four_bytes(n: u64)
    requires
        n <= 0xffff_ffff,
    ensures
        (n / 0x100_0000) * 0x100_0000 + (n / 0x1_0000 % 0x100) * 0x1_0000 + (n / 0x100 % 0x100)
            * 0x100 + n % 0x100 == n,
        n / 0x100_0000 < 0x100,
{
    assert((n / 0x100_0000) * 0x100_0000 + (n / 0x1_0000 % 0x100) * 0x1_0000 + (n / 0x100 % 0x100)
        * 0x100 + n % 0x100 == n && n / 0x100_0000 < 0x100) by (bit_vector)
        requires
            n <= 0xffff_ffff,
    ;
}

/// The eight bytes of a 64-bit number give it back.
pub proof fn lemma_eight_bytes(n: u64)
    ensures
        (n / 0x100_0000_0000_0000) * 0x100_0000_0000_0000 + (n / 0x1_0000_0000_0000 % 0x100)
            * 0x1_0000_0000_0000 + (n / 0x100_0000_0000 % 0x100) * 0x100_0000_0000 + (n
            / 0x1_0000_0000 % 0x100) * 0x1_0000_0000 + (n / 0x100_0000 % 0x100) * 0x100_0000 + (n
            / 0x1_0000 % 0x100) * 0x1_0000 + (n / 0x100 % 0x100) * 0x100 + n % 0x100 == n,
        n / 0x100_0000_0000_0000 < 0x100,
{
    assert((n / 0x100_0000_0000_0000) * 0x100_0000_0000_0000 + (n / 0x1_0000_0000_0000 % 0x100)
        * 0x1_0000_0000_0000 + (n / 0x100_0000_0000 % 0x100) * 0x100_0000_0000 + (n / 0x1_0000_0000
        % 0x100) * 0x1_0000_0000 + (n / 0x100_0000 % 0x100) * 0x100_0000 + (n / 0x1_0000 % 0x100)
        * 0x1_0000 + (n / 0x100 % 0x100) * 0x100 + n % 0x100 == n && n / 0x100_0000_0000_0000
        < 0x100) by (bit_vector);
}

/// The argument of a head is read back from behind its first byte.
proof fn lemma_argument(major: u8, n: u64, t: Seq<u8>)
    requires
        major < 8,
    ensures
        ({
            let b = head_bytes(major, n) + t;
            &&& b[0] / 32 == major
            &&& head_argument(b[0] % 32, b.skip(1)) == Some((n, t))
            &&& 1 <= head_bytes(major, n).len() <= 9
        }),
{
    reveal(head_bytes);
    let b = head_bytes(major, n) + t;
    let u = b.skip(1);
    if n < 24 {
        lemma_initial_byte(major, n as u8);
        assert(u =~= t);
    } else if n <= 0xff {
        lemma_initial_byte(major, 24);
        assert(u.skip(1) =~= t);
    } else if n <= 0xffff {
        lemma_initial_byte(major, 25);
        assert(u.skip(2) =~= t);
    } else if n <= 0xffff_ffff {
        lemma_initial_byte(major, 26);
        lemma_four_bytes(n);
        assert(u.skip(4) =~= t);
        assert(u[0] == (n / 0x100_0000) as u8);
        assert(u[1] == (n / 0x1_0000 % 0x100) as u8);
        assert(u[2] == (n / 0x100 % 0x100) as u8);
        assert(u[3] == (n % 0x100) as u8);
    } else {
        lemma_initial_byte(major, 27);
        lemma_eight_bytes(n);
        assert(u.skip(8) =~= t);
        assert(u[0] == (n / 0x100_0000_0000_0000) as u8);
        assert(u[1] == (n / 0x1_0000_0000_0000 % 0x100) as u8);
        assert(u[2] == (n / 0x100_0000_0000 % 0x100) as u8);
        assert(u[3] == (n / 0x1_0000_0000 % 0x100) as u8);
        assert(u[4] == (n / 0x100_0000 % 0x100) as u8);
        assert(u[5] == (n / 0x1_0000 % 0x100) as u8);
        assert(u[6] == (n / 0x100 % 0x100) as u8);
        assert(u[7] == (n % 0x100) as u8);
    }
}

/// A head is read back from the front of any bytes that begin with it, and
/// under no other type.
pub proof fn lemma_head(major: u8, n: u64, t: Seq<u8>)
    requires
        major < 8,
    ensures
        take_head(major, head_bytes(major, n) + t) == Some((n, t)),
        forall|other: u8| other != major ==> #[trigger] take_head(
            other,
            head_bytes(major, n) + t,
        ) is None,
        1 <= head_bytes(major, n).len() <= 9,
        (head_bytes(major, n) + t)[0] / 32 == major,
{
    reveal(take_head);
    lemma_argument(major, n, t);
}

/// A byte string is read back from the front of any bytes that begin with it.
pub proof fn lemma_bytes(s: Seq<u8>, t: Seq<u8>)
    requires
        s.len() <= u64::MAX,
    ensures
        take_bytes(bytes_item(s) + t) == Some((s, t)),
        take_null(bytes_item(s) + t) is None,
{
    reveal(bytes_item);
    reveal(take_bytes);
    reveal(take_null);
    let b = bytes_item(s) + t;
    assert(b =~= head_bytes(BYTES, s.len() as u64) + (s + t));
    lemma_head(BYTES, s.len() as u64, s + t);
    assert((s + t).take(s.len() as int) =~= s);
    assert((s + t).skip(s.len() as int) =~= t);
}

/// A text string is read back from the front of any bytes that begin with it.
pub proof fn lemma_text(s: Seq<char>, t: Seq<u8>)
    requires
        encode_utf8(s).len() <= u64::MAX,
    ensures
        take_text(text_item(s) + t) == Some((s, t)),
        take_null(text_item(s) + t) is None,
{
    reveal(text_item);
    reveal(take_text);
    reveal(take_null);
    let u = encode_utf8(s);
    let b = text_item(s) + t;
    assert(b =~= head_bytes(TEXT, u.len() as u64) + (u + t));
    lemma_head(TEXT, u.len() as u64, u + t);
    assert((u + t).take(u.len() as int) =~= u);
    assert((u + t).skip(u.len() as int) =~= t);
    vstd::utf8::encode_utf8_valid_utf8(s);
    vstd::utf8::encode_utf8_decode_utf8(s);
}

/// An unsigned integer is read back from the front of any bytes that begin
/// with it.
pub proof fn lemma_uint(n: u64, t: Seq<u8>)
    ensures
        take_uint(uint_item(n) + t) == Some((n, t)),
        take_null(uint_item(n) + t) is None,
{
    reveal(take_null);
    lemma_head(UNSIGNED, n, t);
}

/// A signed integer is read back from the front of any bytes that begin with
/// it.
pub proof fn lemma_int(n: i64, t: Seq<u8>)
    ensures
        take_int(int_item(n) + t) == Some((n, t)),
        take_null(int_item(n) + t) is None,
{
    reveal(int_item);
    reveal(take_int);
    reveal(take_null);
    if n >= 0 {
        lemma_head(UNSIGNED, n as u64, t);
    } else {
        lemma_head(NEGATIVE, (-1 - n) as u64, t);
    }
}

/// An array head is read back from the front of any bytes that begin with it.
pub proof fn lemma_array(n: u64, t: Seq<u8>)
    ensures
        take_array(array_head(n) + t) == Some((n, t)),
        take_null(array_head(n) + t) is None,
{
    reveal(take_null);
    lemma_head(ARRAY, n, t);
}

/// A map head is read back from the front of any bytes that begin with it.
pub proof fn lemma_map(n: u64, t: Seq<u8>)
    ensures
        take_map(map_head(n) + t) == Some((n, t)),
        take_null(map_head(n) + t) is None,
{
    reveal(take_null);
    lemma_head(MAP, n, t);
}

/// A truth value is read back from the front of any bytes that begin with it.
pub proof fn lemma_bool(value: bool, t: Seq<u8>)
    ensures
        take_bool(bool_item(value) + t) == Some((value, t)),
        take_null(bool_item(value) + t) is None,
{
    reveal(bool_item);
    reveal(take_bool);
    reveal(take_null);
    assert((bool_item(value) + t).skip(1) =~= t);
}

/// The null value is read back from the front of any bytes that begin with it.
pub proof fn lemma_null(t: Seq<u8>)
    ensures
        take_null(null_item() + t) == Some(t),
{
    reveal(null_item);
    reveal(take_null);
    assert((null_item() + t).skip(1) =~= t);
}

/// A text string inside bytes that fit in memory is read back.
pub proof fn lemma_text_within(s: Seq<char>, t: Seq<u8>)
    requires
        (text_item(s) + t).len() <= u64::MAX,
    ensures
        take_text(text_item(s) + t) == Some((s, t)),
        take_key(text_item(s) + t, s) == Some(t),
        t.len() <= (text_item(s) + t).len(),
{
    reveal(text_item);
    lemma_text(s, t);
}

/// A byte string inside bytes that fit in memory is read back.
pub proof fn lemma_bytes_within(s: Seq<u8>, t: Seq<u8>)
    requires
        (bytes_item(s) + t).len() <= u64::MAX,
    ensures
        take_bytes(bytes_item(s) + t) == Some((s, t)),
        take_null(bytes_item(s) + t) is None,
        t.len() <= (bytes_item(s) + t).len(),
{
    reveal(bytes_item);
    lemma_bytes(s, t);
}

/// A text string takes at least one byte.
pub proof fn lemma_text_len(s: Seq<char>)
    ensures
        text_item(s).len() >= 1,
{
    reveal(text_item);
    lemma_head(TEXT, encode_utf8(s).len() as u64, Seq::empty());
}

/// A byte string takes at least one byte.
pub proof fn lemma_bytes_len(s: Seq<u8>)
    ensures
        bytes_item(s).len() >= 1,
{
    reveal(bytes_item);
    lemma_head(BYTES, s.len() as u64, Seq::empty());
}

/// A head takes at least one byte.
pub proof fn lemma_head_len(major: u8, n: u64)
    requires
        major < 8,
    ensures
        head_bytes(major, n).len() >= 1,
{
    lemma_head(major, n, Seq::empty());
}

/// A head takes at most nine bytes.
pub(crate) proof fn lemma_head_most(major: u8, n: u64)
    ensures
        head_bytes(major, n).len() <= 9,
{
    reveal(head_bytes);
}

/// A signed integer takes at most nine bytes.
pub(crate) proof fn lemma_int_most(n: i64)
    ensures
        int_item(n).len() <= 9,
{
    reveal(int_item);
    lemma_head_most(UNSIGNED, n as u64);
    lemma_head_most(NEGATIVE, (-1 - n) as u64);
}

/// A character takes at most four bytes.
proof fn lemma_utf8_most(s: Seq<char>)
    ensures
        encode_utf8(s).len() <= 4 * s.len(),
    decreases s.len(),
{
    if s.len() > 0 {
        lemma_utf8_most(s.drop_first());
    }
}

/// A text takes at most nine bytes more than its encoding, which has at most
/// four for each character.
pub(crate) proof fn lemma_text_most(s: Seq<char>)
    ensures
        text_item(s).len() <= 9 + encode_utf8(s).len(),
        text_item(s).len() <= 9 + 4 * s.len(),
{
    reveal(text_item);
    lemma_head_most(TEXT, encode_utf8(s).len() as u64);
    lemma_utf8_most(s);
}

/// A byte string takes at most nine bytes more than it has.
pub(crate) proof fn lemma_bytes_most(s: Seq<u8>)
    ensures
        bytes_item(s).len() <= 9 + s.len(),
{
    reveal(bytes_item);
    lemma_head_most(BYTES, s.len() as u64);
}

/// Concatenation in either grouping gives the same bytes.
pub proof fn lemma_regroup(a: Seq<u8>, b: Seq<u8>, c: Seq<u8>)
    ensures
        (a + b) + c == a + (b + c),
{
    assert((a + b) + c =~= a + (b + c));
}

/// The bytes of `input` from `pos` on; none where `pos` lies behind the end.
pub open spec fn bytes_from(input: Seq<u8>, pos: int) -> Seq<u8> {
    if pos <= input.len() {
        input.skip(pos)
    } else {
        Seq::empty()
    }
}

/// `minicbor::Encoder::array` on a vector: appends the shortest array head.
#[verifier::external_body]
fn encode_array(out: &mut Vec<u8>, n: u64)
    ensures
        final(out)@ == old(out)@ + array_head(n),
{
    Encoder::new(out).array(n).unwrap();
}

/// `minicbor::Encoder::map` on a vector: appends the shortest map head.
#[verifier::external_body]
fn encode_map(out: &mut Vec<u8>, n: u64)
    ensures
        final(out)@ == old(out)@ + map_head(n),
{
    Encoder::new(out).map(n).unwrap();
}

/// `minicbor::Encoder::str` on a vector: appends the shortest text head and the
/// UTF-8 bytes of `value`.
#[verifier::external_body]
fn encode_text(out: &mut Vec<u8>, value: &str)
    ensures
        final(out)@ == old(out)@ + text_item(value@),
{
    Encoder::new(out).str(value).unwrap();
}

/// `minicbor::Encoder::bytes` on a vector: appends the shortest byte-string
/// head and `value`.
#[verifier::external_body]
fn encode_bytes(out: &mut Vec<u8>, value: &[u8])
    ensures
        final(out)@ == old(out)@ + bytes_item(value@),
{
    Encoder::new(out).bytes(value).unwrap();
}

/// `minicbor::Encoder::u64` on a vector: appends the shortest unsigned integer.
#[verifier::external_body]
fn encode_u64(out: &mut Vec<u8>, value: u64)
    ensures
        final(out)@ == old(out)@ + uint_item(value),
{
    Encoder::new(out).u64(value).unwrap();
}

/// `minicbor::Encoder::u32` on a vector: appends the shortest unsigned integer.
#[verifier::external_body]
fn encode_u32(out: &mut Vec<u8>, value: u32)
    ensures
        final(out)@ == old(out)@ + uint_item(value as u64),
{
    Encoder::new(out).u32(value).unwrap();
}

/// `minicbor::Encoder::u16` on a vector: appends the shortest unsigned integer.
#[verifier::external_body]
fn encode_u16(out: &mut Vec<u8>, value: u16)
    ensures
        final(out)@ == old(out)@ + uint_item(value as u64),
{
    Encoder::new(out).u16(value).unwrap();
}

/// `minicbor::Encoder::u8` on a vector: appends the shortest unsigned integer.
#[verifier::external_body]
fn encode_u8(out: &mut Vec<u8>, value: u8)
    ensures
        final(out)@ == old(out)@ + uint_item(value as u64),
{
    Encoder::new(out).u8(value).unwrap();
}

/// `minicbor::Encoder::i64` on a vector: appends the shortest signed integer.
#[verifier::external_body]
fn encode_i64(out: &mut Vec<u8>, value: i64)
    ensures
        final(out)@ == old(out)@ + int_item(value),
{
    Encoder::new(out).i64(value).unwrap();
}

/// `minicbor::Encoder::bool` on a vector: appends a truth value.
#[verifier::external_body]
fn encode_bool(out: &mut Vec<u8>, value: bool)
    ensures
        final(out)@ == old(out)@ + bool_item(value),
{
    Encoder::new(out).bool(value).unwrap();
}

/// `minicbor::Encoder::null` on a vector: appends the null value.
#[verifier::external_body]
fn encode_null(out: &mut Vec<u8>)
    ensures
        final(out)@ == old(out)@ + null_item(),
{
    Encoder::new(out).null().unwrap();
}

/// `minicbor::Decoder::array` at `pos`: the length of a definite array and the
/// position behind its head. An array of indefinite length is refused here too.
#[verifier::external_body]
fn decode_array(input: &[u8], pos: usize) -> (r: Option<(u64, usize)>)
    ensures
        match take_array(bytes_from(input@, pos as int)) {
            Some((n, t)) => r is Some && (r->0).0 == n && bytes_from(input@, (r->0).1 as int) == t,
            None => r is None,
        },
{
    let mut decoder = Decoder::new(input);
    decoder.set_position(pos);
    match decoder.array() {
        Ok(Some(n)) => Some((n, decoder.position())),
        Ok(None) => None,
        Err(_) => None,
    }
}

/// `minicbor::Decoder::map` at `pos`: the length of a definite map and the
/// position behind its head. A map of indefinite length is refused here too.
#[verifier::external_body]
fn decode_map(input: &[u8], pos: usize) -> (r: Option<(u64, usize)>)
    ensures
        match take_map(bytes_from(input@, pos as int)) {
            Some((n, t)) => r is Some && (r->0).0 == n && bytes_from(input@, (r->0).1 as int) == t,
            None => r is None,
        },
{
    let mut decoder = Decoder::new(input);
    decoder.set_position(pos);
    match decoder.map() {
        Ok(Some(n)) => Some((n, decoder.position())),
        Ok(None) => None,
        Err(_) => None,
    }
}

/// `minicbor::Decoder::str` at `pos`: a definite text string that is valid
/// UTF-8, and the position behind it.
#[verifier::external_body]
fn decode_text<'a>(input: &'a [u8], pos: usize) -> (r: Option<(&'a str, usize)>)
    ensures
        match take_text(bytes_from(input@, pos as int)) {
            Some((s, t)) => r is Some && (r->0).0@ == s && bytes_from(input@, (r->0).1 as int) == t,
            None => r is None,
        },
{
    let mut decoder = Decoder::new(input);
    decoder.set_position(pos);
    match decoder.str() {
        Ok(value) => Some((value, decoder.position())),
        Err(_) => None,
    }
}

/// `minicbor::Decoder::bytes` at `pos`: a definite byte string and the position
/// behind it.
#[verifier::external_body]
fn decode_bytes<'a>(input: &'a [u8], pos: usize) -> (r: Option<(&'a [u8], usize)>)
    ensures
        match take_bytes(bytes_from(input@, pos as int)) {
            Some((s, t)) => r is Some && (r->0).0@ == s && bytes_from(input@, (r->0).1 as int) == t,
            None => r is None,
        },
{
    let mut decoder = Decoder::new(input);
    decoder.set_position(pos);
    match decoder.bytes() {
        Ok(value) => Some((value, decoder.position())),
        Err(_) => None,
    }
}

/// `minicbor::Decoder::u64` at `pos`: an unsigned integer in any width and the
/// position behind it.
#[verifier::external_body]
fn decode_u64(input: &[u8], pos: usize) -> (r: Option<(u64, usize)>)
    ensures
        match take_uint(bytes_from(input@, pos as int)) {
            Some((n, t)) => r is Some && (r->0).0 == n && bytes_from(input@, (r->0).1 as int) == t,
            None => r is None,
        },
{
    let mut decoder = Decoder::new(input);
    decoder.set_position(pos);
    match decoder.u64() {
        Ok(value) => Some((value, decoder.position())),
        Err(_) => None,
    }
}

/// `minicbor::Decoder::u32` at `pos`: an unsigned integer in any width whose
/// value fits, and the position behind it.
#[verifier::external_body]
fn decode_u32(input: &[u8], pos: usize) -> (r: Option<(u32, usize)>)
    ensures
        match take_uint(bytes_from(input@, pos as int)) {
            Some((n, t)) => if n <= u32::MAX {
                r is Some && (r->0).0 == n && bytes_from(input@, (r->0).1 as int) == t
            } else {
                r is None
            },
            None => r is None,
        },
{
    let mut decoder = Decoder::new(input);
    decoder.set_position(pos);
    match decoder.u32() {
        Ok(value) => Some((value, decoder.position())),
        Err(_) => None,
    }
}

/// `minicbor::Decoder::u16` at `pos`: an unsigned integer in any width whose
/// value fits, and the position behind it.
#[verifier::external_body]
fn decode_u16(input: &[u8], pos: usize) -> (r: Option<(u16, usize)>)
    ensures
        match take_uint(bytes_from(input@, pos as int)) {
            Some((n, t)) => if n <= u16::MAX {
                r is Some && (r->0).0 == n && bytes_from(input@, (r->0).1 as int) == t
            } else {
                r is None
            },
            None => r is None,
        },
{
    let mut decoder = Decoder::new(input);
    decoder.set_position(pos);
    match decoder.u16() {
        Ok(value) => Some((value, decoder.position())),
        Err(_) => None,
    }
}

/// `minicbor::Decoder::u8` at `pos`: an unsigned integer in any width whose
/// value fits, and the position behind it.
#[verifier::external_body]
fn decode_u8(input: &[u8], pos: usize) -> (r: Option<(u8, usize)>)
    ensures
        match take_uint(bytes_from(input@, pos as int)) {
            Some((n, t)) => if n <= u8::MAX {
                r is Some && (r->0).0 == n && bytes_from(input@, (r->0).1 as int) == t
            } else {
                r is None
            },
            None => r is None,
        },
{
    let mut decoder = Decoder::new(input);
    decoder.set_position(pos);
    match decoder.u8() {
        Ok(value) => Some((value, decoder.position())),
        Err(_) => None,
    }
}

/// `minicbor::Decoder::i64` at `pos`: a signed integer in any width whose value
/// fits, and the position behind it.
#[verifier::external_body]
fn decode_i64(input: &[u8], pos: usize) -> (r: Option<(i64, usize)>)
    ensures
        match take_int(bytes_from(input@, pos as int)) {
            Some((n, t)) => r is Some && (r->0).0 == n && bytes_from(input@, (r->0).1 as int) == t,
            None => r is None,
        },
{
    let mut decoder = Decoder::new(input);
    decoder.set_position(pos);
    match decoder.i64() {
        Ok(value) => Some((value, decoder.position())),
        Err(_) => None,
    }
}

/// `minicbor::Decoder::bool` at `pos`: a truth value and the position behind
/// it.
#[verifier::external_body]
fn decode_bool(input: &[u8], pos: usize) -> (r: Option<(bool, usize)>)
    ensures
        match take_bool(bytes_from(input@, pos as int)) {
            Some((v, t)) => r is Some && (r->0).0 == v && bytes_from(input@, (r->0).1 as int) == t,
            None => r is None,
        },
{
    let mut decoder = Decoder::new(input);
    decoder.set_position(pos);
    match decoder.bool() {
        Ok(value) => Some((value, decoder.position())),
        Err(_) => None,
    }
}

/// `minicbor::Decoder::null` at `pos`: the position behind a null value.
#[verifier::external_body]
fn decode_null(input: &[u8], pos: usize) -> (r: Option<usize>)
    ensures
        match take_null(bytes_from(input@, pos as int)) {
            Some(t) => r is Some && bytes_from(input@, r->0 as int) == t,
            None => r is None,
        },
{
    let mut decoder = Decoder::new(input);
    decoder.set_position(pos);
    match decoder.null() {
        Ok(()) => Some(decoder.position()),
        Err(_) => None,
    }
}

/// `minicbor::Decoder::datatype` at `pos`: whether the item there is the null
/// value. An item that `datatype` cannot name is not.
#[verifier::external_body]
fn is_null_type(input: &[u8], pos: usize) -> (r: bool)
    ensures
        r == (take_null(bytes_from(input@, pos as int)) is Some),
{
    let mut decoder = Decoder::new(input);
    decoder.set_position(pos);
    matches!(decoder.datatype(), Ok(Type::Null))
}

/// What stands at the front of `b`: how many further items the item there
/// announces, and what follows its own bytes. Only definite lengths are
/// described, and no tags or floating-point numbers.
pub open spec fn item_at(b: Seq<u8>) -> Option<(nat, Seq<u8>)> {
    if let Some((_, t)) = take_head(UNSIGNED, b) {
        Some((0, t))
    } else if let Some((_, t)) = take_head(NEGATIVE, b) {
        Some((0, t))
    } else if let Some((_, t)) = take_bytes(b) {
        Some((0, t))
    } else if let Some((_, t)) = take_text(b) {
        Some((0, t))
    } else if let Some((n, t)) = take_array(b) {
        Some((n as nat, t))
    } else if let Some((n, t)) = take_map(b) {
        Some((2 * n as nat, t))
    } else if b.len() > 0 && 0xe0 <= b[0] <= 0xf7 {
        Some((0, b.skip(1)))
    } else {
        None
    }
}

/// What follows the first `n` items of `b`, counting what they announce as
/// part of them.
pub open spec fn items_after(b: Seq<u8>, n: nat) -> Option<Seq<u8>>
    decreases b.len(),
{
    if n == 0 {
        Some(b)
    } else {
        match item_at(b) {
            Some((more, t)) => if t.len() < b.len() {
                items_after(t, (n - 1 + more) as nat)
            } else {
                None
            },
            None => None,
        }
    }
}

/// What follows the item at the front of some bytes, as
/// `minicbor::Decoder::skip` finds it.
pub uninterp spec fn skipped(b: Seq<u8>) -> Option<Seq<u8>>;

/// What follows the item at the front of `b`: the end of the item where its
/// lengths are definite, and otherwise what skipping it finds.
pub open spec fn passed(b: Seq<u8>) -> Option<Seq<u8>> {
    match items_after(b, 1) {
        Some(t) => Some(t),
        None => skipped(b),
    }
}

/// `minicbor::Decoder::skip` at `pos`: the position behind the item there. On an
/// item of definite lengths that is where the item ends.
#[verifier::external_body]
fn decode_skip(input: &[u8], pos: usize) -> (r: Option<usize>)
    ensures
        match skipped(bytes_from(input@, pos as int)) {
            Some(t) => r is Some && bytes_from(input@, r->0 as int) == t,
            None => r is None,
        },
        match items_after(bytes_from(input@, pos as int), 1) {
            Some(t) => r is Some && bytes_from(input@, r->0 as int) == t,
            None => true,
        },
{
    let mut decoder = Decoder::new(input);
    decoder.set_position(pos);
    match decoder.skip() {
        Ok(()) => Some(decoder.position()),
        Err(_) => None,
    }
}

/// A string is no item of another type.
proof fn lemma_no_other(major: u8, len: u64, s: Seq<u8>, t: Seq<u8>)
    requires
        major == BYTES || major == TEXT,
    ensures
        forall|other: u8|
            other != major ==> #[trigger] take_head(other,
                (head_bytes(major, len) + s) + t) is None,
        major == TEXT ==> take_bytes((head_bytes(major, len) + s) + t) is None,
{
    reveal(take_bytes);
    lemma_regroup(head_bytes(major, len), s, t);
    lemma_head(major, len, s + t);
}

/// An item of another type is no string.
proof fn lemma_no_string(b: Seq<u8>)
    ensures
        take_head(BYTES, b) is None ==> take_bytes(b) is None,
        take_head(TEXT, b) is None ==> take_text(b) is None,
{
    reveal(take_bytes);
    reveal(take_text);
}

/// A simple value is no item of another type.
proof fn lemma_simple(b: Seq<u8>)
    requires
        b.len() > 0,
        0xe0 <= b[0],
    ensures
        forall|major: u8| major < 7 ==> #[trigger] take_head(major, b) is None,
        take_bytes(b) is None,
        take_text(b) is None,
{
    reveal(take_head);
    reveal(take_bytes);
    reveal(take_text);
}

/// Each item that this library writes counts as one.
pub proof fn lemma_items()
    ensures
        forall|s: Seq<char>, t: Seq<u8>, n: nat|
            #![trigger items_after(text_item(s) + t, n)]
            n > 0 && (text_item(s) + t).len() <= u64::MAX
                ==> items_after(text_item(s) + t, n) == items_after(
                t,
                (n - 1) as nat,
            ),
        forall|s: Seq<u8>, t: Seq<u8>, n: nat|
            #![trigger items_after(bytes_item(s) + t, n)]
            n > 0 && (bytes_item(s) + t).len() <= u64::MAX
                ==> items_after(bytes_item(s) + t, n) == items_after(
                t,
                (n - 1) as nat,
            ),
        forall|k: u64, t: Seq<u8>, n: nat|
            #![trigger items_after(uint_item(k) + t, n)]
            n > 0 && (uint_item(k) + t).len() <= u64::MAX
                ==> items_after(uint_item(k) + t, n) == items_after(
                t,
                (n - 1) as nat,
            ),
        forall|k: u64, t: Seq<u8>, n: nat|
            #![trigger items_after(array_head(k) + t, n)]
            n > 0 && (array_head(k) + t).len() <= u64::MAX
                ==> items_after(array_head(k) + t, n) == items_after(
                t,
                (n - 1 + k) as nat,
            ),
        forall|k: u64, t: Seq<u8>, n: nat|
            #![trigger items_after(map_head(k) + t, n)]
            n > 0 && (map_head(k) + t).len() <= u64::MAX
                ==> items_after(map_head(k) + t, n) == items_after(
                t,
                (n - 1 + 2 * k) as nat,
            ),
        forall|k: i64, t: Seq<u8>, n: nat|
            #![trigger items_after(int_item(k) + t, n)]
            n > 0 && (int_item(k) + t).len() <= u64::MAX
                ==> items_after(int_item(k) + t, n) == items_after(
                t,
                (n - 1) as nat,
            ),
        forall|v: bool, t: Seq<u8>, n: nat|
            #![trigger items_after(bool_item(v) + t, n)]
            n > 0 && (bool_item(v) + t).len() <= u64::MAX
                ==> items_after(bool_item(v) + t, n) == items_after(
                t,
                (n - 1) as nat,
            ),
        forall|t: Seq<u8>, n: nat|
            #![trigger items_after(null_item() + t, n)]
            n > 0 && (null_item() + t).len() <= u64::MAX
                ==> items_after(null_item() + t, n) == items_after(
                t,
                (n - 1) as nat,
            ),
{
    assert forall|s: Seq<char>, t: Seq<u8>, n: nat|
        #![trigger items_after(text_item(s) + t, n)]
        n > 0 && (text_item(s) + t).len() <= u64::MAX
            implies items_after(text_item(s) + t, n) == items_after(
        t,
        (n - 1) as nat,
    ) by {
        lemma_text_within(s, t);
        lemma_text_len(s);
        reveal(text_item);
        lemma_no_other(TEXT, encode_utf8(s).len() as u64, encode_utf8(s), t);
    }
    assert forall|s: Seq<u8>, t: Seq<u8>, n: nat|
        #![trigger items_after(bytes_item(s) + t, n)]
        n > 0 && (bytes_item(s) + t).len() <= u64::MAX
            implies items_after(bytes_item(s) + t, n) == items_after(
        t,
        (n - 1) as nat,
    ) by {
        lemma_bytes_within(s, t);
        lemma_bytes_len(s);
        reveal(bytes_item);
        lemma_no_other(BYTES, s.len() as u64, s, t);
    }
    assert forall|k: u64, t: Seq<u8>, n: nat|
        #![trigger items_after(uint_item(k) + t, n)]
        n > 0 && (uint_item(k) + t).len() <= u64::MAX
            implies items_after(uint_item(k) + t, n) == items_after(
        t,
        (n - 1) as nat,
    ) by {
        lemma_head(UNSIGNED, k, t);
    }
    assert forall|k: u64, t: Seq<u8>, n: nat|
        #![trigger items_after(array_head(k) + t, n)]
        n > 0 && (array_head(k) + t).len() <= u64::MAX
            implies items_after(array_head(k) + t, n) == items_after(
        t,
        (n - 1 + k) as nat,
    ) by {
        lemma_head(ARRAY, k, t);
        lemma_no_string(array_head(k) + t);
    }
    assert forall|k: u64, t: Seq<u8>, n: nat|
        #![trigger items_after(map_head(k) + t, n)]
        n > 0 && (map_head(k) + t).len() <= u64::MAX
            implies items_after(map_head(k) + t, n) == items_after(
        t,
        (n - 1 + 2 * k) as nat,
    ) by {
        lemma_head(MAP, k, t);
        lemma_no_string(map_head(k) + t);
    }
    assert forall|k: i64, t: Seq<u8>, n: nat|
        #![trigger items_after(int_item(k) + t, n)]
        n > 0 && (int_item(k) + t).len() <= u64::MAX
            implies items_after(int_item(k) + t, n) == items_after(
        t,
        (n - 1) as nat,
    ) by {
        reveal(int_item);
        if k >= 0 {
            lemma_head(UNSIGNED, k as u64, t);
        } else {
            lemma_head(NEGATIVE, (-1 - k) as u64, t);
        }
    }
    assert forall|v: bool, t: Seq<u8>, n: nat|
        #![trigger items_after(bool_item(v) + t, n)]
        n > 0 && (bool_item(v) + t).len() <= u64::MAX
            implies items_after(bool_item(v) + t, n) == items_after(
        t,
        (n - 1) as nat,
    ) by {
        reveal(bool_item);
        lemma_simple(bool_item(v) + t);
        assert((bool_item(v) + t).skip(1) =~= t);
    }
    assert forall|t: Seq<u8>, n: nat|
        #![trigger items_after(null_item() + t, n)]
        n > 0 && (null_item() + t).len() <= u64::MAX
            implies items_after(null_item() + t, n) == items_after(
        t,
        (n - 1) as nat,
    ) by {
        reveal(null_item);
        lemma_simple(null_item() + t);
        assert((null_item() + t).skip(1) =~= t);
    }
}

/// Appends items to a growing byte vector.
pub struct Writer {
    out: Vec<u8>,
}

impl View for Writer {
    type V = Seq<u8>;

    closed spec fn view(&self) -> Seq<u8> {
        self.out@
    }
}

impl Writer {
    /// An empty writer.
    pub fn new() -> (w: Writer)
        ensures
            w@ == Seq::<u8>::empty(),
            forall|t: Seq<u8>| #[trigger] (w@ + t) == t,
    {
        let w = Writer { out: Vec::new() };
        assert forall|t: Seq<u8>| #[trigger] (w@ + t) == t by {
            assert(w@ + t =~= t);
        }
        w
    }

    /// The bytes written so far.
    pub fn finish(self) -> (out: Vec<u8>)
        ensures
            out@ == self@,
            self@ + Seq::<u8>::empty() == self@,
    {
        assert(self@ + Seq::<u8>::empty() =~= self@);
        self.out
    }

    /// Appends an array head.
    pub fn array(&mut self, n: u64)
        ensures
            final(self)@ == old(self)@ + array_head(n),
            forall|t: Seq<u8>|
                #![trigger old(self)@ + (array_head(n) + t)]
                final(self)@ + t == old(self)@ + (array_head(n) + t),
    {
        encode_array(&mut self.out, n);
        proof {
            lemma_regroup_all(old(self)@, array_head(n));
        }
    }

    /// Appends a map head.
    pub fn map(&mut self, n: u64)
        ensures
            final(self)@ == old(self)@ + map_head(n),
            forall|t: Seq<u8>|
                #![trigger old(self)@ + (map_head(n) + t)]
                final(self)@ + t == old(self)@ + (map_head(n) + t),
    {
        encode_map(&mut self.out, n);
        proof {
            lemma_regroup_all(old(self)@, map_head(n));
        }
    }

    /// Appends a text string.
    pub fn str(&mut self, value: &str)
        ensures
            final(self)@ == old(self)@ + text_item(value@),
            forall|t: Seq<u8>|
                #![trigger old(self)@ + (text_item(value@) + t)]
                final(self)@ + t == old(self)@ + (text_item(value@) + t),
    {
        encode_text(&mut self.out, value);
        proof {
            lemma_regroup_all(old(self)@, text_item(value@));
        }
    }

    /// Appends a byte string.
    pub fn bytes(&mut self, value: &[u8])
        ensures
            final(self)@ == old(self)@ + bytes_item(value@),
            forall|t: Seq<u8>|
                #![trigger old(self)@ + (bytes_item(value@) + t)]
                final(self)@ + t == old(self)@ + (bytes_item(value@) + t),
    {
        encode_bytes(&mut self.out, value);
        proof {
            lemma_regroup_all(old(self)@, bytes_item(value@));
        }
    }

    /// Appends an unsigned integer.
    pub fn u64(&mut self, value: u64)
        ensures
            final(self)@ == old(self)@ + uint_item(value),
            forall|t: Seq<u8>|
                #![trigger old(self)@ + (uint_item(value) + t)]
                final(self)@ + t == old(self)@ + (uint_item(value) + t),
    {
        encode_u64(&mut self.out, value);
        proof {
            lemma_regroup_all(old(self)@, uint_item(value));
        }
    }

    /// Appends an unsigned integer.
    pub fn u32(&mut self, value: u32)
        ensures
            final(self)@ == old(self)@ + uint_item(value as u64),
            forall|t: Seq<u8>|
                #![trigger old(self)@ + (uint_item(value as u64) + t)]
                final(self)@ + t == old(self)@ + (uint_item(value as u64) + t),
    {
        encode_u32(&mut self.out, value);
        proof {
            lemma_regroup_all(old(self)@, uint_item(value as u64));
        }
    }

    /// Appends an unsigned integer.
    pub fn u16(&mut self, value: u16)
        ensures
            final(self)@ == old(self)@ + uint_item(value as u64),
            forall|t: Seq<u8>|
                #![trigger old(self)@ + (uint_item(value as u64) + t)]
                final(self)@ + t == old(self)@ + (uint_item(value as u64) + t),
    {
        encode_u16(&mut self.out, value);
        proof {
            lemma_regroup_all(old(self)@, uint_item(value as u64));
        }
    }

    /// Appends an unsigned integer.
    pub fn u8(&mut self, value: u8)
        ensures
            final(self)@ == old(self)@ + uint_item(value as u64),
            forall|t: Seq<u8>|
                #![trigger old(self)@ + (uint_item(value as u64) + t)]
                final(self)@ + t == old(self)@ + (uint_item(value as u64) + t),
    {
        encode_u8(&mut self.out, value);
        proof {
            lemma_regroup_all(old(self)@, uint_item(value as u64));
        }
    }

    /// Appends a signed integer.
    pub fn i64(&mut self, value: i64)
        ensures
            final(self)@ == old(self)@ + int_item(value),
            forall|t: Seq<u8>|
                #![trigger old(self)@ + (int_item(value) + t)]
                final(self)@ + t == old(self)@ + (int_item(value) + t),
    {
        encode_i64(&mut self.out, value);
        proof {
            lemma_regroup_all(old(self)@, int_item(value));
        }
    }

    /// Appends a truth value.
    pub fn bool(&mut self, value: bool)
        ensures
            final(self)@ == old(self)@ + bool_item(value),
            forall|t: Seq<u8>|
                #![trigger old(self)@ + (bool_item(value) + t)]
                final(self)@ + t == old(self)@ + (bool_item(value) + t),
    {
        encode_bool(&mut self.out, value);
        proof {
            lemma_regroup_all(old(self)@, bool_item(value));
        }
    }

    /// Appends the null value.
    pub fn null(&mut self)
        ensures
            final(self)@ == old(self)@ + null_item(),
            forall|t: Seq<u8>|
                #![trigger old(self)@ + (null_item() + t)]
                final(self)@ + t == old(self)@ + (null_item() + t),
    {
        encode_null(&mut self.out);
        proof {
            lemma_regroup_all(old(self)@, null_item());
        }
    }

    /// Appends bytes that are already encoded.
    pub fn raw(&mut self, value: &[u8])
        ensures
            final(self)@ == old(self)@ + value@,
            forall|t: Seq<u8>|
                #![trigger old(self)@ + (value@ + t)]
                final(self)@ + t == old(self)@ + (value@ + t),
    {
        self.out.extend_from_slice(value);
        proof {
            lemma_regroup_all(old(self)@, value@);
        }
    }

    /// Appends a byte string, or the null value where there is none.
    pub fn optional_bytes(&mut self, value: Option<&[u8]>)
        ensures
            final(self)@ == old(self)@ + optional_bytes_item(opt_view(value)),
            forall|t: Seq<u8>|
                #![trigger old(self)@ + (optional_bytes_item(opt_view(value)) + t)]
                final(self)@ + t == old(self)@ + (optional_bytes_item(opt_view(value)) + t),
    {
        match value {
            Some(value) => encode_bytes(&mut self.out, value),
            None => encode_null(&mut self.out),
        }
        proof {
            lemma_regroup_all(old(self)@, optional_bytes_item(opt_view(value)));
        }
    }

    /// Appends an unsigned integer, or the null value where there is none.
    pub fn optional_u64(&mut self, value: Option<u64>)
        ensures
            final(self)@ == old(self)@ + optional_uint_item(value),
            forall|t: Seq<u8>|
                #![trigger old(self)@ + (optional_uint_item(value) + t)]
                final(self)@ + t == old(self)@ + (optional_uint_item(value) + t),
    {
        match value {
            Some(value) => encode_u64(&mut self.out, value),
            None => encode_null(&mut self.out),
        }
        proof {
            lemma_regroup_all(old(self)@, optional_uint_item(value));
        }
    }

    /// Appends a text string, or the null value where there is none.
    pub fn optional_str(&mut self, value: Option<&str>)
        ensures
            final(self)@ == old(self)@ + optional_text_item(opt_text(value)),
            forall|t: Seq<u8>|
                #![trigger old(self)@ + (optional_text_item(opt_text(value)) + t)]
                final(self)@ + t == old(self)@ + (optional_text_item(opt_text(value)) + t),
    {
        match value {
            Some(value) => encode_text(&mut self.out, value),
            None => encode_null(&mut self.out),
        }
        proof {
            lemma_regroup_all(old(self)@, optional_text_item(opt_text(value)));
        }
    }
}

/// Concatenation in either grouping gives the same bytes, whatever comes last.
pub proof fn lemma_regroup_all(a: Seq<u8>, b: Seq<u8>)
    ensures
        forall|c: Seq<u8>| #![trigger a + (b + c)] (a + b) + c == a + (b + c),
{
    assert forall|c: Seq<u8>| #![trigger a + (b + c)] (a + b) + c == a + (b + c) by {
        lemma_regroup(a, b, c);
    }
}

/// Arrays of 16 bytes with the same elements are the same.
pub proof fn lemma_array16(a: [u8; 16], b: [u8; 16])
    requires
        a@ == b@,
    ensures
        a == b,
{
    assert forall|i: int| 0 <= i < 16 implies a[i] == b[i] by {
        assert(a@[i] == b@[i]);
    }
    assert(a =~= b);
}

/// Arrays of 32 bytes with the same elements are the same.
pub proof fn lemma_array32(a: [u8; 32], b: [u8; 32])
    requires
        a@ == b@,
    ensures
        a == b,
{
    assert forall|i: int| 0 <= i < 32 implies a[i] == b[i] by {
        assert(a@[i] == b@[i]);
    }
    assert(a =~= b);
}

/// Arrays of 44 bytes with the same elements are the same.
pub proof fn lemma_array44(a: [u8; 44], b: [u8; 44])
    requires
        a@ == b@,
    ensures
        a == b,
{
    assert forall|i: int| 0 <= i < 44 implies a[i] == b[i] by {
        assert(a@[i] == b@[i]);
    }
    assert(a =~= b);
}

/// Arrays of 64 bytes with the same elements are the same.
pub proof fn lemma_array64(a: [u8; 64], b: [u8; 64])
    requires
        a@ == b@,
    ensures
        a == b,
{
    assert forall|i: int| 0 <= i < 64 implies a[i] == b[i] by {
        assert(a@[i] == b@[i]);
    }
    assert(a =~= b);
}

/// Reads items from the front of a byte slice.
pub struct Reader<'a> {
    input: &'a [u8],
    pos: usize,
}

impl<'a> Reader<'a> {
    /// The bytes not read yet.
    pub closed spec fn rest(&self) -> Seq<u8> {
        bytes_from(self.input@, self.pos as int)
    }

    /// What is left to read fits in memory.
    pub proof fn lemma_rest_len(&self)
        ensures
            self.rest().len() <= usize::MAX,
    {
        assert(self.input.len() == self.input@.len());
    }

    /// A reader at the start of `input`.
    pub fn new(input: &'a [u8]) -> (r: Reader<'a>)
        ensures
            r.rest() == input@,
    {
        let r = Reader { input, pos: 0 };
        assert(r.rest() =~= input@);
        r
    }

    /// Whether everything has been read.
    pub fn at_end(&self) -> (r: bool)
        ensures
            r == (self.rest().len() == 0),
    {
        self.pos >= self.input.len()
    }

    /// Reads the head of a definite array.
    pub fn array(&mut self) -> (r: Option<u64>)
        ensures
            match take_array(old(self).rest()) {
                Some((n, t)) => r is Some && r->0 == n && final(self).rest() == t,
                None => r is None,
            },
            r is None ==> final(self).rest() == old(self).rest(),
            forall|n: u64, t: Seq<u8>|
                #![trigger array_head(n) + t]
                old(self).rest() == array_head(n) + t ==> r is Some && r->0 == n
                    && final(self).rest() == t,
            forall|n: u64|
                old(self).rest() == #[trigger] array_head(n) ==> r is Some && r->0 == n
                    && final(self).rest().len() == 0,
    {
        proof {
            assert(old(self).rest() + Seq::<u8>::empty() =~= old(self).rest());
            assert forall|n: u64, t: Seq<u8>|
                #![trigger array_head(n) + t]
                true implies take_array(array_head(n) + t) == Some((n, t)) by {
                lemma_array(n, t);
            }
        }
        match decode_array(self.input, self.pos) {
            Some((value, pos)) => {
                self.pos = pos;
                Some(value)
            },
            None => None,
        }
    }

    /// Reads the head of a definite map.
    pub fn map(&mut self) -> (r: Option<u64>)
        ensures
            match take_map(old(self).rest()) {
                Some((n, t)) => r is Some && r->0 == n && final(self).rest() == t,
                None => r is None,
            },
            r is None ==> final(self).rest() == old(self).rest(),
            forall|n: u64, t: Seq<u8>|
                #![trigger map_head(n) + t]
                old(self).rest() == map_head(n) + t ==> r is Some && r->0 == n
                    && final(self).rest() == t,
            forall|n: u64|
                old(self).rest() == #[trigger] map_head(n) ==> r is Some && r->0 == n
                    && final(self).rest().len() == 0,
    {
        proof {
            assert(old(self).rest() + Seq::<u8>::empty() =~= old(self).rest());
            assert forall|n: u64, t: Seq<u8>|
                #![trigger map_head(n) + t]
                true implies take_map(map_head(n) + t) == Some((n, t)) by {
                lemma_map(n, t);
            }
        }
        match decode_map(self.input, self.pos) {
            Some((value, pos)) => {
                self.pos = pos;
                Some(value)
            },
            None => None,
        }
    }

    /// Reads a text string.
    pub fn str(&mut self) -> (r: Option<&'a str>)
        ensures
            match take_text(old(self).rest()) {
                Some((s, t)) => r is Some && (r->0)@ == s && final(self).rest() == t,
                None => r is None,
            },
            r is None ==> final(self).rest() == old(self).rest(),
            forall|s: Seq<char>, t: Seq<u8>|
                #![trigger text_item(s) + t]
                old(self).rest() == text_item(s) + t ==> r is Some && (r->0)@ == s
                    && final(self).rest() == t,
            forall|s: Seq<char>|
                old(self).rest() == #[trigger] text_item(s) ==> r is Some && (r->0)@ == s
                    && final(self).rest().len() == 0,
    {
        proof {
            assert(old(self).rest() + Seq::<u8>::empty() =~= old(self).rest());
            assert forall|s: Seq<char>, t: Seq<u8>|
                #![trigger text_item(s) + t]
                old(self).rest() == text_item(s) + t
                    implies take_text(text_item(s) + t) == Some((s, t)) by {
                reveal(text_item);
                old(self).lemma_rest_len();
                lemma_text(s, t);
            }
        }
        match decode_text(self.input, self.pos) {
            Some((value, pos)) => {
                self.pos = pos;
                Some(value)
            },
            None => None,
        }
    }

    /// Reads a byte string.
    pub fn bytes(&mut self) -> (r: Option<&'a [u8]>)
        ensures
            match take_bytes(old(self).rest()) {
                Some((s, t)) => r is Some && (r->0)@ == s && final(self).rest() == t,
                None => r is None,
            },
            r is None ==> final(self).rest() == old(self).rest(),
            forall|s: Seq<u8>, t: Seq<u8>|
                #![trigger bytes_item(s) + t]
                old(self).rest() == bytes_item(s) + t ==> r is Some && (r->0)@ == s
                    && final(self).rest() == t,
            forall|s: Seq<u8>|
                old(self).rest() == #[trigger] bytes_item(s) ==> r is Some && (r->0)@ == s
                    && final(self).rest().len() == 0,
    {
        proof {
            assert(old(self).rest() + Seq::<u8>::empty() =~= old(self).rest());
            assert forall|s: Seq<u8>, t: Seq<u8>|
                #![trigger bytes_item(s) + t]
                old(self).rest() == bytes_item(s) + t
                    implies take_bytes(bytes_item(s) + t) == Some((s, t)) by {
                reveal(bytes_item);
                old(self).lemma_rest_len();
                lemma_bytes(s, t);
            }
        }
        match decode_bytes(self.input, self.pos) {
            Some((value, pos)) => {
                self.pos = pos;
                Some(value)
            },
            None => None,
        }
    }

    /// Reads an unsigned integer.
    pub fn u64(&mut self) -> (r: Option<u64>)
        ensures
            match take_uint(old(self).rest()) {
                Some((n, t)) => r is Some && r->0 == n && final(self).rest() == t,
                None => r is None,
            },
            r is None ==> final(self).rest() == old(self).rest(),
            forall|n: u64, t: Seq<u8>|
                #![trigger uint_item(n) + t]
                old(self).rest() == uint_item(n) + t ==> r is Some && r->0 == n
                    && final(self).rest() == t,
            forall|n: u64|
                old(self).rest() == #[trigger] uint_item(n) ==> r is Some && r->0 == n
                    && final(self).rest().len() == 0,
    {
        proof {
            assert(old(self).rest() + Seq::<u8>::empty() =~= old(self).rest());
            assert forall|n: u64, t: Seq<u8>|
                #![trigger uint_item(n) + t]
                true implies take_uint(uint_item(n) + t) == Some((n, t)) by {
                lemma_uint(n, t);
            }
        }
        match decode_u64(self.input, self.pos) {
            Some((value, pos)) => {
                self.pos = pos;
                Some(value)
            },
            None => None,
        }
    }

    /// Reads an unsigned integer that fits in a `u32`.
    pub fn u32(&mut self) -> (r: Option<u32>)
        ensures
            match take_uint_to(old(self).rest(), u32::MAX as u64) {
                Some((n, t)) => r is Some && r->0 == n && final(self).rest() == t,
                None => r is None,
            },
            r is None ==> final(self).rest() == old(self).rest(),
            forall|n: u64, t: Seq<u8>|
                #![trigger uint_item(n) + t]
                n <= u32::MAX && old(self).rest() == uint_item(n) + t ==> r is Some && r->0 == n
                    && final(self).rest() == t,
            forall|n: u64|
                n <= u32::MAX && old(self).rest() == #[trigger] uint_item(n) ==> r is Some
                    && r->0 == n && final(self).rest().len() == 0,
    {
        proof {
            assert(old(self).rest() + Seq::<u8>::empty() =~= old(self).rest());
            assert forall|n: u64, t: Seq<u8>|
                #![trigger uint_item(n) + t]
                true implies take_uint(uint_item(n) + t) == Some((n, t)) by {
                lemma_uint(n, t);
            }
        }
        match decode_u32(self.input, self.pos) {
            Some((value, pos)) => {
                self.pos = pos;
                Some(value)
            },
            None => None,
        }
    }

    /// Reads an unsigned integer that fits in a `u16`.
    pub fn u16(&mut self) -> (r: Option<u16>)
        ensures
            match take_uint_to(old(self).rest(), u16::MAX as u64) {
                Some((n, t)) => r is Some && r->0 == n && final(self).rest() == t,
                None => r is None,
            },
            r is None ==> final(self).rest() == old(self).rest(),
            forall|n: u64, t: Seq<u8>|
                #![trigger uint_item(n) + t]
                n <= u16::MAX && old(self).rest() == uint_item(n) + t ==> r is Some && r->0 == n
                    && final(self).rest() == t,
            forall|n: u64|
                n <= u16::MAX && old(self).rest() == #[trigger] uint_item(n) ==> r is Some
                    && r->0 == n && final(self).rest().len() == 0,
    {
        proof {
            assert(old(self).rest() + Seq::<u8>::empty() =~= old(self).rest());
            assert forall|n: u64, t: Seq<u8>|
                #![trigger uint_item(n) + t]
                true implies take_uint(uint_item(n) + t) == Some((n, t)) by {
                lemma_uint(n, t);
            }
        }
        match decode_u16(self.input, self.pos) {
            Some((value, pos)) => {
                self.pos = pos;
                Some(value)
            },
            None => None,
        }
    }

    /// Reads an unsigned integer that fits in a `u8`.
    pub fn u8(&mut self) -> (r: Option<u8>)
        ensures
            match take_uint_to(old(self).rest(), u8::MAX as u64) {
                Some((n, t)) => r is Some && r->0 == n && final(self).rest() == t,
                None => r is None,
            },
            r is None ==> final(self).rest() == old(self).rest(),
            forall|n: u64, t: Seq<u8>|
                #![trigger uint_item(n) + t]
                n <= u8::MAX && old(self).rest() == uint_item(n) + t ==> r is Some && r->0 == n
                    && final(self).rest() == t,
            forall|n: u64|
                n <= u8::MAX && old(self).rest() == #[trigger] uint_item(n) ==> r is Some
                    && r->0 == n && final(self).rest().len() == 0,
    {
        proof {
            assert(old(self).rest() + Seq::<u8>::empty() =~= old(self).rest());
            assert forall|n: u64, t: Seq<u8>|
                #![trigger uint_item(n) + t]
                true implies take_uint(uint_item(n) + t) == Some((n, t)) by {
                lemma_uint(n, t);
            }
        }
        match decode_u8(self.input, self.pos) {
            Some((value, pos)) => {
                self.pos = pos;
                Some(value)
            },
            None => None,
        }
    }

    /// Reads a signed integer.
    pub fn i64(&mut self) -> (r: Option<i64>)
        ensures
            match take_int(old(self).rest()) {
                Some((n, t)) => r is Some && r->0 == n && final(self).rest() == t,
                None => r is None,
            },
            r is None ==> final(self).rest() == old(self).rest(),
            forall|n: i64, t: Seq<u8>|
                #![trigger int_item(n) + t]
                old(self).rest() == int_item(n) + t ==> r is Some && r->0 == n
                    && final(self).rest() == t,
            forall|n: i64|
                old(self).rest() == #[trigger] int_item(n) ==> r is Some && r->0 == n
                    && final(self).rest().len() == 0,
    {
        proof {
            assert(old(self).rest() + Seq::<u8>::empty() =~= old(self).rest());
            assert forall|n: i64, t: Seq<u8>|
                #![trigger int_item(n) + t]
                true implies take_int(int_item(n) + t) == Some((n, t)) by {
                lemma_int(n, t);
            }
        }
        match decode_i64(self.input, self.pos) {
            Some((value, pos)) => {
                self.pos = pos;
                Some(value)
            },
            None => None,
        }
    }

    /// Reads a truth value.
    pub fn bool(&mut self) -> (r: Option<bool>)
        ensures
            match take_bool(old(self).rest()) {
                Some((v, t)) => r is Some && r->0 == v && final(self).rest() == t,
                None => r is None,
            },
            r is None ==> final(self).rest() == old(self).rest(),
            forall|v: bool, t: Seq<u8>|
                #![trigger bool_item(v) + t]
                old(self).rest() == bool_item(v) + t ==> r is Some && r->0 == v
                    && final(self).rest() == t,
            forall|v: bool|
                old(self).rest() == #[trigger] bool_item(v) ==> r is Some && r->0 == v
                    && final(self).rest().len() == 0,
    {
        proof {
            assert(old(self).rest() + Seq::<u8>::empty() =~= old(self).rest());
            assert forall|v: bool, t: Seq<u8>|
                #![trigger bool_item(v) + t]
                true implies take_bool(bool_item(v) + t) == Some((v, t)) by {
                lemma_bool(v, t);
            }
        }
        match decode_bool(self.input, self.pos) {
            Some((value, pos)) => {
                self.pos = pos;
                Some(value)
            },
            None => None,
        }
    }

    /// Reads the null value.
    pub fn null(&mut self) -> (r: Option<()>)
        ensures
            match take_null(old(self).rest()) {
                Some(t) => r is Some && final(self).rest() == t,
                None => r is None,
            },
            r is None ==> final(self).rest() == old(self).rest(),
            forall|t: Seq<u8>|
                #![trigger null_item() + t]
                old(self).rest() == null_item() + t ==> r is Some && final(self).rest() == t,
            old(self).rest() == null_item() ==> r is Some && final(self).rest().len() == 0,
    {
        proof {
            assert(old(self).rest() + Seq::<u8>::empty() =~= old(self).rest());
            assert forall|t: Seq<u8>| #![trigger null_item() + t] true implies take_null(
                null_item() + t,
            ) == Some(t) by {
                lemma_null(t);
            }
        }
        match decode_null(self.input, self.pos) {
            Some(pos) => {
                self.pos = pos;
                Some(())
            },
            None => None,
        }
    }

    /// Passes over one item of any type.
    pub fn skip(&mut self) -> (r: Option<()>)
        ensures
            match passed(old(self).rest()) {
                Some(t) => r is Some && final(self).rest() == t,
                None => r is None,
            },
    {
        match decode_skip(self.input, self.pos) {
            Some(pos) => {
                self.pos = pos;
                Some(())
            },
            None => None,
        }
    }

    /// Whether the next item is the null value.
    pub fn is_null(&self) -> (r: bool)
        ensures
            r == (take_null(self.rest()) is Some),
            forall|t: Seq<u8>| #![trigger null_item() + t] self.rest() == null_item() + t ==> r,
            self.rest() == null_item() ==> r,
            forall|s: Seq<u8>, t: Seq<u8>|
                #![trigger bytes_item(s) + t]
                self.rest() == bytes_item(s) + t ==> !r,
            forall|s: Seq<u8>| self.rest() == #[trigger] bytes_item(s) ==> !r,
            forall|s: Seq<char>, t: Seq<u8>|
                #![trigger text_item(s) + t]
                self.rest() == text_item(s) + t ==> !r,
            forall|s: Seq<char>| self.rest() == #[trigger] text_item(s) ==> !r,
            forall|n: u64, t: Seq<u8>|
                #![trigger uint_item(n) + t]
                self.rest() == uint_item(n) + t ==> !r,
            forall|n: u64| self.rest() == #[trigger] uint_item(n) ==> !r,
    {
        proof {
            assert(self.rest() + Seq::<u8>::empty() =~= self.rest());
            assert forall|t: Seq<u8>| #![trigger null_item() + t] true implies take_null(
                null_item() + t,
            ) is Some by {
                lemma_null(t);
            }
            assert forall|s: Seq<u8>, t: Seq<u8>|
                #![trigger bytes_item(s) + t]
                self.rest() == bytes_item(s) + t implies take_null(bytes_item(s) + t) is None by {
                reveal(bytes_item);
                self.lemma_rest_len();
                lemma_bytes(s, t);
            }
            assert forall|s: Seq<char>, t: Seq<u8>|
                #![trigger text_item(s) + t]
                self.rest() == text_item(s) + t implies take_null(text_item(s) + t) is None by {
                reveal(text_item);
                self.lemma_rest_len();
                lemma_text(s, t);
            }
            assert forall|n: u64, t: Seq<u8>|
                #![trigger uint_item(n) + t]
                true implies take_null(uint_item(n) + t) is None by {
                lemma_uint(n, t);
            }
        }
        is_null_type(self.input, self.pos)
    }

    /// Reads a byte string of 16 bytes.
    pub fn fixed16(&mut self) -> (r: Option<[u8; 16]>)
        ensures
            match take_bytes(old(self).rest()) {
                Some((s, t)) => if s.len() == 16 {
                    r is Some && (r->0)@ == s && final(self).rest() == t
                } else {
                    r is None
                },
                None => r is None,
            },
            forall|s: Seq<u8>, t: Seq<u8>|
                #![trigger bytes_item(s) + t]
                s.len() == 16 && old(self).rest() == bytes_item(s) + t ==> r is Some && (r->0)@ == s
                    && final(self).rest() == t,
            forall|s: Seq<u8>|
                s.len() == 16 && old(self).rest() == #[trigger] bytes_item(s) ==> r is Some
                    && (r->0)@ == s && final(self).rest().len() == 0,
            forall|a: [u8; 16], t: Seq<u8>|
                #![trigger bytes_item(a@) + t]
                old(self).rest() == bytes_item(a@) + t ==> r == Some(a) && final(self).rest() == t,
            forall|a: [u8; 16]|
                old(self).rest() == #[trigger] bytes_item(a@) ==> r == Some(a)
                    && final(self).rest().len() == 0,
    {
        let value = self.bytes()?;
        let r = fixed16(value);
        proof {
            assert forall|a: [u8; 16]| r is Some && (r->0)@ == #[trigger] a@ implies r->0 == a by {
                lemma_array16(r->0, a);
            }
        }
        r
    }

    /// Reads a byte string of 32 bytes.
    pub fn fixed32(&mut self) -> (r: Option<[u8; 32]>)
        ensures
            match take_bytes(old(self).rest()) {
                Some((s, t)) => if s.len() == 32 {
                    r is Some && (r->0)@ == s && final(self).rest() == t
                } else {
                    r is None
                },
                None => r is None,
            },
            forall|s: Seq<u8>, t: Seq<u8>|
                #![trigger bytes_item(s) + t]
                s.len() == 32 && old(self).rest() == bytes_item(s) + t ==> r is Some && (r->0)@ == s
                    && final(self).rest() == t,
            forall|s: Seq<u8>|
                s.len() == 32 && old(self).rest() == #[trigger] bytes_item(s) ==> r is Some
                    && (r->0)@ == s && final(self).rest().len() == 0,
            forall|a: [u8; 32], t: Seq<u8>|
                #![trigger bytes_item(a@) + t]
                old(self).rest() == bytes_item(a@) + t ==> r == Some(a) && final(self).rest() == t,
            forall|a: [u8; 32]|
                old(self).rest() == #[trigger] bytes_item(a@) ==> r == Some(a)
                    && final(self).rest().len() == 0,
    {
        let value = self.bytes()?;
        let r = fixed32(value);
        proof {
            assert forall|a: [u8; 32]| r is Some && (r->0)@ == #[trigger] a@ implies r->0 == a by {
                lemma_array32(r->0, a);
            }
        }
        r
    }

    /// Reads a byte string of 44 bytes.
    pub fn fixed44(&mut self) -> (r: Option<[u8; 44]>)
        ensures
            match take_bytes(old(self).rest()) {
                Some((s, t)) => if s.len() == 44 {
                    r is Some && (r->0)@ == s && final(self).rest() == t
                } else {
                    r is None
                },
                None => r is None,
            },
            forall|s: Seq<u8>, t: Seq<u8>|
                #![trigger bytes_item(s) + t]
                s.len() == 44 && old(self).rest() == bytes_item(s) + t ==> r is Some && (r->0)@ == s
                    && final(self).rest() == t,
            forall|s: Seq<u8>|
                s.len() == 44 && old(self).rest() == #[trigger] bytes_item(s) ==> r is Some
                    && (r->0)@ == s && final(self).rest().len() == 0,
            forall|a: [u8; 44], t: Seq<u8>|
                #![trigger bytes_item(a@) + t]
                old(self).rest() == bytes_item(a@) + t ==> r == Some(a) && final(self).rest() == t,
            forall|a: [u8; 44]|
                old(self).rest() == #[trigger] bytes_item(a@) ==> r == Some(a)
                    && final(self).rest().len() == 0,
    {
        let value = self.bytes()?;
        let r = fixed44(value);
        proof {
            assert forall|a: [u8; 44]| r is Some && (r->0)@ == #[trigger] a@ implies r->0 == a by {
                lemma_array44(r->0, a);
            }
        }
        r
    }

    /// Reads a byte string of 64 bytes.
    pub fn fixed64(&mut self) -> (r: Option<[u8; 64]>)
        ensures
            match take_bytes(old(self).rest()) {
                Some((s, t)) => if s.len() == 64 {
                    r is Some && (r->0)@ == s && final(self).rest() == t
                } else {
                    r is None
                },
                None => r is None,
            },
            forall|s: Seq<u8>, t: Seq<u8>|
                #![trigger bytes_item(s) + t]
                s.len() == 64 && old(self).rest() == bytes_item(s) + t ==> r is Some && (r->0)@ == s
                    && final(self).rest() == t,
            forall|s: Seq<u8>|
                s.len() == 64 && old(self).rest() == #[trigger] bytes_item(s) ==> r is Some
                    && (r->0)@ == s && final(self).rest().len() == 0,
            forall|a: [u8; 64], t: Seq<u8>|
                #![trigger bytes_item(a@) + t]
                old(self).rest() == bytes_item(a@) + t ==> r == Some(a) && final(self).rest() == t,
            forall|a: [u8; 64]|
                old(self).rest() == #[trigger] bytes_item(a@) ==> r == Some(a)
                    && final(self).rest().len() == 0,
    {
        let value = self.bytes()?;
        let r = fixed64(value);
        proof {
            assert forall|a: [u8; 64]| r is Some && (r->0)@ == #[trigger] a@ implies r->0 == a by {
                lemma_array64(r->0, a);
            }
        }
        r
    }

    /// Reads the text `key`.
    pub fn key(&mut self, key: &str) -> (r: Option<()>)
        ensures
            match take_key(old(self).rest(), key@) {
                Some(t) => r is Some && final(self).rest() == t,
                None => r is None,
            },
            forall|t: Seq<u8>|
                #![trigger text_item(key@) + t]
                old(self).rest() == text_item(key@) + t ==> r is Some && final(self).rest() == t,
            old(self).rest() == text_item(key@) ==> r is Some && final(self).rest().len() == 0,
    {
        let value = self.str()?;
        if same_str(value, key) {
            Some(())
        } else {
            None
        }
    }

    /// Reads the head of a map of `n` entries.
    pub fn map_of(&mut self, n: u64) -> (r: Option<()>)
        ensures
            match take_map_of(old(self).rest(), n) {
                Some(t) => r is Some && final(self).rest() == t,
                None => r is None,
            },
            forall|t: Seq<u8>|
                #![trigger map_head(n) + t]
                old(self).rest() == map_head(n) + t ==> r is Some && final(self).rest() == t,
            old(self).rest() == map_head(n) ==> r is Some && final(self).rest().len() == 0,
    {
        let m: u64 = self.map()?;
        if m == n {
            Some(())
        } else {
            None
        }
    }

    /// Reads the head of an array of `n` items.
    pub fn array_of(&mut self, n: u64) -> (r: Option<()>)
        ensures
            match take_array_of(old(self).rest(), n) {
                Some(t) => r is Some && final(self).rest() == t,
                None => r is None,
            },
            forall|t: Seq<u8>|
                #![trigger array_head(n) + t]
                old(self).rest() == array_head(n) + t ==> r is Some && final(self).rest() == t,
            old(self).rest() == array_head(n) ==> r is Some && final(self).rest().len() == 0,
    {
        let m: u64 = self.array()?;
        if m == n {
            Some(())
        } else {
            None
        }
    }
}

/// What the bytes of a head say: the type in the three high bits of the first
/// byte, and the argument in its low bits or, behind it, in as few bytes as it
/// fits in, the most significant first.
pub proof fn lemma_head_form(major: u8, n: u64)
    requires
        major < 8,
    ensures
        ({
            let h = head_bytes(major, n);
            &&& n < 24 ==> h.len() == 1 && h[0] == 32 * major + n
            &&& 24 <= n < 0x100 ==> h.len() == 2 && h[0] == 32 * major + 24 && h[1] == n
            &&& 0x100 <= n < 0x10000 ==> h.len() == 3 && h[0] == 32 * major + 25 && h[1] * 0x100
                + h[2] == n
            &&& 0x10000 <= n < 0x1_0000_0000 ==> h.len() == 5 && h[0] == 32 * major + 26 && h[1]
                * 0x100_0000 + h[2] * 0x1_0000 + h[3] * 0x100 + h[4] == n
            &&& n >= 0x1_0000_0000 ==> h.len() == 9 && h[0] == 32 * major + 27 && h[1]
                * 0x100_0000_0000_0000 + h[2] * 0x1_0000_0000_0000 + h[3] * 0x100_0000_0000 + h[4]
                * 0x1_0000_0000 + h[5] * 0x100_0000 + h[6] * 0x1_0000 + h[7] * 0x100 + h[8] == n
        }),
{
    reveal(head_bytes);
    let h = head_bytes(major, n);
    if n < 24 {
    } else if n <= 0xff {
    } else if n <= 0xffff {
        assert(h[1] == (n / 0x100) as u8 && h[2] == (n % 0x100) as u8);
    } else if n <= 0xffff_ffff {
        lemma_four_bytes(n);
        assert(h[1] == (n / 0x100_0000) as u8);
        assert(h[2] == (n / 0x1_0000 % 0x100) as u8);
        assert(h[3] == (n / 0x100 % 0x100) as u8);
        assert(h[4] == (n % 0x100) as u8);
    } else {
        lemma_eight_bytes(n);
        assert(h[1] == (n / 0x100_0000_0000_0000) as u8);
        assert(h[2] == (n / 0x1_0000_0000_0000 % 0x100) as u8);
        assert(h[3] == (n / 0x100_0000_0000 % 0x100) as u8);
        assert(h[4] == (n / 0x1_0000_0000 % 0x100) as u8);
        assert(h[5] == (n / 0x100_0000 % 0x100) as u8);
        assert(h[6] == (n / 0x1_0000 % 0x100) as u8);
        assert(h[7] == (n / 0x100 % 0x100) as u8);
        assert(h[8] == (n % 0x100) as u8);
    }
}

/// The types: numbers are type zero, negative ones type one and one less than
/// their size, bytes type two, texts type three in their encoding, arrays type
/// four and maps type five; and the two truth values and null have a byte each.
pub proof fn lemma_item_form(n: u64, i: i64, b: Seq<u8>, s: Seq<char>)
    ensures
        uint_item(n) == head_bytes(0, n),
        i >= 0 ==> int_item(i) == head_bytes(0, i as u64),
        i < 0 ==> int_item(i) == head_bytes(1, (-(i + 1)) as u64),
        bytes_item(b) == head_bytes(2, b.len() as u64) + b,
        text_item(s) == head_bytes(3, encode_utf8(s).len() as u64) + encode_utf8(s),
        array_head(n) == head_bytes(4, n),
        map_head(n) == head_bytes(5, n),
        bool_item(false) == seq![0xf4u8],
        bool_item(true) == seq![0xf5u8],
        null_item() == seq![0xf6u8],
        optional_bytes_item(Some(b)) == bytes_item(b),
        optional_bytes_item(None) == null_item(),
        optional_text_item(Some(s)) == text_item(s),
        optional_text_item(None) == null_item(),
        optional_uint_item(Some(n)) == uint_item(n),
        optional_uint_item(None) == null_item(),
{
    reveal(int_item);
    reveal(bytes_item);
    reveal(text_item);
    reveal(bool_item);
    reveal(null_item);
}

} // verus!

//! One-time-password URIs.
use crate::bytes::same_str;
use crate::content::{AuthModel, AuthRecord, TotpAlgorithm};
use crate::errors::HumanCommitError;
use crate::text::{
    chars_of, decimal_digits, find_char, lemma_find_char, position_of, text_from_utf8, text_of,
};
use vstd::arithmetic::power2::{lemma2_to64, pow2};
use vstd::prelude::*;
use vstd::utf8::{decode_utf8, decode_utf8_encode_utf8, encode_utf8, valid_utf8};

verus! {

/// The value of a hexadecimal digit.
pub open spec fn hex_value(c: u8) -> Option<int> {
    if 0x30 <= c <= 0x39 {
        Some(c - 0x30)
    } else if 0x61 <= c <= 0x66 {
        Some(c - 0x61 + 10)
    } else if 0x41 <= c <= 0x46 {
        Some(c - 0x41 + 10)
    } else {
        None
    }
}

/// The bytes that percent-encoded bytes stand for from `i` on; none where an
/// escape is cut off or not hexadecimal.
pub open spec fn percent_bytes(b: Seq<u8>, i: int) -> Option<Seq<u8>>
    decreases b.len() - i,
{
    if i < 0 || i >= b.len() {
        Some(Seq::empty())
    } else if b[i] == 0x25 {
        if i + 2 >= b.len() {
            None
        } else {
            match (hex_value(b[i + 1]), hex_value(b[i + 2]), percent_bytes(b, i + 3)) {
                (Some(high), Some(low), Some(rest)) => Some(seq![(high * 16 + low) as u8] + rest),
                _ => None,
            }
        }
    } else {
        match percent_bytes(b, i + 1) {
            Some(rest) => Some(seq![b[i]] + rest),
            None => None,
        }
    }
}

/// The text that a percent-encoded text stands for.
pub open spec fn percent_text(s: Seq<char>) -> Option<Seq<char>> {
    match percent_bytes(encode_utf8(s), 0) {
        Some(b) => if valid_utf8(b) {
            Some(decode_utf8(b))
        } else {
            None
        },
        None => None,
    }
}

/// The value of a hexadecimal digit.
fn hex_digit(c: u8) -> (r: Option<u8>)
    ensures
        match hex_value(c) {
            Some(v) => r is Some && r->0 == v && v < 16,
            None => r is None,
        },
{
    if 0x30 <= c && c <= 0x39 {
        Some(c - 0x30)
    } else if 0x61 <= c && c <= 0x66 {
        Some(c - 0x61 + 10)
    } else if 0x41 <= c && c <= 0x46 {
        Some(c - 0x41 + 10)
    } else {
        None
    }
}

/// Decodes a percent-encoded text.
pub fn percent(v: &str) -> (r: Option<String>)
    ensures
        match percent_text(v@) {
            Some(s) => r is Some && (r->0)@ == s,
            None => r is None,
        },
{
    let b = v.as_bytes();
    let mut out: Vec<u8> = Vec::new();
    let mut i: usize = 0;
    let ghost all = percent_bytes(b@, 0);
    proof {
        if let Some(s) = all {
            assert(out@ + s =~= s);
        }
    }
    while i < b.len()
        invariant
            i <= b@.len(),
            b@ == encode_utf8(v@),
            all == percent_bytes(b@, 0),
            match percent_bytes(b@, i as int) {
                Some(s) => all == Some(out@ + s),
                None => all is None,
            },
        decreases b@.len() - i,
    {
        let ghost before = out@;
        if b[i] == 0x25 {
            if b.len() - i <= 2 {
                return None;
            }
            let high: u8 = hex_digit(b[i + 1])?;
            let low: u8 = hex_digit(b[i + 2])?;
            out.push(high * 16 + low);
            proof {
                if let Some(s) = percent_bytes(b@, i + 3) {
                    assert(before + (seq![(high * 16 + low) as u8] + s) =~= out@ + s);
                }
            }
            i += 3;
        } else {
            out.push(b[i]);
            proof {
                if let Some(s) = percent_bytes(b@, i + 1) {
                    assert(before + (seq![b@[i as int]] + s) =~= out@ + s);
                }
            }
            i += 1;
        }
    }
    assert(out@ + Seq::<u8>::empty() =~= out@);
    text_from_utf8(out)
}

/// The value of a base-32 digit, in either case.
pub open spec fn base32_value(c: u8) -> Option<nat> {
    if 0x41 <= c <= 0x5a {
        Some((c - 0x41) as nat)
    } else if 0x61 <= c <= 0x7a {
        Some((c - 0x61) as nat)
    } else if 0x32 <= c <= 0x37 {
        Some((c - 0x32 + 26) as nat)
    } else {
        None
    }
}

/// The number that the first `i` base-32 digits of `b` spell, padding aside,
/// and how many digits there are.
pub open spec fn base32_number(b: Seq<u8>, i: int) -> Option<(nat, nat)>
    decreases i,
{
    if i <= 0 {
        Some((0, 0))
    } else if b[i - 1] == 0x3d {
        base32_number(b, i - 1)
    } else {
        match (base32_number(b, i - 1), base32_value(b[i - 1])) {
            (Some((n, digits)), Some(v)) => Some((n * 32 + v, digits + 1)),
            _ => None,
        }
    }
}

/// The number that bytes spell, the most significant first.
pub open spec fn bytes_number(b: Seq<u8>) -> nat
    decreases b.len(),
{
    if b.len() == 0 {
        0
    } else {
        bytes_number(b.drop_last()) * 256 + b.last() as nat
    }
}

/// Two to the number of bits that fill no whole byte, for that many base-32
/// digits.
pub open spec fn leftover(digits: nat) -> nat {
    let bits = digits * 5 % 8;
    if bits == 0 {
        1
    } else if bits == 1 {
        2
    } else if bits == 2 {
        4
    } else if bits == 3 {
        8
    } else if bits == 4 {
        16
    } else if bits == 5 {
        32
    } else if bits == 6 {
        64
    } else {
        128
    }
}

/// Whether `secret` is what base-32 text spells: the leading whole bytes of its
/// bits, at least ten of them and at most 128.
pub open spec fn base32_spells(b: Seq<u8>, secret: Seq<u8>) -> bool {
    match base32_number(b, b.len() as int) {
        Some((n, digits)) => {
            &&& secret.len() == digits * 5 / 8
            &&& bytes_number(secret) == n / leftover(digits)
            &&& 10 <= secret.len() <= 128
        },
        None => false,
    }
}

/// Whether base-32 text spells a secret.
pub open spec fn base32_valid(b: Seq<u8>) -> bool {
    match base32_number(b, b.len() as int) {
        Some((n, digits)) => 10 <= digits * 5 / 8 <= 128,
        None => false,
    }
}

/// The secret that base-32 text spells.
pub open spec fn base32_secret(b: Seq<u8>) -> Seq<u8> {
    choose|s: Seq<u8>| base32_spells(b, s)
}

/// Base-32 text spells one secret.
pub proof fn lemma_base32_unique(b: Seq<u8>, s: Seq<u8>)
    requires
        base32_spells(b, s),
    ensures
        s == base32_secret(b),
{
    lemma_bytes_number_injective(s, base32_secret(b));
}

/// A wrong digit spoils the text whatever follows.
proof fn lemma_base32_spoiled(b: Seq<u8>, i: int, j: int)
    requires
        0 <= i <= j,
        base32_number(b, i) is None,
    ensures
        base32_number(b, j) is None,
    decreases j - i,
{
    if i < j {
        lemma_base32_spoiled(b, i, j - 1);
    }
}

/// Bytes of a given number are determined by the number they spell.
pub proof fn lemma_bytes_number_injective(a: Seq<u8>, b: Seq<u8>)
    requires
        a.len() == b.len(),
        bytes_number(a) == bytes_number(b),
    ensures
        a == b,
    decreases a.len(),
{
    if a.len() > 0 {
        let x = bytes_number(a.drop_last());
        let y = bytes_number(b.drop_last());
        assert(x * 256 + a.last() as nat == y * 256 + b.last() as nat);
        assert(x == y && a.last() == b.last());
        lemma_bytes_number_injective(a.drop_last(), b.drop_last());
        assert(a =~= a.drop_last().push(a.last()));
        assert(b =~= b.drop_last().push(b.last()));
    } else {
        assert(a =~= b);
    }
}

/// The value of a base-32 digit.
fn base32_digit(c: u8) -> (r: Option<u32>)
    ensures
        match base32_value(c) {
            Some(v) => r is Some && r->0 == v && v < 32,
            None => r is None,
        },
{
    if 0x41 <= c && c <= 0x5a {
        Some((c - 0x41) as u32)
    } else if 0x61 <= c && c <= 0x7a {
        Some((c - 0x61) as u32)
    } else if 0x32 <= c && c <= 0x37 {
        Some((c - 0x32 + 26) as u32)
    } else {
        None
    }
}

/// One more base-32 digit: what the bytes written so far and the bits kept
/// spell together.
proof fn lemma_base32_step(n: int, written: int, scale: int, acc: int, v: int)
    requires
        n == written * scale + acc,
        0 <= acc < scale,
        0 <= v < 32,
    ensures
        n * 32 + v == written * (scale * 32) + (acc * 32 + v),
        0 <= acc * 32 + v < scale * 32,
{
    assert(n * 32 + v == written * (scale * 32) + (acc * 32 + v)) by (nonlinear_arith)
        requires
            n == written * scale + acc,
    ;
}

/// Moving a whole byte from the bits kept to the bytes written changes
/// nothing.
proof fn lemma_base32_carry(written: int, scale: int, low: int, acc: int)
    requires
        scale == 256 * low,
        low > 0,
        0 <= acc < scale,
        0 <= written,
    ensures
        0 <= acc / low < 256,
        0 <= acc % low < low,
        written * scale + acc == (written * 256 + acc / low) * low + acc % low,
{
    vstd::arithmetic::div_mod::lemma_fundamental_div_mod(acc, low);
    assert(0 <= acc / low < 256) by (nonlinear_arith)
        requires
            acc == low * (acc / low) + acc % low,
            0 <= acc % low < low,
            0 <= acc < 256 * low,
            low > 0,
    ;
    assert(written * scale + acc == (written * 256 + acc / low) * low + acc % low)
        by (nonlinear_arith)
        requires
            scale == 256 * low,
            acc == low * (acc / low) + acc % low,
    ;
}

/// A number split at `scale` is divided by it.
proof fn lemma_split(n: int, written: int, scale: int, acc: int)
    requires
        n == written * scale + acc,
        0 <= acc < scale,
    ensures
        n / scale == written,
{
    vstd::arithmetic::div_mod::lemma_fundamental_div_mod_converse(n, scale, written, acc);
}

/// Decodes a base-32 secret.
pub fn base32(v: &str) -> (r: Option<Vec<u8>>)
    ensures
        r is Some <==> base32_valid(encode_utf8(v@)),
        r is Some ==> base32_spells(encode_utf8(v@), (r->0)@) && (r->0)@ == base32_secret(
            encode_utf8(v@),
        ),
{
    let b = v.as_bytes();
    let mut out: Vec<u8> = Vec::new();
    let mut acc: u32 = 0;
    let mut scale: u32 = 1;
    let mut i: usize = 0;
    let ghost mut digits: nat = 0;
    while i < b.len()
        invariant
            i <= b@.len(),
            b@ == encode_utf8(v@),
            base32_number(b@, i as int) is Some,
            (base32_number(b@, i as int)->0).1 == digits,
            (base32_number(b@, i as int)->0).0 == bytes_number(out@) * scale + acc,
            scale == leftover(digits),
            out@.len() == digits * 5 / 8,
            acc < scale,
        decreases b@.len() - i,
    {
        let ghost n = (base32_number(b@, i as int)->0).0;
        if b[i] != 0x3d {
            let value: u32 = match base32_digit(b[i]) {
                Some(value) => value,
                None => {
                    proof {
                        lemma_base32_spoiled(b@, i + 1, b@.len() as int);
                    }
                    return None;
                },
            };
            let ghost written = bytes_number(out@);
            proof {
                lemma_base32_step(
                    n as int,
                    written as int,
                    scale as int,
                    acc as int,
                    value as int,
                );
                digits = digits + 1;
            }
            acc = acc * 32 + value;
            scale = scale * 32;
            if scale >= 256 {
                let low: u32 = scale / 256;
                proof {
                    lemma_base32_carry(written as int, scale as int, low as int, acc as int);
                }
                let byte: u8 = (acc / low) as u8;
                let ghost before = out@;
                out.push(byte);
                assert(out@.drop_last() =~= before);
                acc = acc % low;
                scale = low;
            }
        }
        i += 1;
    }
    proof {
        let n = (base32_number(b@, i as int)->0).0;
        lemma_split(n as int, bytes_number(out@) as int, scale as int, acc as int);
    }
    if out.len() < 10 || out.len() > 128 {
        None
    } else {
        proof {
            lemma_base32_unique(b@, out@);
        }
        Some(out)
    }
}

/// The number that the decimal digits from `i` on, but before `to`, spell after
/// `acc`; none where another character stands among them or the number exceeds
/// `max`.
pub open spec fn digits_value(s: Seq<char>, i: int, acc: nat, max: nat) -> Option<nat>
    decreases s.len() - i,
{
    if acc > max {
        None
    } else if i < 0 || i >= s.len() {
        Some(acc)
    } else if '0' <= s[i] && s[i] <= '9' {
        digits_value(s, i + 1, (acc * 10 + (s[i] as int - 48)) as nat, max)
    } else {
        None
    }
}

/// The number up to `max` that a text spells: decimal digits, at least one,
/// which a plus sign may precede.
pub open spec fn number_value(s: Seq<char>, max: nat) -> Option<nat> {
    let start: int = if s.len() > 0 && s[0] == '+' {
        1
    } else {
        0
    };
    if s.len() <= start {
        None
    } else {
        digits_value(s, start, 0, max)
    }
}

/// Reads a decimal number up to `max`.
pub fn parse_number(v: &str, max: u32) -> (r: Option<u32>)
    requires
        max <= 0xffff,
    ensures
        match number_value(v@, max as nat) {
            Some(n) => r is Some && r->0 == n && n <= max,
            None => r is None,
        },
{
    let s = chars_of(v);
    let mut i: usize = 0;
    if s.len() > 0 && s[0] == '+' {
        i = 1;
    }
    if s.len() <= i {
        return None;
    }
    let mut acc: u32 = 0;
    while i < s.len()
        invariant
            i <= s@.len(),
            s@ == v@,
            acc <= max <= 0xffff,
            s@.len() > (if s@.len() > 0 && s@[0] == '+' {
                1int
            } else {
                0int
            }),
            number_value(v@, max as nat) == digits_value(s@, i as int, acc as nat, max as nat),
        decreases s@.len() - i,
    {
        let c = s[i];
        if c < '0' || c > '9' {
            return None;
        }
        let digit: u32 = c as u32 - 48;
        acc = acc * 10 + digit;
        if acc > max {
            assert(digits_value(s@, i + 1, acc as nat, max as nat) is None);
            return None;
        }
        i += 1;
    }
    Some(acc)
}

/// A parameter of a query: what stands before its equals sign, and the
/// percent-decoded text behind it.
pub open spec fn parameter(piece: Seq<char>) -> Option<(Seq<char>, Seq<char>)> {
    match find_char(piece, '=', 0) {
        Some(k) => match percent_text(piece.skip(k + 1)) {
            Some(value) => Some((piece.take(k), value)),
            None => None,
        },
        None => None,
    }
}

/// The parameters of a query from `i` on, separated by ampersands.
pub open spec fn parameters(s: Seq<char>, i: int) -> Option<Seq<(Seq<char>, Seq<char>)>>
    decreases s.len() - i + 1,
    when 0 <= i <= s.len()
    via parameters_decreases
{
    match find_char(s, '&', i) {
        Some(k) => match (parameter(s.subrange(i, k)), parameters(s, k + 1)) {
            (Some(first), Some(rest)) => Some(seq![first] + rest),
            _ => None,
        },
        None => match parameter(s.skip(i)) {
            Some(only) => Some(seq![only]),
            None => None,
        },
    }
}

#[via_fn]
proof fn parameters_decreases(s: Seq<char>, i: int) {
    lemma_find_char(s, '&', i);
}

/// Whether no two parameters share a name.
pub open spec fn names_distinct(v: Seq<(Seq<char>, Seq<char>)>) -> bool {
    forall|i: int, j: int| 0 <= i < j < v.len() ==> (#[trigger] v[i]).0 != (#[trigger] v[j]).0
}

/// The value of the first parameter named `name` at `i` or behind it.
pub open spec fn lookup(v: Seq<(Seq<char>, Seq<char>)>, name: Seq<char>,
    i: int) -> Option<Seq<char>>
    decreases v.len() - i,
{
    if i < 0 || i >= v.len() {
        None
    } else if v[i].0 == name {
        Some(v[i].1)
    } else {
        lookup(v, name, i + 1)
    }
}

/// The hash that a query names; SHA-1 where it names none.
pub open spec fn totp_algorithm(v: Seq<(Seq<char>, Seq<char>)>) -> Option<TotpAlgorithm> {
    match lookup(v, "algorithm"@, 0) {
        None => Some(TotpAlgorithm::Sha1),
        Some(name) => if name == "SHA1"@ {
            Some(TotpAlgorithm::Sha1)
        } else if name == "SHA256"@ {
            Some(TotpAlgorithm::Sha256)
        } else if name == "SHA512"@ {
            Some(TotpAlgorithm::Sha512)
        } else {
            None
        },
    }
}

/// The number that a query gives for `name`, up to `max`.
pub open spec fn totp_number(
    v: Seq<(Seq<char>, Seq<char>)>,
    name: Seq<char>,
    default: nat,
    max: nat,
) -> Option<nat> {
    match lookup(v, name, 0) {
        None => Some(default),
        Some(text) => number_value(text, max),
    }
}

/// The one-time password that a label and a query describe.
pub open spec fn totp_fields(
    label: Seq<char>,
    v: Seq<(Seq<char>, Seq<char>)>,
    refs: Seq<u16>,
) -> Option<AuthModel> {
    match (
        lookup(v, "secret"@, 0),
        totp_algorithm(v),
        totp_number(v, "digits"@, 6, 255),
        totp_number(v, "period"@, 30, 65535),
    ) {
        (Some(secret), Some(algorithm), Some(digits), Some(period)) => if base32_valid(
            encode_utf8(secret),
        ) {
            Some(
                AuthModel::Totp {
                    secret: base32_secret(encode_utf8(secret)),
                    algorithm,
                    digits: digits as u8,
                    period: period as u16,
                    t0: 0,
                    issuer: match find_char(label, ':', 0) {
                        Some(k) => label.take(k),
                        None => match lookup(v, "issuer"@, 0) {
                            Some(issuer) => issuer,
                            None => Seq::empty(),
                        },
                    },
                    account: match find_char(label, ':', 0) {
                        Some(k) => label.skip(k + 1),
                        None => label,
                    },
                    destination_refs: refs,
                },
            )
        } else {
            None
        },
        _ => None,
    }
}

/// The scheme and type that one-time-password URIs begin with.
pub open spec fn totp_prefix() -> Seq<char> {
    "otpauth://totp/"@
}

/// The one-time password that a URI describes: a percent-encoded label, a
/// question mark, and parameters with different names.
pub open spec fn totp_auth(uri: Seq<char>, refs: Seq<u16>) -> Option<AuthModel> {
    let n = totp_prefix().len() as int;
    if uri.len() < n || uri.take(n) != totp_prefix() {
        None
    } else {
        let rest = uri.skip(n);
        match find_char(rest, '?', 0) {
            Some(k) => match (percent_text(rest.take(k)), parameters(rest.skip(k + 1), 0)) {
                (Some(label), Some(v)) => if names_distinct(v) {
                    totp_fields(label, v, refs)
                } else {
                    None
                },
                _ => None,
            },
            None => None,
        }
    }
}

/// Names and values of parameters as their contents.
pub open spec fn parameter_views(v: Seq<(String, String)>) -> Seq<(Seq<char>, Seq<char>)> {
    Seq::new(v.len(), |i: int| (v[i].0@, v[i].1@))
}

/// Reads one parameter.
fn read_parameter(chars: &Vec<char>, from: usize, to: usize) -> (r: Option<(String, String)>)
    requires
        from <= to <= chars@.len(),
    ensures
        match parameter(chars@.subrange(from as int, to as int)) {
            Some((name, value)) => r is Some && (r->0).0@ == name && (r->0).1@ == value,
            None => r is None,
        },
{
    let piece = chars_of(&text_of(chars, from, to));
    let k: usize = position_of(&piece, '=', 0)?;
    let name = text_of(&piece, 0, k);
    let raw = text_of(&piece, k + 1, piece.len());
    assert(name@ =~= piece@.take(k as int));
    assert(raw@ =~= piece@.skip(k + 1));
    let value = percent(&raw)?;
    Some((name, value))
}

/// Reads the parameters of a query.
fn read_parameters(query: &str) -> (r: Option<Vec<(String, String)>>)
    ensures
        match parameters(query@, 0) {
            Some(v) => r is Some && parameter_views((r->0)@) == v,
            None => r is None,
        },
{
    let chars = chars_of(query);
    let mut out: Vec<(String, String)> = Vec::new();
    let mut i: usize = 0;
    let ghost all = parameters(query@, 0);
    proof {
        if let Some(v) = all {
            assert(parameter_views(out@) + v =~= v);
        }
    }
    loop
        invariant
            i <= chars@.len(),
            chars@ == query@,
            all == parameters(query@, 0),
            match parameters(query@, i as int) {
                Some(v) => all == Some(parameter_views(out@) + v),
                None => all is None,
            },
        decreases chars@.len() - i,
    {
        let ghost before = out@;
        match position_of(&chars, '&', i) {
            Some(k) => {
                let x = read_parameter(&chars, i, k)?;
                let ghost pair = (x.0@, x.1@);
                out.push(x);
                proof {
                    if let Some(v) = parameters(query@, k + 1) {
                        assert(parameter_views(before) + (seq![pair] + v) =~= parameter_views(
                            out@,
                        ) + v);
                    }
                }
                assert(k < chars.len());
                i = k + 1;
            },
            None => {
                assert(query@.skip(i as int) =~= chars@.subrange(i as int, chars@.len() as int));
                let x = read_parameter(&chars, i, chars.len())?;
                let ghost pair = (x.0@, x.1@);
                out.push(x);
                assert(parameter_views(before) + seq![pair] =~= parameter_views(out@));
                return Some(out);
            },
        }
    }
}

/// Whether no two parameters share a name.
fn distinct_names(v: &Vec<(String, String)>) -> (r: bool)
    ensures
        r == names_distinct(parameter_views(v@)),
{
    let ghost p = parameter_views(v@);
    let mut i: usize = 0;
    while i < v.len()
        invariant
            i <= v@.len(),
            p == parameter_views(v@),
            forall|a: int, b: int| 0 <= a < b < i ==> (#[trigger] p[a]).0 != (#[trigger] p[b]).0,
        decreases v@.len() - i,
    {
        let mut j: usize = 0;
        while j < i
            invariant
                j <= i < v@.len(),
                p == parameter_views(v@),
                forall|a: int| 0 <= a < j ==> (#[trigger] p[a]).0 != p[i as int].0,
            decreases i - j,
        {
            if same_str(&v[j].0, &v[i].0) {
                assert(p[j as int].0 == p[i as int].0);
                return false;
            }
            j += 1;
        }
        i += 1;
    }
    true
}

/// The value of the first parameter named `name`.
fn value_of<'a>(v: &'a Vec<(String, String)>, name: &str) -> (r: Option<&'a String>)
    ensures
        match lookup(parameter_views(v@), name@, 0) {
            Some(value) => r is Some && (r->0)@ == value,
            None => r is None,
        },
{
    let ghost p = parameter_views(v@);
    let mut i: usize = 0;
    while i < v.len()
        invariant
            i <= v@.len(),
            p == parameter_views(v@),
            lookup(p, name@, 0) == lookup(p, name@, i as int),
        decreases v@.len() - i,
    {
        if same_str(&v[i].0, name) {
            return Some(&v[i].1);
        }
        i += 1;
    }
    None
}

/// Reads a one-time password from its URI.
fn read_totp(uri: &str, refs: &Vec<u16>) -> (r: Option<AuthRecord>)
    ensures
        match totp_auth(uri@, refs@) {
            Some(m) => r is Some && (r->0)@ == m,
            None => r is None,
        },
{
    let prefix = chars_of("otpauth://totp/");
    let chars = chars_of(uri);
    if chars.len() < prefix.len() || !same_str(
        &text_of(&chars, 0, prefix.len()),
        "otpauth://totp/",
    ) {
        assert(chars@.len() >= prefix@.len() ==> uri@.take(totp_prefix().len() as int)
            =~= chars@.subrange(0, prefix@.len() as int));
        return None;
    }
    assert(uri@.take(totp_prefix().len() as int) =~= chars@.subrange(0, prefix@.len() as int));
    let rest = chars_of(&text_of(&chars, prefix.len(), chars.len()));
    assert(rest@ =~= uri@.skip(totp_prefix().len() as int));
    let k: usize = position_of(&rest, '?', 0)?;
    let raw_label = text_of(&rest, 0, k);
    let query = text_of(&rest, k + 1, rest.len());
    assert(raw_label@ =~= rest@.take(k as int));
    assert(query@ =~= rest@.skip(k + 1));
    let label = percent(&raw_label)?;
    let values = read_parameters(&query)?;
    if !distinct_names(&values) {
        return None;
    }
    let algorithm = match value_of(&values, "algorithm") {
        None => TotpAlgorithm::Sha1,
        Some(name) => if same_str(name, "SHA1") {
            TotpAlgorithm::Sha1
        } else if same_str(name, "SHA256") {
            TotpAlgorithm::Sha256
        } else if same_str(name, "SHA512") {
            TotpAlgorithm::Sha512
        } else {
            return None;
        },
    };
    let digits: u32 = match value_of(&values, "digits") {
        None => 6,
        Some(text) => parse_number(text, 255)?,
    };
    let period: u32 = match value_of(&values, "period") {
        None => 30,
        Some(text) => parse_number(text, 65535)?,
    };
    let secret = base32(value_of(&values, "secret")?)?;
    let label_chars = chars_of(&label);
    let (issuer, account) = match position_of(&label_chars, ':', 0) {
        Some(k) => {
            assert(k < label_chars.len());
            let issuer = text_of(&label_chars, 0, k);
            let account = text_of(&label_chars, k + 1, label_chars.len());
            assert(issuer@ =~= label@.take(k as int));
            assert(account@ =~= label@.skip(k + 1));
            (issuer, account)
        },
        None => {
            let issuer = match value_of(&values, "issuer") {
                Some(issuer) => issuer.clone(),
                None => String::new(),
            };
            (issuer, label)
        },
    };
    Some(
        AuthRecord::Totp {
            secret,
            algorithm,
            digits: digits as u8,
            period: period as u16,
            t0: 0,
            issuer,
            account,
            destination_refs: vstd::slice::slice_to_vec(refs.as_slice()),
        },
    )
}

/// Reads a one-time password from its URI.
pub fn parse_totp(uri: &str, refs: &Vec<u16>) -> (r: Result<AuthRecord, HumanCommitError>)
    ensures
        match totp_auth(uri@, refs@) {
            Some(m) => r is Ok && (r->Ok_0)@ == m,
            None => r is Err && r->Err_0 is InvalidInput,
        },
{
    match read_totp(uri, refs) {
        Some(auth) => Ok(auth),
        None => Err(HumanCommitError::InvalidInput),
    }
}

/// The digits: hexadecimal ones in either case, and base 32 ones, the letters in
/// either case before the digits from two to seven.
pub proof fn lemma_digit_values(c: u8)
    ensures
        '0' as u8 <= c <= '9' as u8 ==> hex_value(c) == Some(c - '0' as u8),
        'a' as u8 <= c <= 'f' as u8 ==> hex_value(c) == Some(10 + c - 'a' as u8),
        'A' as u8 <= c <= 'F' as u8 ==> hex_value(c) == Some(10 + c - 'A' as u8),
        hex_value(c) is Some ==> '0' as u8 <= c <= '9' as u8 || 'a' as u8 <= c <= 'f' as u8 || 'A'
            as u8 <= c <= 'F' as u8,
        'A' as u8 <= c <= 'Z' as u8 ==> base32_value(c) == Some((c - 'A' as u8) as nat),
        'a' as u8 <= c <= 'z' as u8 ==> base32_value(c) == Some((c - 'a' as u8) as nat),
        '2' as u8 <= c <= '7' as u8 ==> base32_value(c) == Some((26 + c - '2' as u8) as nat),
        base32_value(c) is Some ==> 'A' as u8 <= c <= 'Z' as u8 || 'a' as u8 <= c <= 'z' as u8
            || '2' as u8 <= c <= '7' as u8,
{
}

/// Bytes are decoded from where one stands.
proof fn lemma_percent_from(b: Seq<u8>, i: int)
    requires
        0 <= i <= b.len(),
    ensures
        percent_bytes(b, i) == percent_bytes(b.skip(i), 0),
    decreases b.len() - i,
{
    let s = b.skip(i);
    if i < b.len() {
        if b[i] == 0x25 {
            if i + 2 < b.len() {
                lemma_percent_from(b, i + 3);
                lemma_percent_from(s, 3);
                assert(s.skip(3) =~= b.skip(i + 3));
            }
        } else {
            lemma_percent_from(b, i + 1);
            lemma_percent_from(s, 1);
            assert(s.skip(1) =~= b.skip(i + 1));
        }
    }
}

/// A percent sign with two hexadecimal digits is one byte; any other byte is
/// itself; and a percent sign without its two digits is refused.
pub proof fn lemma_percent(c: u8, high: u8, low: u8, rest: Seq<u8>)
    ensures
        percent_bytes(Seq::empty(), 0) == Some(Seq::<u8>::empty()),
        c != '%' as u8 ==> percent_bytes(seq![c] + rest, 0) == (match percent_bytes(rest, 0) {
            Some(more) => Some(seq![c] + more),
            None => None,
        }),
        hex_value(high) is Some && hex_value(low) is Some ==> percent_bytes(
            seq!['%' as u8, high, low] + rest,
            0,
        ) == (match percent_bytes(rest, 0) {
            Some(more) => Some(
                seq![(16 * hex_value(high)->0 + hex_value(low)->0) as u8] + more,
            ),
            None => None,
        }),
        hex_value(high) is None || hex_value(low) is None ==> percent_bytes(
            seq!['%' as u8, high, low] + rest,
            0,
        ) is None,
        percent_bytes(seq!['%' as u8], 0) is None,
        percent_bytes(seq!['%' as u8, high], 0) is None,
{
    let a = seq![c] + rest;
    let b = seq!['%' as u8, high, low] + rest;
    lemma_percent_from(a, 1);
    lemma_percent_from(b, 3);
    assert(a.skip(1) =~= rest);
    assert(b.skip(3) =~= rest);
    assert(b[0] == 0x25 && b[1] == high && b[2] == low);
}

/// A text is decoded as its bytes are, where they are text.
pub proof fn lemma_percent_text(s: Seq<char>)
    ensures
        percent_text(s) matches Some(t) ==> percent_bytes(encode_utf8(s), 0) == Some(
            encode_utf8(t),
        ),
        percent_text(s) is None ==> percent_bytes(encode_utf8(s), 0) is None || !valid_utf8(
            percent_bytes(encode_utf8(s), 0)->0,
        ),
{
    match percent_bytes(encode_utf8(s), 0) {
        Some(b) => {
            if valid_utf8(b) {
                decode_utf8_encode_utf8(b);
            }
        },
        None => {},
    }
}

/// The bits that are left over are dropped: as many as do not fill a byte.
pub proof fn lemma_leftover(digits: nat)
    ensures
        leftover(digits) == pow2(5 * digits % 8),
{
    lemma2_to64();
}

/// The digits of a secret are a number in base 32, the first ones the most; an
/// equals sign does not count; and a secret has from 10 to 128 bytes.
pub proof fn lemma_base32(b: Seq<u8>, c: u8)
    ensures
        base32_valid(b) ==> 10 <= (base32_number(b, b.len() as int)->0).1 * 5 / 8 <= 128,
        base32_number(b, b.len() as int) is None ==> !base32_valid(b),
        base32_number(Seq::empty(), 0) == Some((0nat, 0nat)),
        c == '=' as u8 ==> base32_number(b.push(c), b.push(c).len() as int) == base32_number(
            b,
            b.len() as int,
        ),
        c != '=' as u8 ==> base32_number(b.push(c), b.push(c).len() as int) == (match (
            base32_number(b, b.len() as int),
            base32_value(c),
        ) {
            (Some((n, digits)), Some(v)) => Some((32 * n + v, digits + 1)),
            _ => None,
        }),
{
    lemma_base32_prefix(b.push(c), b, b.len() as int);
}

/// Only the first digits count.
proof fn lemma_base32_prefix(a: Seq<u8>, b: Seq<u8>, i: int)
    requires
        i <= a.len(),
        i <= b.len(),
        forall|j: int| 0 <= j < i ==> #[trigger] a[j] == b[j],
    ensures
        base32_number(a, i) == base32_number(b, i),
    decreases i,
{
    if i > 0 {
        lemma_base32_prefix(a, b, i - 1);
    }
}

/// The value of more digits behind others.
proof fn lemma_digits_from(s: Seq<char>, i: int, max: nat, n: nat)
    requires
        0 <= i <= s.len(),
        s.skip(i) == decimal_digits(n),
    ensures
        digits_value(s, i, 0, max) == (if n <= max {
            Some(n)
        } else {
            None
        }),
{
    lemma_digits_behind(s, i, n, s.len() as int, max);
}

/// The digits of a number, from `i` to `j`, and then what follows.
proof fn lemma_digits_behind(s: Seq<char>, i: int, n: nat, j: int, max: nat)
    requires
        0 <= i <= j <= s.len(),
        s.subrange(i, j) == decimal_digits(n),
    ensures
        n <= max ==> digits_value(s, i, 0, max) == digits_value(s, j, n, max),
        n > max ==> digits_value(s, i, 0, max) is None,
    decreases n,
{
    let d = decimal_digits(n);
    if n < 10 {
        assert(d.len() == 1);
        assert(j == i + 1);
        assert(s.subrange(i, j)[0] == s[i]);
        assert(d[0] == (48 + n) as char);
        assert(digits_value(s, i, 0, max) == digits_value(s, i + 1, n, max));
    } else {
        let p = decimal_digits(n / 10);
        assert(d.len() == p.len() + 1);
        assert(s.subrange(i, j).drop_last() =~= s.subrange(i, j - 1));
        assert(d.drop_last() =~= p);
        assert(s.subrange(i, j)[j - 1 - i] == s[j - 1]);
        assert(s[j - 1] == (48 + n % 10) as char);
        lemma_digits_behind(s, i, n / 10, j - 1, max);
        if n / 10 <= max {
            assert(digits_value(s, j - 1, n / 10, max) == digits_value(s, j, n, max));
        }
    }
}

/// A number is read from its decimal digits, with or without a plus sign, where
/// it is not too large; and no number from no digits.
pub proof fn lemma_number(n: nat, max: nat)
    ensures
        number_value(decimal_digits(n), max) == (if n <= max {
            Some(n)
        } else {
            None
        }),
        number_value(seq!['+'] + decimal_digits(n), max) == (if n <= max {
            Some(n)
        } else {
            None
        }),
        number_value(Seq::empty(), max) is None,
        number_value(seq!['+'], max) is None,
{
    let d = decimal_digits(n);
    lemma_first_digit(n);
    assert(d.skip(0) =~= d);
    lemma_digits_from(d, 0, max, n);
    let p = seq!['+'] + d;
    assert(p.skip(1) =~= d);
    lemma_digits_from(p, 1, max, n);
}

/// A number starts with a digit.
proof fn lemma_first_digit(n: nat)
    ensures
        decimal_digits(n).len() > 0,
        '0' <= decimal_digits(n)[0] <= '9',
    decreases n,
{
    if n >= 10 {
        lemma_first_digit(n / 10);
    }
}

/// A character that is not a digit spoils a number.
pub proof fn lemma_not_a_number(s: Seq<char>, i: int, max: nat)
    requires
        0 <= i < s.len(),
        s[i] < '0' || s[i] > '9',
        i > 0 || s[i] != '+',
    ensures
        number_value(s, max) is None,
{
    let start: int = if s[0] == '+' {
        1
    } else {
        0
    };
    if start < s.len() {
        lemma_digits_spoiled(s, start, 0, max, i);
    }
}

/// A character that is not a digit is never passed.
proof fn lemma_digits_spoiled(s: Seq<char>, from: int, acc: nat, max: nat, i: int)
    requires
        0 <= from <= i < s.len(),
        s[i] < '0' || s[i] > '9',
    ensures
        digits_value(s, from, acc, max) is None,
    decreases i - from,
{
    if from < i && acc <= max && '0' <= s[from] && s[from] <= '9' {
        lemma_digits_spoiled(s, from + 1, (acc * 10 + (s[from] as int - 48)) as nat, max, i);
    }
}

/// The first place of a character is found.
proof fn lemma_char_found(s: Seq<char>, c: char, i: int, from: int)
    requires
        0 <= from <= i < s.len(),
        s[i] == c,
        forall|j: int| 0 <= j < i ==> #[trigger] s[j] != c,
    ensures
        find_char(s, c, from) == Some(i),
    decreases i - from,
{
    if from < i {
        assert(s[from] != c);
        lemma_char_found(s, c, i, from + 1);
    }
}

/// A character that does not stand there is not found.
proof fn lemma_char_absent(s: Seq<char>, c: char, from: int)
    requires
        0 <= from,
        forall|j: int| 0 <= j < s.len() ==> #[trigger] s[j] != c,
    ensures
        find_char(s, c, from) is None,
    decreases s.len() - from,
{
    if from < s.len() {
        assert(s[from] != c);
        lemma_char_absent(s, c, from + 1);
    }
}

/// A parameter is its name, up to the first equals sign, and its value, decoded.
pub proof fn lemma_parameter(name: Seq<char>, value: Seq<char>)
    requires
        forall|j: int| 0 <= j < name.len() ==> #[trigger] name[j] != '=',
    ensures
        percent_text(value) matches Some(text) ==> parameter(name + seq!['='] + value) == Some(
            (name, text),
        ),
        percent_text(value) is None ==> parameter(name + seq!['='] + value) is None,
        parameter(name) is None,
{
    let p = name + seq!['='] + value;
    let k = name.len() as int;
    assert(forall|j: int| 0 <= j < k ==> #[trigger] p[j] == name[j]);
    lemma_char_found(p, '=', k, 0);
    lemma_char_absent(name, '=', 0);
    assert(p.take(k) =~= name);
    assert(p.skip(k + 1) =~= value);
}

/// A character is found from where one stands.
proof fn lemma_find_from(s: Seq<char>, c: char, i: int, k: int)
    requires
        0 <= i <= k <= s.len(),
    ensures
        find_char(s.skip(i), c, k - i) == (match find_char(s, c, k) {
            Some(n) => Some(n - i),
            None => None,
        }),
    decreases s.len() - k,
{
    if k < s.len() {
        assert(s.skip(i)[k - i] == s[k]);
        lemma_find_from(s, c, i, k + 1);
    }
}

/// Parameters are read from where one stands.
proof fn lemma_parameters_from(s: Seq<char>, i: int, k: int)
    requires
        0 <= i <= k <= s.len(),
    ensures
        parameters(s.skip(i), k - i) == parameters(s, k),
    decreases s.len() - k,
{
    lemma_find_char(s, '&', k);
    lemma_find_from(s, '&', i, k);
    let t = s.skip(i);
    match find_char(s, '&', k) {
        Some(n) => {
            assert(t.subrange(k - i, n - i) =~= s.subrange(k, n));
            lemma_parameters_from(s, i, n + 1);
        },
        None => {
            assert(t.skip(k - i) =~= s.skip(k));
        },
    }
}

/// Parameters are parted by ampersands, and come in their order; one that cannot
/// be read spoils them all.
pub proof fn lemma_parameters(first: Seq<char>, rest: Seq<char>)
    requires
        forall|j: int| 0 <= j < first.len() ==> #[trigger] first[j] != '&',
    ensures
        parameters(first, 0) == (match parameter(first) {
            Some(p) => Some(seq![p]),
            None => None,
        }),
        parameters(first + seq!['&'] + rest, 0) == (match (parameter(first), parameters(rest, 0)) {
            (Some(p), Some(more)) => Some(seq![p] + more),
            _ => None,
        }),
{
    let s = first + seq!['&'] + rest;
    let k = first.len() as int;
    assert(forall|j: int| 0 <= j < k ==> #[trigger] s[j] == first[j]);
    lemma_char_absent(first, '&', 0);
    lemma_char_found(s, '&', k, 0);
    assert(first.skip(0) =~= first);
    assert(s.subrange(0, k) =~= first);
    assert(s.skip(k + 1) =~= rest);
    lemma_parameters_from(s, k + 1, k + 1);
}

/// A parameter is looked up by its name; one that is not there is not found.
pub proof fn lemma_lookup(v: Seq<(Seq<char>, Seq<char>)>, name: Seq<char>, i: int)
    ensures
        names_distinct(v) && 0 <= i < v.len() && v[i].0 == name ==> lookup(v, name, 0) == Some(
            v[i].1,
        ),
        (forall|j: int| 0 <= j < v.len() ==> (#[trigger] v[j]).0 != name) ==> lookup(
            v,
            name,
            0,
        ) is None,
{
    if names_distinct(v) && 0 <= i < v.len() && v[i].0 == name {
        lemma_lookup_at(v, name, i, 0);
    }
    if forall|j: int| 0 <= j < v.len() ==> (#[trigger] v[j]).0 != name {
        lemma_lookup_none(v, name, 0);
    }
}

/// A parameter is found at its place.
proof fn lemma_lookup_at(v: Seq<(Seq<char>, Seq<char>)>, name: Seq<char>, i: int, from: int)
    requires
        names_distinct(v),
        0 <= from <= i < v.len(),
        v[i].0 == name,
    ensures
        lookup(v, name, from) == Some(v[i].1),
    decreases i - from,
{
    if from < i {
        assert(v[from].0 != v[i].0);
        lemma_lookup_at(v, name, i, from + 1);
    }
}

/// A parameter that is not there is not found.
proof fn lemma_lookup_none(v: Seq<(Seq<char>, Seq<char>)>, name: Seq<char>, from: int)
    requires
        0 <= from,
        forall|j: int| 0 <= j < v.len() ==> (#[trigger] v[j]).0 != name,
    ensures
        lookup(v, name, from) is None,
    decreases v.len() - from,
{
    if from < v.len() {
        assert(v[from].0 != name);
        lemma_lookup_none(v, name, from + 1);
    }
}

/// The algorithm is the one that is named, SHA-1 where none is.
pub proof fn lemma_algorithm_named(v: Seq<(Seq<char>, Seq<char>)>)
    ensures
        lookup(v, "algorithm"@, 0) is None ==> totp_algorithm(v) == Some(TotpAlgorithm::Sha1),
        lookup(v, "algorithm"@, 0) matches Some(name) ==> {
            &&& totp_algorithm(v) == Some(TotpAlgorithm::Sha1) <==> name == "SHA1"@
            &&& totp_algorithm(v) == Some(TotpAlgorithm::Sha256) <==> name == "SHA256"@
            &&& totp_algorithm(v) == Some(TotpAlgorithm::Sha512) <==> name == "SHA512"@
        },
{
    reveal_strlit("SHA1");
    reveal_strlit("SHA256");
    reveal_strlit("SHA512");
    assert("SHA1"@.len() == 4);
    assert("SHA256"@.len() == 6);
    assert("SHA512"@.len() == 6);
    assert("SHA256"@[3] == '2');
    assert("SHA512"@[3] == '5');
}

/// What a URI of a one-time password says: its secret must be there; the digits
/// are six and the period thirty seconds where it does not say; what stands in
/// the label before a colon is the issuer and what stands behind it the account;
/// without a colon the label is the account, and the issuer is the parameter's.
pub proof fn lemma_totp_fields(
    label: Seq<char>,
    v: Seq<(Seq<char>, Seq<char>)>,
    refs: Seq<u16>,
    k: int,
)
    ensures
        lookup(v, "secret"@, 0) is None ==> totp_fields(label, v, refs) is None,
        totp_algorithm(v) is None ==> totp_fields(label, v, refs) is None,
        totp_fields(label, v, refs) matches Some(a) ==> {
            &&& a is Totp
            &&& lookup(v, "secret"@, 0) is Some
            &&& base32_valid(encode_utf8(lookup(v, "secret"@, 0)->0))
            &&& a->Totp_secret == base32_secret(encode_utf8(lookup(v, "secret"@, 0)->0))
            &&& Some(a->algorithm) == totp_algorithm(v)
            &&& lookup(v, "digits"@, 0) is None ==> a->digits == 6
            &&& lookup(v, "digits"@, 0) matches Some(t) ==> number_value(t, 255) == Some(
                a->digits as nat,
            )
            &&& lookup(v, "period"@, 0) is None ==> a->period == 30
            &&& lookup(v, "period"@, 0) matches Some(t) ==> number_value(t, 65535) == Some(
                a->period as nat,
            )
            &&& a->t0 == 0
            &&& a->Totp_destination_refs == refs
            &&& (forall|j: int| 0 <= j < label.len() ==> #[trigger] label[j] != ':') ==> a->account
                == label && (lookup(v, "issuer"@, 0) matches Some(i) ==> a->issuer == i) && (
            lookup(v, "issuer"@, 0) is None ==> a->issuer.len() == 0)
            &&& 0 <= k < label.len() && label[k] == ':' && (forall|j: int|
                0 <= j < k ==> #[trigger] label[j] != ':') ==> a->issuer == label.take(k)
                && a->account == label.skip(k + 1)
        },
{
    if forall|j: int| 0 <= j < label.len() ==> #[trigger] label[j] != ':' {
        lemma_char_absent(label, ':', 0);
    }
    if 0 <= k < label.len() && label[k] == ':' && (forall|j: int|
        0 <= j < k ==> #[trigger] label[j] != ':') {
        lemma_char_found(label, ':', k, 0);
    }
    if lookup(v, "digits"@, 0) is Some {
        lemma_number_fits(lookup(v, "digits"@, 0)->0, 255);
    }
    if lookup(v, "period"@, 0) is Some {
        lemma_number_fits(lookup(v, "period"@, 0)->0, 65535);
    }
}

/// A number that is read is not too large.
proof fn lemma_number_fits(s: Seq<char>, max: nat)
    ensures
        number_value(s, max) matches Some(n) ==> n <= max,
{
    lemma_digits_fit(s, 0, 0, max);
    if s.len() > 1 {
        lemma_digits_fit(s, 1, 0, max);
    }
}

/// Digits that are read are not too large.
proof fn lemma_digits_fit(s: Seq<char>, i: int, acc: nat, max: nat)
    requires
        0 <= i,
    ensures
        digits_value(s, i, acc, max) matches Some(n) ==> n <= max,
    decreases s.len() - i,
{
    if acc <= max && i < s.len() && '0' <= s[i] && s[i] <= '9' {
        lemma_digits_fit(s, i + 1, (acc * 10 + (s[i] as int - 48)) as nat, max);
    }
}

/// A URI of a one-time password is its prefix, its label up to the question
/// mark, and its parameters, no two of one name.
pub proof fn lemma_totp_uri(label: Seq<char>, query: Seq<char>, refs: Seq<u16>)
    requires
        forall|j: int| 0 <= j < label.len() ==> #[trigger] label[j] != '?',
    ensures
        ({
            let uri = "otpauth://totp/"@ + label + seq!['?'] + query;
            let text = percent_text(label);
            let v = parameters(query, 0);
            &&& text is Some && v is Some && names_distinct(v->0) ==> totp_auth(uri, refs)
                == totp_fields(text->0, v->0, refs)
            &&& text is None || v is None || !names_distinct(v->0) ==> totp_auth(
                uri,
                refs,
            ) is None
        }),
        totp_auth("otpauth://totp/"@ + label, refs) is None,
{
    let p = "otpauth://totp/"@;
    let n = p.len() as int;
    let uri = p + label + seq!['?'] + query;
    let k = label.len() as int;
    let rest = uri.skip(n);
    assert(uri.take(n) =~= p);
    assert(rest =~= label + seq!['?'] + query);
    assert(forall|j: int| 0 <= j < k ==> #[trigger] rest[j] == label[j]);
    lemma_char_found(rest, '?', k, 0);
    assert(rest.take(k) =~= label);
    assert(rest.skip(k + 1) =~= query);
    let bare = p + label;
    assert(bare.take(n) =~= p);
    assert(bare.skip(n) =~= label);
    lemma_char_absent(label, '?', 0);
}

/// What does not start as such a URI is none.
pub proof fn lemma_not_totp(uri: Seq<char>, refs: Seq<u16>)
    requires
        totp_auth(uri, refs) is Some,
    ensures
        uri.len() >= "otpauth://totp/"@.len(),
        uri.take("otpauth://totp/"@.len() as int) == "otpauth://totp/"@,
{
}

} // verus!

//! Password generation by rejection sampling.
use crate::errors::HumanCommitError;
use crate::wipe::wipe_bytes;
use vstd::prelude::*;
use vstd::utf8::{encode_utf8, is_ascii_chars, is_ascii_chars_encode_utf8};

verus! {

/// Longest password that can be generated.
pub const MAX_GENERATED: usize = 1024;

/// How long a generated password is and which characters it draws from.
#[derive(Clone, Copy, Debug, PartialEq, Eq, Structural)]
pub struct GeneratorConfig {
    pub length: usize,
    pub lowercase: bool,
    pub uppercase: bool,
    pub digits: bool,
    pub symbols: bool,
}

/// The bytes of `text` where `wanted`, none otherwise.
pub open spec fn class_bytes(wanted: bool, text: Seq<char>) -> Seq<u8> {
    if wanted {
        encode_utf8(text)
    } else {
        Seq::empty()
    }
}

/// The characters a configuration selects, in a fixed order.
pub open spec fn alphabet_of(config: GeneratorConfig) -> Seq<u8> {
    class_bytes(config.lowercase, "abcdefghijklmnopqrstuvwxyz"@) + class_bytes(
        config.uppercase,
        "ABCDEFGHIJKLMNOPQRSTUVWXYZ"@,
    ) + class_bytes(config.digits, "0123456789"@) + class_bytes(
        config.symbols,
        "!#$%&()*+,-./:;<=>?@[]^_{|}~"@,
    )
}

/// Whether a configuration can be served: a length between one and the
/// longest, and at least one class of characters.
pub open spec fn config_valid(config: GeneratorConfig) -> bool {
    &&& 1 <= config.length <= MAX_GENERATED
    &&& config.lowercase || config.uppercase || config.digits || config.symbols
}

/// The first random byte value that is thrown away for an alphabet of `n`
/// characters.
pub open spec fn ceiling(n: int) -> int {
    255 - 255int % n
}

/// Below the ceiling every character has the same number of byte values.
pub proof fn lemma_unbiased(n: int)
    requires
        1 <= n <= 255,
    ensures
        ceiling(n) % n == 0,
        n <= ceiling(n) <= 255,
{
    vstd::arithmetic::div_mod::lemma_fundamental_div_mod(255, n);
    let q = 255int / n;
    assert(ceiling(n) == n * q);
    vstd::arithmetic::div_mod::lemma_mod_multiples_basic(q, n);
    assert(n * q == q * n) by (nonlinear_arith);
    assert(q >= 1) by {
        vstd::arithmetic::div_mod::lemma_div_non_zero(255, n);
    }
    assert(n * q >= n) by (nonlinear_arith)
        requires
            q >= 1,
            n >= 1,
    ;
}

/// What a password becomes when the random bytes of `block` are used from `i`
/// on: every byte below the ceiling picks one character, until the password is
/// long enough.
pub open spec fn absorbed(
    result: Seq<u8>,
    alphabet: Seq<u8>,
    length: int,
    block: Seq<u8>,
    i: int,
) -> Seq<u8>
    decreases block.len() - i,
{
    if i < 0 || i >= block.len() || result.len() >= length {
        result
    } else if block[i] < ceiling(alphabet.len() as int) {
        absorbed(
            result.push(alphabet[block[i] as int % alphabet.len() as int]),
            alphabet,
            length,
            block,
            i + 1,
        )
    } else {
        absorbed(result, alphabet, length, block, i + 1)
    }
}

/// Whether every byte of `s` occurs in `alphabet`.
pub open spec fn drawn_from(s: Seq<u8>, alphabet: Seq<u8>) -> bool {
    forall|i: int| 0 <= i < s.len() ==> alphabet.contains(#[trigger] s[i])
}

/// A password never grows too long, and keeps to the alphabet.
pub proof fn lemma_absorbed(
    result: Seq<u8>,
    alphabet: Seq<u8>,
    length: int,
    block: Seq<u8>,
    i: int,
)
    requires
        0 < alphabet.len(),
        result.len() <= length,
        drawn_from(result, alphabet),
        0 <= i,
    ensures
        result.len() <= absorbed(result, alphabet, length, block, i).len() <= length,
        drawn_from(absorbed(result, alphabet, length, block, i), alphabet),
    decreases block.len() - i,
{
    if i < block.len() && result.len() < length {
        if block[i] < ceiling(alphabet.len() as int) {
            let k = block[i] as int % alphabet.len() as int;
            assert(0 <= k < alphabet.len());
            assert(alphabet.contains(alphabet[k]));
            lemma_absorbed(result.push(alphabet[k]), alphabet, length, block, i + 1);
        } else {
            lemma_absorbed(result, alphabet, length, block, i + 1);
        }
    }
}

/// Every byte value below the largest multiple of the alphabet's size picks one
/// character, and each character is picked by equally many values: the values
/// that differ by a multiple of the size pick the same one, and the values in a
/// row pick the characters in a row. The values above pick none.
pub proof fn lemma_every_character_drawn(
    result: Seq<u8>,
    alphabet: Seq<u8>,
    length: int,
    k: int,
    turn: int,
    value: u8,
)
    requires
        0 < alphabet.len() <= 255,
        result.len() < length,
        0 <= k < alphabet.len(),
        0 <= turn < 255int / (alphabet.len() as int),
    ensures
        k + turn * alphabet.len() < 255,
        value == k + turn * alphabet.len() ==> absorbed(
            result,
            alphabet,
            length,
            seq![value],
            0,
        ) == result.push(alphabet[k]),
        value >= 255int / (alphabet.len() as int) * alphabet.len() ==> absorbed(
            result,
            alphabet,
            length,
            seq![value],
            0,
        ) == result,
{
    let n = alphabet.len() as int;
    let q = 255int / n;
    vstd::arithmetic::div_mod::lemma_fundamental_div_mod(255, n);
    assert(n * q == q * n) by (nonlinear_arith);
    assert(ceiling(n) == q * n);
    assert(k + turn * n < q * n) by (nonlinear_arith)
        requires
            0 <= k < n,
            0 <= turn < q,
    ;
    vstd::arithmetic::div_mod::lemma_fundamental_div_mod_converse_mod(k + turn * n, n, turn, k);
    reveal_with_fuel(absorbed, 3);
}

/// Random bytes are used in their order, one after the other: those of two
/// blocks as if they came in one.
pub proof fn lemma_absorbed_in_order(
    result: Seq<u8>,
    alphabet: Seq<u8>,
    length: int,
    a: Seq<u8>,
    b: Seq<u8>,
)
    ensures
        absorbed(result, alphabet, length, a + b, 0) == absorbed(
            absorbed(result, alphabet, length, a, 0),
            alphabet,
            length,
            b,
            0,
        ),
{
    lemma_absorbed_from(result, alphabet, length, a, b, 0);
}

/// The rest of a block is used before the next one.
proof fn lemma_absorbed_from(
    result: Seq<u8>,
    alphabet: Seq<u8>,
    length: int,
    a: Seq<u8>,
    b: Seq<u8>,
    i: int,
)
    requires
        0 <= i <= a.len(),
    ensures
        absorbed(result, alphabet, length, a + b, i) == absorbed(
            absorbed(result, alphabet, length, a, i),
            alphabet,
            length,
            b,
            0,
        ),
    decreases a.len() - i,
{
    if i == a.len() {
        lemma_absorbed_shifted(result, alphabet, length, a, b, 0);
    } else if result.len() < length {
        let next = if a[i] < ceiling(alphabet.len() as int) {
            result.push(alphabet[a[i] as int % alphabet.len() as int])
        } else {
            result
        };
        assert((a + b)[i] == a[i]);
        lemma_absorbed_from(next, alphabet, length, a, b, i + 1);
    }
}

/// A block is used alike wherever it stands.
proof fn lemma_absorbed_shifted(
    result: Seq<u8>,
    alphabet: Seq<u8>,
    length: int,
    a: Seq<u8>,
    b: Seq<u8>,
    i: int,
)
    requires
        0 <= i <= b.len(),
    ensures
        absorbed(result, alphabet, length, a + b, a.len() + i) == absorbed(
            result,
            alphabet,
            length,
            b,
            i,
        ),
    decreases b.len() - i,
{
    if i < b.len() && result.len() < length {
        let next = if b[i] < ceiling(alphabet.len() as int) {
            result.push(alphabet[b[i] as int % alphabet.len() as int])
        } else {
            result
        };
        assert((a + b)[a.len() + i] == b[i]);
        lemma_absorbed_shifted(next, alphabet, length, a, b, i + 1);
    }
}

/// A password that is long enough takes no more characters, and one that is not
/// keeps those it has.
pub proof fn lemma_absorbed_keeps(
    result: Seq<u8>,
    alphabet: Seq<u8>,
    length: int,
    block: Seq<u8>,
    i: int,
)
    requires
        0 <= i,
    ensures
        result.len() >= length ==> absorbed(result, alphabet, length, block, i) == result,
        result.len() <= absorbed(result, alphabet, length, block, i).len(),
        absorbed(result, alphabet, length, block, i).take(result.len() as int) == result,
    decreases block.len() - i,
{
    if i < block.len() && result.len() < length {
        if block[i] < ceiling(alphabet.len() as int) {
            let next = result.push(alphabet[block[i] as int % alphabet.len() as int]);
            lemma_absorbed_keeps(next, alphabet, length, block, i + 1);
            let end = absorbed(next, alphabet, length, block, i + 1);
            assert(end.take(result.len() as int) =~= end.take(next.len() as int).take(
                result.len() as int,
            ));
            assert(next.take(result.len() as int) =~= result);
        } else {
            lemma_absorbed_keeps(result, alphabet, length, block, i + 1);
        }
    }
    assert(result.take(result.len() as int) =~= result);
}

/// Injectable randomness boundary.
pub trait PasswordRng {
    /// Whether one call may turn a source from `before` into `after`, leaving
    /// `block` in the buffer and failing with `fault` where it does.
    /// A source that says nothing of itself may do anything.
    open spec fn gives(
        before: Self,
        after: Self,
        block: Seq<u8>,
        fault: Option<HumanCommitError>,
    ) -> bool where Self: Sized {
        true
    }

    /// Fills the entire buffer or returns a fixed, secret-free error.
    fn fill(&mut self, output: &mut [u8]) -> (r: Result<(), HumanCommitError>) where Self: Sized
        ensures
            final(output)@.len() == old(output)@.len(),
            Self::gives(*old(self), *final(self), final(output)@, r.err()),
    ;
}

/// Whether a source went from `first` to `last` by giving `blocks`, one call
/// each, none of which failed.
pub open spec fn gave<R: PasswordRng>(first: R, blocks: Seq<Seq<u8>>, last: R) -> bool
    decreases blocks.len(),
{
    if blocks.len() == 0 {
        last == first
    } else {
        &&& blocks.last().len() == 64
        &&& exists|before: R|
            gave(first, blocks.drop_last(), before) && #[trigger] R::gives(
                before,
                last,
                blocks.last(),
                None,
            )
    }
}

/// The password that blocks of random bytes make, one after the other.
pub open spec fn gathered(alphabet: Seq<u8>, length: int, blocks: Seq<Seq<u8>>) -> Seq<u8>
    decreases blocks.len(),
{
    if blocks.len() == 0 {
        Seq::empty()
    } else {
        absorbed(
            gathered(alphabet, length, blocks.drop_last()),
            alphabet,
            length,
            blocks.last(),
            0,
        )
    }
}

/// Whether blocks were all needed: before the last one the password was not
/// long enough.
pub open spec fn all_needed(alphabet: Seq<u8>, length: int, blocks: Seq<Seq<u8>>) -> bool {
    blocks.len() == 0 || gathered(alphabet, length, blocks.drop_last()).len() < length
}

/// Whether a source gave `error` before its blocks made a password.
pub open spec fn failed<R: PasswordRng>(
    config: GeneratorConfig,
    first: R,
    last: R,
    error: HumanCommitError,
) -> bool {
    exists|blocks: Seq<Seq<u8>>, before: R, block: Seq<u8>|
        #![trigger gave(first, blocks, before), R::gives(before, last, block, Some(error))]
        gave(first, blocks, before) && gathered(
            alphabet_of(config),
            config.length as int,
            blocks,
        ).len() < config.length && R::gives(before, last, block, Some(error))
}

/// Whether a source that was `first` and is now `last` may have been asked for
/// a password with result `r`: the blocks it gave make the password, or its own
/// error came before they did. `u64::MAX` blocks that do not make it are the
/// last.
pub open spec fn answered<R: PasswordRng>(
    config: GeneratorConfig,
    first: R,
    last: R,
    r: Result<Seq<u8>, HumanCommitError>,
) -> bool {
    let alphabet = alphabet_of(config);
    let length = config.length as int;
    match r {
        Ok(password) => exists|blocks: Seq<Seq<u8>>| #[trigger]
            gave(first, blocks, last) && all_needed(alphabet, length, blocks) && password
                == gathered(alphabet, length, blocks) && password.len() == length,
        Err(error) => {
            ||| failed(config, first, last, error)
            ||| error is RandomUnavailable && exists|blocks: Seq<Seq<u8>>| #[trigger]
                gave(first, blocks, last) && blocks.len() == u64::MAX && gathered(
                    alphabet,
                    length,
                    blocks,
                ).len() < length
        },
    }
}

/// The contents of a generated password, or the error in its place.
pub open spec fn password_view(r: Result<GeneratedPassword, HumanCommitError>) -> Result<
    Seq<u8>,
    HumanCommitError,
> {
    match r {
        Ok(password) => Ok(password@),
        Err(error) => Err(error),
    }
}

/// Generated secret bytes, erased when the caller releases them.
pub struct GeneratedPassword(Vec<u8>);

impl View for GeneratedPassword {
    type V = Seq<u8>;

    closed spec fn view(&self) -> Seq<u8> {
        self.0@
    }
}

impl GeneratedPassword {
    /// The generated bytes.
    pub fn expose(&self) -> (r: &[u8])
        ensures
            r@ == self@,
    {
        self.0.as_slice()
    }

    /// Erases the generated bytes from memory.
    pub fn wipe(&mut self)
        ensures
            final(self)@ == Seq::<u8>::empty(),
        opens_invariants none
        no_unwind
    {
        wipe_bytes(&mut self.0);
    }
}

impl Drop for GeneratedPassword {
    /// Erases the generated bytes when the value is released.
    fn drop(&mut self)
        ensures
            final(self)@ == Seq::<u8>::empty(),
        opens_invariants none
        no_unwind
    {
        self.wipe();
    }
}

/// The number of bytes of each class of characters.
proof fn lemma_class_sizes()
    ensures
        encode_utf8("abcdefghijklmnopqrstuvwxyz"@).len() == 26,
        encode_utf8("ABCDEFGHIJKLMNOPQRSTUVWXYZ"@).len() == 26,
        encode_utf8("0123456789"@).len() == 10,
        encode_utf8("!#$%&()*+,-./:;<=>?@[]^_{|}~"@).len() == 28,
{
    reveal_strlit("abcdefghijklmnopqrstuvwxyz");
    reveal_strlit("ABCDEFGHIJKLMNOPQRSTUVWXYZ");
    reveal_strlit("0123456789");
    reveal_strlit("!#$%&()*+,-./:;<=>?@[]^_{|}~");
    assert(is_ascii_chars("abcdefghijklmnopqrstuvwxyz"@));
    assert(is_ascii_chars("ABCDEFGHIJKLMNOPQRSTUVWXYZ"@));
    assert(is_ascii_chars("0123456789"@));
    assert(is_ascii_chars("!#$%&()*+,-./:;<=>?@[]^_{|}~"@));
    is_ascii_chars_encode_utf8("abcdefghijklmnopqrstuvwxyz"@);
    is_ascii_chars_encode_utf8("ABCDEFGHIJKLMNOPQRSTUVWXYZ"@);
    is_ascii_chars_encode_utf8("0123456789"@);
    is_ascii_chars_encode_utf8("!#$%&()*+,-./:;<=>?@[]^_{|}~"@);
}

/// An alphabet has at most ninety characters, and some where a class is
/// selected.
pub proof fn lemma_alphabet_size(config: GeneratorConfig)
    ensures
        alphabet_of(config).len() <= 90,
        config_valid(config) ==> alphabet_of(config).len() >= 10,
        !(config.lowercase || config.uppercase || config.digits || config.symbols) ==> alphabet_of(
            config,
        ).len() == 0,
{
    lemma_class_sizes();
}

/// The lowercase letters of ASCII, each once.
proof fn lemma_lowercase(b: u8)
    ensures
        encode_utf8("abcdefghijklmnopqrstuvwxyz"@).contains(b) <==> (97 <= b <= 122),
        encode_utf8("abcdefghijklmnopqrstuvwxyz"@).no_duplicates(),
{
    let chars = "abcdefghijklmnopqrstuvwxyz"@;
    let bytes = encode_utf8(chars);
    reveal_strlit("abcdefghijklmnopqrstuvwxyz");
    assert(is_ascii_chars(chars));
    is_ascii_chars_encode_utf8(chars);
    assert(bytes[0] == 97);
    assert(bytes[1] == 98);
    assert(bytes[2] == 99);
    assert(bytes[3] == 100);
    assert(bytes[4] == 101);
    assert(bytes[5] == 102);
    assert(bytes[6] == 103);
    assert(bytes[7] == 104);
    assert(bytes[8] == 105);
    assert(bytes[9] == 106);
    assert(bytes[10] == 107);
    assert(bytes[11] == 108);
    assert(bytes[12] == 109);
    assert(bytes[13] == 110);
    assert(bytes[14] == 111);
    assert(bytes[15] == 112);
    assert(bytes[16] == 113);
    assert(bytes[17] == 114);
    assert(bytes[18] == 115);
    assert(bytes[19] == 116);
    assert(bytes[20] == 117);
    assert(bytes[21] == 118);
    assert(bytes[22] == 119);
    assert(bytes[23] == 120);
    assert(bytes[24] == 121);
    assert(bytes[25] == 122);
    assert(bytes.len() == 26);
    if bytes.contains(b) {
        let i = choose|i: int| 0 <= i < bytes.len() && bytes[i] == b;
    }
    assert(bytes =~= seq![97u8, 98u8, 99u8, 100u8, 101u8, 102u8, 103u8, 104u8, 105u8, 106u8, 107u8,
        108u8, 109u8, 110u8, 111u8, 112u8, 113u8, 114u8, 115u8, 116u8, 117u8, 118u8, 119u8, 120u8,
        121u8, 122u8]);
}

/// The uppercase letters of ASCII, each once.
proof fn lemma_uppercase(b: u8)
    ensures
        encode_utf8("ABCDEFGHIJKLMNOPQRSTUVWXYZ"@).contains(b) <==> (65 <= b <= 90),
        encode_utf8("ABCDEFGHIJKLMNOPQRSTUVWXYZ"@).no_duplicates(),
{
    let chars = "ABCDEFGHIJKLMNOPQRSTUVWXYZ"@;
    let bytes = encode_utf8(chars);
    reveal_strlit("ABCDEFGHIJKLMNOPQRSTUVWXYZ");
    assert(is_ascii_chars(chars));
    is_ascii_chars_encode_utf8(chars);
    assert(bytes[0] == 65);
    assert(bytes[1] == 66);
    assert(bytes[2] == 67);
    assert(bytes[3] == 68);
    assert(bytes[4] == 69);
    assert(bytes[5] == 70);
    assert(bytes[6] == 71);
    assert(bytes[7] == 72);
    assert(bytes[8] == 73);
    assert(bytes[9] == 74);
    assert(bytes[10] == 75);
    assert(bytes[11] == 76);
    assert(bytes[12] == 77);
    assert(bytes[13] == 78);
    assert(bytes[14] == 79);
    assert(bytes[15] == 80);
    assert(bytes[16] == 81);
    assert(bytes[17] == 82);
    assert(bytes[18] == 83);
    assert(bytes[19] == 84);
    assert(bytes[20] == 85);
    assert(bytes[21] == 86);
    assert(bytes[22] == 87);
    assert(bytes[23] == 88);
    assert(bytes[24] == 89);
    assert(bytes[25] == 90);
    assert(bytes.len() == 26);
    if bytes.contains(b) {
        let i = choose|i: int| 0 <= i < bytes.len() && bytes[i] == b;
    }
    assert(bytes =~= seq![65u8, 66u8, 67u8, 68u8, 69u8, 70u8, 71u8, 72u8, 73u8, 74u8, 75u8, 76u8,
        77u8, 78u8, 79u8, 80u8, 81u8, 82u8, 83u8, 84u8, 85u8, 86u8, 87u8, 88u8, 89u8, 90u8]);
}

/// The digits of ASCII, each once.
proof fn lemma_digits(b: u8)
    ensures
        encode_utf8("0123456789"@).contains(b) <==> (48 <= b <= 57),
        encode_utf8("0123456789"@).no_duplicates(),
{
    let chars = "0123456789"@;
    let bytes = encode_utf8(chars);
    reveal_strlit("0123456789");
    assert(is_ascii_chars(chars));
    is_ascii_chars_encode_utf8(chars);
    assert(bytes[0] == 48);
    assert(bytes[1] == 49);
    assert(bytes[2] == 50);
    assert(bytes[3] == 51);
    assert(bytes[4] == 52);
    assert(bytes[5] == 53);
    assert(bytes[6] == 54);
    assert(bytes[7] == 55);
    assert(bytes[8] == 56);
    assert(bytes[9] == 57);
    assert(bytes.len() == 10);
    if bytes.contains(b) {
        let i = choose|i: int| 0 <= i < bytes.len() && bytes[i] == b;
    }
    assert(bytes =~= seq![48u8, 49u8, 50u8, 51u8, 52u8, 53u8, 54u8, 55u8, 56u8, 57u8]);
}

/// The punctuation of ASCII but for quotes, the backslash and the grave accent, each
/// once.
proof fn lemma_symbols(b: u8)
    ensures
        encode_utf8("!#$%&()*+,-./:;<=>?@[]^_{|}~"@).contains(b) <==> ((33 <= b <= 47
            || 58 <= b <= 64 || 91 <= b <= 96 || 123 <= b <= 126) && b != 34 && b
            != 39 && b != 92 && b != 96),
        encode_utf8("!#$%&()*+,-./:;<=>?@[]^_{|}~"@).no_duplicates(),
{
    let chars = "!#$%&()*+,-./:;<=>?@[]^_{|}~"@;
    let bytes = encode_utf8(chars);
    reveal_strlit("!#$%&()*+,-./:;<=>?@[]^_{|}~");
    assert(is_ascii_chars(chars));
    is_ascii_chars_encode_utf8(chars);
    assert(bytes[0] == 33);
    assert(bytes[1] == 35);
    assert(bytes[2] == 36);
    assert(bytes[3] == 37);
    assert(bytes[4] == 38);
    assert(bytes[5] == 40);
    assert(bytes[6] == 41);
    assert(bytes[7] == 42);
    assert(bytes[8] == 43);
    assert(bytes[9] == 44);
    assert(bytes[10] == 45);
    assert(bytes[11] == 46);
    assert(bytes[12] == 47);
    assert(bytes[13] == 58);
    assert(bytes[14] == 59);
    assert(bytes[15] == 60);
    assert(bytes[16] == 61);
    assert(bytes[17] == 62);
    assert(bytes[18] == 63);
    assert(bytes[19] == 64);
    assert(bytes[20] == 91);
    assert(bytes[21] == 93);
    assert(bytes[22] == 94);
    assert(bytes[23] == 95);
    assert(bytes[24] == 123);
    assert(bytes[25] == 124);
    assert(bytes[26] == 125);
    assert(bytes[27] == 126);
    assert(bytes.len() == 28);
    if bytes.contains(b) {
        let i = choose|i: int| 0 <= i < bytes.len() && bytes[i] == b;
    }
    assert(bytes =~= seq![33u8, 35u8, 36u8, 37u8, 38u8, 40u8, 41u8, 42u8, 43u8, 44u8, 45u8, 46u8,
        47u8, 58u8, 59u8, 60u8, 61u8, 62u8, 63u8, 64u8, 91u8, 93u8, 94u8, 95u8, 123u8, 124u8,
        125u8, 126u8]);
}

/// A password draws from exactly the classes that are selected: lowercase and
/// uppercase letters, digits, and the punctuation of ASCII but for quotes, the
/// backslash and the grave accent. No character is drawn twice as often as
/// another.
pub proof fn lemma_alphabet_classes(config: GeneratorConfig, b: u8)
    ensures
        alphabet_of(config).contains(b) <==> {
            ||| config.lowercase && 97 <= b <= 122
            ||| config.uppercase && 65 <= b <= 90
            ||| config.digits && 48 <= b <= 57
            ||| config.symbols && (33 <= b <= 47 || 58 <= b <= 64 || 91 <= b <= 96 || 123 <= b
                <= 126) && b != 34 && b != 39 && b != 92 && b != 96
        },
        alphabet_of(config).no_duplicates(),
{
    let low = class_bytes(config.lowercase, "abcdefghijklmnopqrstuvwxyz"@);
    let up = class_bytes(config.uppercase, "ABCDEFGHIJKLMNOPQRSTUVWXYZ"@);
    let digits = class_bytes(config.digits, "0123456789"@);
    let symbols = class_bytes(config.symbols, "!#$%&()*+,-./:;<=>?@[]^_{|}~"@);
    let none = Seq::<u8>::empty();
    assert(none.no_duplicates());
    assert forall|x: u8| #![auto]
        low.contains(x) <==> config.lowercase && 97 <= x <= 122 by {
        lemma_lowercase(x);
    }
    assert forall|x: u8| #![auto] up.contains(x) <==> config.uppercase && 65 <= x <= 90 by {
        lemma_uppercase(x);
    }
    assert forall|x: u8| #![auto] digits.contains(x) <==> config.digits && 48 <= x <= 57 by {
        lemma_digits(x);
    }
    assert forall|x: u8| #![auto]
        symbols.contains(x) <==> config.symbols && (33 <= x <= 47 || 58 <= x <= 64 || 91 <= x
            <= 96 || 123 <= x <= 126) && x != 34 && x != 39 && x != 92 && x != 96 by {
        lemma_symbols(x);
    }
    lemma_lowercase(b);
    lemma_uppercase(b);
    lemma_digits(b);
    lemma_symbols(b);
    lemma_apart(low, up);
    lemma_apart(low + up, digits);
    lemma_apart(low + up + digits, symbols);
}

/// Two lists without duplicates that share nothing have none together.
proof fn lemma_apart(a: Seq<u8>, b: Seq<u8>)
    requires
        a.no_duplicates(),
        b.no_duplicates(),
        forall|x: u8| !(#[trigger] a.contains(x) && #[trigger] b.contains(x)),
    ensures
        (a + b).no_duplicates(),
        forall|x: u8| #[trigger] (a + b).contains(x) <==> a.contains(x) || b.contains(x),
{
    let both = a + b;
    assert forall|x: u8| #[trigger] both.contains(x) <==> a.contains(x) || b.contains(x) by {
        if a.contains(x) {
            let i = choose|i: int| 0 <= i < a.len() && a[i] == x;
            assert(both[i] == x);
        }
        if b.contains(x) {
            let i = choose|i: int| 0 <= i < b.len() && b[i] == x;
            assert(both[a.len() + i] == x);
        }
        if both.contains(x) {
            let i = choose|i: int| 0 <= i < both.len() && both[i] == x;
            if i < a.len() {
                assert(a[i] == x);
            } else {
                assert(b[i - a.len()] == x);
            }
        }
    }
    assert forall|i: int, j: int| 0 <= i < both.len() && 0 <= j < both.len() && i
        != j implies both[i] != both[j] by {
        if i < a.len() && j >= a.len() {
            assert(a.contains(both[i]) && b.contains(both[j]));
        } else if i >= a.len() && j < a.len() {
            assert(b.contains(both[i]) && a.contains(both[j]));
        }
    }
}

/// The bytes of blocks, one after the other.
pub open spec fn bytes_in_order(blocks: Seq<Seq<u8>>) -> Seq<u8>
    decreases blocks.len(),
{
    if blocks.len() == 0 {
        Seq::empty()
    } else {
        bytes_in_order(blocks.drop_last()) + blocks.last()
    }
}

/// The password that a source gives is made of all its random bytes, in the
/// order in which they came.
pub proof fn lemma_gathered_in_order(alphabet: Seq<u8>, length: int, blocks: Seq<Seq<u8>>)
    ensures
        gathered(alphabet, length, blocks) == absorbed(
            Seq::empty(),
            alphabet,
            length,
            bytes_in_order(blocks),
            0,
        ),
    decreases blocks.len(),
{
    if blocks.len() > 0 {
        lemma_gathered_in_order(alphabet, length, blocks.drop_last());
        lemma_absorbed_in_order(
            Seq::empty(),
            alphabet,
            length,
            bytes_in_order(blocks.drop_last()),
            blocks.last(),
        );
    }
}

/// Different random bytes below the alphabet's size give different passwords.
pub proof fn lemma_passwords_differ(config: GeneratorConfig, length: int, a: u8, b: u8)
    requires
        config_valid(config),
        length >= 1,
        a < alphabet_of(config).len(),
        b < alphabet_of(config).len(),
        a != b,
    ensures
        gathered(alphabet_of(config), length, seq![seq![a]]) != gathered(
            alphabet_of(config),
            length,
            seq![seq![b]],
        ),
{
    let alphabet = alphabet_of(config);
    lemma_alphabet_size(config);
    lemma_alphabet_classes(config, 0);
    lemma_unbiased(alphabet.len() as int);
    let none = Seq::<u8>::empty();
    let n = alphabet.len() as int;
    vstd::arithmetic::div_mod::lemma_div_non_zero(255, n);
    assert(0 * n == 0);
    lemma_every_character_drawn(none, alphabet, length, a as int, 0, a);
    lemma_every_character_drawn(none, alphabet, length, b as int, 0, b);
    lemma_gathered_in_order(alphabet, length, seq![seq![a]]);
    lemma_gathered_in_order(alphabet, length, seq![seq![b]]);
    reveal_with_fuel(bytes_in_order, 2);
    assert(seq![seq![a]].drop_last() =~= Seq::empty());
    assert(seq![seq![b]].drop_last() =~= Seq::empty());
    assert(none + seq![a] =~= seq![a]);
    assert(none + seq![b] =~= seq![b]);
    assert(none.push(alphabet[a as int])[0] != none.push(alphabet[b as int])[0]);
}

/// A password in the making.
pub struct PasswordGenerator {
    alphabet: Vec<u8>,
    length: usize,
    result: Vec<u8>,
}

impl PasswordGenerator {
    /// The characters drawn from.
    pub closed spec fn alphabet(&self) -> Seq<u8> {
        self.alphabet@
    }

    /// The length aimed at.
    pub closed spec fn length(&self) -> int {
        self.length as int
    }

    /// The characters drawn so far.
    pub closed spec fn drawn(&self) -> Seq<u8> {
        self.result@
    }

    /// A usable alphabet, and no more characters than wanted, all from it.
    pub open spec fn wf(&self) -> bool {
        &&& 0 < self.alphabet().len() <= 90
        &&& self.drawn().len() <= self.length()
        &&& drawn_from(self.drawn(), self.alphabet())
    }

    /// Prepares a password; a length or a selection that cannot be served is
    /// refused.
    pub fn new(config: &GeneratorConfig) -> (r: Result<PasswordGenerator, HumanCommitError>)
        ensures
            r is Ok <==> config_valid(*config),
            r is Ok ==> (r->Ok_0).wf() && (r->Ok_0).alphabet() == alphabet_of(*config) && (
            r->Ok_0).length() == config.length && (r->Ok_0).drawn() == Seq::<u8>::empty(),
            r is Err ==> r->Err_0 is InvalidInput,
    {
        proof {
            lemma_alphabet_size(*config);
        }
        if config.length < 1 || config.length > MAX_GENERATED {
            return Err(HumanCommitError::InvalidInput);
        }
        let mut alphabet: Vec<u8> = Vec::new();
        if config.lowercase {
            alphabet.extend_from_slice("abcdefghijklmnopqrstuvwxyz".as_bytes());
        }
        assert(alphabet@ =~= class_bytes(config.lowercase, "abcdefghijklmnopqrstuvwxyz"@));
        let ghost first = alphabet@;
        if config.uppercase {
            alphabet.extend_from_slice("ABCDEFGHIJKLMNOPQRSTUVWXYZ".as_bytes());
        }
        assert(alphabet@ =~= first + class_bytes(config.uppercase, "ABCDEFGHIJKLMNOPQRSTUVWXYZ"@));
        let ghost second = alphabet@;
        if config.digits {
            alphabet.extend_from_slice("0123456789".as_bytes());
        }
        assert(alphabet@ =~= second + class_bytes(config.digits, "0123456789"@));
        let ghost third = alphabet@;
        if config.symbols {
            alphabet.extend_from_slice("!#$%&()*+,-./:;<=>?@[]^_{|}~".as_bytes());
        }
        assert(alphabet@ =~= third + class_bytes(config.symbols, "!#$%&()*+,-./:;<=>?@[]^_{|}~"@));
        assert(alphabet@ == alphabet_of(*config));
        if alphabet.len() == 0 {
            return Err(HumanCommitError::InvalidInput);
        }
        Ok(PasswordGenerator { alphabet, length: config.length, result: Vec::new() })
    }

    /// Whether the password is long enough.
    pub fn complete(&self) -> (r: bool)
        requires
            self.wf(),
        ensures
            r == (self.drawn().len() == self.length()),
    {
        self.result.len() >= self.length
    }

    /// Uses one block of random bytes.
    pub fn absorb(&mut self, block: &[u8])
        requires
            old(self).wf(),
        ensures
            final(self).wf(),
            final(self).alphabet() == old(self).alphabet(),
            final(self).length() == old(self).length(),
            final(self).drawn() == absorbed(
                old(self).drawn(),
                old(self).alphabet(),
                old(self).length(),
                block@,
                0,
            ),
    {
        let n: usize = self.alphabet.len();
        let top: u8 = 255 - (255 % (n as u8));
        proof {
            lemma_absorbed(self.drawn(), self.alphabet(), self.length(), block@, 0);
        }
        let mut i: usize = 0;
        while i < block.len() && self.result.len() < self.length
            invariant
                i <= block@.len(),
                n == self.alphabet@.len(),
                0 < n <= 90,
                top == ceiling(n as int),
                self.alphabet@ == old(self).alphabet(),
                self.length == old(self).length(),
                absorbed(self.result@, self.alphabet@, self.length as int, block@, i as int)
                    == absorbed(
                    old(self).drawn(),
                    old(self).alphabet(),
                    old(self).length(),
                    block@,
                    0,
                ),
            decreases block@.len() - i,
        {
            let value: u8 = block[i];
            if value < top {
                let k: usize = value as usize % n;
                self.result.push(self.alphabet[k]);
            }
            i += 1;
        }
    }

    /// The finished password.
    pub fn finish(self) -> (r: GeneratedPassword)
        requires
            self.wf(),
        ensures
            r@ == self.drawn(),
    {
        GeneratedPassword(self.result)
    }

    /// Erases what was drawn so far.
    fn discard(&mut self)
        ensures
            final(self).drawn() == Seq::<u8>::empty(),
            final(self).alphabet() == old(self).alphabet(),
            final(self).length() == old(self).length(),
    {
        wipe_bytes(&mut self.result);
    }
}

/// Generates a password from blocks of random bytes; where the randomness
/// fails, its own error is returned and nothing drawn so far. A configuration
/// that cannot be served leaves the source untouched. A source that keeps
/// yielding only rejected bytes is given up after `u64::MAX` blocks.
pub fn generate_password<R: PasswordRng>(config: &GeneratorConfig, rng: &mut R) -> (r: Result<
    GeneratedPassword,
    HumanCommitError,
>)
    ensures
        !config_valid(*config) ==> r is Err && r->Err_0 is InvalidInput && *final(rng) == *old(
            rng,
        ),
        config_valid(*config) ==> answered(*config, *old(rng), *final(rng), password_view(r)),
        r is Ok ==> config_valid(*config) && (r->Ok_0)@.len() == config.length && drawn_from(
            (r->Ok_0)@,
            alphabet_of(*config),
        ),
{
    let mut generator = match PasswordGenerator::new(config) {
        Ok(generator) => generator,
        Err(error) => {
            return Err(error);
        },
    };
    let mut random: Vec<u8> = vec![0u8;64];
    let mut left: u64 = u64::MAX;
    let ghost mut blocks: Seq<Seq<u8>> = Seq::empty();
    while !generator.complete()
        invariant
            generator.wf(),
            config_valid(*config),
            generator.alphabet() == alphabet_of(*config),
            generator.length() == config.length,
            random@.len() == 64,
            gave(*old(rng), blocks, *rng),
            blocks.len() == u64::MAX - left,
            all_needed(generator.alphabet(), generator.length(), blocks),
            generator.drawn() == gathered(generator.alphabet(), generator.length(), blocks),
        decreases left,
    {
        if left == 0 {
            generator.discard();
            wipe_bytes(&mut random);
            return Err(HumanCommitError::RandomUnavailable);
        }
        let ghost before = *rng;
        let filled = rng.fill(random.as_mut_slice());
        if let Err(error) = filled {
            generator.discard();
            wipe_bytes(&mut random);
            return Err(error);
        }
        let ghost more = blocks.push(random@);
        assert(more.drop_last() =~= blocks);
        assert(more.last() == random@);
        assert(R::gives(before, *rng, more.last(), None));
        assert(gave(*old(rng), more.drop_last(), before));
        generator.absorb(random.as_slice());
        proof {
            blocks = more;
        }
        left -= 1;
    }
    wipe_bytes(&mut random);
    Ok(generator.finish())
}

/// A password that is given has the length that was asked for, and was drawn
/// from blocks of the source, of which each was needed.
pub proof fn lemma_answered<R: PasswordRng>(
    config: GeneratorConfig,
    first: R,
    last: R,
    password: Seq<u8>,
)
    requires
        answered(config, first, last, Ok::<Seq<u8>, HumanCommitError>(password)),
    ensures
        password.len() == config.length,
        exists|blocks: Seq<Seq<u8>>| #[trigger]
            gave(first, blocks, last) && password == gathered(
                alphabet_of(config),
                config.length as int,
                blocks,
            ) && (forall|i: int| 0 <= i < blocks.len() ==> (#[trigger] blocks[i]).len() == 64) && (
            blocks.len() > 0 ==> gathered(
                alphabet_of(config),
                config.length as int,
                blocks.drop_last(),
            ).len() < config.length),
{
    let blocks = choose|blocks: Seq<Seq<u8>>| #[trigger]
        gave(first, blocks, last) && all_needed(
            alphabet_of(config),
            config.length as int,
            blocks,
        ) && password == gathered(alphabet_of(config), config.length as int, blocks)
            && password.len() == config.length as int;
    lemma_block_lengths(first, blocks, last);
}

/// Each block has 64 bytes.
proof fn lemma_block_lengths<R: PasswordRng>(first: R, blocks: Seq<Seq<u8>>, last: R)
    requires
        gave(first, blocks, last),
    ensures
        forall|i: int| 0 <= i < blocks.len() ==> (#[trigger] blocks[i]).len() == 64,
    decreases blocks.len(),
{
    if blocks.len() > 0 {
        let before = choose|before: R|
            gave(first, blocks.drop_last(), before) && #[trigger] R::gives(
                before,
                last,
                blocks.last(),
                None,
            );
        lemma_block_lengths(first, blocks.drop_last(), before);
        assert forall|i: int| 0 <= i < blocks.len() implies (#[trigger] blocks[i]).len() == 64 by {
            if i < blocks.len() - 1 {
                assert(blocks.drop_last()[i] == blocks[i]);
            }
        }
    }
}

/// What the source fails with is passed on only where the password was not
/// complete yet.
pub proof fn lemma_failed<R: PasswordRng>(
    config: GeneratorConfig,
    first: R,
    last: R,
    error: HumanCommitError,
)
    requires
        failed(config, first, last, error),
    ensures
        exists|blocks: Seq<Seq<u8>>, before: R, block: Seq<u8>|
            #![trigger gave(first, blocks, before), R::gives(before, last, block, Some(error))]
            gave(first, blocks, before) && R::gives(before, last, block, Some(error)) && gathered(
                alphabet_of(config),
                config.length as int,
                blocks,
            ).len() + 1 <= config.length,
{
    let (blocks, before, block) = choose|blocks: Seq<Seq<u8>>, before: R, block: Seq<u8>|
        #![trigger gave(first, blocks, before), R::gives(before, last, block, Some(error))]
        gave(first, blocks, before) && gathered(
            alphabet_of(config),
            config.length as int,
            blocks,
        ).len() < config.length && R::gives(before, last, block, Some(error));
    assert(gave(first, blocks, before));
}

} // verus!

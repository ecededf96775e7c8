//! Erasure of secrets from memory.
use vstd::prelude::*;
use zeroize::Zeroize;

verus! {

/// `zeroize::Zeroize::zeroize` on a byte vector: overwrites its whole
/// allocation and leaves it empty.
#[verifier::external_body]
pub(crate) fn wipe_bytes(value: &mut Vec<u8>)
    ensures
        final(value)@ == Seq::<u8>::empty(),
    opens_invariants none
    no_unwind
{
    value.zeroize();
}

/// `zeroize::Zeroize::zeroize` on a string: overwrites its whole allocation and
/// leaves it empty.
#[verifier::external_body]
pub(crate) fn wipe_text(value: &mut String)
    ensures
        final(value)@ == Seq::<char>::empty(),
    opens_invariants none
    no_unwind
{
    value.zeroize();
}

/// `zeroize::Zeroize::zeroize` on a key of thirty-two bytes: overwrites every
/// byte with zero.
#[verifier::external_body]
pub(crate) fn wipe_key(value: &mut [u8; 32])
    ensures
        final(value)@ == Seq::new(32, |i: int| 0u8),
    opens_invariants none
    no_unwind
{
    value.zeroize();
}

} // verus!

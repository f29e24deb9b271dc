//! Byte encodings and the SHA3-256 hash over them.

use sha3::{Digest, Sha3_256};
use vstd::prelude::*;

verus! {

/// What SHA3-256 maps `data` to.
pub uninterp spec fn sha3_256(data: Seq<u8>) -> Seq<u8>;

/// Hashes `data` with `sha3::Sha3_256::digest`.
///
/// Claimed of it: the digest is a function of the hashed bytes alone. Which digest
/// belongs to which bytes is left to the hash, and so is the absence of collisions.
#[verifier::external_body]
pub(crate) fn sha3_256_digest(data: &Vec<u8>) -> (r: [u8; 32])
    ensures
        r@ == sha3_256(data@),
{
    Sha3_256::digest(data).into()
}

/// The `width` low bytes of `n`, least significant first.
pub open spec fn le_bytes(n: nat, width: nat) -> Seq<u8>
    decreases width,
{
    if width == 0 {
        Seq::empty()
    } else {
        seq![(n % 256) as u8] + le_bytes(n / 256, (width - 1) as nat)
    }
}

/// Encodings of the same width are as long as the width, and equal only for equal numbers.
pub proof fn lemma_le_bytes(a: nat, b: nat, width: nat)
    ensures
        le_bytes(a, width).len() == width,
        le_bytes(b, width).len() == width,
        le_bytes(a, width) == le_bytes(b, width) && a < pow256(width) && b < pow256(width)
            ==> a == b,
    decreases width,
{
    if width > 0 {
        let less = (width - 1) as nat;
        lemma_le_bytes(a / 256, b / 256, less);
        if le_bytes(a, width) == le_bytes(b, width) {
            assert(le_bytes(a, width)[0] == le_bytes(b, width)[0]);
            assert(le_bytes(a, width).skip(1) == le_bytes(a / 256, less));
            assert(le_bytes(b, width).skip(1) == le_bytes(b / 256, less));
            assert(a % 256 == b % 256);
            assert(a < pow256(width) ==> a / 256 < pow256(less)) by (nonlinear_arith)
                requires
                    pow256(width) == 256 * pow256(less),
            ;
            assert(b < pow256(width) ==> b / 256 < pow256(less)) by (nonlinear_arith)
                requires
                    pow256(width) == 256 * pow256(less),
            ;
        }
    }
}

/// `256` to the power of `e`.
pub open spec fn pow256(e: nat) -> nat
    decreases e,
{
    if e == 0 {
        1
    } else {
        256 * pow256((e - 1) as nat)
    }
}

/// Appends the `width` low bytes of `n`, least significant first.
pub(crate) fn push_le(out: &mut Vec<u8>, n: u64, width: u8)
    ensures
        final(out)@ == old(out)@ + le_bytes(n as nat, width as nat),
{
    let ghost start = out@;
    let mut rest: u64 = n;
    let mut left: u8 = width;
    while left > 0
        invariant
            left <= width,
            out@ + le_bytes(rest as nat, left as nat) == start + le_bytes(n as nat, width as nat),
        decreases left,
    {
        let ghost before = out@;
        out.push((rest % 256) as u8);
        proof {
            let tail = le_bytes((rest / 256) as nat, (left - 1) as nat);
            assert(le_bytes(rest as nat, left as nat) == seq![(rest % 256) as u8] + tail);
            assert(out@ + tail == before + le_bytes(rest as nat, left as nat));
        }
        rest = rest / 256;
        left -= 1;
    }
    assert(out@ + le_bytes(rest as nat, 0) == out@);
}

/// Appends all of `bytes`.
pub(crate) fn push_all(out: &mut Vec<u8>, bytes: &[u8])
    ensures
        final(out)@ == old(out)@ + bytes@,
{
    let ghost start = out@;
    let mut i: usize = 0;
    while i < bytes.len()
        invariant
            i <= bytes@.len(),
            out@ == start + bytes@.take(i as int),
        decreases bytes@.len() - i,
    {
        out.push(bytes[i]);
        i += 1;
        assert(bytes@.take(i as int) == bytes@.take(i - 1).push(bytes@[i - 1]));
    }
    assert(bytes@.take(bytes@.len() as int) == bytes@);
}

/// An encoding starts with the low byte of the number, and what is left of the number follows.
pub proof fn law_low_byte_first(n: nat, width: nat)
    ensures
        le_bytes(n, width).len() == width,
        width > 0 ==> le_bytes(n, width)[0] == n % 256,
        width > 0 ==> le_bytes(n, width).skip(1) == le_bytes(n / 256, (width - 1) as nat),
{
    lemma_le_bytes(n, n, width);
    if width > 0 {
        assert(le_bytes(n, width).skip(1) =~= le_bytes(n / 256, (width - 1) as nat));
    }
}

} // verus!

//! Rejection samplers from random bytes to ring coefficients.
use vstd::prelude::*;

use crate::constants::Q;
use vstd::arithmetic::div_mod::{lemma_div_denominator, lemma_fundamental_div_mod, lemma_fundamental_div_mod_converse};

verus! {

/// The 23-bit candidate formed from a 3-byte window: the top bit of `b2` is
/// cleared, and the bytes are read little-endian.
pub open spec fn three_byte_candidate(b0: u8, b1: u8, b2: u8) -> nat {
    (65536 * (b2 % 128) + 256 * b1 + b0) as nat
}

/// The coefficient that the uniform sampler yields for a 3-byte window:
/// the candidate when it lies below `Q`, nothing otherwise.
pub open spec fn uniform_sample(b0: u8, b1: u8, b2: u8) -> Option<u32> {
    let z = three_byte_candidate(b0, b1, b2);
    if z < Q {
        Some(z as u32)
    } else {
        None
    }
}

/// The coefficient that the bounded sampler yields for a nibble `b` and a
/// bound `eta`. For `eta == 2` the nibble is reduced modulo 5 first.
pub open spec fn half_byte_sample(b: u8, eta: u32) -> Option<i32> {
    if eta == 2 && b < 15 {
        Some((2 - b % 5) as i32)
    } else if eta == 4 && b < 9 {
        Some((4 - b) as i32)
    } else {
        None
    }
}

/// Maps a 3-byte window to a coefficient in `[0, Q)`, or rejects it.
pub fn coeff_from_three_bytes(b0: u8, b1: u8, b2: u8) -> (r: Option<u32>)
    ensures
        r == uniform_sample(b0, b1, b2),
        r matches Some(z) ==> z < Q,
{
    let mut b2_prime = b2;
    if b2_prime > 127 {
        b2_prime -= 128;
    }
    let z: u32 = 65536 * (b2_prime as u32) + 256 * (b1 as u32) + (b0 as u32);
    if z < Q {
        Some(z)
    } else {
        None
    }
}

/// Maps a nibble to a coefficient in `[-eta, eta]` for `eta` 2 or 4, or
/// rejects it. Every other `eta` is rejected whatever the nibble.
pub fn coeff_from_half_byte(b: u8, eta: u32) -> (r: Option<i32>)
    ensures
        r == half_byte_sample(b, eta),
        r is Some ==> (eta == 2 || eta == 4) && b < 16,
        r matches Some(c) ==> -(eta as int) <= c <= eta,
{
    if eta == 2 && b < 15 {
        Some(2 - (b % 5) as i32)
    } else if eta == 4 && b < 9 {
        Some(4 - b as i32)
    } else {
        None
    }
}

/// The windows that the uniform sampler maps to `v`, for any `v` in `[0, Q)`,
/// are exactly those whose low 23 bits are the bits of `v`: two windows,
/// which differ in the top bit of `b2` alone. Every accepted value thus has
/// as many preimages as every other, so uniformly random windows give
/// uniformly distributed coefficients.
pub proof fn lemma_uniform_preimages(v: u32)
    requires
        v < Q,
    ensures
        forall|b0: u8, b1: u8, b2: u8|
            #[trigger] uniform_sample(b0, b1, b2) == Some(v) <==> (b0 == v % 256 && b1 == (v
                / 256) % 256 && b2 % 128 == v / 65536),
{
    assert forall|b0: u8, b1: u8, b2: u8|
        #[trigger] uniform_sample(b0, b1, b2) == Some(v) <==> (b0 == v % 256 && b1 == (v / 256)
            % 256 && b2 % 128 == v / 65536) by {
        let hi = (b2 % 128) as int;
        let mid = b1 + 256 * hi;
        let z = three_byte_candidate(b0, b1, b2) as int;
        assert(z == mid * 256 + b0);
        lemma_fundamental_div_mod_converse(z, 256, mid, b0 as int);
        lemma_fundamental_div_mod_converse(mid, 256, hi, b1 as int);
        lemma_div_denominator(z, 256, 256);
        lemma_fundamental_div_mod(v as int, 256);
        lemma_fundamental_div_mod(v as int / 256, 256);
        lemma_div_denominator(v as int, 256, 256);
    }
}

} // verus!

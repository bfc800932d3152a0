//! Conversions between integers, little-endian bit sequences and
//! little-endian byte sequences.
use vstd::prelude::*;

use vstd::arithmetic::div_mod::{lemma_fundamental_div_mod_converse, lemma_mod_breakdown, lemma_small_mod};
use vstd::arithmetic::power::{lemma_pow_increases, lemma_pow_positive, pow};
use vstd::arithmetic::power2::{lemma2_to64, pow2};
use vstd::bits::lemma_u8_shl_is_mul;

verus! {

/// The first `n` little-endian digits of `x` in base `base`: digit `i` is
/// `(x / base^i) % base`. Digits beyond the value of `x` are zero.
pub open spec fn le_digits(x: nat, base: nat, n: nat) -> Seq<u8>
    decreases n,
{
    if n == 0 {
        Seq::empty()
    } else {
        seq![(x % base) as u8] + le_digits(x / base, base, (n - 1) as nat)
    }
}

/// The value of a little-endian digit sequence in base `base`:
/// `sum of s[i] * base^i`.
pub open spec fn le_value(s: Seq<u8>, base: nat) -> nat
    decreases s.len(),
{
    if s.len() == 0 {
        0
    } else {
        (s[0] + base * le_value(s.drop_first(), base)) as nat
    }
}

/// Every element of `s` is a digit of base `base`.
pub open spec fn all_digits(s: Seq<u8>, base: nat) -> bool {
    forall|i: int| 0 <= i < s.len() ==> #[trigger] s[i] < base
}

/// The digits of `x` are digits of the base, and there are `n` of them.
pub proof fn lemma_le_digits_shape(x: nat, base: nat, n: nat)
    requires
        1 < base <= 256,
    ensures
        le_digits(x, base, n).len() == n,
        all_digits(le_digits(x, base, n), base),
    decreases n,
{
    if n > 0 {
        lemma_le_digits_shape(x / base, base, (n - 1) as nat);
        let s = le_digits(x, base, n);
        assert forall|i: int| 0 <= i < s.len() implies #[trigger] s[i] < base by {
            if i > 0 {
                assert(s[i] == le_digits(x / base, base, (n - 1) as nat)[i - 1]);
            }
        }
    }
}

/// Reading back `n` digits of `x` gives `x` modulo `base^n`.
pub proof fn lemma_value_of_le_digits(x: nat, base: nat, n: nat)
    requires
        1 < base <= 256,
    ensures
        le_value(le_digits(x, base, n), base) == (x as int) % pow(base as int, n),
    decreases n,
{
    reveal(pow);
    if n == 0 {
        assert(x % 1 == 0);
    } else {
        let m = (n - 1) as nat;
        let s = le_digits(x, base, n);
        lemma_value_of_le_digits(x / base, base, m);
        assert(s.drop_first() =~= le_digits(x / base, base, m));
        lemma_pow_positive(base as int, m);
        lemma_mod_breakdown(x as int, base as int, pow(base as int, m));
    }
}

/// Expands `x` into its `alpha` least significant bits, least significant
/// first: the bits of `x mod 2^alpha`.
pub fn integer_to_bits(x: u32, alpha: usize) -> (y: Vec<u8>)
    ensures
        y@ == le_digits(x as nat, 2, alpha as nat),
        y@.len() == alpha,
        all_digits(y@, 2),
        le_value(y@, 2) == (x as int) % pow(2, alpha as nat),
{
    let mut y: Vec<u8> = Vec::with_capacity(alpha);
    let mut x_prime: u32 = x;
    let mut i: usize = 0;
    while i < alpha
        invariant
            i <= alpha,
            y@ + le_digits(x_prime as nat, 2, (alpha - i) as nat) == le_digits(
                x as nat,
                2,
                alpha as nat,
            ),
        decreases alpha - i,
    {
        let ghost prev = y@;
        let ghost rest = le_digits(x_prime as nat, 2, (alpha - i) as nat);
        assert(rest == seq![(x_prime % 2) as u8] + le_digits(
            (x_prime / 2) as nat,
            2,
            (alpha - i - 1) as nat,
        ));
        y.push((x_prime % 2) as u8);
        x_prime = x_prime / 2;
        i = i + 1;
        assert(y@ + le_digits(x_prime as nat, 2, (alpha - i) as nat) =~= prev + rest);
    }
    assert(y@ + le_digits(x_prime as nat, 2, 0) =~= y@);
    proof {
        lemma_le_digits_shape(x as nat, 2, alpha as nat);
        lemma_value_of_le_digits(x as nat, 2, alpha as nat);
    }
    y
}

/// Expands `x` into `alpha` little-endian bytes: the bytes of
/// `x mod 256^alpha`.
pub fn integer_to_bytes(x: u32, alpha: usize) -> (y: Vec<u8>)
    ensures
        y@ == le_digits(x as nat, 256, alpha as nat),
        y@.len() == alpha,
        le_value(y@, 256) == (x as int) % pow(256, alpha as nat),
{
    let mut y: Vec<u8> = Vec::with_capacity(alpha);
    let mut x_prime: u32 = x;
    let mut i: usize = 0;
    while i < alpha
        invariant
            i <= alpha,
            y@ + le_digits(x_prime as nat, 256, (alpha - i) as nat) == le_digits(
                x as nat,
                256,
                alpha as nat,
            ),
        decreases alpha - i,
    {
        let ghost prev = y@;
        let ghost rest = le_digits(x_prime as nat, 256, (alpha - i) as nat);
        assert(rest == seq![(x_prime % 256) as u8] + le_digits(
            (x_prime / 256) as nat,
            256,
            (alpha - i - 1) as nat,
        ));
        y.push((x_prime % 256) as u8);
        x_prime = x_prime / 256;
        i = i + 1;
        assert(y@ + le_digits(x_prime as nat, 256, (alpha - i) as nat) =~= prev + rest);
    }
    assert(y@ + le_digits(x_prime as nat, 256, 0) =~= y@);
    proof {
        lemma_le_digits_shape(x as nat, 256, alpha as nat);
        lemma_value_of_le_digits(x as nat, 256, alpha as nat);
    }
    y
}

/// Dropping leading digits never increases the value of a digit sequence.
pub proof fn lemma_le_value_suffix(s: Seq<u8>, a: int, base: nat)
    requires
        0 <= a <= s.len(),
        base >= 1,
    ensures
        le_value(s.subrange(a, s.len() as int), base) <= le_value(s, base),
    decreases a,
{
    if a == 0 {
        assert(s.subrange(0, s.len() as int) =~= s);
    } else {
        lemma_le_value_suffix(s, a - 1, base);
        let t = s.subrange(a - 1, s.len() as int);
        assert(t.drop_first() =~= s.subrange(a, s.len() as int));
        let v = le_value(t.drop_first(), base);
        assert(v <= base * v) by (nonlinear_arith)
            requires
                base >= 1,
                v >= 0,
        ;
    }
}

/// Reads the first `alpha` bits of `y`, least significant first, as an
/// integer. `y` must hold at least `alpha` elements, and the value read must
/// fit in a `u32`, as it does for the bits of any `u32` (see
/// `lemma_bits_round_trip`).
pub fn bits_to_integer(y: &[u8], alpha: usize) -> (x: u32)
    requires
        alpha <= y@.len(),
        le_value(y@.take(alpha as int), 2) <= u32::MAX,
    ensures
        x == le_value(y@.take(alpha as int), 2),
{
    let ghost bits = y@.take(alpha as int);
    let mut x: u32 = 0;
    let mut i: usize = 0;
    while i < alpha
        invariant
            i <= alpha,
            alpha <= y@.len(),
            bits == y@.take(alpha as int),
            le_value(bits, 2) <= u32::MAX,
            x == le_value(bits.subrange(alpha - i, alpha as int), 2),
        decreases alpha - i,
    {
        let ghost a = alpha - i - 1;
        proof {
            lemma_le_value_suffix(bits, a, 2);
            assert(bits.subrange(a, alpha as int).drop_first() =~= bits.subrange(
                a + 1,
                alpha as int,
            ));
        }
        x = 2 * x + y[alpha - 1 - i] as u32;
        i = i + 1;
    }
    assert(bits.subrange(0, alpha as int) =~= bits);
    x
}

/// Reading back the bits of `x` gives `x` modulo `2^alpha`, and so `x` itself
/// when it fits in `alpha` bits. The value read back always fits in a `u32`.
pub proof fn lemma_bits_round_trip(x: u32, alpha: usize)
    ensures
        le_value(le_digits(x as nat, 2, alpha as nat).take(alpha as int), 2) == (x as int) % pow(
            2,
            alpha as nat,
        ),
        le_value(le_digits(x as nat, 2, alpha as nat).take(alpha as int), 2) <= u32::MAX,
        x < pow(2, alpha as nat) ==> le_value(
            le_digits(x as nat, 2, alpha as nat).take(alpha as int),
            2,
        ) == x,
{
    let s = le_digits(x as nat, 2, alpha as nat);
    lemma_le_digits_shape(x as nat, 2, alpha as nat);
    assert(s.take(alpha as int) =~= s);
    lemma_value_of_le_digits(x as nat, 2, alpha as nat);
    let p = pow(2, alpha as nat);
    lemma_pow_positive(2, alpha as nat);
    assert((x as int) % p <= x) by (nonlinear_arith)
        requires
            p > 0,
            x >= 0,
    ;
    if x < p {
        lemma_small_mod(x as nat, p as nat);
    }
}

/// A sequence of `n` zero digits.
pub open spec fn zeros(n: nat) -> Seq<u8> {
    Seq::new(n, |_i: int| 0u8)
}

/// Appending digit `d` to `s` adds `d * base^|s|` to its value.
pub proof fn lemma_le_value_push(s: Seq<u8>, d: u8, base: nat)
    ensures
        le_value(s.push(d), base) == le_value(s, base) + d * pow(base as int, s.len()),
    decreases s.len(),
{
    reveal(pow);
    if s.len() == 0 {
        assert(s.push(d).drop_first() =~= s);
    } else {
        let rest = s.drop_first();
        assert(s.push(d).drop_first() =~= rest.push(d));
        lemma_le_value_push(rest, d, base);
        let vr = le_value(rest, base);
        let p = pow(base as int, rest.len());
        assert(base * (vr + d * p) == base * vr + d * (base * p)) by (nonlinear_arith);
    }
}

/// A sequence of digits of base `base` has a value below `base^|s|`.
pub proof fn lemma_le_value_bound(s: Seq<u8>, base: nat)
    requires
        base >= 1,
        all_digits(s, base),
    ensures
        le_value(s, base) < pow(base as int, s.len()),
    decreases s.len(),
{
    reveal(pow);
    if s.len() > 0 {
        let rest = s.drop_first();
        assert(all_digits(rest, base)) by {
            assert forall|i: int| 0 <= i < rest.len() implies #[trigger] rest[i] < base by {
                assert(rest[i] == s[i + 1]);
            }
        }
        lemma_le_value_bound(rest, base);
        let vr = le_value(rest, base);
        let p = pow(base as int, rest.len());
        let d = s[0] as int;
        assert(d + base * vr < base * p) by (nonlinear_arith)
            requires
                0 <= d < base,
                0 <= vr < p,
        ;
    }
}

/// The digits of zero are all zero.
pub proof fn lemma_le_digits_of_zero(base: nat, n: nat)
    requires
        base > 1,
    ensures
        le_digits(0, base, n) == zeros(n),
    decreases n,
{
    if n > 0 {
        lemma_le_digits_of_zero(base, (n - 1) as nat);
        assert(le_digits(0, base, n) =~= zeros(n));
    }
}

/// Expanding the value of a digit sequence into `n >= |s|` digits gives the
/// sequence back, followed by zeros.
pub proof fn lemma_le_digits_of_value(s: Seq<u8>, base: nat, n: nat)
    requires
        1 < base <= 256,
        all_digits(s, base),
        s.len() <= n,
    ensures
        le_digits(le_value(s, base), base, n) == s + zeros((n - s.len()) as nat),
    decreases s.len(),
{
    if s.len() == 0 {
        lemma_le_digits_of_zero(base, n);
        assert(s + zeros(n) =~= zeros(n));
    } else {
        let rest = s.drop_first();
        assert(all_digits(rest, base)) by {
            assert forall|i: int| 0 <= i < rest.len() implies #[trigger] rest[i] < base by {
                assert(rest[i] == s[i + 1]);
            }
        }
        let v = le_value(s, base);
        let vr = le_value(rest, base);
        assert(v == vr * base + s[0]) by (nonlinear_arith)
            requires
                v == s[0] + base * vr,
        ;
        lemma_fundamental_div_mod_converse(v as int, base as int, vr as int, s[0] as int);
        lemma_le_digits_of_value(rest, base, (n - 1) as nat);
        assert(le_digits(v, base, n) =~= s + zeros((n - s.len()) as nat));
    }
}

/// The bits that byte `j` of a packed sequence takes: `bits[8j .. 8j + 8]`,
/// cut short at the end of `bits`.
pub open spec fn bit_chunk(bits: Seq<u8>, j: int) -> Seq<u8> {
    let end = if 8 * j + 8 <= bits.len() {
        8 * j + 8
    } else {
        bits.len() as int
    };
    bits.subrange(8 * j, end)
}

/// `bits` packed into `ceil(|bits| / 8)` bytes: byte `j` is the value of
/// bits `8j .. 8j + 8`, least significant first.
pub open spec fn pack_bits(bits: Seq<u8>) -> Seq<u8> {
    Seq::new(((bits.len() + 7) / 8) as nat, |j: int| le_value(bit_chunk(bits, j), 2) as u8)
}

/// `bytes` unpacked into `8 * |bytes|` bits: bit `i` is bit `i % 8` of byte
/// `i / 8`, counting from the least significant.
pub open spec fn unpack_bytes(bytes: Seq<u8>) -> Seq<u8> {
    Seq::new(8 * bytes.len(), |i: int| le_digits(bytes[i / 8] as nat, 2, 8)[i % 8])
}

/// Packs a bit sequence into bytes, least significant bit first; the unused
/// high bits of a last, partial byte are zero. Every element of `y` is a bit.
pub fn bits_to_bytes(y: &[u8]) -> (z: Vec<u8>)
    requires
        all_digits(y@, 2),
    ensures
        z@ == pack_bits(y@),
        z@.len() == (y@.len() + 7) / 8,
        forall|j: int| 0 <= j < z@.len() ==> #[trigger] z@[j] == le_value(bit_chunk(y@, j), 2),
{
    let alpha = y.len();
    let len: usize = alpha / 8 + if alpha % 8 == 0 {
        0
    } else {
        1
    };
    let mut z: Vec<u8> = vec![0u8; len];
    let mut i: usize = 0;
    while i < alpha
        invariant
            alpha == y@.len(),
            all_digits(y@, 2),
            i <= alpha,
            len == (alpha + 7) / 8,
            z@.len() == len,
            forall|j: int| 0 <= j < i / 8 ==> #[trigger] z@[j] == le_value(bit_chunk(y@, j), 2),
            i / 8 < len ==> z@[(i / 8) as int] == le_value(y@.subrange(8 * (i / 8), i as int), 2),
            forall|j: int| i / 8 < j < len ==> #[trigger] z@[j] == 0,
        decreases alpha - i,
    {
        let k: usize = i / 8;
        let sh: u8 = (i % 8) as u8;
        let ghost s = y@.subrange(8 * k, i as int);
        proof {
            assert(all_digits(s, 2)) by {
                assert forall|t: int| 0 <= t < s.len() implies #[trigger] s[t] < 2 by {
                    assert(s[t] == y@[8 * k + t]);
                }
            }
            assert(y@[i as int] < 2);
            lemma_le_value_push(s, y@[i as int], 2);
            assert(y@.subrange(8 * k, i + 1) =~= s.push(y@[i as int]));
            lemma_le_value_bound(s, 2);
            lemma2_to64();
            lemma_pow_increases(2, sh as nat, 7);
            lemma_u8_shl_is_mul(y@[i as int], sh);
            assert(pow2(sh as nat) == pow(2, sh as nat));
        }
        let b: u8 = z[k] + (y[i] << sh);
        z.set(k, b);
        i = i + 1;
        proof {
            if i % 8 == 0 {
                assert(bit_chunk(y@, k as int) =~= y@.subrange(8 * k, i as int));
                assert(y@.subrange(8 * (i / 8), i as int) =~= Seq::<u8>::empty());
            }
        }
    }
    proof {
        if alpha % 8 != 0 {
            assert(bit_chunk(y@, (alpha / 8) as int) =~= y@.subrange(
                8 * (alpha / 8),
                alpha as int,
            ));
        }
        assert(z@ =~= pack_bits(y@));
    }
    z
}

/// Unpacks each byte into eight bits, least significant first. The number of
/// bits must fit in a `usize`.
pub fn bytes_to_bits(z: Vec<u8>) -> (y: Vec<u8>)
    requires
        8 * z@.len() <= usize::MAX,
    ensures
        y@ == unpack_bytes(z@),
        y@.len() == 8 * z@.len(),
        all_digits(y@, 2),
{
    let alpha = z.len();
    let mut y: Vec<u8> = Vec::with_capacity(8 * alpha);
    let mut i: usize = 0;
    while i < alpha
        invariant
            alpha == z@.len(),
            i <= alpha,
            y@.len() == 8 * i,
            forall|k: int|
                0 <= k < 8 * i ==> #[trigger] y@[k] == le_digits(z@[k / 8] as nat, 2, 8)[k % 8],
        decreases alpha - i,
    {
        let ghost before = y@;
        let ghost digits = le_digits(z@[i as int] as nat, 2, 8);
        let mut z_prime: u8 = z[i];
        let mut j: usize = 0;
        while j < 8
            invariant
                i < alpha,
                alpha == z@.len(),
                j <= 8,
                y@.len() == 8 * i + j,
                y@.take(8 * i) == before,
                digits == le_digits(z@[i as int] as nat, 2, 8),
                y@.skip(8 * i) + le_digits(z_prime as nat, 2, (8 - j) as nat) == digits,
            decreases 8 - j,
        {
            let ghost prev = y@.skip(8 * i);
            let ghost rest = le_digits(z_prime as nat, 2, (8 - j) as nat);
            assert(rest == seq![(z_prime % 2) as u8] + le_digits(
                (z_prime / 2) as nat,
                2,
                (8 - j - 1) as nat,
            ));
            y.push(z_prime % 2);
            z_prime = z_prime / 2;
            j = j + 1;
            assert(y@.take(8 * i) =~= before);
            assert(y@.skip(8 * i) + le_digits(z_prime as nat, 2, (8 - j) as nat) =~= prev + rest);
        }
        proof {
            assert(y@.skip(8 * i) + le_digits(z_prime as nat, 2, 0) =~= y@.skip(8 * i));
            assert forall|k: int| 0 <= k < 8 * (i + 1) implies #[trigger] y@[k] == le_digits(
                z@[k / 8] as nat,
                2,
                8,
            )[k % 8] by {
                if k < 8 * i {
                    assert(y@[k] == before[k]);
                } else {
                    assert(k / 8 == i);
                    assert(y@[k] == y@.skip(8 * i)[k - 8 * i]);
                }
            }
        }
        i = i + 1;
    }
    proof {
        assert(y@ =~= unpack_bytes(z@));
        assert forall|k: int| 0 <= k < y@.len() implies #[trigger] y@[k] < 2 by {
            lemma_le_digits_shape(z@[k / 8] as nat, 2, 8);
        }
    }
    y
}

/// Unpacking packed bits gives the bits back, followed by the zero bits that
/// filled the last byte; when the number of bits is a multiple of 8, exactly
/// the bits.
pub proof fn lemma_unpack_pack(bits: Seq<u8>)
    requires
        all_digits(bits, 2),
    ensures
        unpack_bytes(pack_bits(bits)) == bits + zeros(
            (8 * ((bits.len() + 7) / 8) - bits.len()) as nat,
        ),
        bits.len() % 8 == 0 ==> unpack_bytes(pack_bits(bits)) == bits,
{
    let p = pack_bits(bits);
    let u = unpack_bytes(p);
    let padded = bits + zeros((8 * ((bits.len() + 7) / 8) - bits.len()) as nat);
    assert forall|i: int| 0 <= i < u.len() implies #[trigger] u[i] == padded[i] by {
        let j = i / 8;
        let c = bit_chunk(bits, j);
        assert(all_digits(c, 2)) by {
            assert forall|t: int| 0 <= t < c.len() implies #[trigger] c[t] < 2 by {
                assert(c[t] == bits[8 * j + t]);
            }
        }
        lemma_le_value_bound(c, 2);
        lemma2_to64();
        lemma_pow_increases(2, c.len(), 8);
        lemma_le_digits_of_value(c, 2, 8);
        assert(p[j] as nat == le_value(c, 2));
        let e = le_digits(le_value(c, 2), 2, 8);
        assert(u[i] == e[i % 8]);
        if i < bits.len() {
            assert(e[i % 8] == c[i % 8]);
        }
    }
    assert(u =~= padded);
    if bits.len() % 8 == 0 {
        assert(padded =~= bits);
    }
}

} // verus!

//! Integer helpers of the digit series: the signed remainder and modular
//! exponentiation.

use vstd::prelude::*;
use vstd::arithmetic::div_mod::{lemma_mod_twice, lemma_mul_mod_noop_general, lemma_small_mod};
use vstd::arithmetic::power::{
    lemma_pow0, lemma_pow1, lemma_pow_adds, lemma_pow_mod_noop, lemma_pow_multiplies,
    lemma_square_is_pow2, pow,
};

verus! {

/// The remainder of `a` by a positive `b` when the quotient is rounded
/// toward zero: it has the sign of `a`.
pub open spec fn truncated_rem(a: int, b: int) -> int {
    if a >= 0 {
        a % b
    } else {
        -((-a) % b)
    }
}

/// What [`modulo`] computes: for a positive modulus the remainder with the
/// sign of `a`, and for a negative one that remainder by `|b|`, moved down by
/// `|b|`.
pub open spec fn modulo_value(a: int, b: int) -> int {
    if b > 0 {
        truncated_rem(a, b)
    } else {
        b + truncated_rem(a, -b)
    }
}

/// `a mod b` in the convention of the digit series.
///
/// For a positive `b` this is the remainder of `a` by `b`, with the sign of
/// `a`; for `a >= 0` that is the usual residue in `0..b`. For a negative `b`
/// it is `b` plus the remainder of `a` by `|b|`. The modulus must not be zero,
/// and for a negative modulus the result must fit in 64 bits.
pub fn modulo(a: i64, b: i64) -> (r: i64)
    requires
        b != 0,
        b < 0 ==> b > i64::MIN && modulo_value(a as int, b as int) >= i64::MIN,
    ensures
        r == modulo_value(a as int, b as int),
        a >= 0 && b > 0 ==> r == a as int % b as int,
{
    if b > 0 {
        a % b
    } else {
        b + a % (-b)
    }
}

/// Products of numbers that agree modulo `m` agree modulo `m`.
pub proof fn lemma_mul_congruence(a: int, b: int, c: int, d: int, m: int)
    requires
        m > 0,
        a % m == c % m,
        b % m == d % m,
    ensures
        (a * b) % m == (c * d) % m,
{
    lemma_mul_mod_noop_general(a, b, m);
    lemma_mul_mod_noop_general(c, d, m);
}

/// One step of binary exponentiation: halving the exponent while squaring
/// the base, and setting aside one factor when the exponent is odd.
pub proof fn lemma_pow_halve(b: int, e: nat)
    requires
        e > 0,
    ensures
        e % 2 == 1 ==> pow(b, e) == b * pow(b * b, e / 2),
        e % 2 == 0 ==> pow(b, e) == pow(b * b, e / 2),
{
    let half = e / 2;
    lemma_square_is_pow2(b);
    lemma_pow_multiplies(b, 2, half);
    assert(pow(b * b, half) == pow(b, 2 * half));
    if e % 2 == 1 {
        lemma_pow_adds(b, 1, 2 * half);
        lemma_pow1(b);
        assert(e == 1 + 2 * half);
    } else {
        assert(e == 2 * half);
    }
}

/// `base` to the power `exponent`, reduced modulo `modulus`.
///
/// Works by repeated squaring and reduces after every multiplication, so no
/// intermediate value exceeds the square of the modulus, however large the
/// exponent is.
pub fn pow_mod(base: u64, exponent: u64, modulus: u64) -> (r: u64)
    requires
        modulus > 0,
    ensures
        r == pow(base as int, exponent as nat) % (modulus as int),
{
    let m: u128 = modulus as u128;
    let mut result: u128 = 1 % m;
    let mut square: u128 = (base as u128) % m;
    let mut remaining: u64 = exponent;
    proof {
        lemma_pow_mod_noop(base as int, exponent as nat, m as int);
        lemma_mod_twice(1, m as int);
        lemma_mul_congruence(
            result as int,
            pow(square as int, exponent as nat),
            1,
            pow(base as int, exponent as nat),
            m as int,
        );
    }
    while remaining > 0
        invariant
            m == modulus,
            m > 0,
            result < m,
            square < m,
            (result * pow(square as int, remaining as nat)) % (m as int) == pow(
                base as int,
                exponent as nat,
            ) % (m as int),
        decreases remaining,
    {
        let ghost old_result = result as int;
        let ghost old_square = square as int;
        let ghost old_remaining = remaining as nat;
        assert(result * square <= m * m && square * square <= m * m) by (nonlinear_arith)
            requires
                result < m,
                square < m,
        ;
        assert(m * m <= u128::MAX) by (nonlinear_arith)
            requires
                m <= u64::MAX,
        ;
        if remaining % 2 == 1 {
            result = result * square % m;
        }
        square = square * square % m;
        remaining = remaining / 2;
        proof {
            let modulus_int = m as int;
            let half = remaining as nat;
            let squared = old_square * old_square;
            lemma_pow_halve(old_square, old_remaining);
            lemma_pow_mod_noop(squared, half, modulus_int);
            if old_remaining % 2 == 1 {
                lemma_mod_twice(old_result * old_square, modulus_int);
                assert(old_result * (old_square * pow(squared, half)) == (old_result * old_square)
                    * pow(squared, half)) by (nonlinear_arith);
                lemma_mul_congruence(
                    result as int,
                    pow(square as int, half),
                    old_result * old_square,
                    pow(squared, half),
                    modulus_int,
                );
            } else {
                lemma_mul_congruence(
                    result as int,
                    pow(square as int, half),
                    old_result,
                    pow(squared, half),
                    modulus_int,
                );
            }
        }
    }
    proof {
        lemma_pow0(square as int);
        lemma_small_mod(result as nat, m as nat);
    }
    result as u64
}

} // verus!

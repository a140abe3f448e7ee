//! Hexadecimal digits of π at an arbitrary offset.
//!
//! The digits come from the series
//!
//! ```text
//! π = Σ 16^-k · ( 4/(8k+1) − 2/(8k+4) − 1/(8k+5) − 1/(8k+6) )
//! ```
//!
//! Multiplying by `16^p` and dropping the integer part leaves the digits from
//! offset `p` on. The terms with `k < p` are reduced with modular
//! exponentiation; the terms from `k = p` on shrink by a factor of sixteen
//! each and are cut off after a fixed number.
//!
//! All fractions are held in fixed point, as multiples of `16^-15`, so the
//! result is the same on every machine. Every term is rounded down to such a
//! multiple, so the sum of a series can fall short of its exact value by up
//! to one multiple per term. Each evaluation is asked for two digits only.

use vstd::prelude::*;
use vstd::arithmetic::div_mod::{lemma_add_mod_noop_right, lemma_div_denominator};
use vstd::arithmetic::power::{lemma_pow0, lemma_pow_positive, pow};
use crate::arith::{modulo, pow_mod};
use crate::base::NumberBase;
use crate::error::{DecodeError, Fault};

verus! {

/// The fixed-point representation of 1: fifteen hexadecimal digits of
/// fraction, `16^15`.
pub const ONE: i64 = 1152921504606846976;

/// Number of terms after the `p`-th that each series adds before it is cut
/// off, not counting the `p`-th itself.
pub const TAIL_TERMS: u64 = 100;

/// The largest digit offset at which a series can be evaluated, `2^56`.
pub const POSITION_LIMIT: u64 = 72057594037927936;

/// [`ONE`] as a mathematical integer.
pub open spec fn one() -> int {
    ONE as int
}

/// The term of index `k < p` of the series with numerator offset `n`, at
/// digit offset `p`: the fraction `(16^(p-k) mod (8k+n)) / (8k+n)`, rounded
/// down to fixed point.
pub open spec fn head_term(n: int, p: int, k: int) -> int {
    (pow(16, (p - k) as nat) % (8 * k + n)) * one() / (8 * k + n)
}

/// The term of index `k = p + j` of the series with numerator offset `n`, at
/// digit offset `p`: the fraction `16^-j / (8k+n)`, rounded down to fixed
/// point.
pub open spec fn tail_term(n: int, p: int, j: int) -> int {
    (one() / pow(16, j as nat)) / (8 * (p + j) + n)
}

/// Sum of the first `count` head terms.
pub open spec fn head_total(n: int, p: int, count: nat) -> int
    decreases count,
{
    if count == 0 {
        0
    } else {
        head_total(n, p, (count - 1) as nat) + head_term(n, p, count - 1)
    }
}

/// Sum of the first `count` tail terms.
pub open spec fn tail_total(n: int, p: int, count: nat) -> int
    decreases count,
{
    if count == 0 {
        0
    } else {
        tail_total(n, p, (count - 1) as nat) + tail_term(n, p, count - 1)
    }
}

/// The fractional part, in fixed point, of `16^p · Σ 16^-k / (8k+n)`, with
/// the sum cut off after the term of index `p + TAIL_TERMS`.
pub open spec fn series_value(n: int, p: int) -> int {
    (head_total(n, p, p as nat) + tail_total(n, p, (TAIL_TERMS + 1) as nat)) % one()
}

/// The fractional part, in fixed point, of `16^p · π` as the four series
/// give it. Its hexadecimal digits are the digits of π from offset `p` on.
pub open spec fn pi_fraction(p: int) -> int {
    (4 * series_value(1, p) - 2 * series_value(4, p) - series_value(5, p) - series_value(6, p))
        % one()
}

/// What is left of the fixed-point fraction `v` after its first `i`
/// hexadecimal digits have been taken off.
pub open spec fn peeled(v: int, i: nat) -> int
    decreases i,
{
    if i == 0 {
        v
    } else {
        (16 * peeled(v, (i - 1) as nat)) % one()
    }
}

/// The hexadecimal digit of index `i` of the fixed-point fraction `v`.
pub open spec fn hex_digit(v: int, i: nat) -> int {
    16 * peeled(v, i) / one()
}

/// The byte made of the two digits of π at offsets `p` and `p + 1`, the
/// first in the high half.
pub open spec fn pi_byte(p: int) -> u8 {
    (16 * hex_digit(pi_fraction(p), 0) + hex_digit(pi_fraction(p), 1)) as u8
}

/// The bytes made of the `length` digits of π from offset `p` on, two digits
/// to a byte. Each byte comes from an evaluation of the series at the offset
/// of its first digit.
pub open spec fn pi_bytes(p: int, length: int) -> Seq<u8> {
    Seq::new((length / 2) as nat, |i: int| pi_byte(p + 2 * i))
}

/// Evaluates one of the four series at digit offset `position`.
///
/// `N` is the offset in the denominators `8k + N`. The result is the
/// fractional part of the sum in fixed point, a value in `0..ONE`.
pub fn series<const N: u32>(position: u64) -> (sum: i64)
    requires
        N >= 1,
        position <= POSITION_LIMIT,
    ensures
        sum == series_value(N as int, position as int),
        0 <= sum < ONE,
{
    let ghost n = N as int;
    let ghost p = position as int;
    let mut sum: i64 = 0;
    let mut k: u64 = 0;
    assert(head_total(n, p, 0) == 0);
    while k < position
        invariant
            N >= 1,
            n == N,
            p == position,
            k <= position <= POSITION_LIMIT,
            0 <= sum < ONE,
            sum == head_total(n, p, k as nat) % one(),
        decreases position - k,
    {
        let denominator: u64 = 8 * k + N as u64;
        let residue: u64 = pow_mod(16, position - k, denominator);
        assert(residue < denominator) by (nonlinear_arith)
            requires
                residue == pow(16, (position - k) as nat) % (denominator as int),
                denominator > 0,
        ;
        let scaled: u128 = residue as u128 * (ONE as u128);
        let quotient: u128 = scaled / denominator as u128;
        assert(quotient < ONE) by (nonlinear_arith)
            requires
                quotient == (residue * ONE) / (denominator as int),
                0 <= residue < denominator,
        ;
        let term: i64 = quotient as i64;
        assert(term == head_term(n, p, k as int));
        proof {
            lemma_add_mod_noop_right(term as int, head_total(n, p, k as nat), one());
        }
        sum = modulo(sum + term, ONE);
        k += 1;
    }
    let ghost head = head_total(n, p, p as nat);
    let mut scale: i64 = ONE;
    let mut j: u64 = 0;
    proof {
        lemma_pow0(16);
    }
    while j <= TAIL_TERMS
        invariant
            N >= 1,
            n == N,
            p == position,
            position <= POSITION_LIMIT,
            j <= TAIL_TERMS + 1,
            0 <= sum < ONE,
            0 <= scale <= ONE,
            head == head_total(n, p, p as nat),
            scale == one() / pow(16, j as nat),
            sum == (head + tail_total(n, p, j as nat)) % one(),
        decreases TAIL_TERMS + 1 - j,
    {
        let denominator: u64 = 8 * (position + j) + N as u64;
        let term: i64 = scale / denominator as i64;
        assert(0 <= term <= scale) by (nonlinear_arith)
            requires
                term == scale / (denominator as i64),
                scale >= 0,
                denominator as i64 >= 1,
        ;
        assert(term == tail_term(n, p, j as int));
        sum = modulo(sum + term, ONE);
        proof {
            lemma_add_mod_noop_right(term as int, head + tail_total(n, p, j as nat), one());
            lemma_pow_positive(16, j as nat);
            lemma_div_denominator(one(), pow(16, j as nat), 16);
            reveal(pow);
            assert(pow(16, (j + 1) as nat) == 16 * pow(16, j as nat));
            assert(pow(16, j as nat) * 16 == 16 * pow(16, j as nat));
        }
        scale = scale / 16;
        j += 1;
    }
    sum
}

/// The fractional part of `16^position · π` in fixed point.
///
/// Combines the four series as `4·S1 − 2·S4 − S5 − S6`. The combination lies
/// between `-4` and `4`; its remainder by one has the sign of the
/// combination, so one is added before the remainder is taken again, which
/// leaves the fraction in `0..ONE`.
pub fn fraction_at(position: u64) -> (fraction: u64)
    requires
        position <= POSITION_LIMIT,
    ensures
        fraction == pi_fraction(position as int),
        fraction < ONE,
{
    let s1: i64 = series::<1>(position);
    let s4: i64 = series::<4>(position);
    let s5: i64 = series::<5>(position);
    let s6: i64 = series::<6>(position);
    let combined: i64 = 4 * s1 - 2 * s4 - s5 - s6;
    let signed: i64 = modulo(combined, ONE);
    let lifted: i64 = signed + ONE;
    let fraction: i64 = modulo(lifted, ONE);
    fraction as u64
}

/// The two digits of π at offsets `position` and `position + 1`, packed into
/// a byte with the first digit in the high half.
///
/// The digits are taken off the fraction from the left: sixteen times the
/// fraction has the digit as its integer part and the rest of the digits as
/// its fraction.
pub fn byte_at(position: u64) -> (byte: u8)
    requires
        position <= POSITION_LIMIT,
    ensures
        byte == pi_byte(position as int),
{
    let unit: u64 = ONE as u64;
    let fraction: u64 = fraction_at(position);
    let first: u64 = 16 * fraction / unit;
    let rest: u64 = 16 * fraction % unit;
    let second: u64 = 16 * rest / unit;
    proof {
        reveal_with_fuel(peeled, 2);
        assert(first == hex_digit(fraction as int, 0));
        assert(rest == peeled(fraction as int, 1));
        assert(second == hex_digit(fraction as int, 1));
    }
    (16 * first + second) as u8
}

/// What an extraction returns: the bytes of `length` digits from `position`
/// on, unless the base is not hexadecimal or the number of digits is odd.
pub open spec fn extraction(position: u32, length: u32, base: NumberBase) -> Result<
    Seq<u8>,
    Fault,
> {
    if base != NumberBase::Hex || length % 2 != 0 {
        Err(Fault::UnsupportedConfiguration)
    } else {
        Ok(pi_bytes(position as int, length as int))
    }
}

/// The model's reading of what an extraction returned.
pub open spec fn bytes_outcome(r: Result<Vec<u8>, DecodeError>) -> Result<Seq<u8>, Fault> {
    match r {
        Ok(bytes) => Ok(bytes@),
        Err(e) => Err(e@),
    }
}

/// Computes `length` hexadecimal digits of π, starting at digit offset `pos`
/// of the fractional part, and packs them two to a byte, the earlier digit
/// in the high half.
///
/// Returns `length / 2` bytes. The byte of index `i` holds the digits at
/// offsets `pos + 2i` and `pos + 2i + 1`, and is computed from the series at
/// `pos + 2i` alone: the result depends on nothing but the two arguments. An
/// odd `length` is an unsupported configuration.
pub fn get_bytes_from_pi(pos: u32, length: u32) -> (r: Result<Vec<u8>, DecodeError>)
    ensures
        bytes_outcome(r) == extraction(pos, length, NumberBase::Hex),
{
    if length % 2 != 0 {
        return Err(DecodeError::UnsupportedConfiguration);
    }
    let mut bytes: Vec<u8> = Vec::new();
    let mut idx: u32 = 0;
    while idx < length
        invariant
            idx <= length,
            idx % 2 == 0,
            length % 2 == 0,
            bytes@ == pi_bytes(pos as int, idx as int),
        decreases length - idx,
    {
        let byte = byte_at(pos as u64 + idx as u64);
        bytes.push(byte);
        assert(pi_bytes(pos as int, idx + 2) =~= pi_bytes(pos as int, idx as int).push(byte));
        idx += 2;
    }
    Ok(bytes)
}

/// Extracts `length` digits of π from digit offset `position` on, in the
/// numeral system `base`, as bytes.
///
/// Only hexadecimal digits can be computed: any other base is an unsupported
/// configuration, and so is an odd `length`.
pub fn extract(position: u32, length: u32, base: NumberBase) -> (r: Result<Vec<u8>, DecodeError>)
    ensures
        bytes_outcome(r) == extraction(position, length, base),
{
    match base {
        NumberBase::Hex => get_bytes_from_pi(position, length),
        _ => Err(DecodeError::UnsupportedConfiguration),
    }
}

/// Extraction is a function of its arguments: any two results that an
/// extraction with the same offset, count and base can return are the same,
/// byte for byte.
pub proof fn lemma_extraction_is_deterministic(
    position: u32,
    length: u32,
    base: NumberBase,
    once: Result<Vec<u8>, DecodeError>,
    again: Result<Vec<u8>, DecodeError>,
)
    requires
        bytes_outcome(once) == extraction(position, length, base),
        bytes_outcome(again) == extraction(position, length, base),
    ensures
        bytes_outcome(once) == bytes_outcome(again),
        once is Ok ==> again is Ok && once->Ok_0@ == again->Ok_0@,
        once is Err ==> again is Err && once->Err_0 == again->Err_0,
{
}

/// Extraction is continuous: the bytes of `first` digits from `p`, followed
/// by the bytes of `second` digits from where those ended, are the bytes of
/// `first + second` digits from `p`, for even counts.
pub proof fn lemma_digits_are_continuous(p: nat, first: nat, second: nat)
    requires
        first % 2 == 0,
        second % 2 == 0,
    ensures
        pi_bytes(p as int, first as int) + pi_bytes((p + first) as int, second as int) == pi_bytes(
            p as int,
            (first + second) as int,
        ),
{
    assert(pi_bytes(p as int, first as int) + pi_bytes((p + first) as int, second as int)
        =~= pi_bytes(p as int, (first + second) as int));
}

/// Extraction is continuous: extracting an even number of digits and then an
/// even number more, from where the first run ended, gives the same bytes as
/// extracting both runs at once.
pub proof fn lemma_extraction_is_continuous(position: u32, first: u32, second: u32)
    requires
        first % 2 == 0,
        second % 2 == 0,
        position + first <= u32::MAX,
        first + second <= u32::MAX,
    ensures
        extraction(position, first, NumberBase::Hex) is Ok,
        extraction((position + first) as u32, second, NumberBase::Hex) is Ok,
        extraction(position, (first + second) as u32, NumberBase::Hex) == Ok::<Seq<u8>, Fault>(
            extraction(position, first, NumberBase::Hex)->Ok_0 + extraction(
                (position + first) as u32,
                second,
                NumberBase::Hex,
            )->Ok_0,
        ),
{
    lemma_digits_are_continuous(position as nat, first as nat, second as nat);
}

} // verus!

//! Trusted boundary around the arbitrary-precision unsigned integers of the
//! `num` crate and the seeded random generator of the `rand` crate. Every
//! item here is believed on the strength of those crates' sources; the rest
//! of the library is verified against these contracts.

use vstd::prelude::*;
use vstd::arithmetic::power::pow;
use num::bigint::RandBigInt;
use num::Num;
use num::ToPrimitive;
use crate::codec::{from_digits_spec, canonical_digits};

verus! {

/// The natural number that a `num::BigUint` stands for.
pub uninterp spec fn nat_of(b: num::BigUint) -> nat;

#[verifier::external_type_specification]
#[verifier::external_body]
pub struct ExBigUint(num::BigUint);

#[verifier::external_type_specification]
#[verifier::external_body]
pub struct ExStdRng(rand::rngs::StdRng);

/// Whether a text is one that the decimal parser accepts: an optional single
/// leading `+` (not followed by another `+`), then a nonempty run of decimal
/// digits and `_` separators that does not start with a separator.
pub open spec fn strip_plus(s: Seq<char>) -> Seq<char> {
    if s.len() > 0 && s[0] == '+' && !(s.len() >= 2 && s[1] == '+') {
        s.skip(1)
    } else {
        s
    }
}

pub open spec fn is_dec_digit(c: char) -> bool {
    '0' <= c && c <= '9'
}

pub open spec fn is_decimal_text(s: Seq<char>) -> bool {
    let t = strip_plus(s);
    t.len() > 0 && t[0] != '_' && (forall|i: int|
        0 <= i < t.len() ==> is_dec_digit(#[trigger] t[i]) || t[i] == '_')
}

/// The value of a decimal text, most significant digit first, `_` skipped.
pub open spec fn decimal_value_go(t: Seq<char>, acc: nat) -> nat
    decreases t.len(),
{
    if t.len() == 0 {
        acc
    } else if t[0] == '_' {
        decimal_value_go(t.skip(1), acc)
    } else {
        decimal_value_go(t.skip(1), (acc * 10 + t[0] as nat - '0' as nat) as nat)
    }
}

pub open spec fn decimal_value_of(s: Seq<char>) -> nat {
    decimal_value_go(strip_plus(s), 0)
}

/// Relies on `num::BigUint: From<u64>`: the exact value is kept.
#[verifier::external_body]
pub(crate) fn big_from_u64(v: u64) -> (r: num::BigUint)
    ensures
        nat_of(r) == v as nat,
{
    num::BigUint::from(v)
}

/// Relies on `num::ToPrimitive::to_u64` for `BigUint`: `Some` exactly when
/// the value fits in 64 bits.
#[verifier::external_body]
pub(crate) fn big_to_u64(n: &num::BigUint) -> (r: Option<u64>)
    ensures
        match r {
            Some(v) => v as nat == nat_of(*n),
            None => nat_of(*n) > u64::MAX as nat,
        },
{
    n.to_u64()
}

/// Relies on `Clone` for `num::BigUint`: the copy has the same value.
#[verifier::external_body]
pub(crate) fn big_clone(n: &num::BigUint) -> (r: num::BigUint)
    ensures
        nat_of(r) == nat_of(*n),
{
    n.clone()
}

/// Relies on `PartialEq` for `num::BigUint`: equality of values.
#[verifier::external_body]
pub(crate) fn big_eq(a: &num::BigUint, b: &num::BigUint) -> (r: bool)
    ensures
        r <==> nat_of(*a) == nat_of(*b),
{
    a == b
}

/// Relies on `PartialOrd` for `num::BigUint`: order of values.
#[verifier::external_body]
pub(crate) fn big_lt(a: &num::BigUint, b: &num::BigUint) -> (r: bool)
    ensures
        r <==> nat_of(*a) < nat_of(*b),
{
    a < b
}

/// Relies on `Add` for `num::BigUint`.
#[verifier::external_body]
pub(crate) fn big_add(a: &num::BigUint, b: &num::BigUint) -> (r: num::BigUint)
    ensures
        nat_of(r) == nat_of(*a) + nat_of(*b),
{
    a + b
}

/// Relies on `Sub` for `num::BigUint`, which panics on underflow: the
/// precondition rules that out.
#[verifier::external_body]
pub(crate) fn big_sub(a: &num::BigUint, b: &num::BigUint) -> (r: num::BigUint)
    requires
        nat_of(*b) <= nat_of(*a),
    ensures
        nat_of(r) == nat_of(*a) - nat_of(*b),
{
    a - b
}

/// Relies on `Div` for `num::BigUint` (Euclidean quotient), which panics on
/// a zero divisor: the precondition rules that out.
#[verifier::external_body]
pub(crate) fn big_div(a: &num::BigUint, b: &num::BigUint) -> (r: num::BigUint)
    requires
        nat_of(*b) > 0,
    ensures
        nat_of(r) == nat_of(*a) / nat_of(*b),
{
    a / b
}

/// Relies on `Rem` for `num::BigUint` (Euclidean remainder), which panics on
/// a zero divisor: the precondition rules that out.
#[verifier::external_body]
pub(crate) fn big_rem(a: &num::BigUint, b: &num::BigUint) -> (r: num::BigUint)
    requires
        nat_of(*b) > 0,
    ensures
        nat_of(r) == nat_of(*a) % nat_of(*b),
{
    a % b
}

/// Relies on `num::BigUint::modpow`: `(self ^ exponent) % modulus`, panicking
/// on a zero modulus, which the precondition rules out.
#[verifier::external_body]
pub(crate) fn big_modpow(
    base: &num::BigUint,
    exponent: &num::BigUint,
    modulus: &num::BigUint,
) -> (r: num::BigUint)
    requires
        nat_of(*modulus) > 0,
    ensures
        nat_of(r) == pow(nat_of(*base) as int, nat_of(*exponent)) % (nat_of(*modulus) as int),
{
    base.modpow(exponent, modulus)
}

/// Relies on `num::BigUint::to_radix_le`: the value's digits in the given
/// base, least significant first, with no trailing zero digit; zero is
/// written as the single digit 0. The radix must be in `2..=256`.
#[verifier::external_body]
pub(crate) fn big_to_radix_le(n: &num::BigUint, base: u8) -> (r: Vec<u8>)
    requires
        base >= 2,
    ensures
        r@ == canonical_digits(nat_of(*n), base as nat),
{
    n.to_radix_le(base as u32)
}

/// Relies on `num::BigUint::from_radix_le`: decodes little-endian digits in
/// the given base, `None` exactly when some digit is out of range. The radix
/// must be in `2..=256`; it is below 256 here, so the digit check applies.
#[verifier::external_body]
pub(crate) fn big_from_radix_le(digits: &Vec<u8>, base: u8) -> (r: Option<num::BigUint>)
    requires
        base >= 2,
    ensures
        match r {
            Some(v) => (forall|i: int| 0 <= i < digits@.len() ==> (#[trigger] digits@[i]) < base)
                && nat_of(v) == from_digits_spec(digits@, base as nat),
            None => exists|i: int| 0 <= i < digits@.len() && (#[trigger] digits@[i]) >= base,
        },
{
    num::BigUint::from_radix_le(digits.as_slice(), base as u32)
}

/// Relies on `num::Num::from_str_radix` for `BigUint` at radix 10: accepts an
/// optional single `+`, then a nonempty digit run with `_` separators not in
/// the leading position, and yields the decimal value.
#[verifier::external_body]
pub(crate) fn big_from_decimal(s: &str) -> (r: Option<num::BigUint>)
    ensures
        match r {
            Some(v) => is_decimal_text(s@) && nat_of(v) == decimal_value_of(s@),
            None => !is_decimal_text(s@),
        },
{
    num::BigUint::from_str_radix(s, 10).ok()
}

/// Relies on `rand::SeedableRng::from_entropy` for `StdRng`. It panics if
/// the operating system's entropy source fails - an environmental
/// condition that no precondition can exclude.
#[verifier::external_body]
pub(crate) fn rng_from_entropy() -> rand::rngs::StdRng {
    <rand::rngs::StdRng as rand::SeedableRng>::from_entropy()
}

/// Relies on `num::bigint::RandBigInt::gen_biguint_range`: a value in
/// `[low, high)`, panicking when the range is empty, which the precondition
/// rules out. Nothing more is stated: the draw is random.
#[verifier::external_body]
pub(crate) fn big_gen_range(
    rng: &mut rand::rngs::StdRng,
    low: &num::BigUint,
    high: &num::BigUint,
) -> (r: num::BigUint)
    requires
        nat_of(*low) < nat_of(*high),
    ensures
        nat_of(*low) <= nat_of(r) < nat_of(*high),
{
    rng.gen_biguint_range(low, high)
}

} // verus!

//! Positional digit sequences: the mathematical model of an integer written
//! little-endian in a base, and the conversion functions between the two.

use vstd::prelude::*;
use crate::bignum::{nat_of, big_to_radix_le, big_from_radix_le};

verus! {

/// The value of a little-endian digit sequence: `s[0] + base * (rest)`.
pub open spec fn from_digits_spec(s: Seq<u8>, base: nat) -> nat
    decreases s.len(),
{
    if s.len() == 0 {
        0
    } else {
        s[0] as nat + base * from_digits_spec(s.skip(1), base)
    }
}

/// The canonical little-endian digits of a positive integer: least
/// significant first, no trailing (most-significant) zero.
pub open spec fn digits_of(n: nat, base: nat) -> Seq<u8>
    decreases n when base >= 2 via digits_of_decreases
{
    if n == 0 {
        Seq::empty()
    } else {
        seq![(n % base) as u8].add(digits_of(n / base, base))
    }
}

#[via_fn]
proof fn digits_of_decreases(n: nat, base: nat) {
    if n > 0 && base >= 2 {
        vstd::arithmetic::div_mod::lemma_div_decreases(n as int, base as int);
    }
}

/// The digit sequence that the radix conversion of an integer yields:
/// canonical digits, except that zero is written as the single digit 0.
pub open spec fn canonical_digits(n: nat, base: nat) -> Seq<u8> {
    if n == 0 {
        seq![0u8]
    } else {
        digits_of(n, base)
    }
}

/// How many digits an integer occupies in a base (one digit for zero).
pub open spec fn radix_len(n: nat, base: nat) -> nat {
    canonical_digits(n, base).len()
}

/// A sequence of `n` zero digits.
pub open spec fn zero_digits(n: nat) -> Seq<u8> {
    Seq::new(n, |i: int| 0u8)
}

/// The digit sequence that `to_digits` yields: the canonical digits of the
/// value followed by `guard` zero guard digits.
pub open spec fn to_digits_spec(v: nat, base: nat, guard: nat) -> Seq<u8> {
    canonical_digits(v, base).add(zero_digits(guard))
}

/// All entries of a digit sequence are below the base.
pub open spec fn digits_in_base(s: Seq<u8>, base: nat) -> bool {
    forall|i: int| 0 <= i < s.len() ==> (#[trigger] s[i]) < base
}

/// The canonical digits of an integer decode back to it, and all lie below
/// the base.
pub proof fn lemma_digits_of_correct(n: nat, base: nat)
    requires
        2 <= base <= 256,
    ensures
        from_digits_spec(digits_of(n, base), base) == n,
        digits_in_base(digits_of(n, base), base),
    decreases n,
{
    if n > 0 {
        vstd::arithmetic::div_mod::lemma_div_decreases(n as int, base as int);
        vstd::arithmetic::div_mod::lemma_mod_bound(n as int, base as int);
        lemma_digits_of_correct(n / base, base);
        let s = digits_of(n, base);
        let rest = digits_of(n / base, base);
        assert(s.skip(1) =~= rest);
        assert(s[0] == (n % base) as u8);
        vstd::arithmetic::div_mod::lemma_fundamental_div_mod(n as int, base as int);
        assert(from_digits_spec(s, base) == n % base + base * (n / base));
    }
}

pub proof fn lemma_canonical_digits_correct(n: nat, base: nat)
    requires
        2 <= base <= 256,
    ensures
        from_digits_spec(canonical_digits(n, base), base) == n,
        digits_in_base(canonical_digits(n, base), base),
        canonical_digits(n, base).len() >= 1,
{
    lemma_digits_of_correct(n, base);
    if n == 0 {
        let s = canonical_digits(0, base);
        assert(s.skip(1) =~= Seq::<u8>::empty());
        assert(from_digits_spec(Seq::<u8>::empty(), base) == 0);
        assert(s.len() == 1 && s[0] == 0u8);
        assert(from_digits_spec(s, base) == 0u8 as nat + base * 0);
    }
}

/// A run of zero digits decodes to zero.
pub proof fn lemma_zero_digits_value(g: nat, base: nat)
    ensures
        from_digits_spec(zero_digits(g), base) == 0,
    decreases g,
{
    if g == 0 {
        assert(zero_digits(0).len() == 0);
    } else {
        lemma_zero_digits_value((g - 1) as nat, base);
        let s = zero_digits(g);
        assert(s.skip(1) =~= zero_digits((g - 1) as nat));
        assert(s[0] == 0u8);
        assert(from_digits_spec(s, base) == 0u8 as nat + base * 0);
    }
}

/// Appending zero guard digits does not change what a digit sequence
/// decodes to.
pub proof fn lemma_append_zero_digits(s: Seq<u8>, g: nat, base: nat)
    ensures
        from_digits_spec(s.add(zero_digits(g)), base) == from_digits_spec(s, base),
    decreases s.len(),
{
    if s.len() == 0 {
        assert(s.add(zero_digits(g)) =~= zero_digits(g));
        lemma_zero_digits_value(g, base);
    } else {
        lemma_append_zero_digits(s.skip(1), g, base);
        assert(s.add(zero_digits(g)).skip(1) =~= s.skip(1).add(zero_digits(g)));
    }
}

/// Round-trip law of the digit codec: the digit sequence that encoding
/// yields, guard digits included, decodes back to the encoded value, for
/// every value, base and guard count.
pub proof fn lemma_codec_round_trip(v: nat, base: nat, g: nat)
    requires
        2 <= base <= 256,
    ensures
        from_digits_spec(to_digits_spec(v, base, g), base) == v,
{
    lemma_canonical_digits_correct(v, base);
    lemma_append_zero_digits(canonical_digits(v, base), g, base);
}

/// Positional encoding is injective over digit sequences of one length:
/// two distinct in-range sequences decode to two distinct values.
pub proof fn lemma_from_digits_injective(s1: Seq<u8>, s2: Seq<u8>, base: nat)
    requires
        base >= 2,
        s1.len() == s2.len(),
        digits_in_base(s1, base),
        digits_in_base(s2, base),
        from_digits_spec(s1, base) == from_digits_spec(s2, base),
    ensures
        s1 =~= s2,
    decreases s1.len(),
{
    if s1.len() > 0 {
        let v = from_digits_spec(s1, base) as int;
        let r1 = from_digits_spec(s1.skip(1), base) as int;
        let r2 = from_digits_spec(s2.skip(1), base) as int;
        assert(s1[0] < base && s2[0] < base);
        assert(v == s1[0] as int + (base as int) * r1);
        assert(v == s2[0] as int + (base as int) * r2);
        assert((base as int) * r1 == r1 * (base as int))
            by (nonlinear_arith);
        assert((base as int) * r2 == r2 * (base as int))
            by (nonlinear_arith);
        vstd::arithmetic::div_mod::lemma_fundamental_div_mod_converse(
            v, base as int, r1, s1[0] as int);
        vstd::arithmetic::div_mod::lemma_fundamental_div_mod_converse(
            v, base as int, r2, s2[0] as int);
        assert(s1[0] == s2[0]);
        lemma_from_digits_injective(s1.skip(1), s2.skip(1), base);
        assert(forall|i: int| 0 <= i < s1.len() ==> s1[i] == s2[i]) by {
            assert(forall|i: int| 1 <= i < s1.len() ==> s1[i] == s1.skip(1)[i - 1]
                && s2[i] == s2.skip(1)[i - 1]);
        }
    }
}

/// Produce the positional digits of a value in the given base, least
/// significant first, then append `guard_digits` zero digits at the most
/// significant end.
pub fn to_digits(n: &num::BigUint, base: u8, guard_digits: usize) -> (r: Vec<u8>)
    requires
        base >= 2,
    ensures
        r@ == to_digits_spec(nat_of(*n), base as nat, guard_digits as nat),
        r@.len() == radix_len(nat_of(*n), base as nat) + guard_digits,
        digits_in_base(r@, base as nat),
        from_digits_spec(r@, base as nat) == nat_of(*n),
{
    let mut digits = big_to_radix_le(n, base);
    let ghost canon = canonical_digits(nat_of(*n), base as nat);
    let mut i: usize = 0;
    while i < guard_digits
        invariant
            i <= guard_digits,
            digits@ == canon.add(zero_digits(i as nat)),
        decreases guard_digits - i,
    {
        digits.push(0);
        i = i + 1;
        proof {
            assert(digits@ =~= canon.add(zero_digits(i as nat)));
        }
    }
    proof {
        lemma_canonical_digits_correct(nat_of(*n), base as nat);
        lemma_append_zero_digits(canon, guard_digits as nat, base as nat);
        assert(digits_in_base(digits@, base as nat)) by {
            assert(forall|j: int| 0 <= j < digits@.len() ==> (#[trigger] digits@[j]) < base
                || digits@[j] == 0);
        }
    }
    digits
}

/// Reconstruct the integer that a little-endian digit sequence denotes:
/// `Some` exactly when every digit is below the base.
pub fn from_digits(digits: &Vec<u8>, base: u8) -> (r: Option<num::BigUint>)
    requires
        base >= 2,
    ensures
        match r {
            Some(v) => digits_in_base(digits@, base as nat)
                && nat_of(v) == from_digits_spec(digits@, base as nat),
            None => !digits_in_base(digits@, base as nat),
        },
{
    big_from_radix_le(digits, base)
}

} // verus!

//! The primality oracle: exact trial division below a fixed threshold, and
//! the probabilistic Miller-Rabin test with random witnesses above it.

use vstd::prelude::*;
use vstd::arithmetic::power::pow;
use vstd::arithmetic::power2::pow2;
use crate::bignum::{
    nat_of, big_from_u64, big_to_u64, big_eq, big_lt, big_add, big_sub, big_div, big_rem,
    big_modpow, big_gen_range, rng_from_entropy,
};

verus! {

/// Below this threshold the oracle answers by exact trial division; at or
/// above it, by the probabilistic Miller-Rabin test.
pub const PRIME_THRESHOLD: u64 = 1000000;

/// How many independent Miller-Rabin trials the oracle runs.
pub const NUM_TRIALS: usize = 128;

/// Mathematical primality: at least 2, and no proper divisor.
pub open spec fn is_prime_spec(n: nat) -> bool {
    n >= 2 && forall|d: int| 2 <= d < n ==> #[trigger] ((n as int) % d) != 0
}

/// The odd factor of `x`: what remains after all factors of two are removed.
pub open spec fn odd_part(x: nat) -> nat
    decreases x,
{
    if x == 0 || x % 2 == 1 {
        x
    } else {
        odd_part(x / 2)
    }
}

/// The multiplicity of two in `x`: the largest `k` with `2^k` dividing `x`
/// (zero for `x == 0`).
pub open spec fn two_exponent(x: nat) -> nat
    decreases x,
{
    if x == 0 || x % 2 == 1 {
        0
    } else {
        1 + two_exponent(x / 2)
    }
}

/// One Miller-Rabin trial with witness `a` on an odd `n >= 3`: writing
/// `n - 1 = 2^k * m` with `m` odd, the witness passes when `a^m = 1 (mod n)`
/// or some square `a^(2^j * m)` with `j < k` equals `n - 1 (mod n)`.
pub open spec fn mr_witness_passes(n: nat, a: nat) -> bool
    recommends
        n >= 3,
        n % 2 == 1,
{
    let m = odd_part((n - 1) as nat);
    let k = two_exponent((n - 1) as nat);
    let b0 = pow(a as int, m) % (n as int);
    b0 == 1 || (exists|j: nat| j < k && #[trigger] pow(b0, pow2(j)) % (n as int) == n - 1)
}

/// What the oracle's verdict guarantees. Below the threshold it is exact.
/// At or above it, a `false` on an even number is exact; a `false` on an
/// odd number is backed by a concrete failing witness; and an odd number
/// that passes every Miller-Rabin witness — as every prime does, by
/// Fermat's little theorem — is answered `true` whatever witnesses were
/// drawn. What a randomized run cannot promise is only the `false` on a
/// composite that happens to pass every drawn witness.
pub open spec fn oracle_sound(n: nat, verdict: bool) -> bool {
    &&& (n < PRIME_THRESHOLD as nat ==> verdict == is_prime_spec(n))
    &&& (n >= PRIME_THRESHOLD as nat && n % 2 == 0 ==> !verdict)
    &&& (n >= PRIME_THRESHOLD as nat && n % 2 == 1 && !verdict ==> exists|a: nat|
        2 <= a < n && !mr_witness_passes(n, a))
    &&& (n >= PRIME_THRESHOLD as nat && n % 2 == 1 && (forall|a: nat|
        2 <= a < n ==> #[trigger] mr_witness_passes(n, a)) ==> verdict)
}

/// Divisibility carries through a divisor: if `p` divides `d` and `d`
/// divides `n`, then `p` divides `n`.
proof fn lemma_divides_transitive(n: int, d: int, p: int)
    requires
        p > 0,
        d > 0,
        n >= 0,
        d % p == 0,
        n % d == 0,
    ensures
        n % p == 0,
{
    let q = n / d;
    let s = d / p;
    vstd::arithmetic::div_mod::lemma_fundamental_div_mod(n, d);
    vstd::arithmetic::div_mod::lemma_fundamental_div_mod(d, p);
    assert(n == (s * q) * p) by (nonlinear_arith)
        requires
            n == d * q + 0,
            d == p * s + 0,
    ;
    vstd::arithmetic::div_mod::lemma_mod_multiples_basic(s * q, p);
}

/// A number with no divisor below `bound` and `bound * bound > n` is prime:
/// any proper divisor pairs with a codivisor, and the smaller of the two
/// lies below `bound`.
proof fn lemma_no_small_divisor_implies_prime(n: int, bound: int)
    requires
        n >= 2,
        bound >= 2,
        bound * bound > n,
        forall|d: int| 2 <= d < bound ==> #[trigger] (n % d) != 0,
    ensures
        is_prime_spec(n as nat),
{
    assert forall|d: int| 2 <= d < n implies #[trigger] (n % d) != 0 by {
        if n % d == 0 {
            vstd::arithmetic::div_mod::lemma_fundamental_div_mod(n, d);
            let e = n / d;
            assert(n == d * e);
            assert(e >= 2) by (nonlinear_arith)
                requires
                    n == d * e,
                    2 <= d < n,
            ;
            vstd::arithmetic::div_mod::lemma_mod_multiples_basic(d, e);
            assert(n % e == 0);
            if d < bound {
                assert(false);
            } else {
                assert(e < bound) by (nonlinear_arith)
                    requires
                        n == d * e,
                        d >= bound,
                        bound * bound > n,
                        bound >= 2,
                        e >= 2,
                ;
                assert(false);
            }
        }
    }
}

/// Exact primality test for small inputs: trial division stepping over the
/// numbers `6k - 1`, `6k + 1`.
pub fn trial_division(n: u64) -> (r: bool)
    requires
        n < PRIME_THRESHOLD,
    ensures
        r == is_prime_spec(n as nat),
{
    if n <= 3 {
        return n > 1;
    }
    if n % 2 == 0 || n % 3 == 0 {
        return false;
    }
    let mut i: u64 = 5;
    proof {
        assert forall|d: int| 2 <= d < 5 implies #[trigger] ((n as int) % d) != 0 by {
            if (n as int) % d == 0 {
                if d == 4 {
                    lemma_divides_transitive(n as int, 4, 2);
                }
                assert(false);
            }
        }
    }
    while i * i <= n
        invariant
            5 <= i <= 1006,
            i % 6 == 5,
            i * i < 1100000,
            n < 1000000,
            3 < n,
            n % 2 != 0,
            n % 3 != 0,
            forall|d: int| 2 <= d < i ==> #[trigger] ((n as int) % d) != 0,
        decreases n - i,
    {
        if n % i == 0 {
            proof {
                assert(2 <= i < n) by (nonlinear_arith)
                    requires
                        i * i <= n,
                        i >= 5,
                ;
            }
            return false;
        }
        if n % (i + 2) == 0 {
            proof {
                assert(2 <= i + 2 < n) by (nonlinear_arith)
                    requires
                        i * i <= n,
                        i >= 5,
                ;
            }
            return false;
        }
        proof {
            let ni = n as int;
            assert forall|d: int| i <= d < i + 6 implies #[trigger] (ni % d) != 0 by {
                if ni % d == 0 {
                    if d == i || d == i + 2 {
                        assert(false);
                    } else if d % 2 == 0 {
                        lemma_divides_transitive(ni, d, 2);
                        assert(false);
                    } else {
                        assert(d == i + 4);
                        assert(d % 3 == 0) by (nonlinear_arith)
                            requires
                                d == i + 4,
                                i % 6 == 5,
                        ;
                        lemma_divides_transitive(ni, d, 3);
                        assert(false);
                    }
                }
            }
            assert(i <= 999) by (nonlinear_arith)
                requires
                    i * i <= n,
                    n < 1000000,
                    i >= 5,
            ;
            assert((i + 6) * (i + 6) < 1100000) by (nonlinear_arith)
                requires
                    i <= 999,
            ;
            assert(i + 6 <= n) by (nonlinear_arith)
                requires
                    i * i <= n,
                    i >= 5,
            ;
        }
        i = i + 6;
    }
    proof {
        lemma_no_small_divisor_implies_prime(n as int, i as int);
    }
    true
}

/// Decompose `n - 1` as `2^k * m` with `m` odd, returning `(k, m)`.
pub fn find_k_and_m(n: &num::BigUint) -> (r: (num::BigUint, num::BigUint))
    requires
        nat_of(*n) >= 2,
    ensures
        nat_of(r.0) == two_exponent((nat_of(*n) - 1) as nat),
        nat_of(r.1) == odd_part((nat_of(*n) - 1) as nat),
{
    let zero = big_from_u64(0);
    let one = big_from_u64(1);
    let two = big_from_u64(2);
    let mut k = big_from_u64(0);
    let mut m = big_sub(n, &one);
    let ghost target = (nat_of(*n) - 1) as nat;
    let rem = big_rem(&m, &two);
    let mut m_even = big_eq(&rem, &zero);
    while m_even
        invariant
            nat_of(zero) == 0,
            nat_of(one) == 1,
            nat_of(two) == 2,
            nat_of(m) >= 1,
            m_even == (nat_of(m) % 2 == 0),
            odd_part(target) == odd_part(nat_of(m)),
            two_exponent(target) == nat_of(k) + two_exponent(nat_of(m)),
        decreases nat_of(m),
    {
        m = big_div(&m, &two);
        k = big_add(&k, &one);
        let rem2 = big_rem(&m, &two);
        m_even = big_eq(&rem2, &zero);
    }
    (k, m)
}

/// Run one Miller-Rabin trial: decide exactly whether the witness `a`
/// passes on `n`.
fn mr_trial(
    n: &num::BigUint,
    n_minus_one: &num::BigUint,
    a: &num::BigUint,
    k: &num::BigUint,
    m: &num::BigUint,
) -> (r: bool)
    requires
        nat_of(*n) >= 3,
        nat_of(*n) % 2 == 1,
        nat_of(*n_minus_one) == nat_of(*n) - 1,
        nat_of(*k) == two_exponent((nat_of(*n) - 1) as nat),
        nat_of(*m) == odd_part((nat_of(*n) - 1) as nat),
        2 <= nat_of(*a) < nat_of(*n),
    ensures
        r == mr_witness_passes(nat_of(*n), nat_of(*a)),
{
    let one = big_from_u64(1);
    let two = big_from_u64(2);
    let ghost n_int = nat_of(*n) as int;
    let mut b = big_modpow(a, m, n);
    let ghost b0 = nat_of(b) as int;
    if big_eq(&b, &one) {
        return true;
    }
    let mut j = big_from_u64(0);
    let mut j_lt_k = big_lt(&j, k);
    proof {
        vstd::arithmetic::power::lemma_pow1(b0);
        vstd::arithmetic::power2::lemma_pow2(0);
        vstd::arithmetic::power::lemma_pow0(2);
        assert(pow2(0) == 1);
        vstd::arithmetic::div_mod::lemma_small_mod(nat_of(b), nat_of(*n));
        assert(pow(b0, pow2(0)) % n_int == b0);
    }
    while j_lt_k
        invariant
            nat_of(one) == 1,
            nat_of(two) == 2,
            nat_of(*n) >= 3,
            nat_of(*n) % 2 == 1,
            nat_of(*n_minus_one) == nat_of(*n) - 1,
            nat_of(*k) == two_exponent((nat_of(*n) - 1) as nat),
            nat_of(*m) == odd_part((nat_of(*n) - 1) as nat),
            2 <= nat_of(*a) < nat_of(*n),
            n_int == nat_of(*n) as int,
            b0 == pow(nat_of(*a) as int, nat_of(*m)) % n_int,
            b0 != 1,
            j_lt_k == (nat_of(j) < nat_of(*k)),
            nat_of(j) <= nat_of(*k),
            nat_of(b) == pow(b0, pow2(nat_of(j))) % n_int,
            forall|jj: nat| jj < nat_of(j) ==> #[trigger] pow(b0, pow2(jj)) % n_int
                != n_int - 1,
        decreases nat_of(*k) - nat_of(j),
    {
        if big_eq(&b, n_minus_one) {
            proof {
                let jw = nat_of(j);
                assert(pow(b0, pow2(jw)) % n_int == n_int - 1);
            }
            return true;
        }
        let ghost j_old = nat_of(j);
        b = big_modpow(&b, &two, n);
        j = big_add(&j, &one);
        j_lt_k = big_lt(&j, k);
        proof {
            let x = pow(b0, pow2(j_old));
            vstd::arithmetic::power::lemma_pow_mod_noop(x, 2, n_int);
            vstd::arithmetic::power::lemma_pow_multiplies(b0, pow2(j_old), 2);
            vstd::arithmetic::power2::lemma_pow2_adds(j_old, 1);
            vstd::arithmetic::power2::lemma_pow2(1);
            vstd::arithmetic::power::lemma_pow1(2);
            assert(pow2(1) == 2);
            assert(pow2(j_old + 1) == pow2(j_old) * 2);
            assert(nat_of(b) == pow(b0, pow2(nat_of(j))) % n_int);
            assert forall|jj: nat| jj < nat_of(j) implies #[trigger] pow(b0, pow2(jj))
                % n_int != n_int - 1 by {
                if jj < j_old {
                } else {
                    assert(jj == j_old);
                }
            }
        }
    }
    false
}

/// The probabilistic Miller-Rabin primality test: `trials` independent
/// random witnesses, short-circuiting on the first failing one. A `false`
/// verdict on an odd `n >= 5` is backed by the failing witness; a `true`
/// verdict is the probabilistic outcome of the drawn witnesses.
pub fn miller_rabin_is_prime(
    n: &num::BigUint,
    trials: usize,
    rng: &mut rand::rngs::StdRng,
) -> (r: bool)
    ensures
        nat_of(*n) == 2 || nat_of(*n) == 3 ==> r,
        nat_of(*n) <= 1 ==> !r,
        nat_of(*n) % 2 == 0 && nat_of(*n) != 2 ==> !r,
        nat_of(*n) >= 5 && nat_of(*n) % 2 == 1 && !r ==> exists|a: nat|
            2 <= a < nat_of(*n) && !mr_witness_passes(nat_of(*n), a),
        nat_of(*n) >= 5 && nat_of(*n) % 2 == 1 && (forall|a: nat|
            2 <= a < nat_of(*n) ==> #[trigger] mr_witness_passes(nat_of(*n), a)) ==> r,
{
    let zero = big_from_u64(0);
    let one = big_from_u64(1);
    let two = big_from_u64(2);
    let three = big_from_u64(3);
    if big_eq(n, &two) || big_eq(n, &three) {
        return true;
    }
    if big_lt(n, &two) {
        return false;
    }
    let r2 = big_rem(n, &two);
    if big_eq(&r2, &zero) {
        return false;
    }
    let n_minus_one = big_sub(n, &one);
    let km = find_k_and_m(n);
    let k = km.0;
    let m = km.1;
    let mut t: usize = 0;
    while t < trials
        invariant
            nat_of(two) == 2,
            nat_of(*n) >= 5,
            nat_of(*n) % 2 == 1,
            nat_of(n_minus_one) == nat_of(*n) - 1,
            nat_of(k) == two_exponent((nat_of(*n) - 1) as nat),
            nat_of(m) == odd_part((nat_of(*n) - 1) as nat),
            t <= trials,
        decreases trials - t,
    {
        let a = big_gen_range(rng, &two, n);
        if !mr_trial(n, &n_minus_one, &a, &k, &m) {
            return false;
        }
        t = t + 1;
    }
    true
}

/// Decide primality of an arbitrary-precision integer, drawing Miller-Rabin
/// witnesses from the given random generator.
pub fn is_prime_with(input: &num::BigUint, rng: &mut rand::rngs::StdRng) -> (r: bool)
    ensures
        oracle_sound(nat_of(*input), r),
{
    let threshold = big_from_u64(PRIME_THRESHOLD);
    if big_lt(input, &threshold) {
        match big_to_u64(input) {
            Some(v) => trial_division(v),
            None => false,
        }
    } else {
        miller_rabin_is_prime(input, NUM_TRIALS, rng)
    }
}

/// Determine if a given input is prime, with a fresh source of randomness
/// for the Miller-Rabin witnesses.
pub fn is_prime(input: &num::BigUint) -> (r: bool)
    ensures
        oracle_sound(nat_of(*input), r),
{
    let mut rng = rng_from_entropy();
    is_prime_with(input, &mut rng)
}

} // verus!

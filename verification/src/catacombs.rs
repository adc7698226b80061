//! Catacomb numbers: the neighbors of an integer under digit perturbation
//! at a fixed Hamming distance, each classified by the primality oracle.

use vstd::prelude::*;
use crate::bignum::{nat_of, big_from_decimal, rng_from_entropy, is_decimal_text,
    decimal_value_of};
use crate::codec::{to_digits, from_digits, to_digits_spec, from_digits_spec, radix_len,
    digits_in_base, lemma_from_digits_injective};
use crate::combinatorics::{binomial, pow_nat, is_combination, is_selection, prod_lens,
    combinations_from, selections_from, lemma_prod_lens_uniform, lex_less_positions,
    lex_less_digits};
use crate::miller_rabin::oracle_sound;

verus! {

/// How many digit slots the neighborhood of a value uses: its canonical
/// digit count in the base, plus one guard slot per unit of Hamming
/// distance.
pub open spec fn padded_len(v: nat, base: nat, h: nat) -> nat {
    radix_len(v, base) + h
}

/// The number of neighbors at Hamming distance `h` of a value with `len`
/// padded digit slots in a base.
pub open spec fn neighbor_count(len: nat, base: nat, h: nat) -> nat {
    binomial(len, h) * pow_nat((base - 1) as nat, h)
}

/// `s` agrees with `orig` everywhere except at the positions listed in
/// `c`, where it differs.
pub open spec fn perturbed_at(s: Seq<u8>, orig: Seq<u8>, c: Seq<usize>) -> bool {
    &&& s.len() == orig.len()
    &&& (forall|w: int| 0 <= w < c.len() ==> s[(#[trigger] c[w]) as int] != orig[c[w] as int])
    &&& (forall|i: int| 0 <= i < s.len() && !c.contains(i as usize)
        ==> #[trigger] s[i] == orig[i])
}

/// `w` is reachable from the value with padded digits `orig` by rewriting
/// exactly `h` digit slots: some choice of `h` positions and some in-range
/// digit sequence differing from `orig` precisely there decode to `w`.
pub open spec fn is_neighbor_value(w: nat, orig: Seq<u8>, base: nat, h: nat) -> bool {
    exists|c: Seq<usize>, s: Seq<u8>|
        {
            &&& #[trigger] is_combination(c, 0, orig.len(), h)
            &&& #[trigger] perturbed_at(s, orig, c)
            &&& digits_in_base(s, base)
            &&& w == from_digits_spec(s, base)
        }
}

/// Every digit sequence that perturbs `orig` along the positions `c`
/// decodes to the value of some entry of `results`.
#[verifier::opaque]
pub open spec fn covers(
    results: Seq<CatacombNumber>,
    orig: Seq<u8>,
    c: Seq<usize>,
    base: nat,
) -> bool {
    forall|s: Seq<u8>| #[trigger] perturbed_at(s, orig, c) && digits_in_base(s, base)
        ==> exists|idx: int| 0 <= idx < results.len()
            && (#[trigger] results[idx]).spec_value() == from_digits_spec(s, base)
}

/// The enumeration order of two neighbor values: each decodes from a
/// perturbation, and the earlier one's position choice comes first
/// lexicographically, or the choices agree and its digit sequence does.
/// Fixed-length perturbations decode injectively, so each value's witness
/// pair is unique and this predicate fixes the relative order of any two
/// output values.
#[verifier::opaque]
pub open spec fn enumerated_before(w1: nat, w2: nat, orig: Seq<u8>, base: nat, h: nat) -> bool {
    exists|c1: Seq<usize>, s1: Seq<u8>, c2: Seq<usize>, s2: Seq<u8>|
        {
            &&& is_combination(c1, 0, orig.len(), h)
            &&& #[trigger] perturbed_at(s1, orig, c1)
            &&& digits_in_base(s1, base)
            &&& w1 == from_digits_spec(s1, base)
            &&& is_combination(c2, 0, orig.len(), h)
            &&& #[trigger] perturbed_at(s2, orig, c2)
            &&& digits_in_base(s2, base)
            &&& w2 == from_digits_spec(s2, base)
            &&& if c1 == c2 {
                lex_less_digits(s1, s2)
            } else {
                lex_less_positions(c1, c2)
            }
        }
}

/// What a set of entries covers, it still covers after an entry is
/// appended.
proof fn lemma_covers_push(
    results: Seq<CatacombNumber>,
    e: CatacombNumber,
    orig: Seq<u8>,
    c: Seq<usize>,
    base: nat,
)
    requires
        covers(results, orig, c, base),
    ensures
        covers(results.push(e), orig, c, base),
{
    reveal(crate::catacombs::covers);
    assert forall|s: Seq<u8>| #[trigger] perturbed_at(s, orig, c)
        && digits_in_base(s, base)
        implies exists|idx: int| 0 <= idx < results.push(e).len()
            && (#[trigger] results.push(e)[idx]).spec_value()
                == from_digits_spec(s, base) by {
        let idx = choose|idx: int| 0 <= idx < results.len()
            && (#[trigger] results[idx]).spec_value() == from_digits_spec(s, base);
        assert(results.push(e)[idx] == results[idx]);
    }
}

/// A lexicographic step among the digits selected at the perturbed
/// positions is one among the whole digit sequences: every position below
/// the first differing one carries equal digits.
proof fn lemma_selection_lex_to_digits(
    orig: Seq<u8>,
    c: Seq<usize>,
    s1: Seq<u8>,
    s2: Seq<u8>,
    t1: Seq<u8>,
    t2: Seq<u8>,
    h: nat,
)
    requires
        is_combination(c, 0, orig.len(), h),
        perturbed_at(s1, orig, c),
        perturbed_at(s2, orig, c),
        t1.len() == c.len(),
        t2.len() == c.len(),
        forall|w: int| 0 <= w < c.len() ==> s1[(#[trigger] c[w]) as int] == t1[w],
        forall|w: int| 0 <= w < c.len() ==> s2[(#[trigger] c[w]) as int] == t2[w],
        lex_less_digits(t1, t2),
    ensures
        lex_less_digits(s1, s2),
{
    let w = choose|w: int| 0 <= w < t1.len() && w < t2.len()
        && (#[trigger] t1[w]) < t2[w]
        && (forall|v: int| 0 <= v < w ==> t1[v] == t2[v]);
    let p = c[w] as int;
    assert(s1[p] < s2[p]);
    assert(0 <= p < s1.len() && p < s2.len());
    assert forall|v: int| 0 <= v < p implies s1[v] == s2[v] by {
        if c.contains(v as usize) {
            let w2 = choose|w2: int| 0 <= w2 < c.len() && c[w2] == v as usize;
            if w2 > w {
                assert(c[w] < c[w2]);
            }
            assert(w2 < w);
            assert(s1[v] == t1[w2] && s2[v] == t2[w2]);
        } else {
            assert(s1[v] == orig[v] && s2[v] == orig[v]);
        }
    }
}

/// Two distinct strictly increasing position sequences of one length are
/// told apart by some position lying in exactly one of them.
proof fn lemma_increasing_seqs_diff(c1: Seq<usize>, c2: Seq<usize>)
    requires
        c1.len() == c2.len(),
        c1 != c2,
        forall|i: int, j: int| 0 <= i < j < c1.len() ==> c1[i] < c1[j],
        forall|i: int, j: int| 0 <= i < j < c2.len() ==> c2[i] < c2[j],
    ensures
        exists|p: usize| #![trigger c1.contains(p), c2.contains(p)]
            (c1.contains(p) && !c2.contains(p)) || (c2.contains(p) && !c1.contains(p)),
    decreases c1.len(),
{
    if c1.len() == 0 {
        assert(c1 =~= c2);
    } else if c1[0] == c2[0] {
        let t1 = c1.skip(1);
        let t2 = c2.skip(1);
        assert(forall|i: int| 0 <= i < t1.len() ==> #[trigger] t1[i] == c1[i + 1]);
        assert(forall|i: int| 0 <= i < t2.len() ==> #[trigger] t2[i] == c2[i + 1]);
        if t1 == t2 {
            assert forall|i: int| 0 <= i < c1.len() implies c1[i] == c2[i] by {
                if i > 0 {
                    assert(t1[i - 1] == t2[i - 1]);
                }
            }
            assert(c1 =~= c2);
            assert(false);
        }
        lemma_increasing_seqs_diff(t1, t2);
        let p = choose|p: usize| #![trigger t1.contains(p), t2.contains(p)]
            (t1.contains(p) && !t2.contains(p)) || (t2.contains(p) && !t1.contains(p));
        if t1.contains(p) && !t2.contains(p) {
            let i = choose|i: int| 0 <= i < t1.len() && t1[i] == p;
            assert(c1[i + 1] == p);
            assert(c1.contains(p));
            assert(!c2.contains(p)) by {
                if c2.contains(p) {
                    let k = choose|k: int| 0 <= k < c2.len() && c2[k] == p;
                    if k == 0 {
                        assert(p == c1[0] && p == c1[i + 1]);
                    } else {
                        assert(t2[k - 1] == p);
                    }
                }
            }
        } else {
            let i = choose|i: int| 0 <= i < t2.len() && t2[i] == p;
            assert(c2[i + 1] == p);
            assert(c2.contains(p));
            assert(!c1.contains(p)) by {
                if c1.contains(p) {
                    let k = choose|k: int| 0 <= k < c1.len() && c1[k] == p;
                    if k == 0 {
                        assert(p == c2[0] && p == c2[i + 1]);
                    } else {
                        assert(t1[k - 1] == p);
                    }
                }
            }
        }
    } else if c1[0] < c2[0] {
        let p = c1[0];
        assert(c1.contains(p));
        assert(!c2.contains(p)) by {
            if c2.contains(p) {
                let k = choose|k: int| 0 <= k < c2.len() && c2[k] == p;
                assert(k > 0 ==> c2[0] < c2[k]);
            }
        }
    } else {
        let p = c2[0];
        assert(c2.contains(p));
        assert(!c1.contains(p)) by {
            if c1.contains(p) {
                let k = choose|k: int| 0 <= k < c1.len() && c1[k] == p;
                assert(k > 0 ==> c1[0] < c1[k]);
            }
        }
    }
}

/// Perturbing along two different position choices yields two different
/// digit sequences: a distinguishing position is rewritten in one and kept
/// in the other.
proof fn lemma_different_perturbations_differ(
    orig: Seq<u8>,
    c1: Seq<usize>,
    c2: Seq<usize>,
    s1: Seq<u8>,
    s2: Seq<u8>,
    h: nat,
)
    requires
        is_combination(c1, 0, orig.len(), h),
        is_combination(c2, 0, orig.len(), h),
        c1 != c2,
        perturbed_at(s1, orig, c1),
        perturbed_at(s2, orig, c2),
    ensures
        s1 != s2,
{
    lemma_increasing_seqs_diff(c1, c2);
    let p = choose|p: usize| #![trigger c1.contains(p), c2.contains(p)]
        (c1.contains(p) && !c2.contains(p)) || (c2.contains(p) && !c1.contains(p));
    if c1.contains(p) && !c2.contains(p) {
        let w = choose|w: int| 0 <= w < c1.len() && c1[w] == p;
        assert(s1[p as int] != orig[p as int]);
        assert(s2[p as int] == orig[p as int]);
        assert(s1 != s2) by {
            if s1 == s2 {
                assert(s1[p as int] == s2[p as int]);
            }
        }
    } else {
        let w = choose|w: int| 0 <= w < c2.len() && c2[w] == p;
        assert(s2[p as int] != orig[p as int]);
        assert(s1[p as int] == orig[p as int]);
        assert(s1 != s2) by {
            if s1 == s2 {
                assert(s1[p as int] == s2[p as int]);
            }
        }
    }
}

/// An arbitrary-precision integer paired with the primality verdict that
/// the oracle gave for it at construction time. Both fields are fixed once
/// built.
pub struct CatacombNumber {
    value: num::BigUint,
    is_prime: bool,
}

impl CatacombNumber {
    /// The natural number this entry holds.
    pub closed spec fn spec_value(self) -> nat {
        nat_of(self.value)
    }

    /// The stored primality verdict.
    pub closed spec fn spec_prime(self) -> bool {
        self.is_prime
    }

    /// Wrap a value together with the oracle's verdict on it, drawing any
    /// Miller-Rabin witnesses from the given generator.
    pub fn new_with(value: num::BigUint, rng: &mut rand::rngs::StdRng) -> (r: Self)
        ensures
            r.spec_value() == nat_of(value),
            oracle_sound(r.spec_value(), r.spec_prime()),
    {
        let is_prime = crate::miller_rabin::is_prime_with(&value, rng);
        CatacombNumber { value, is_prime }
    }

    /// Wrap a value together with the oracle's verdict on it.
    pub fn new(value: num::BigUint) -> (r: Self)
        ensures
            r.spec_value() == nat_of(value),
            oracle_sound(r.spec_value(), r.spec_prime()),
    {
        let mut rng = rng_from_entropy();
        Self::new_with(value, &mut rng)
    }

    pub fn get_value(&self) -> (r: &num::BigUint)
        ensures
            nat_of(*r) == self.spec_value(),
    {
        &self.value
    }

    pub fn into_value(self) -> (r: num::BigUint)
        ensures
            nat_of(r) == self.spec_value(),
    {
        self.value
    }

    pub fn is_prime(&self) -> (r: bool)
        ensures
            r == self.spec_prime(),
    {
        self.is_prime
    }

    /// Compute all of the catacomb numbers for the given input: every
    /// integer obtained by rewriting exactly `hamming_distance` digit slots
    /// of the padded base-`base` digit sequence of `input`, each paired
    /// with the oracle's verdict. The count is exactly `C(len, h) *
    /// (base-1)^h`, and the input itself is never among them.
    #[verifier::rlimit(75)]
    pub fn compute_catacombs_with(
        input: &num::BigUint,
        base: u8,
        hamming_distance: usize,
        rng: &mut rand::rngs::StdRng,
    ) -> (r: Vec<CatacombNumber>)
        requires
            2 <= base,
            1 <= hamming_distance,
        ensures
            r@.len() == neighbor_count(
                padded_len(nat_of(*input), base as nat, hamming_distance as nat),
                base as nat, hamming_distance as nat),
            forall|i: int| 0 <= i < r@.len() ==> (#[trigger] r@[i]).spec_value()
                != nat_of(*input),
            forall|i: int| 0 <= i < r@.len() ==> is_neighbor_value(
                (#[trigger] r@[i]).spec_value(),
                to_digits_spec(nat_of(*input), base as nat, hamming_distance as nat),
                base as nat, hamming_distance as nat),
            forall|i: int| 0 <= i < r@.len() ==> oracle_sound(
                (#[trigger] r@[i]).spec_value(), r@[i].spec_prime()),
            forall|i1: int, i2: int| 0 <= i1 < i2 < r@.len()
                ==> (#[trigger] r@[i1]).spec_value() != (#[trigger] r@[i2]).spec_value(),
            forall|w: nat| #[trigger] is_neighbor_value(w,
                to_digits_spec(nat_of(*input), base as nat, hamming_distance as nat),
                base as nat, hamming_distance as nat)
                ==> exists|i: int| 0 <= i < r@.len()
                    && (#[trigger] r@[i]).spec_value() == w,
            forall|i1: int, i2: int| 0 <= i1 < i2 < r@.len() ==> enumerated_before(
                (#[trigger] r@[i1]).spec_value(), (#[trigger] r@[i2]).spec_value(),
                to_digits_spec(nat_of(*input), base as nat, hamming_distance as nat),
                base as nat, hamming_distance as nat),
    {
        let ghost v = nat_of(*input);
        let ghost bn = base as nat;
        let ghost h = hamming_distance as nat;
        let digits = to_digits(input, base, hamming_distance);
        let len = digits.len();
        let combos = combinations_from(0, len, hamming_distance);
        let ghost per = pow_nat((bn - 1) as nat, h);
        let mut result: Vec<CatacombNumber> = Vec::new();
        let ghost mut used: Seq<Seq<u8>> = Seq::empty();
        let ghost mut combo_of: Seq<int> = Seq::empty();
        let mut ci: usize = 0;
        while ci < combos.len()
            invariant
                2 <= base,
                1 <= hamming_distance,
                v == nat_of(*input),
                bn == base as nat,
                h == hamming_distance as nat,
                digits@ == to_digits_spec(v, bn, h),
                digits@.len() == len,
                len as nat == padded_len(v, bn, h),
                digits_in_base(digits@, bn),
                from_digits_spec(digits@, bn) == v,
                combos@.len() == binomial(len as nat, h),
                forall|i: int| 0 <= i < combos@.len() ==> is_combination(
                    (#[trigger] combos@[i])@, 0, len as nat, h),
                forall|i1: int, i2: int| 0 <= i1 < i2 < combos@.len()
                    ==> (#[trigger] combos@[i1])@ != (#[trigger] combos@[i2])@,
                forall|i1: int, i2: int| 0 <= i1 < i2 < combos@.len()
                    ==> lex_less_positions((#[trigger] combos@[i1])@,
                        (#[trigger] combos@[i2])@),
                forall|c: Seq<usize>| #[trigger] is_combination(c, 0, len as nat, h)
                    ==> exists|i: int| 0 <= i < combos@.len()
                        && (#[trigger] combos@[i])@ == c,
                ci <= combos@.len(),
                per == pow_nat((bn - 1) as nat, h),
                result@.len() == ci * per,
                forall|i: int| 0 <= i < result@.len() ==> (#[trigger] result@[i])
                    .spec_value() != v,
                forall|i: int| 0 <= i < result@.len() ==> is_neighbor_value(
                    (#[trigger] result@[i]).spec_value(), digits@, bn, h),
                forall|i: int| 0 <= i < result@.len() ==> oracle_sound(
                    (#[trigger] result@[i]).spec_value(), result@[i].spec_prime()),
                used.len() == result@.len(),
                combo_of.len() == result@.len(),
                forall|i: int| 0 <= i < used.len() ==> 0 <= #[trigger] combo_of[i] < ci,
                forall|i: int| 0 <= i < used.len() ==> perturbed_at(
                    #[trigger] used[i], digits@, combos@[combo_of[i]]@),
                forall|i: int| 0 <= i < used.len() ==> (#[trigger] used[i]).len()
                    == digits@.len(),
                forall|i: int| 0 <= i < used.len()
                    ==> digits_in_base(#[trigger] used[i], bn),
                forall|i: int| 0 <= i < used.len() ==> result@[i].spec_value()
                    == from_digits_spec(#[trigger] used[i], bn),
                forall|i1: int, i2: int| 0 <= i1 < i2 < result@.len()
                    ==> (#[trigger] result@[i1]).spec_value()
                        != (#[trigger] result@[i2]).spec_value(),
                forall|ci2: int| 0 <= ci2 < ci ==> covers(
                    result@, digits@, (#[trigger] combos@[ci2])@, bn),
                forall|i1: int, i2: int| 0 <= i1 < i2 < result@.len()
                    ==> enumerated_before((#[trigger] result@[i1]).spec_value(),
                        (#[trigger] result@[i2]).spec_value(), digits@, bn, h),
            decreases combos@.len() - ci,
        {
            let combo = &combos[ci];
            // One candidate list per chosen position: every digit of the
            // base except the original one at that position.
            let mut cands: Vec<Vec<u8>> = Vec::new();
            let mut pi: usize = 0;
            while pi < combo.len()
                invariant
                    2 <= base,
                    digits@.len() == len,
                    digits_in_base(digits@, bn),
                    bn == base as nat,
                    is_combination(combo@, 0, len as nat, h),
                    pi <= combo@.len(),
                    cands@.len() == pi,
                    forall|i: int| 0 <= i < cands@.len() ==> (#[trigger] cands@[i])@.len()
                        == base - 1,
                    forall|i: int, e: int| 0 <= i < cands@.len()
                        && 0 <= e < cands@[i]@.len()
                        ==> (#[trigger] cands@[i]@[e]) < base && cands@[i]@[e] != digits@[combo@[i] as int],
                    forall|i: int, e1: int, e2: int| 0 <= i < cands@.len()
                        && 0 <= e1 < e2 < cands@[i]@.len()
                        ==> (#[trigger] cands@[i]@[e1]) < (#[trigger] cands@[i]@[e2]),
                    forall|i: int, dv: u8| 0 <= i < cands@.len() && dv < base
                        && dv != digits@[combo@[i] as int]
                        ==> #[trigger] cands@[i]@.contains(dv),
                decreases combo@.len() - pi,
            {
                let pos = combo[pi];
                let orig = digits[pos];
                let mut cand: Vec<u8> = Vec::new();
                let mut d: usize = 0;
                while d < base as usize
                    invariant
                        2 <= base,
                        orig < base,
                        d <= base as usize,
                        cand@.len() == if (orig as usize) < d {
                            (d - 1) as int
                        } else {
                            d as int
                        },
                        forall|e: int| 0 <= e < cand@.len() ==> (#[trigger] cand@[e]) < base
                            && cand@[e] != orig,
                        forall|e: int| 0 <= e < cand@.len()
                            ==> ((#[trigger] cand@[e]) as usize) < d,
                        forall|e1: int, e2: int| 0 <= e1 < e2 < cand@.len()
                            ==> (#[trigger] cand@[e1]) < (#[trigger] cand@[e2]),
                        forall|dv: u8| (dv as usize) < d && dv != orig
                            ==> #[trigger] cand@.contains(dv),
                    decreases base as usize - d,
                {
                    let dv = d as u8;
                    let ghost c_prev = cand@;
                    if dv != orig {
                        cand.push(dv);
                    }
                    d = d + 1;
                    proof {
                        assert forall|dv2: u8| (dv2 as usize) < d && dv2 != orig
                            implies #[trigger] cand@.contains(dv2) by {
                            if (dv2 as usize) < d - 1 {
                                assert(c_prev.contains(dv2));
                                let e = choose|e: int| 0 <= e < c_prev.len()
                                    && c_prev[e] == dv2;
                                assert(cand@[e] == dv2);
                            } else {
                                assert(dv2 == dv);
                                assert(cand@[cand@.len() - 1] == dv2);
                            }
                        }
                    }
                }
                cands.push(cand);
                pi = pi + 1;
            }
            let sels = selections_from(&cands, 0);
            proof {
                lemma_prod_lens_uniform(cands@, 0, (bn - 1) as nat);
                assert(sels@.len() == per);
            }
            let mut si: usize = 0;
            while si < sels.len()
                invariant
                    2 <= base,
                    1 <= hamming_distance,
                    v == nat_of(*input),
                    bn == base as nat,
                    h == hamming_distance as nat,
                    digits@.len() == len,
                    digits_in_base(digits@, bn),
                    from_digits_spec(digits@, bn) == v,
                    is_combination(combo@, 0, len as nat, h),
                    cands@.len() == h,
                    forall|i: int, e: int| 0 <= i < cands@.len()
                        && 0 <= e < cands@[i]@.len()
                        ==> (#[trigger] cands@[i]@[e]) < base && cands@[i]@[e] != digits@[combo@[i] as int],
                    si <= sels@.len(),
                    sels@.len() == per,
                    forall|i: int| 0 <= i < sels@.len() ==> is_selection(
                        (#[trigger] sels@[i])@, cands@, 0),
                    result@.len() == ci * per + si,
                    forall|i: int| 0 <= i < result@.len() ==> (#[trigger] result@[i])
                        .spec_value() != v,
                    forall|i: int| 0 <= i < result@.len() ==> is_neighbor_value(
                        (#[trigger] result@[i]).spec_value(), digits@, bn, h),
                    forall|i: int| 0 <= i < result@.len() ==> oracle_sound(
                        (#[trigger] result@[i]).spec_value(), result@[i].spec_prime()),
                    ci < combos@.len(),
                    combos@[ci as int]@ == combo@,
                    forall|i1: int, i2: int| 0 <= i1 < i2 < combos@.len()
                        ==> (#[trigger] combos@[i1])@ != (#[trigger] combos@[i2])@,
                    forall|i1: int, i2: int| 0 <= i1 < i2 < combos@.len()
                        ==> lex_less_positions((#[trigger] combos@[i1])@,
                            (#[trigger] combos@[i2])@),
                    forall|i: int| 0 <= i < combos@.len() ==> is_combination(
                        (#[trigger] combos@[i])@, 0, len as nat, h),
                    forall|i: int, dv: u8| 0 <= i < cands@.len() && dv < base
                        && dv != digits@[combo@[i] as int]
                        ==> #[trigger] cands@[i]@.contains(dv),
                    forall|i1: int, i2: int| 0 <= i1 < i2 < sels@.len()
                        ==> (#[trigger] sels@[i1])@ != (#[trigger] sels@[i2])@,
                    forall|i1: int, i2: int| 0 <= i1 < i2 < sels@.len()
                        ==> lex_less_digits((#[trigger] sels@[i1])@,
                            (#[trigger] sels@[i2])@),
                    forall|t: Seq<u8>| #[trigger] is_selection(t, cands@, 0)
                        ==> exists|i: int| 0 <= i < sels@.len()
                            && (#[trigger] sels@[i])@ == t,
                    used.len() == result@.len(),
                    combo_of.len() == result@.len(),
                    forall|i: int| 0 <= i < used.len()
                        ==> 0 <= #[trigger] combo_of[i] <= ci,
                    forall|i: int| 0 <= i < used.len() && i < ci * per
                        ==> #[trigger] combo_of[i] < ci,
                    forall|i: int| ci * per <= i < used.len()
                        ==> #[trigger] combo_of[i] == ci,
                    forall|i: int| 0 <= i < used.len() ==> perturbed_at(
                        #[trigger] used[i], digits@, combos@[combo_of[i]]@),
                    forall|i: int| 0 <= i < used.len() ==> (#[trigger] used[i]).len()
                        == digits@.len(),
                    forall|i: int| 0 <= i < used.len()
                        ==> digits_in_base(#[trigger] used[i], bn),
                    forall|i: int| 0 <= i < used.len() ==> result@[i].spec_value()
                        == from_digits_spec(#[trigger] used[i], bn),
                    forall|i: int, w: int| ci * per <= i < used.len()
                        && 0 <= w < combo@.len()
                        ==> #[trigger] used[i][combo@[w] as int]
                            == sels@[i - ci * per]@[w],
                    forall|i1: int, i2: int| 0 <= i1 < i2 < result@.len()
                        ==> (#[trigger] result@[i1]).spec_value()
                            != (#[trigger] result@[i2]).spec_value(),
                    forall|ci2: int| 0 <= ci2 < ci ==> covers(
                        result@, digits@, (#[trigger] combos@[ci2])@, bn),
                    forall|i1: int, i2: int| 0 <= i1 < i2 < result@.len()
                        ==> enumerated_before((#[trigger] result@[i1]).spec_value(),
                            (#[trigger] result@[i2]).spec_value(), digits@, bn, h),
                decreases sels@.len() - si,
            {
                let sel = &sels[si];
                // Copy the digit slots, then rewrite the chosen positions.
                let mut new_digits: Vec<u8> = Vec::new();
                let mut cp: usize = 0;
                while cp < digits.len()
                    invariant
                        cp <= digits@.len(),
                        new_digits@ == digits@.subrange(0, cp as int),
                    decreases digits@.len() - cp,
                {
                    new_digits.push(digits[cp]);
                    cp = cp + 1;
                    proof {
                        assert(new_digits@ =~= digits@.subrange(0, cp as int));
                    }
                }
                proof {
                    assert(digits@.subrange(0, digits@.len() as int) =~= digits@);
                }
                let mut w: usize = 0;
                while w < combo.len()
                    invariant
                        digits@.len() == len,
                        is_combination(combo@, 0, len as nat, h),
                        cands@.len() == h,
                        is_selection(sel@, cands@, 0),
                        sel@.len() == h,
                        forall|i: int, e: int| 0 <= i < cands@.len()
                            && 0 <= e < cands@[i]@.len()
                            ==> (#[trigger] cands@[i]@[e]) < base
                                && cands@[i]@[e] != digits@[combo@[i] as int],
                        digits_in_base(digits@, bn),
                        bn == base as nat,
                        w <= combo@.len(),
                        new_digits@.len() == digits@.len(),
                        forall|i: int| 0 <= i < w ==> new_digits@[combo@[i] as int]
                            == sel@[i],
                        forall|i: int| 0 <= i < new_digits@.len()
                            && !combo@.take(w as int).contains(i as usize)
                            ==> #[trigger] new_digits@[i] == digits@[i],
                        forall|i: int| 0 <= i < new_digits@.len()
                            ==> (#[trigger] new_digits@[i]) < base,
                    decreases combo@.len() - w,
                {
                    let pos = combo[w];
                    let val = sel[w];
                    proof {
                        assert(cands@[w as int]@.contains(sel@[w as int]));
                    }
                    new_digits[pos] = val;
                    w = w + 1;
                    proof {
                        assert forall|i: int| 0 <= i < w implies new_digits@[
                            combo@[i] as int] == sel@[i] by {
                            if i < w - 1 {
                                assert(combo@[i] < combo@[w - 1]);
                            }
                        }
                        assert(combo@.take(w as int)
                            =~= combo@.take(w as int - 1).push(combo@[w as int - 1]));
                        assert forall|i: int| 0 <= i < new_digits@.len()
                            && !combo@.take(w as int).contains(i as usize)
                            implies new_digits@[i] == digits@[i] by {
                            assert forall|kk: int| 0 <= kk < w - 1
                                implies (#[trigger] combo@.take(w as int - 1)[kk])
                                    != i as usize by {
                                if combo@.take(w as int - 1)[kk] == i as usize {
                                    assert(combo@.take(w as int)[kk] == i as usize);
                                }
                            }
                            assert(!combo@.take(w as int - 1).contains(i as usize));
                            assert(combo@.take(w as int)[w - 1] == combo@[w as int - 1]);
                            assert(i as usize != combo@[w as int - 1]);
                        }
                    }
                }
                let maybe_value = from_digits(&new_digits, base);
                match maybe_value {
                    Some(value) => {
                        proof {
                            assert(cands@[0]@.contains(sel@[0]));
                            assert(new_digits@[combo@[0] as int] == sel@[0]);
                            assert(new_digits@[combo@[0] as int]
                                != digits@[combo@[0] as int]);
                            if nat_of(value) == v {
                                lemma_from_digits_injective(new_digits@, digits@, bn);
                                assert(false);
                            }
                            assert forall|w2: int| 0 <= w2 < combo@.len()
                                implies new_digits@[(combo@[w2]) as int]
                                    != digits@[combo@[w2] as int] by {
                                assert(cands@[w2]@.contains(sel@[w2]));
                            }
                            assert(combo@.take(combo@.len() as int) =~= combo@);
                            assert(perturbed_at(new_digits@, digits@, combo@));
                            assert(is_combination(combo@, 0, digits@.len(), h));
                            assert(is_neighbor_value(nat_of(value), digits@, bn, h));
                        }
                        let entry = CatacombNumber::new_with(value, rng);
                        let ghost r_prev = result@;
                        result.push(entry);
                        proof {
                            used = used.push(new_digits@);
                            combo_of = combo_of.push(ci as int);
                            let bign = result@.len() - 1;
                            assert(result@ == r_prev.push(result@[bign]));
                            assert forall|ci2: int| 0 <= ci2 < ci implies covers(
                                result@, digits@, (#[trigger] combos@[ci2])@, bn) by {
                                lemma_covers_push(r_prev, result@[bign], digits@,
                                    combos@[ci2]@, bn);
                            }
                            assert(used[bign] == new_digits@);
                            assert(result@[bign].spec_value()
                                == from_digits_spec(new_digits@, bn));
                            assert forall|i1: int, i2: int|
                                0 <= i1 < i2 < result@.len() implies
                                (#[trigger] result@[i1]).spec_value()
                                    != (#[trigger] result@[i2]).spec_value() by {
                                if i2 == bign {
                                    if combo_of[i1] < ci {
                                        let c2v = combos@[combo_of[i1]]@;
                                        assert(c2v != combo@);
                                        lemma_different_perturbations_differ(
                                            digits@, combo@, c2v, new_digits@,
                                            used[i1], h);
                                    } else {
                                        let s1 = i1 - ci * per;
                                        assert(ci * per <= i1 < bign);
                                        let t1 = sels@[s1]@;
                                        let tn = sels@[si as int]@;
                                        assert(t1 != tn);
                                        assert(t1.len() == h && tn.len() == h);
                                        assert(exists|w2: int| 0 <= w2 < t1.len()
                                            && (#[trigger] t1[w2]) != tn[w2]) by {
                                            if !(exists|w2: int| 0 <= w2 < t1.len()
                                                && (#[trigger] t1[w2]) != tn[w2]) {
                                                assert(t1 =~= tn);
                                            }
                                        }
                                        let w2 = choose|w2: int| 0 <= w2 < t1.len()
                                            && (#[trigger] t1[w2]) != tn[w2];
                                        assert(used[i1][combo@[w2] as int] == t1[w2]);
                                        assert(new_digits@[combo@[w2] as int]
                                            == tn[w2]);
                                        assert(used[i1] != new_digits@) by {
                                            if used[i1] == new_digits@ {
                                                assert(used[i1][combo@[w2] as int]
                                                    == new_digits@[combo@[w2] as int]);
                                            }
                                        }
                                    }
                                    if result@[i1].spec_value()
                                        == result@[bign].spec_value() {
                                        lemma_from_digits_injective(
                                            used[i1], new_digits@, bn);
                                    }
                                }
                            }
                            assert forall|i1: int| 0 <= i1 < bign implies
                                enumerated_before(result@[i1].spec_value(),
                                    result@[bign].spec_value(), digits@, bn, h) by {
                                reveal(crate::catacombs::enumerated_before);
                                let c1 = combos@[combo_of[i1]]@;
                                let s1 = used[i1];
                                if combo_of[i1] < ci {
                                    assert(lex_less_positions(c1, combo@));
                                    assert(c1 != combo@);
                                } else {
                                    let sidx = i1 - ci * per;
                                    let t1 = sels@[sidx]@;
                                    let tn = sels@[si as int]@;
                                    assert(lex_less_digits(t1, tn));
                                    assert forall|w: int| 0 <= w < combo@.len()
                                        implies s1[(combo@[w]) as int] == t1[w] by {
                                        assert(used[i1][combo@[w] as int]
                                            == sels@[i1 - ci * per]@[w]);
                                    }
                                    assert(forall|w: int| 0 <= w < combo@.len()
                                        ==> new_digits@[(#[trigger] combo@[w]) as int]
                                            == tn[w]);
                                    lemma_selection_lex_to_digits(digits@, combo@,
                                        s1, new_digits@, t1, tn, h);
                                }
                                assert(enumerated_before(result@[i1].spec_value(),
                                    result@[bign].spec_value(), digits@, bn, h)) by {
                                    reveal(crate::catacombs::enumerated_before);
                                    assert(perturbed_at(s1, digits@, c1));
                                    assert(perturbed_at(new_digits@, digits@, combo@));
                                }
                            }
                        }
                    },
                    None => {
                        proof {
                            assert(false);
                        }
                    },
                }
                si = si + 1;
            }
            proof {
                // All selections were enumerated and applied: this whole
                // combination's neighborhood is in the result.
                reveal(crate::catacombs::covers);
                assert forall|sq: Seq<u8>| #[trigger] perturbed_at(sq, digits@, combo@)
                    && digits_in_base(sq, bn)
                    implies exists|idx: int| 0 <= idx < result@.len()
                        && (#[trigger] result@[idx]).spec_value()
                            == from_digits_spec(sq, bn) by {
                    let t = Seq::new(h, |w: int| sq[combo@[w] as int]);
                    assert(is_selection(t, cands@, 0)) by {
                        assert forall|w: int| 0 <= w < t.len()
                            implies cands@[0 + w]@.contains(#[trigger] t[w]) by {
                            assert(sq[combo@[w] as int] != digits@[combo@[w] as int]);
                            assert(sq[combo@[w] as int] < bn);
                            assert(cands@[w]@.contains(sq[combo@[w] as int]));
                        }
                    }
                    let si0 = choose|si0: int| 0 <= si0 < sels@.len()
                        && (#[trigger] sels@[si0])@ == t;
                    let idx = ci * per + si0;
                    assert(0 <= idx < result@.len());
                    assert(used[idx] =~= sq) by {
                        assert forall|p: int| 0 <= p < used[idx].len()
                            implies used[idx][p] == sq[p] by {
                            if combo@.contains(p as usize) {
                                let w = choose|w: int| 0 <= w < combo@.len()
                                    && combo@[w] == p as usize;
                                assert(used[idx][combo@[w] as int]
                                    == sels@[idx - ci * per]@[w]);
                                assert(sq[p] == t[w]);
                            } else {
                                assert(used[idx][p] == digits@[p]);
                                assert(sq[p] == digits@[p]);
                            }
                        }
                    }
                    assert(result@[idx].spec_value() == from_digits_spec(used[idx], bn));
                }
                assert(covers(result@, digits@, combo@, bn));
            }
            ci = ci + 1;
            proof {
                assert(ci * per == (ci - 1) * per + per) by (nonlinear_arith);
            }
        }
        proof {
            // Every neighbor value is produced: find its combination in the
            // enumeration and apply coverage.
            reveal(crate::catacombs::covers);
            assert forall|w: nat| #[trigger] is_neighbor_value(w,
                to_digits_spec(v, bn, h), bn, h)
                implies exists|i: int| 0 <= i < result@.len()
                    && (#[trigger] result@[i]).spec_value() == w by {
                let (c, sq) = choose|c: Seq<usize>, sq: Seq<u8>|
                    {
                        &&& #[trigger] is_combination(c, 0,
                            to_digits_spec(v, bn, h).len(), h)
                        &&& #[trigger] perturbed_at(sq, to_digits_spec(v, bn, h), c)
                        &&& digits_in_base(sq, bn)
                        &&& w == from_digits_spec(sq, bn)
                    };
                assert(is_combination(c, 0, len as nat, h));
                let ci0 = choose|ci0: int| 0 <= ci0 < combos@.len()
                    && (#[trigger] combos@[ci0])@ == c;
                assert(covers(result@, digits@, combos@[ci0]@, bn));
                assert(perturbed_at(sq, digits@, combos@[ci0]@));
            }
        }
        result
    }

    /// Compute all of the catacomb numbers for the given input, with a
    /// fresh source of randomness for the oracle.
    pub fn compute_catacombs(
        input: &num::BigUint,
        base: u8,
        hamming_distance: usize,
    ) -> (r: Vec<CatacombNumber>)
        requires
            2 <= base,
            1 <= hamming_distance,
        ensures
            r@.len() == neighbor_count(
                padded_len(nat_of(*input), base as nat, hamming_distance as nat),
                base as nat, hamming_distance as nat),
            forall|i: int| 0 <= i < r@.len() ==> (#[trigger] r@[i]).spec_value()
                != nat_of(*input),
            forall|i: int| 0 <= i < r@.len() ==> is_neighbor_value(
                (#[trigger] r@[i]).spec_value(),
                to_digits_spec(nat_of(*input), base as nat, hamming_distance as nat),
                base as nat, hamming_distance as nat),
            forall|i: int| 0 <= i < r@.len() ==> oracle_sound(
                (#[trigger] r@[i]).spec_value(), r@[i].spec_prime()),
            forall|i1: int, i2: int| 0 <= i1 < i2 < r@.len()
                ==> (#[trigger] r@[i1]).spec_value() != (#[trigger] r@[i2]).spec_value(),
            forall|w: nat| #[trigger] is_neighbor_value(w,
                to_digits_spec(nat_of(*input), base as nat, hamming_distance as nat),
                base as nat, hamming_distance as nat)
                ==> exists|i: int| 0 <= i < r@.len()
                    && (#[trigger] r@[i]).spec_value() == w,
            forall|i1: int, i2: int| 0 <= i1 < i2 < r@.len() ==> enumerated_before(
                (#[trigger] r@[i1]).spec_value(), (#[trigger] r@[i2]).spec_value(),
                to_digits_spec(nat_of(*input), base as nat, hamming_distance as nat),
                base as nat, hamming_distance as nat),
    {
        let mut rng = rng_from_entropy();
        Self::compute_catacombs_with(input, base, hamming_distance, &mut rng)
    }
}

/// The Hamming distance a query uses when none is given.
pub open spec fn chosen_distance(hd: Option<u32>) -> nat {
    match hd {
        Some(x) => x as nat,
        None => 1,
    }
}

/// Compute all catacombs given an input number expressed in base-10 text.
/// Returns `None` exactly when the text is not a valid base-10 integer.
pub fn compute_catacombs(
    current_number: &str,
    base: u8,
    hamming_distance: Option<u32>,
) -> (r: Option<Vec<CatacombNumber>>)
    requires
        2 <= base,
        match hamming_distance {
            Some(x) => x >= 1,
            None => true,
        },
    ensures
        r is Some <==> is_decimal_text(current_number@),
        match r {
            Some(list) => {
                let v = decimal_value_of(current_number@);
                let h = chosen_distance(hamming_distance);
                &&& list@.len() == neighbor_count(
                    padded_len(v, base as nat, h), base as nat, h)
                &&& (forall|i: int| 0 <= i < list@.len()
                    ==> (#[trigger] list@[i]).spec_value() != v)
                &&& (forall|i: int| 0 <= i < list@.len() ==> is_neighbor_value(
                    (#[trigger] list@[i]).spec_value(),
                    to_digits_spec(v, base as nat, h), base as nat, h))
                &&& (forall|i: int| 0 <= i < list@.len() ==> oracle_sound(
                    (#[trigger] list@[i]).spec_value(), list@[i].spec_prime()))
                &&& (forall|i1: int, i2: int| 0 <= i1 < i2 < list@.len()
                    ==> (#[trigger] list@[i1]).spec_value()
                        != (#[trigger] list@[i2]).spec_value())
                &&& (forall|w: nat| #[trigger] is_neighbor_value(w,
                    to_digits_spec(v, base as nat, h), base as nat, h)
                    ==> exists|i: int| 0 <= i < list@.len()
                        && (#[trigger] list@[i]).spec_value() == w)
                &&& (forall|i1: int, i2: int| 0 <= i1 < i2 < list@.len()
                    ==> enumerated_before((#[trigger] list@[i1]).spec_value(),
                        (#[trigger] list@[i2]).spec_value(),
                        to_digits_spec(v, base as nat, h), base as nat, h))
            },
            None => true,
        },
{
    match big_from_decimal(current_number) {
        Some(number) => {
            let h: usize = match hamming_distance {
                Some(x) => x as usize,
                None => 1,
            };
            let mut rng = rng_from_entropy();
            Some(CatacombNumber::compute_catacombs_with(&number, base, h, &mut rng))
        },
        None => None,
    }
}

} // verus!

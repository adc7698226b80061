//! Breadth-first exploration of the prime-neighbor graph: starting from a
//! seed, repeatedly expand prime neighbors outward, recording the depth at
//! which each prime is first reached, under a global expansion budget.

use vstd::prelude::*;
use crate::bignum::{nat_of, big_clone, big_eq, rng_from_entropy};
use crate::catacombs::{CatacombNumber, is_neighbor_value};
use crate::codec::to_digits_spec;
use crate::miller_rabin::{is_prime_spec, PRIME_THRESHOLD};

verus! {

/// One newly discovered prime: its value, its 1-based position in the
/// discovery sequence, and the traversal level at which it was reached.
pub struct Discovery {
    pub value: num::BigUint,
    pub index: u64,
    pub level: u64,
}

/// Why a traversal stopped: the frontier ran dry, or the expansion budget
/// was reached.
#[derive(Debug, PartialEq, Eq)]
pub enum Termination {
    Exhausted,
    BudgetExceeded,
}

/// Some discovery strictly before index `i` holds the value `p` and was
/// reached at level `lvl`.
pub open spec fn discovered_before(vals: Seq<Discovery>, i: int, p: nat, lvl: int) -> bool {
    exists|j: int| 0 <= j < i && nat_of((#[trigger] vals[j]).value) == p
        && vals[j].level == lvl
}

/// The discovery at index `i` is a digit-perturbation neighbor of its
/// parent one level up: the seed (with the discovery at level 1), or some
/// earlier discovery reached at the level just below the discovery's own.
pub open spec fn from_known_parent(
    seed: nat,
    vals: Seq<Discovery>,
    i: int,
    base: nat,
    h: nat,
) -> bool {
    exists|p: nat|
        ((p == seed && vals[i].level == 1) || discovered_before(
            vals, i, p, vals[i].level - 1)) && #[trigger] is_neighbor_value(
            nat_of(vals[i].value), to_digits_spec(p, base, h), base, h)
}

/// Every prime below the dispatch threshold that is a digit-perturbation
/// neighbor of the value `p` appears among the discoveries. (Neighbors at
/// or above the threshold carry a randomized verdict and cannot be
/// promised.)
#[verifier::opaque]
pub open spec fn prime_neighbors_covered(
    p: nat,
    vals: Seq<Discovery>,
    base: nat,
    h: nat,
) -> bool {
    forall|w: nat| w < PRIME_THRESHOLD as nat && is_prime_spec(w)
        && #[trigger] is_neighbor_value(w, to_digits_spec(p, base, h), base, h)
        ==> exists|i: int| 0 <= i < vals.len() && nat_of((#[trigger] vals[i]).value) == w
}

/// A discovery made before index `i` is still there after appending an
/// entry at the end.
proof fn lemma_discovered_before_push(
    vals: Seq<Discovery>,
    e: Discovery,
    i: int,
    p: nat,
    lvl: int,
)
    requires
        i <= vals.len(),
        discovered_before(vals, i, p, lvl),
    ensures
        discovered_before(vals.push(e), i, p, lvl),
{
    let j = choose|j: int| 0 <= j < i && nat_of((#[trigger] vals[j]).value) == p
        && vals[j].level == lvl;
    assert(vals.push(e)[j] == vals[j]);
}

/// Parentage of a discovery is kept when an entry is appended at the end.
proof fn lemma_parent_push(seed: nat, vals: Seq<Discovery>, e: Discovery, i: int,
    base: nat, h: nat)
    requires
        0 <= i < vals.len(),
        from_known_parent(seed, vals, i, base, h),
    ensures
        from_known_parent(seed, vals.push(e), i, base, h),
{
    let p = choose|p: nat|
        ((p == seed && vals[i].level == 1) || discovered_before(
            vals, i, p, vals[i].level - 1)) && #[trigger] is_neighbor_value(
            nat_of(vals[i].value), to_digits_spec(p, base, h), base, h);
    assert(vals.push(e)[i] == vals[i]);
    if !(p == seed && vals[i].level == 1) {
        lemma_discovered_before_push(vals, e, i, p, vals[i].level - 1);
    }
    assert(is_neighbor_value(nat_of(vals.push(e)[i].value),
        to_digits_spec(p, base, h), base, h));
}

/// Coverage of a value's prime neighborhood is kept when an entry is
/// appended at the end.
proof fn lemma_covered_push(vals: Seq<Discovery>, e: Discovery, p: nat, base: nat, h: nat)
    requires
        prime_neighbors_covered(p, vals, base, h),
    ensures
        prime_neighbors_covered(p, vals.push(e), base, h),
{
    reveal(crate::explorer::prime_neighbors_covered);
    assert forall|w: nat| w < PRIME_THRESHOLD as nat && is_prime_spec(w)
        && #[trigger] is_neighbor_value(w, to_digits_spec(p, base, h), base, h)
        implies exists|i: int| 0 <= i < vals.push(e).len()
            && nat_of((#[trigger] vals.push(e)[i]).value) == w by {
        let i = choose|i: int| 0 <= i < vals.len()
            && nat_of((#[trigger] vals[i]).value) == w;
        assert(vals.push(e)[i] == vals[i]);
    }
}

/// Whether some entry of `v` holds the same value as `x`.
fn contains_value(v: &Vec<num::BigUint>, x: &num::BigUint) -> (r: bool)
    ensures
        r == exists|i: int| 0 <= i < v@.len() && nat_of(#[trigger] v@[i]) == nat_of(*x),
{
    let mut i: usize = 0;
    while i < v.len()
        invariant
            i <= v@.len(),
            forall|k: int| 0 <= k < i ==> nat_of(#[trigger] v@[k]) != nat_of(*x),
        decreases v@.len() - i,
    {
        if big_eq(&v[i], x) {
            return true;
        }
        i = i + 1;
    }
    false
}

/// Breadth-first traversal over the prime-neighbor relation, drawing the
/// oracle's Miller-Rabin witnesses from the given generator. Discoveries
/// are numbered from 1 in discovery order; their count never exceeds the
/// budget, no value is emitted twice, and each descends from a parent one
/// level up. A `BudgetExceeded` outcome means the budget was spent
/// exactly; an `Exhausted` outcome means the frontier was fully expanded,
/// so every sub-threshold prime neighbor of the seed or of any discovery
/// was itself discovered.
#[verifier::rlimit(50)]
pub fn explore_with(
    seed: num::BigUint,
    base: u8,
    hamming_distance: usize,
    max_expansions: u64,
    rng: &mut rand::rngs::StdRng,
) -> (r: (Vec<Discovery>, Termination))
    requires
        2 <= base,
        1 <= hamming_distance,
    ensures
        r.0@.len() <= max_expansions,
        forall|i: int| 0 <= i < r.0@.len() ==> (#[trigger] r.0@[i]).index == i + 1,
        forall|i: int| 0 <= i < r.0@.len() ==> (#[trigger] r.0@[i]).level >= 1,
        forall|i: int, j: int| 0 <= i < j < r.0@.len()
            ==> r.0@[i].level <= r.0@[j].level,
        forall|i: int, j: int| 0 <= i < j < r.0@.len()
            ==> nat_of(r.0@[i].value) != nat_of(r.0@[j].value),
        forall|i: int| 0 <= i < r.0@.len()
            && nat_of((#[trigger] r.0@[i]).value) < PRIME_THRESHOLD as nat
            ==> is_prime_spec(nat_of(r.0@[i].value)),
        forall|i: int| 0 <= i < r.0@.len() ==> from_known_parent(
            nat_of(seed), r.0@, i, base as nat, hamming_distance as nat),
        r.1 == Termination::BudgetExceeded ==> r.0@.len() == max_expansions,
        r.1 == Termination::Exhausted ==> prime_neighbors_covered(
            nat_of(seed), r.0@, base as nat, hamming_distance as nat),
        r.1 == Termination::Exhausted ==> forall|i: int| 0 <= i < r.0@.len()
            ==> prime_neighbors_covered(nat_of((#[trigger] r.0@[i]).value), r.0@,
                base as nat, hamming_distance as nat),
{
    let mut visited: Vec<num::BigUint> = Vec::new();
    let mut queue: Vec<(num::BigUint, u64)> = Vec::new();
    let mut head: usize = 0;
    queue.push((seed, 0));
    let mut result: Vec<Discovery> = Vec::new();
    let mut expansions: u64 = 0;
    while head < queue.len()
        invariant
            2 <= base,
            1 <= hamming_distance,
            head <= queue@.len(),
            expansions <= max_expansions,
            expansions == result@.len(),
            visited@.len() == result@.len(),
            forall|i: int| 0 <= i < visited@.len()
                ==> nat_of(#[trigger] visited@[i]) == nat_of(result@[i].value),
            forall|i: int| 0 <= i < result@.len() ==> (#[trigger] result@[i]).index
                == i + 1,
            forall|i: int| 0 <= i < result@.len() ==> (#[trigger] result@[i]).level >= 1,
            forall|i: int, j: int| 0 <= i < j < result@.len()
                ==> (#[trigger] result@[i]).level <= (#[trigger] result@[j]).level,
            forall|i: int, j: int| head <= i <= j < queue@.len()
                ==> (#[trigger] queue@[i]).1 <= (#[trigger] queue@[j]).1,
            forall|i: int| head <= i < queue@.len() ==> (#[trigger] queue@[i]).1
                <= queue@[head as int].1 + 1,
            head < queue@.len() ==> (forall|i: int| 0 <= i < result@.len()
                ==> (#[trigger] result@[i]).level <= queue@[head as int].1 + 1),
            forall|i: int, j: int| 0 <= i < j < result@.len()
                ==> nat_of(result@[i].value) != nat_of(result@[j].value),
            forall|i: int| 0 <= i < result@.len()
                && nat_of((#[trigger] result@[i]).value) < PRIME_THRESHOLD as nat
                ==> is_prime_spec(nat_of(result@[i].value)),
            forall|i: int| 0 <= i < result@.len() ==> from_known_parent(
                nat_of(seed), result@, i, base as nat, hamming_distance as nat),
            queue@.len() == result@.len() + 1,
            nat_of(queue@[0].0) == nat_of(seed),
            queue@[0].1 == 0,
            forall|i: int| 1 <= i < queue@.len()
                ==> nat_of((#[trigger] queue@[i]).0) == nat_of(result@[i - 1].value)
                    && queue@[i].1 == result@[i - 1].level,
            forall|qi: int| 0 <= qi < head ==> prime_neighbors_covered(
                nat_of((#[trigger] queue@[qi]).0), result@, base as nat,
                hamming_distance as nat),
            forall|i: int| head <= i < queue@.len() ==> (#[trigger] queue@[i]).1
                <= expansions,
        decreases max_expansions - expansions, queue@.len() - head,
    {
        let cur = big_clone(&queue[head].0);
        let cur_level = queue[head].1;
        head = head + 1;
        let ghost dq_len = result@.len() as int;
        proof {
            if head - 1 >= 1 {
                let j = head - 2;
                assert(nat_of(result@[j as int].value) == nat_of(cur)
                    && result@[j as int].level == cur_level);
            }
        }
        let neighbors = CatacombNumber::compute_catacombs_with(
            &cur, base, hamming_distance, rng);
        let ghost q0 = queue@.len();
        let ghost e0 = expansions;
        let mut ni: usize = 0;
        while ni < neighbors.len()
            invariant
                2 <= base,
                1 <= hamming_distance,
                ni <= neighbors@.len(),
                1 <= head <= queue@.len(),
                e0 <= expansions,
                queue@.len() - q0 == expansions - e0,
                cur_level <= expansions,
                expansions <= max_expansions,
                expansions == result@.len(),
                visited@.len() == result@.len(),
                forall|i: int| 0 <= i < visited@.len()
                    ==> nat_of(#[trigger] visited@[i]) == nat_of(result@[i].value),
                forall|i: int| 0 <= i < result@.len() ==> (#[trigger] result@[i]).index
                    == i + 1,
                forall|i: int| 0 <= i < result@.len() ==> (#[trigger] result@[i]).level
                    >= 1,
                forall|i: int, j: int| 0 <= i < j < result@.len()
                    ==> (#[trigger] result@[i]).level <= (#[trigger] result@[j]).level,
                forall|i: int| 0 <= i < result@.len() ==> (#[trigger] result@[i]).level
                    <= cur_level + 1,
                forall|i: int, j: int| head <= i <= j < queue@.len()
                    ==> (#[trigger] queue@[i]).1 <= (#[trigger] queue@[j]).1,
                forall|i: int| head <= i < queue@.len()
                    ==> cur_level <= (#[trigger] queue@[i]).1 <= cur_level + 1,
                forall|i: int, j: int| 0 <= i < j < result@.len()
                    ==> nat_of(result@[i].value) != nat_of(result@[j].value),
                forall|i: int| 0 <= i < result@.len()
                    && nat_of((#[trigger] result@[i]).value) < PRIME_THRESHOLD as nat
                    ==> is_prime_spec(nat_of(result@[i].value)),
                forall|i: int| 0 <= i < result@.len() ==> from_known_parent(
                    nat_of(seed), result@, i, base as nat, hamming_distance as nat),
                queue@.len() == result@.len() + 1,
                nat_of(queue@[0].0) == nat_of(seed),
                queue@[0].1 == 0,
                forall|i: int| 1 <= i < queue@.len()
                    ==> nat_of((#[trigger] queue@[i]).0) == nat_of(result@[i - 1].value)
                        && queue@[i].1 == result@[i - 1].level,
                forall|qi: int| 0 <= qi < head - 1 ==> prime_neighbors_covered(
                    nat_of((#[trigger] queue@[qi]).0), result@, base as nat,
                    hamming_distance as nat),
                nat_of(queue@[head - 1].0) == nat_of(cur),
                0 <= dq_len <= result@.len(),
                (nat_of(cur) == nat_of(seed) && cur_level == 0) || discovered_before(
                    result@, dq_len, nat_of(cur), cur_level as int),
                forall|i: int| 0 <= i < neighbors@.len() ==> is_neighbor_value(
                    (#[trigger] neighbors@[i]).spec_value(),
                    to_digits_spec(nat_of(cur), base as nat, hamming_distance as nat),
                    base as nat, hamming_distance as nat),
                forall|i: int| 0 <= i < neighbors@.len() ==>
                    crate::miller_rabin::oracle_sound(
                    (#[trigger] neighbors@[i]).spec_value(), neighbors@[i].spec_prime()),
                forall|ni2: int| 0 <= ni2 < ni
                    && (#[trigger] neighbors@[ni2]).spec_prime()
                    ==> exists|ii: int| 0 <= ii < result@.len()
                        && nat_of((#[trigger] result@[ii]).value)
                            == neighbors@[ni2].spec_value(),
                forall|i: int| head <= i < queue@.len() ==> (#[trigger] queue@[i]).1
                    <= expansions,
            decreases neighbors@.len() - ni,
        {
            let nb = &neighbors[ni];
            if nb.is_prime() {
                if expansions >= max_expansions {
                    return (result, Termination::BudgetExceeded);
                }
                let value_ref = nb.get_value();
                if !contains_value(&visited, value_ref) {
                    let value = big_clone(value_ref);
                    let value_for_visited = big_clone(value_ref);
                    let value_for_queue = big_clone(value_ref);
                    let idx = expansions + 1;
                    let lvl = cur_level + 1;
                    let ghost r_prev = result@;
                    let ghost q_prev = queue@;
                    result.push(Discovery { value, index: idx, level: lvl });
                    visited.push(value_for_visited);
                    queue.push((value_for_queue, lvl));
                    expansions = expansions + 1;
                    proof {
                        let bn = base as nat;
                        let hn = hamming_distance as nat;
                        let new_i = result@.len() - 1;
                        let new_entry = result@[new_i];
                        assert(result@ == r_prev.push(new_entry));
                        assert forall|i: int, j: int| 0 <= i < j < result@.len()
                            implies nat_of(result@[i].value)
                                != nat_of(result@[j].value) by {
                            if j == result@.len() - 1 {
                                assert(nat_of(visited@[i]) == nat_of(result@[i].value));
                            }
                        }
                        // Parentage of the earlier discoveries is kept.
                        assert forall|i: int| 0 <= i < new_i implies from_known_parent(
                            nat_of(seed), result@, i, bn, hn) by {
                            lemma_parent_push(nat_of(seed), r_prev, new_entry, i, bn, hn);
                        }
                        // The new discovery descends from the dequeued value,
                        // one level up.
                        assert(nat_of(result@[new_i].value) == nb.spec_value());
                        assert(is_neighbor_value(nat_of(result@[new_i].value),
                            to_digits_spec(nat_of(cur), bn, hn), bn, hn));
                        assert(result@[new_i].level == cur_level + 1);
                        if !(nat_of(cur) == nat_of(seed) && cur_level == 0) {
                            lemma_discovered_before_push(
                                r_prev, new_entry, dq_len, nat_of(cur),
                                cur_level as int);
                            assert(discovered_before(result@, new_i, nat_of(cur),
                                cur_level as int)) by {
                                let j = choose|j: int| 0 <= j < dq_len
                                    && nat_of((#[trigger] result@[j]).value)
                                        == nat_of(cur)
                                    && result@[j].level == cur_level as int;
                            }
                        }
                        assert(from_known_parent(nat_of(seed), result@, new_i, bn, hn));
                        // The queue-to-discovery correspondence extends to the
                        // new tail entry.
                        assert forall|i: int| 1 <= i < queue@.len()
                            implies nat_of((#[trigger] queue@[i]).0)
                                == nat_of(result@[i - 1].value)
                                && queue@[i].1 == result@[i - 1].level by {
                            if i < queue@.len() - 1 {
                                assert(queue@[i] == q_prev[i]);
                                assert(result@[i - 1] == r_prev[i - 1]);
                            }
                        }
                        // Coverage of already-expanded values is kept.
                        assert forall|qi: int| 0 <= qi < head - 1
                            implies prime_neighbors_covered(
                                nat_of((#[trigger] queue@[qi]).0), result@, bn, hn) by {
                            assert(queue@[qi] == q_prev[qi]);
                            lemma_covered_push(r_prev, new_entry,
                                nat_of(q_prev[qi].0), bn, hn);
                        }
                        // Every prime candidate seen so far is in the result.
                        assert forall|ni2: int| 0 <= ni2 <= ni
                            && (#[trigger] neighbors@[ni2]).spec_prime()
                            implies exists|ii: int| 0 <= ii < result@.len()
                                && nat_of((#[trigger] result@[ii]).value)
                                    == neighbors@[ni2].spec_value() by {
                            if ni2 < ni {
                                let ii = choose|ii: int| 0 <= ii < r_prev.len()
                                    && nat_of((#[trigger] r_prev[ii]).value)
                                        == neighbors@[ni2].spec_value();
                                assert(result@[ii] == r_prev[ii]);
                            } else {
                                assert(nat_of(result@[new_i].value)
                                    == neighbors@[ni2].spec_value());
                            }
                        }
                    }
                }
            }
            ni = ni + 1;
        }
        proof {
            let bn = base as nat;
            let hn = hamming_distance as nat;
            // The dequeued value's prime neighborhood below the threshold is
            // now fully in the result: the generator listed every neighbor,
            // the oracle's verdict is exact there, and every prime candidate
            // was either emitted or already present.
            reveal(crate::explorer::prime_neighbors_covered);
            assert forall|w: nat| w < PRIME_THRESHOLD as nat && is_prime_spec(w)
                && #[trigger] is_neighbor_value(w,
                    to_digits_spec(nat_of(cur), bn, hn), bn, hn)
                implies exists|ii: int| 0 <= ii < result@.len()
                    && nat_of((#[trigger] result@[ii]).value) == w by {
                let ni2 = choose|ni2: int| 0 <= ni2 < neighbors@.len()
                    && (#[trigger] neighbors@[ni2]).spec_value() == w;
                assert(crate::miller_rabin::oracle_sound(
                    neighbors@[ni2].spec_value(), neighbors@[ni2].spec_prime()));
                assert(neighbors@[ni2].spec_prime());
            }
            assert(prime_neighbors_covered(nat_of(cur), result@, bn, hn));
            assert forall|qi: int| 0 <= qi < head implies prime_neighbors_covered(
                nat_of((#[trigger] queue@[qi]).0), result@, bn, hn) by {
                if qi == head - 1 {
                    assert(nat_of(queue@[qi].0) == nat_of(cur));
                }
            }
        }
    }
    proof {
        let bn = base as nat;
        let hn = hamming_distance as nat;
        assert(prime_neighbors_covered(nat_of(queue@[0].0), result@, bn, hn));
        assert forall|i: int| 0 <= i < result@.len() implies prime_neighbors_covered(
            nat_of((#[trigger] result@[i]).value), result@, bn, hn) by {
            assert(prime_neighbors_covered(nat_of(queue@[i + 1].0), result@, bn, hn));
            assert(nat_of(queue@[i + 1].0) == nat_of(result@[i].value));
        }
    }
    (result, Termination::Exhausted)
}

/// Breadth-first traversal with a fresh source of randomness for the
/// oracle.
pub fn explore(
    seed: num::BigUint,
    base: u8,
    hamming_distance: usize,
    max_expansions: u64,
) -> (r: (Vec<Discovery>, Termination))
    requires
        2 <= base,
        1 <= hamming_distance,
    ensures
        r.0@.len() <= max_expansions,
        forall|i: int| 0 <= i < r.0@.len() ==> (#[trigger] r.0@[i]).index == i + 1,
        forall|i: int| 0 <= i < r.0@.len() ==> (#[trigger] r.0@[i]).level >= 1,
        forall|i: int, j: int| 0 <= i < j < r.0@.len()
            ==> r.0@[i].level <= r.0@[j].level,
        forall|i: int, j: int| 0 <= i < j < r.0@.len()
            ==> nat_of(r.0@[i].value) != nat_of(r.0@[j].value),
        forall|i: int| 0 <= i < r.0@.len()
            && nat_of((#[trigger] r.0@[i]).value) < PRIME_THRESHOLD as nat
            ==> is_prime_spec(nat_of(r.0@[i].value)),
        forall|i: int| 0 <= i < r.0@.len() ==> from_known_parent(
            nat_of(seed), r.0@, i, base as nat, hamming_distance as nat),
        r.1 == Termination::BudgetExceeded ==> r.0@.len() == max_expansions,
        r.1 == Termination::Exhausted ==> prime_neighbors_covered(
            nat_of(seed), r.0@, base as nat, hamming_distance as nat),
        r.1 == Termination::Exhausted ==> forall|i: int| 0 <= i < r.0@.len()
            ==> prime_neighbors_covered(nat_of((#[trigger] r.0@[i]).value), r.0@,
                base as nat, hamming_distance as nat),
{
    let mut rng = rng_from_entropy();
    explore_with(seed, base, hamming_distance, max_expansions, &mut rng)
}

} // verus!

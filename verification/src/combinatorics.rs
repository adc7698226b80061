//! Enumeration of position combinations and of digit selections: the two
//! nested choices that span the neighborhood of an integer at a given
//! Hamming distance.

use vstd::prelude::*;

verus! {

/// The binomial coefficient, by Pascal's rule.
pub open spec fn binomial(n: nat, k: nat) -> nat
    decreases n,
{
    if k == 0 {
        1
    } else if n == 0 {
        0
    } else {
        binomial((n - 1) as nat, (k - 1) as nat) + binomial((n - 1) as nat, k)
    }
}

/// `b` to the power `e`, over the naturals.
pub open spec fn pow_nat(b: nat, e: nat) -> nat
    decreases e,
{
    if e == 0 {
        1
    } else {
        b * pow_nat(b, (e - 1) as nat)
    }
}

/// `a` precedes `b` lexicographically: they agree up to some index, where
/// `a` holds the smaller entry.
pub open spec fn lex_less_positions(a: Seq<usize>, b: Seq<usize>) -> bool {
    exists|w: int| 0 <= w < a.len() && w < b.len() && (#[trigger] a[w]) < b[w]
        && (forall|v: int| 0 <= v < w ==> a[v] == b[v])
}

/// `a` precedes `b` lexicographically, over digit sequences.
pub open spec fn lex_less_digits(a: Seq<u8>, b: Seq<u8>) -> bool {
    exists|w: int| 0 <= w < a.len() && w < b.len() && (#[trigger] a[w]) < b[w]
        && (forall|v: int| 0 <= v < w ==> a[v] == b[v])
}

/// A strictly increasing choice of `k` positions out of `[lo, n)`.
pub open spec fn is_combination(c: Seq<usize>, lo: nat, n: nat, k: nat) -> bool {
    &&& c.len() == k
    &&& (forall|i: int| 0 <= i < c.len() ==> lo <= #[trigger] c[i] < n)
    &&& (forall|i: int, j: int| 0 <= i < j < c.len() ==> c[i] < c[j])
}

/// All `k`-position combinations out of `[lo, n)`, in lexicographic order:
/// the ones containing `lo` first.
pub fn combinations_from(lo: usize, n: usize, k: usize) -> (r: Vec<Vec<usize>>)
    requires
        lo <= n,
    ensures
        r@.len() == binomial((n - lo) as nat, k as nat),
        forall|i: int| 0 <= i < r@.len() ==> is_combination(
            (#[trigger] r@[i])@, lo as nat, n as nat, k as nat),
        forall|i: int, j: int| 0 <= i < j < r@.len()
            ==> (#[trigger] r@[i])@ != (#[trigger] r@[j])@,
        forall|i: int, j: int| 0 <= i < j < r@.len()
            ==> lex_less_positions((#[trigger] r@[i])@, (#[trigger] r@[j])@),
        forall|c: Seq<usize>| #[trigger] is_combination(c, lo as nat, n as nat, k as nat)
            ==> exists|i: int| 0 <= i < r@.len() && (#[trigger] r@[i])@ == c,
    decreases n - lo,
{
    let mut result: Vec<Vec<usize>> = Vec::new();
    if k == 0 {
        let empty: Vec<usize> = Vec::new();
        result.push(empty);
        proof {
            assert forall|c: Seq<usize>|
                #[trigger] is_combination(c, lo as nat, n as nat, 0)
                implies exists|i: int| 0 <= i < result@.len()
                    && (#[trigger] result@[i])@ == c by {
                assert(c =~= result@[0]@);
            }
        }
        return result;
    }
    if lo == n {
        proof {
            assert forall|c: Seq<usize>|
                #[trigger] is_combination(c, lo as nat, n as nat, k as nat)
                implies exists|i: int| 0 <= i < result@.len()
                    && (#[trigger] result@[i])@ == c by {
                assert(lo as nat <= c[0] < n as nat);
            }
        }
        return result;
    }
    let with_lo = combinations_from(lo + 1, n, k - 1);
    let mut idx: usize = 0;
    while idx < with_lo.len()
        invariant
            lo < n,
            1 <= k,
            idx <= with_lo@.len(),
            result@.len() == idx,
            forall|i: int| 0 <= i < with_lo@.len() ==> is_combination(
                (#[trigger] with_lo@[i])@, lo as nat + 1, n as nat, (k - 1) as nat),
            forall|i: int, j: int| 0 <= i < j < with_lo@.len()
                ==> (#[trigger] with_lo@[i])@ != (#[trigger] with_lo@[j])@,
            forall|i: int| 0 <= i < result@.len() ==> is_combination(
                (#[trigger] result@[i])@, lo as nat, n as nat, k as nat),
            forall|i: int| 0 <= i < result@.len()
                ==> (#[trigger] result@[i])@ == seq![lo].add(with_lo@[i]@),
        decreases with_lo@.len() - idx,
    {
        let sub = &with_lo[idx];
        let mut c: Vec<usize> = Vec::new();
        c.push(lo);
        let mut j: usize = 0;
        while j < sub.len()
            invariant
                j <= sub@.len(),
                c@ == seq![lo].add(sub@.subrange(0, j as int)),
            decreases sub@.len() - j,
        {
            c.push(sub[j]);
            j = j + 1;
            proof {
                assert(c@ =~= seq![lo].add(sub@.subrange(0, j as int)));
            }
        }
        proof {
            assert(sub@.subrange(0, sub@.len() as int) =~= sub@);
            assert(is_combination(c@, lo as nat, n as nat, k as nat)) by {
                assert(forall|i: int| 1 <= i < c@.len() ==> c@[i] == sub@[i - 1]);
            }
        }
        result.push(c);
        idx = idx + 1;
    }
    let mut without = combinations_from(lo + 1, n, k);
    let ghost with_part = result@;
    let ghost without_part = without@;
    proof {
        assert(forall|i: int| 0 <= i < without@.len() ==> is_combination(
            (#[trigger] without@[i])@, lo as nat, n as nat, k as nat));
    }
    result.append(&mut without);
    proof {
        // Entries from the two halves differ in their first position:
        // `lo` on the left, something larger on the right.
        assert forall|i: int, j: int| 0 <= i < j < result@.len()
            implies (#[trigger] result@[i])@ != (#[trigger] result@[j])@ by {
            let m = with_part.len() as int;
            if i < m && j < m {
                assert(with_part[i]@ != with_part[j]@) by {
                    assert(with_lo@[i]@ != with_lo@[j]@);
                    if with_part[i]@ == with_part[j]@ {
                        assert forall|e: int| 0 <= e < with_lo@[i]@.len()
                            implies with_lo@[i]@[e] == with_lo@[j]@[e] by {
                            assert(with_part[i]@[e + 1] == with_part[j]@[e + 1]);
                        }
                        assert(with_lo@[i]@ =~= with_lo@[j]@);
                    }
                }
            } else if i < m && j >= m {
                assert(result@[i]@[0] == lo);
                assert(is_combination(without_part[j - m]@, lo as nat + 1, n as nat,
                    k as nat));
                assert(result@[j]@[0] >= lo + 1);
            } else {
                assert(without_part[i - m]@ != without_part[j - m]@);
            }
        }
        let m = with_part.len() as int;
        assert forall|i: int, j: int| 0 <= i < j < result@.len()
            implies lex_less_positions((#[trigger] result@[i])@,
                (#[trigger] result@[j])@) by {
            if i < m && j < m {
                assert(lex_less_positions(with_lo@[i]@, with_lo@[j]@));
                let w = choose|w: int| 0 <= w < with_lo@[i]@.len()
                    && w < with_lo@[j]@.len()
                    && (#[trigger] with_lo@[i]@[w]) < with_lo@[j]@[w]
                    && (forall|v: int| 0 <= v < w ==> with_lo@[i]@[v] == with_lo@[j]@[v]);
                assert(result@[i]@[w + 1] < result@[j]@[w + 1]);
                assert forall|v: int| 0 <= v < w + 1
                    implies result@[i]@[v] == result@[j]@[v] by {
                    if v > 0 {
                        assert(with_lo@[i]@[v - 1] == with_lo@[j]@[v - 1]);
                    }
                }
            } else if i < m && j >= m {
                assert(result@[i]@[0] == lo);
                assert(is_combination(without_part[j - m]@, lo as nat + 1, n as nat,
                    k as nat));
                assert(result@[i]@[0] < result@[j]@[0]);
            } else {
                assert(lex_less_positions(without_part[i - m]@, without_part[j - m]@));
            }
        }
        // Every combination appears: those containing `lo` in the first
        // half, the others in the second.
        assert forall|c: Seq<usize>|
            #[trigger] is_combination(c, lo as nat, n as nat, k as nat)
            implies exists|i: int| 0 <= i < result@.len()
                && (#[trigger] result@[i])@ == c by {
            if c[0] == lo {
                let tail = c.skip(1);
                assert(forall|i: int| 0 <= i < tail.len()
                    ==> #[trigger] tail[i] == c[i + 1]);
                assert(is_combination(tail, lo as nat + 1, n as nat, (k - 1) as nat));
                let i0 = choose|i0: int| 0 <= i0 < with_lo@.len()
                    && (#[trigger] with_lo@[i0])@ == tail;
                assert(result@[i0]@ == seq![lo].add(tail));
                assert(result@[i0]@ =~= c);
            } else {
                assert(lo as nat <= c[0]);
                assert(forall|i: int| 0 <= i < c.len()
                    ==> lo as nat + 1 <= #[trigger] c[i] < n as nat) by {
                    assert(forall|i: int| 0 < i < c.len() ==> c[0] < #[trigger] c[i]);
                }
                assert(is_combination(c, lo as nat + 1, n as nat, k as nat));
                let i0 = choose|i0: int| 0 <= i0 < without_part.len()
                    && (#[trigger] without_part[i0])@ == c;
                assert(result@[m + i0]@ == c);
            }
        }
    }
    result
}

/// The number of ways to pick one entry from each candidate list from
/// index `j` on.
pub open spec fn prod_lens(cands: Seq<Vec<u8>>, j: int) -> nat
    decreases cands.len() - j,
{
    if j < 0 || j >= cands.len() {
        1
    } else {
        cands[j]@.len() * prod_lens(cands, j + 1)
    }
}

/// `t` picks one entry from each candidate list from index `j` on.
pub open spec fn is_selection(t: Seq<u8>, cands: Seq<Vec<u8>>, j: int) -> bool {
    &&& t.len() == cands.len() - j
    &&& (forall|i: int| 0 <= i < t.len() ==> cands[j + i]@.contains(#[trigger] t[i]))
}

/// When every candidate list from `j` on has the same width, the number of
/// selections is that width to the power of the number of lists.
pub proof fn lemma_prod_lens_uniform(cands: Seq<Vec<u8>>, j: int, w: nat)
    requires
        0 <= j <= cands.len(),
        forall|i: int| j <= i < cands.len() ==> (#[trigger] cands[i])@.len() == w,
    ensures
        prod_lens(cands, j) == pow_nat(w, (cands.len() - j) as nat),
    decreases cands.len() - j,
{
    if j < cands.len() {
        lemma_prod_lens_uniform(cands, j + 1, w);
    }
}

/// All ways of picking one entry from each candidate list from index `j`
/// on, ordered with the first list varying slowest and each list's entries
/// kept in their own order.
#[verifier::rlimit(80)]
pub fn selections_from(cands: &Vec<Vec<u8>>, j: usize) -> (r: Vec<Vec<u8>>)
    requires
        j <= cands@.len(),
        forall|j2: int, e1: int, e2: int| j <= j2 < cands@.len()
            && 0 <= e1 < e2 < cands@[j2]@.len()
            ==> (#[trigger] cands@[j2]@[e1]) < (#[trigger] cands@[j2]@[e2]),
    ensures
        r@.len() == prod_lens(cands@, j as int),
        forall|i: int| 0 <= i < r@.len() ==> is_selection(
            (#[trigger] r@[i])@, cands@, j as int),
        forall|i1: int, i2: int| 0 <= i1 < i2 < r@.len()
            ==> (#[trigger] r@[i1])@ != (#[trigger] r@[i2])@,
        forall|i1: int, i2: int| 0 <= i1 < i2 < r@.len()
            ==> lex_less_digits((#[trigger] r@[i1])@, (#[trigger] r@[i2])@),
        forall|t: Seq<u8>| #[trigger] is_selection(t, cands@, j as int)
            ==> exists|i: int| 0 <= i < r@.len() && (#[trigger] r@[i])@ == t,
    decreases cands@.len() - j,
{
    let mut result: Vec<Vec<u8>> = Vec::new();
    if j == cands.len() {
        let empty: Vec<u8> = Vec::new();
        result.push(empty);
        proof {
            assert forall|t: Seq<u8>| #[trigger] is_selection(t, cands@, j as int)
                implies exists|i: int| 0 <= i < result@.len()
                    && (#[trigger] result@[i])@ == t by {
                assert(t =~= result@[0]@);
            }
        }
        return result;
    }
    let rest = selections_from(cands, j + 1);
    let row = &cands[j];
    let mut di: usize = 0;
    while di < row.len()
        invariant
            j < cands@.len(),
            row == cands@[j as int],
            di <= row@.len(),
            rest@.len() == prod_lens(cands@, j as int + 1),
            forall|i: int| 0 <= i < rest@.len() ==> is_selection(
                (#[trigger] rest@[i])@, cands@, j as int + 1),
            result@.len() == di * rest@.len(),
            forall|j2: int, e1: int, e2: int| j <= j2 < cands@.len()
                && 0 <= e1 < e2 < cands@[j2]@.len()
                ==> (#[trigger] cands@[j2]@[e1]) < (#[trigger] cands@[j2]@[e2]),
            forall|i: int| 0 <= i < result@.len() ==> is_selection(
                (#[trigger] result@[i])@, cands@, j as int),
            forall|i1: int, i2: int| 0 <= i1 < i2 < rest@.len()
                ==> (#[trigger] rest@[i1])@ != (#[trigger] rest@[i2])@,
            forall|i1: int, i2: int| 0 <= i1 < i2 < result@.len()
                ==> (#[trigger] result@[i1])@ != (#[trigger] result@[i2])@,
            di < row@.len() ==> (forall|i: int| 0 <= i < result@.len()
                ==> ((#[trigger] result@[i])@[0]) < row@[di as int]),
            forall|i1: int, i2: int| 0 <= i1 < i2 < rest@.len()
                ==> lex_less_digits((#[trigger] rest@[i1])@, (#[trigger] rest@[i2])@),
            forall|i1: int, i2: int| 0 <= i1 < i2 < result@.len()
                ==> lex_less_digits((#[trigger] result@[i1])@,
                    (#[trigger] result@[i2])@),
            forall|d2: int, r2: int| 0 <= d2 < di && 0 <= r2 < rest@.len()
                ==> (#[trigger] result@[d2 * rest@.len() + r2])@
                    == seq![row@[d2]].add(rest@[r2]@),
        decreases row@.len() - di,
    {
        let d = row[di];
        let mut ri: usize = 0;
        while ri < rest.len()
            invariant
                j < cands@.len(),
                row == cands@[j as int],
                di < row@.len(),
                d == row@[di as int],
                ri <= rest@.len(),
                rest@.len() == prod_lens(cands@, j as int + 1),
                forall|i: int| 0 <= i < rest@.len() ==> is_selection(
                    (#[trigger] rest@[i])@, cands@, j as int + 1),
                result@.len() == di * rest@.len() + ri,
                forall|i: int| 0 <= i < result@.len() ==> is_selection(
                    (#[trigger] result@[i])@, cands@, j as int),
                forall|i1: int, i2: int| 0 <= i1 < i2 < rest@.len()
                    ==> (#[trigger] rest@[i1])@ != (#[trigger] rest@[i2])@,
                forall|i1: int, i2: int| 0 <= i1 < i2 < result@.len()
                    ==> (#[trigger] result@[i1])@ != (#[trigger] result@[i2])@,
                forall|i: int| 0 <= i < di * rest@.len()
                    ==> ((#[trigger] result@[i])@[0]) < d,
                forall|i: int| di * rest@.len() <= i < result@.len()
                    ==> (#[trigger] result@[i])@ == seq![d].add(
                        rest@[i - di * rest@.len()]@),
                forall|i1: int, i2: int| 0 <= i1 < i2 < rest@.len()
                    ==> lex_less_digits((#[trigger] rest@[i1])@,
                        (#[trigger] rest@[i2])@),
                forall|i1: int, i2: int| 0 <= i1 < i2 < result@.len()
                    ==> lex_less_digits((#[trigger] result@[i1])@,
                        (#[trigger] result@[i2])@),
                forall|d2: int, r2: int| 0 <= d2 < di && 0 <= r2 < rest@.len()
                    ==> (#[trigger] result@[d2 * rest@.len() + r2])@
                        == seq![row@[d2]].add(rest@[r2]@),
            decreases rest@.len() - ri,
        {
            let sub = &rest[ri];
            let mut t: Vec<u8> = Vec::new();
            t.push(d);
            let mut w: usize = 0;
            while w < sub.len()
                invariant
                    w <= sub@.len(),
                    t@ == seq![d].add(sub@.subrange(0, w as int)),
                decreases sub@.len() - w,
            {
                t.push(sub[w]);
                w = w + 1;
                proof {
                    assert(t@ =~= seq![d].add(sub@.subrange(0, w as int)));
                }
            }
            proof {
                assert(sub@.subrange(0, sub@.len() as int) =~= sub@);
                assert(is_selection(t@, cands@, j as int)) by {
                    assert(cands@[j as int]@.contains(d));
                    assert(forall|i: int| 1 <= i < t@.len() ==> t@[i] == sub@[i - 1]);
                }
                assert(t@ =~= seq![d].add(sub@));
            }
            result.push(t);
            ri = ri + 1;
            proof {
                let ghost ell = rest@.len() as int;
                let new_idx = result@.len() - 1;
                assert forall|d2: int, r2: int| 0 <= d2 < di && 0 <= r2 < ell
                    implies (#[trigger] result@[d2 * ell + r2])@
                        == seq![row@[d2]].add(rest@[r2]@) by {
                    assert(0 <= d2 * ell + r2 < di * ell) by (nonlinear_arith)
                        requires
                            0 <= d2 < di,
                            0 <= r2 < ell,
                    ;
                }
                assert forall|i1: int, i2: int| 0 <= i1 < i2 < result@.len()
                    implies lex_less_digits((#[trigger] result@[i1])@,
                        (#[trigger] result@[i2])@) by {
                    if i2 == new_idx {
                        if i1 < di * ell {
                            assert(result@[i1]@[0] < d);
                            assert(result@[i2]@[0] == d);
                            assert(lex_less_digits(result@[i1]@, result@[i2]@)) by {
                                assert(0 <= result@[i1]@.len());
                                assert((result@[i1]@[0]) < result@[i2]@[0]
                                    && (forall|v: int| 0 <= v < 0
                                        ==> result@[i1]@[v] == result@[i2]@[v]));
                            }
                        } else {
                            let r1 = i1 - di * ell;
                            assert(result@[i1]@ == seq![d].add(rest@[r1]@));
                            assert(lex_less_digits(rest@[r1]@, rest@[ri - 1]@));
                            let w = choose|w: int| 0 <= w < rest@[r1]@.len()
                                && w < rest@[ri - 1]@.len()
                                && (#[trigger] rest@[r1]@[w]) < rest@[ri - 1]@[w]
                                && (forall|v: int| 0 <= v < w
                                    ==> rest@[r1]@[v] == rest@[ri - 1]@[v]);
                            assert(result@[i1]@[w + 1] < result@[i2]@[w + 1]);
                            assert forall|v: int| 0 <= v < w + 1
                                implies result@[i1]@[v] == result@[i2]@[v] by {
                                if v > 0 {
                                    assert(rest@[r1]@[v - 1] == rest@[ri - 1]@[v - 1]);
                                }
                            }
                        }
                    }
                }
                assert forall|i1: int, i2: int| 0 <= i1 < i2 < result@.len()
                    implies (#[trigger] result@[i1])@ != (#[trigger] result@[i2])@ by {
                    if i2 == new_idx && i1 >= di * ell {
                        let r1 = i1 - di * ell;
                        assert(result@[i1]@ == seq![d].add(rest@[r1]@));
                        assert(rest@[r1]@ != rest@[ri - 1]@);
                        if result@[i1]@ == result@[i2]@ {
                            assert forall|e: int| 0 <= e < rest@[r1]@.len()
                                implies rest@[r1]@[e] == rest@[ri - 1]@[e] by {
                                assert(result@[i1]@[e + 1] == result@[i2]@[e + 1]);
                            }
                            assert(rest@[r1]@ =~= rest@[ri - 1]@);
                        }
                    }
                }
            }
        }
        di = di + 1;
        proof {
            assert(di * rest@.len() == (di - 1) * rest@.len() + rest@.len())
                by (nonlinear_arith);
            if di < row.len() {
                assert(cands@[j as int]@[di as int - 1] < cands@[j as int]@[di as int]);
            }
        }
    }
    proof {
        // Every selection appears: find the rows' indices of its entries.
        let ell = rest@.len() as int;
        assert forall|t: Seq<u8>| #[trigger] is_selection(t, cands@, j as int)
            implies exists|i: int| 0 <= i < result@.len()
                && (#[trigger] result@[i])@ == t by {
            assert(cands@[j as int + 0]@.contains(t[0]));
            let di0 = choose|di0: int| 0 <= di0 < row@.len() && row@[di0] == t[0];
            let ts = t.skip(1);
            assert(is_selection(ts, cands@, j as int + 1)) by {
                assert(forall|i2: int| 0 <= i2 < ts.len()
                    ==> #[trigger] ts[i2] == t[i2 + 1]);
            }
            let ri0 = choose|ri0: int| 0 <= ri0 < rest@.len()
                && (#[trigger] rest@[ri0])@ == ts;
            let idx = di0 * ell + ri0;
            let rl = row@.len() as int;
            assert(0 <= idx && idx < rl * ell) by (nonlinear_arith)
                requires
                    0 <= di0 < rl,
                    0 <= ri0 < ell,
                    idx == di0 * ell + ri0,
            ;
            assert(result@.len() == rl * ell) by (nonlinear_arith)
                requires
                    result@.len() == row@.len() * rest@.len(),
                    rl == row@.len() as int,
                    ell == rest@.len() as int,
            ;
            assert(result@[idx]@ == seq![row@[di0]].add(rest@[ri0]@));
            assert(result@[idx]@ =~= t);
        }
    }
    result
}

} // verus!

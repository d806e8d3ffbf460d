//! Levenshtein edit distance: the metric the index is built on.
//!
//! `lev` is the mathematical definition; `levenshtein` computes it with the
//! usual dynamic program. The lemmas establish that `lev` is a metric
//! (identity, symmetry, triangle inequality), which is what makes the
//! BK-tree pruning in `tree` sound.

use vstd::prelude::*;
use vstd::string::StrSliceExecFns;

verus! {

/// Minimum of three naturals.
pub open spec fn min3(x: nat, y: nat, z: nat) -> nat {
    if x <= y && x <= z {
        x
    } else if y <= z {
        y
    } else {
        z
    }
}

/// Levenshtein edit distance between two character sequences: the least
/// number of single-character insertions, deletions and substitutions
/// that turn `a` into `b`.
pub open spec fn lev(a: Seq<char>, b: Seq<char>) -> nat
    decreases a.len() + b.len(),
{
    if a.len() == 0 {
        b.len()
    } else if b.len() == 0 {
        a.len()
    } else {
        let cost: nat = if a.last() == b.last() {
            0
        } else {
            1
        };
        min3(
            lev(a.drop_last(), b.drop_last()) + cost,
            lev(a.drop_last(), b) + 1,
            lev(a, b.drop_last()) + 1,
        )
    }
}

/// A sequence is at distance zero from itself.
pub proof fn lemma_lev_self(a: Seq<char>)
    ensures
        lev(a, a) == 0,
    decreases a.len(),
{
    if a.len() > 0 {
        lemma_lev_self(a.drop_last());
    }
}

/// Distance zero only holds between equal sequences.
pub proof fn lemma_lev_zero(a: Seq<char>, b: Seq<char>)
    requires
        lev(a, b) == 0,
    ensures
        a == b,
    decreases a.len() + b.len(),
{
    if a.len() == 0 {
        assert(a =~= b);
    } else if b.len() == 0 {
        assert(false);
    } else {
        assert(lev(a.drop_last(), b.drop_last()) == 0);
        assert(a.last() == b.last());
        lemma_lev_zero(a.drop_last(), b.drop_last());
        assert(a =~= b) by {
            assert(a.len() == b.len());
            assert(forall|i: int|
                0 <= i < a.len() - 1 ==> a[i] == a.drop_last()[i] && b[i] == b.drop_last()[i]);
        }
    }
}

/// The distance never exceeds the sum of the lengths.
pub proof fn lemma_lev_le_sum(a: Seq<char>, b: Seq<char>)
    ensures
        lev(a, b) <= a.len() + b.len(),
    decreases a.len() + b.len(),
{
    if a.len() > 0 && b.len() > 0 {
        lemma_lev_le_sum(a.drop_last(), b.drop_last());
    }
}

/// The distance never exceeds the length of the longer sequence.
pub proof fn lemma_lev_le_max(a: Seq<char>, b: Seq<char>)
    ensures
        lev(a, b) <= a.len() || lev(a, b) <= b.len(),
        lev(a, b) <= a.len() + b.len(),
    decreases a.len() + b.len(),
{
    lemma_lev_le_sum(a, b);
    if a.len() > 0 && b.len() > 0 {
        lemma_lev_le_max(a.drop_last(), b.drop_last());
    }
}

/// The distance is at least the difference of the lengths.
pub proof fn lemma_lev_ge_diff(a: Seq<char>, b: Seq<char>)
    ensures
        lev(a, b) + a.len() >= b.len(),
        lev(a, b) + b.len() >= a.len(),
    decreases a.len() + b.len(),
{
    if a.len() > 0 && b.len() > 0 {
        lemma_lev_ge_diff(a.drop_last(), b.drop_last());
        lemma_lev_ge_diff(a.drop_last(), b);
        lemma_lev_ge_diff(a, b.drop_last());
    }
}

/// The distance is symmetric.
pub proof fn lemma_lev_sym(a: Seq<char>, b: Seq<char>)
    ensures
        lev(a, b) == lev(b, a),
    decreases a.len() + b.len(),
{
    if a.len() > 0 && b.len() > 0 {
        lemma_lev_sym(a.drop_last(), b.drop_last());
        lemma_lev_sym(a.drop_last(), b);
        lemma_lev_sym(a, b.drop_last());
    }
}

/// The triangle inequality: editing `a` into `b` and then `b` into `c`
/// gives one way of editing `a` into `c`.
pub proof fn lemma_lev_triangle(a: Seq<char>, b: Seq<char>, c: Seq<char>)
    ensures
        lev(a, c) <= lev(a, b) + lev(b, c),
    decreases a.len() + b.len() + c.len(),
{
    if b.len() == 0 {
        lemma_lev_le_sum(a, c);
    } else if a.len() == 0 {
        lemma_lev_ge_diff(b, c);
    } else if c.len() == 0 {
        lemma_lev_ge_diff(a, b);
    } else {
        let a1 = a.drop_last();
        let b1 = b.drop_last();
        let c1 = c.drop_last();
        if lev(a, b) == lev(a1, b) + 1 {
            lemma_lev_triangle(a1, b, c);
            assert(lev(a, c) <= lev(a1, c) + 1);
        } else if lev(b, c) == lev(b, c1) + 1 {
            lemma_lev_triangle(a, b, c1);
            assert(lev(a, c) <= lev(a, c1) + 1);
        } else if lev(a, b) == lev(a, b1) + 1 && lev(b, c) == lev(b1, c) + 1 {
            lemma_lev_triangle(a, b1, c);
        } else {
            let cost_ab: nat = if a.last() == b.last() {
                0
            } else {
                1
            };
            let cost_bc: nat = if b.last() == c.last() {
                0
            } else {
                1
            };
            if lev(a, b) == lev(a1, b1) + cost_ab && lev(b, c) == lev(b1, c) + 1 {
                lemma_lev_triangle(a1, b1, c);
                assert(lev(a, c) <= lev(a1, c) + 1);
            } else if lev(a, b) == lev(a, b1) + 1 && lev(b, c) == lev(b1, c1) + cost_bc {
                lemma_lev_triangle(a, b1, c1);
                assert(lev(a, c) <= lev(a, c1) + 1);
            } else {
                assert(lev(a, b) == lev(a1, b1) + cost_ab);
                assert(lev(b, c) == lev(b1, c1) + cost_bc);
                lemma_lev_triangle(a1, b1, c1);
                let cost_ac: nat = if a.last() == c.last() {
                    0
                } else {
                    1
                };
                assert(lev(a, c) <= lev(a1, c1) + cost_ac);
                assert(cost_ac <= cost_ab + cost_bc);
            }
        }
    }
}

/// The characters of a string slice, in order, as a vector.
pub fn chars_of(s: &str) -> (r: Vec<char>)
    ensures
        r@ == s@,
{
    let n = s.unicode_len();
    let mut r: Vec<char> = Vec::new();
    let mut i: usize = 0;
    while i < n
        invariant
            i <= n,
            n == s@.len(),
            r@ == s@.take(i as int),
        decreases n - i,
    {
        let c = s.get_char(i);
        r.push(c);
        proof {
            assert(s@.take(i as int + 1) =~= s@.take(i as int).push(s@[i as int]));
        }
        i += 1;
    }
    proof {
        assert(s@.take(n as int) =~= s@);
    }
    r
}

/// Levenshtein distance, computed row by row over prefixes of `a` and `b`.
pub fn levenshtein(a: &Vec<char>, b: &Vec<char>) -> (d: usize)
    ensures
        d as nat == lev(a@, b@),
{
    let m = a.len();
    let n = b.len();
    let mut prev: Vec<usize> = Vec::new();
    while prev.len() <= n
        invariant
            n == b@.len(),
            prev@.len() <= n + 1,
            forall|k: int| 0 <= k < prev@.len() ==> prev@[k] == lev(a@.take(0), b@.take(k)),
        decreases n + 1 - prev.len(),
    {
        let j = prev.len();
        prev.push(j);
        proof {
            assert(b@.take(j as int).len() == j);
        }
    }
    let mut i: usize = 0;
    while i < m
        invariant
            m == a@.len(),
            n == b@.len(),
            i <= m,
            prev@.len() == n + 1,
            forall|k: int| 0 <= k <= n ==> prev@[k] == lev(a@.take(i as int), b@.take(k)),
        decreases m - i,
    {
        let mut cur: Vec<usize> = Vec::new();
        cur.push(i + 1);
        proof {
            assert(a@.take(i as int + 1).len() == i + 1);
            assert(lev(a@.take(i as int + 1), b@.take(0)) == i + 1);
        }
        let mut j: usize = 0;
        while j < n
            invariant
                m == a@.len(),
                n == b@.len(),
                i < m,
                j <= n,
                prev@.len() == n + 1,
                forall|k: int| 0 <= k <= n ==> prev@[k] == lev(a@.take(i as int), b@.take(k)),
                cur@.len() == j + 1,
                forall|k: int| 0 <= k <= j ==> cur@[k] == lev(a@.take(i as int + 1), b@.take(k)),
            decreases n - j,
        {
            proof {
                lemma_lev_le_max(a@.take(i as int), b@.take(j as int));
                lemma_lev_le_max(a@.take(i as int), b@.take(j as int + 1));
                lemma_lev_le_max(a@.take(i as int + 1), b@.take(j as int));
                assert(a@.take(i as int + 1).last() == a@[i as int]);
                assert(b@.take(j as int + 1).last() == b@[j as int]);
                assert(a@.take(i as int + 1).drop_last() =~= a@.take(i as int));
                assert(b@.take(j as int + 1).drop_last() =~= b@.take(j as int));
            }
            let cost: usize = if a[i] == b[j] {
                0
            } else {
                1
            };
            let c1 = prev[j] + cost;
            let c2 = if prev[j + 1] < c1 {
                prev[j + 1] + 1
            } else {
                c1
            };
            let c3 = if cur[j] < c2 {
                cur[j] + 1
            } else {
                c2
            };
            proof {
                assert(c3 as nat == min3(
                    lev(a@.take(i as int), b@.take(j as int)) + (if a@[i as int] == b@[j as int] {
                        0nat
                    } else {
                        1nat
                    }),
                    lev(a@.take(i as int), b@.take(j as int + 1)) + 1,
                    lev(a@.take(i as int + 1), b@.take(j as int)) + 1,
                ));
            }
            cur.push(c3);
            j += 1;
        }
        prev = cur;
        i += 1;
    }
    proof {
        assert(a@.take(m as int) =~= a@);
        assert(b@.take(n as int) =~= b@);
    }
    prev[n]
}

} // verus!

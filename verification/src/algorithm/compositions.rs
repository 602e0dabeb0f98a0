//! Enumeration of the ways to write a number as an ordered sum of a fixed
//! number of non-negative parts, in descending lexicographic order.

use vstd::prelude::*;

verus! {

broadcast use vstd::slice::group_slice_axioms;

/// Sum of the parts of `c` from position `from` to the end.
pub open spec fn suffix_sum(c: Seq<u32>, from: int) -> int
    decreases c.len() - from,
{
    if from >= c.len() || from < 0 {
        0
    } else {
        c[from] + suffix_sum(c, from + 1)
    }
}

/// `c` writes `n` as an ordered sum of `k` parts.
pub open spec fn is_composition(c: Seq<u32>, n: nat, k: nat) -> bool {
    c.len() == k && suffix_sum(c, 0) == n
}

/// Binomial coefficient, by Pascal's rule.
pub open spec fn binomial(a: nat, b: nat) -> nat
    decreases a,
{
    if b == 0 {
        1
    } else if a == 0 {
        0
    } else {
        binomial((a - 1) as nat, (b - 1) as nat) + binomial((a - 1) as nat, b)
    }
}

/// Number of compositions of `n` into `k` parts.
pub open spec fn composition_count(n: nat, k: nat) -> nat
    decreases n + k,
{
    if k == 0 {
        if n == 0 { 1 } else { 0 }
    } else if k == 1 || n == 0 {
        1
    } else {
        composition_count((n - 1) as nat, k) + composition_count(n, (k - 1) as nat)
    }
}

/// The greatest position below `upto` that holds a non-zero part, or -1.
pub open spec fn last_nonzero(c: Seq<u32>, upto: int) -> int
    decreases upto,
{
    if upto <= 0 {
        -1
    } else if c[upto - 1] > 0 {
        upto - 1
    } else {
        last_nonzero(c, upto - 1)
    }
}

/// The position that the successor step takes one from: the last non-zero
/// part, the final part left aside.
pub open spec fn pivot(c: Seq<u32>) -> int {
    last_nonzero(c, c.len() - 1)
}

/// The first composition of `n` into `k` parts: everything in the first part.
pub open spec fn first_composition(n: nat, k: nat) -> Seq<u32> {
    Seq::new(k, |j: int| if j == 0 { n as u32 } else { 0u32 })
}

/// The last composition of `n` into `k` parts: everything in the final part.
pub open spec fn last_composition(n: nat, k: nat) -> Seq<u32> {
    Seq::new(k, |j: int| if j == k - 1 { n as u32 } else { 0u32 })
}

/// The composition that follows `c`: one unit leaves the pivot, and the part
/// after the pivot receives it together with what the final part held.
pub open spec fn next_composition(c: Seq<u32>) -> Seq<u32> {
    let p = pivot(c);
    Seq::new(
        c.len(),
        |j: int|
            if j == p {
                (c[p] - 1) as u32
            } else if j == p + 1 {
                (c[c.len() - 1] + 1) as u32
            } else if j > p + 1 {
                0u32
            } else {
                c[j]
            },
    )
}

/// The composition visited at step `i`, counting from 0.
pub open spec fn composition_at(n: nat, k: nat, i: nat) -> Seq<u32>
    decreases i,
{
    if i == 0 {
        first_composition(n, k)
    } else {
        next_composition(composition_at(n, k, (i - 1) as nat))
    }
}

/// How many compositions of the same number into the same count of parts come
/// before `c`, looking only at the parts from `from` on.
pub open spec fn rank_from(c: Seq<u32>, from: int) -> int
    decreases c.len() - from,
{
    if from < 0 || from >= c.len() - 1 {
        0
    } else {
        let rest = suffix_sum(c, from + 1);
        (if rest >= 1 {
            composition_count((rest - 1) as nat, (c.len() - from) as nat) as int
        } else {
            0
        }) + rank_from(c, from + 1)
    }
}

/// The place of `c` in the descending lexicographic order.
pub open spec fn rank(c: Seq<u32>) -> int {
    rank_from(c, 0)
}


proof fn lemma_count_step(m: nat, t: nat)
    requires
        t >= 2,
    ensures
        composition_count(m, t) == (if m >= 1 {
            composition_count((m - 1) as nat, t)
        } else {
            0
        }) + composition_count(m, (t - 1) as nat),
{
    if m == 0 {
        assert(composition_count(0, (t - 1) as nat) == 1);
    }
}

proof fn lemma_count_positive(n: nat, k: nat)
    requires
        k >= 1,
    ensures
        composition_count(n, k) >= 1,
    decreases n + k,
{
    if k >= 2 && n >= 1 {
        lemma_count_positive(n, (k - 1) as nat);
    }
}

proof fn lemma_count_monotone(n: nat, m: nat, k: nat)
    requires
        k >= 1,
        n <= m,
    ensures
        composition_count(n, k) <= composition_count(m, k),
    decreases m - n,
{
    if n < m {
        lemma_count_monotone(n, (m - 1) as nat, k);
        if k >= 2 {
            lemma_count_step(m, k);
        }
    }
}

proof fn lemma_binomial_above(a: nat, b: nat)
    requires
        b > a,
    ensures
        binomial(a, b) == 0,
    decreases a,
{
    if a > 0 {
        lemma_binomial_above((a - 1) as nat, (b - 1) as nat);
        lemma_binomial_above((a - 1) as nat, b);
    }
}

proof fn lemma_binomial_full(a: nat)
    ensures
        binomial(a, a) == 1,
    decreases a,
{
    if a > 0 {
        lemma_binomial_full((a - 1) as nat);
        lemma_binomial_above((a - 1) as nat, a);
    }
}

/// The number of compositions of `n` into `k >= 1` parts is the binomial
/// coefficient of `n + k - 1` over `k - 1`.
pub proof fn lemma_count_is_binomial(n: nat, k: nat)
    requires
        k >= 1,
    ensures
        composition_count(n, k) == binomial((n + k - 1) as nat, (k - 1) as nat),
    decreases n + k,
{
    if k == 1 {
    } else if n == 0 {
        lemma_binomial_full((k - 1) as nat);
    } else {
        lemma_count_is_binomial((n - 1) as nat, k);
        lemma_count_is_binomial(n, (k - 1) as nat);
    }
}

proof fn lemma_suffix_zero(c: Seq<u32>, from: int)
    requires
        0 <= from,
        forall|j: int| from <= j < c.len() ==> c[j] == 0,
    ensures
        suffix_sum(c, from) == 0,
    decreases c.len() - from,
{
    if from < c.len() {
        lemma_suffix_zero(c, from + 1);
    }
}

proof fn lemma_suffix_bounds(c: Seq<u32>, from: int, j: int)
    requires
        0 <= from <= j < c.len(),
    ensures
        suffix_sum(c, from) >= c[j] + suffix_sum(c, j + 1),
        suffix_sum(c, j + 1) >= 0,
        suffix_sum(c, from) >= suffix_sum(c, j),
    decreases j - from,
{
    lemma_suffix_nonneg(c, j + 1);
    if from < j {
        lemma_suffix_bounds(c, from + 1, j);
    }
}

proof fn lemma_suffix_nonneg(c: Seq<u32>, from: int)
    ensures
        suffix_sum(c, from) >= 0,
    decreases c.len() - from,
{
    if 0 <= from < c.len() {
        lemma_suffix_nonneg(c, from + 1);
    }
}

/// Two sequences that agree before `p` and carry the same sum from `p` on
/// carry the same sum from every earlier position on.
proof fn lemma_suffix_prefix(c: Seq<u32>, d: Seq<u32>, p: int, i: int)
    requires
        0 <= i <= p <= c.len(),
        c.len() == d.len(),
        forall|j: int| 0 <= j < p ==> c[j] == d[j],
        suffix_sum(c, p) == suffix_sum(d, p),
    ensures
        suffix_sum(c, i) == suffix_sum(d, i),
    decreases p - i,
{
    if i < p {
        lemma_suffix_prefix(c, d, p, i + 1);
    }
}

proof fn lemma_last_nonzero(c: Seq<u32>, upto: int)
    requires
        0 <= upto <= c.len(),
    ensures
        -1 <= last_nonzero(c, upto) < upto,
        last_nonzero(c, upto) >= 0 ==> c[last_nonzero(c, upto)] > 0,
        forall|j: int| last_nonzero(c, upto) < j < upto ==> c[j] == 0,
    decreases upto,
{
    if upto > 0 && c[upto - 1] == 0 {
        lemma_last_nonzero(c, upto - 1);
    }
}

proof fn lemma_pivot_is(c: Seq<u32>, p: int)
    requires
        c.len() >= 1,
        0 <= p < c.len() - 1,
        c[p] > 0,
        forall|j: int| p < j < c.len() - 1 ==> c[j] == 0,
    ensures
        pivot(c) == p,
{
    lemma_last_nonzero(c, c.len() - 1);
}

/// The last composition of its block: zeros from `i` up to the final part.
proof fn lemma_rank_last(c: Seq<u32>, i: int)
    requires
        0 <= i <= c.len() - 1,
        forall|j: int| i <= j < c.len() - 1 ==> c[j] == 0,
    ensures
        rank_from(c, i) == composition_count(c[c.len() - 1] as nat, (c.len() - i) as nat) - 1,
        suffix_sum(c, i) == c[c.len() - 1],
    decreases c.len() - i,
{
    let last = c.len() - 1;
    if i == last {
        assert(suffix_sum(c, last + 1) == 0);
    } else {
        lemma_rank_last(c, i + 1);
        lemma_count_step(c[last] as nat, (c.len() - i) as nat);
    }
}

/// The first composition of its block: zeros after position `i`.
proof fn lemma_rank_first(c: Seq<u32>, i: int)
    requires
        0 <= i,
        forall|j: int| i < j < c.len() ==> c[j] == 0,
    ensures
        rank_from(c, i) == 0,
    decreases c.len() - i,
{
    if i < c.len() - 1 {
        lemma_suffix_zero(c, i + 1);
        lemma_rank_first(c, i + 1);
    }
}

proof fn lemma_rank_prefix(c: Seq<u32>, d: Seq<u32>, p: int, i: int)
    requires
        0 <= i <= p <= c.len() - 1,
        c.len() == d.len(),
        forall|j: int| 0 <= j < p ==> c[j] == d[j],
        suffix_sum(c, p) == suffix_sum(d, p),
    ensures
        rank_from(c, i) - rank_from(c, p) == rank_from(d, i) - rank_from(d, p),
    decreases p - i,
{
    if i < p {
        lemma_rank_prefix(c, d, p, i + 1);
        lemma_suffix_prefix(c, d, p, i + 1);
    }
}

proof fn lemma_rank_bound(c: Seq<u32>, i: int)
    requires
        0 <= i <= c.len() - 1,
    ensures
        0 <= rank_from(c, i) <= composition_count(suffix_sum(c, i) as nat, (c.len() - i) as nat)
            - 1,
    decreases c.len() - i,
{
    lemma_suffix_nonneg(c, i);
    lemma_suffix_nonneg(c, i + 1);
    let t = (c.len() - i) as nat;
    if i == c.len() - 1 {
    } else {
        lemma_rank_bound(c, i + 1);
        let rest = suffix_sum(c, i + 1) as nat;
        lemma_count_step(rest, t);
        lemma_count_monotone(rest, suffix_sum(c, i) as nat, t);
    }
}

/// The successor keeps the sum and comes one place later in the order.
proof fn lemma_next_rank(c: Seq<u32>)
    requires
        c.len() >= 1,
        pivot(c) >= 0,
        suffix_sum(c, 0) <= u32::MAX,
    ensures
        next_composition(c).len() == c.len(),
        suffix_sum(next_composition(c), 0) == suffix_sum(c, 0),
        rank(next_composition(c)) == rank(c) + 1,
{
    let d = next_composition(c);
    let p = pivot(c);
    let last = c.len() - 1;
    let m = c[last];
    let t = (c.len() - p) as nat;
    lemma_last_nonzero(c, last);
    lemma_suffix_bounds(c, 0, p);
    lemma_suffix_bounds(c, p + 1, last);
    assert(suffix_sum(c, last + 1) == 0);
    // the old tail: zeros after the pivot, then the final part
    lemma_rank_last(c, p + 1);
    // the new tail: everything in the part after the pivot
    assert(d[p + 1] == m + 1);
    assert(forall|j: int| p + 1 < j < d.len() ==> d[j] == 0);
    lemma_rank_first(d, p + 1);
    lemma_suffix_zero(d, p + 2);
    assert(suffix_sum(d, p + 1) == m + 1);
    assert(suffix_sum(c, p + 1) == m);
    assert(suffix_sum(d, p) == suffix_sum(c, p));
    lemma_suffix_prefix(c, d, p, 0);
    lemma_rank_prefix(c, d, p, 0);
    lemma_count_step(m as nat, t);
}

/// Each of the first `composition_count(n, k)` steps visits a composition of
/// `n` into `k` parts, and the composition visited at step `i` has rank `i`.
pub proof fn lemma_composition_at(n: nat, k: nat, i: nat)
    requires
        k >= 1,
        n <= u32::MAX,
        i < composition_count(n, k),
    ensures
        is_composition(composition_at(n, k, i), n, k),
        rank(composition_at(n, k, i)) == i,
    decreases i,
{
    if i == 0 {
        let c = first_composition(n, k);
        lemma_rank_first(c, 0);
        lemma_suffix_zero(c, 1);
    } else {
        lemma_composition_at(n, k, (i - 1) as nat);
        let c = composition_at(n, k, (i - 1) as nat);
        lemma_last_nonzero(c, c.len() - 1);
        if pivot(c) < 0 {
            lemma_rank_last(c, 0);
        }
        lemma_next_rank(c);
    }
}

/// No composition is visited twice.
pub proof fn lemma_compositions_distinct(n: nat, k: nat, i: nat, j: nat)
    requires
        k >= 1,
        n <= u32::MAX,
        i < composition_count(n, k),
        j < composition_count(n, k),
        i != j,
    ensures
        composition_at(n, k, i) != composition_at(n, k, j),
{
    lemma_composition_at(n, k, i);
    lemma_composition_at(n, k, j);
}

/// The final step visits the composition that holds everything in its final
/// part.
pub proof fn lemma_last_step(n: nat, k: nat)
    requires
        k >= 1,
        n <= u32::MAX,
    ensures
        composition_count(n, k) >= 1,
        rank(last_composition(n, k)) == composition_count(n, k) - 1,
        is_composition(last_composition(n, k), n, k),
{
    lemma_count_positive(n, k);
    lemma_rank_last(last_composition(n, k), 0);
}

proof fn lemma_rank_injective(c: Seq<u32>, d: Seq<u32>, i: int)
    requires
        c.len() == d.len(),
        0 <= i <= c.len() - 1,
        suffix_sum(c, i) == suffix_sum(d, i),
        rank_from(c, i) == rank_from(d, i),
    ensures
        forall|j: int| i <= j < c.len() ==> c[j] == d[j],
    decreases c.len() - i,
{
    if i == c.len() - 1 {
        assert(suffix_sum(c, i + 1) == 0);
        assert(suffix_sum(d, i + 1) == 0);
    } else {
        let t = (c.len() - i) as nat;
        let rc = suffix_sum(c, i + 1);
        let rd = suffix_sum(d, i + 1);
        lemma_suffix_nonneg(c, i + 1);
        lemma_suffix_nonneg(d, i + 1);
        lemma_rank_bound(c, i + 1);
        lemma_rank_bound(d, i + 1);
        if rc < rd {
            lemma_count_step(rc as nat, t);
            lemma_count_monotone(rc as nat, (rd - 1) as nat, t);
            assert(false);
        } else if rd < rc {
            lemma_count_step(rd as nat, t);
            lemma_count_monotone(rd as nat, (rc - 1) as nat, t);
            assert(false);
        } else {
            lemma_rank_injective(c, d, i + 1);
        }
    }
}

/// Every composition of `n` into `k` parts is visited, at the step that its
/// rank gives.
pub proof fn lemma_every_composition_visited(c: Seq<u32>, n: nat, k: nat)
    requires
        k >= 1,
        n <= u32::MAX,
        is_composition(c, n, k),
    ensures
        0 <= rank(c) < composition_count(n, k),
        composition_at(n, k, rank(c) as nat) == c,
{
    lemma_rank_bound(c, 0);
    lemma_composition_at(n, k, rank(c) as nat);
    lemma_rank_injective(c, composition_at(n, k, rank(c) as nat), 0);
    assert(composition_at(n, k, rank(c) as nat) =~= c);
}

/// The number of compositions of `n` into `k` parts: the binomial coefficient
/// of `n + k - 1` over `k - 1`.
pub open spec fn visits(n: nat, k: nat) -> nat {
    binomial((n + k - 1) as nat, (k - 1) as nat)
}

/// The call of `f` at step `i` gave `r`.
pub open spec fn answered<T, F: Fn(&[u32]) -> Option<T>>(
    f: &F,
    n: nat,
    k: nat,
    i: nat,
    r: Option<T>,
) -> bool {
    exists|s: &[u32]| s@ == composition_at(n, k, i) && #[trigger] f.ensures((s,), r)
}

/// Calls `f` on each composition of `n` into `basket_count` parts, in
/// descending lexicographic order, until `f` gives a result, and returns that
/// result; `None` when `f` gave none on any of them.
pub fn do_for_each_distribution<T, F: Fn(&[u32]) -> Option<T>>(
    n: u32,
    basket_count: usize,
    f: F,
) -> (r: Option<T>)
    requires
        basket_count >= 1,
        forall|s: &[u32]|
            is_composition(s@, n as nat, basket_count as nat) ==> #[trigger] f.requires((s,)),
    ensures
        match r {
            Some(v) => exists|i: nat|
                i < visits(n as nat, basket_count as nat) && #[trigger] answered(
                    &f,
                    n as nat,
                    basket_count as nat,
                    i,
                    Some(v),
                ) && forall|j: nat|
                    j < i ==> #[trigger] answered(&f, n as nat, basket_count as nat, j, None),
            None => forall|j: nat|
                j < visits(n as nat, basket_count as nat) ==> #[trigger] answered(
                    &f,
                    n as nat,
                    basket_count as nat,
                    j,
                    None,
                ),
        },
{
    let ghost gn = n as nat;
    let ghost gk = basket_count as nat;
    proof {
        lemma_count_is_binomial(gn, gk);
    }
    let mut baskets: Vec<u32> = Vec::new();
    let mut fill: usize = 0;
    while fill < basket_count
        invariant
            fill <= basket_count,
            baskets.len() == fill,
            forall|j: int| 0 <= j < fill ==> baskets[j] == (if j == 0 { n } else { 0u32 }),
        decreases basket_count - fill,
    {
        baskets.push(if fill == 0 { n } else { 0 });
        fill += 1;
    }
    assert(baskets@ =~= first_composition(gn, gk));
    proof {
        lemma_count_positive(gn, gk);
        lemma_composition_at(gn, gk, 0);
    }
    let first = f(baskets.as_slice());
    if let Some(v) = first {
        assert(answered(&f, gn, gk, 0, Some(v)));
        return Some(v);
    }
    assert(answered(&f, gn, gk, 0, None::<T>));
    let ghost mut step: nat = 0;
    let mut index: usize = 0;
    let mut last_start: usize = 1;
    loop
        invariant
            basket_count >= 1,
            gn == n,
            gk == basket_count,
            baskets.len() == basket_count,
            composition_count(gn, gk) == visits(gn, gk),
            step < composition_count(gn, gk),
            baskets@ == composition_at(gn, gk, step),
            is_composition(baskets@, gn, gk),
            rank(baskets@) == step,
            forall|j: nat| j <= step ==> #[trigger] answered(&f, gn, gk, j, None),
            index < basket_count,
            1 <= last_start <= index + 1,
            index < basket_count - 1 ==> baskets[index as int] >= 1 || n == 0,
            forall|j: int| index < j < basket_count ==> baskets[j] == 0,
            forall|j: int| last_start < j < index ==> baskets[j] == 0,
            index > last_start ==> baskets[index as int] == 1,
            forall|s: &[u32]| is_composition(s@, gn, gk) ==> #[trigger] f.requires((s,)),
        ensures
            forall|j: nat| j < composition_count(gn, gk) ==> #[trigger] answered(&f, gn, gk, j, None),
        decreases composition_count(gn, gk) - step,
    {
        let ghost before = baskets@;
        if index == basket_count - 1 {
            let buf = baskets[index];
            proof {
                lemma_suffix_bounds(before, 0, index as int);
                assert(suffix_sum(before, index + 1) == 0);
            }
            if buf == n {
                proof {
                    assert(before =~= last_composition(gn, gk)) by {
                        assert forall|j: int| 0 <= j < gk implies before[j] == last_composition(
                            gn,
                            gk,
                        )[j] by {
                            if j < index {
                                lemma_suffix_bounds(before, 0, j);
                                lemma_suffix_bounds(before, j + 1, index as int);
                            }
                        }
                    }
                    lemma_last_step(gn, gk);
                }
                break ;
            }
            proof {
                // something is left before the final part, at or below last_start
                if forall|j: int| 0 <= j < index ==> before[j] == 0 {
                    lemma_rank_last(before, 0);
                }
            }
            let ghost witness = choose|j: int| 0 <= j < index && before[j] != 0;
            baskets.set(index, 0);
            let ghost zeroed = baskets@;
            assert(zeroed =~= before.update(basket_count - 1, 0u32));
            assert(baskets[witness] != 0);
            index = last_start;
            if index > basket_count - 1 {
                index = basket_count - 1;
            }
            while baskets[index] == 0
                invariant
                    index < basket_count,
                    baskets.len() == basket_count,
                    baskets@ == zeroed,
                    forall|j: int| index < j < basket_count ==> baskets[j] == 0,
                    exists|j: int| 0 <= j < basket_count && baskets[j] != 0,
                decreases index,
            {
                index -= 1;
            }
            assert(index < basket_count - 1);
            last_start = index + 1;
            baskets.set(last_start, buf);
            proof {
                assert forall|j: int| index < j < basket_count - 1 implies before[j] == 0 by {
                    assert(zeroed[j] == 0);
                }
                assert(before[index as int] == zeroed[index as int]);
                lemma_pivot_is(before, index as int);
                lemma_suffix_bounds(before, 0, index as int);
                lemma_suffix_bounds(before, index + 1, basket_count - 1);
            }
        } else {
            if n == 0 {
                proof {
                    lemma_suffix_bounds(before, 0, 0);
                    assert forall|j: int| 0 <= j < gk implies before[j] == 0 by {
                        lemma_suffix_bounds(before, 0, j);
                    }
                    assert(before =~= last_composition(gn, gk));
                    lemma_last_step(gn, gk);
                }
                break ;
            }
            proof {
                lemma_pivot_is(before, index as int);
                lemma_suffix_bounds(before, 0, index as int);
            }
        }
        let ghost p = index as int;
        assert(pivot(before) == p);
        let here = baskets[index];
        baskets.set(index, here - 1);
        let after = baskets[index + 1];
        baskets.set(index + 1, after + 1);
        index += 1;
        proof {
            assert(baskets@ =~= next_composition(before));
            lemma_next_rank(before);
            step = step + 1;
            lemma_rank_bound(baskets@, 0);
        }
        let given = f(baskets.as_slice());
        if let Some(v) = given {
            assert(answered(&f, gn, gk, step, Some(v)));
            return Some(v);
        }
        assert(answered(&f, gn, gk, step, None::<T>));
    }
    None
}

} // verus!

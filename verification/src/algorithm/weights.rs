//! How many decorations of each slot size close a deficit of one skill.

use vstd::prelude::*;

verus! {

/// The least number of items worth `b` points each that reach `a` points.
pub open spec fn ceil_div(a: int, b: int) -> int {
    if a <= 0 {
        0
    } else {
        (a + b - 1) / b
    }
}

/// The part of `t` points that `n` items worth `s` points each account for.
pub open spec fn covered(t: int, s: int, n: int) -> int {
    if n * s < t {
        n * s
    } else {
        t
    }
}

/// The three numbers of an array, as integers.
pub open spec fn triple(a: [i32; 3]) -> (int, int, int) {
    (a[0] as int, a[1] as int, a[2] as int)
}

/// The counts per slot size, smallest size first, that close `t` points with
/// `n2` items of three slots and `n1` items of two slots: the items of one
/// slot make up what is left.
pub open spec fn candidate(t: int, s: (int, int, int), n2: int, n1: int) -> (int, int, int) {
    let left2 = t - covered(t, s.2, n2);
    let left1 = left2 - covered(left2, s.1, n1);
    (ceil_div(left1, s.0), n1, n2)
}

/// Neither count is more than what closes the deficit alone.
pub open spec fn in_range(t: int, s: (int, int, int), n2: int, n1: int) -> bool {
    0 <= n2 <= ceil_div(t, s.2) && 0 <= n1 <= ceil_div(t - covered(t, s.2, n2), s.1)
}

/// No size whose single item grants more than ten points is used twice.
pub open spec fn allowed(c: (int, int, int), s: (int, int, int)) -> bool {
    !(c.0 > 1 && s.0 > 10) && !(c.1 > 1 && s.1 > 10) && !(c.2 > 1 && s.2 > 10)
}

/// The counts `c` fit the slots `max`: the slots in all, the pieces of two or
/// three slots, the pieces of three slots.
pub open spec fn within_budget(c: (int, int, int), max: (int, int, int)) -> bool {
    c.2 <= max.2 && c.2 + c.1 <= max.1 && 3 * c.2 + 2 * c.1 + c.0 <= max.0
}

/// The candidate of `n2` and `n1` is one that the enumeration keeps.
pub open spec fn keeps(t: int, s: (int, int, int), max: (int, int, int), n2: int, n1: int) -> bool {
    in_range(t, s, n2, n1) && allowed(candidate(t, s, n2, n1), s) && within_budget(
        candidate(t, s, n2, n1),
        max,
    )
}

/// `c` is one of the entries of `r`.
pub open spec fn holds(r: Seq<[i32; 3]>, c: (int, int, int)) -> bool {
    exists|i: int| 0 <= i < r.len() && #[trigger] triple(r[i]) == c
}

/// `a` comes before `b`: more items of three slots, or as many and more of two.
pub open spec fn before(a: (int, int, int), b: (int, int, int)) -> bool {
    a.2 > b.2 || (a.2 == b.2 && a.1 > b.1)
}

/// `r` lists the counts that close `t` points with items worth `s`, within the
/// slots `max`: all that are kept, each once, those with more of the large
/// items first. For a deficit that is already closed it is the one entry of
/// no item at all.
pub open spec fn weights_for(t: int, s: (int, int, int), max: (int, int, int), r: Seq<[i32; 3]>) -> bool {
    if t <= 0 {
        r.len() == 1 && triple(r[0]) == (0int, 0int, 0int)
    } else {
        &&& forall|i: int|
            0 <= i < r.len() ==> keeps(t, s, max, (#[trigger] r[i])[2] as int, r[i][1] as int)
                && triple(r[i]) == candidate(t, s, r[i][2] as int, r[i][1] as int)
        &&& forall|n2: int, n1: int| #[trigger]
            keeps(t, s, max, n2, n1) ==> holds(r, candidate(t, s, n2, n1))
        &&& forall|i: int, j: int|
            0 <= i < j < r.len() ==> before(#[trigger] triple(r[i]), #[trigger] triple(r[j]))
    }
}

/// The least number of items is the least: it reaches the points, and one
/// item fewer does not.
pub proof fn lemma_ceil_div(a: int, b: int)
    requires
        b >= 1,
    ensures
        0 <= ceil_div(a, b),
        a > 0 ==> 1 <= ceil_div(a, b) <= a,
        a <= ceil_div(a, b) * b,
        a > 0 ==> (ceil_div(a, b) - 1) * b < a,
{
    if a > 0 {
        let q = (a + b - 1) / b;
        assert(q * b <= a + b - 1 < q * b + b && q >= 1 && q <= a) by (nonlinear_arith)
            requires
                q == (a + b - 1) / b,
                b >= 1,
                a >= 1,
        ;
        assert((q - 1) * b == q * b - b) by (nonlinear_arith);
    } else {
        assert(0 * b == 0);
    }
}

/// The counts of a candidate are not negative.
pub proof fn lemma_candidate_counts(t: int, s: (int, int, int), n2: int, n1: int)
    requires
        s.0 >= 1,
        s.1 >= 1,
        s.2 >= 1,
        in_range(t, s, n2, n1),
    ensures
        candidate(t, s, n2, n1).0 >= 0,
        candidate(t, s, n2, n1).1 >= 0,
        candidate(t, s, n2, n1).2 >= 0,
{
    let left2 = t - covered(t, s.2, n2);
    let left1 = left2 - covered(left2, s.1, n1);
    lemma_ceil_div(left1, s.0);
}

/// The counts of a candidate grant the points that were wanted.
pub proof fn lemma_candidate_closes(t: int, s: (int, int, int), n2: int, n1: int)
    requires
        s.0 >= 1,
        s.1 >= 1,
        s.2 >= 1,
        in_range(t, s, n2, n1),
    ensures
        candidate(t, s, n2, n1).0 * s.0 + candidate(t, s, n2, n1).1 * s.1 + candidate(
            t,
            s,
            n2,
            n1,
        ).2 * s.2 >= t,
{
    let left2 = t - covered(t, s.2, n2);
    let left1 = left2 - covered(left2, s.1, n1);
    lemma_ceil_div(left1, s.0);
}

fn ceil_div_exec(a: i64, b: i64) -> (q: i64)
    requires
        0 <= a <= i32::MAX,
        1 <= b <= i32::MAX,
    ensures
        q == ceil_div(a as int, b as int),
        0 <= q <= a,
{
    proof {
        lemma_ceil_div(a as int, b as int);
    }
    if a <= 0 {
        0
    } else {
        (a + b - 1) / b
    }
}

fn covered_exec(t: i64, s: i64, n: i64) -> (c: i64)
    requires
        0 <= t <= i32::MAX,
        1 <= s <= i32::MAX,
        0 <= n <= i32::MAX,
    ensures
        c == covered(t as int, s as int, n as int),
        0 <= c <= t,
{
    assert(0 <= n * s <= 0x7fff_ffff * 0x7fff_ffff) by (nonlinear_arith)
        requires
            0 <= n <= 0x7fff_ffff,
            1 <= s <= 0x7fff_ffff,
    ;
    let p = n * s;
    if p < t {
        p
    } else {
        t
    }
}

/// Lists the counts of decorations per slot size that close a deficit of
/// `target` points, where a decoration of size `i + 1` grants `summands[i]`
/// points, within the slots `max`.
pub fn get_weight_for_sum(target: i32, summands: &[i32; 3], max: &[i32; 3]) -> (r: Vec<[i32; 3]>)
    requires
        summands[0] >= 1,
        summands[1] >= 1,
        summands[2] >= 1,
    ensures
        weights_for(target as int, triple(*summands), triple(*max), r@),
{
    let mut results: Vec<[i32; 3]> = Vec::new();
    if target <= 0 {
        results.push([0, 0, 0]);
        return results;
    }
    let t = target as i64;
    let s0 = summands[0] as i64;
    let s1 = summands[1] as i64;
    let s2 = summands[2] as i64;
    let ghost gt = target as int;
    let ghost gs = triple(*summands);
    let ghost gm = triple(*max);
    let top2 = ceil_div_exec(t, s2);
    let mut n2: i64 = top2;
    while n2 >= 0
        invariant
            gt == target,
            gt > 0,
            t == target,
            gs == triple(*summands),
            gm == triple(*max),
            s0 == summands[0],
            s1 == summands[1],
            s2 == summands[2],
            s0 >= 1,
            s1 >= 1,
            s2 >= 1,
            top2 == ceil_div(gt, gs.2),
            top2 <= t,
            -1 <= n2 <= top2,
            forall|i: int|
                0 <= i < results.len() ==> keeps(
                    gt,
                    gs,
                    gm,
                    (#[trigger] results[i])[2] as int,
                    results[i][1] as int,
                ) && triple(results[i]) == candidate(
                    gt,
                    gs,
                    results[i][2] as int,
                    results[i][1] as int,
                ),
            forall|m2: int, m1: int|
                m2 > n2 && #[trigger] keeps(gt, gs, gm, m2, m1) ==> holds(
                    results@,
                    candidate(gt, gs, m2, m1),
                ),
            forall|i: int, j: int|
                0 <= i < j < results.len() ==> before(
                    #[trigger] triple(results[i]),
                    #[trigger] triple(results[j]),
                ),
            forall|i: int| 0 <= i < results.len() ==> (#[trigger] results[i])[2] > n2,
        decreases n2 + 1,
    {
        let left2 = t - covered_exec(t, s2, n2);
        let top1 = ceil_div_exec(left2, s1);
        let mut n1: i64 = top1;
        while n1 >= 0
            invariant
                gt == target,
                gt > 0,
                t == target,
                gs == triple(*summands),
                gm == triple(*max),
                s0 == summands[0],
                s1 == summands[1],
                s2 == summands[2],
                s0 >= 1,
                s1 >= 1,
                s2 >= 1,
                top2 == ceil_div(gt, gs.2),
                top2 <= t,
                0 <= n2 <= top2,
                left2 == gt - covered(gt, gs.2, n2 as int),
                0 <= left2 <= t,
                top1 == ceil_div(left2 as int, gs.1),
                top1 <= left2,
                -1 <= n1 <= top1,
                forall|i: int|
                    0 <= i < results.len() ==> keeps(
                        gt,
                        gs,
                        gm,
                        (#[trigger] results[i])[2] as int,
                        results[i][1] as int,
                    ) && triple(results[i]) == candidate(
                        gt,
                        gs,
                        results[i][2] as int,
                        results[i][1] as int,
                    ),
                forall|m2: int, m1: int|
                    (m2 > n2 || (m2 == n2 && m1 > n1)) && #[trigger] keeps(gt, gs, gm, m2, m1)
                        ==> holds(results@, candidate(gt, gs, m2, m1)),
                forall|i: int, j: int|
                    0 <= i < j < results.len() ==> before(
                        #[trigger] triple(results[i]),
                        #[trigger] triple(results[j]),
                    ),
                forall|i: int|
                    0 <= i < results.len() ==> (#[trigger] results[i])[2] > n2 || (results[i][2]
                        == n2 && results[i][1] > n1),
            decreases n1 + 1,
        {
            let left1 = left2 - covered_exec(left2, s1, n1);
            let n0 = ceil_div_exec(left1, s0);
            let ghost c = candidate(gt, gs, n2 as int, n1 as int);
            assert(c == (n0 as int, n1 as int, n2 as int));
            let ghost old_results = results@;
            if !(n0 > 1 && s0 > 10) && !(n1 > 1 && s1 > 10) && !(n2 > 1 && s2 > 10) && n2
                <= max[2] as i64 && n2 + n1 <= max[1] as i64 && 3 * n2 + 2 * n1 + n0
                <= max[0] as i64 {
                let entry: [i32; 3] = [n0 as i32, n1 as i32, n2 as i32];
                results.push(entry);
                proof {
                    assert(triple(entry) == c);
                    assert(results@[old_results.len() as int] == entry);
                    assert(holds(results@, c));
                    assert forall|m2: int, m1: int|
                        (m2 > n2 || (m2 == n2 && m1 > n1 - 1)) && #[trigger] keeps(
                            gt,
                            gs,
                            gm,
                            m2,
                            m1,
                        ) implies holds(results@, candidate(gt, gs, m2, m1)) by {
                        if m2 == n2 && m1 == n1 {
                        } else {
                            assert(holds(old_results, candidate(gt, gs, m2, m1)));
                            let w = choose|i: int|
                                0 <= i < old_results.len() && #[trigger] triple(old_results[i])
                                    == candidate(gt, gs, m2, m1);
                            assert(triple(results@[w]) == candidate(gt, gs, m2, m1));
                        }
                    }
                }
            } else {
                assert(!keeps(gt, gs, gm, n2 as int, n1 as int));
            }
            n1 -= 1;
        }
        proof {
            assert forall|m2: int, m1: int|
                m2 > n2 - 1 && #[trigger] keeps(gt, gs, gm, m2, m1) implies holds(
                results@,
                candidate(gt, gs, m2, m1),
            ) by {
                if m2 == n2 {
                    assert(m1 >= 0);
                }
            }
        }
        n2 -= 1;
    }
    results
}

} // verus!

//! The decoration solver is monotone: a smaller deficit is no harder to
//! close, and more slots do not hurt.

use crate::algorithm::decorate::{remaining, DecorationTables};
use crate::algorithm::weights::{
    allowed, candidate, ceil_div, covered, in_range, keeps, lemma_candidate_counts, lemma_ceil_div,
    triple, within_budget,
};
use vstd::array::spec_array_update;
use vstd::prelude::*;

verus! {

broadcast use vstd::array::group_array_axioms;

/// No skill lacks more points in `d1` than in `d2`.
pub open spec fn dominated(d1: Seq<i32>, d2: Seq<i32>) -> bool {
    d1.len() == d2.len() && forall|i: int| 0 <= i < d1.len() ==> d1[i] <= d2[i]
}

/// `b1` has as many slots of each kind as `b2`, or more.
pub open spec fn roomier(b1: (int, int, int), b2: (int, int, int)) -> bool {
    b1.0 >= b2.0 && b1.1 >= b2.1 && b1.2 >= b2.2
}

/// The counts that close `goal` with no more items of any size than `c`.
pub open spec fn shrink(goal: int, s: (int, int, int), c: (int, int, int)) -> (int, int, int) {
    if goal <= 0 {
        (0, 0, 0)
    } else {
        let top2 = ceil_div(goal, s.2);
        let n2 = if c.2 < top2 {
            c.2
        } else {
            top2
        };
        let left2 = goal - covered(goal, s.2, n2);
        let top1 = ceil_div(left2, s.1);
        let n1 = if c.1 < top1 {
            c.1
        } else {
            top1
        };
        candidate(goal, s, n2, n1)
    }
}

proof fn lemma_ceil_div_monotone(a: int, b: int, s: int)
    requires
        a <= b,
        s >= 1,
    ensures
        ceil_div(a, s) <= ceil_div(b, s),
{
    lemma_ceil_div(a, s);
    lemma_ceil_div(b, s);
    if a > 0 {
        vstd::arithmetic::div_mod::lemma_div_is_ordered(a + s - 1, b + s - 1, s);
    }
}

proof fn lemma_shrink(goal1: int, goal2: int, s: (int, int, int), c2: (int, int, int))
    requires
        s.0 >= 1,
        s.1 >= 1,
        s.2 >= 1,
        goal1 <= goal2,
        if goal2 <= 0 {
            c2 == (0int, 0int, 0int)
        } else {
            in_range(goal2, s, c2.2, c2.1) && c2 == candidate(goal2, s, c2.2, c2.1)
        },
    ensures
        0 <= shrink(goal1, s, c2).0 <= c2.0,
        0 <= shrink(goal1, s, c2).1 <= c2.1,
        0 <= shrink(goal1, s, c2).2 <= c2.2,
        goal1 > 0 ==> in_range(goal1, s, shrink(goal1, s, c2).2, shrink(goal1, s, c2).1)
            && shrink(goal1, s, c2) == candidate(
            goal1,
            s,
            shrink(goal1, s, c2).2,
            shrink(goal1, s, c2).1,
        ),
{
    if goal2 > 0 {
        lemma_candidate_counts(goal2, s, c2.2, c2.1);
    }
    if goal1 > 0 {
        let top2 = ceil_div(goal1, s.2);
        lemma_ceil_div(goal1, s.2);
        let n2 = if c2.2 < top2 {
            c2.2
        } else {
            top2
        };
        let left2a = goal1 - covered(goal1, s.2, n2);
        let left2b = goal2 - covered(goal2, s.2, c2.2);
        assert(0 <= left2a <= left2b);
        let top1 = ceil_div(left2a, s.1);
        lemma_ceil_div(left2a, s.1);
        let n1 = if c2.1 < top1 {
            c2.1
        } else {
            top1
        };
        let left1a = left2a - covered(left2a, s.1, n1);
        let left1b = left2b - covered(left2b, s.1, c2.1);
        assert(0 <= left1a <= left1b);
        lemma_ceil_div_monotone(left1a, left1b, s.0);
        lemma_ceil_div(left1a, s.0);
    }
}

impl DecorationTables {
    /// Where the search has a valid continuation from position `t` on, it has
    /// one too for deficits that are no greater, with slots that are no
    /// fewer, and with no more points taken from the skill of the position.
    pub proof fn lemma_monotone_from(
        &self,
        d1: Seq<i32>,
        d2: Seq<i32>,
        path2: Seq<[i32; 3]>,
        t: int,
        b1: (int, int, int),
        b2: (int, int, int),
        carry1: int,
        carry2: int,
    )
        requires
            self.wf(),
            d1.len() == self.skills(),
            dominated(d1, d2),
            path2.len() == self.skills(),
            0 <= t <= self.skills(),
            roomier(b1, b2),
            0 <= carry1 <= carry2,
            self.valid_from(d2, path2, t, b2, carry2),
        ensures
            exists|path1: Seq<[i32; 3]>|
                path1.len() == self.skills() && #[trigger] self.valid_from(d1, path1, t, b1, carry1),
        decreases self.skills() - t,
    {
        if t >= self.skills() {
            assert(self.valid_from(d1, path2, t, b1, carry1));
        } else {
            let a = self.order@[t] as int;
            let s = triple(self.summands@[a]);
            let c2 = triple(path2[t]);
            let goal1 = self.target(d1, t, carry1);
            let goal2 = self.target(d2, t, carry2);
            assert(self.step_ok(d2, t, b2, carry2, c2));
            assert(self.summands@[a][0] >= 1 && self.summands@[a][1] >= 1 && self.summands@[a][2] >= 1);
            assert(self.drain@[a][0] >= 0 && self.drain@[a][1] >= 0 && self.drain@[a][2] >= 0);
            let c1 = shrink(goal1, s, c2);
            lemma_shrink(goal1, goal2, s, c2);
            let next1 = self.carry_after(t, c1);
            let next2 = self.carry_after(t, c2);
            let e0 = self.drain@[a][0] as int;
            let e1 = self.drain@[a][1] as int;
            let e2 = self.drain@[a][2] as int;
            assert(0 <= c1.0 * e0 <= c2.0 * e0 && 0 <= c1.1 * e1 <= c2.1 * e1 && 0 <= c1.2 * e2
                <= c2.2 * e2) by (nonlinear_arith)
                requires
                    0 <= c1.0 <= c2.0,
                    0 <= c1.1 <= c2.1,
                    0 <= c1.2 <= c2.2,
                    e0 >= 0,
                    e1 >= 0,
                    e2 >= 0,
            ;
            assert(0 <= next1 <= next2);
            assert(roomier(remaining(b1, c1), remaining(b2, c2)));
            assert(self.step_ok(d1, t, b1, carry1, c1));
            self.lemma_monotone_from(
                d1,
                d2,
                path2,
                t + 1,
                remaining(b1, c1),
                remaining(b2, c2),
                next1,
                next2,
            );
            let rest = choose|p: Seq<[i32; 3]>|
                p.len() == self.skills() && #[trigger] self.valid_from(
                    d1,
                    p,
                    t + 1,
                    remaining(b1, c1),
                    next1,
                );
            let entry = spec_array_update(
                spec_array_update(spec_array_update(path2[t], 0, c1.0 as i32), 1, c1.1 as i32),
                2,
                c1.2 as i32,
            );
            assert(triple(entry) == c1);
            let path1 = rest.update(t, entry);
            self.lemma_valid_from_suffix(d1, rest, path1, t + 1, remaining(b1, c1), next1);
            assert(self.valid_from(d1, path1, t, b1, carry1));
        }
    }

    /// A smaller deficit is no harder to close, and more slots do not hurt:
    /// where decorations can close `d2` within `b2`, they can close `d1`
    /// within `b1`, if no skill lacks more in `d1` than in `d2` and `b1` has
    /// the slots of `b2` or more.
    pub proof fn lemma_feasible_monotone(
        &self,
        d1: Seq<i32>,
        d2: Seq<i32>,
        b1: (int, int, int),
        b2: (int, int, int),
    )
        requires
            self.wf(),
            d1.len() == self.skills(),
            dominated(d1, d2),
            roomier(b1, b2),
            self.feasible(d2, b2),
        ensures
            self.feasible(d1, b1),
    {
        let path2 = choose|path: Seq<[i32; 3]>|
            path.len() == self.skills() && #[trigger] self.valid_from(d2, path, 0, b2, 0);
        self.lemma_monotone_from(d1, d2, path2, 0, b1, b2, 0, 0);
    }
}

} // verus!

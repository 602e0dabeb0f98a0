//! The decoration solver: whether decorations can close what the equipment
//! leaves open, within the slots that the equipment has.

use crate::algorithm::rows::Row;
use crate::algorithm::weights::{
    before, candidate, ceil_div, get_weight_for_sum, holds, keeps, lemma_candidate_closes,
    lemma_candidate_counts, triple, weights_for,
};
use vstd::prelude::*;

verus! {

/// What the solver knows of the decorations, by wanted skill.
///
/// The decorations that grant a skill form its group. Of each group and slot
/// size one decoration is chosen to stand for the size. `order` lists the
/// skills in the order in which the solver closes them; where `linked` holds
/// at a position, the chosen decorations of that position's skill take points
/// from the skill of the next position.
#[derive(Debug, Clone)]
pub struct DecorationTables {
    /// The skills, by position in the search.
    pub order: Vec<usize>,
    /// By position: the skill of the next position loses points to the
    /// decorations of this one.
    pub linked: Vec<bool>,
    /// By skill and size: the points that the chosen decoration grants.
    pub summands: Vec<[i32; 3]>,
    /// By skill and size: there is a decoration of that size in the group.
    pub present: Vec<[bool; 3]>,
    /// By skill and size: the place of the chosen decoration in the pool.
    pub picks: Vec<[usize; 3]>,
    /// By skill and size: the points that the chosen decoration takes from
    /// the linked skill.
    pub drain: Vec<[i32; 3]>,
    /// By skill: the best points per slot, in sixths.
    pub scores: Vec<i64>,
    /// By skill: the skill that the decorations of the group take points
    /// from.
    pub pairs: Vec<Option<usize>>,
    /// By skill: a decoration grants the skill.
    pub grouped: Vec<bool>,
}

/// A number of slots that no set of equipment has.
pub open spec fn never() -> int {
    0x1_0000_0000
}

/// The least number of slots that close `deficit` points at `score` sixths of
/// a point per slot; `never()` where nothing grants the skill.
pub open spec fn need(deficit: int, score: int) -> int {
    if deficit <= 0 {
        0
    } else if score <= 0 {
        never()
    } else {
        ceil_div(6 * deficit, score)
    }
}

/// The slots that the counts `c` take: in all, of pieces with two or three
/// slots, of pieces with three slots.
pub open spec fn slots_taken(c: (int, int, int)) -> (int, int, int) {
    (c.0 + 2 * c.1 + 3 * c.2, c.1 + c.2, c.2)
}

/// The slots that are left of `budget` after the counts `c`.
pub open spec fn remaining(budget: (int, int, int), c: (int, int, int)) -> (int, int, int) {
    (
        budget.0 - slots_taken(c).0,
        budget.1 - slots_taken(c).1,
        budget.2 - slots_taken(c).2,
    )
}

impl DecorationTables {
    /// The number of wanted skills.
    pub open spec fn skills(&self) -> int {
        self.order@.len() as int
    }

    /// The skill `a` has a position in the search.
    pub open spec fn has_position(&self, a: int) -> bool {
        exists|t: int| 0 <= t < self.order@.len() && #[trigger] self.order@[t] == a
    }

    /// The tables are of one length, `order` names each skill once, each
    /// chosen decoration grants a point at least and takes none that is
    /// negative, and no chosen decoration grants more points per slot than
    /// the score of its skill says.
    pub open spec fn wf(&self) -> bool {
        let k = self.order@.len();
        &&& self.linked@.len() == k
        &&& self.summands@.len() == k
        &&& self.present@.len() == k
        &&& self.picks@.len() == k
        &&& self.drain@.len() == k
        &&& self.scores@.len() == k
        &&& self.pairs@.len() == k
        &&& self.grouped@.len() == k
        &&& forall|t: int| 0 <= t < k ==> 0 <= #[trigger] self.order@[t] < k
        &&& forall|t: int, u: int| 0 <= t < u < k ==> self.order@[t] != self.order@[u]
        &&& forall|a: int| 0 <= a < k ==> #[trigger] self.has_position(a)
        &&& forall|a: int, z: int|
            0 <= a < k && 0 <= z < 3 ==> (#[trigger] self.summands@[a][z]) >= 1
        &&& forall|a: int, z: int| 0 <= a < k && 0 <= z < 3 ==> (#[trigger] self.drain@[a][z]) >= 0
        &&& forall|a: int, z: int|
            0 <= a < k && 0 <= z < 3 && #[trigger] self.present@[a][z] ==> 6 * self.summands@[a][z]
                <= self.scores@[a] * (z + 1)
    }

    /// The deficit to close at position `t`: that of its skill, and what the
    /// decorations of the position before took from it.
    pub open spec fn target(&self, deficits: Seq<i32>, t: int, carry: int) -> int {
        deficits[self.order@[t] as int] + carry
    }

    /// What the counts `c`, chosen at position `t`, take from the skill of
    /// the next position.
    pub open spec fn carry_after(&self, t: int, c: (int, int, int)) -> int {
        let a = self.order@[t] as int;
        if self.linked@[t] {
            c.0 * self.drain@[a][0] + c.1 * self.drain@[a][1] + c.2 * self.drain@[a][2]
        } else {
            0
        }
    }

    /// The least number of slots that the skills from position `from` on need.
    pub open spec fn needs_after(&self, deficits: Seq<i32>, from: int) -> int
        decreases self.order@.len() - from,
    {
        if from < 0 || from >= self.order@.len() {
            0
        } else {
            let a = self.order@[from] as int;
            need(deficits[a] as int, self.scores@[a] as int) + self.needs_after(deficits, from + 1)
        }
    }

    /// The least number of slots that the skills from position `from` on
    /// need, where that of position `from` has lost `carry` points.
    pub open spec fn pending_need(&self, deficits: Seq<i32>, from: int, carry: int) -> int {
        if from < 0 || from >= self.order@.len() {
            0
        } else {
            let a = self.order@[from] as int;
            need(self.target(deficits, from, carry), self.scores@[a] as int) + self.needs_after(
                deficits,
                from + 1,
            )
        }
    }

    /// Every size that `c` uses has a decoration in the group of skill `a`.
    pub open spec fn sizes_present(&self, a: int, c: (int, int, int)) -> bool {
        &&& c.0 > 0 ==> self.present@[a][0]
        &&& c.1 > 0 ==> self.present@[a][1]
        &&& c.2 > 0 ==> self.present@[a][2]
    }

    /// The counts `c` are a step that the search can take at position `t`:
    /// they are among the counts that close the deficit within `budget`, and
    /// use only sizes that exist. No step is taken where a number of points
    /// passes what an `i32` holds.
    pub open spec fn step_ok(
        &self,
        deficits: Seq<i32>,
        t: int,
        budget: (int, int, int),
        carry: int,
        c: (int, int, int),
    ) -> bool {
        let a = self.order@[t] as int;
        let goal = self.target(deficits, t, carry);
        let s = triple(self.summands@[a]);
        &&& if goal <= 0 {
            c == (0int, 0int, 0int)
        } else {
            keeps(goal, s, budget, c.2, c.1) && c == candidate(goal, s, c.2, c.1)
        }
        &&& goal <= i32::MAX
        &&& self.carry_after(t, c) <= i32::MAX
        &&& self.sizes_present(a, c)
    }

    /// From position `t` on, `path` holds one step of the search after the
    /// other, starting with `budget` and `carry`.
    pub open spec fn valid_from(
        &self,
        deficits: Seq<i32>,
        path: Seq<[i32; 3]>,
        t: int,
        budget: (int, int, int),
        carry: int,
    ) -> bool
        decreases self.order@.len() - t,
    {
        if t < 0 || t >= self.order@.len() {
            true
        } else {
            let c = triple(path[t]);
            self.step_ok(deficits, t, budget, carry, c) && self.valid_from(
                deficits,
                path,
                t + 1,
                remaining(budget, c),
                self.carry_after(t, c),
            )
        }
    }

    /// Decorations can close `deficits` within `budget`.
    pub open spec fn feasible(&self, deficits: Seq<i32>, budget: (int, int, int)) -> bool {
        exists|path: Seq<[i32; 3]>|
            path.len() == self.skills() && #[trigger] self.valid_from(deficits, path, 0, budget, 0)
    }

    /// No path that takes `c` at position `t` is valid.
    pub open spec fn blocked(
        &self,
        deficits: Seq<i32>,
        t: int,
        budget: (int, int, int),
        carry: int,
        c: (int, int, int),
    ) -> bool {
        forall|p: Seq<[i32; 3]>|
            p.len() == self.skills() && triple(p[t]) == c ==> !#[trigger] self.valid_from(
                deficits,
                p,
                t,
                budget,
                carry,
            )
    }

    /// From position `t` on, `path` is the path that the search finds: at
    /// each position it takes the first step that a valid path takes there,
    /// where a step with more of the large decorations comes first.
    pub open spec fn first_from(
        &self,
        deficits: Seq<i32>,
        path: Seq<[i32; 3]>,
        t: int,
        budget: (int, int, int),
        carry: int,
    ) -> bool
        decreases self.order@.len() - t,
    {
        if t < 0 || t >= self.order@.len() {
            true
        } else {
            let c = triple(path[t]);
            &&& self.step_ok(deficits, t, budget, carry, c)
            &&& self.no_step_before(deficits, t, budget, carry, c)
            &&& self.first_from(deficits, path, t + 1, remaining(budget, c), self.carry_after(t, c))
        }
    }

    /// No valid path takes a step at position `t` that comes before `c`.
    pub open spec fn no_step_before(
        &self,
        deficits: Seq<i32>,
        t: int,
        budget: (int, int, int),
        carry: int,
        c: (int, int, int),
    ) -> bool {
        forall|q: Seq<[i32; 3]>|
            q.len() == self.skills() && #[trigger] self.valid_from(deficits, q, t, budget, carry)
                ==> triple(q[t]) == c || before(c, triple(q[t]))
    }

    /// The path that the search finds is valid.
    pub proof fn lemma_first_is_valid(
        &self,
        deficits: Seq<i32>,
        path: Seq<[i32; 3]>,
        t: int,
        budget: (int, int, int),
        carry: int,
    )
        requires
            self.first_from(deficits, path, t, budget, carry),
        ensures
            self.valid_from(deficits, path, t, budget, carry),
        decreases self.order@.len() - t,
    {
        if 0 <= t < self.order@.len() {
            let c = triple(path[t]);
            self.lemma_first_is_valid(
                deficits,
                path,
                t + 1,
                remaining(budget, c),
                self.carry_after(t, c),
            );
        }
    }

    /// Whether a path is valid from `t` on depends on its entries from `t` on
    /// alone.
    pub proof fn lemma_valid_from_suffix(
        &self,
        deficits: Seq<i32>,
        p: Seq<[i32; 3]>,
        q: Seq<[i32; 3]>,
        t: int,
        budget: (int, int, int),
        carry: int,
    )
        requires
            p.len() == q.len(),
            0 <= t,
            forall|j: int| t <= j < p.len() ==> p[j] == q[j],
            p.len() == self.skills(),
        ensures
            self.valid_from(deficits, p, t, budget, carry) == self.valid_from(
                deficits,
                q,
                t,
                budget,
                carry,
            ),
        decreases self.order@.len() - t,
    {
        if t < self.order@.len() {
            let c = triple(p[t]);
            self.lemma_valid_from_suffix(
                deficits,
                p,
                q,
                t + 1,
                remaining(budget, c),
                self.carry_after(t, c),
            );
        }
    }
}


fn need_exec(deficit: i64, score: i64) -> (r: i64)
    requires
        -0x1_0000_0000 <= deficit <= 0x1_0000_0000,
    ensures
        r == need(deficit as int, score as int),
        0 <= r <= 0x8_0000_0000,
{
    if deficit <= 0 {
        0
    } else if score <= 0 {
        0x1_0000_0000
    } else {
        let a: i128 = 6 * (deficit as i128);
        let b: i128 = score as i128;
        let q = (a + b - 1) / b;
        assert(1 <= q <= a) by (nonlinear_arith)
            requires
                q == (a + b - 1) / (b as int),
                a >= 1,
                b >= 1,
        ;
        q as i64
    }
}

impl DecorationTables {
    fn target_exec(&self, deficits: &Vec<i32>, t: usize, carry: i32) -> (r: i64)
        requires
            self.wf(),
            deficits.len() == self.skills(),
            t < self.skills(),
            carry >= 0,
        ensures
            r == self.target(deficits@, t as int, carry as int),
            -0x8000_0000 <= r <= 0xffff_ffff,
    {
        let a = self.order[t];
        deficits[a] as i64 + carry as i64
    }

    fn carry_exec(&self, t: usize, c: &[i32; 3]) -> (r: i128)
        requires
            self.wf(),
            t < self.skills(),
            c[0] >= 0,
            c[1] >= 0,
            c[2] >= 0,
        ensures
            r == self.carry_after(t as int, triple(*c)),
            r >= 0,
    {
        if !self.linked[t] {
            return 0;
        }
        let a = self.order[t];
        let d = &self.drain[a];
        assert(0 <= c[0] * d[0] <= 0x8000_0000 * 0x8000_0000 && 0 <= c[1] * d[1] <= 0x8000_0000
            * 0x8000_0000 && 0 <= c[2] * d[2] <= 0x8000_0000 * 0x8000_0000) by (nonlinear_arith)
            requires
                0 <= c[0] <= 0x8000_0000,
                0 <= c[1] <= 0x8000_0000,
                0 <= c[2] <= 0x8000_0000,
                0 <= d[0] <= 0x8000_0000,
                0 <= d[1] <= 0x8000_0000,
                0 <= d[2] <= 0x8000_0000,
        ;
        c[0] as i128 * d[0] as i128 + c[1] as i128 * d[1] as i128 + c[2] as i128 * d[2] as i128
    }

    /// The least number of slots that the skills need, by their scores: with
    /// fewer slots no decorations close `deficits`.
    pub fn least_slots(&self, deficits: &Vec<i32>) -> (r: i128)
        requires
            self.wf(),
            deficits.len() == self.skills(),
        ensures
            r == self.needs_after(deficits@, 0),
            forall|more: Seq<i32>, budget: (int, int, int)|
                more.len() == deficits@.len() && (forall|i: int|
                    0 <= i < more.len() ==> deficits@[i] <= more[i]) && 0 <= budget.0 < r
                    ==> !#[trigger] self.feasible(more, budget),
    {
        proof {
            assert forall|more: Seq<i32>, budget: (int, int, int)|
                more.len() == deficits@.len() && (forall|i: int|
                    0 <= i < more.len() ==> deficits@[i] <= more[i]) && 0 <= budget.0
                    < self.needs_after(deficits@, 0) implies !#[trigger] self.feasible(
                more,
                budget,
            ) by {
                if self.feasible(more, budget) {
                    let path = choose|path: Seq<[i32; 3]>|
                        path.len() == self.skills() && #[trigger] self.valid_from(
                            more,
                            path,
                            0,
                            budget,
                            0,
                        );
                    self.lemma_needs_fit(more, path, 0, budget, 0);
                    self.lemma_needs_after_monotone(deficits@, more, 0);
                }
            }
        }
        self.needs_after_exec(deficits, 0)
    }

    fn needs_after_exec(&self, deficits: &Vec<i32>, from: usize) -> (r: i128)
        requires
            self.wf(),
            deficits.len() == self.skills(),
        ensures
            r == self.needs_after(deficits@, from as int),
            0 <= r <= 0x8_0000_0000 * self.skills(),
    {
        let k = self.order.len();
        let mut acc: i128 = 0;
        let mut u: usize = k;
        if from >= k {
            return 0;
        }
        while u > from
            invariant
                self.wf(),
                deficits.len() == self.skills(),
                k == self.skills(),
                from <= u <= k,
                acc == self.needs_after(deficits@, u as int),
                0 <= acc <= 0x8_0000_0000 * (k - u),
            decreases u,
        {
            u -= 1;
            let a = self.order[u];
            acc = acc + need_exec(deficits[a] as i64, self.scores[a]) as i128;
        }
        acc
    }

    fn pending_need_exec(&self, deficits: &Vec<i32>, from: usize, carry: i32) -> (r: i128)
        requires
            self.wf(),
            deficits.len() == self.skills(),
            carry >= 0,
        ensures
            r == self.pending_need(deficits@, from as int, carry as int),
    {
        if from >= self.order.len() {
            return 0;
        }
        let a = self.order[from];
        let goal = self.target_exec(deficits, from, carry);
        need_exec(goal, self.scores[a]) as i128 + self.needs_after_exec(deficits, from + 1)
    }

    /// Looks for a valid continuation of the search from position `t` on and
    /// writes it to `path`.
    fn solve_from(
        &self,
        deficits: &Vec<i32>,
        t: usize,
        budget: [i32; 3],
        carry: i32,
        path: &mut Vec<[i32; 3]>,
    ) -> (found: bool)
        requires
            self.wf(),
            deficits.len() == self.skills(),
            t <= self.skills(),
            old(path).len() == self.skills(),
            carry >= 0,
            budget[0] >= 0,
        ensures
            final(path).len() == self.skills(),
            forall|j: int| 0 <= j < t ==> final(path)[j] == old(path)[j],
            found ==> self.first_from(
                deficits@,
                final(path)@,
                t as int,
                triple(budget),
                carry as int,
            ),
            !found ==> forall|p: Seq<[i32; 3]>|
                p.len() == self.skills() ==> !#[trigger] self.valid_from(
                    deficits@,
                    p,
                    t as int,
                    triple(budget),
                    carry as int,
                ),
        decreases self.skills() - t,
    {
        let k = self.order.len();
        if t >= k {
            return true;
        }
        let a = self.order[t];
        let wide = self.target_exec(deficits, t, carry);
        let ghost gb = triple(budget);
        if wide > i32::MAX as i64 {
            assert forall|p: Seq<[i32; 3]>| p.len() == self.skills() implies !#[trigger] self.valid_from(
                deficits@,
                p,
                t as int,
                gb,
                carry as int,
            ) by {
                assert(!self.step_ok(deficits@, t as int, gb, carry as int, triple(p[t as int])));
            }
            return false;
        }
        let goal = wide as i32;
        let cands = get_weight_for_sum(goal, &self.summands[a], &budget);
        let ghost gs = triple(self.summands@[a as int]);
        let mut i: usize = 0;
        while i < cands.len()
            invariant
                self.wf(),
                deficits.len() == self.skills(),
                k == self.skills(),
                t < k,
                a == self.order@[t as int],
                carry >= 0,
                budget[0] >= 0,
                goal == self.target(deficits@, t as int, carry as int),
                gb == triple(budget),
                gs == triple(self.summands@[a as int]),
                weights_for(goal as int, gs, gb, cands@),
                i <= cands.len(),
                path.len() == k,
                forall|j: int| 0 <= j < t ==> path[j] == old(path)[j],
                forall|j: int|
                    0 <= j < i ==> self.blocked(
                        deficits@,
                        t as int,
                        gb,
                        carry as int,
                        #[trigger] triple(cands[j]),
                    ),
            decreases cands.len() - i,
        {
            let c = cands[i];
            let ghost gc = triple(c);
            assert(c[0] >= 0 && c[1] >= 0 && c[2] >= 0 && (goal > 0 ==> keeps(
                goal as int,
                gs,
                gb,
                gc.2,
                gc.1,
            ) && gc == candidate(goal as int, gs, gc.2, gc.1))) by {
                if goal > 0 {
                    lemma_candidate_counts(goal as int, gs, gc.2, gc.1);
                }
            }
            let sizes = (c[0] <= 0 || self.present[a][0]) && (c[1] <= 0 || self.present[a][1]) && (
            c[2] <= 0 || self.present[a][2]);
            let mut tried = false;
            let carry_wide = self.carry_exec(t, &c);
            if sizes && carry_wide <= i32::MAX as i128 {
                let carry_next = carry_wide as i32;
                let left0: i64 = budget[0] as i64 - c[0] as i64 - 2 * (c[1] as i64) - 3 * (
                c[2] as i64);
                let left1: i64 = budget[1] as i64 - c[1] as i64 - c[2] as i64;
                let left2: i64 = budget[2] as i64 - c[2] as i64;
                let pending = self.pending_need_exec(deficits, t + 1, carry_next);
                assert((left0 as int, left1 as int, left2 as int) == remaining(gb, gc));
                assert(self.step_ok(deficits@, t as int, gb, carry as int, gc));
                proof {
                    self.lemma_step(deficits@, t as int, gb, carry as int, gc);
                }
                tried = true;
                if pending > left0 as i128 {
                    // the skills to come need more slots than are left
                    assert forall|p: Seq<[i32; 3]>|
                        p.len() == self.skills() && triple(p[t as int]) == gc implies !#[trigger] self.valid_from(
                        deficits@,
                        p,
                        t as int,
                        gb,
                        carry as int,
                    ) by {
                        if self.valid_from(deficits@, p, t as int, gb, carry as int) {
                            self.lemma_needs_fit(
                                deficits@,
                                p,
                                t + 1,
                                remaining(gb, gc),
                                carry_next as int,
                            );
                        }
                    }
                } else {
                    let left: [i32; 3] = [left0 as i32, left1 as i32, left2 as i32];
                    path.set(t, c);
                    let found = self.solve_from(deficits, t + 1, left, carry_next, path);
                    if found {
                        assert(path[t as int] == c);
                        proof {
                            assert forall|q: Seq<[i32; 3]>|
                                q.len() == self.skills() && #[trigger] self.valid_from(
                                    deficits@,
                                    q,
                                    t as int,
                                    gb,
                                    carry as int,
                                ) implies triple(q[t as int]) == gc || before(
                                gc,
                                triple(q[t as int]),
                            ) by {
                                let qc = triple(q[t as int]);
                                assert(self.step_ok(deficits@, t as int, gb, carry as int, qc));
                                if goal <= 0 {
                                    assert(qc == gc);
                                } else {
                                    assert(holds(cands@, candidate(goal as int, gs, qc.2, qc.1)));
                                    let w = choose|j: int|
                                        0 <= j < cands@.len() && #[trigger] triple(cands@[j]) == qc;
                                    if w < i {
                                        assert(self.blocked(
                                            deficits@,
                                            t as int,
                                            gb,
                                            carry as int,
                                            triple(cands[w]),
                                        ));
                                    } else if w > i {
                                        assert(before(triple(cands@[i as int]), triple(cands@[w])));
                                    }
                                }
                            }
                        }
                        return true;
                    }
                    assert(triple(left) == remaining(gb, gc));
                    assert forall|p: Seq<[i32; 3]>|
                        p.len() == self.skills() && triple(p[t as int]) == gc implies !#[trigger] self.valid_from(
                        deficits@,
                        p,
                        t as int,
                        gb,
                        carry as int,
                    ) by {
                        assert(!self.valid_from(
                            deficits@,
                            p,
                            t + 1,
                            triple(left),
                            carry_next as int,
                        ));
                    }
                }
            }
            if !tried {
                assert(!self.step_ok(deficits@, t as int, gb, carry as int, gc));
                assert(self.blocked(deficits@, t as int, gb, carry as int, gc));
            }
            i += 1;
        }
        proof {
            assert forall|p: Seq<[i32; 3]>| p.len() == self.skills() implies !#[trigger] self.valid_from(
                deficits@,
                p,
                t as int,
                gb,
                carry as int,
            ) by {
                if self.valid_from(deficits@, p, t as int, gb, carry as int) {
                    let c = triple(p[t as int]);
                    assert(self.step_ok(deficits@, t as int, gb, carry as int, c));
                    if goal <= 0 {
                        assert(triple(cands[0]) == c);
                        assert(self.blocked(deficits@, t as int, gb, carry as int, triple(cands[0])));
                    } else {
                        assert(holds(cands@, candidate(goal as int, gs, c.2, c.1)));
                        let w = choose|j: int|
                            0 <= j < cands@.len() && #[trigger] triple(cands@[j]) == c;
                        assert(self.blocked(deficits@, t as int, gb, carry as int, triple(cands[w])));
                    }
                }
            }
        }
        false
    }
}


/// The slots to start with, for `slots_at_size` pieces of one, two and three
/// slots: the slots in all, the pieces of two or three, the pieces of three.
pub open spec fn start_budget(slots_at_size: (int, int, int)) -> (int, int, int) {
    (
        slots_at_size.0 + 2 * slots_at_size.1 + 3 * slots_at_size.2,
        slots_at_size.1 + slots_at_size.2,
        slots_at_size.2,
    )
}

/// The three counts of an array, as integers.
pub open spec fn counts(a: [u32; 3]) -> (int, int, int) {
    (a[0] as int, a[1] as int, a[2] as int)
}

/// `r` is the answer of the solver for `deficits` and `budget`: the
/// decorations that the first valid path of the search stands for, or none
/// where there is no valid path.
pub open spec fn answers(
    tables: &DecorationTables,
    deficits: Seq<i32>,
    budget: (int, int, int),
    r: Option<Seq<(usize, usize)>>,
) -> bool {
    match r {
        Some(assignment) => exists|path: Seq<[i32; 3]>|
            path.len() == tables.skills() && #[trigger] tables.first_from(
                deficits,
                path,
                0,
                budget,
                0,
            ) && assignment == tables.assignment_from(path, 0),
        None => !tables.feasible(deficits, budget),
    }
}

/// `count` decorations of the kind at place `pick`, where there are any.
pub open spec fn entry(count: int, pick: usize) -> Seq<(usize, usize)> {
    if count > 0 {
        seq![(count as usize, pick)]
    } else {
        Seq::empty()
    }
}

/// The points for the skill `r` that the decorations of `assignment` grant
/// together.
pub open spec fn granted(decorations: Seq<Row>, assignment: Seq<(usize, usize)>, r: int) -> int
    decreases assignment.len(),
{
    if assignment.len() == 0 {
        0
    } else {
        granted(decorations, assignment.drop_last(), r) + assignment.last().0
            * decorations[assignment.last().1 as int].points@[r]
    }
}

/// The slots that the decorations of `assignment` take together.
pub open spec fn slots_used(decorations: Seq<Row>, assignment: Seq<(usize, usize)>) -> int
    decreases assignment.len(),
{
    if assignment.len() == 0 {
        0
    } else {
        slots_used(decorations, assignment.drop_last()) + assignment.last().0
            * decorations[assignment.last().1 as int].slots
    }
}

/// The number of decorations of `assignment` that take `size` slots or more.
pub open spec fn large_used(decorations: Seq<Row>, assignment: Seq<(usize, usize)>, size: int) -> int
    decreases assignment.len(),
{
    if assignment.len() == 0 {
        0
    } else {
        large_used(decorations, assignment.drop_last(), size) + (if decorations[assignment.last().1 as int].slots
            >= size {
            assignment.last().0 as int
        } else {
            0
        })
    }
}

/// The count over two lists put together is the sum of the counts.
pub proof fn lemma_large_used_concat(
    decorations: Seq<Row>,
    a: Seq<(usize, usize)>,
    b: Seq<(usize, usize)>,
    size: int,
)
    ensures
        large_used(decorations, a + b, size) == large_used(decorations, a, size) + large_used(
            decorations,
            b,
            size,
        ),
    decreases b.len(),
{
    if b.len() == 0 {
        assert(a + b =~= a);
    } else {
        assert((a + b).drop_last() =~= a + b.drop_last());
        lemma_large_used_concat(decorations, a, b.drop_last(), size);
    }
}

proof fn lemma_entry_large(decorations: Seq<Row>, count: int, pick: usize, size: int)
    requires
        0 <= count <= i32::MAX,
    ensures
        large_used(decorations, entry(count, pick), size) == (if count > 0 && decorations[pick as int].slots
            >= size {
            count
        } else {
            0
        }),
{
    let e = entry(count, pick);
    if count > 0 {
        assert(e.drop_last() =~= Seq::<(usize, usize)>::empty());
        assert(e.last() == (count as usize, pick));
        assert(large_used(decorations, e.drop_last(), size) == 0);
    }
}

/// The points of two lists put together are the sum of the points.
pub proof fn lemma_granted_concat(
    decorations: Seq<Row>,
    a: Seq<(usize, usize)>,
    b: Seq<(usize, usize)>,
    r: int,
)
    ensures
        granted(decorations, a + b, r) == granted(decorations, a, r) + granted(decorations, b, r),
    decreases b.len(),
{
    if b.len() == 0 {
        assert(a + b =~= a);
    } else {
        assert((a + b).drop_last() =~= a + b.drop_last());
        lemma_granted_concat(decorations, a, b.drop_last(), r);
    }
}

/// The slots of two lists put together are the sum of the slots.
pub proof fn lemma_slots_used_concat(
    decorations: Seq<Row>,
    a: Seq<(usize, usize)>,
    b: Seq<(usize, usize)>,
)
    ensures
        slots_used(decorations, a + b) == slots_used(decorations, a) + slots_used(decorations, b),
    decreases b.len(),
{
    if b.len() == 0 {
        assert(a + b =~= a);
    } else {
        assert((a + b).drop_last() =~= a + b.drop_last());
        lemma_slots_used_concat(decorations, a, b.drop_last());
    }
}

proof fn lemma_entry_sums(decorations: Seq<Row>, count: int, pick: usize, r: int)
    requires
        0 <= count <= i32::MAX,
    ensures
        granted(decorations, entry(count, pick), r) == count * decorations[pick as int].points@[r],
        slots_used(decorations, entry(count, pick)) == count * decorations[pick as int].slots,
{
    let e = entry(count, pick);
    if count > 0 {
        assert(e.drop_last() =~= Seq::<(usize, usize)>::empty());
        assert(e.last() == (count as usize, pick));
        assert(granted(decorations, e.drop_last(), r) == 0);
        assert(slots_used(decorations, e.drop_last()) == 0);
    } else {
        assert(0 * decorations[pick as int].points@[r] == 0);
        assert(0 * decorations[pick as int].slots == 0);
    }
}

/// Every entry of `assignment` names a decoration among `decorations` that
/// has points for `skills` skills, and counts no more than an `i32` holds.
pub open spec fn entries_ok(
    decorations: Seq<Row>,
    assignment: Seq<(usize, usize)>,
    skills: int,
) -> bool {
    forall|i: int|
        0 <= i < assignment.len() ==> {
            &&& (#[trigger] assignment[i]).0 <= i32::MAX
            &&& assignment[i].1 < decorations.len()
            &&& decorations[assignment[i].1 as int].points@.len() == skills
        }
}

impl DecorationTables {
    /// The decorations that the counts at position `t` of `path` stand for.
    pub open spec fn entries_at(&self, path: Seq<[i32; 3]>, t: int) -> Seq<(usize, usize)> {
        let a = self.order@[t] as int;
        entry(path[t][0] as int, self.picks@[a][0]) + entry(path[t][1] as int, self.picks@[a][1])
            + entry(path[t][2] as int, self.picks@[a][2])
    }

    /// The decorations that `path` stands for, from position `t` on.
    pub open spec fn assignment_from(&self, path: Seq<[i32; 3]>, t: int) -> Seq<(usize, usize)>
        decreases self.order@.len() - t,
    {
        if t < 0 || t >= self.order@.len() {
            Seq::empty()
        } else {
            self.entries_at(path, t) + self.assignment_from(path, t + 1)
        }
    }

    /// The decoration chosen for skill `a` and size `z + 1`, where there is
    /// one, is in `decorations`, has that size, and grants what the tables
    /// say.
    pub open spec fn pick_ok(&self, decorations: Seq<Row>, a: int, z: int) -> bool {
        self.present@[a][z] ==> {
            let d = decorations[self.picks@[a][z] as int];
            &&& self.picks@[a][z] < decorations.len()
            &&& d.slots == z + 1
            &&& d.points@.len() == self.skills()
            &&& d.points@[a] == self.summands@[a][z]
        }
    }

    /// The chosen decorations are in `decorations`, have the size that they
    /// stand for, and grant what the tables say.
    pub open spec fn consistent(&self, decorations: Seq<Row>) -> bool {
        forall|a: int, z: int|
            0 <= a < self.skills() && 0 <= z < 3 ==> #[trigger] self.pick_ok(decorations, a, z)
    }

    /// The decoration chosen at position `t` for size `z + 1`, where there is
    /// one, takes no points from the skill `r`, unless `r` is the skill that
    /// the search closes next: from that one it takes no more than the tables
    /// say.
    pub open spec fn pair_ok(&self, decorations: Seq<Row>, t: int, z: int, r: int) -> bool {
        let a = self.order@[t] as int;
        let p = decorations[self.picks@[a][z] as int].points@[r];
        self.present@[a][z] && r != a ==> p >= 0 || (self.linked@[t] && t + 1 < self.skills()
            && self.order@[t + 1] == r && p >= -self.drain@[a][z])
    }

    /// A chosen decoration takes points from one skill at most: the one that
    /// the search closes next, and no more than the tables say.
    pub open spec fn well_paired(&self, decorations: Seq<Row>) -> bool {
        forall|t: int, z: int, r: int|
            0 <= t < self.skills() && 0 <= z < 3 && 0 <= r < self.skills() ==> #[trigger] self.pair_ok(
                decorations,
                t,
                z,
                r,
            )
    }

    proof fn lemma_needs_nonneg(&self, deficits: Seq<i32>, from: int)
        requires
            self.wf(),
            deficits.len() == self.skills(),
        ensures
            self.needs_after(deficits, from) >= 0,
        decreases self.order@.len() - from,
    {
        if 0 <= from < self.order@.len() {
            self.lemma_needs_nonneg(deficits, from + 1);
            let a = self.order@[from] as int;
            if deficits[a] > 0 && self.scores@[a] > 0 {
                crate::algorithm::weights::lemma_ceil_div(6 * deficits[a], self.scores@[a] as int);
            }
        }
    }

    /// What a step leaves: counts that are not negative, a carry that is not
    /// negative, and slots that are not negative.
    proof fn lemma_step(
        &self,
        deficits: Seq<i32>,
        t: int,
        budget: (int, int, int),
        carry: int,
        c: (int, int, int),
    )
        requires
            self.wf(),
            deficits.len() == self.skills(),
            0 <= t < self.skills(),
            self.step_ok(deficits, t, budget, carry, c),
        ensures
            c.0 >= 0,
            c.1 >= 0,
            c.2 >= 0,
            self.carry_after(t, c) >= 0,
            budget.0 >= 0 ==> remaining(budget, c).0 >= 0,
            budget.1 >= 0 ==> remaining(budget, c).1 >= 0,
            budget.2 >= 0 ==> remaining(budget, c).2 >= 0,
            c.0 * self.summands@[self.order@[t] as int][0] + c.1 * self.summands@[self.order@[t] as int][1]
                + c.2 * self.summands@[self.order@[t] as int][2] >= self.target(deficits, t, carry),
            need(self.target(deficits, t, carry), self.scores@[self.order@[t] as int] as int)
                <= slots_taken(c).0,
    {
        let a = self.order@[t] as int;
        let goal = self.target(deficits, t, carry);
        let s = triple(self.summands@[a]);
        assert(self.summands@[a][0] >= 1 && self.summands@[a][1] >= 1 && self.summands@[a][2] >= 1);
        assert(self.drain@[a][0] >= 0 && self.drain@[a][1] >= 0 && self.drain@[a][2] >= 0);
        if goal > 0 {
            lemma_candidate_counts(goal, s, c.2, c.1);
            lemma_candidate_closes(goal, s, c.2, c.1);
        }
        let d0 = self.drain@[a][0] as int;
        let d1 = self.drain@[a][1] as int;
        let d2 = self.drain@[a][2] as int;
        assert(c.0 * d0 >= 0 && c.1 * d1 >= 0 && c.2 * d2 >= 0) by (nonlinear_arith)
            requires
                c.0 >= 0,
                c.1 >= 0,
                c.2 >= 0,
                d0 >= 0,
                d1 >= 0,
                d2 >= 0,
        ;
        if goal > 0 {
            let score = self.scores@[a] as int;
            let s0 = self.summands@[a][0] as int;
            let s1 = self.summands@[a][1] as int;
            let s2 = self.summands@[a][2] as int;
            let taken = slots_taken(c).0;
            assert(c.0 > 0 ==> self.present@[a][0]);
            assert(c.1 > 0 ==> self.present@[a][1]);
            assert(c.2 > 0 ==> self.present@[a][2]);
            assert(6 * (c.0 * s0) <= score * c.0) by (nonlinear_arith)
                requires
                    c.0 >= 0,
                    c.0 == 0 || 6 * s0 <= score * 1,
            ;
            assert(6 * (c.1 * s1) <= score * (2 * c.1)) by (nonlinear_arith)
                requires
                    c.1 >= 0,
                    c.1 == 0 || 6 * s1 <= score * 2,
            ;
            assert(6 * (c.2 * s2) <= score * (3 * c.2)) by (nonlinear_arith)
                requires
                    c.2 >= 0,
                    c.2 == 0 || 6 * s2 <= score * 3,
            ;
            assert(score * c.0 + score * (2 * c.1) + score * (3 * c.2) == score * taken)
                by (nonlinear_arith)
                requires
                    taken == c.0 + 2 * c.1 + 3 * c.2,
            ;
            assert(6 * goal <= score * taken);
            assert(score > 0) by (nonlinear_arith)
                requires
                    6 * goal <= score * taken,
                    goal > 0,
                    taken >= 0,
            ;
            crate::algorithm::weights::lemma_ceil_div(6 * goal, score);
            let q = ceil_div(6 * goal, score);
            assert(q <= taken) by (nonlinear_arith)
                requires
                    (q - 1) * score < 6 * goal,
                    6 * goal <= score * taken,
                    score > 0,
            ;
        }
    }

    /// The more is lacking, the more slots are needed.
    pub proof fn lemma_need_monotone(d1: int, d2: int, score: int)
        requires
            d1 <= d2,
        ensures
            0 <= need(d1, score) <= need(d2, score),
    {
        if d1 > 0 && score > 0 {
            crate::algorithm::weights::lemma_ceil_div(6 * d1, score);
            crate::algorithm::weights::lemma_ceil_div(6 * d2, score);
            vstd::arithmetic::div_mod::lemma_div_is_ordered(
                6 * d1 + score - 1,
                6 * d2 + score - 1,
                score,
            );
        }
    }

    /// The more is lacking, the more slots the skills from `from` on need.
    pub proof fn lemma_needs_after_monotone(&self, d1: Seq<i32>, d2: Seq<i32>, from: int)
        requires
            self.wf(),
            d1.len() == self.skills(),
            d2.len() == d1.len(),
            forall|i: int| 0 <= i < d1.len() ==> d1[i] <= d2[i],
        ensures
            0 <= self.needs_after(d1, from) <= self.needs_after(d2, from),
        decreases self.order@.len() - from,
    {
        if 0 <= from < self.order@.len() {
            self.lemma_needs_after_monotone(d1, d2, from + 1);
            let a = self.order@[from] as int;
            Self::lemma_need_monotone(d1[a] as int, d2[a] as int, self.scores@[a] as int);
        }
    }

    /// A valid path takes the slots that the bound on the slots counts on:
    /// where the skills from position `t` on need more slots than there are,
    /// by their scores, no path is valid from `t` on.
    pub proof fn lemma_needs_fit(
        &self,
        deficits: Seq<i32>,
        path: Seq<[i32; 3]>,
        t: int,
        budget: (int, int, int),
        carry: int,
    )
        requires
            self.wf(),
            deficits.len() == self.skills(),
            path.len() == self.skills(),
            0 <= t <= self.skills(),
            0 <= carry,
            budget.0 >= 0,
            self.valid_from(deficits, path, t, budget, carry),
        ensures
            self.pending_need(deficits, t, carry) <= budget.0,
        decreases self.skills() - t,
    {
        if t < self.skills() {
            let a = self.order@[t] as int;
            let c = triple(path[t]);
            let next = self.carry_after(t, c);
            self.lemma_step(deficits, t, budget, carry, c);
            self.lemma_needs_fit(deficits, path, t + 1, remaining(budget, c), next);
            self.lemma_needs_nonneg(deficits, t + 2);
            if t + 1 < self.skills() {
                let b = self.order@[t + 1] as int;
                Self::lemma_need_monotone(
                    deficits[b] as int,
                    self.target(deficits, t + 1, next),
                    self.scores@[b] as int,
                );
            }
        }
    }

    /// The decorations of a valid path are among `decorations`.
    pub proof fn lemma_entries_from(
        &self,
        decorations: Seq<Row>,
        deficits: Seq<i32>,
        path: Seq<[i32; 3]>,
        t: int,
        budget: (int, int, int),
        carry: int,
    )
        requires
            self.wf(),
            self.consistent(decorations),
            deficits.len() == self.skills(),
            path.len() == self.skills(),
            0 <= t <= self.skills(),
            self.valid_from(deficits, path, t, budget, carry),
        ensures
            entries_ok(decorations, self.assignment_from(path, t), self.skills()),
        decreases self.skills() - t,
    {
        if t < self.skills() {
            let a = self.order@[t] as int;
            let c = triple(path[t]);
            self.lemma_entries_from(
                decorations,
                deficits,
                path,
                t + 1,
                remaining(budget, c),
                self.carry_after(t, c),
            );
            assert(self.pick_ok(decorations, a, 0));
            assert(self.pick_ok(decorations, a, 1));
            assert(self.pick_ok(decorations, a, 2));
            assert(self.sizes_present(a, c));
            let all = self.assignment_from(path, t);
            let head = self.entries_at(path, t);
            let rest = self.assignment_from(path, t + 1);
            let e0 = entry(c.0, self.picks@[a][0]);
            let e1 = entry(c.1, self.picks@[a][1]);
            let e2 = entry(c.2, self.picks@[a][2]);
            assert(entries_ok(decorations, e0, self.skills()));
            assert(entries_ok(decorations, e1, self.skills()));
            assert(entries_ok(decorations, e2, self.skills()));
            assert forall|i: int| 0 <= i < all.len() implies (#[trigger] all[i]).0 <= i32::MAX
                && all[i].1 < decorations.len() && decorations[all[i].1 as int].points@.len()
                == self.skills() by {
                if i < e0.len() {
                    assert(all[i] == e0[i]);
                } else if i < e0.len() + e1.len() {
                    assert(all[i] == e1[i - e0.len()]);
                } else if i < head.len() {
                    assert(all[i] == e2[i - e0.len() - e1.len()]);
                } else {
                    assert(all[i] == rest[i - head.len()]);
                }
            }
        }
    }

    /// The decorations that a valid path stands for take no more slots than
    /// the budget has.
    pub proof fn lemma_fits_from(
        &self,
        decorations: Seq<Row>,
        deficits: Seq<i32>,
        path: Seq<[i32; 3]>,
        t: int,
        budget: (int, int, int),
        carry: int,
    )
        requires
            self.wf(),
            self.consistent(decorations),
            deficits.len() == self.skills(),
            path.len() == self.skills(),
            0 <= t <= self.skills(),
            budget.0 >= 0,
            self.valid_from(deficits, path, t, budget, carry),
        ensures
            slots_used(decorations, self.assignment_from(path, t)) <= budget.0,
        decreases self.skills() - t,
    {
        if t < self.skills() {
            let a = self.order@[t] as int;
            let c = triple(path[t]);
            self.lemma_step(deficits, t, budget, carry, c);
            self.lemma_fits_from(
                decorations,
                deficits,
                path,
                t + 1,
                remaining(budget, c),
                self.carry_after(t, c),
            );
            let e0 = entry(c.0, self.picks@[a][0]);
            let e1 = entry(c.1, self.picks@[a][1]);
            let e2 = entry(c.2, self.picks@[a][2]);
            lemma_entry_sums(decorations, c.0, self.picks@[a][0], 0);
            lemma_entry_sums(decorations, c.1, self.picks@[a][1], 0);
            lemma_entry_sums(decorations, c.2, self.picks@[a][2], 0);
            lemma_slots_used_concat(decorations, e0, e1);
            lemma_slots_used_concat(decorations, e0 + e1, e2);
            lemma_slots_used_concat(
                decorations,
                self.entries_at(path, t),
                self.assignment_from(path, t + 1),
            );
            assert(self.pick_ok(decorations, a, 0));
            assert(self.pick_ok(decorations, a, 1));
            assert(self.pick_ok(decorations, a, 2));
            assert(c.0 * decorations[self.picks@[a][0] as int].slots == c.0) by (nonlinear_arith)
                requires
                    c.0 == 0 || decorations[self.picks@[a][0] as int].slots == 1,
            ;
            assert(c.1 * decorations[self.picks@[a][1] as int].slots == 2 * c.1) by (nonlinear_arith)
                requires
                    c.1 == 0 || decorations[self.picks@[a][1] as int].slots == 2,
            ;
            assert(c.2 * decorations[self.picks@[a][2] as int].slots == 3 * c.2) by (nonlinear_arith)
                requires
                    c.2 == 0 || decorations[self.picks@[a][2] as int].slots == 3,
            ;
        }
    }

    /// Of the decorations that a valid path stands for, no more take two
    /// slots or more than there are pieces for, and no more take three slots
    /// than there are pieces of three slots.
    pub proof fn lemma_sizes_fit_from(
        &self,
        decorations: Seq<Row>,
        deficits: Seq<i32>,
        path: Seq<[i32; 3]>,
        t: int,
        budget: (int, int, int),
        carry: int,
    )
        requires
            self.wf(),
            self.consistent(decorations),
            deficits.len() == self.skills(),
            path.len() == self.skills(),
            0 <= t <= self.skills(),
            budget.1 >= 0,
            budget.2 >= 0,
            self.valid_from(deficits, path, t, budget, carry),
        ensures
            large_used(decorations, self.assignment_from(path, t), 2) <= budget.1,
            large_used(decorations, self.assignment_from(path, t), 3) <= budget.2,
        decreases self.skills() - t,
    {
        if t < self.skills() {
            let a = self.order@[t] as int;
            let c = triple(path[t]);
            self.lemma_step(deficits, t, budget, carry, c);
            self.lemma_sizes_fit_from(
                decorations,
                deficits,
                path,
                t + 1,
                remaining(budget, c),
                self.carry_after(t, c),
            );
            let e0 = entry(c.0, self.picks@[a][0]);
            let e1 = entry(c.1, self.picks@[a][1]);
            let e2 = entry(c.2, self.picks@[a][2]);
            assert(self.pick_ok(decorations, a, 0));
            assert(self.pick_ok(decorations, a, 1));
            assert(self.pick_ok(decorations, a, 2));
            lemma_entry_large(decorations, c.0, self.picks@[a][0], 2);
            lemma_entry_large(decorations, c.1, self.picks@[a][1], 2);
            lemma_entry_large(decorations, c.2, self.picks@[a][2], 2);
            lemma_entry_large(decorations, c.0, self.picks@[a][0], 3);
            lemma_entry_large(decorations, c.1, self.picks@[a][1], 3);
            lemma_entry_large(decorations, c.2, self.picks@[a][2], 3);
            lemma_large_used_concat(decorations, e0, e1, 2);
            lemma_large_used_concat(decorations, e0 + e1, e2, 2);
            lemma_large_used_concat(decorations, e0, e1, 3);
            lemma_large_used_concat(decorations, e0 + e1, e2, 3);
            lemma_large_used_concat(
                decorations,
                self.entries_at(path, t),
                self.assignment_from(path, t + 1),
                2,
            );
            lemma_large_used_concat(
                decorations,
                self.entries_at(path, t),
                self.assignment_from(path, t + 1),
                3,
            );
        }
    }

    /// The decorations that a valid path stands for, from position `t` on,
    /// close the deficit of the skill `r` where its position `at` is still to
    /// come, and take nothing from it where it is not.
    pub proof fn lemma_closes_from(
        &self,
        decorations: Seq<Row>,
        deficits: Seq<i32>,
        path: Seq<[i32; 3]>,
        t: int,
        budget: (int, int, int),
        carry: int,
        r: int,
        at: int,
    )
        requires
            self.wf(),
            self.consistent(decorations),
            self.well_paired(decorations),
            deficits.len() == self.skills(),
            path.len() == self.skills(),
            0 <= t <= self.skills(),
            0 <= at < self.skills(),
            self.order@[at] == r,
            self.valid_from(deficits, path, t, budget, carry),
        ensures
            t < at ==> granted(decorations, self.assignment_from(path, t), r) >= deficits[r],
            t == at ==> granted(decorations, self.assignment_from(path, t), r) >= deficits[r]
                + carry,
            t > at ==> granted(decorations, self.assignment_from(path, t), r) >= 0,
        decreases self.skills() - t,
    {
        if t < self.skills() {
            let a = self.order@[t] as int;
            let c = triple(path[t]);
            self.lemma_step(deficits, t, budget, carry, c);
            self.lemma_closes_from(
                decorations,
                deficits,
                path,
                t + 1,
                remaining(budget, c),
                self.carry_after(t, c),
                r,
                at,
            );
            let e0 = entry(c.0, self.picks@[a][0]);
            let e1 = entry(c.1, self.picks@[a][1]);
            let e2 = entry(c.2, self.picks@[a][2]);
            lemma_entry_sums(decorations, c.0, self.picks@[a][0], r);
            lemma_entry_sums(decorations, c.1, self.picks@[a][1], r);
            lemma_entry_sums(decorations, c.2, self.picks@[a][2], r);
            lemma_granted_concat(decorations, e0, e1, r);
            lemma_granted_concat(decorations, e0 + e1, e2, r);
            lemma_granted_concat(
                decorations,
                self.entries_at(path, t),
                self.assignment_from(path, t + 1),
                r,
            );
            let g0 = decorations[self.picks@[a][0] as int].points@[r] as int;
            let g1 = decorations[self.picks@[a][1] as int].points@[r] as int;
            let g2 = decorations[self.picks@[a][2] as int].points@[r] as int;
            let here = c.0 * g0 + c.1 * g1 + c.2 * g2;
            assert(granted(decorations, self.entries_at(path, t), r) == here);
            assert(self.pick_ok(decorations, a, 0));
            assert(self.pick_ok(decorations, a, 1));
            assert(self.pick_ok(decorations, a, 2));
            assert(self.pair_ok(decorations, t, 0, r));
            assert(self.pair_ok(decorations, t, 1, r));
            assert(self.pair_ok(decorations, t, 2, r));
            if t == at {
                let s0 = self.summands@[a][0] as int;
                let s1 = self.summands@[a][1] as int;
                let s2 = self.summands@[a][2] as int;
                assert(c.0 * g0 == c.0 * s0) by (nonlinear_arith)
                    requires
                        c.0 == 0 || g0 == s0,
                ;
                assert(c.1 * g1 == c.1 * s1) by (nonlinear_arith)
                    requires
                        c.1 == 0 || g1 == s1,
                ;
                assert(c.2 * g2 == c.2 * s2) by (nonlinear_arith)
                    requires
                        c.2 == 0 || g2 == s2,
                ;
            } else {
                let d0 = self.drain@[a][0] as int;
                let d1 = self.drain@[a][1] as int;
                let d2 = self.drain@[a][2] as int;
                if t + 1 == at && self.linked@[t] {
                    assert(c.0 * g0 >= -(c.0 * d0)) by (nonlinear_arith)
                        requires
                            c.0 >= 0,
                            d0 >= 0,
                            c.0 == 0 || g0 >= 0 || g0 >= -d0,
                    ;
                    assert(c.1 * g1 >= -(c.1 * d1)) by (nonlinear_arith)
                        requires
                            c.1 >= 0,
                            d1 >= 0,
                            c.1 == 0 || g1 >= 0 || g1 >= -d1,
                    ;
                    assert(c.2 * g2 >= -(c.2 * d2)) by (nonlinear_arith)
                        requires
                            c.2 >= 0,
                            d2 >= 0,
                            c.2 == 0 || g2 >= 0 || g2 >= -d2,
                    ;
                } else {
                    assert(c.0 * g0 >= 0) by (nonlinear_arith)
                        requires
                            c.0 >= 0,
                            c.0 == 0 || g0 >= 0,
                    ;
                    assert(c.1 * g1 >= 0) by (nonlinear_arith)
                        requires
                            c.1 >= 0,
                            c.1 == 0 || g1 >= 0,
                    ;
                    assert(c.2 * g2 >= 0) by (nonlinear_arith)
                        requires
                            c.2 >= 0,
                            c.2 == 0 || g2 >= 0,
                    ;
                }
            }
        }
    }
}


impl DecorationTables {
    fn push_entry(&self, out: &mut Vec<(usize, usize)>, count: i32, pick: usize)
        ensures
            final(out)@ == old(out)@ + entry(count as int, pick),
    {
        if count > 0 {
            out.push((count as usize, pick));
            assert(out@ =~= old(out)@ + entry(count as int, pick));
        } else {
            assert(out@ =~= old(out)@ + entry(count as int, pick));
        }
    }

    /// Looks for decorations that close `deficits`, the points that each
    /// wanted skill still lacks, within the slots of `slots_at_size` pieces
    /// with one, two and three slots. Gives the decorations as pairs of a
    /// count and a place in the pool, or `None` where there are none that
    /// the search reaches.
    pub fn check_decorations(&self, deficits: &Vec<i32>, slots_at_size: &[u32; 3]) -> (r: Option<
        Vec<(usize, usize)>,
    >)
        requires
            self.wf(),
            deficits.len() == self.skills(),
            start_budget(counts(*slots_at_size)).0 <= i32::MAX,
        ensures
            answers(
                self,
                deficits@,
                start_budget(counts(*slots_at_size)),
                match r {
                    Some(a) => Some(a@),
                    None => None,
                },
            ),
    {
        let k = self.order.len();
        let one = slots_at_size[0] as i64;
        let two = slots_at_size[1] as i64;
        let three = slots_at_size[2] as i64;
        let budget: [i32; 3] = [(one + 2 * two + 3 * three) as i32, (two + three) as i32, three as i32];
        assert(triple(budget) == start_budget(counts(*slots_at_size)));
        let mut path: Vec<[i32; 3]> = Vec::new();
        let mut i: usize = 0;
        while i < k
            invariant
                i <= k,
                path.len() == i,
            decreases k - i,
        {
            path.push([0, 0, 0]);
            i += 1;
        }
        let found = self.solve_from(deficits, 0, budget, 0, &mut path);
        if !found {
            return None;
        }
        let mut out: Vec<(usize, usize)> = Vec::new();
        let mut t: usize = 0;
        assert(out@ + self.assignment_from(path@, 0) =~= self.assignment_from(path@, 0));
        while t < k
            invariant
                self.wf(),
                k == self.skills(),
                path.len() == k,
                t <= k,
                out@ + self.assignment_from(path@, t as int) == self.assignment_from(path@, 0),
            decreases k - t,
        {
            let a = self.order[t];
            let c = path[t];
            let ghost before = out@;
            self.push_entry(&mut out, c[0], self.picks[a][0]);
            self.push_entry(&mut out, c[1], self.picks[a][1]);
            self.push_entry(&mut out, c[2], self.picks[a][2]);
            assert(out@ =~= before + self.entries_at(path@, t as int));
            assert(out@ + self.assignment_from(path@, t + 1) =~= before + self.assignment_from(
                path@,
                t as int,
            ));
            t += 1;
        }
        assert(out@ + self.assignment_from(path@, k as int) =~= out@);
        Some(out)
    }
}


impl DecorationTables {
    /// The search finds one path only: two paths that it finds stand for the
    /// same decorations.
    pub proof fn lemma_first_unique(
        &self,
        deficits: Seq<i32>,
        p: Seq<[i32; 3]>,
        q: Seq<[i32; 3]>,
        t: int,
        budget: (int, int, int),
        carry: int,
    )
        requires
            p.len() == self.skills(),
            q.len() == self.skills(),
            0 <= t,
            self.first_from(deficits, p, t, budget, carry),
            self.first_from(deficits, q, t, budget, carry),
        ensures
            forall|u: int| t <= u < self.skills() ==> triple(#[trigger] p[u]) == triple(q[u]),
            self.assignment_from(p, t) == self.assignment_from(q, t),
        decreases self.skills() - t,
    {
        if t < self.skills() {
            let a = triple(p[t]);
            let b = triple(q[t]);
            self.lemma_first_is_valid(deficits, p, t, budget, carry);
            self.lemma_first_is_valid(deficits, q, t, budget, carry);
            assert(self.no_step_before(deficits, t, budget, carry, a));
            assert(self.no_step_before(deficits, t, budget, carry, b));
            assert(a == b);
            self.lemma_first_unique(
                deficits,
                p,
                q,
                t + 1,
                remaining(budget, a),
                self.carry_after(t, a),
            );
        }
    }
}

} // verus!

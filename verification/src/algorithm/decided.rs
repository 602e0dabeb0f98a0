//! The decorations decide the tables: two tables that describe the same
//! decorations tell the solver the same.

use crate::algorithm::decorate::DecorationTables;
use crate::algorithm::rows::Row;
use crate::algorithm::score::{is_best_row_density, is_decoration, row_density};
use crate::algorithm::tables::{
    first_positive, first_taken, has_group_first, in_group, in_order, is_group_first,
    is_solver_order, is_start, pair_described, unplaced,
};
use vstd::prelude::*;

verus! {

broadcast use vstd::array::group_array_axioms;

/// The rows of `a` and `b` have the same slots and points, place by place.
pub open spec fn alike(a: Seq<Row>, b: Seq<Row>) -> bool {
    a.len() == b.len() && forall|i: int|
        0 <= i < a.len() ==> (#[trigger] a[i]).slots == b[i].slots && a[i].points@ == b[i].points@
}

/// The decorations decide which skill the decorations of a skill take points
/// from.
pub proof fn lemma_pair_decided(
    a: Seq<Row>,
    b: Seq<Row>,
    skill: int,
    skills: int,
    first: Option<usize>,
    second: Option<usize>,
)
    requires
        alike(a, b),
        pair_described(a, a.len() as int, skill, skills, first),
        pair_described(b, b.len() as int, skill, skills, second),
    ensures
        first == second,
        has_group_first(a, a.len() as int, skill) == has_group_first(b, b.len() as int, skill),
{
    let n = a.len() as int;
    if has_group_first(a, n, skill) {
        let f = choose|f: int| #[trigger] is_group_first(a, n, skill, f);
        assert(is_group_first(b, n, skill, f)) by {
            assert(a[f].points@ == b[f].points@);
            assert forall|j: int| 0 <= j < f implies first_positive(
                (#[trigger] b[j]).points@,
                0,
            ) != skill by {
                assert(a[j].points@ == b[j].points@);
            }
        }
        assert(first_taken(a[f], skills) == first_taken(b[f], skills));
    } else if has_group_first(b, n, skill) {
        let f = choose|f: int| #[trigger] is_group_first(b, n, skill, f);
        assert(is_group_first(a, n, skill, f)) by {
            assert(a[f].points@ == b[f].points@);
            assert forall|j: int| 0 <= j < f implies first_positive(
                (#[trigger] a[j]).points@,
                0,
            ) != skill by {
                assert(a[j].points@ == b[j].points@);
            }
        }
    }
}

/// The pairs and the skills with decorations decide the order up to
/// position `upto`.
proof fn lemma_order_prefix(
    pair: Seq<Option<usize>>,
    grouped: Seq<bool>,
    o1: Seq<usize>,
    l1: Seq<bool>,
    o2: Seq<usize>,
    l2: Seq<bool>,
    upto: int,
)
    requires
        is_solver_order(pair, grouped, o1, l1),
        is_solver_order(pair, grouped, o2, l2),
        0 <= upto <= pair.len(),
    ensures
        forall|u: int| 0 <= u < upto ==> o1[u] == o2[u],
        forall|u: int| 0 <= u < upto - 1 ==> l1[u] == l2[u],
    decreases upto,
{
    if upto > 0 {
        let t = upto - 1;
        lemma_order_prefix(pair, grouped, o1, l1, o2, l2, t);
        assert(in_order(pair, grouped, o1, l1, t));
        assert(in_order(pair, grouped, o2, l2, t));
        assert forall|c: int| unplaced(o1, t, c) == unplaced(o2, t, c) by {
            if unplaced(o1, t, c) {
                assert forall|u: int| 0 <= u < t implies #[trigger] o2[u] != c by {
                    assert(o1[u] != c);
                }
            }
            if unplaced(o2, t, c) {
                assert forall|u: int| 0 <= u < t implies #[trigger] o1[u] != c by {
                    assert(o2[u] != c);
                }
            }
        }
        let x1 = o1[t] as int;
        let x2 = o2[t] as int;
        if is_start(pair, grouped, o1, t, x1) && is_start(pair, grouped, o2, t, x2) {
            assert(unplaced(o1, t, x2));
            assert(unplaced(o2, t, x1));
        }
    }
}

/// The pairs and the skills with decorations decide the order and the links.
pub proof fn lemma_order_decided(
    pair: Seq<Option<usize>>,
    grouped: Seq<bool>,
    o1: Seq<usize>,
    l1: Seq<bool>,
    o2: Seq<usize>,
    l2: Seq<bool>,
)
    requires
        is_solver_order(pair, grouped, o1, l1),
        is_solver_order(pair, grouped, o2, l2),
    ensures
        o1 == o2,
        l1 == l2,
{
    lemma_order_prefix(pair, grouped, o1, l1, o2, l2, pair.len() as int);
    assert(o1 =~= o2);
    assert(l1 =~= l2);
}

impl DecorationTables {
    /// The tables describe `decorations`: they hold what `build` gathers
    /// from them.
    pub open spec fn describes(&self, decorations: Seq<Row>) -> bool {
        &&& self.wf()
        &&& self.best_picked(decorations)
        &&& self.drains_taken(decorations)
        &&& self.pairs_found(decorations)
        &&& self.groups_found(decorations)
        &&& self.scores_found(decorations)
        &&& self.arranged()
    }

    /// The decorations decide the best decoration of each group and size.
    proof fn lemma_pick_decided(
        &self,
        other: &DecorationTables,
        mine: Seq<Row>,
        theirs: Seq<Row>,
        a: int,
        z: int,
    )
        requires
            alike(mine, theirs),
            self.skills() == other.skills(),
            0 <= a < self.skills(),
            0 <= z < 3,
            self.best_pick(mine, a, z),
            other.best_pick(theirs, a, z),
        ensures
            self.present@[a][z] == other.present@[a][z],
            self.summands@[a][z] == other.summands@[a][z],
            self.present@[a][z] ==> self.picks@[a][z] == other.picks@[a][z],
    {
        assert forall|i: int| 0 <= i < mine.len() implies in_group(mine[i], a, z) == in_group(
            theirs[i],
            a,
            z,
        ) && mine[i].points@ == theirs[i].points@ by {
            assert(mine[i].slots == theirs[i].slots && mine[i].points@ == theirs[i].points@);
        }
        let ours = self.picks@[a][z] as int;
        let others_pick = other.picks@[a][z] as int;
        if self.present@[a][z] {
            assert(in_group(theirs[ours], a, z));
        }
        if other.present@[a][z] {
            assert(in_group(mine[others_pick], a, z));
        }
        if self.present@[a][z] && other.present@[a][z] {
            assert(in_group(mine[ours], a, z) && in_group(mine[others_pick], a, z));
            assert(in_group(theirs[ours], a, z) && in_group(theirs[others_pick], a, z));
            assert(mine[others_pick].points@[a] <= self.summands@[a][z]);
            assert(theirs[ours].points@[a] <= other.summands@[a][z]);
        }
    }

    /// The decorations decide the tables: two tables that describe
    /// decorations with the same slots and points tell the solver the same,
    /// and hold the same scores.
    pub proof fn lemma_tables_decided(
        &self,
        other: &DecorationTables,
        mine: Seq<Row>,
        theirs: Seq<Row>,
    )
        requires
            alike(mine, theirs),
            self.skills() == other.skills(),
            self.describes(mine),
            other.describes(theirs),
        ensures
            self.agrees_with(other),
            self.scores@ == other.scores@,
    {
        let k = self.skills();
        assert forall|a: int| 0 <= a < k implies self.pairs@[a] == other.pairs@[a]
            && self.grouped@[a] == other.grouped@[a] by {
            assert(pair_described(mine, mine.len() as int, a, k, self.pairs@[a]));
            assert(pair_described(theirs, theirs.len() as int, a, k, other.pairs@[a]));
            lemma_pair_decided(mine, theirs, a, k, self.pairs@[a], other.pairs@[a]);
        }
        assert(self.pairs@ =~= other.pairs@);
        assert(self.grouped@ =~= other.grouped@);
        lemma_order_decided(
            self.pairs@,
            self.grouped@,
            self.order@,
            self.linked@,
            other.order@,
            other.linked@,
        );
        assert forall|a: int, z: int| 0 <= a < k && 0 <= z < 3 implies self.present@[a][z]
            == other.present@[a][z] && self.summands@[a][z] == other.summands@[a][z]
            && self.drain@[a][z] == other.drain@[a][z] by {
            assert(self.best_pick(mine, a, z));
            assert(other.best_pick(theirs, a, z));
            self.lemma_pick_decided(other, mine, theirs, a, z);
            assert(self.has_position(a));
            let t = choose|t: int| 0 <= t < self.order@.len() && #[trigger] self.order@[t] == a;
            assert(self.drain_ok(mine, t, z));
            assert(other.drain_ok(theirs, t, z));
            if self.linked@[t] && self.present@[a][z] {
                let pick = self.picks@[a][z] as int;
                assert(mine[pick].points@ == theirs[pick].points@);
            }
        }
        assert forall|a: int| 0 <= a < k implies self.present@[a] == other.present@[a]
            && self.summands@[a] == other.summands@[a] && self.drain@[a] == other.drain@[a] by {
            assert(self.present@[a]@ =~= other.present@[a]@);
            assert(self.summands@[a]@ =~= other.summands@[a]@);
            assert(self.drain@[a]@ =~= other.drain@[a]@);
        }
        assert(self.present@ =~= other.present@);
        assert(self.summands@ =~= other.summands@);
        assert(self.drain@ =~= other.drain@);
        assert forall|r: int| 0 <= r < k implies self.scores@[r] == other.scores@[r] by {
            let v = self.scores@[r] as int;
            let w = other.scores@[r] as int;
            let n = mine.len() as int;
            assert(is_best_row_density(mine, n, r, v));
            assert(is_best_row_density(theirs, n, r, w));
            assert forall|i: int| 0 <= i < n implies is_decoration(mine[i]) == is_decoration(
                theirs[i],
            ) && row_density(mine[i], r) == row_density(theirs[i], r) by {
                assert(mine[i].slots == theirs[i].slots && mine[i].points@ == theirs[i].points@);
            }
            if v != 0 {
                let at = choose|i: int|
                    0 <= i < n && is_decoration(#[trigger] mine[i]) && row_density(mine[i], r) == v;
                assert(is_decoration(theirs[at]));
            }
            if w != 0 {
                let at = choose|i: int|
                    0 <= i < n && is_decoration(#[trigger] theirs[i]) && row_density(
                        theirs[i],
                        r,
                    ) == w;
                assert(is_decoration(mine[at]));
            }
        }
        assert(self.scores@ =~= other.scores@);
    }
}

} // verus!

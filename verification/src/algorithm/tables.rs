//! What the solver knows of the decorations, gathered from the pool: the
//! groups, the best decoration of each group and size, and the order in which
//! the skills are closed.

use crate::algorithm::decorate::DecorationTables;
use crate::algorithm::rows::Row;
use crate::algorithm::score::{is_best_row_density, is_decoration, row_density, row_scores};
use vstd::prelude::*;

verus! {

/// The first position from `from` on at which `points` is positive, or the
/// length of `points`.
pub open spec fn first_positive(points: Seq<i32>, from: int) -> int
    decreases points.len() - from,
{
    if from < 0 || from >= points.len() {
        points.len() as int
    } else if points[from] > 0 {
        from
    } else {
        first_positive(points, from + 1)
    }
}

/// The first positive position holds a positive number.
pub proof fn lemma_first_positive(points: Seq<i32>, from: int)
    requires
        0 <= from,
    ensures
        from <= first_positive(points, from) <= points.len() || points.len() < from,
        first_positive(points, from) < points.len() ==> points[first_positive(points, from)] > 0,
    decreases points.len() - from,
{
    if from < points.len() && points[from] <= 0 {
        lemma_first_positive(points, from + 1);
    }
}

/// The first position from `from` on at which `points` is negative, or the
/// length of `points`.
pub open spec fn first_negative(points: Seq<i32>, from: int) -> int
    decreases points.len() - from,
{
    if from < 0 || from >= points.len() {
        points.len() as int
    } else if points[from] < 0 {
        from
    } else {
        first_negative(points, from + 1)
    }
}

/// The first negative position is a position, or the length.
pub proof fn lemma_first_negative(points: Seq<i32>, from: int)
    requires
        0 <= from,
    ensures
        from <= first_negative(points, from) <= points.len() || points.len() < from,
    decreases points.len() - from,
{
    if from < points.len() && points[from] >= 0 {
        lemma_first_negative(points, from + 1);
    }
}

/// The decoration `d` belongs to the group of skill `a` and takes `z + 1`
/// slots: `a` is the first skill that it grants points for.
pub open spec fn in_group(d: Row, a: int, z: int) -> bool {
    d.slots == z + 1 && first_positive(d.points@, 0) == a
}

/// The points that stand for a size that no decoration of the group has.
pub const NO_DECORATION: i32 = 127;

fn first_positive_exec(points: &Vec<i32>) -> (r: usize)
    ensures
        r == first_positive(points@, 0),
        r <= points.len(),
        r < points.len() ==> points[r as int] > 0,
{
    let mut i: usize = 0;
    while i < points.len()
        invariant
            i <= points.len(),
            first_positive(points@, 0) == first_positive(points@, i as int),
        decreases points.len() - i,
    {
        if points[i] > 0 {
            return i;
        }
        i += 1;
    }
    i
}

fn first_negative_exec(points: &Vec<i32>) -> (r: usize)
    ensures
        r == first_negative(points@, 0),
        r <= points.len(),
{
    let mut i: usize = 0;
    while i < points.len()
        invariant
            i <= points.len(),
            first_negative(points@, 0) == first_negative(points@, i as int),
        decreases points.len() - i,
    {
        if points[i] < 0 {
            return i;
        }
        i += 1;
    }
    i
}

impl DecorationTables {
    /// Of each group and size the tables hold the decoration that grants the
    /// most points for the skill of the group, the last of them where several
    /// grant as many.
    pub open spec fn best_picked(&self, decorations: Seq<Row>) -> bool {
        forall|a: int, z: int|
            0 <= a < self.skills() && 0 <= z < 3 ==> #[trigger] self.best_pick(decorations, a, z)
    }

    /// The entry for skill `a` and size `z + 1` holds the best decoration of
    /// that group and size, or says that there is none.
    pub open spec fn best_pick(&self, decorations: Seq<Row>, a: int, z: int) -> bool {
        let pick = self.picks@[a][z] as int;
        if self.present@[a][z] {
            &&& 0 <= pick < decorations.len()
            &&& in_group(decorations[pick], a, z)
            &&& self.summands@[a][z] == decorations[pick].points@[a]
            &&& forall|i: int|
                0 <= i < decorations.len() && in_group(#[trigger] decorations[i], a, z)
                    ==> decorations[i].points@[a] <= self.summands@[a][z] && (i > pick
                    ==> decorations[i].points@[a] < self.summands@[a][z])
        } else {
            &&& self.summands@[a][z] == NO_DECORATION
            &&& forall|i: int|
                0 <= i < decorations.len() ==> !in_group(#[trigger] decorations[i], a, z)
        }
    }

    /// Gathers, for `skills` wanted skills, what the solver needs to know of
    /// `decorations`: the best decoration of each group and size.
    fn gather(decorations: &Vec<Row>, skills: usize) -> (r: (
        Vec<[i32; 3]>,
        Vec<[bool; 3]>,
        Vec<[usize; 3]>,
        Vec<Option<usize>>,
        Vec<bool>,
    ))
        requires
            forall|i: int|
                0 <= i < decorations.len() ==> (#[trigger] decorations[i]).points@.len() == skills,
        ensures
            r.0.len() == skills,
            r.1.len() == skills,
            r.2.len() == skills,
            r.3.len() == skills,
            r.4.len() == skills,
            forall|a: int|
                0 <= a < skills ==> #[trigger] r.4@[a] == has_group_first(
                    decorations@,
                    decorations.len() as int,
                    a,
                ),
            forall|a: int, z: int|
                0 <= a < skills && 0 <= z < 3 ==> #[trigger] gathered(
                    decorations@,
                    decorations.len() as int,
                    a,
                    z,
                    r.0@[a][z],
                    r.1@[a][z],
                    r.2@[a][z],
                ),
            forall|a: int|
                0 <= a < skills ==> #[trigger] pair_described(
                    decorations@,
                    decorations.len() as int,
                    a,
                    skills as int,
                    r.3@[a],
                ),
    {
        let mut summands: Vec<[i32; 3]> = Vec::new();
        let mut present: Vec<[bool; 3]> = Vec::new();
        let mut picks: Vec<[usize; 3]> = Vec::new();
        let mut pair: Vec<Option<usize>> = Vec::new();
        let mut seen: Vec<bool> = Vec::new();
        let mut a: usize = 0;
        while a < skills
            invariant
                a <= skills,
                summands.len() == a,
                present.len() == a,
                picks.len() == a,
                pair.len() == a,
                seen.len() == a,
                forall|b: int, z: int|
                    0 <= b < a && 0 <= z < 3 ==> #[trigger] gathered(
                        decorations@,
                        0,
                        b,
                        z,
                        summands@[b][z],
                        present@[b][z],
                        picks@[b][z],
                    ),
                forall|b: int| 0 <= b < a ==> !#[trigger] seen@[b],
                forall|b: int| 0 <= b < a ==> #[trigger] pair@[b] is None,
                forall|b: int| 0 <= b < a ==> !#[trigger] has_group_first(decorations@, 0, b),
            decreases skills - a,
        {
            summands.push([NO_DECORATION, NO_DECORATION, NO_DECORATION]);
            present.push([false, false, false]);
            picks.push([0, 0, 0]);
            pair.push(None);
            seen.push(false);
            assert(!has_group_first(decorations@, 0, a as int)) by {
                if has_group_first(decorations@, 0, a as int) {
                    let f = choose|f: int| #[trigger] is_group_first(decorations@, 0, a as int, f);
                }
            }
            a += 1;
        }
        let mut i: usize = 0;
        while i < decorations.len()
            invariant
                i <= decorations.len(),
                summands.len() == skills,
                present.len() == skills,
                picks.len() == skills,
                pair.len() == skills,
                seen.len() == skills,
                forall|j: int|
                    0 <= j < decorations.len() ==> (#[trigger] decorations[j]).points@.len()
                        == skills,
                forall|b: int, z: int|
                    0 <= b < skills && 0 <= z < 3 ==> #[trigger] gathered(
                        decorations@,
                        i as int,
                        b,
                        z,
                        summands@[b][z],
                        present@[b][z],
                        picks@[b][z],
                    ),
                forall|b: int|
                    0 <= b < skills ==> #[trigger] seen@[b] == has_group_first(
                        decorations@,
                        i as int,
                        b,
                    ),
                forall|b: int|
                    0 <= b < skills ==> #[trigger] pair_described(
                        decorations@,
                        i as int,
                        b,
                        skills as int,
                        pair@[b],
                    ),
            decreases decorations.len() - i,
        {
            let d = &decorations[i];
            let p = first_positive_exec(&d.points);
            let ghost old_summands = summands@;
            let ghost old_present = present@;
            let ghost old_picks = picks@;
            let ghost old_seen = seen@;
            let ghost old_pair = pair@;
            if p < skills {
                if !seen[p] {
                    seen.set(p, true);
                    let n = first_negative_exec(&d.points);
                    pair.set(p, if n < skills { Some(n) } else { None });
                }
                if 1 <= d.slots && d.slots <= 3 {
                    let z = (d.slots - 1) as usize;
                    let value = d.points[p];
                    if !present[p][z] || value >= summands[p][z] {
                        let mut s = summands[p];
                        s[z] = value;
                        summands.set(p, s);
                        let mut q = present[p];
                        q[z] = true;
                        present.set(p, q);
                        let mut w = picks[p];
                        w[z] = i;
                        picks.set(p, w);
                    }
                }
            }
            proof {
                assert forall|b: int, z: int| 0 <= b < skills && 0 <= z < 3 implies #[trigger] gathered(
                    decorations@,
                    i + 1,
                    b,
                    z,
                    summands@[b][z],
                    present@[b][z],
                    picks@[b][z],
                ) by {
                    assert(gathered(
                        decorations@,
                        i as int,
                        b,
                        z,
                        old_summands[b][z],
                        old_present[b][z],
                        old_picks[b][z],
                    ));
                }
                assert forall|b: int| 0 <= b < skills implies #[trigger] seen@[b] == has_group_first(
                    decorations@,
                    i + 1,
                    b,
                ) by {
                    if has_group_first(decorations@, i as int, b) {
                        let f = choose|f: int| #[trigger] is_group_first(decorations@, i as int, b, f);
                        assert(is_group_first(decorations@, i + 1, b, f));
                    } else if b == p {
                        lemma_new_group_first(decorations@, i as int, b);
                    } else if has_group_first(decorations@, i + 1, b) {
                        let f = choose|f: int| #[trigger] is_group_first(decorations@, i + 1, b, f);
                        assert(is_group_first(decorations@, i as int, b, f));
                    }
                }
                assert forall|b: int| 0 <= b < skills implies #[trigger] pair_described(
                    decorations@,
                    i + 1,
                    b,
                    skills as int,
                    pair@[b],
                ) by {
                    assert(pair_described(decorations@, i as int, b, skills as int, old_pair[b]));
                    if has_group_first(decorations@, i as int, b) {
                        let f = choose|f: int| #[trigger] is_group_first(decorations@, i as int, b, f);
                        assert(is_group_first(decorations@, i + 1, b, f));
                        lemma_group_first_unique(decorations@, i + 1, b);
                    } else if b == p {
                        lemma_new_group_first(decorations@, i as int, b);
                        lemma_group_first_unique(decorations@, i + 1, b);
                    } else {
                        if has_group_first(decorations@, i + 1, b) {
                            let f = choose|f: int| #[trigger] is_group_first(decorations@, i + 1, b, f);
                            assert(is_group_first(decorations@, i as int, b, f));
                        }
                    }
                }
            }
            i += 1;
        }
        (summands, present, picks, pair, seen)
    }
}

/// Among the first `upto` decorations, `pick` is the best of the group of
/// skill `a` with `z + 1` slots and grants `summand` points, or there is none.
pub open spec fn gathered(
    decorations: Seq<Row>,
    upto: int,
    a: int,
    z: int,
    summand: i32,
    present: bool,
    pick: usize,
) -> bool {
    if present {
        &&& 0 <= pick < upto
        &&& in_group(decorations[pick as int], a, z)
        &&& summand == decorations[pick as int].points@[a]
        &&& forall|i: int|
            0 <= i < upto && in_group(#[trigger] decorations[i], a, z) ==> decorations[i].points@[a]
                <= summand && (i > pick ==> decorations[i].points@[a] < summand)
    } else {
        &&& summand == NO_DECORATION
        &&& forall|i: int| 0 <= i < upto ==> !in_group(#[trigger] decorations[i], a, z)
    }
}

/// Among the first `upto` decorations, that at place `f` is the first of the
/// group of skill `a`.
pub open spec fn is_group_first(decorations: Seq<Row>, upto: int, a: int, f: int) -> bool {
    &&& 0 <= f < upto
    &&& first_positive(decorations[f].points@, 0) == a
    &&& forall|j: int| 0 <= j < f ==> first_positive((#[trigger] decorations[j]).points@, 0) != a
}

/// Among the first `upto` decorations there is one of the group of skill
/// `a`.
pub open spec fn has_group_first(decorations: Seq<Row>, upto: int, a: int) -> bool {
    exists|f: int| #[trigger] is_group_first(decorations, upto, a, f)
}

/// The first skill, of `skills`, that the decoration of `row` takes points
/// from.
pub open spec fn first_taken(row: Row, skills: int) -> Option<usize> {
    let n = first_negative(row.points@, 0);
    if n < skills {
        Some(n as usize)
    } else {
        None
    }
}

/// `pair` is the skill that the decorations of skill `a` take points from,
/// as far as the first `upto` decorations tell: the first skill that the
/// first decoration of the group takes points from.
pub open spec fn pair_described(
    decorations: Seq<Row>,
    upto: int,
    a: int,
    skills: int,
    pair: Option<usize>,
) -> bool {
    if has_group_first(decorations, upto, a) {
        forall|f: int| #[trigger]
            is_group_first(decorations, upto, a, f) ==> pair == first_taken(decorations[f], skills)
    } else {
        pair is None
    }
}

proof fn lemma_group_first_unique(decorations: Seq<Row>, upto: int, a: int)
    ensures
        forall|f: int, g: int|
            #[trigger] is_group_first(decorations, upto, a, f) && #[trigger] is_group_first(
                decorations,
                upto,
                a,
                g,
            ) ==> f == g,
{
    assert forall|f: int, g: int|
        #[trigger] is_group_first(decorations, upto, a, f) && #[trigger] is_group_first(
            decorations,
            upto,
            a,
            g,
        ) implies f == g by {
        if f < g {
            assert(first_positive(decorations[f].points@, 0) != a);
        }
        if g < f {
            assert(first_positive(decorations[g].points@, 0) != a);
        }
    }
}

/// A decoration of a group that has none among those before it is the first
/// of the group.
proof fn lemma_new_group_first(decorations: Seq<Row>, i: int, a: int)
    requires
        0 <= i,
        first_positive(decorations[i].points@, 0) == a,
        !has_group_first(decorations, i, a),
    ensures
        is_group_first(decorations, i + 1, a, i),
{
    assert forall|j: int| 0 <= j < i implies first_positive(
        (#[trigger] decorations[j]).points@,
        0,
    ) != a by {
        if first_positive(decorations[j].points@, 0) == a {
            lemma_some_group_first(decorations, i, a, j);
        }
    }
}

/// Where a decoration of the group stands among the first `upto`, the group
/// has a first one.
proof fn lemma_some_group_first(decorations: Seq<Row>, upto: int, a: int, j: int)
    requires
        0 <= j < upto,
        first_positive(decorations[j].points@, 0) == a,
    ensures
        has_group_first(decorations, upto, a),
    decreases j,
{
    if forall|i: int| 0 <= i < j ==> first_positive((#[trigger] decorations[i]).points@, 0) != a {
        assert(is_group_first(decorations, upto, a, j));
    } else {
        let i = choose|i: int|
            0 <= i < j && first_positive((#[trigger] decorations[i]).points@, 0) == a;
        lemma_some_group_first(decorations, upto, a, i);
    }
}

/// The points that a decoration takes where it grants `points`: none where
/// `points` is not negative.
pub open spec fn taken(points: i32) -> int {
    if points >= 0 {
        0
    } else if points == i32::MIN {
        i32::MAX as int
    } else {
        -points
    }
}

/// `order` names each of `skills` skills once.
pub open spec fn is_arrangement(order: Seq<usize>, skills: int) -> bool {
    &&& order.len() == skills
    &&& forall|t: int| 0 <= t < skills ==> 0 <= #[trigger] order[t] < skills
    &&& forall|t: int, u: int| 0 <= t < u < skills ==> order[t] != order[u]
    &&& forall|a: int| 0 <= a < skills ==> #[trigger] placed_in(order, a)
}

/// The skill `a` stands somewhere in `order`.
pub open spec fn placed_in(order: Seq<usize>, a: int) -> bool {
    exists|t: int| 0 <= t < order.len() && #[trigger] order[t] == a
}

/// The skill `b` is one that decorations of another skill take points from.
pub open spec fn is_target(pair: Seq<Option<usize>>, b: int) -> bool {
    exists|a: int| 0 <= a < pair.len() && #[trigger] pair[a] == Some(b as usize)
}

/// The skill `a` has no place before position `t`.
pub open spec fn unplaced(order: Seq<usize>, t: int, a: int) -> bool {
    forall|u: int| 0 <= u < t ==> #[trigger] order[u] != a
}

/// How late a skill is started with: first the skills with decorations that
/// decorations of no other skill take points from, then the other skills
/// with decorations, last the skills without decorations.
pub open spec fn start_rank(pair: Seq<Option<usize>>, grouped: Seq<bool>, a: int) -> int {
    if !grouped[a] {
        2
    } else if is_target(pair, a) {
        1
    } else {
        0
    }
}

/// The skill `x` is the one to start with at position `t`: of the skills
/// without a place it is the one of the least rank, and of those the least.
pub open spec fn is_start(
    pair: Seq<Option<usize>>,
    grouped: Seq<bool>,
    order: Seq<usize>,
    t: int,
    x: int,
) -> bool {
    &&& unplaced(order, t, x)
    &&& forall|a: int|
        0 <= a < pair.len() && #[trigger] unplaced(order, t, a) ==> start_rank(pair, grouped, x)
            < start_rank(pair, grouped, a) || (start_rank(pair, grouped, x) == start_rank(
            pair,
            grouped,
            a,
        ) && x <= a)
}

/// Position `t` holds what the rule of the order asks for: the skill that
/// the decorations of the skill before it take points from, where that one
/// had no place yet, and then the two positions are linked; else the skill
/// to start with.
pub open spec fn in_order(
    pair: Seq<Option<usize>>,
    grouped: Seq<bool>,
    order: Seq<usize>,
    linked: Seq<bool>,
    t: int,
) -> bool {
    if t > 0 && pair[order[t - 1] as int] is Some && unplaced(
        order,
        t,
        pair[order[t - 1] as int]->0 as int,
    ) {
        linked[t - 1] && order[t] == pair[order[t - 1] as int]->0
    } else {
        (t > 0 ==> !linked[t - 1]) && is_start(pair, grouped, order, t, order[t] as int)
    }
}

/// `order` and `linked` are the order in which the solver closes the skills,
/// for the pairs `pair` and the skills `grouped` that have decorations.
pub open spec fn is_solver_order(
    pair: Seq<Option<usize>>,
    grouped: Seq<bool>,
    order: Seq<usize>,
    linked: Seq<bool>,
) -> bool {
    &&& is_arrangement(order, pair.len() as int)
    &&& linked.len() == pair.len()
    &&& grouped.len() == pair.len()
    &&& forall|t: int| 0 <= t < pair.len() ==> #[trigger] in_order(pair, grouped, order, linked, t)
    &&& pair.len() > 0 ==> !linked[pair.len() - 1]
}

/// The skill `b` need not be looked at again when a start of rank `r` is
/// looked for: it is of another rank, or has a place before `pos`.
pub open spec fn passed(rank: Seq<usize>, position: Seq<usize>, pos: int, r: int, b: int) -> bool {
    rank[b] != r || position[b] < pos
}

/// Puts the skills in the order in which the solver closes them: a skill is
/// followed by the skill that its decorations take points from, where that
/// one has no place yet; the skills without decorations come last.
fn arrange(pair: &Vec<Option<usize>>, grouped: &Vec<bool>, skills: usize) -> (r: (
    Vec<usize>,
    Vec<bool>,
))
    requires
        pair.len() == skills,
        grouped.len() == skills,
        forall|a: int| 0 <= a < skills && pair[a] is Some ==> pair[a]->0 < skills,
    ensures
        is_solver_order(pair@, grouped@, r.0@, r.1@),
{
    let mut order: Vec<usize> = Vec::new();
    let mut position: Vec<usize> = Vec::new();
    let mut linked: Vec<bool> = Vec::new();
    let mut target: Vec<bool> = Vec::new();
    let mut a: usize = 0;
    while a < skills
        invariant
            a <= skills,
            order.len() == a,
            position.len() == a,
            linked.len() == a,
            target.len() == a,
            forall|t: int| 0 <= t < a ==> order[t] == t && position[t] == t && !linked[t] && !target[t],
        decreases skills - a,
    {
        order.push(a);
        position.push(a);
        linked.push(false);
        target.push(false);
        a += 1;
    }
    a = 0;
    while a < skills
        invariant
            a <= skills,
            target.len() == skills,
            pair.len() == skills,
            forall|b: int| 0 <= b < skills && pair[b] is Some ==> pair[b]->0 < skills,
            forall|b: int|
                0 <= b < skills ==> #[trigger] target[b] == exists|c: int|
                    0 <= c < a && #[trigger] pair[c] == Some(b as usize),
        decreases skills - a,
    {
        let ghost before = target@;
        match pair[a] {
            Some(b) => {
                target.set(b, true);
            },
            None => {},
        }
        proof {
            assert forall|b: int| 0 <= b < skills implies #[trigger] target[b] == exists|c: int|
                0 <= c < a + 1 && #[trigger] pair[c] == Some(b as usize) by {
                if target[b] {
                    if before[b] {
                        let w = choose|c: int| 0 <= c < a && #[trigger] pair[c] == Some(b as usize);
                        assert(0 <= w < a + 1 && pair[w] == Some(b as usize));
                    } else {
                        assert(pair[a as int] == Some(b as usize));
                    }
                } else if exists|c: int| 0 <= c < a + 1 && #[trigger] pair[c] == Some(b as usize) {
                    let w = choose|c: int| 0 <= c < a + 1 && #[trigger] pair[c] == Some(b as usize);
                    if w < a {
                        assert(before[b]);
                    }
                }
            }
        }
        a += 1;
    }
    let mut rank: Vec<usize> = Vec::new();
    a = 0;
    while a < skills
        invariant
            a <= skills,
            rank.len() == a,
            target.len() == skills,
            grouped.len() == skills,
            pair.len() == skills,
            forall|b: int|
                0 <= b < skills ==> #[trigger] target[b] == exists|c: int|
                    0 <= c < skills && #[trigger] pair[c] == Some(b as usize),
            forall|b: int| 0 <= b < a ==> #[trigger] rank[b] == start_rank(pair@, grouped@, b),
        decreases skills - a,
    {
        proof {
            if target[a as int] {
                let w = choose|c: int| 0 <= c < skills && #[trigger] pair[c] == Some(a);
                assert(pair@[w] == Some(a));
            } else if is_target(pair@, a as int) {
                let w = choose|c: int| 0 <= c < pair@.len() && #[trigger] pair@[c] == Some(a);
                assert(pair[w] == Some(a));
            }
        }
        rank.push(if !grouped[a] { 2 } else if target[a] { 1 } else { 0 });
        a += 1;
    }
    let mut pos: usize = 0;
    let mut cursors: Vec<usize> = Vec::new();
    cursors.push(0);
    cursors.push(0);
    cursors.push(0);
    let mut chain: Option<usize> = None;
    while pos < skills
        invariant
            pos <= skills,
            cursors.len() == 3,
            order.len() == skills,
            position.len() == skills,
            linked.len() == skills,
            rank.len() == skills,
            grouped.len() == skills,
            pair.len() == skills,
            forall|b: int| 0 <= b < skills && pair[b] is Some ==> pair[b]->0 < skills,
            forall|b: int| 0 <= b < skills ==> #[trigger] rank[b] == start_rank(pair@, grouped@, b),
            forall|t: int| 0 <= t < skills ==> order[t] < skills && position[order[t] as int] == t,
            forall|b: int| 0 <= b < skills ==> position[b] < skills && order[position[b] as int] == b,
            forall|t: int| pos <= t < skills ==> !#[trigger] linked[t],
            pos > 0 ==> !linked[pos - 1],
            forall|t: int| 0 <= t < pos ==> #[trigger] in_order(pair@, grouped@, order@, linked@, t),
            forall|r: int, b: int|
                0 <= r < 3 && 0 <= b < cursors[r] ==> #[trigger] passed(
                    rank@,
                    position@,
                    pos as int,
                    r,
                    b,
                ),
            forall|r: int| 0 <= r < 3 ==> #[trigger] cursors[r] <= skills,
            match chain {
                Some(b) => pos >= 1 && b < skills && position[b as int] >= pos && pair[order[pos
                    - 1] as int] == Some(b),
                None => pos >= 1 ==> pair[order[pos - 1] as int] is None || position[pair[order[pos
                    - 1] as int]->0 as int] < pos,
            },
        decreases skills - pos,
    {
        let ghost old_order = order@;
        let ghost old_linked = linked@;
        let ghost old_position = position@;
        let ghost was_chain = chain is Some;
        let mut tier: usize = 0;
        let x = match chain {
            Some(b) => {
                linked.set(pos - 1, true);
                b
            },
            None => {
                let mut found: Option<usize> = None;
                while tier < 3 && found.is_none()
                    invariant
                        tier <= 3,
                        pos < skills,
                        cursors.len() == 3,
                        rank.len() == skills,
                        position.len() == skills,
                        order.len() == skills,
                        forall|b: int|
                            0 <= b < skills ==> #[trigger] rank[b] == start_rank(pair@, grouped@, b),
                        forall|t: int|
                            0 <= t < skills ==> order[t] < skills && position[order[t] as int] == t,
                        forall|r: int, b: int|
                            0 <= r < 3 && 0 <= b < cursors[r] ==> #[trigger] passed(
                                rank@,
                                position@,
                                pos as int,
                                r,
                                b,
                            ),
                        forall|r: int| 0 <= r < 3 ==> #[trigger] cursors[r] <= skills,
                        forall|b: int|
                            0 <= b < skills && #[trigger] rank[b] < tier ==> position[b] < pos,
                        match found {
                            Some(c) => tier < 3 && c < skills && rank[c as int] == tier && position[c as int]
                                >= pos && cursors[tier as int] == c,
                            None => true,
                        },
                    decreases 3 - tier + (if found is None { 1int } else { 0int }),
                {
                    let mut c = cursors[tier];
                    assert forall|b: int| 0 <= b < c implies #[trigger] rank[b] != tier || position[b]
                        < pos by {
                        assert(passed(rank@, position@, pos as int, tier as int, b));
                    }
                    let ghost old_cursors = cursors@;
                    while c < skills && (rank[c] != tier || position[c] < pos)
                        invariant
                            c <= skills,
                            tier < 3,
                            cursors.len() == 3,
                            rank.len() == skills,
                            position.len() == skills,
                            cursors[tier as int] <= c,
                            forall|b: int|
                                0 <= b < c ==> #[trigger] rank[b] != tier || position[b] < pos,
                        decreases skills - c,
                    {
                        c += 1;
                    }
                    cursors.set(tier, c);
                    proof {
                        assert forall|r: int, b: int|
                            0 <= r < 3 && 0 <= b < cursors[r] implies #[trigger] passed(
                            rank@,
                            position@,
                            pos as int,
                            r,
                            b,
                        ) by {
                            if r != tier {
                                assert(cursors[r] == old_cursors[r]);
                                assert(passed(rank@, position@, pos as int, r, b));
                            }
                        }
                    }
                    if c < skills {
                        found = Some(c);
                    } else {
                        tier += 1;
                    }
                }
                match found {
                    Some(c) => c,
                    None => {
                        proof {
                            let stuck = order[pos as int] as int;
                            assert(position[stuck] == pos);
                            assert(rank[stuck] < 3);
                        }
                        0
                    },
                }
            },
        };
        assert(position[x as int] >= pos);
        let ghost from_tier = tier as int;
        assert(!was_chain ==> rank[x as int] == tier && (forall|b: int|
            0 <= b < skills && #[trigger] rank[b] < tier ==> position[b] < pos) && forall|b: int|
            0 <= b < x ==> #[trigger] rank[b] != tier || position[b] < pos) by {
            if !was_chain {
                assert forall|b: int| 0 <= b < x implies #[trigger] rank[b] != tier || position[b]
                    < pos by {
                    assert(passed(rank@, position@, pos as int, tier as int, b));
                }
            }
        }
        let from = position[x];
        let moved = order[pos];
        order.set(pos, x);
        order.set(from, moved);
        position.set(x, pos);
        position.set(moved, from);
        chain = None;
        match pair[x] {
            Some(b) => {
                if position[b] > pos {
                    chain = Some(b);
                }
            },
            None => {},
        }
        proof {
            assert forall|t: int| 0 <= t < pos implies #[trigger] in_order(
                pair@,
                grouped@,
                order@,
                linked@,
                t,
            ) by {
                lemma_in_order_prefix(pair@, grouped@, old_order, old_linked, order@, linked@, t);
            }
            assert forall|b: int| 0 <= b < skills && old_position[b] < pos implies position@[b]
                == old_position[b] by {}
            assert forall|r: int, b: int| 0 <= r < 3 && 0 <= b < cursors[r] implies #[trigger] passed(
                rank@,
                position@,
                pos + 1,
                r,
                b,
            ) by {
                assert(passed(rank@, old_position, pos as int, r, b));
                if b == x {
                    assert(position@[b] == pos);
                }
            }
            lemma_new_position(
                pair@,
                grouped@,
                order@,
                linked@,
                position@,
                rank@,
                pos as int,
                was_chain,
                from_tier,
            );
        }
        pos += 1;
    }
    proof {
        assert forall|t: int, u: int| 0 <= t < u < skills implies order[t] != order[u] by {
            assert(position[order[t] as int] == t);
            assert(position[order[u] as int] == u);
        }
        assert forall|b: int| 0 <= b < skills implies #[trigger] placed_in(order@, b) by {
            assert(order@[position[b] as int] == b);
        }
    }
    (order, linked)
}

/// Whether a position holds what the rule asks for depends on the order up
/// to that position alone.
proof fn lemma_in_order_prefix(
    pair: Seq<Option<usize>>,
    grouped: Seq<bool>,
    o1: Seq<usize>,
    l1: Seq<bool>,
    o2: Seq<usize>,
    l2: Seq<bool>,
    t: int,
)
    requires
        0 <= t < o1.len(),
        o1.len() == o2.len(),
        l1.len() == o1.len(),
        l2.len() == o1.len(),
        forall|u: int| 0 <= u <= t ==> o1[u] == o2[u],
        t > 0 ==> l1[t - 1] == l2[t - 1],
        in_order(pair, grouped, o1, l1, t),
    ensures
        in_order(pair, grouped, o2, l2, t),
{
    assert forall|c: int| unplaced(o1, t, c) == unplaced(o2, t, c) by {
        if unplaced(o1, t, c) {
            assert forall|u: int| 0 <= u < t implies #[trigger] o2[u] != c by {
                assert(o1[u] != c);
            }
        }
        if unplaced(o2, t, c) {
            assert forall|u: int| 0 <= u < t implies #[trigger] o1[u] != c by {
                assert(o2[u] != c);
            }
        }
    }
}

/// The position that was filled last holds what the rule asks for.
proof fn lemma_new_position(
    pair: Seq<Option<usize>>,
    grouped: Seq<bool>,
    order: Seq<usize>,
    linked: Seq<bool>,
    position: Seq<usize>,
    rank: Seq<usize>,
    pos: int,
    was_chain: bool,
    tier: int,
)
    requires
        0 <= pos < order.len(),
        pair.len() == order.len(),
        linked.len() == order.len(),
        position.len() == order.len(),
        rank.len() == order.len(),
        forall|b: int| 0 <= b < pair.len() && pair[b] is Some ==> pair[b]->0 < pair.len(),
        forall|b: int| 0 <= b < order.len() ==> #[trigger] rank[b] == start_rank(pair, grouped, b),
        forall|u: int| 0 <= u < order.len() ==> order[u] < order.len() && position[order[u] as int] == u,
        forall|b: int| 0 <= b < order.len() ==> position[b] < order.len() && order[position[b] as int] == b,
        pos > 0 ==> linked[pos - 1] == was_chain,
        was_chain ==> pos > 0 && pair[order[pos - 1] as int] == Some(order[pos]),
        !was_chain && pos > 0 ==> pair[order[pos - 1] as int] is None || position[pair[order[pos
            - 1] as int]->0 as int] < pos,
        !was_chain ==> rank[order[pos] as int] == tier && (forall|b: int|
            0 <= b < order.len() && #[trigger] rank[b] < tier ==> position[b] < pos) && forall|b: int|
            0 <= b < order[pos] ==> #[trigger] rank[b] != tier || position[b] < pos,
    ensures
        in_order(pair, grouped, order, linked, pos),
{
    lemma_unplaced(order, position, pos);
    let x = order[pos] as int;
    assert(position[x] == pos);
    assert(unplaced(order, pos, x));
    if !was_chain {
        if pos > 0 && pair[order[pos - 1] as int] is Some {
            let b = pair[order[pos - 1] as int]->0 as int;
            assert(!unplaced(order, pos, b));
        }
        assert forall|a: int| 0 <= a < pair.len() && #[trigger] unplaced(order, pos, a) implies start_rank(
            pair,
            grouped,
            x,
        ) < start_rank(pair, grouped, a) || (start_rank(pair, grouped, x) == start_rank(
            pair,
            grouped,
            a,
        ) && x <= a) by {
            assert(rank[a] == start_rank(pair, grouped, a));
            assert(rank[x] == start_rank(pair, grouped, x));
            if rank[a] < tier {
                assert(position[a] < pos);
            }
            if a < x {
                assert(rank[a] != tier || position[a] < pos);
            }
        }
        assert(is_start(pair, grouped, order, pos, x));
    }
}

/// A skill has no place before position `t` where its place is `t` or later.
proof fn lemma_unplaced(order: Seq<usize>, position: Seq<usize>, t: int)
    requires
        order.len() == position.len(),
        0 <= t <= order.len(),
        forall|u: int| 0 <= u < order.len() ==> order[u] < order.len() && position[order[u] as int] == u,
        forall|b: int| 0 <= b < order.len() ==> position[b] < order.len() && order[position[b] as int] == b,
    ensures
        forall|b: int| 0 <= b < order.len() ==> #[trigger] unplaced(order, t, b) == (position[b] >= t),
{
    assert forall|b: int| 0 <= b < order.len() implies #[trigger] unplaced(order, t, b) == (position[b]
        >= t) by {
        if position[b] < t {
            assert(order[position[b] as int] == b);
        } else {
            assert forall|u: int| 0 <= u < t implies #[trigger] order[u] != b by {
                assert(position[order[u] as int] == u);
            }
        }
    }
}

impl DecorationTables {
    /// The tables hold, for each skill, the skill that the decorations of its
    /// group take points from.
    pub open spec fn pairs_found(&self, decorations: Seq<Row>) -> bool {
        forall|a: int|
            0 <= a < self.skills() ==> #[trigger] pair_described(
                decorations,
                decorations.len() as int,
                a,
                self.skills(),
                self.pairs@[a],
            )
    }

    /// The tables tell of each skill whether a decoration grants it.
    pub open spec fn groups_found(&self, decorations: Seq<Row>) -> bool {
        forall|a: int|
            0 <= a < self.skills() ==> #[trigger] self.grouped@[a] == has_group_first(
                decorations,
                decorations.len() as int,
                a,
            )
    }

    /// The skills stand in the order that the rule of the order asks for.
    pub open spec fn arranged(&self) -> bool {
        is_solver_order(self.pairs@, self.grouped@, self.order@, self.linked@)
    }

    /// Where the search links a position to the next, the tables hold what
    /// the chosen decorations of the position take from the skill of the
    /// next; elsewhere they hold that nothing is taken.
    pub open spec fn drains_taken(&self, decorations: Seq<Row>) -> bool {
        forall|t: int, z: int|
            0 <= t < self.skills() && 0 <= z < 3 ==> #[trigger] self.drain_ok(decorations, t, z)
    }

    /// The entry of `drain` for position `t` and size `z + 1` holds what the
    /// chosen decoration takes from the skill of the next position.
    pub open spec fn drain_ok(&self, decorations: Seq<Row>, t: int, z: int) -> bool {
        let a = self.order@[t] as int;
        if self.linked@[t] && self.present@[a][z] {
            t + 1 < self.skills() && self.drain@[a][z] == taken(
                decorations[self.picks@[a][z] as int].points@[self.order@[t + 1] as int],
            )
        } else {
            self.drain@[a][z] == 0
        }
    }

    /// The tables hold, for each skill, the best points per slot that a
    /// decoration grants for it, in sixths.
    pub open spec fn scores_found(&self, decorations: Seq<Row>) -> bool {
        forall|r: int|
            0 <= r < self.skills() ==> is_best_row_density(
                decorations,
                decorations.len() as int,
                r,
                #[trigger] self.scores@[r] as int,
            )
    }

    /// Prepares the solver for `skills` wanted skills: groups `decorations`
    /// by the skill that they grant, chooses the best of each group and size,
    /// finds the best points per slot of each skill, and puts the skills in
    /// the order in which the solver closes them.
    pub fn build(decorations: &Vec<Row>, skills: usize) -> (r: DecorationTables)
        requires
            forall|i: int|
                0 <= i < decorations.len() ==> (#[trigger] decorations[i]).points@.len() == skills,
        ensures
            r.wf(),
            r.skills() == skills,
            r.scores_found(decorations@),
            r.best_picked(decorations@),
            r.consistent(decorations@),
            r.drains_taken(decorations@),
            r.pairs_found(decorations@),
            r.groups_found(decorations@),
            r.arranged(),
    {
        let scores = row_scores(decorations, skills);
        let (summands, present, picks, pair, grouped) = Self::gather(decorations, skills);
        assert forall|b: int| 0 <= b < skills && pair[b] is Some implies pair[b]->0 < skills by {
            assert(pair_described(
                decorations@,
                decorations.len() as int,
                b,
                skills as int,
                pair@[b],
            ));
            if has_group_first(decorations@, decorations.len() as int, b) {
                let f = choose|f: int| #[trigger]
                    is_group_first(decorations@, decorations.len() as int, b, f);
                assert(is_group_first(decorations@, decorations.len() as int, b, f));
                lemma_first_negative(decorations@[f].points@, 0);
            }
        }
        let (order, linked) = arrange(&pair, &grouped, skills);
        let mut drain: Vec<[i32; 3]> = Vec::new();
        let mut a: usize = 0;
        while a < skills
            invariant
                a <= skills,
                drain.len() == a,
                forall|b: int, z: int| 0 <= b < a && 0 <= z < 3 ==> (#[trigger] drain@[b][z]) == 0,
            decreases skills - a,
        {
            drain.push([0, 0, 0]);
            a += 1;
        }
        let mut t: usize = 0;
        while t < skills
            invariant
                t <= skills,
                drain.len() == skills,
                summands.len() == skills,
                present.len() == skills,
                picks.len() == skills,
                linked.len() == skills,
                is_arrangement(order@, skills as int),
                forall|i: int|
                    0 <= i < decorations.len() ==> (#[trigger] decorations[i]).points@.len()
                        == skills,
                forall|b: int, z: int|
                    0 <= b < skills && 0 <= z < 3 ==> #[trigger] gathered(
                        decorations@,
                        decorations.len() as int,
                        b,
                        z,
                        summands@[b][z],
                        present@[b][z],
                        picks@[b][z],
                    ),
                forall|u: int|
                    0 <= u < skills && #[trigger] linked@[u] ==> u + 1 < skills,
                forall|b: int, z: int| 0 <= b < skills && 0 <= z < 3 ==> (#[trigger] drain@[b][z]) >= 0,
                forall|u: int, z: int|
                    0 <= u < t && 0 <= z < 3 ==> #[trigger] drain_entry_ok(
                        decorations@,
                        order@,
                        linked@,
                        present@,
                        picks@,
                        drain@,
                        u,
                        z,
                    ),
                forall|u: int, z: int|
                    t <= u < skills && 0 <= z < 3 ==> (#[trigger] drain@[order@[u] as int][z]) == 0,
            decreases skills - t,
        {
            let a = order[t];
            if linked[t] {
                let b = order[t + 1];
                let mut e: [i32; 3] = [0, 0, 0];
                let mut z: usize = 0;
                while z < 3
                    invariant
                        z <= 3,
                        a < skills,
                        b < skills,
                        present.len() == skills,
                        picks.len() == skills,
                        forall|i: int|
                            0 <= i < decorations.len() ==> (#[trigger] decorations[i]).points@.len()
                                == skills,
                        forall|y: int|
                            0 <= y < 3 ==> gathered(
                                decorations@,
                                decorations.len() as int,
                                a as int,
                                y,
                                summands@[a as int][y],
                                #[trigger] present@[a as int][y],
                                picks@[a as int][y],
                            ),
                        summands.len() == skills,
                        forall|y: int| 0 <= y < 3 ==> (#[trigger] e[y]) >= 0,
                        forall|y: int|
                            0 <= y < 3 && !(y < z && present@[a as int][y]) ==> (#[trigger] e[y]) == 0,
                        forall|y: int|
                            0 <= y < z && present@[a as int][y] ==> (#[trigger] e[y]) == taken(
                                decorations@[picks@[a as int][y] as int].points@[b as int],
                            ),
                    decreases 3 - z,
                {
                    if present[a][z] {
                        assert(gathered(
                            decorations@,
                            decorations.len() as int,
                            a as int,
                            z as int,
                            summands@[a as int][z as int],
                            present@[a as int][z as int],
                            picks@[a as int][z as int],
                        ));
                        let v = decorations[picks[a][z]].points[b];
                        let amount = if v >= 0 {
                            0
                        } else if v == i32::MIN {
                            i32::MAX
                        } else {
                            -v
                        };
                        e[z] = amount;
                    }
                    z += 1;
                }
                let ghost before = drain@;
                drain.set(a, e);
                proof {
                    assert forall|u: int, y: int| 0 <= u < t + 1 && 0 <= y < 3 implies #[trigger] drain_entry_ok(
                        decorations@,
                        order@,
                        linked@,
                        present@,
                        picks@,
                        drain@,
                        u,
                        y,
                    ) by {
                        if u < t {
                            assert(drain_entry_ok(
                                decorations@,
                                order@,
                                linked@,
                                present@,
                                picks@,
                                before,
                                u,
                                y,
                            ));
                            assert(order@[u] != order@[t as int]);
                        }
                    }
                    assert forall|u: int, y: int| t + 1 <= u < skills && 0 <= y < 3 implies (#[trigger] drain@[order@[u] as int][y])
                        == 0 by {
                        assert(order@[u] != order@[t as int]);
                        assert(before[order@[u] as int][y] == 0);
                    }
                }
            }
            t += 1;
        }
        let r = DecorationTables {
            order,
            linked,
            summands,
            present,
            picks,
            drain,
            scores,
            pairs: pair,
            grouped,
        };
        proof {
            assert forall|b: int, z: int| 0 <= b < skills && 0 <= z < 3 implies (#[trigger] r.summands@[b][z])
                >= 1 by {
                assert(gathered(
                    decorations@,
                    decorations.len() as int,
                    b,
                    z,
                    r.summands@[b][z],
                    r.present@[b][z],
                    r.picks@[b][z],
                ));
                if r.present@[b][z] {
                    lemma_first_positive(decorations@[r.picks@[b][z] as int].points@, 0);
                }
            }
            assert forall|b: int, z: int|
                0 <= b < skills && 0 <= z < 3 && #[trigger] r.present@[b][z] implies 6
                * r.summands@[b][z] <= r.scores@[b] * (z + 1) by {
                assert(gathered(
                    decorations@,
                    decorations.len() as int,
                    b,
                    z,
                    r.summands@[b][z],
                    r.present@[b][z],
                    r.picks@[b][z],
                ));
                let pick = r.picks@[b][z] as int;
                assert(is_decoration(decorations@[pick]));
                assert(is_best_row_density(
                    decorations@,
                    decorations.len() as int,
                    b,
                    r.scores@[b] as int,
                ));
                assert(row_density(decorations@[pick], b) <= r.scores@[b]);
                let points = decorations@[pick].points@[b] as int;
                let score = r.scores@[b] as int;
                if z == 0 {
                    assert(row_density(decorations@[pick], b) == points * 6);
                    assert(score * (z + 1) == score);
                } else if z == 1 {
                    assert(row_density(decorations@[pick], b) == points * 3);
                    assert(score * (z + 1) == 2 * score);
                } else {
                    assert(row_density(decorations@[pick], b) == points * 2);
                    assert(score * (z + 1) == 3 * score);
                }
            }
            assert forall|b: int| 0 <= b < skills implies #[trigger] r.has_position(b) by {
                assert(placed_in(r.order@, b));
            }
            assert forall|b: int, z: int| 0 <= b < skills && 0 <= z < 3 implies #[trigger] r.best_pick(
                decorations@,
                b,
                z,
            ) by {
                assert(gathered(
                    decorations@,
                    decorations.len() as int,
                    b,
                    z,
                    r.summands@[b][z],
                    r.present@[b][z],
                    r.picks@[b][z],
                ));
            }
            assert forall|b: int, z: int| 0 <= b < skills && 0 <= z < 3 implies #[trigger] r.pick_ok(
                decorations@,
                b,
                z,
            ) by {
                assert(r.best_pick(decorations@, b, z));
            }
            assert forall|u: int, z: int| 0 <= u < skills && 0 <= z < 3 implies #[trigger] r.drain_ok(
                decorations@,
                u,
                z,
            ) by {
                assert(drain_entry_ok(
                    decorations@,
                    r.order@,
                    r.linked@,
                    r.present@,
                    r.picks@,
                    r.drain@,
                    u,
                    z,
                ));
            }
        }
        r
    }
}

/// The entry of `drain` for position `t` and size `z + 1` holds what the
/// chosen decoration takes from the skill of the next position.
pub open spec fn drain_entry_ok(
    decorations: Seq<Row>,
    order: Seq<usize>,
    linked: Seq<bool>,
    present: Seq<[bool; 3]>,
    picks: Seq<[usize; 3]>,
    drain: Seq<[i32; 3]>,
    t: int,
    z: int,
) -> bool {
    let a = order[t] as int;
    if linked[t] && present[a][z] {
        t + 1 < order.len() && drain[a][z] == taken(
            decorations[picks[a][z] as int].points@[order[t + 1] as int],
        )
    } else {
        drain[a][z] == 0
    }
}


impl DecorationTables {
    /// Tells whether each chosen decoration takes points from the skill that
    /// the solver closes next at most, and no more than the tables say: what
    /// the solver counts on when it says that decorations close a deficit.
    pub fn is_well_paired(&self, decorations: &Vec<Row>) -> (r: bool)
        requires
            self.wf(),
            self.consistent(decorations@),
        ensures
            r == self.well_paired(decorations@),
    {
        let k = self.order.len();
        let mut t: usize = 0;
        while t < k
            invariant
                self.wf(),
                self.consistent(decorations@),
                k == self.skills(),
                t <= k,
                forall|u: int, z: int, r: int|
                    0 <= u < t && 0 <= z < 3 && 0 <= r < k ==> #[trigger] self.pair_ok(
                        decorations@,
                        u,
                        z,
                        r,
                    ),
            decreases k - t,
        {
            let a = self.order[t];
            let mut z: usize = 0;
            while z < 3
                invariant
                    self.wf(),
                    self.consistent(decorations@),
                    k == self.skills(),
                    t < k,
                    a == self.order@[t as int],
                    z <= 3,
                    forall|y: int, r: int|
                        0 <= y < z && 0 <= r < k ==> #[trigger] self.pair_ok(
                            decorations@,
                            t as int,
                            y,
                            r,
                        ),
                decreases 3 - z,
            {
                if self.present[a][z] {
                    assert(self.pick_ok(decorations@, a as int, z as int));
                    let row = &decorations[self.picks[a][z]];
                    let mut r: usize = 0;
                    while r < k
                        invariant
                            self.wf(),
                            k == self.skills(),
                            t < k,
                            z < 3,
                            a == self.order@[t as int],
                            self.present@[a as int][z as int],
                            self.picks@[a as int][z as int] < decorations.len(),
                            *row == decorations@[self.picks@[a as int][z as int] as int],
                            row.points@.len() == k,
                            r <= k,
                            forall|q: int|
                                0 <= q < r ==> #[trigger] self.pair_ok(
                                    decorations@,
                                    t as int,
                                    z as int,
                                    q,
                                ),
                        decreases k - r,
                    {
                        let p = row.points[r];
                        let fine = r == a || p >= 0 || (self.linked[t] && t + 1 < k && self.order[t
                            + 1] == r && p as i64 >= -(self.drain[a][z] as i64));
                        if !fine {
                            assert(!self.pair_ok(decorations@, t as int, z as int, r as int));
                            return false;
                        }
                        r += 1;
                    }
                }
                z += 1;
            }
            t += 1;
        }
        true
    }
}

} // verus!

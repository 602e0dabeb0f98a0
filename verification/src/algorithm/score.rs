//! The best points per slot that decorations offer for each wanted skill.
//!
//! A decoration takes one, two or three slots, so points per slot are whole
//! numbers of sixths. Scores are held in sixths throughout: the score 7 stands
//! for seven sixths of a point per slot.

use crate::algorithm::rows::Row;
use crate::decorations::Decoration;
use crate::requirements::Requirement;
use crate::skillpoint::SkillPoint;
use vstd::prelude::*;

verus! {

/// Every decoration takes one, two or three slots.
pub open spec fn slots_in_range(decorations: Seq<Decoration>) -> bool {
    forall|i: int| 0 <= i < decorations.len() ==> 1 <= (#[trigger] decorations[i]).slots <= 3
}

/// The sixths of a point per slot that one point is worth on an item that
/// takes `slots` slots.
pub open spec fn sixths_per_point(slots: int) -> int {
    if slots == 1 {
        6
    } else if slots == 2 {
        3
    } else {
        2
    }
}

/// The points per slot, in sixths, that `d` grants for `ability`.
pub open spec fn density(d: Decoration, ability: Seq<char>) -> int {
    d.points_of(ability) * sixths_per_point(d.slots as int)
}

/// `v` is the best density for `ability` among `decorations`: zero or more,
/// no less than the density of any decoration, and zero or the density of
/// one of them. Where no decoration grants the skill it is zero.
pub open spec fn is_best_density(decorations: Seq<Decoration>, ability: Seq<char>, v: int) -> bool {
    &&& v >= 0
    &&& forall|i: int| 0 <= i < decorations.len() ==> #[trigger] density(decorations[i], ability) <= v
    &&& v == 0 || exists|i: int|
        0 <= i < decorations.len() && #[trigger] density(decorations[i], ability) == v
}

fn density_of(d: &Decoration, ability: &str) -> (r: i64)
    requires
        1 <= d.slots <= 3,
    ensures
        r == density(*d, ability@),
{
    let p = d.points(ability) as i64;
    if d.slots == 1 {
        p * 6
    } else if d.slots == 2 {
        p * 3
    } else {
        p * 2
    }
}

/// For each requirement the greatest number of points per slot, in sixths,
/// that a decoration grants for it; zero where no decoration grants any.
pub fn scores(requirements: &[Requirement], decorations: &[Decoration]) -> (r: Vec<i64>)
    requires
        slots_in_range(decorations@),
    ensures
        r.len() == requirements.len(),
        forall|i: int|
            0 <= i < r.len() ==> is_best_density(
                decorations@,
                requirements@[i].name@,
                #[trigger] r[i] as int,
            ),
{
    let mut out: Vec<i64> = Vec::new();
    let mut i: usize = 0;
    while i < requirements.len()
        invariant
            i <= requirements.len(),
            out.len() == i,
            slots_in_range(decorations@),
            forall|j: int|
                0 <= j < i ==> is_best_density(
                    decorations@,
                    requirements@[j].name@,
                    #[trigger] out[j] as int,
                ),
        decreases requirements.len() - i,
    {
        let name = requirements[i].name.as_str();
        let mut best: i64 = 0;
        let mut j: usize = 0;
        while j < decorations.len()
            invariant
                j <= decorations.len(),
                slots_in_range(decorations@),
                name@ == requirements@[i as int].name@,
                is_best_density(decorations@.take(j as int), name@, best as int),
            decreases decorations.len() - j,
        {
            let ghost seen = decorations@.take(j as int);
            let ghost more = decorations@.take(j + 1);
            let d = density_of(&decorations[j], name);
            proof {
                assert(more[j as int] == decorations@[j as int]);
                assert forall|k: int| 0 <= k < j implies more[k] == seen[k] by {}
                if best != 0 {
                    let w = choose|k: int|
                        0 <= k < seen.len() && #[trigger] density(seen[k], name@) == best;
                    assert(more[w] == seen[w]);
                }
            }
            if d >= best {
                best = d;
            }
            assert(forall|k: int| 0 <= k < j ==> #[trigger] density(more[k], name@) <= best) by {
                assert forall|k: int| 0 <= k < j implies #[trigger] density(more[k], name@)
                    <= best by {
                    assert(more[k] == seen[k]);
                }
            }
            j += 1;
        }
        assert(decorations@.take(j as int) =~= decorations@);
        out.push(best);
        i += 1;
    }
    out
}

/// The points per slot, in sixths, that the decoration of `row` grants for
/// the skill `r`.
pub open spec fn row_density(row: Row, r: int) -> int {
    row.points@[r] * sixths_per_point(row.slots as int)
}

/// The row is that of a decoration of one, two or three slots.
pub open spec fn is_decoration(row: Row) -> bool {
    1 <= row.slots <= 3
}

/// `v` is the best density for the skill `r` among the first `upto` rows
/// that are decorations: zero or more, no less than the density of any of
/// them, and zero or the density of one of them.
pub open spec fn is_best_row_density(rows: Seq<Row>, upto: int, r: int, v: int) -> bool {
    &&& v >= 0
    &&& forall|i: int|
        0 <= i < upto && is_decoration(#[trigger] rows[i]) ==> row_density(rows[i], r) <= v
    &&& v == 0 || exists|i: int|
        0 <= i < upto && is_decoration(#[trigger] rows[i]) && row_density(rows[i], r) == v
}

/// For each of `skills` skills the greatest number of points per slot, in
/// sixths, that a decoration among `rows` grants for it; zero where none
/// grants any.
pub fn row_scores(rows: &Vec<Row>, skills: usize) -> (out: Vec<i64>)
    requires
        forall|i: int| 0 <= i < rows.len() ==> (#[trigger] rows[i]).points@.len() == skills,
    ensures
        out.len() == skills,
        forall|r: int|
            0 <= r < skills ==> is_best_row_density(rows@, rows.len() as int, r, #[trigger] out[r] as int),
{
    let mut out: Vec<i64> = Vec::new();
    let mut r: usize = 0;
    while r < skills
        invariant
            r <= skills,
            out.len() == r,
            forall|i: int| 0 <= i < rows.len() ==> (#[trigger] rows[i]).points@.len() == skills,
            forall|q: int|
                0 <= q < r ==> is_best_row_density(
                    rows@,
                    rows.len() as int,
                    q,
                    #[trigger] out[q] as int,
                ),
        decreases skills - r,
    {
        let mut best: i64 = 0;
        let mut i: usize = 0;
        while i < rows.len()
            invariant
                i <= rows.len(),
                r < skills,
                forall|j: int| 0 <= j < rows.len() ==> (#[trigger] rows[j]).points@.len() == skills,
                is_best_row_density(rows@, i as int, r as int, best as int),
            decreases rows.len() - i,
        {
            let row = &rows[i];
            if 1 <= row.slots && row.slots <= 3 {
                let p = row.points[r] as i64;
                let d = if row.slots == 1 {
                    p * 6
                } else if row.slots == 2 {
                    p * 3
                } else {
                    p * 2
                };
                assert(d == row_density(rows@[i as int], r as int));
                proof {
                    if best != 0 {
                        let w = choose|j: int|
                            0 <= j < i && is_decoration(#[trigger] rows@[j]) && row_density(
                                rows@[j],
                                r as int,
                            ) == best;
                        assert(is_decoration(rows@[w]));
                    }
                }
                if d >= best {
                    best = d;
                }
                assert(is_decoration(rows@[i as int]));
            }
            i += 1;
        }
        out.push(best);
        r += 1;
    }
    out
}

} // verus!

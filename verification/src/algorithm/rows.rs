//! Items as rows of numbers: what the search compares in its inner loops.

use crate::requirements::Requirement;
use crate::skillpoint::SkillPoint;
use vstd::prelude::*;

verus! {

/// One item as the search sees it: its place in the list it came from, its
/// slots, its points for each wanted skill, and an aggregate score.
#[derive(Debug, Clone, PartialEq, Eq)]
pub struct Row {
    pub id: usize,
    pub slots: i32,
    pub points: Vec<i32>,
    pub score: i32,
}

/// The greatest of `scores`, or zero where there is none.
pub open spec fn best_score(scores: Seq<i64>) -> int
    decreases scores.len(),
{
    if scores.len() == 0 {
        0
    } else if scores.len() == 1 {
        scores[0] as int
    } else {
        let rest = best_score(scores.drop_last());
        if scores.last() >= rest {
            scores.last() as int
        } else {
            rest
        }
    }
}

/// The greatest of scores that are zero or more is zero or more.
pub proof fn lemma_best_score_not_negative(scores: Seq<i64>)
    requires
        forall|i: int| 0 <= i < scores.len() ==> scores[i] >= 0,
    ensures
        best_score(scores) >= 0,
    decreases scores.len(),
{
    if scores.len() > 1 {
        lemma_best_score_not_negative(scores.drop_last());
    }
}

/// The sum of `points`.
pub open spec fn points_sum(points: Seq<i32>) -> int
    decreases points.len(),
{
    if points.len() == 0 {
        0
    } else {
        points_sum(points.drop_last()) + points.last()
    }
}

/// The least whole number that is no less than `sixths` sixths.
pub open spec fn whole_points(sixths: int) -> int {
    (sixths + 5) / 6
}

/// `v`, held to what an `i32` can hold.
pub open spec fn held(v: int) -> int {
    if v > i32::MAX {
        i32::MAX as int
    } else if v < i32::MIN {
        i32::MIN as int
    } else {
        v
    }
}

/// The aggregate score of an item: its points, and its slots valued at the
/// best score `best` (in sixths), rounded up to whole points.
pub open spec fn row_score(slots: int, points: Seq<i32>, best: int) -> int {
    held(whole_points(slots * best + 6 * points_sum(points)))
}

/// `row` is the row of `item`, which stands at place `id`.
pub open spec fn is_row_of<T: SkillPoint>(
    row: Row,
    item: &T,
    id: int,
    requirements: Seq<Requirement>,
    best: int,
) -> bool {
    &&& row.id == id
    &&& row.slots == item.slot_count()
    &&& row.points@.len() == requirements.len()
    &&& forall|r: int|
        0 <= r < requirements.len() ==> #[trigger] row.points@[r] == item.points_of(
            requirements[r].name@,
        )
    &&& row.score == row_score(row.slots as int, row.points@, best)
}

/// `top` is the greatest score among `rows`, and zero where none is positive.
pub open spec fn is_top_score(rows: Seq<Row>, top: int) -> bool {
    &&& top >= 0
    &&& forall|i: int| 0 <= i < rows.len() ==> (#[trigger] rows[i]).score <= top
    &&& top == 0 || exists|i: int| 0 <= i < rows.len() && (#[trigger] rows[i]).score == top
}

/// The sum of points grows with every one of them.
pub proof fn lemma_points_sum_monotone(a: Seq<i32>, b: Seq<i32>)
    requires
        a.len() == b.len(),
        forall|i: int| 0 <= i < a.len() ==> a[i] <= b[i],
    ensures
        points_sum(a) <= points_sum(b),
    decreases a.len(),
{
    if a.len() > 0 {
        lemma_points_sum_monotone(a.drop_last(), b.drop_last());
    }
}

/// The aggregate score of an item grows with its slots and with its points
/// of every skill, where no score of a skill is negative.
pub proof fn lemma_row_score_monotone(
    slots1: int,
    points1: Seq<i32>,
    slots2: int,
    points2: Seq<i32>,
    best: int,
)
    requires
        best >= 0,
        slots1 <= slots2,
        points1.len() == points2.len(),
        forall|i: int| 0 <= i < points1.len() ==> points1[i] <= points2[i],
    ensures
        row_score(slots1, points1, best) <= row_score(slots2, points2, best),
{
    lemma_points_sum_monotone(points1, points2);
    assert(slots1 * best <= slots2 * best) by (nonlinear_arith)
        requires
            best >= 0,
            slots1 <= slots2,
    ;
    let x = slots1 * best + 6 * points_sum(points1);
    let y = slots2 * best + 6 * points_sum(points2);
    vstd::arithmetic::div_mod::lemma_div_is_ordered(x + 5, y + 5, 6);
}

/// Rounds `sixths` sixths up to whole points.
pub fn whole_points_of(sixths: i128) -> (q: i128)
    requires
        -0x4000_0000_0000_0000_0000_0000_0000_0000 <= sixths
            <= 0x4000_0000_0000_0000_0000_0000_0000_0000,
    ensures
        q == whole_points(sixths as int),
        sixths >= 0 ==> 0 <= q <= sixths,
        sixths < 0 ==> sixths <= q <= 0,
{
    let q: i128 = if sixths >= 0 {
        (sixths + 5) / 6
    } else {
        -((-sixths) / 6)
    };
    assert(q == whole_points(sixths as int)) by {
        if sixths < 0 {
            let a = -sixths as int;
            assert((sixths + 5) / 6 == -(a / 6)) by (nonlinear_arith)
                requires
                    a == -sixths,
                    a > 0,
            ;
        }
    }
    q
}

/// Rounds `sixths` sixths up to whole points and holds the result to an
/// `i32`.
pub fn round_up(sixths: i128) -> (r: i32)
    requires
        -0x4000_0000_0000_0000_0000_0000_0000_0000 <= sixths
            <= 0x4000_0000_0000_0000_0000_0000_0000_0000,
    ensures
        r == held(whole_points(sixths as int)),
{
    let q = whole_points_of(sixths);
    if q > i32::MAX as i128 {
        i32::MAX
    } else if q < i32::MIN as i128 {
        i32::MIN
    } else {
        q as i32
    }
}

/// The greatest of `scores`, or zero where there is none.
pub fn best_of(scores: &[i64]) -> (r: i64)
    ensures
        r == best_score(scores@),
{
    let mut best: i64 = 0;
    let mut i: usize = 0;
    while i < scores.len()
        invariant
            i <= scores.len(),
            best == best_score(scores@.take(i as int)),
        decreases scores.len() - i,
    {
        assert(scores@.take(i + 1).drop_last() =~= scores@.take(i as int));
        if i == 0 || scores[i] >= best {
            best = scores[i];
        }
        i += 1;
    }
    assert(scores@.take(i as int) =~= scores@);
    best
}

/// Turns `pieces` into rows, and gives the greatest aggregate score among
/// them (zero where none is positive). `scores` holds, in sixths, the best
/// points per slot for each requirement.
pub fn createvec<T: SkillPoint>(pieces: &[&T], requirements: &[Requirement], scores: &[i64]) -> (r: (
    Vec<Row>,
    i32,
))
    ensures
        r.0.len() == pieces.len(),
        forall|i: int|
            0 <= i < pieces.len() ==> is_row_of(
                #[trigger] r.0[i],
                pieces@[i],
                i,
                requirements@,
                best_score(scores@),
            ),
        is_top_score(r.0@, r.1 as int),
{
    let best = best_of(scores);
    let mut rows: Vec<Row> = Vec::new();
    let mut top: i32 = 0;
    let mut i: usize = 0;
    while i < pieces.len()
        invariant
            i <= pieces.len(),
            rows.len() == i,
            best == best_score(scores@),
            forall|j: int|
                0 <= j < i ==> is_row_of(#[trigger] rows[j], pieces@[j], j, requirements@, best as int),
            is_top_score(rows@, top as int),
        decreases pieces.len() - i,
    {
        let piece = pieces[i];
        let slots = piece.slots();
        let mut points: Vec<i32> = Vec::new();
        let mut sum: i128 = 0;
        let mut r: usize = 0;
        while r < requirements.len()
            invariant
                r <= requirements.len(),
                points.len() == r,
                forall|q: int|
                    0 <= q < r ==> #[trigger] points@[q] == piece.points_of(requirements@[q].name@),
                sum == points_sum(points@),
                -0x8000_0000 * r <= sum <= 0x8000_0000 * r,
            decreases requirements.len() - r,
        {
            let p = piece.points(requirements[r].name.as_str());
            let ghost before = points@;
            points.push(p);
            assert(points@.drop_last() =~= before);
            sum = sum + p as i128;
            r += 1;
        }
        assert(-0x8000_0000 * 0x1_0000_0000_0000_0000 <= slots as int * best as int
            <= 0x8000_0000 * 0x1_0000_0000_0000_0000) by (nonlinear_arith)
            requires
                -0x8000_0000 <= slots <= 0x8000_0000,
                -0x8000_0000_0000_0000 <= best <= 0x8000_0000_0000_0000,
        ;
        let sixths: i128 = slots as i128 * best as i128 + 6 * sum;
        let score = round_up(sixths);
        let ghost before = rows@;
        let row = Row { id: i, slots, points, score };
        rows.push(row);
        if score > top {
            top = score;
        }
        proof {
            assert forall|j: int| 0 <= j < i + 1 implies is_row_of(
                #[trigger] rows[j],
                pieces@[j],
                j,
                requirements@,
                best as int,
            ) by {
                if j < i {
                    assert(rows[j] == before[j]);
                }
            }
            assert forall|j: int| 0 <= j < rows.len() implies (#[trigger] rows[j]).score <= top by {
                if j < i {
                    assert(rows[j] == before[j]);
                }
            }
            if top != 0 {
                if score == top {
                    assert(rows[i as int].score == top);
                } else {
                    let w = choose|j: int| 0 <= j < before.len() && (#[trigger] before[j]).score == top;
                    assert(rows[w] == before[w]);
                }
            }
        }
        i += 1;
    }
    (rows, top)
}

} // verus!

//! The dominance trimmer: cuts a category down to the items that are worth
//! trying.

use crate::algorithm::wide::{less, one, plus, times, value, zero};
use crate::requirements::Requirement;
use crate::skillpoint::SkillPoint;
use vstd::prelude::*;

verus! {

/// An item as the trimmer sees it: its slots, its defence, and its points
/// for each wanted skill.
#[derive(Debug, Clone, PartialEq, Eq)]
pub struct Candidate {
    pub slots: i32,
    pub defence: u32,
    pub points: Vec<i32>,
}

/// An item as a plain value.
pub struct Entry {
    pub slots: int,
    pub defence: int,
    pub points: Seq<int>,
}

impl View for Candidate {
    type V = Entry;

    open spec fn view(&self) -> Entry {
        Entry {
            slots: self.slots as int,
            defence: self.defence as int,
            points: self.points@.map_values(|p: i32| p as int),
        }
    }
}

/// The items of `v` as plain values.
pub open spec fn entries(v: Seq<Candidate>) -> Seq<Entry> {
    v.map_values(|c: Candidate| c@)
}

/// Two items do the same for the search: the same slots and the same points.
pub open spec fn same_class(a: Entry, b: Entry) -> bool {
    a.slots == b.slots && a.points == b.points
}

/// `a` is as good as `b` or better in every respect: no fewer slots, and no
/// fewer points of any skill.
pub open spec fn covers(a: Entry, b: Entry) -> bool {
    a.slots >= b.slots && forall|r: int| 0 <= r < b.points.len() ==> a.points[r] >= b.points[r]
}

/// Among the eligible items that do the same as item `i`, item `i` has the
/// best defence, and is the last of those that have it.
pub open spec fn represents(items: Seq<Entry>, mask: Seq<bool>, i: int) -> bool {
    forall|j: int|
        0 <= j < items.len() && mask[j] && same_class(#[trigger] items[j], items[i])
            ==> items[j].defence <= items[i].defence && (j > i ==> items[j].defence
            < items[i].defence)
}

/// The eligible item `j` is as good as item `i` in every respect, and does
/// not do the same.
pub open spec fn beats(items: Seq<Entry>, mask: Seq<bool>, j: int, i: int) -> bool {
    0 <= j < items.len() && mask[j] && covers(items[j], items[i]) && !same_class(
        items[j],
        items[i],
    )
}

/// Some eligible item beats item `i`.
pub open spec fn beaten(items: Seq<Entry>, mask: Seq<bool>, i: int) -> bool {
    exists|j: int| #[trigger] beats(items, mask, j, i)
}

/// Item `i` survives the reduction: it is eligible, stands for the items
/// that do the same, and no eligible item beats it.
pub open spec fn survives(items: Seq<Entry>, mask: Seq<bool>, i: int) -> bool {
    0 <= i < items.len() && mask[i] && represents(items, mask, i) && !beaten(items, mask, i)
}

/// Item `i` is the eligible item of three slots with the best defence, the
/// last of those that have it.
pub open spec fn is_best_three(items: Seq<Entry>, mask: Seq<bool>, i: int) -> bool {
    &&& 0 <= i < items.len()
    &&& mask[i]
    &&& items[i].slots == 3
    &&& forall|j: int|
        0 <= j < items.len() && mask[j] && (#[trigger] items[j]).slots == 3 ==> items[j].defence
            <= items[i].defence && (j > i ==> items[j].defence < items[i].defence)
}

/// What item `c` is worth for skill `r`, in sixths of a point: its slots at
/// the best points per slot of the skill, and its points.
pub open spec fn worth(c: Entry, scores: Seq<i64>, r: int) -> int {
    c.slots * scores[r] + 6 * c.points[r]
}

/// Item `i` is the survivor that is worth most for skill `r`, the last of
/// those that are worth as much.
pub open spec fn is_pick(items: Seq<Entry>, mask: Seq<bool>, scores: Seq<i64>, r: int, i: int) -> bool {
    &&& survives(items, mask, i)
    &&& forall|j: int| #[trigger]
        survives(items, mask, j) ==> worth(items[j], scores, r) <= worth(items[i], scores, r) && (j
            > i ==> worth(items[j], scores, r) < worth(items[i], scores, r))
}

/// The product of those of the first `upto` scores that are positive: a
/// common denominator of the points per score.
pub open spec fn scale(scores: Seq<i64>, upto: int) -> int
    decreases upto,
{
    if upto <= 0 {
        1
    } else if scores[upto - 1] > 0 {
        scale(scores, upto - 1) * scores[upto - 1]
    } else {
        scale(scores, upto - 1)
    }
}

/// The product of those of the first `upto` scores that are positive, the
/// score of skill `r` left out: the scale over the score of skill `r`.
pub open spec fn others(scores: Seq<i64>, r: int, upto: int) -> int
    decreases upto,
{
    if upto <= 0 {
        1
    } else if upto - 1 != r && scores[upto - 1] > 0 {
        others(scores, r, upto - 1) * scores[upto - 1]
    } else {
        others(scores, r, upto - 1)
    }
}

/// The points of `c` in the first `upto` skills, each over the score of its
/// skill, together, in units of one over the scale. Scores are sixths of a
/// point per slot, so a point over a score is six over the score. A skill
/// that no decoration grants adds nothing.
pub open spec fn shares(c: Entry, scores: Seq<i64>, upto: int) -> int
    decreases upto,
{
    if upto <= 0 {
        0
    } else if scores[upto - 1] > 0 {
        shares(c, scores, upto - 1) + 6 * c.points[upto - 1] * others(
            scores,
            upto - 1,
            scores.len() as int,
        )
    } else {
        shares(c, scores, upto - 1)
    }
}

/// The key by which the survivors are taken to fill the list: the slots of
/// the item and, for each skill, its points over the score of the skill,
/// together, in units of one over the scale.
pub open spec fn fill_key(c: Entry, scores: Seq<i64>) -> int {
    c.slots * scale(scores, scores.len() as int) + shares(c, scores, scores.len() as int)
}

/// The number that a pair of a positive and a negative part stands for.
pub open spec fn key_value(positive: Seq<u32>, negative: Seq<u32>) -> int {
    value(positive) - value(negative)
}

/// Item `a` is taken before item `b`: it has the smaller key, or the same
/// key and the earlier place.
pub open spec fn earlier(items: Seq<Entry>, scores: Seq<i64>, a: int, b: int) -> bool {
    fill_key(items[a], scores) < fill_key(items[b], scores) || (fill_key(items[a], scores)
        == fill_key(items[b], scores) && a < b)
}

/// `list` with `x` at its end, unless `list` holds `x` already.
pub open spec fn with_item(list: Seq<int>, x: int) -> Seq<int> {
    if list.contains(x) {
        list
    } else {
        list.push(x)
    }
}

/// The best eligible item of three slots, where there is one.
pub open spec fn best_three_of(items: Seq<Entry>, mask: Seq<bool>) -> Option<int> {
    if exists|i: int| #[trigger] is_best_three(items, mask, i) {
        Some(choose|i: int| #[trigger] is_best_three(items, mask, i))
    } else {
        None
    }
}

/// The survivor that is worth most for skill `r`, where there is a survivor.
pub open spec fn pick_of(items: Seq<Entry>, mask: Seq<bool>, scores: Seq<i64>, r: int) -> Option<int> {
    if exists|i: int| #[trigger] is_pick(items, mask, scores, r, i) {
        Some(choose|i: int| #[trigger] is_pick(items, mask, scores, r, i))
    } else {
        None
    }
}

/// What is kept whatever the room: the best item of three slots, and for
/// each of the first `upto` skills the survivor that is worth most for it.
pub open spec fn kept_first(items: Seq<Entry>, mask: Seq<bool>, scores: Seq<i64>, upto: int) -> Seq<
    int,
>
    decreases upto,
{
    if upto <= 0 {
        match best_three_of(items, mask) {
            Some(i) => seq![i],
            None => Seq::empty(),
        }
    } else {
        let before = kept_first(items, mask, scores, upto - 1);
        match pick_of(items, mask, scores, upto - 1) {
            Some(i) => with_item(before, i),
            None => before,
        }
    }
}

/// `fill` holds the survivors that fill the room left by `first`: those that
/// `first` does not hold, in the order in which they are taken, as long as
/// there is room.
pub open spec fn is_fill(
    items: Seq<Entry>,
    mask: Seq<bool>,
    scores: Seq<i64>,
    first: Seq<int>,
    max_count: int,
    fill: Seq<int>,
) -> bool {
    &&& fill.len() == 0 || first.len() + fill.len() <= max_count
    &&& forall|a: int|
        0 <= a < fill.len() ==> survives(items, mask, #[trigger] fill[a]) && !first.contains(fill[a])
    &&& forall|a: int, b: int|
        0 <= a < b < fill.len() ==> earlier(items, scores, #[trigger] fill[a], #[trigger] fill[b])
    &&& forall|x: int| #[trigger]
        survives(items, mask, x) && !first.contains(x) && !fill.contains(x) ==> first.len()
            + fill.len() >= max_count && forall|a: int|
            0 <= a < fill.len() ==> earlier(items, scores, #[trigger] fill[a], x)
}

/// The places of `out` as integers.
pub open spec fn places(out: Seq<usize>) -> Seq<int> {
    out.map_values(|x: usize| x as int)
}

/// `out` is the trimmed list of the places of `items`: what is kept whatever
/// the room, then what fills the room; the first place where nothing is
/// kept.
pub open spec fn is_trimmed(
    items: Seq<Entry>,
    mask: Seq<bool>,
    scores: Seq<i64>,
    max_count: int,
    out: Seq<usize>,
) -> bool {
    let first = kept_first(items, mask, scores, scores.len() as int);
    exists|fill: Seq<int>| #[trigger]
        is_fill(items, mask, scores, first, max_count, fill) && places(out) == (if first.len()
            + fill.len() == 0 {
            seq![0int]
        } else {
            first + fill
        })
}


/// Every item holds points for `skills` skills.
pub open spec fn wide(items: Seq<Candidate>, skills: int) -> bool {
    forall|i: int| 0 <= i < items.len() ==> (#[trigger] items[i]).points@.len() == skills
}

/// Only one item is the best of three slots.
pub proof fn lemma_best_three_unique(items: Seq<Entry>, mask: Seq<bool>, i: int, j: int)
    requires
        is_best_three(items, mask, i),
        is_best_three(items, mask, j),
    ensures
        i == j,
{
    assert(items[i].slots == 3 && items[j].slots == 3);
}

/// Only one item is the pick for a skill.
pub proof fn lemma_pick_unique(
    items: Seq<Entry>,
    mask: Seq<bool>,
    scores: Seq<i64>,
    r: int,
    i: int,
    j: int,
)
    requires
        is_pick(items, mask, scores, r, i),
        is_pick(items, mask, scores, r, j),
    ensures
        i == j,
{
    assert(survives(items, mask, i) && survives(items, mask, j));
}

fn last_greatest(values: &Vec<i128>, domain: &Vec<bool>) -> (r: Option<usize>)
    requires
        values.len() == domain.len(),
    ensures
        match r {
            Some(i) => i < values.len() && domain[i as int] && forall|j: int|
                0 <= j < values.len() && #[trigger] domain[j] ==> values[j] <= values[i as int] && (j
                    > i ==> values[j] < values[i as int]),
            None => forall|j: int| 0 <= j < values.len() ==> !#[trigger] domain[j],
        },
{
    let mut best: Option<usize> = None;
    let mut j: usize = 0;
    while j < values.len()
        invariant
            j <= values.len(),
            values.len() == domain.len(),
            match best {
                Some(i) => i < j && domain[i as int] && forall|q: int|
                    0 <= q < j && #[trigger] domain[q] ==> values[q] <= values[i as int] && (q > i
                        ==> values[q] < values[i as int]),
                None => forall|q: int| 0 <= q < j ==> !#[trigger] domain[q],
            },
        decreases values.len() - j,
    {
        if domain[j] {
            let better = match best {
                Some(i) => values[j] >= values[i],
                None => true,
            };
            if better {
                best = Some(j);
            }
        }
        j += 1;
    }
    best
}

fn first_least(positive: &Vec<Vec<u32>>, negative: &Vec<Vec<u32>>, domain: &Vec<bool>) -> (r: Option<
    usize,
>)
    requires
        positive.len() == domain.len(),
        negative.len() == domain.len(),
    ensures
        match r {
            Some(i) => i < domain.len() && domain[i as int] && forall|j: int|
                0 <= j < domain.len() && #[trigger] domain[j] ==> key_value(
                    positive@[i as int]@,
                    negative@[i as int]@,
                ) < key_value(positive@[j]@, negative@[j]@) || (key_value(
                    positive@[i as int]@,
                    negative@[i as int]@,
                ) == key_value(positive@[j]@, negative@[j]@) && i <= j),
            None => forall|j: int| 0 <= j < domain.len() ==> !#[trigger] domain[j],
        },
{
    let mut best: Option<usize> = None;
    let mut j: usize = 0;
    while j < domain.len()
        invariant
            j <= domain.len(),
            positive.len() == domain.len(),
            negative.len() == domain.len(),
            match best {
                Some(i) => i < j && domain[i as int] && forall|q: int|
                    0 <= q < j && #[trigger] domain[q] ==> key_value(
                        positive@[i as int]@,
                        negative@[i as int]@,
                    ) < key_value(positive@[q]@, negative@[q]@) || (key_value(
                        positive@[i as int]@,
                        negative@[i as int]@,
                    ) == key_value(positive@[q]@, negative@[q]@) && i <= q),
                None => forall|q: int| 0 <= q < j ==> !#[trigger] domain[q],
            },
        decreases domain.len() - j,
    {
        if domain[j] {
            let better = match best {
                Some(i) => {
                    let left = plus(&positive[j], &negative[i]);
                    let right = plus(&positive[i], &negative[j]);
                    less(&left, &right)
                },
                None => true,
            };
            if better {
                best = Some(j);
            }
        }
        j += 1;
    }
    best
}

fn same_class_of(a: &Candidate, b: &Candidate) -> (r: bool)
    requires
        a.points@.len() == b.points@.len(),
    ensures
        r == same_class(a@, b@),
{
    if a.slots != b.slots {
        return false;
    }
    let mut r: usize = 0;
    while r < a.points.len()
        invariant
            r <= a.points.len(),
            a.points@.len() == b.points@.len(),
            a.slots == b.slots,
            forall|q: int| 0 <= q < r ==> a.points@[q] == b.points@[q],
        decreases a.points.len() - r,
    {
        if a.points[r] != b.points[r] {
            assert(a@.points[r as int] != b@.points[r as int]);
            return false;
        }
        r += 1;
    }
    assert(a@.points =~= b@.points);
    true
}

fn covers_of(a: &Candidate, b: &Candidate) -> (r: bool)
    requires
        a.points@.len() == b.points@.len(),
    ensures
        r == covers(a@, b@),
{
    if a.slots < b.slots {
        return false;
    }
    let mut r: usize = 0;
    while r < b.points.len()
        invariant
            r <= b.points.len(),
            a.points@.len() == b.points@.len(),
            a.slots >= b.slots,
            forall|q: int| 0 <= q < r ==> a@.points[q] >= b@.points[q],
        decreases b.points.len() - r,
    {
        if a.points[r] < b.points[r] {
            assert(a@.points[r as int] < b@.points[r as int]);
            return false;
        }
        r += 1;
    }
    true
}

fn survivor_marks(items: &Vec<Candidate>, mask: &Vec<bool>, Ghost(skills): Ghost<int>) -> (marks:
    Vec<bool>)
    requires
        items.len() == mask.len(),
        wide(items@, skills),
    ensures
        marks.len() == items.len(),
        forall|i: int|
            0 <= i < items.len() ==> #[trigger] marks[i] == survives(entries(items@), mask@, i),
{
    let ghost es = entries(items@);
    let mut marks: Vec<bool> = Vec::new();
    let mut i: usize = 0;
    while i < items.len()
        invariant
            i <= items.len(),
            items.len() == mask.len(),
            wide(items@, skills),
            es == entries(items@),
            marks.len() == i,
            forall|q: int| 0 <= q < i ==> #[trigger] marks[q] == survives(es, mask@, q),
        decreases items.len() - i,
    {
        let mut stands = true;
        let mut lost = false;
        if mask[i] {
            let mut j: usize = 0;
            while j < items.len()
                invariant
                    j <= items.len(),
                    i < items.len(),
                    items.len() == mask.len(),
                    wide(items@, skills),
                    es == entries(items@),
                    stands == (forall|q: int|
                        0 <= q < j && mask[q] && same_class(#[trigger] es[q], es[i as int])
                            ==> es[q].defence <= es[i as int].defence && (q > i ==> es[q].defence
                            < es[i as int].defence)),
                    lost == (exists|q: int| 0 <= q < j && #[trigger] beats(es, mask@, q, i as int)),
                decreases items.len() - j,
            {
                let ghost old_lost = lost;
                if mask[j] {
                    let same = same_class_of(&items[j], &items[i]);
                    if same {
                        if items[j].defence > items[i].defence || (j > i && items[j].defence
                            >= items[i].defence) {
                            stands = false;
                        }
                    } else if covers_of(&items[j], &items[i]) {
                        lost = true;
                    }
                }
                proof {
                    assert(es[j as int] == items@[j as int]@);
                    assert(es[i as int] == items@[i as int]@);
                    if lost {
                        if old_lost {
                            let w = choose|q: int| 0 <= q < j && #[trigger] beats(es, mask@, q, i as int);
                            assert(beats(es, mask@, w, i as int));
                        } else {
                            assert(beats(es, mask@, j as int, i as int));
                        }
                    } else {
                        assert(!beats(es, mask@, j as int, i as int));
                    }
                }
                j += 1;
            }
            proof {
                if lost {
                    let w = choose|q: int| 0 <= q < items.len() && #[trigger] beats(es, mask@, q, i as int);
                    assert(beaten(es, mask@, i as int));
                } else {
                    assert(!beaten(es, mask@, i as int)) by {
                        if beaten(es, mask@, i as int) {
                            let w = choose|q: int| #[trigger] beats(es, mask@, q, i as int);
                            assert(0 <= w < items.len());
                        }
                    }
                }
            }
        }
        marks.push(mask[i] && stands && !lost);
        i += 1;
    }
    marks
}


proof fn lemma_push_contains(list: Seq<int>, v: int)
    ensures
        forall|x: int| list.push(v).contains(x) <==> (list.contains(x) || x == v),
{
    assert forall|x: int| list.push(v).contains(x) <==> (list.contains(x) || x == v) by {
        if list.push(v).contains(x) {
            let w = choose|i: int| 0 <= i < list.push(v).len() && list.push(v)[i] == x;
            if w < list.len() {
                assert(list[w] == x);
            }
        }
        if list.contains(x) {
            let w = choose|i: int| 0 <= i < list.len() && list[i] == x;
            assert(list.push(v)[w] == x);
        }
        if x == v {
            assert(list.push(v)[list.len() as int] == x);
        }
    }
}

/// Before skill `r` nothing is left out.
proof fn lemma_others_before(scores: Seq<i64>, r: int, upto: int)
    requires
        upto <= r,
    ensures
        others(scores, r, upto) == scale(scores, upto),
    decreases upto,
{
    if upto > 0 {
        lemma_others_before(scores, r, upto - 1);
    }
}

/// The product of the other scores, times the score of the skill, is the
/// scale: the points over a score are whole numbers of the unit, and the keys
/// hold the slots and the points over the scores without rounding.
pub proof fn lemma_others_times(scores: Seq<i64>, r: int, upto: int)
    requires
        0 <= r < upto,
        scores[r] > 0,
    ensures
        others(scores, r, upto) * scores[r] == scale(scores, upto),
    decreases upto,
{
    let s = scores[r] as int;
    let last = scores[upto - 1] as int;
    if r == upto - 1 {
        lemma_others_before(scores, r, upto - 1);
    } else {
        lemma_others_times(scores, r, upto - 1);
        let o = others(scores, r, upto - 1);
        let d = scale(scores, upto - 1);
        if last > 0 {
            assert((o * last) * s == d * last) by (nonlinear_arith)
                requires
                    o * s == d,
            ;
        }
    }
}

/// Counts the scale of the keys.
fn scale_of(scores: &[i64]) -> (unit: Vec<u32>)
    ensures
        value(unit@) == scale(scores@, scores@.len() as int),
{
    let mut unit = one();
    let mut r: usize = 0;
    while r < scores.len()
        invariant
            r <= scores.len(),
            value(unit@) == scale(scores@, r as int),
        decreases scores.len() - r,
    {
        if scores[r] > 0 {
            unit = times(&unit, scores[r] as u64);
        }
        r += 1;
    }
    unit
}

/// Counts the scale over the score of skill `r`.
fn others_of(scores: &[i64], r: usize) -> (part: Vec<u32>)
    ensures
        value(part@) == others(scores@, r as int, scores@.len() as int),
{
    let mut part = one();
    let mut q: usize = 0;
    while q < scores.len()
        invariant
            q <= scores.len(),
            value(part@) == others(scores@, r as int, q as int),
        decreases scores.len() - q,
    {
        if q != r && scores[q] > 0 {
            part = times(&part, scores[q] as u64);
        }
        q += 1;
    }
    part
}

/// Counts the key of an item, as a positive and a negative part.
fn fill_key_of(c: &Candidate, scores: &[i64], unit: &Vec<u32>, parts: &Vec<Vec<u32>>) -> (key: (
    Vec<u32>,
    Vec<u32>,
))
    requires
        c.points@.len() == scores@.len(),
        parts@.len() == scores@.len(),
        value(unit@) == scale(scores@, scores@.len() as int),
        forall|r: int|
            0 <= r < scores@.len() ==> value((#[trigger] parts@[r])@) == others(
                scores@,
                r,
                scores@.len() as int,
            ),
    ensures
        key_value(key.0@, key.1@) == fill_key(c@, scores@),
{
    let slots = c.slots as i64;
    let mut positive = zero();
    let mut negative = zero();
    if slots >= 0 {
        positive = times(unit, slots as u64);
    } else {
        negative = times(unit, (-slots) as u64);
        assert(-(value(unit@) * (-slots)) == slots * value(unit@)) by (nonlinear_arith);
    }
    assert(value(positive@) - value(negative@) == c@.slots * value(unit@)) by (nonlinear_arith)
        requires
            slots >= 0 ==> value(positive@) == value(unit@) * slots && value(negative@) == 0,
            slots < 0 ==> value(negative@) == value(unit@) * (-slots) && value(positive@) == 0,
            c@.slots == slots,
    ;
    let mut r: usize = 0;
    while r < scores.len()
        invariant
            r <= scores.len(),
            c.points@.len() == scores@.len(),
            parts@.len() == scores@.len(),
            forall|q: int|
                0 <= q < scores@.len() ==> value((#[trigger] parts@[q])@) == others(
                    scores@,
                    q,
                    scores@.len() as int,
                ),
            value(positive@) - value(negative@) == c@.slots * scale(
                scores@,
                scores@.len() as int,
            ) + shares(c@, scores@, r as int),
        decreases scores.len() - r,
    {
        if scores[r] > 0 {
            let p = 6 * (c.points[r] as i64);
            let ghost part = value(parts@[r as int]@);
            assert(c@.points[r as int] == c.points@[r as int]);
            if p >= 0 {
                let term = times(&parts[r], p as u64);
                positive = plus(&positive, &term);
                assert(part * p == 6 * c@.points[r as int] * part) by (nonlinear_arith)
                    requires
                        p == 6 * c@.points[r as int],
                ;
            } else {
                let term = times(&parts[r], (-p) as u64);
                negative = plus(&negative, &term);
                assert(-(part * (-p)) == 6 * c@.points[r as int] * part) by (nonlinear_arith)
                    requires
                        p == 6 * c@.points[r as int],
                ;
            }
        }
        r += 1;
    }
    (positive, negative)
}

fn worth_of(c: &Candidate, scores: &[i64], r: usize) -> (w: i128)
    requires
        c.points@.len() == scores@.len(),
        r < scores@.len(),
    ensures
        w == worth(c@, scores@, r as int),
{
    let slots = c.slots as i128;
    let score = scores[r] as i128;
    assert(-0x8000_0000 * 0x8000_0000_0000_0000 <= slots * score <= 0x8000_0000
        * 0x8000_0000_0000_0000) by (nonlinear_arith)
        requires
            -0x8000_0000 <= slots <= 0x8000_0000,
            -0x8000_0000_0000_0000 <= score <= 0x8000_0000_0000_0000,
    ;
    slots * score + 6 * (c.points[r] as i128)
}

/// Trims a category: gives the places of the items that are worth trying.
/// `mask` tells which items are eligible, `scores` holds the best points per
/// slot of each wanted skill in sixths. Kept are the best eligible item of
/// three slots; for each skill the survivor of the reduction that is worth
/// most for it; and further survivors while fewer than `max_count` items
/// are kept. Where nothing is kept, the first item is.
pub fn trim_places(items: &Vec<Candidate>, mask: &Vec<bool>, scores: &[i64], max_count: usize) -> (out:
    Vec<usize>)
    requires
        items.len() == mask.len(),
        items.len() > 0,
        wide(items@, scores@.len() as int),
    ensures
        is_trimmed(entries(items@), mask@, scores@, max_count as int, out@),
        is_sound(entries(items@), mask@, scores@, out@),
        forall|x: int| 0 <= x < out.len() ==> #[trigger] out[x] < items.len(),
{
    let n = items.len();
    let ghost es = entries(items@);
    let marks = survivor_marks(items, mask, Ghost(scores@.len() as int));
    let mut chosen: Vec<usize> = Vec::new();
    let mut taken: Vec<bool> = Vec::new();
    let mut defences: Vec<i128> = Vec::new();
    let mut threes: Vec<bool> = Vec::new();
    let mut keys: Vec<Vec<u32>> = Vec::new();
    let mut debts: Vec<Vec<u32>> = Vec::new();
    let unit = scale_of(scores);
    let mut parts: Vec<Vec<u32>> = Vec::new();
    let mut r: usize = 0;
    while r < scores.len()
        invariant
            r <= scores.len(),
            parts.len() == r,
            forall|q: int|
                0 <= q < r ==> value((#[trigger] parts@[q])@) == others(
                    scores@,
                    q,
                    scores@.len() as int,
                ),
        decreases scores.len() - r,
    {
        parts.push(others_of(scores, r));
        r += 1;
    }
    let mut i: usize = 0;
    while i < n
        invariant
            i <= n,
            n == items.len(),
            n == mask.len(),
            wide(items@, scores@.len() as int),
            es == entries(items@),
            value(unit@) == scale(scores@, scores@.len() as int),
            parts@.len() == scores@.len(),
            forall|q: int|
                0 <= q < scores@.len() ==> value((#[trigger] parts@[q])@) == others(
                    scores@,
                    q,
                    scores@.len() as int,
                ),
            debts.len() == i,
            taken.len() == i,
            defences.len() == i,
            threes.len() == i,
            keys.len() == i,
            forall|q: int| 0 <= q < i ==> !#[trigger] taken[q],
            forall|q: int| 0 <= q < i ==> #[trigger] defences[q] == es[q].defence,
            forall|q: int| 0 <= q < i ==> #[trigger] threes[q] == (mask[q] && es[q].slots == 3),
            forall|q: int|
                0 <= q < i ==> #[trigger] key_value(keys@[q]@, debts@[q]@) == fill_key(
                    es[q],
                    scores@,
                ),
        decreases n - i,
    {
        assert(es[i as int] == items@[i as int]@);
        taken.push(false);
        defences.push(items[i].defence as i128);
        threes.push(mask[i] && items[i].slots == 3);
        let (positive, negative) = fill_key_of(&items[i], scores, &unit, &parts);
        keys.push(positive);
        debts.push(negative);
        i += 1;
    }
    match last_greatest(&defences, &threes) {
        Some(b) => {
            chosen.push(b);
            taken.set(b, true);
            proof {
                assert forall|j: int|
                    0 <= j < es.len() && mask@[j] && (#[trigger] es[j]).slots == 3 implies es[j].defence
                    <= es[b as int].defence && (j > b ==> es[j].defence < es[b as int].defence) by {
                    assert(threes[j]);
                }
                assert(threes[b as int]);
                assert(is_best_three(es, mask@, b as int));
                let c = choose|i: int| #[trigger] is_best_three(es, mask@, i);
                lemma_best_three_unique(es, mask@, b as int, c);
                assert(places(chosen@) =~= seq![b as int]);
                assert forall|q: int| 0 <= q < n implies #[trigger] taken[q] == places(
                    chosen@,
                ).contains(q) by {
                    if q == b {
                        assert(places(chosen@)[0] == q);
                    }
                }
            }
        },
        None => {
            proof {
                assert forall|i: int| !#[trigger] is_best_three(es, mask@, i) by {
                    if is_best_three(es, mask@, i) {
                        assert(threes[i]);
                    }
                }
                assert(places(chosen@) =~= Seq::<int>::empty());
                assert forall|q: int| 0 <= q < n implies #[trigger] taken[q] == places(
                    chosen@,
                ).contains(q) by {}
            }
        },
    }
    let mut r: usize = 0;
    while r < scores.len()
        invariant
            r <= scores.len(),
            n == items.len(),
            n == mask.len(),
            n > 0,
            wide(items@, scores@.len() as int),
            es == entries(items@),
            marks.len() == n,
            forall|q: int| 0 <= q < n ==> #[trigger] marks[q] == survives(es, mask@, q),
            taken.len() == n,
            places(chosen@) == kept_first(es, mask@, scores@, r as int),
            forall|q: int| 0 <= q < n ==> #[trigger] taken[q] == places(chosen@).contains(q),
            forall|x: int| 0 <= x < chosen.len() ==> #[trigger] chosen[x] < n,
        decreases scores.len() - r,
    {
        let mut worths: Vec<i128> = Vec::new();
        let mut j: usize = 0;
        while j < n
            invariant
                j <= n,
                n == items.len(),
                r < scores.len(),
                wide(items@, scores@.len() as int),
                es == entries(items@),
                worths.len() == j,
                forall|q: int| 0 <= q < j ==> #[trigger] worths[q] == worth(es[q], scores@, r as int),
            decreases n - j,
        {
            assert(es[j as int] == items@[j as int]@);
            worths.push(worth_of(&items[j], scores, r));
            j += 1;
        }
        let ghost before = places(chosen@);
        match last_greatest(&worths, &marks) {
            Some(p) => {
                proof {
                    assert forall|j: int| #[trigger] survives(es, mask@, j) implies worth(
                        es[j],
                        scores@,
                        r as int,
                    ) <= worth(es[p as int], scores@, r as int) && (j > p ==> worth(
                        es[j],
                        scores@,
                        r as int,
                    ) < worth(es[p as int], scores@, r as int)) by {
                        assert(marks[j]);
                        assert(worths[j] == worth(es[j], scores@, r as int));
                    }
                    assert(marks[p as int]);
                    assert(worths[p as int] == worth(es[p as int], scores@, r as int));
                    assert(is_pick(es, mask@, scores@, r as int, p as int));
                    let c = choose|i: int| #[trigger] is_pick(es, mask@, scores@, r as int, i);
                    lemma_pick_unique(es, mask@, scores@, r as int, p as int, c);
                    lemma_push_contains(before, p as int);
                }
                if !taken[p] {
                    chosen.push(p);
                    taken.set(p, true);
                    assert(places(chosen@) =~= before.push(p as int));
                }
            },
            None => {
                proof {
                    assert forall|i: int| !#[trigger] is_pick(es, mask@, scores@, r as int, i) by {
                        if is_pick(es, mask@, scores@, r as int, i) {
                            assert(marks[i]);
                        }
                    }
                }
            },
        }
        r += 1;
    }
    let ghost first = places(chosen@);
    let ghost mut fill: Seq<int> = Seq::empty();
    let mut free: Vec<bool> = Vec::new();
    let mut i: usize = 0;
    while i < n
        invariant
            i <= n,
            marks.len() == n,
            taken.len() == n,
            free.len() == i,
            forall|q: int| 0 <= q < i ==> #[trigger] free[q] == (marks[q] && !taken[q]),
        decreases n - i,
    {
        free.push(marks[i] && !taken[i]);
        i += 1;
    }
    assert(first + fill =~= first);
    let mut full = false;
    while chosen.len() < max_count && !full
        invariant
            n == items.len(),
            n == mask.len(),
            es == entries(items@),
            marks.len() == n,
            forall|q: int| 0 <= q < n ==> #[trigger] marks[q] == survives(es, mask@, q),
            keys.len() == n,
            debts.len() == n,
            forall|q: int|
                0 <= q < n ==> #[trigger] key_value(keys@[q]@, debts@[q]@) == fill_key(
                    es[q],
                    scores@,
                ),
            free.len() == n,
            forall|q: int|
                0 <= q < n ==> #[trigger] free[q] == (marks[q] && !first.contains(q)
                    && !fill.contains(q)),
            places(chosen@) == first + fill,
            fill.len() == 0 || first.len() + fill.len() <= max_count,
            forall|a: int|
                0 <= a < fill.len() ==> survives(es, mask@, #[trigger] fill[a]) && !first.contains(
                    fill[a],
                ),
            forall|a: int, b: int|
                0 <= a < b < fill.len() ==> earlier(es, scores@, #[trigger] fill[a], #[trigger] fill[b]),
            forall|x: int, a: int|
                0 <= x < n && #[trigger] free[x] && 0 <= a < fill.len() ==> earlier(
                    es,
                    scores@,
                    #[trigger] fill[a],
                    x,
                ),
            full ==> forall|q: int| 0 <= q < n ==> !#[trigger] free[q],
            forall|x: int| 0 <= x < chosen.len() ==> #[trigger] chosen[x] < n,
        decreases (if full { 0int } else { 1int }) + max_count - chosen.len(),
    {
        match first_least(&keys, &debts, &free) {
            Some(p) => {
                let ghost old_fill = fill;
                let ghost old_free = free@;
                let ghost old_chosen = chosen@;
                chosen.push(p);
                free.set(p, false);
                proof {
                    fill = fill.push(p as int);
                    lemma_push_contains(old_fill, p as int);
                    assert(places(chosen@) =~= places(old_chosen).push(p as int));
                    assert(places(chosen@) =~= first + fill);
                    assert forall|a: int, b: int| 0 <= a < b < fill.len() implies earlier(
                        es,
                        scores@,
                        #[trigger] fill[a],
                        #[trigger] fill[b],
                    ) by {
                        if b == old_fill.len() {
                            assert(old_free[p as int]);
                            assert(fill[a] == old_fill[a]);
                        } else {
                            assert(fill[a] == old_fill[a] && fill[b] == old_fill[b]);
                        }
                    }
                    assert forall|x: int, a: int|
                        0 <= x < n && #[trigger] free[x] && 0 <= a < fill.len() implies earlier(
                        es,
                        scores@,
                        #[trigger] fill[a],
                        x,
                    ) by {
                        assert(old_free[x]);
                        if a < old_fill.len() {
                            assert(fill[a] == old_fill[a]);
                        }
                    }
                }
            },
            None => {
                full = true;
            },
        }
    }
    proof {
        assert(is_fill(es, mask@, scores@, first, max_count as int, fill)) by {
            assert forall|x: int| #[trigger]
                survives(es, mask@, x) && !first.contains(x) && !fill.contains(x) implies first.len()
                + fill.len() >= max_count && forall|a: int|
                0 <= a < fill.len() ==> earlier(es, scores@, #[trigger] fill[a], x) by {
                assert(free[x]);
            }
        }
    }
    if chosen.len() == 0 {
        chosen.push(0);
        assert(places(chosen@) =~= seq![0int]);
    }
    proof {
        assert(es.len() == items@.len());
        assert forall|i: int| 0 <= i < es.len() implies (#[trigger] es[i]).points.len()
            == scores@.len() by {
            assert(es[i] == items@[i]@);
        }
        assert forall|x: int, j: int|
            0 <= x < chosen@.len() && survives(es, mask@, j) && j != chosen@[x] && #[trigger] dominated(
                es,
                chosen@[x] as int,
                j,
            ) implies kept_anyway(es, mask@, scores@, chosen@, x) by {
            lemma_trim_sound(es, mask@, scores@, max_count as int, chosen@, x, j);
        }
    }
    chosen
}


/// The item as the trimmer sees it, for the wanted skills `requirements`.
pub open spec fn entry_of<T: SkillPoint>(item: T, requirements: Seq<Requirement>) -> Entry {
    Entry {
        slots: item.slot_count(),
        defence: item.defence_value(),
        points: Seq::new(requirements.len(), |r: int| item.points_of(requirements[r].name@)),
    }
}

/// The items as the trimmer sees them.
pub open spec fn entries_of<T: SkillPoint>(parts: Seq<T>, requirements: Seq<Requirement>) -> Seq<Entry> {
    Seq::new(parts.len(), |i: int| entry_of(parts[i], requirements))
}

/// `mask` holds what `filter` said of each of `parts`.
pub open spec fn is_mask<T, F: Fn(&T) -> bool>(filter: &F, parts: Seq<T>, mask: Seq<bool>) -> bool {
    &&& mask.len() == parts.len()
    &&& forall|i: int| 0 <= i < parts.len() ==> #[trigger] filter.ensures((&parts[i],), mask[i])
}

/// `out` is the trimmed list of the places of `parts`, where the eligible
/// items are those that `filter` lets pass: for what `filter` said of each
/// item, `out` is trimmed and sound.
pub open spec fn is_trim_of<T: SkillPoint, F: Fn(&T) -> bool>(
    filter: &F,
    parts: Seq<T>,
    requirements: Seq<Requirement>,
    scores: Seq<i64>,
    max_count: int,
    out: Seq<usize>,
) -> bool {
    exists|mask: Seq<bool>|
        is_mask(filter, parts, mask) && #[trigger] is_trimmed(
            entries_of(parts, requirements),
            mask,
            scores.take(requirements.len() as int),
            max_count,
            out,
        ) && is_sound(
            entries_of(parts, requirements),
            mask,
            scores.take(requirements.len() as int),
            out,
        )
}

/// Trims a category to the items that are worth trying: gives their places
/// in `parts`, and the items themselves. Eligible are the items that
/// `filter` lets pass; `scores` holds the best points per slot of each
/// wanted skill in sixths, and what it holds beyond the wanted skills is not
/// looked at.
pub fn trim<'a, T: SkillPoint, F: Fn(&T) -> bool>(
    parts: &'a [T],
    filter: F,
    requirements: &[Requirement],
    scores: &[i64],
    max_count: usize,
) -> (r: (Vec<usize>, Vec<&'a T>))
    requires
        parts@.len() > 0,
        scores@.len() >= requirements@.len(),
        forall|i: int| 0 <= i < parts@.len() ==> #[trigger] filter.requires((&parts@[i],)),
    ensures
        r.0@.len() == r.1@.len(),
        forall|x: int|
            0 <= x < r.0@.len() ==> (#[trigger] r.0@[x]) < parts@.len() && *r.1@[x]
                == parts@[r.0@[x] as int],
        is_trim_of(&filter, parts@, requirements@, scores@, max_count as int, r.0@),
{
    let mut used: Vec<i64> = Vec::new();
    let mut s: usize = 0;
    while s < requirements.len()
        invariant
            s <= requirements.len(),
            scores@.len() >= requirements@.len(),
            used@ == scores@.take(s as int),
        decreases requirements.len() - s,
    {
        used.push(scores[s]);
        assert(scores@.take(s + 1) =~= scores@.take(s as int).push(scores@[s as int]));
        s += 1;
    }
    let mut items: Vec<Candidate> = Vec::new();
    let mut mask: Vec<bool> = Vec::new();
    let mut i: usize = 0;
    while i < parts.len()
        invariant
            i <= parts.len(),
            items.len() == i,
            mask.len() == i,
            used@.len() == requirements@.len(),
            used@ == scores@.take(requirements@.len() as int),
            forall|q: int| 0 <= q < parts@.len() ==> #[trigger] filter.requires((&parts@[q],)),
            forall|q: int| 0 <= q < i ==> #[trigger] filter.ensures((&parts@[q],), mask@[q]),
            forall|q: int|
                0 <= q < i ==> (#[trigger] items@[q])@ == entry_of(parts@[q], requirements@),
            wide(items@, used@.len() as int),
        decreases parts.len() - i,
    {
        let part = &parts[i];
        let keep = filter(part);
        let mut points: Vec<i32> = Vec::new();
        let mut r: usize = 0;
        while r < requirements.len()
            invariant
                r <= requirements.len(),
                points.len() == r,
                forall|q: int|
                    0 <= q < r ==> #[trigger] points@[q] == part.points_of(requirements@[q].name@),
            decreases requirements.len() - r,
        {
            points.push(part.points(requirements[r].name.as_str()));
            r += 1;
        }
        let c = Candidate { slots: part.slots(), defence: part.defence(), points };
        assert(c@.points =~= entry_of(*part, requirements@).points);
        items.push(c);
        mask.push(keep);
        i += 1;
    }
    assert(entries(items@) =~= entries_of(parts@, requirements@));
    let used_scores = used.as_slice();
    let places = trim_places(&items, &mask, used_scores, max_count);
    let ghost taken = scores@.take(requirements@.len() as int);
    assert(used_scores@ == taken);
    assert(is_trimmed(
        entries_of(parts@, requirements@),
        mask@,
        taken,
        max_count as int,
        places@,
    ));
    assert(is_sound(entries_of(parts@, requirements@), mask@, taken, places@));
    let mut kept: Vec<&'a T> = Vec::new();
    let mut x: usize = 0;
    while x < places.len()
        invariant
            x <= places.len(),
            kept.len() == x,
            used@ == scores@.take(requirements@.len() as int),
            forall|q: int| 0 <= q < places.len() ==> #[trigger] places[q] < parts@.len(),
            forall|q: int| 0 <= q < x ==> *(#[trigger] kept@[q]) == parts@[places@[q] as int],
        decreases places.len() - x,
    {
        kept.push(&parts[places[x]]);
        x += 1;
    }
    assert(is_mask(&filter, parts@, mask@));
    assert(is_trim_of(&filter, parts@, requirements@, scores@, max_count as int, places@));
    (places, kept)
}

/// Item `i` has fewer points of every skill than item `j`, and no more
/// slots.
pub open spec fn dominated(items: Seq<Entry>, i: int, j: int) -> bool {
    &&& items[i].slots <= items[j].slots
    &&& forall|r: int| 0 <= r < items[i].points.len() ==> items[i].points[r] < items[j].points[r]
}

/// The item at place `x` of `out` is kept whatever else is: it is the best
/// item of three slots, or the first item, kept where nothing else is.
pub open spec fn kept_anyway(
    items: Seq<Entry>,
    mask: Seq<bool>,
    scores: Seq<i64>,
    out: Seq<usize>,
    x: int,
) -> bool {
    best_three_of(items, mask) == Some(out[x] as int) || (kept_first(
        items,
        mask,
        scores,
        scores.len() as int,
    ).len() == 0 && places(out) == seq![0int])
}

/// No item of `out` is dominated by another survivor, but for what is kept
/// anyway.
pub open spec fn is_sound(items: Seq<Entry>, mask: Seq<bool>, scores: Seq<i64>, out: Seq<usize>) -> bool {
    forall|x: int, j: int|
        0 <= x < out.len() && survives(items, mask, j) && j != out[x] && #[trigger] dominated(
            items,
            out[x] as int,
            j,
        ) ==> kept_anyway(items, mask, scores, out, x)
}

/// All that is kept whatever the room is the best item of three slots or a
/// survivor.
pub proof fn lemma_kept_first(items: Seq<Entry>, mask: Seq<bool>, scores: Seq<i64>, upto: int, x: int)
    requires
        0 <= x < kept_first(items, mask, scores, upto).len(),
    ensures
        best_three_of(items, mask) == Some(kept_first(items, mask, scores, upto)[x]) || survives(
            items,
            mask,
            kept_first(items, mask, scores, upto)[x],
        ),
    decreases upto,
{
    if upto > 0 {
        let before = kept_first(items, mask, scores, upto - 1);
        if x < before.len() {
            lemma_kept_first(items, mask, scores, upto - 1, x);
        }
    }
}

/// The trimmer is sound: an item that another survivor dominates is not
/// kept, unless it is the best item of three slots, which is kept in any
/// case, or the first item, which is kept where nothing else is.
pub proof fn lemma_trim_sound(
    items: Seq<Entry>,
    mask: Seq<bool>,
    scores: Seq<i64>,
    max_count: int,
    out: Seq<usize>,
    x: int,
    j: int,
)
    requires
        is_trimmed(items, mask, scores, max_count, out),
        forall|i: int| 0 <= i < items.len() ==> (#[trigger] items[i]).points.len() == scores.len(),
        0 <= x < out.len(),
        survives(items, mask, j),
        j != out[x],
        dominated(items, out[x] as int, j),
    ensures
        kept_anyway(items, mask, scores, out, x),
{
    let first = kept_first(items, mask, scores, scores.len() as int);
    let fill = choose|fill: Seq<int>| #[trigger]
        is_fill(items, mask, scores, first, max_count, fill) && places(out) == (if first.len()
            + fill.len() == 0 {
            seq![0int]
        } else {
            first + fill
        });
    let i = out[x] as int;
    assert(places(out)[x] == i);
    if first.len() + fill.len() > 0 {
        if x < first.len() {
            lemma_kept_first(items, mask, scores, scores.len() as int, x);
        } else {
            assert(places(out).len() == out.len());
            assert((first + fill)[x] == fill[x - first.len()]);
            assert(fill[x - first.len()] == i);
        }
        if survives(items, mask, i) {
            assert(covers(items[j], items[i]));
            if same_class(items[j], items[i]) {
                assert(items[i].points.len() == 0) by {
                    if items[i].points.len() > 0 {
                        assert(items[i].points[0] < items[j].points[0]);
                    }
                }
                assert(same_class(items[i], items[j]));
                assert(represents(items, mask, i) && represents(items, mask, j));
                assert(items[j].defence <= items[i].defence && (j > i ==> items[j].defence
                    < items[i].defence));
                assert(items[i].defence <= items[j].defence && (i > j ==> items[i].defence
                    < items[j].defence));
                assert(false);
            } else {
                assert(beats(items, mask, j, i));
                assert(false);
            }
        }
    }
}

} // verus!

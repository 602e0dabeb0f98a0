//! What the results of the search are worth, said of the items themselves:
//! every set that is found reaches the wanted skills and has the slots for
//! its decorations.

use crate::algorithm::decorate::{entries_ok, granted, slots_used, start_budget};
use crate::algorithm::find::{prepared, rows_of};
use crate::algorithm::laws::usable;
use crate::algorithm::resolve::{all_closed, narrowed, FindResult};
use crate::algorithm::rows::{is_row_of, Row};
use crate::algorithm::search::{SearchContext, DEPTH};
use crate::armor::Armor;
use crate::charms::Charm;
use crate::decorations::Decoration;
use crate::requirements::Requirement;
use crate::skillpoint::SkillPoint;
use vstd::prelude::*;

verus! {

/// The piece at the place `at` of `list`, or the body piece where the
/// category is left out.
pub open spec fn worn<'a>(list: Seq<&'a Armor>, body: &'a Armor, at: Option<usize>) -> &'a Armor {
    match at {
        Some(i) => list[i as int],
        None => body,
    }
}

/// The points for `ability` that the decorations of `assignment` grant.
pub open spec fn jewel_points(
    decorations: Seq<&Decoration>,
    assignment: Seq<(usize, usize)>,
    ability: Seq<char>,
) -> int
    decreases assignment.len(),
{
    if assignment.len() == 0 {
        0
    } else {
        jewel_points(decorations, assignment.drop_last(), ability) + assignment.last().0
            * decorations[assignment.last().1 as int].points_of(ability)
    }
}

/// The slots that the decorations of `assignment` take.
pub open spec fn jewel_slots(decorations: Seq<&Decoration>, assignment: Seq<(usize, usize)>) -> int
    decreases assignment.len(),
{
    if assignment.len() == 0 {
        0
    } else {
        jewel_slots(decorations, assignment.drop_last()) + assignment.last().0
            * decorations[assignment.last().1 as int].slot_count()
    }
}

/// The pieces and the decorations that `res` names are in the lists.
pub open spec fn in_lists(
    head: Seq<&Armor>,
    body: Seq<&Armor>,
    arms: Seq<&Armor>,
    waist: Seq<&Armor>,
    legs: Seq<&Armor>,
    charms: Seq<&Charm>,
    decorations: Seq<&Decoration>,
    res: FindResult,
) -> bool {
    &&& res.body_index < body.len()
    &&& res.charms_index < charms.len()
    &&& res.head_index matches Some(i) ==> i < head.len()
    &&& res.arms_index matches Some(i) ==> i < arms.len()
    &&& res.waist_index matches Some(i) ==> i < waist.len()
    &&& res.legs_index matches Some(i) ==> i < legs.len()
    &&& forall|e: int|
        0 <= e < res.decorations_count_indices@.len() ==> (
        #[trigger] res.decorations_count_indices@[e]).1 < decorations.len()
}

/// The points for `ability` of the set that `res` names: those of its body
/// piece, of its charm, of the piece of each category, where the body piece
/// counts for a category that is left out, and of its decorations.
pub open spec fn set_grants(
    head: Seq<&Armor>,
    body: Seq<&Armor>,
    arms: Seq<&Armor>,
    waist: Seq<&Armor>,
    legs: Seq<&Armor>,
    charms: Seq<&Charm>,
    decorations: Seq<&Decoration>,
    res: FindResult,
    ability: Seq<char>,
) -> int {
    let mail = body[res.body_index as int];
    mail.points_of(ability) + charms[res.charms_index as int].points_of(ability) + worn(
        head,
        mail,
        res.head_index,
    ).points_of(ability) + worn(arms, mail, res.arms_index).points_of(ability) + worn(
        waist,
        mail,
        res.waist_index,
    ).points_of(ability) + worn(legs, mail, res.legs_index).points_of(ability) + jewel_points(
        decorations,
        res.decorations_count_indices@,
        ability,
    )
}

/// The slots that decorations can use on the set that `res` names and on a
/// weapon with `weapon_slots` slots.
pub open spec fn set_room(
    head: Seq<&Armor>,
    body: Seq<&Armor>,
    arms: Seq<&Armor>,
    waist: Seq<&Armor>,
    legs: Seq<&Armor>,
    charms: Seq<&Charm>,
    res: FindResult,
    weapon_slots: usize,
) -> int {
    let mail = body[res.body_index as int];
    usable(weapon_slots as int) + usable(mail.slot_count()) + usable(
        charms[res.charms_index as int].slot_count(),
    ) + usable(worn(head, mail, res.head_index).slot_count()) + usable(
        worn(arms, mail, res.arms_index).slot_count(),
    ) + usable(worn(waist, mail, res.waist_index).slot_count()) + usable(
        worn(legs, mail, res.legs_index).slot_count(),
    )
}

/// The rows of the decorations grant what the decorations do.
proof fn lemma_rows_grant(
    rows: Seq<Row>,
    decorations: Seq<&Decoration>,
    requirements: Seq<Requirement>,
    assignment: Seq<(usize, usize)>,
    q: int,
)
    requires
        rows_of(rows, decorations, requirements, 0),
        0 <= q < requirements.len(),
        entries_ok(rows, assignment, requirements.len() as int),
    ensures
        granted(rows, assignment, q) == jewel_points(decorations, assignment, requirements[q].name@),
    decreases assignment.len(),
{
    if assignment.len() > 0 {
        let before = assignment.drop_last();
        assert forall|i: int| 0 <= i < before.len() implies (#[trigger] before[i]).0 <= i32::MAX
            && before[i].1 < rows.len() && rows[before[i].1 as int].points@.len()
            == requirements.len() by {
            assert(before[i] == assignment[i]);
        }
        lemma_rows_grant(rows, decorations, requirements, before, q);
        let at = assignment.last().1 as int;
        assert(assignment.last() == assignment[assignment.len() - 1]);
        assert(is_row_of(rows[at], decorations[at], at, requirements, 0));
    }
}

/// The rows of the decorations take the slots that the decorations do.
proof fn lemma_rows_take(
    rows: Seq<Row>,
    decorations: Seq<&Decoration>,
    requirements: Seq<Requirement>,
    assignment: Seq<(usize, usize)>,
)
    requires
        rows_of(rows, decorations, requirements, 0),
        entries_ok(rows, assignment, requirements.len() as int),
    ensures
        slots_used(rows, assignment) == jewel_slots(decorations, assignment),
    decreases assignment.len(),
{
    if assignment.len() > 0 {
        let before = assignment.drop_last();
        assert forall|i: int| 0 <= i < before.len() implies (#[trigger] before[i]).0 <= i32::MAX
            && before[i].1 < rows.len() && rows[before[i].1 as int].points@.len()
            == requirements.len() by {
            assert(before[i] == assignment[i]);
        }
        lemma_rows_take(rows, decorations, requirements, before);
        let at = assignment.last().1 as int;
        assert(assignment.last() == assignment[assignment.len() - 1]);
        assert(is_row_of(rows[at], decorations[at], at, requirements, 0));
    }
}

/// The row that stands at a category is the row of the piece that is worn
/// there.
proof fn lemma_worn_row(
    rows: Seq<Row>,
    body_row: Row,
    list: Seq<&Armor>,
    body: &Armor,
    requirements: Seq<Requirement>,
    best: int,
    at: Option<usize>,
)
    requires
        rows_of(rows, list, requirements, best),
        at matches Some(i) ==> i < rows.len(),
        body_row.slots == body.slot_count(),
        body_row.points@.len() == requirements.len(),
        forall|q: int|
            0 <= q < requirements.len() ==> #[trigger] body_row.points@[q] == body.points_of(
                requirements[q].name@,
            ),
    ensures
        ({
            let row = match at {
                Some(i) => rows[i as int],
                None => body_row,
            };
            &&& row.slots == worn(list, body, at).slot_count()
            &&& forall|q: int|
                0 <= q < requirements.len() ==> #[trigger] row.points@[q] == worn(
                    list,
                    body,
                    at,
                ).points_of(requirements[q].name@)
        }),
{
    match at {
        Some(i) => {
            assert(is_row_of(rows[i as int], list[i as int], i as int, requirements, best));
        },
        None => {},
    }
}

impl SearchContext {
    /// The points and the slots of a full combination, piece by piece.
    proof fn lemma_piece_by_piece(&self, body: int, chosen: Seq<Option<usize>>, q: int)
        requires
            chosen.len() == DEPTH,
        ensures
            self.set_points(body, chosen, q) == self.body@[body].points@[q] + self.piece(
                body,
                0,
                chosen[0],
            ).points@[q] + self.piece(body, 1, chosen[1]).points@[q] + self.piece(
                body,
                2,
                chosen[2],
            ).points@[q] + self.piece(body, 3, chosen[3]).points@[q] + self.piece(
                body,
                4,
                chosen[4],
            ).points@[q],
            self.capacity(body, chosen) == usable(self.weapon_slots as int) + usable(
                self.body@[body].slots as int,
            ) + usable(self.piece(body, 0, chosen[0]).slots as int) + usable(
                self.piece(body, 1, chosen[1]).slots as int,
            ) + usable(self.piece(body, 2, chosen[2]).slots as int) + usable(
                self.piece(body, 3, chosen[3]).slots as int,
            ) + usable(self.piece(body, 4, chosen[4]).slots as int),
    {
        let c4 = chosen.drop_last();
        let c3 = c4.drop_last();
        let c2 = c3.drop_last();
        let c1 = c2.drop_last();
        let c0 = c1.drop_last();
        assert(chosen.last() == chosen[4]);
        assert(c4.last() == chosen[3]);
        assert(c3.last() == chosen[2]);
        assert(c2.last() == chosen[1]);
        assert(c1.last() == chosen[0]);
        assert(c0.len() == 0);
        assert(self.set_points(body, c0, q) == self.body@[body].points@[q]);
        assert(self.set_points(body, c1, q) == self.set_points(body, c0, q) + self.piece(
            body,
            0,
            chosen[0],
        ).points@[q]);
        assert(self.set_points(body, c2, q) == self.set_points(body, c1, q) + self.piece(
            body,
            1,
            chosen[1],
        ).points@[q]);
        assert(self.set_points(body, c3, q) == self.set_points(body, c2, q) + self.piece(
            body,
            2,
            chosen[2],
        ).points@[q]);
        assert(self.set_points(body, c4, q) == self.set_points(body, c3, q) + self.piece(
            body,
            3,
            chosen[3],
        ).points@[q]);
        assert(self.set_points(body, chosen, q) == self.set_points(body, c4, q) + self.piece(
            body,
            4,
            chosen[4],
        ).points@[q]);
        assert(self.capacity(body, c0) == usable(self.weapon_slots as int) + usable(
            self.body@[body].slots as int,
        ));
        assert(self.capacity(body, c1) == self.capacity(body, c0) + usable(
            self.piece(body, 0, chosen[0]).slots as int,
        ));
        assert(self.capacity(body, c2) == self.capacity(body, c1) + usable(
            self.piece(body, 1, chosen[1]).slots as int,
        ));
        assert(self.capacity(body, c3) == self.capacity(body, c2) + usable(
            self.piece(body, 2, chosen[2]).slots as int,
        ));
        assert(self.capacity(body, c4) == self.capacity(body, c3) + usable(
            self.piece(body, 3, chosen[3]).slots as int,
        ));
        assert(self.capacity(body, chosen) == self.capacity(body, c4) + usable(
            self.piece(body, 4, chosen[4]).slots as int,
        ));
    }

    /// The decorations of a result are among the decorations of the search.
    proof fn lemma_result_entries(&self, combo: (int, Seq<Option<usize>>), res: FindResult)
        requires
            self.wf(),
            self.settled(combo, res),
        ensures
            entries_ok(self.decorations@, res.decorations_count_indices@, self.skills()),
    {
        let deficits = self.deficits_of(combo.0, combo.1);
        if !all_closed(deficits) {
            let asked = narrowed(deficits);
            let budget = start_budget(self.sized_after(combo.0, combo.1));
            let path = choose|path: Seq<[i32; 3]>|
                path.len() == self.tables.skills() && #[trigger] self.tables.first_from(
                    asked,
                    path,
                    0,
                    budget,
                    0,
                ) && res.decorations_count_indices@ == self.tables.assignment_from(path, 0);
            self.tables.lemma_first_is_valid(asked, path, 0, budget, 0);
            self.tables.lemma_entries_from(self.decorations@, asked, path, 0, budget, 0);
        }
    }
}

/// Every set that the search finds is made of items of the lists, reaches
/// the wanted points of every skill, and has the slots for its decorations:
/// for each requirement, the points of its pieces, of its charm and of its
/// decorations together are no fewer than wanted, and its decorations take
/// no more slots than decorations can use on its pieces, on its charm and on
/// the weapon.
pub proof fn lemma_find_is_valid(
    head: Seq<&Armor>,
    body: Seq<&Armor>,
    arms: Seq<&Armor>,
    waist: Seq<&Armor>,
    legs: Seq<&Armor>,
    charms: Seq<&Charm>,
    decorations: Seq<&Decoration>,
    requirements: Seq<Requirement>,
    weapon_slots: usize,
    max_results: int,
    ctx: SearchContext,
    results: Seq<FindResult>,
    i: int,
)
    requires
        prepared(
            ctx,
            head,
            body,
            arms,
            waist,
            legs,
            charms,
            decorations,
            requirements,
            weapon_slots,
        ),
        ctx.found(results, max_results),
        0 <= i < results.len(),
    ensures
        in_lists(head, body, arms, waist, legs, charms, decorations, results[i]),
        forall|q: int|
            0 <= q < requirements.len() ==> set_grants(
                head,
                body,
                arms,
                waist,
                legs,
                charms,
                decorations,
                results[i],
                (#[trigger] requirements[q]).name@,
            ) >= requirements[q].points,
        jewel_slots(decorations, results[i].decorations_count_indices@) <= set_room(
            head,
            body,
            arms,
            waist,
            legs,
            charms,
            results[i],
            weapon_slots,
        ),
{
    let res = results[i];
    let picks = choose|picks: Seq<int>| #[trigger] ctx.picked(results, picks, max_results);
    let combo = ctx.combos()[picks[i]];
    assert(ctx.settled(combo, res));
    assert(ctx.combos().contains(combo));
    ctx.lemma_combos(combo);
    let mail = combo.0;
    let chosen = combo.1;
    assert forall|d: int| 0 <= d < DEPTH implies match #[trigger] chosen[d] {
        Some(at) => at < ctx.pieces@[d]@.len(),
        None => d != 0,
    } by {
        assert(ctx.takes(mail, chosen.take(d), chosen[d]));
    }
    assert(chosen[0] is Some && chosen[1] == res.head_index && chosen[2] == res.arms_index
        && chosen[3] == res.waist_index && chosen[4] == res.legs_index);
    ctx.lemma_result_entries(combo, res);
    ctx.lemma_result_fits_slots(mail, chosen, res);
    let assignment = res.decorations_count_indices@;
    assert(is_row_of(ctx.body@[mail], body[mail], mail, requirements, ctx.best_per_slot as int));
    assert(is_row_of(
        ctx.pieces@[0]@[res.charms_index as int],
        charms[res.charms_index as int],
        res.charms_index as int,
        requirements,
        ctx.best_per_slot as int,
    ));
    lemma_worn_row(ctx.pieces@[1]@, ctx.body@[mail], head, body[mail], requirements, ctx.best_per_slot as int, res.head_index);
    lemma_worn_row(ctx.pieces@[2]@, ctx.body@[mail], arms, body[mail], requirements, ctx.best_per_slot as int, res.arms_index);
    lemma_worn_row(ctx.pieces@[3]@, ctx.body@[mail], waist, body[mail], requirements, ctx.best_per_slot as int, res.waist_index);
    lemma_worn_row(ctx.pieces@[4]@, ctx.body@[mail], legs, body[mail], requirements, ctx.best_per_slot as int, res.legs_index);
    ctx.lemma_piece_by_piece(mail, chosen, 0);
    lemma_rows_take(ctx.decorations@, decorations, requirements, assignment);
    assert forall|q: int| 0 <= q < requirements.len() implies set_grants(
        head,
        body,
        arms,
        waist,
        legs,
        charms,
        decorations,
        res,
        (#[trigger] requirements[q]).name@,
    ) >= requirements[q].points by {
        ctx.lemma_result_reaches_skills(mail, chosen, res, q);
        ctx.lemma_piece_by_piece(mail, chosen, q);
        lemma_rows_grant(ctx.decorations@, decorations, requirements, assignment, q);
        assert(ctx.wanted@[q] == requirements[q].points);
    }
}

} // verus!

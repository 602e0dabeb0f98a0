//! What holds of every result of the search.

use crate::algorithm::decorate::{
    answers, granted, large_used, slots_used, start_budget, DecorationTables,
};
use crate::algorithm::monotone::{dominated, roomier};
use crate::algorithm::resolve::{
    all_closed, closes, combo_of, narrowable, narrowed, slots_in_all, FindResult,
};
use crate::algorithm::search::SearchContext;
use vstd::prelude::*;

verus! {

/// The slots of a piece that decorations can use: it has one, two or three.
pub open spec fn usable(slots: int) -> int {
    if 1 <= slots <= 3 {
        slots
    } else {
        0
    }
}

impl SearchContext {
    /// The points for skill `r` of the body piece and the pieces `chosen`.
    pub open spec fn set_points(&self, body: int, chosen: Seq<Option<usize>>, r: int) -> int
        decreases chosen.len(),
    {
        if chosen.len() == 0 {
            self.body@[body].points@[r] as int
        } else {
            self.set_points(body, chosen.drop_last(), r) + self.piece(
                body,
                chosen.len() - 1,
                chosen.last(),
            ).points@[r]
        }
    }

    /// The slots that decorations can use on the weapon, the body piece and
    /// the pieces `chosen`.
    pub open spec fn capacity(&self, body: int, chosen: Seq<Option<usize>>) -> int
        decreases chosen.len(),
    {
        if chosen.len() == 0 {
            usable(self.weapon_slots as int) + usable(self.body@[body].slots as int)
        } else {
            self.capacity(body, chosen.drop_last()) + usable(
                self.piece(body, chosen.len() - 1, chosen.last()).slots as int,
            )
        }
    }

    /// What a set lacks of a skill is what is wanted less what its pieces
    /// grant.
    pub proof fn lemma_deficit(&self, body: int, chosen: Seq<Option<usize>>, r: int)
        ensures
            self.deficit_after(body, chosen, r) == self.wanted@[r] - self.set_points(body, chosen, r),
        decreases chosen.len(),
    {
        if chosen.len() > 0 {
            self.lemma_deficit(body, chosen.drop_last(), r);
        }
    }

    /// What a set lacks of a skill is a number that an `i64` holds.
    pub proof fn lemma_deficit_range(&self, body: int, chosen: Seq<Option<usize>>, r: int)
        ensures
            -0x1_0000_0000 * (chosen.len() + 1) <= self.deficit_after(body, chosen, r)
                <= 0x1_0000_0000 * (chosen.len() + 1),
        decreases chosen.len(),
    {
        if chosen.len() > 0 {
            self.lemma_deficit_range(body, chosen.drop_last(), r);
        }
    }

    /// The pieces counted by size have the slots that decorations can use.
    pub proof fn lemma_capacity(&self, body: int, chosen: Seq<Option<usize>>)
        ensures
            slots_in_all(self.sized_after(body, chosen)) == self.capacity(body, chosen),
            self.sized_after(body, chosen).0 >= 0,
            self.sized_after(body, chosen).1 >= 0,
            self.sized_after(body, chosen).2 >= 0,
        decreases chosen.len(),
    {
        if chosen.len() > 0 {
            self.lemma_capacity(body, chosen.drop_last());
        }
    }

    /// Every result reaches the wanted skills: for each skill, the points of
    /// its pieces and of its decorations together are no fewer than wanted.
    pub proof fn lemma_result_reaches_skills(
        &self,
        body: int,
        chosen: Seq<Option<usize>>,
        res: FindResult,
        r: int,
    )
        requires
            self.wf(),
            self.settled((body, chosen), res),
            0 <= r < self.skills(),
        ensures
            self.set_points(body, chosen, r) + granted(
                self.decorations@,
                res.decorations_count_indices@,
                r,
            ) >= self.wanted@[r],
    {
        let deficits = self.deficits_of(body, chosen);
        self.lemma_deficit(body, chosen, r);
        self.lemma_deficit_range(body, chosen, r);
        assert(deficits[r] == self.deficit_after(body, chosen, r));
        if all_closed(deficits) {
            assert(deficits[r] <= 0);
        } else {
            assert(closes(self.decorations@, deficits, res.decorations_count_indices@));
        }
    }

    /// Where each chosen decoration takes points from the skill that the
    /// solver closes next at most, the decorations that the solver finds
    /// grant what is lacking of each skill: no combination is left out for
    /// a skill that its decorations leave short.
    pub proof fn lemma_answer_closes(
        &self,
        deficits: Seq<i64>,
        sized: (int, int, int),
        assignment: Seq<(usize, usize)>,
    )
        requires
            self.wf(),
            self.tables.well_paired(self.decorations@),
            deficits.len() == self.skills(),
            narrowable(deficits),
            answers(&self.tables, narrowed(deficits), start_budget(sized), Some(assignment)),
        ensures
            closes(self.decorations@, deficits, assignment),
            !self.falls_short(deficits, sized),
    {
        let asked = narrowed(deficits);
        let budget = start_budget(sized);
        let path = choose|path: Seq<[i32; 3]>|
            path.len() == self.tables.skills() && #[trigger] self.tables.first_from(
                asked,
                path,
                0,
                budget,
                0,
            ) && assignment == self.tables.assignment_from(path, 0);
        self.tables.lemma_first_is_valid(asked, path, 0, budget, 0);
        assert forall|r: int| 0 <= r < deficits.len() implies #[trigger] granted(
            self.decorations@,
            assignment,
            r,
        ) >= deficits[r] by {
            assert(self.tables.has_position(r));
            let at = choose|t: int|
                0 <= t < self.tables.order@.len() && #[trigger] self.tables.order@[t] == r;
            self.tables.lemma_closes_from(self.decorations@, asked, path, 0, budget, 0, r, at);
            assert(asked[r] >= deficits[r]);
        }
        assert forall|other: Seq<(usize, usize)>| #[trigger]
            answers(&self.tables, asked, budget, Some(other)) implies closes(
            self.decorations@,
            deficits,
            other,
        ) by {
            self.tables.lemma_store_changes_nothing(asked, budget, Some(assignment), Some(other));
        }
    }

    /// No result takes more slots than it has: its decorations take no more
    /// slots than decorations can use on its pieces and on the weapon.
    pub proof fn lemma_result_fits_slots(
        &self,
        body: int,
        chosen: Seq<Option<usize>>,
        res: FindResult,
    )
        requires
            self.wf(),
            self.settled((body, chosen), res),
        ensures
            slots_used(self.decorations@, res.decorations_count_indices@) <= self.capacity(
                body,
                chosen,
            ),
            large_used(self.decorations@, res.decorations_count_indices@, 2) <= self.sized_after(
                body,
                chosen,
            ).1 + self.sized_after(body, chosen).2,
            large_used(self.decorations@, res.decorations_count_indices@, 3) <= self.sized_after(
                body,
                chosen,
            ).2,
    {
        let deficits = self.deficits_of(body, chosen);
        let decorations = res.decorations_count_indices@;
        self.lemma_capacity(body, chosen);
        if all_closed(deficits) {
        } else {
            let asked = narrowed(deficits);
            let budget = start_budget(self.sized_after(body, chosen));
            let path = choose|path: Seq<[i32; 3]>|
                path.len() == self.tables.skills() && #[trigger] self.tables.first_from(
                    asked,
                    path,
                    0,
                    budget,
                    0,
                ) && decorations == self.tables.assignment_from(path, 0);
            self.tables.lemma_first_is_valid(asked, path, 0, budget, 0);
            self.tables.lemma_fits_from(self.decorations@, asked, path, 0, budget, 0);
            self.tables.lemma_sizes_fit_from(self.decorations@, asked, path, 0, budget, 0);
        }
    }
}

impl SearchContext {
    /// The decorations of `res` take no more slots than decorations can use
    /// on its pieces and on the weapon; no more of them take two slots or
    /// more than there are pieces for, and no more take three slots than
    /// there are pieces of three slots.
    pub open spec fn fits_slots(&self, res: FindResult) -> bool {
        let sized = self.sized_after(combo_of(res).0, combo_of(res).1);
        &&& slots_used(self.decorations@, res.decorations_count_indices@) <= self.capacity(
            combo_of(res).0,
            combo_of(res).1,
        )
        &&& large_used(self.decorations@, res.decorations_count_indices@, 2) <= sized.1 + sized.2
        &&& large_used(self.decorations@, res.decorations_count_indices@, 3) <= sized.2
    }

    /// For each wanted skill, the points of the pieces of `res` and of its
    /// decorations together are no fewer than wanted.
    pub open spec fn reaches_skills(&self, res: FindResult) -> bool {
        forall|r: int|
            0 <= r < self.skills() ==> self.set_points(combo_of(res).0, combo_of(res).1, r)
                + #[trigger] granted(self.decorations@, res.decorations_count_indices@, r)
                >= self.wanted@[r]
    }

    /// A result of a combination reaches the wanted skills and fits its
    /// slots.
    pub proof fn lemma_result_is_valid(
        &self,
        body: int,
        chosen: Seq<Option<usize>>,
        res: FindResult,
    )
        requires
            self.wf(),
            self.settled((body, chosen), res),
        ensures
            self.fits_slots(res),
            self.reaches_skills(res),
    {
        assert(combo_of(res).1 =~= chosen);
        self.lemma_result_fits_slots(body, chosen, res);
        assert forall|r: int| 0 <= r < self.skills() implies self.set_points(
            combo_of(res).0,
            combo_of(res).1,
            r,
        ) + #[trigger] granted(self.decorations@, res.decorations_count_indices@, r)
            >= self.wanted@[r] by {
            self.lemma_result_reaches_skills(body, chosen, res, r);
        }
    }
}

/// The two results name the same pieces and the same decorations.
pub open spec fn same_set(a: FindResult, b: FindResult) -> bool {
    &&& a.body_index == b.body_index
    &&& a.charms_index == b.charms_index
    &&& a.head_index == b.head_index
    &&& a.arms_index == b.arms_index
    &&& a.waist_index == b.waist_index
    &&& a.legs_index == b.legs_index
    &&& a.decorations_count_indices@ == b.decorations_count_indices@
}

impl SearchContext {
    /// Two results of one combination are the same set.
    pub proof fn lemma_settled_once(
        &self,
        combo: (int, Seq<Option<usize>>),
        a: FindResult,
        b: FindResult,
    )
        requires
            self.wf(),
            self.settled(combo, a),
            self.settled(combo, b),
        ensures
            same_set(a, b),
    {
        let deficits = self.deficits_of(combo.0, combo.1);
        if all_closed(deficits) {
            assert(a.decorations_count_indices@ =~= b.decorations_count_indices@);
        } else {
            self.tables.lemma_store_changes_nothing(
                narrowed(deficits),
                start_budget(self.sized_after(combo.0, combo.1)),
                Some(a.decorations_count_indices@),
                Some(b.decorations_count_indices@),
            );
        }
    }

    /// Two searches take their results from the same combinations, as far as
    /// both have results.
    proof fn lemma_picks_agree(
        &self,
        max_results: int,
        a: Seq<FindResult>,
        first: Seq<int>,
        b: Seq<FindResult>,
        second: Seq<int>,
        k: int,
    )
        requires
            self.wf(),
            self.picked(a, first, max_results),
            self.picked(b, second, max_results),
            0 <= k < a.len(),
            k < b.len(),
        ensures
            first[k] == second[k],
        decreases k,
    {
        assert forall|i: int| 0 <= i < k implies first[i] == second[i] by {
            self.lemma_picks_agree(max_results, a, first, b, second, i);
        }
        let combos = self.combos();
        if first[k] < second[k] {
            let j = first[k];
            assert(j < second.last() + 1);
            assert(!second.contains(j)) by {
                if second.contains(j) {
                    let w = choose|w: int| 0 <= w < second.len() && second[w] == j;
                    if w < k {
                        assert(first[w] < first[k]);
                    } else if w > k {
                        assert(second[k] < second[w]);
                    }
                }
            }
            assert(self.fails(combos[j]));
            self.lemma_settled_succeeds(combos[j], a[k]);
        } else if second[k] < first[k] {
            let j = second[k];
            assert(j < first.last() + 1);
            assert(!first.contains(j)) by {
                if first.contains(j) {
                    let w = choose|w: int| 0 <= w < first.len() && first[w] == j;
                    if w < k {
                        assert(second[w] < second[k]);
                    } else if w > k {
                        assert(first[k] < first[w]);
                    }
                }
            }
            assert(self.fails(combos[j]));
            self.lemma_settled_succeeds(combos[j], b[k]);
        }
    }

    /// One of two searches has no more results than the other.
    proof fn lemma_no_more_found(
        &self,
        max_results: int,
        a: Seq<FindResult>,
        first: Seq<int>,
        b: Seq<FindResult>,
        second: Seq<int>,
    )
        requires
            self.wf(),
            self.picked(a, first, max_results),
            self.picked(b, second, max_results),
        ensures
            b.len() <= a.len(),
    {
        if a.len() < b.len() {
            let combos = self.combos();
            let k = a.len() as int;
            let j = second[k];
            assert forall|i: int| 0 <= i < k implies first[i] == second[i] by {
                self.lemma_picks_agree(max_results, a, first, b, second, i);
            }
            assert(!first.contains(j)) by {
                if first.contains(j) {
                    let w = choose|w: int| 0 <= w < first.len() && first[w] == j;
                    assert(second[w] < second[k]);
                }
            }
            assert(self.fails(combos[j]));
            self.lemma_settled_succeeds(combos[j], b[k]);
        }
    }

    /// The search has one result: whatever the store holds and however it
    /// is tuned, the search gives the same sets in the same order.
    pub proof fn lemma_found_once(&self, max_results: int, a: Seq<FindResult>, b: Seq<FindResult>)
        requires
            self.wf(),
            self.found(a, max_results),
            self.found(b, max_results),
        ensures
            a.len() == b.len(),
            forall|i: int| 0 <= i < a.len() ==> same_set(#[trigger] a[i], b[i]),
    {
        let first = choose|picks: Seq<int>| #[trigger] self.picked(a, picks, max_results);
        let second = choose|picks: Seq<int>| #[trigger] self.picked(b, picks, max_results);
        self.lemma_no_more_found(max_results, a, first, b, second);
        self.lemma_no_more_found(max_results, b, second, a, first);
        assert forall|i: int| 0 <= i < a.len() implies same_set(#[trigger] a[i], b[i]) by {
            self.lemma_picks_agree(max_results, a, first, b, second, i);
            self.lemma_settled_once(self.combos()[first[i]], a[i], b[i]);
        }
    }
}

impl DecorationTables {
    /// The solver is monotone: where it finds decorations for `d2` within
    /// `b2`, it finds decorations for `d1` within `b1`, if no skill lacks
    /// more in `d1` than in `d2` and `b1` has the slots of `b2` or more.
    pub proof fn lemma_solver_monotone(
        &self,
        d1: Seq<i32>,
        d2: Seq<i32>,
        b1: (int, int, int),
        b2: (int, int, int),
        r1: Option<Seq<(usize, usize)>>,
        r2: Option<Seq<(usize, usize)>>,
    )
        requires
            self.wf(),
            d1.len() == self.skills(),
            dominated(d1, d2),
            roomier(b1, b2),
            answers(self, d1, b1, r1),
            answers(self, d2, b2, r2),
            r2 is Some,
        ensures
            r1 is Some,
    {
        let path = choose|path: Seq<[i32; 3]>|
            path.len() == self.skills() && #[trigger] self.first_from(d2, path, 0, b2, 0) && r2->0
                == self.assignment_from(path, 0);
        self.lemma_first_is_valid(d2, path, 0, b2, 0);
        assert(self.feasible(d2, b2));
        self.lemma_feasible_monotone(d1, d2, b1, b2);
    }

    /// The store changes no answer: what the solver gives through the store
    /// for `deficits` and `budget` is what it gives without.
    pub proof fn lemma_store_changes_nothing(
        &self,
        deficits: Seq<i32>,
        budget: (int, int, int),
        with_store: Option<Seq<(usize, usize)>>,
        without: Option<Seq<(usize, usize)>>,
    )
        requires
            self.wf(),
            deficits.len() == self.skills(),
            answers(self, deficits, budget, with_store),
            answers(self, deficits, budget, without),
        ensures
            with_store == without,
    {
        if with_store is Some {
            let p = choose|path: Seq<[i32; 3]>|
                path.len() == self.skills() && #[trigger] self.first_from(
                    deficits,
                    path,
                    0,
                    budget,
                    0,
                ) && with_store->0 == self.assignment_from(path, 0);
            self.lemma_first_is_valid(deficits, p, 0, budget, 0);
            assert(self.feasible(deficits, budget));
            let q = choose|path: Seq<[i32; 3]>|
                path.len() == self.skills() && #[trigger] self.first_from(
                    deficits,
                    path,
                    0,
                    budget,
                    0,
                ) && without->0 == self.assignment_from(path, 0);
            self.lemma_first_unique(deficits, p, q, 0, budget, 0);
        } else if without is Some {
            let q = choose|path: Seq<[i32; 3]>|
                path.len() == self.skills() && #[trigger] self.first_from(
                    deficits,
                    path,
                    0,
                    budget,
                    0,
                ) && without->0 == self.assignment_from(path, 0);
            self.lemma_first_is_valid(deficits, q, 0, budget, 0);
            assert(self.feasible(deficits, budget));
        }
    }
}

} // verus!

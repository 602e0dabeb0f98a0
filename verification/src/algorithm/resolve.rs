//! The last stage of the search: each combination that is worth a look is
//! handed to the decoration solver, and becomes a result where decorations
//! close what it lacks.

use crate::algorithm::cache::{cache_entries, ResultCache};
use crate::algorithm::decorate::{answers, counts, entries_ok, granted, start_budget};
use crate::algorithm::rows::Row;
use crate::algorithm::search::{Pending, SearchContext, DEPTH};
use crate::algorithm::settle::{cache_sound, fresh_cache, Tuning};
use vstd::prelude::*;

verus! {

/// A set that reaches the wanted skills: the places of its pieces in the
/// lists that were searched, and its decorations as pairs of a count and a
/// place in the pool. A category without a place takes the body piece's
/// values.
#[derive(Debug, Clone)]
pub struct FindResult {
    pub head_index: Option<usize>,
    pub body_index: usize,
    pub arms_index: Option<usize>,
    pub waist_index: Option<usize>,
    pub legs_index: Option<usize>,
    pub charms_index: usize,
    pub decorations_count_indices: Vec<(usize, usize)>,
}

/// No skill lacks points.
pub open spec fn all_closed(deficits: Seq<i64>) -> bool {
    forall|r: int| 0 <= r < deficits.len() ==> deficits[r] <= 0
}

/// No deficit is more than an `i32` holds.
pub open spec fn narrowable(deficits: Seq<i64>) -> bool {
    forall|r: int| 0 <= r < deficits.len() ==> deficits[r] <= i32::MAX
}

/// The deficits as `i32`; a surplus beyond what an `i32` holds counts as the
/// greatest surplus that it holds.
pub open spec fn narrowed(deficits: Seq<i64>) -> Seq<i32> {
    Seq::new(
        deficits.len(),
        |r: int|
            if deficits[r] < i32::MIN {
                i32::MIN
            } else {
                deficits[r] as i32
            },
    )
}

/// The slots of `slots_at_size` pieces with one, two and three slots.
pub open spec fn slots_in_all(slots_at_size: (int, int, int)) -> int {
    slots_at_size.0 + 2 * slots_at_size.1 + 3 * slots_at_size.2
}

/// The body piece and the choices for the five categories that `res` names.
pub open spec fn combo_of(res: FindResult) -> (int, Seq<Option<usize>>) {
    (
        res.body_index as int,
        seq![
            Some(res.charms_index),
            res.head_index,
            res.arms_index,
            res.waist_index,
            res.legs_index,
        ],
    )
}

/// The decorations of `assignment` grant of each skill what `deficits` says
/// is lacking.
pub open spec fn closes(
    decorations: Seq<Row>,
    deficits: Seq<i64>,
    assignment: Seq<(usize, usize)>,
) -> bool {
    forall|r: int|
        0 <= r < deficits.len() ==> #[trigger] granted(decorations, assignment, r) >= deficits[r]
}

/// The points that the decorations of `assignment` grant for the skill `r`,
/// one of `skills` skills.
fn granted_of(
    decorations: &Vec<Row>,
    assignment: &Vec<(usize, usize)>,
    r: usize,
    Ghost(skills): Ghost<int>,
) -> (sum: i128)
    requires
        r < skills,
        entries_ok(decorations@, assignment@, skills),
    ensures
        sum == granted(decorations@, assignment@, r as int),
{
    let mut sum: i128 = 0;
    let mut i: usize = 0;
    while i < assignment.len()
        invariant
            i <= assignment.len(),
            r < skills,
            entries_ok(decorations@, assignment@, skills),
            sum == granted(decorations@, assignment@.take(i as int), r as int),
            -0x4000_0000_0000_0000 * i <= sum <= 0x4000_0000_0000_0000 * i,
        decreases assignment.len() - i,
    {
        let (count, pick) = assignment[i];
        let points = decorations[pick].points[r];
        assert(-0x4000_0000_0000_0000 <= (count as int) * (points as int) <= 0x4000_0000_0000_0000)
            by (nonlinear_arith)
            requires
                0 <= count <= 0x7fff_ffff,
                -0x8000_0000 <= points <= 0x7fff_ffff,
        ;
        let term = (count as i128) * (points as i128);
        proof {
            let more = assignment@.take(i + 1);
            assert(more.drop_last() =~= assignment@.take(i as int));
            assert(more.last() == assignment@[i as int]);
        }
        sum = sum + term;
        i += 1;
    }
    assert(assignment@.take(i as int) =~= assignment@);
    sum
}

/// Whether the decorations of `assignment` grant of each skill what
/// `deficits` says is lacking.
pub fn closes_all(decorations: &Vec<Row>, assignment: &Vec<(usize, usize)>, deficits: &Vec<i64>) -> (ok:
    bool)
    requires
        entries_ok(decorations@, assignment@, deficits@.len() as int),
    ensures
        ok == closes(decorations@, deficits@, assignment@),
{
    let mut r: usize = 0;
    while r < deficits.len()
        invariant
            r <= deficits.len(),
            entries_ok(decorations@, assignment@, deficits@.len() as int),
            forall|q: int|
                0 <= q < r ==> #[trigger] granted(decorations@, assignment@, q) >= deficits@[q],
        decreases deficits.len() - r,
    {
        let sum = granted_of(decorations, assignment, r, Ghost(deficits@.len() as int));
        if sum < deficits[r] as i128 {
            return false;
        }
        r += 1;
    }
    true
}

impl SearchContext {
    /// `res` names the body piece `body` and the pieces `chosen`.
    pub open spec fn names(&self, res: FindResult, body: int, chosen: Seq<Option<usize>>) -> bool {
        &&& res.body_index == body
        &&& chosen[0] == Some(res.charms_index)
        &&& res.head_index == chosen[1]
        &&& res.arms_index == chosen[2]
        &&& res.waist_index == chosen[3]
        &&& res.legs_index == chosen[4]
    }

    /// The answer of the solver for a combination that lacks `deficits` and
    /// has the pieces `sized` leaves a skill short of what is wanted.
    pub open spec fn falls_short(&self, deficits: Seq<i64>, sized: (int, int, int)) -> bool {
        exists|assignment: Seq<(usize, usize)>| #[trigger]
            answers(&self.tables, narrowed(deficits), start_budget(sized), Some(assignment))
                && !closes(self.decorations@, deficits, assignment)
    }

    /// A combination that lacks `deficits` and has the pieces `sized` gives
    /// no result: it lacks something, and the deficits or the slots are
    /// beyond what the solver takes, or decorations cannot close the
    /// deficits, or those that the solver finds leave a skill short.
    pub open spec fn rejected(&self, deficits: Seq<i64>, sized: (int, int, int)) -> bool {
        &&& !all_closed(deficits)
        &&& {
            ||| !narrowable(deficits)
            ||| slots_in_all(sized) > i32::MAX
            ||| !self.tables.feasible(
                narrowed(deficits),
                start_budget(sized),
            )
            ||| self.falls_short(deficits, sized)
        }
    }

    /// A combination that lacks `deficits` and has the pieces `sized` gives a
    /// result with `decorations`: it lacks nothing and there are no
    /// decorations, or `decorations` is the answer of the solver and grants
    /// what is lacking of each skill.
    pub open spec fn accepted(
        &self,
        deficits: Seq<i64>,
        sized: (int, int, int),
        decorations: Seq<(usize, usize)>,
    ) -> bool {
        if all_closed(deficits) {
            decorations.len() == 0
        } else {
            &&& narrowable(deficits)
            &&& slots_in_all(sized) <= i32::MAX
            &&& answers(
                &self.tables,
                narrowed(deficits),
                start_budget(sized),
                Some(decorations),
            )
            &&& closes(self.decorations@, deficits, decorations)
        }
    }

    /// `res` is a result for the combination of `body` and `chosen`.
    pub open spec fn settled(
        &self,
        combo: (int, Seq<Option<usize>>),
        res: FindResult,
    ) -> bool {
        &&& combo.1.len() == DEPTH
        &&& self.names(res, combo.0, combo.1)
        &&& self.accepted(
            self.deficits_of(combo.0, combo.1),
            self.sized_after(combo.0, combo.1),
            res.decorations_count_indices@,
        )
    }

    /// What the combination of `body` and `chosen` lacks of each skill.
    pub open spec fn deficits_of(&self, body: int, chosen: Seq<Option<usize>>) -> Seq<i64> {
        Seq::new(self.skills() as nat, |r: int| self.deficit_after(body, chosen, r) as i64)
    }

    /// The combination gives no result.
    pub open spec fn fails(&self, combo: (int, Seq<Option<usize>>)) -> bool {
        self.rejected(
            self.deficits_of(combo.0, combo.1),
            self.sized_after(combo.0, combo.1),
        )
    }

    /// Settles one combination: gives the set where it lacks nothing or the
    /// decorations that the solver finds close what it lacks, and nothing
    /// else.
    pub fn resolve(&self, p: &Pending, cache: &mut ResultCache, tuning: &Tuning) -> (r: Option<
        FindResult,
    >)
        requires
            self.wf(),
            p.chosen@.len() == DEPTH,
            p.chosen@[0] is Some,
            p.deficits@.len() == self.skills(),
            cache_sound(&self.tables, cache_entries(*old(cache))),
        ensures
            cache_sound(&self.tables, cache_entries(*final(cache))),
            match r {
                Some(res) => self.names(res, p.body as int, p.chosen@) && self.accepted(
                    p.deficits@,
                    counts(p.slots_at_size),
                    res.decorations_count_indices@,
                ),
                None => self.rejected(p.deficits@, counts(p.slots_at_size)),
            },
    {
        let charm = match p.chosen[0] {
            Some(c) => c,
            None => 0,
        };
        let mut closed = true;
        let mut fits = true;
        let mut narrow: Vec<i32> = Vec::new();
        let mut i: usize = 0;
        while i < p.deficits.len()
            invariant
                i <= p.deficits.len(),
                narrow.len() == i,
                closed == all_closed(p.deficits@.take(i as int)),
                fits == narrowable(p.deficits@.take(i as int)),
                forall|r: int| 0 <= r < i ==> #[trigger] narrow[r] == narrowed(p.deficits@)[r],
            decreases p.deficits.len() - i,
        {
            let d = p.deficits[i];
            let ghost seen = p.deficits@.take(i as int);
            let ghost more = p.deficits@.take(i + 1);
            assert(forall|r: int| 0 <= r < i ==> seen[r] == more[r]);
            assert(more[i as int] == d);
            if d > 0 {
                closed = false;
            }
            if d > i32::MAX as i64 {
                fits = false;
            }
            narrow.push(
                if d < i32::MIN as i64 {
                    i32::MIN
                } else {
                    #[verifier::truncate]
                    (d as i32)
                },
            );
            proof {
                if all_closed(seen) && d <= 0 {
                    assert(all_closed(more));
                } else if d > 0 {
                    assert(!all_closed(more));
                } else {
                    let w = choose|r: int| 0 <= r < seen.len() && seen[r] > 0;
                    assert(more[w] > 0);
                }
                if narrowable(seen) && d <= i32::MAX {
                    assert(narrowable(more));
                } else if d > i32::MAX {
                    assert(!narrowable(more));
                } else {
                    let w = choose|r: int| 0 <= r < seen.len() && seen[r] > i32::MAX;
                    assert(more[w] > i32::MAX);
                }
            }
            i += 1;
        }
        assert(p.deficits@.take(i as int) =~= p.deficits@);
        if closed {
            return Some(
                FindResult {
                    head_index: p.chosen[1],
                    body_index: p.body,
                    arms_index: p.chosen[2],
                    waist_index: p.chosen[3],
                    legs_index: p.chosen[4],
                    charms_index: charm,
                    decorations_count_indices: Vec::new(),
                },
            );
        }
        if !fits {
            return None;
        }
        assert(narrow@ =~= narrowed(p.deficits@));
        let slots: u64 = p.slots_at_size[0] as u64 + 2 * (p.slots_at_size[1] as u64) + 3 * (
        p.slots_at_size[2] as u64);
        if slots > i32::MAX as u64 {
            return None;
        }
        let least = self.tables.least_slots(&narrow);
        if (slots as i128) < least {
            // too few slots for the least that the skills need
            proof {
                assert(!self.tables.feasible(narrow@, start_budget(counts(p.slots_at_size))));
            }
            return None;
        }
        match self.tables.settle(&narrow, &p.slots_at_size, cache, tuning) {
            Some(decorations) => {
                proof {
                    let budget = start_budget(counts(p.slots_at_size));
                    let path = choose|path: Seq<[i32; 3]>|
                        path.len() == self.tables.skills() && #[trigger] self.tables.first_from(
                            narrow@,
                            path,
                            0,
                            budget,
                            0,
                        ) && decorations@ == self.tables.assignment_from(path, 0);
                    self.tables.lemma_first_is_valid(narrow@, path, 0, budget, 0);
                    self.tables.lemma_entries_from(self.decorations@, narrow@, path, 0, budget, 0);
                }
                if closes_all(&self.decorations, &decorations, &p.deficits) {
                    Some(
                        FindResult {
                            head_index: p.chosen[1],
                            body_index: p.body,
                            arms_index: p.chosen[2],
                            waist_index: p.chosen[3],
                            legs_index: p.chosen[4],
                            charms_index: charm,
                            decorations_count_indices: decorations,
                        },
                    )
                } else {
                    // the decorations take from a skill more than the solver counts
                    proof {
                        assert(answers(
                            &self.tables,
                            narrowed(p.deficits@),
                            start_budget(counts(p.slots_at_size)),
                            Some(decorations@),
                        ));
                        assert(self.falls_short(p.deficits@, counts(p.slots_at_size)));
                    }
                    None
                }
            },
            None => None,
        }
    }
}


impl SearchContext {
    /// `results` are the results of the combinations at the places `picks`,
    /// which are the first `max_results` combinations that give a result.
    pub open spec fn picked(
        &self,
        results: Seq<FindResult>,
        picks: Seq<int>,
        max_results: int,
    ) -> bool {
        let combos = self.combos();
        let end = if results.len() < max_results {
            combos.len() as int
        } else if results.len() == 0 {
            0
        } else {
            picks.last() + 1
        };
        &&& picks.len() == results.len()
        &&& results.len() <= max_results
        &&& forall|i: int| 0 <= i < picks.len() ==> 0 <= #[trigger] picks[i] < combos.len()
        &&& forall|i: int, j: int| 0 <= i < j < picks.len() ==> picks[i] < picks[j]
        &&& forall|i: int|
            0 <= i < picks.len() ==> self.settled(combos[picks[i]], #[trigger] results[i])
        &&& forall|j: int|
            0 <= j < end && !picks.contains(j) ==> #[trigger] self.fails(combos[j])
    }

    /// `results` are the results of the first `max_results` combinations that
    /// give one, in the order in which the search reaches them.
    pub open spec fn found(&self, results: Seq<FindResult>, max_results: int) -> bool {
        exists|picks: Seq<int>| #[trigger] self.picked(results, picks, max_results)
    }

    /// Every one of `results` fits its slots and reaches the wanted skills.
    pub open spec fn all_valid(&self, results: Seq<FindResult>) -> bool {
        forall|i: int|
            0 <= i < results.len() ==> self.fits_slots(#[trigger] results[i])
                && self.reaches_skills(results[i])
    }

    /// Searches for sets that reach the wanted skills and gives the first
    /// `max_results` of them.
    pub fn search(&self, max_results: usize, tuning: &Tuning) -> (results: Vec<FindResult>)
        requires
            self.wf(),
        ensures
            self.found(results@, max_results as int),
            self.all_valid(results@),
    {
        let pending = self.candidates();
        let mut cache = fresh_cache(tuning.cache_capacity);
        let mut results: Vec<FindResult> = Vec::new();
        let ghost mut picks: Seq<int> = Seq::empty();
        let ghost combos = self.combos();
        let mut i: usize = 0;
        while i < pending.len() && results.len() < max_results
            invariant
                self.wf(),
                combos == self.combos(),
                self.holds_combos(pending@, combos),
                cache_sound(&self.tables, cache_entries(cache)),
                i <= pending.len(),
                picks.len() == results.len(),
                results.len() <= max_results,
                forall|a: int| 0 <= a < picks.len() ==> 0 <= #[trigger] picks[a] < i,
                forall|a: int, b: int| 0 <= a < b < picks.len() ==> picks[a] < picks[b],
                forall|a: int|
                    0 <= a < picks.len() ==> self.settled(
                        combos[picks[a]],
                        #[trigger] results[a],
                    ),
                forall|j: int|
                    0 <= j < i && !picks.contains(j) ==> #[trigger] self.fails(combos[j]),
                results.len() == max_results && results.len() > 0 ==> picks.last() + 1 == i,
                self.all_valid(results@),
            decreases pending.len() - i,
        {
            let p = &pending[i];
            let ghost combo = combos[i as int];
            assert(self.is_pending(*p, combo.0, combo.1));
            assert(p.deficits@ =~= self.deficits_of(combo.0, combo.1));
            let ghost old_picks = picks;
            let ghost old_results = results@;
            match self.resolve(p, &mut cache, tuning) {
                Some(res) => {
                    proof {
                        self.lemma_result_is_valid(combo.0, combo.1, res);
                    }
                    results.push(res);
                    proof {
                        picks = picks.push(i as int);
                        assert forall|a: int| 0 <= a < results.len() implies self.fits_slots(
                            #[trigger] results[a],
                        ) && self.reaches_skills(results[a]) by {
                            if a < old_results.len() {
                                assert(results[a] == old_results[a]);
                            }
                        }
                        assert forall|j: int| 0 <= j < i + 1 && !picks.contains(j) implies #[trigger] self.fails(
                            combos[j],
                        ) by {
                            assert(picks[old_picks.len() as int] == i);
                            if j < i && old_picks.contains(j) {
                                let w = choose|a: int| 0 <= a < old_picks.len() && old_picks[a] == j;
                                assert(picks[w] == j);
                            }
                        }
                        assert forall|a: int| 0 <= a < picks.len() implies self.settled(
                            combos[picks[a]],
                            #[trigger] results[a],
                        ) by {
                            if a < old_picks.len() {
                                assert(results[a] == old_results[a]);
                                assert(picks[a] == old_picks[a]);
                            }
                        }
                    }
                },
                None => {
                    proof {
                        assert(!picks.contains(i as int));
                    }
                },
            }
            i += 1;
        }
        proof {
            assert(self.picked(results@, picks, max_results as int));
        }
        results
    }
}

} // verus!

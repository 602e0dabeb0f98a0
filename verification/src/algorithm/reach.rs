//! Which combinations the assembly search reaches, said without the order
//! in which it tries them, and what follows: a search for less finds a set
//! where a search for more finds one.

use crate::algorithm::decorate::{answers, remaining, start_budget, DecorationTables};
use crate::algorithm::monotone::{dominated, roomier};
use crate::algorithm::resolve::{
    all_closed, closes, narrowable, narrowed, slots_in_all, FindResult,
};
use crate::algorithm::rows::{whole_points, Row};
use crate::algorithm::search::{
    is_score_order, tagged, with_piece, SearchContext, DEPTH,
};
use crate::algorithm::tables::placed_in;
use crate::algorithm::weights::triple;
use vstd::prelude::*;

verus! {

/// What stands in two lists put together stands in one of them.
pub proof fn lemma_contains_concat<A>(a: Seq<A>, b: Seq<A>, x: A)
    ensures
        (a + b).contains(x) <==> (a.contains(x) || b.contains(x)),
{
    if (a + b).contains(x) {
        let i = choose|i: int| 0 <= i < (a + b).len() && (a + b)[i] == x;
        if i < a.len() {
            assert(a[i] == x);
        } else {
            assert(b[i - a.len()] == x);
        }
    }
    if a.contains(x) {
        let i = choose|i: int| 0 <= i < a.len() && a[i] == x;
        assert((a + b)[i] == x);
    }
    if b.contains(x) {
        let i = choose|i: int| 0 <= i < b.len() && b[i] == x;
        assert((a + b)[a.len() + i] == x);
    }
}

impl SearchContext {
    /// After the pieces `chosen` the search takes the choice `choice` for the
    /// next category: it names a row that is not passed over, or leaves the
    /// category to the body piece, which it never does with the charms; and
    /// with it the search goes on.
    pub open spec fn takes(&self, body: int, chosen: Seq<Option<usize>>, choice: Option<usize>) -> bool {
        let d = chosen.len() as int;
        &&& match choice {
            Some(i) => i < self.pieces@[d]@.len() && !self.skipped(
                body,
                chosen,
                self.pieces@[d]@[i as int].score as int,
            ),
            None => d != 0,
        }
        &&& self.promising(body, chosen.push(choice))
    }

    /// The search reaches the combination `full` from the category `from`
    /// on: it takes each of its choices after those before it.
    pub open spec fn reaches(&self, body: int, full: Seq<Option<usize>>, from: int) -> bool {
        full.len() == DEPTH && forall|d: int|
            from <= d < DEPTH ==> #[trigger] self.takes(body, full.take(d), full[d])
    }

    /// The choice `choice` for category `d` stands at place `j` of the trial
    /// order or later.
    pub open spec fn stands_from(&self, d: int, choice: Option<usize>, j: int) -> bool {
        exists|at: int|
            j <= at <= self.orders@[d]@.len() && #[trigger] self.choice_at(d, at) == choice
    }

    /// Every choice that the search can take stands somewhere in the trial
    /// order.
    proof fn lemma_stands(&self, body: int, chosen: Seq<Option<usize>>, choice: Option<usize>)
        requires
            self.wf(),
            chosen.len() < DEPTH,
            self.takes(body, chosen, choice),
        ensures
            self.stands_from(chosen.len() as int, choice, 0),
    {
        let d = chosen.len() as int;
        assert(is_score_order(self.pieces@[d]@, self.orders@[d]@));
        match choice {
            Some(i) => {
                assert(placed_in(self.orders@[d]@, i as int));
                let at = choose|t: int|
                    0 <= t < self.orders@[d]@.len() && #[trigger] self.orders@[d]@[t] == i as int;
                assert(self.choice_at(d, at) == choice);
            },
            None => {
                assert(self.choice_at(d, self.orders@[d]@.len() as int) == choice);
            },
        }
    }

    /// What the search lists, it reaches: a combination among those that it
    /// explores from `chosen` begins with `chosen`, and the search takes each
    /// of its further choices.
    pub proof fn lemma_explored_is_reached(
        &self,
        body: int,
        chosen: Seq<Option<usize>>,
        j: int,
        full: Seq<Option<usize>>,
    )
        requires
            self.wf(),
            chosen.len() <= DEPTH,
            self.explore(body, chosen, j).contains(full),
        ensures
            full.len() == DEPTH,
            full.take(chosen.len() as int) == chosen,
            self.reaches(body, full, chosen.len() as int),
        decreases DEPTH - chosen.len(), self.orders@[chosen.len() as int]@.len() + 1 - j,
    {
        let d = chosen.len() as int;
        if d >= DEPTH {
            assert(seq![chosen][0] == chosen);
            assert(full == chosen);
            assert(full.take(d) =~= chosen);
        } else {
            let rows = self.orders@[d]@.len();
            assert(is_score_order(self.pieces@[d]@, self.orders@[d]@));
            if j < 0 || j > rows || (j == rows && d == 0) {
                assert(self.explore(body, chosen, j) =~= Seq::<Seq<Option<usize>>>::empty());
            } else {
                let choice = self.choice_at(d, j);
                let next = chosen.push(choice);
                let open = !(j < rows && self.skipped(
                    body,
                    chosen,
                    self.piece(body, d, choice).score as int,
                )) && self.promising(body, next);
                let here = if open {
                    self.explore(body, next, 0)
                } else {
                    Seq::empty()
                };
                let rest = self.explore(body, chosen, j + 1);
                assert(self.explore(body, chosen, j) =~= here + rest);
                lemma_contains_concat(here, rest, full);
                if here.contains(full) {
                    self.lemma_explored_is_reached(body, next, 0, full);
                    assert(full.take(d + 1)[d] == choice);
                    assert(full[d] == choice);
                    assert(full.take(d) =~= full.take(d + 1).take(d));
                    assert(next.take(d) =~= chosen);
                    assert(self.takes(body, chosen, choice));
                    assert forall|e: int| d <= e < DEPTH implies #[trigger] self.takes(
                        body,
                        full.take(e),
                        full[e],
                    ) by {
                        if e == d {
                        } else {
                            assert(self.reaches(body, full, d + 1));
                        }
                    }
                } else {
                    self.lemma_explored_is_reached(body, chosen, j + 1, full);
                }
            }
        }
    }

    /// What the search reaches, it lists: a combination that begins with
    /// `chosen` and whose further choices the search takes is among those
    /// that the search explores from `chosen`, from the place of its next
    /// choice in the trial order or an earlier one.
    pub proof fn lemma_reached_is_explored(
        &self,
        body: int,
        chosen: Seq<Option<usize>>,
        j: int,
        full: Seq<Option<usize>>,
    )
        requires
            self.wf(),
            chosen.len() <= DEPTH,
            0 <= j,
            full.len() == DEPTH,
            full.take(chosen.len() as int) == chosen,
            self.reaches(body, full, chosen.len() as int),
            chosen.len() < DEPTH ==> self.stands_from(chosen.len() as int, full[chosen.len() as int], j),
        ensures
            self.explore(body, chosen, j).contains(full),
        decreases DEPTH - chosen.len(), self.orders@[chosen.len() as int]@.len() + 1 - j,
    {
        let d = chosen.len() as int;
        if d >= DEPTH {
            assert(full.take(d) =~= full);
            assert(seq![chosen][0] == full);
        } else {
            let rows = self.orders@[d]@.len();
            assert(is_score_order(self.pieces@[d]@, self.orders@[d]@));
            let at = choose|at: int|
                j <= at <= rows && #[trigger] self.choice_at(d, at) == full[d];
            assert(self.takes(body, full.take(d), full[d]));
            assert(at == rows ==> d != 0);
            let choice = self.choice_at(d, j);
            let next = chosen.push(choice);
            let open = !(j < rows && self.skipped(
                body,
                chosen,
                self.piece(body, d, choice).score as int,
            )) && self.promising(body, next);
            let here = if open {
                self.explore(body, next, 0)
            } else {
                Seq::empty()
            };
            let rest = self.explore(body, chosen, j + 1);
            assert(self.explore(body, chosen, j) =~= here + rest);
            lemma_contains_concat(here, rest, full);
            if choice == full[d] {
                assert(open);
                assert(full.take(d + 1) =~= next);
                if d + 1 < DEPTH {
                    assert(self.takes(body, full.take(d + 1), full[d + 1]));
                    self.lemma_stands(body, full.take(d + 1), full[d + 1]);
                }
                assert forall|e: int| d + 1 <= e < DEPTH implies #[trigger] self.takes(
                    body,
                    full.take(e),
                    full[e],
                ) by {}
                self.lemma_reached_is_explored(body, next, 0, full);
            } else {
                assert(at >= j + 1);
                assert(self.stands_from(d, full[d], j + 1)) by {
                    assert(self.choice_at(d, at) == full[d]);
                }
                self.lemma_reached_is_explored(body, chosen, j + 1, full);
            }
        }
    }
}

/// The row `a` is no worse than the row `b`: the same points, no lower score
/// and no fewer slots; where the slots differ, both are slots that a piece
/// can have.
pub open spec fn row_no_worse(a: Row, b: Row) -> bool {
    &&& a.points@ == b.points@
    &&& b.score <= a.score
    &&& b.slots <= a.slots
    &&& a.slots == b.slots || (0 <= b.slots && a.slots <= 3)
}

/// The rows of `a` are no worse than those of `b`, place by place.
pub open spec fn rows_no_worse(a: Seq<Row>, b: Seq<Row>) -> bool {
    a.len() == b.len() && forall|i: int| 0 <= i < a.len() ==> row_no_worse(#[trigger] a[i], b[i])
}

/// One piece more, with no fewer slots, leaves no less room.
proof fn lemma_budget_with_piece(
    a: (int, int, int),
    b: (int, int, int),
    slots_a: int,
    slots_b: int,
)
    requires
        roomier(start_budget(a), start_budget(b)),
        slots_b <= slots_a,
        slots_a == slots_b || (0 <= slots_b && slots_a <= 3),
    ensures
        roomier(start_budget(with_piece(a, slots_a)), start_budget(with_piece(b, slots_b))),
{
}

/// More slots are worth no less.
proof fn lemma_worth_grows(slots_a: int, slots_b: int, best: int)
    requires
        slots_b <= slots_a,
        best >= 0,
    ensures
        whole_points(slots_b * best) <= whole_points(slots_a * best),
{
    assert(slots_b * best <= slots_a * best) by (nonlinear_arith)
        requires
            slots_b <= slots_a,
            best >= 0,
    ;
    vstd::arithmetic::div_mod::lemma_div_is_ordered(slots_b * best + 5, slots_a * best + 5, 6);
}

impl DecorationTables {
    /// The two tables tell the solver the same: the same order and links,
    /// the same points, sizes and drains.
    pub open spec fn agrees_with(&self, other: &DecorationTables) -> bool {
        &&& self.order@ == other.order@
        &&& self.linked@ == other.linked@
        &&& self.summands@ == other.summands@
        &&& self.present@ == other.present@
        &&& self.drain@ == other.drain@
    }

    /// With tables that tell the same the same paths are valid.
    pub proof fn lemma_agreeing_valid(
        &self,
        other: &DecorationTables,
        deficits: Seq<i32>,
        path: Seq<[i32; 3]>,
        t: int,
        budget: (int, int, int),
        carry: int,
    )
        requires
            self.agrees_with(other),
        ensures
            self.valid_from(deficits, path, t, budget, carry) == other.valid_from(
                deficits,
                path,
                t,
                budget,
                carry,
            ),
        decreases self.order@.len() - t,
    {
        if 0 <= t < self.order@.len() {
            let c = triple(path[t]);
            assert(self.carry_after(t, c) == other.carry_after(t, c));
            assert(self.step_ok(deficits, t, budget, carry, c) == other.step_ok(
                deficits,
                t,
                budget,
                carry,
                c,
            ));
            self.lemma_agreeing_valid(
                other,
                deficits,
                path,
                t + 1,
                remaining(budget, c),
                self.carry_after(t, c),
            );
        }
    }

    /// With tables that tell the same the same deficits can be closed.
    pub proof fn lemma_agreeing_feasible(
        &self,
        other: &DecorationTables,
        deficits: Seq<i32>,
        budget: (int, int, int),
    )
        requires
            self.agrees_with(other),
        ensures
            self.feasible(deficits, budget) == other.feasible(deficits, budget),
    {
        if self.feasible(deficits, budget) {
            let path = choose|path: Seq<[i32; 3]>|
                path.len() == self.skills() && #[trigger] self.valid_from(
                    deficits,
                    path,
                    0,
                    budget,
                    0,
                );
            self.lemma_agreeing_valid(other, deficits, path, 0, budget, 0);
        }
        if other.feasible(deficits, budget) {
            let path = choose|path: Seq<[i32; 3]>|
                path.len() == other.skills() && #[trigger] other.valid_from(
                    deficits,
                    path,
                    0,
                    budget,
                    0,
                );
            self.lemma_agreeing_valid(other, deficits, path, 0, budget, 0);
        }
    }
}

impl SearchContext {
    /// The combination `combo` is one that the search reaches.
    pub open spec fn in_reach(&self, combo: (int, Seq<Option<usize>>)) -> bool {
        0 <= combo.0 < self.body@.len() && self.reaches(combo.0, combo.1, 0)
    }

    /// The search lists a combination if and only if it reaches it, from the
    /// body pieces at place `k` of their trial order on.
    pub proof fn lemma_combos_from(&self, k: int, combo: (int, Seq<Option<usize>>))
        requires
            self.wf(),
            0 <= k,
        ensures
            self.combos_from(k).contains(combo) <==> (self.in_reach(combo) && exists|at: int|
                k <= at < self.body_order@.len() && #[trigger] self.body_order@[at] == combo.0),
        decreases self.body_order@.len() - k,
    {
        assert(is_score_order(self.body@, self.body_order@));
        let none: Seq<Option<usize>> = Seq::empty();
        if k >= self.body_order@.len() {
            assert(self.combos_from(k) =~= Seq::<(int, Seq<Option<usize>>)>::empty());
        } else {
            let body = self.body_order@[k] as int;
            let found = self.explore(body, none, 0);
            let here = tagged(found, body);
            let rest = self.combos_from(k + 1);
            assert(self.combos_from(k) =~= here + rest);
            lemma_contains_concat(here, rest, combo);
            self.lemma_combos_from(k + 1, combo);
            if here.contains(combo) {
                let i = choose|i: int| 0 <= i < here.len() && here[i] == combo;
                assert(found[i] == combo.1);
                assert(found.contains(combo.1));
                self.lemma_explored_is_reached(body, none, 0, combo.1);
                assert(self.body_order@[k] == combo.0);
            }
            if rest.contains(combo) {
                let at = choose|at: int|
                    k + 1 <= at < self.body_order@.len() && #[trigger] self.body_order@[at]
                        == combo.0;
                assert(self.body_order@[at] == combo.0);
            }
            if self.in_reach(combo) && exists|at: int|
                k <= at < self.body_order@.len() && #[trigger] self.body_order@[at] == combo.0 {
                let at = choose|at: int|
                    k <= at < self.body_order@.len() && #[trigger] self.body_order@[at] == combo.0;
                if combo.0 == body {
                    assert(combo.1.take(0) =~= none);
                    assert(self.takes(combo.0, combo.1.take(0), combo.1[0]));
                    self.lemma_stands(body, none, combo.1[0]);
                    self.lemma_reached_is_explored(body, none, 0, combo.1);
                    let i = choose|i: int| 0 <= i < found.len() && found[i] == combo.1;
                    assert(here[i] == combo);
                } else {
                    assert(at >= k + 1);
                }
            }
        }
    }

    /// The search lists exactly the combinations that it reaches.
    pub proof fn lemma_combos(&self, combo: (int, Seq<Option<usize>>))
        requires
            self.wf(),
        ensures
            self.combos().contains(combo) <==> self.in_reach(combo),
    {
        self.lemma_combos_from(0, combo);
        assert(is_score_order(self.body@, self.body_order@));
        if self.in_reach(combo) {
            assert(placed_in(self.body_order@, combo.0));
            let at = choose|t: int|
                0 <= t < self.body_order@.len() && #[trigger] self.body_order@[t] == combo.0;
            assert(self.body_order@[at] == combo.0);
        }
    }

    /// The search on `self` is no harder than that on `other`: no more is
    /// wanted of any skill, the pieces grant the same points, have no fewer
    /// slots and no lower scores, and the tables tell the solver the same.
    pub open spec fn no_harder_than(&self, other: &SearchContext) -> bool {
        &&& self.wf()
        &&& other.wf()
        &&& self.wanted@.len() == other.wanted@.len()
        &&& forall|r: int| 0 <= r < self.wanted@.len() ==> self.wanted@[r] <= other.wanted@[r]
        &&& rows_no_worse(self.body@, other.body@)
        &&& forall|d: int|
            0 <= d < DEPTH ==> rows_no_worse(#[trigger] self.pieces@[d]@, other.pieces@[d]@)
        &&& forall|d: int|
            0 <= d < DEPTH ==> other.remaining_scores@[d] <= #[trigger] self.remaining_scores@[d]
        &&& other.weapon_slots <= self.weapon_slots
        &&& self.best_per_slot == other.best_per_slot
        &&& self.best_per_slot >= 0
        &&& self.tables.agrees_with(&other.tables)
    }

    /// The piece that stands at a category in `self` is no worse than the one
    /// that stands there in `other`.
    proof fn lemma_piece_no_worse(&self, other: &SearchContext, body: int, chosen: Seq<Option<usize>>, d: int)
        requires
            self.no_harder_than(other),
            other.choices_ok(body, chosen),
            0 <= d < chosen.len(),
        ensures
            row_no_worse(self.piece(body, d, chosen[d]), other.piece(body, d, chosen[d])),
    {
        assert(rows_no_worse(self.pieces@[d]@, other.pieces@[d]@));
        match chosen[d] {
            Some(i) => {
                assert(row_no_worse(self.pieces@[d]@[i as int], other.pieces@[d]@[i as int]));
            },
            None => {
                assert(row_no_worse(self.body@[body], other.body@[body]));
            },
        }
    }

    /// What `self` lacks after some pieces is no more than what `other`
    /// lacks.
    proof fn lemma_state_no_harder(&self, other: &SearchContext, body: int, chosen: Seq<Option<usize>>, r: int)
        requires
            self.no_harder_than(other),
            other.choices_ok(body, chosen),
            0 <= r < self.skills(),
        ensures
            self.deficit_after(body, chosen, r) <= other.deficit_after(body, chosen, r),
        decreases chosen.len(),
    {
        assert(row_no_worse(self.body@[body], other.body@[body]));
        if chosen.len() > 0 {
            let before = chosen.drop_last();
            let d = chosen.len() - 1;
            assert(other.choices_ok(body, before)) by {
                assert forall|e: int| 0 <= e < before.len() implies match #[trigger] before[e] {
                    Some(i) => i < other.pieces@[e]@.len(),
                    None => e != 0,
                } by {
                    assert(before[e] == chosen[e]);
                }
            }
            self.lemma_state_no_harder(other, body, before, r);
            self.lemma_piece_no_worse(other, body, chosen, d);
        }
    }

    /// The search on `self` lacks no more points in all than that on `other`.
    proof fn lemma_difficulty_no_harder(
        &self,
        other: &SearchContext,
        body: int,
        chosen: Seq<Option<usize>>,
        upto: int,
    )
        requires
            self.no_harder_than(other),
            other.choices_ok(body, chosen),
            upto <= self.skills(),
        ensures
            self.difficulty_upto(body, chosen, upto) <= other.difficulty_upto(body, chosen, upto),
        decreases upto,
    {
        if upto > 0 {
            self.lemma_difficulty_no_harder(other, body, chosen, upto - 1);
            self.lemma_state_no_harder(other, body, chosen, upto - 1);
        }
    }

    /// A choice that the search on `other` takes, the search on `self` takes
    /// too.
    proof fn lemma_takes_no_harder(
        &self,
        other: &SearchContext,
        body: int,
        chosen: Seq<Option<usize>>,
        choice: Option<usize>,
    )
        requires
            self.no_harder_than(other),
            other.choices_ok(body, chosen),
            chosen.len() < DEPTH,
            other.takes(body, chosen, choice),
        ensures
            self.takes(body, chosen, choice),
            other.choices_ok(body, chosen.push(choice)),
    {
        let d = chosen.len() as int;
        let next = chosen.push(choice);
        assert(rows_no_worse(self.pieces@[d]@, other.pieces@[d]@));
        assert(other.choices_ok(body, next)) by {
            assert forall|e: int| 0 <= e < next.len() implies match #[trigger] next[e] {
                Some(i) => i < other.pieces@[e]@.len(),
                None => e != 0,
            } by {
                if e < d {
                    assert(next[e] == chosen[e]);
                }
            }
        }
        self.lemma_difficulty_no_harder(other, body, chosen, self.skills());
        self.lemma_difficulty_no_harder(other, body, next, self.skills());
        self.lemma_slots_no_harder(other, body, chosen);
        self.lemma_slots_no_harder(other, body, next);
        let best = self.best_per_slot as int;
        lemma_worth_grows(self.slots_after(body, chosen), other.slots_after(body, chosen), best);
        lemma_worth_grows(self.slots_after(body, next), other.slots_after(body, next), best);
        match choice {
            Some(i) => {
                assert(row_no_worse(self.pieces@[d]@[i as int], other.pieces@[d]@[i as int]));
            },
            None => {},
        }
    }

    /// The search on `self` has no fewer slots after some pieces than that on
    /// `other`, and its pieces, counted by size, leave no less room.
    proof fn lemma_slots_no_harder(&self, other: &SearchContext, body: int, chosen: Seq<Option<usize>>)
        requires
            self.no_harder_than(other),
            other.choices_ok(body, chosen),
        ensures
            other.slots_after(body, chosen) <= self.slots_after(body, chosen),
            roomier(
                start_budget(self.sized_after(body, chosen)),
                start_budget(other.sized_after(body, chosen)),
            ),
        decreases chosen.len(),
    {
        assert(row_no_worse(self.body@[body], other.body@[body]));
        if chosen.len() == 0 {
            lemma_budget_with_piece(
                (0, 0, 0),
                (0, 0, 0),
                self.weapon_slots as int,
                other.weapon_slots as int,
            );
            lemma_budget_with_piece(
                with_piece((0, 0, 0), self.weapon_slots as int),
                with_piece((0, 0, 0), other.weapon_slots as int),
                self.body@[body].slots as int,
                other.body@[body].slots as int,
            );
        } else {
            let before = chosen.drop_last();
            let d = chosen.len() - 1;
            assert(other.choices_ok(body, before)) by {
                assert forall|e: int| 0 <= e < before.len() implies match #[trigger] before[e] {
                    Some(i) => i < other.pieces@[e]@.len(),
                    None => e != 0,
                } by {
                    assert(before[e] == chosen[e]);
                }
            }
            self.lemma_slots_no_harder(other, body, before);
            self.lemma_piece_no_worse(other, body, chosen, d);
            lemma_budget_with_piece(
                self.sized_after(body, before),
                other.sized_after(body, before),
                self.piece(body, d, chosen.last()).slots as int,
                other.piece(body, d, chosen.last()).slots as int,
            );
        }
    }
}

impl SearchContext {
    /// The first `upto` choices of a combination that the search on `other`
    /// reaches are taken by the search on `self` too.
    proof fn lemma_prefix_no_harder(
        &self,
        other: &SearchContext,
        body: int,
        full: Seq<Option<usize>>,
        upto: int,
    )
        requires
            self.no_harder_than(other),
            other.in_reach((body, full)),
            0 <= upto <= DEPTH,
        ensures
            other.choices_ok(body, full.take(upto)),
            forall|d: int| 0 <= d < upto ==> #[trigger] self.takes(body, full.take(d), full[d]),
        decreases upto,
    {
        if upto > 0 {
            self.lemma_prefix_no_harder(other, body, full, upto - 1);
            assert(other.takes(body, full.take(upto - 1), full[upto - 1]));
            self.lemma_takes_no_harder(other, body, full.take(upto - 1), full[upto - 1]);
            assert(full.take(upto - 1).push(full[upto - 1]) =~= full.take(upto));
        }
    }

    /// The pieces of a set have few slots.
    proof fn lemma_sized_small(&self, body: int, chosen: Seq<Option<usize>>)
        ensures
            slots_in_all(self.sized_after(body, chosen)) <= 3 * (chosen.len() + 2),
        decreases chosen.len(),
    {
        if chosen.len() > 0 {
            self.lemma_sized_small(body, chosen.drop_last());
        }
    }

    /// A combination that gives no result in the search on `self` gives none
    /// in the search on `other`, where the decorations are well paired.
    proof fn lemma_fails_no_harder(&self, other: &SearchContext, body: int, full: Seq<Option<usize>>)
        requires
            self.no_harder_than(other),
            self.tables.well_paired(self.decorations@),
            other.choices_ok(body, full),
            self.fails((body, full)),
        ensures
            other.fails((body, full)),
    {
        let mine = self.deficits_of(body, full);
        let theirs = other.deficits_of(body, full);
        assert forall|r: int| 0 <= r < mine.len() implies mine[r] <= theirs[r] by {
            self.lemma_state_no_harder(other, body, full, r);
            self.lemma_deficit_range(body, full, r);
            other.lemma_deficit_range(body, full, r);
        }
        self.lemma_slots_no_harder(other, body, full);
        self.lemma_sized_small(body, full);
        other.lemma_sized_small(body, full);
        let r = choose|r: int| 0 <= r < mine.len() && mine[r] > 0;
        assert(theirs[r] > 0);
        if !narrowable(mine) {
            let q = choose|q: int| 0 <= q < mine.len() && mine[q] > i32::MAX;
            assert(theirs[q] > i32::MAX);
        } else if narrowable(theirs) {
            let room = start_budget(self.sized_after(body, full));
            let less_room = start_budget(other.sized_after(body, full));
            if self.falls_short(mine, self.sized_after(body, full)) {
                let found = choose|assignment: Seq<(usize, usize)>| #[trigger]
                    answers(&self.tables, narrowed(mine), room, Some(assignment)) && !closes(
                        self.decorations@,
                        mine,
                        assignment,
                    );
                self.lemma_answer_closes(mine, self.sized_after(body, full), found);
            }
            assert(dominated(narrowed(mine), narrowed(theirs))) by {
                assert forall|i: int| 0 <= i < narrowed(mine).len() implies narrowed(mine)[i]
                    <= narrowed(theirs)[i] by {
                    assert(mine[i] <= theirs[i]);
                }
            }
            if other.tables.feasible(narrowed(theirs), less_room) {
                self.tables.lemma_agreeing_feasible(&other.tables, narrowed(theirs), less_room);
                self.tables.lemma_feasible_monotone(
                    narrowed(mine),
                    narrowed(theirs),
                    room,
                    less_room,
                );
            }
        }
    }

    /// A combination with a result is not one that gives none.
    pub proof fn lemma_settled_succeeds(&self, combo: (int, Seq<Option<usize>>), res: FindResult)
        requires
            self.wf(),
            self.settled(combo, res),
        ensures
            !self.fails(combo),
    {
        let deficits = self.deficits_of(combo.0, combo.1);
        let budget = start_budget(self.sized_after(combo.0, combo.1));
        if !all_closed(deficits) {
            let path = choose|path: Seq<[i32; 3]>|
                path.len() == self.tables.skills() && #[trigger] self.tables.first_from(
                    narrowed(deficits),
                    path,
                    0,
                    budget,
                    0,
                ) && res.decorations_count_indices@ == self.tables.assignment_from(path, 0);
            self.tables.lemma_first_is_valid(narrowed(deficits), path, 0, budget, 0);
            assert(self.tables.feasible(narrowed(deficits), budget));
            if self.falls_short(deficits, self.sized_after(combo.0, combo.1)) {
                let found = choose|assignment: Seq<(usize, usize)>| #[trigger]
                    answers(&self.tables, narrowed(deficits), budget, Some(assignment)) && !closes(
                        self.decorations@,
                        deficits,
                        assignment,
                    );
                self.tables.lemma_store_changes_nothing(
                    narrowed(deficits),
                    budget,
                    Some(found),
                    Some(res.decorations_count_indices@),
                );
            }
        }
    }

    /// The search is monotone: where the search on `other` finds a set, the
    /// search on `self` finds one too, if it is no harder: no more is wanted
    /// of any skill, and weapon and pieces have no fewer slots. This holds
    /// where the decorations are well paired: then no combination is left
    /// out for a skill that its decorations leave short.
    pub proof fn lemma_no_harder_finds(
        &self,
        other: &SearchContext,
        max_results: int,
        mine: Seq<FindResult>,
        theirs: Seq<FindResult>,
    )
        requires
            self.no_harder_than(other),
            self.tables.well_paired(self.decorations@),
            max_results >= 1,
            self.found(mine, max_results),
            other.found(theirs, max_results),
            theirs.len() > 0,
        ensures
            mine.len() > 0,
    {
        let their_picks = choose|picks: Seq<int>| #[trigger]
            other.picked(theirs, picks, max_results);
        let my_picks = choose|picks: Seq<int>| #[trigger] self.picked(mine, picks, max_results);
        let combo = other.combos()[their_picks[0]];
        assert(other.settled(combo, theirs[0]));
        other.lemma_settled_succeeds(combo, theirs[0]);
        assert(other.combos().contains(combo));
        other.lemma_combos(combo);
        self.lemma_prefix_no_harder(other, combo.0, combo.1, DEPTH as int);
        assert(combo.1.take(DEPTH as int) =~= combo.1);
        assert(rows_no_worse(self.body@, other.body@));
        assert(self.in_reach(combo));
        self.lemma_combos(combo);
        if mine.len() == 0 {
            let at = choose|i: int| 0 <= i < self.combos().len() && self.combos()[i] == combo;
            assert(!my_picks.contains(at));
            assert(self.fails(self.combos()[at]));
            self.lemma_fails_no_harder(other, combo.0, combo.1);
        }
    }
}

} // verus!

//! The assembly search: which combinations of a charm, a head, arms, waist
//! and legs piece are worth looking at, for each body piece.

use crate::algorithm::decorate::DecorationTables;
use crate::algorithm::tables::placed_in;
use crate::algorithm::rows::{whole_points, whole_points_of, Row};
use vstd::prelude::*;

verus! {

/// The number of categories that the search walks through below the body
/// piece: charm, head, arms, waist, legs.
pub const DEPTH: usize = 5;

/// A combination that the search found worth a look: the places of its
/// pieces, what it still lacks of each wanted skill, and how many of its
/// pieces have one, two and three slots. A category that has no place takes
/// the body piece's values.
#[derive(Debug, Clone)]
pub struct Pending {
    pub body: usize,
    pub chosen: Vec<Option<usize>>,
    pub deficits: Vec<i64>,
    pub slots_at_size: [u32; 3],
}

/// What the search works on: the rows of each category, each with the order
/// in which its rows are tried, and what the decorations offer.
pub struct SearchContext {
    /// The points wanted of each skill.
    pub wanted: Vec<i32>,
    /// The rows of the body pieces.
    pub body: Vec<Row>,
    /// The rows of the charms, head, arms, waist and legs pieces.
    pub pieces: Vec<Vec<Row>>,
    /// The order in which the body rows are tried.
    pub body_order: Vec<usize>,
    /// The order in which the rows of each category are tried.
    pub orders: Vec<Vec<usize>>,
    /// The greatest score of each category, and last that of the body
    /// pieces.
    pub tops: Vec<i32>,
    /// For each category, the greatest score that it and the later ones can
    /// add.
    pub remaining_scores: Vec<i64>,
    /// The best points per slot of any skill, in sixths.
    pub best_per_slot: i64,
    /// The slots of the weapon.
    pub weapon_slots: usize,
    /// The rows of the decorations.
    pub decorations: Vec<Row>,
    /// What the solver knows of the decorations.
    pub tables: DecorationTables,
}

/// `order` lists the places of `rows`, each once, by descending score; rows
/// of one score keep their order.
pub open spec fn is_score_order(rows: Seq<Row>, order: Seq<usize>) -> bool {
    &&& order.len() == rows.len()
    &&& forall|j: int| 0 <= j < order.len() ==> 0 <= #[trigger] order[j] < rows.len()
    &&& forall|i: int, j: int|
        0 <= i < j < order.len() ==> rows[order[i] as int].score > rows[order[j] as int].score || (
        rows[order[i] as int].score == rows[order[j] as int].score && order[i] < order[j])
    &&& forall|a: int| 0 <= a < rows.len() ==> #[trigger] placed_in(order, a)
}

/// Every row holds points for `skills` skills.
pub open spec fn rows_wide(rows: Seq<Row>, skills: int) -> bool {
    forall|i: int| 0 <= i < rows.len() ==> (#[trigger] rows[i]).points@.len() == skills
}

/// The counts of pieces with one, two and three slots, with one more piece
/// of `slots` slots.
pub open spec fn with_piece(counts: (int, int, int), slots: int) -> (int, int, int) {
    if slots == 1 {
        (counts.0 + 1, counts.1, counts.2)
    } else if slots == 2 {
        (counts.0, counts.1 + 1, counts.2)
    } else if slots == 3 {
        (counts.0, counts.1, counts.2 + 1)
    } else {
        counts
    }
}

/// `v` where it is positive, else zero.
pub open spec fn positive_part(v: int) -> int {
    if v > 0 {
        v
    } else {
        0
    }
}

impl SearchContext {
    /// The number of wanted skills.
    pub open spec fn skills(&self) -> int {
        self.wanted@.len() as int
    }

    /// The context holds five categories, rows of one width, an order of
    /// trial for each category, and tables that fit the decorations.
    pub open spec fn wf(&self) -> bool {
        &&& self.weapon_slots <= 3
        &&& self.pieces@.len() == DEPTH
        &&& self.orders@.len() == DEPTH
        &&& self.remaining_scores@.len() == DEPTH
        &&& rows_wide(self.body@, self.skills())
        &&& is_score_order(self.body@, self.body_order@)
        &&& forall|d: int|
            0 <= d < DEPTH ==> rows_wide(#[trigger] self.pieces@[d]@, self.skills())
        &&& forall|d: int|
            0 <= d < DEPTH ==> is_score_order(self.pieces@[d]@, #[trigger] self.orders@[d]@)
        &&& rows_wide(self.decorations@, self.skills())
        &&& self.tables.wf()
        &&& self.tables.skills() == self.skills()
        &&& self.tables.consistent(self.decorations@)
    }

    /// The choices `chosen` name rows of their categories; the charm is never
    /// left out.
    pub open spec fn choices_ok(&self, body: int, chosen: Seq<Option<usize>>) -> bool {
        &&& 0 <= body < self.body@.len()
        &&& chosen.len() <= DEPTH
        &&& forall|d: int|
            0 <= d < chosen.len() ==> match #[trigger] chosen[d] {
                Some(i) => i < self.pieces@[d]@.len(),
                None => d != 0,
            }
    }

    /// The row that stands at category `d`: the chosen one, or that of the
    /// body piece where none is chosen.
    pub open spec fn piece(&self, body: int, d: int, choice: Option<usize>) -> Row {
        match choice {
            Some(i) => self.pieces@[d]@[i as int],
            None => self.body@[body],
        }
    }

    /// What the body piece and the pieces `chosen` leave open of skill `r`.
    pub open spec fn deficit_after(&self, body: int, chosen: Seq<Option<usize>>, r: int) -> int
        decreases chosen.len(),
    {
        if chosen.len() == 0 {
            self.wanted@[r] - self.body@[body].points@[r]
        } else {
            self.deficit_after(body, chosen.drop_last(), r) - self.piece(
                body,
                chosen.len() - 1,
                chosen.last(),
            ).points@[r]
        }
    }

    /// The slots of the weapon and of the pieces `chosen`.
    pub open spec fn slots_after(&self, body: int, chosen: Seq<Option<usize>>) -> int
        decreases chosen.len(),
    {
        if chosen.len() == 0 {
            self.weapon_slots as int
        } else {
            self.slots_after(body, chosen.drop_last()) + self.piece(
                body,
                chosen.len() - 1,
                chosen.last(),
            ).slots
        }
    }

    /// How many of the weapon, the body piece and the pieces `chosen` have
    /// one, two and three slots.
    pub open spec fn sized_after(&self, body: int, chosen: Seq<Option<usize>>) -> (int, int, int)
        decreases chosen.len(),
    {
        if chosen.len() == 0 {
            with_piece(
                with_piece((0, 0, 0), self.weapon_slots as int),
                self.body@[body].slots as int,
            )
        } else {
            with_piece(
                self.sized_after(body, chosen.drop_last()),
                self.piece(body, chosen.len() - 1, chosen.last()).slots as int,
            )
        }
    }

    /// The points that the skills before `upto` still lack together.
    pub open spec fn difficulty_upto(&self, body: int, chosen: Seq<Option<usize>>, upto: int) -> int
        decreases upto,
    {
        if upto <= 0 {
            0
        } else {
            self.difficulty_upto(body, chosen, upto - 1) + positive_part(
                self.deficit_after(body, chosen, upto - 1),
            )
        }
    }

    /// The points that all skills still lack together.
    pub open spec fn difficulty(&self, body: int, chosen: Seq<Option<usize>>) -> int {
        self.difficulty_upto(body, chosen, self.skills())
    }

    /// The points that `slots` slots are worth at best.
    pub open spec fn slot_worth(&self, slots: int) -> int {
        whole_points(slots * self.best_per_slot)
    }

    /// A row with score `score` is passed over at the next category after
    /// `chosen`: with it, the best of the later categories and the slots so
    /// far, the points that are lacking cannot be had. The charms are never
    /// passed over.
    pub open spec fn skipped(&self, body: int, chosen: Seq<Option<usize>>, score: int) -> bool {
        chosen.len() != 0 && self.difficulty(body, chosen) > score + self.remaining_scores@[chosen.len() as int]
            + self.slot_worth(self.slots_after(body, chosen))
    }

    /// After the pieces `chosen` the search goes on to the next category:
    /// the best of that category and the later ones, and the slots so far,
    /// can still bring the points that are lacking.
    pub open spec fn promising(&self, body: int, chosen: Seq<Option<usize>>) -> bool {
        self.remaining_scores@[chosen.len() - 1] + self.slot_worth(self.slots_after(body, chosen))
            >= self.difficulty(body, chosen)
    }

    /// The choice that stands at place `j` of the trial order of category
    /// `d`: a row, or, after the last row, the body piece's values.
    pub open spec fn choice_at(&self, d: int, j: int) -> Option<usize> {
        if j < self.orders@[d]@.len() {
            Some(self.orders@[d]@[j])
        } else {
            None
        }
    }

    /// The complete combinations that the search reaches from the pieces
    /// `chosen`, trying the rows of the next category from place `j` on.
    pub open spec fn explore(&self, body: int, chosen: Seq<Option<usize>>, j: int) -> Seq<
        Seq<Option<usize>>,
    >
        decreases DEPTH - chosen.len(), self.orders@[chosen.len() as int]@.len() + 1 - j,
    {
        let d = chosen.len() as int;
        if d >= DEPTH {
            seq![chosen]
        } else {
            let rows = self.orders@[d]@.len();
            if j < 0 || j > rows || (j == rows && d == 0) {
                Seq::empty()
            } else {
                let choice = self.choice_at(d, j);
                let next = chosen.push(choice);
                let here = if j < rows && self.skipped(
                    body,
                    chosen,
                    self.piece(body, d, choice).score as int,
                ) {
                    Seq::empty()
                } else if !self.promising(body, next) {
                    Seq::empty()
                } else {
                    self.explore(body, next, 0)
                };
                here + self.explore(body, chosen, j + 1)
            }
        }
    }

    /// `p` is the combination of the body piece `body` and the pieces
    /// `chosen`.
    pub open spec fn is_pending(&self, p: Pending, body: int, chosen: Seq<Option<usize>>) -> bool {
        &&& chosen.len() == DEPTH
        &&& self.choices_ok(body, chosen)
        &&& p.body == body
        &&& p.chosen@ == chosen
        &&& p.deficits@.len() == self.skills()
        &&& forall|r: int|
            0 <= r < self.skills() ==> #[trigger] p.deficits@[r] == self.deficit_after(
                body,
                chosen,
                r,
            )
        &&& (p.slots_at_size[0] as int, p.slots_at_size[1] as int, p.slots_at_size[2] as int)
            == self.sized_after(body, chosen)
    }
}


/// `after` is `before` with one combination more for each entry of `found`.
pub open spec fn extended(
    ctx: &SearchContext,
    before: Seq<Pending>,
    after: Seq<Pending>,
    body: int,
    found: Seq<Seq<Option<usize>>>,
) -> bool {
    &&& after.len() == before.len() + found.len()
    &&& forall|i: int| 0 <= i < before.len() ==> after[i] == before[i]
    &&& forall|i: int|
        0 <= i < found.len() ==> ctx.is_pending(#[trigger] after[before.len() + i], body, found[i])
}

proof fn lemma_extended_twice(
    ctx: &SearchContext,
    a: Seq<Pending>,
    b: Seq<Pending>,
    c: Seq<Pending>,
    body: int,
    first: Seq<Seq<Option<usize>>>,
    second: Seq<Seq<Option<usize>>>,
)
    requires
        extended(ctx, a, b, body, first),
        extended(ctx, b, c, body, second),
    ensures
        extended(ctx, a, c, body, first + second),
{
    assert forall|i: int| 0 <= i < (first + second).len() implies ctx.is_pending(
        #[trigger] c[a.len() + i],
        body,
        (first + second)[i],
    ) by {
        if i < first.len() {
            assert(c[a.len() + i] == b[a.len() + i]);
        } else {
            assert(c[a.len() + i] == c[b.len() + (i - first.len())]);
        }
    }
}

/// Lists the places of `rows` by descending score; rows of one score keep
/// their order.
pub fn order_by_score(rows: &Vec<Row>) -> (order: Vec<usize>)
    ensures
        is_score_order(rows@, order@),
{
    let mut order: Vec<usize> = Vec::new();
    let mut i: usize = 0;
    while i < rows.len()
        invariant
            i <= rows.len(),
            order.len() == i,
            forall|j: int| 0 <= j < order.len() ==> 0 <= #[trigger] order[j] < i,
            forall|a: int, b: int|
                0 <= a < b < order.len() ==> rows[order[a] as int].score > rows[order[b] as int].score
                    || (rows[order[a] as int].score == rows[order[b] as int].score && order[a]
                    < order[b]),
            forall|a: int| 0 <= a < i ==> #[trigger] placed_in(order@, a),
        decreases rows.len() - i,
    {
        let score = rows[i].score;
        let mut q: usize = 0;
        while q < order.len() && rows[order[q]].score >= score
            invariant
                q <= order.len(),
                order.len() == i,
                i < rows.len(),
                forall|j: int| 0 <= j < order.len() ==> 0 <= #[trigger] order[j] < i,
                forall|j: int| 0 <= j < q ==> rows[#[trigger] order[j] as int].score >= score,
            decreases order.len() - q,
        {
            q += 1;
        }
        let ghost before = order@;
        order.insert(q, i);
        proof {
            assert forall|a: int| 0 <= a < i + 1 implies #[trigger] placed_in(order@, a) by {
                if a < i {
                    assert(placed_in(before, a));
                    let w = choose|t: int| 0 <= t < before.len() && #[trigger] before[t] == a;
                    if w < q {
                        assert(order@[w] == a);
                    } else {
                        assert(order@[w + 1] == a);
                    }
                } else {
                    assert(order@[q as int] == a);
                }
            }
            assert forall|a: int, b: int| 0 <= a < b < order.len() implies rows[order[a] as int].score
                > rows[order[b] as int].score || (rows[order[a] as int].score == rows[order[b] as int].score
                && order[a] < order[b]) by {
                let oa = if a < q { before[a] } else if a == q { i } else { before[a - 1] };
                let ob = if b < q { before[b] } else if b == q { i } else { before[b - 1] };
                assert(order[a] == oa && order[b] == ob);
                if a != q && b != q {
                    let pa = if a < q { a } else { a - 1 };
                    let pb = if b < q { b } else { b - 1 };
                    assert(before[pa] == oa && before[pb] == ob);
                } else if a == q {
                    assert(rows[before[q as int] as int].score < score);
                    if b - 1 > q {
                        assert(rows[before[q as int] as int].score >= rows[before[b - 1] as int].score);
                    }
                }
            }
        }
        i += 1;
    }
    order
}

fn copy_choices(v: &Vec<Option<usize>>) -> (r: Vec<Option<usize>>)
    ensures
        r@ == v@,
{
    let mut out: Vec<Option<usize>> = Vec::new();
    let mut i: usize = 0;
    while i < v.len()
        invariant
            i <= v.len(),
            out@ == v@.take(i as int),
        decreases v.len() - i,
    {
        out.push(v[i]);
        assert(v@.take(i + 1) =~= v@.take(i as int).push(v@[i as int]));
        i += 1;
    }
    assert(v@.take(v.len() as int) =~= v@);
    out
}

fn copy_numbers(v: &Vec<i64>) -> (r: Vec<i64>)
    ensures
        r@ == v@,
{
    let mut out: Vec<i64> = Vec::new();
    let mut i: usize = 0;
    while i < v.len()
        invariant
            i <= v.len(),
            out@ == v@.take(i as int),
        decreases v.len() - i,
    {
        out.push(v[i]);
        assert(v@.take(i + 1) =~= v@.take(i as int).push(v@[i as int]));
        i += 1;
    }
    assert(v@.take(v.len() as int) =~= v@);
    out
}

fn count_piece(sized: [u32; 3], slots: i32) -> (r: [u32; 3])
    requires
        sized[0] + sized[1] + sized[2] < 100,
    ensures
        (r[0] as int, r[1] as int, r[2] as int) == with_piece(
            (sized[0] as int, sized[1] as int, sized[2] as int),
            slots as int,
        ),
        r[0] + r[1] + r[2] <= sized[0] + sized[1] + sized[2] + 1,
{
    if slots == 1 {
        [sized[0] + 1, sized[1], sized[2]]
    } else if slots == 2 {
        [sized[0], sized[1] + 1, sized[2]]
    } else if slots == 3 {
        [sized[0], sized[1], sized[2] + 1]
    } else {
        sized
    }
}

impl SearchContext {
    /// Under one category the rows come by descending score, so a row that
    /// is passed over is followed by rows that are passed over too: the
    /// search goes on after the last row.
    proof fn lemma_skip_rest(&self, body: int, chosen: Seq<Option<usize>>, j: int, from: int)
        requires
            self.wf(),
            self.choices_ok(body, chosen),
            chosen.len() < DEPTH,
            0 <= from <= j <= self.orders@[chosen.len() as int]@.len(),
            from < self.orders@[chosen.len() as int]@.len(),
            self.skipped(
                body,
                chosen,
                self.piece(body, chosen.len() as int, self.choice_at(chosen.len() as int, from)).score as int,
            ),
        ensures
            self.explore(body, chosen, j) == self.explore(
                body,
                chosen,
                self.orders@[chosen.len() as int]@.len() as int,
            ),
        decreases self.orders@[chosen.len() as int]@.len() - j,
    {
        let d = chosen.len() as int;
        let rows = self.orders@[d]@.len() as int;
        if j < rows {
            self.lemma_skip_rest(body, chosen, j + 1, from);
            assert(is_score_order(self.pieces@[d]@, self.orders@[d]@));
            let here = self.piece(body, d, self.choice_at(d, j)).score;
            let first = self.piece(body, d, self.choice_at(d, from)).score;
            assert(here <= first);
            assert(self.skipped(body, chosen, here as int));
            assert(self.explore(body, chosen, j) =~= self.explore(body, chosen, j + 1));
        }
    }

    fn difficulty_of(&self, deficits: &Vec<i64>, Ghost(body): Ghost<int>, Ghost(chosen): Ghost<
        Seq<Option<usize>>,
    >) -> (r: i128)
        requires
            deficits.len() == self.skills(),
            forall|r: int|
                0 <= r < self.skills() ==> #[trigger] deficits@[r] == self.deficit_after(
                    body,
                    chosen,
                    r,
                ),
        ensures
            r == self.difficulty(body, chosen),
            0 <= r <= 0x8000_0000_0000_0000 * self.skills(),
    {
        let mut sum: i128 = 0;
        let mut r: usize = 0;
        while r < deficits.len()
            invariant
                r <= deficits.len(),
                deficits.len() == self.skills(),
                forall|q: int|
                    0 <= q < self.skills() ==> #[trigger] deficits@[q] == self.deficit_after(
                        body,
                        chosen,
                        q,
                    ),
                sum == self.difficulty_upto(body, chosen, r as int),
                0 <= sum <= 0x8000_0000_0000_0000 * r,
            decreases deficits.len() - r,
        {
            if deficits[r] > 0 {
                sum = sum + deficits[r] as i128;
            }
            r += 1;
        }
        sum
    }

    fn slot_worth_of(&self, slots: i64) -> (r: i128)
        requires
            -0x10_0000_0000 <= slots <= 0x10_0000_0000,
        ensures
            r == self.slot_worth(slots as int),
            -0x10_0000_0000 * 0x8000_0000_0000_0000 <= r <= 0x10_0000_0000 * 0x8000_0000_0000_0000,
    {
        let best = self.best_per_slot;
        assert(-0x10_0000_0000 * 0x8000_0000_0000_0000 <= slots * best <= 0x10_0000_0000
            * 0x8000_0000_0000_0000) by (nonlinear_arith)
            requires
                -0x10_0000_0000 <= slots <= 0x10_0000_0000,
                -0x8000_0000_0000_0000 <= best <= 0x8000_0000_0000_0000,
        ;
        whole_points_of(slots as i128 * best as i128)
    }

    /// Adds to `out` the complete combinations that the search reaches from
    /// the pieces `chosen`.
    fn descend(
        &self,
        body: usize,
        chosen: &mut Vec<Option<usize>>,
        deficits: &Vec<i64>,
        slots: i64,
        sized: [u32; 3],
        out: &mut Vec<Pending>,
    )
        requires
            self.wf(),
            self.choices_ok(body as int, old(chosen)@),
            deficits.len() == self.skills(),
            forall|r: int|
                0 <= r < self.skills() ==> #[trigger] deficits@[r] == self.deficit_after(
                    body as int,
                    old(chosen)@,
                    r,
                ),
            forall|r: int|
                0 <= r < self.skills() ==> -0x1_0000_0000 * (old(chosen)@.len() + 1)
                    <= #[trigger] deficits@[r] <= 0x1_0000_0000 * (old(chosen)@.len() + 1),
            slots == self.slots_after(body as int, old(chosen)@),
            -0x8000_0000 * old(chosen)@.len() <= slots <= 3 + 0x8000_0000 * old(chosen)@.len(),
            (sized[0] as int, sized[1] as int, sized[2] as int) == self.sized_after(
                body as int,
                old(chosen)@,
            ),
            sized[0] + sized[1] + sized[2] <= old(chosen)@.len() + 2,
        ensures
            final(chosen)@ == old(chosen)@,
            extended(
                self,
                old(out)@,
                final(out)@,
                body as int,
                self.explore(body as int, old(chosen)@, 0),
            ),
        decreases DEPTH - old(chosen)@.len(),
    {
        let d = chosen.len();
        let ghost start = chosen@;
        let ghost gb = body as int;
        if d >= DEPTH {
            let p = Pending {
                body,
                chosen: copy_choices(chosen),
                deficits: copy_numbers(deficits),
                slots_at_size: sized,
            };
            out.push(p);
            assert(self.explore(gb, start, 0) =~= seq![start]);
            assert(self.is_pending(out@[old(out)@.len() as int], gb, start));
            return ;
        }
        let rows = self.orders[d].len();
        let difficulty = self.difficulty_of(deficits, Ghost(gb), Ghost(start));
        let worth = self.slot_worth_of(slots);
        let reach = self.remaining_scores[d] as i128 + worth;
        let ghost mut done: Seq<Seq<Option<usize>>> = Seq::empty();
        let mut j: usize = 0;
        let mut finished = d == 0 && rows == 0;
        assert(done + self.explore(gb, start, 0) =~= self.explore(gb, start, 0));
        assert(finished ==> self.explore(gb, start, 0) =~= Seq::<Seq<Option<usize>>>::empty());
        while !finished
            invariant
                self.wf(),
                d < DEPTH,
                d == start.len(),
                old(chosen)@ == start,
                gb == body,
                chosen@ == start,
                self.choices_ok(gb, start),
                rows == self.orders@[d as int]@.len(),
                j <= rows,
                !finished ==> !(j == rows && d == 0),
                deficits.len() == self.skills(),
                forall|r: int|
                    0 <= r < self.skills() ==> #[trigger] deficits@[r] == self.deficit_after(
                        gb,
                        start,
                        r,
                    ),
                forall|r: int|
                    0 <= r < self.skills() ==> -0x1_0000_0000 * (d + 1) <= #[trigger] deficits@[r]
                        <= 0x1_0000_0000 * (d + 1),
                slots == self.slots_after(gb, start),
                -0x8000_0000 * d <= slots <= 3 + 0x8000_0000 * d,
                (sized[0] as int, sized[1] as int, sized[2] as int) == self.sized_after(gb, start),
                sized[0] + sized[1] + sized[2] <= d + 2,
                difficulty == self.difficulty(gb, start),
                reach == self.remaining_scores@[d as int] + self.slot_worth(slots as int),
                -0x4000_0000_0000_0000_0000_0000_0000 <= reach <= 0x4000_0000_0000_0000_0000_0000_0000,
                extended(self, old(out)@, out@, gb, done),
                !finished ==> done + self.explore(gb, start, j as int) == self.explore(gb, start, 0),
                finished ==> done == self.explore(gb, start, 0),
            decreases rows - j + (if finished { 0int } else { 1int }),
        {
            assert(is_score_order(self.pieces@[d as int]@, self.orders@[d as int]@));
            assert(rows_wide(self.pieces@[d as int]@, self.skills()));
            let choice: Option<usize> = if j < rows {
                Some(self.orders[d][j])
            } else {
                None
            };
            assert(choice == self.choice_at(d as int, j as int));
            let piece: &Row = match choice {
                Some(i) => &self.pieces[d][i],
                None => &self.body[body],
            };
            assert(*piece == self.piece(gb, d as int, choice));
            let ghost next = start.push(choice);
            assert(next.drop_last() =~= start);
            if j < rows && d != 0 && difficulty > piece.score as i128 + reach {
                proof {
                    self.lemma_skip_rest(gb, start, j as int, j as int);
                }
                j = rows;
            } else {
                let mut after: Vec<i64> = Vec::new();
                let mut r: usize = 0;
                while r < deficits.len()
                    invariant
                        r <= deficits.len(),
                        after.len() == r,
                        deficits.len() == self.skills(),
                        piece.points@.len() == self.skills(),
                        d < DEPTH,
                        forall|q: int|
                            0 <= q < self.skills() ==> -0x1_0000_0000 * (d + 1)
                                <= #[trigger] deficits@[q] <= 0x1_0000_0000 * (d + 1),
                        forall|q: int|
                            0 <= q < r ==> #[trigger] after@[q] == deficits@[q] - piece.points@[q],
                    decreases deficits.len() - r,
                {
                    after.push(deficits[r] - piece.points[r] as i64);
                    r += 1;
                }
                let after_slots = slots + piece.slots as i64;
                let after_sized = count_piece(sized, piece.slots);
                let after_difficulty = self.difficulty_of(&after, Ghost(gb), Ghost(next));
                let after_worth = self.slot_worth_of(after_slots);
                let ghost found = if self.promising(gb, next) {
                    self.explore(gb, next, 0)
                } else {
                    Seq::empty()
                };
                let ghost before_out = out@;
                if self.remaining_scores[d] as i128 + after_worth >= after_difficulty {
                    chosen.push(choice);
                    assert(chosen@ == next);
                    self.descend(body, chosen, &after, after_slots, after_sized, out);
                    chosen.pop();
                    assert(chosen@ =~= start);
                }
                proof {
                    assert(extended(self, before_out, out@, gb, found));
                    lemma_extended_twice(self, old(out)@, before_out, out@, gb, done, found);
                    assert(self.explore(gb, start, j as int) =~= found + self.explore(
                        gb,
                        start,
                        j + 1,
                    ));
                    assert((done + found) + self.explore(gb, start, j + 1) =~= done + self.explore(
                        gb,
                        start,
                        j as int,
                    ));
                    done = done + found;
                }
                if j == rows {
                    finished = true;
                } else {
                    j += 1;
                    if j == rows && d == 0 {
                        finished = true;
                    }
                }
                proof {
                    if finished {
                        let end = if j == rows && d == 0 { j as int } else { j + 1 };
                        assert(self.explore(gb, start, end) =~= Seq::<Seq<Option<usize>>>::empty());
                        assert(done + self.explore(gb, start, end) =~= done);
                    }
                }
            }
        }
    }
}


/// The combinations `found`, each with the body piece `body`.
pub open spec fn tagged(found: Seq<Seq<Option<usize>>>, body: int) -> Seq<(int, Seq<Option<usize>>)> {
    Seq::new(found.len(), |i: int| (body, found[i]))
}

impl SearchContext {
    /// The combinations that the search reaches, for the body pieces from
    /// place `b` of their trial order on: each as the place of its body piece
    /// and the choices for the five categories.
    pub open spec fn combos_from(&self, b: int) -> Seq<(int, Seq<Option<usize>>)>
        decreases self.body_order@.len() - b,
    {
        if b < 0 || b >= self.body_order@.len() {
            Seq::empty()
        } else {
            tagged(
                self.explore(self.body_order@[b] as int, Seq::empty(), 0),
                self.body_order@[b] as int,
            ) + self.combos_from(b + 1)
        }
    }

    /// All combinations that the search reaches, in the order in which it
    /// reaches them.
    pub open spec fn combos(&self) -> Seq<(int, Seq<Option<usize>>)> {
        self.combos_from(0)
    }

    /// `out` holds the combinations `found`.
    pub open spec fn holds_combos(&self, out: Seq<Pending>, found: Seq<(int, Seq<Option<usize>>)>) -> bool {
        &&& out.len() == found.len()
        &&& forall|i: int|
            0 <= i < out.len() ==> self.is_pending(#[trigger] out[i], found[i].0, found[i].1)
    }

    /// Walks through the body pieces and, below each, through the charms,
    /// head, arms, waist and legs pieces, and lists the combinations that
    /// are worth a look.
    pub fn candidates(&self) -> (out: Vec<Pending>)
        requires
            self.wf(),
        ensures
            self.holds_combos(out@, self.combos()),
    {
        let mut out: Vec<Pending> = Vec::new();
        let mut chosen: Vec<Option<usize>> = Vec::new();
        let ghost mut done: Seq<(int, Seq<Option<usize>>)> = Seq::empty();
        let mut b: usize = 0;
        assert(done + self.combos_from(0) =~= self.combos());
        while b < self.body_order.len()
            invariant
                self.wf(),
                b <= self.body_order.len(),
                chosen@.len() == 0,
                self.holds_combos(out@, done),
                done + self.combos_from(b as int) == self.combos(),
            decreases self.body_order.len() - b,
        {
            assert(is_score_order(self.body@, self.body_order@));
            let body = self.body_order[b];
            let row = &self.body[body];
            let ghost none: Seq<Option<usize>> = Seq::empty();
            assert(chosen@ =~= none);
            let mut deficits: Vec<i64> = Vec::new();
            let mut r: usize = 0;
            while r < self.wanted.len()
                invariant
                    r <= self.wanted.len(),
                    deficits.len() == r,
                    row.points@.len() == self.skills(),
                    *row == self.body@[body as int],
                    forall|q: int|
                        0 <= q < r ==> #[trigger] deficits@[q] == self.wanted@[q] - row.points@[q],
                decreases self.wanted.len() - r,
            {
                deficits.push(self.wanted[r] as i64 - row.points[r] as i64);
                r += 1;
            }
            let sized = count_piece(count_piece([0, 0, 0], self.weapon_slots as i32), row.slots);
            let ghost before = out@;
            self.descend(body, &mut chosen, &deficits, self.weapon_slots as i64, sized, &mut out);
            proof {
                let found = self.explore(body as int, none, 0);
                let more = tagged(found, body as int);
                assert(extended(self, before, out@, body as int, found));
                assert forall|i: int| 0 <= i < out@.len() implies self.is_pending(
                    #[trigger] out@[i],
                    (done + more)[i].0,
                    (done + more)[i].1,
                ) by {
                    if i < before.len() {
                        assert(out@[i] == before[i]);
                    } else {
                        assert(out@[i] == out@[before.len() + (i - before.len())]);
                        assert((done + more)[i] == more[i - before.len()]);
                    }
                }
                assert(self.combos_from(b as int) =~= more + self.combos_from(b + 1));
                assert((done + more) + self.combos_from(b + 1) =~= done + self.combos_from(b as int));
                done = done + more;
            }
            b += 1;
        }
        assert(done + self.combos_from(b as int) =~= done);
        out
    }
}

} // verus!

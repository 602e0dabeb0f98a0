//! The search as a whole: from the lists of equipment to the sets that reach
//! the wanted skills.

use crate::algorithm::decided::alike;
use crate::algorithm::decorate::DecorationTables;
use crate::algorithm::reach::{row_no_worse, rows_no_worse};
use crate::algorithm::resolve::FindResult;
use crate::algorithm::rows::{
    best_of, best_score, createvec, is_row_of, is_top_score, lemma_best_score_not_negative,
    lemma_row_score_monotone, Row,
};
use crate::algorithm::score::is_best_row_density;
use crate::algorithm::search::{order_by_score, SearchContext, DEPTH};
use crate::algorithm::settle::Tuning;
use crate::armor::Armor;
use crate::charms::Charm;
use crate::decorations::Decoration;
use crate::requirements::Requirement;
use crate::skillpoint::SkillPoint;
use vstd::prelude::*;

verus! {

/// `rows` are the rows of `items`, in their order.
pub open spec fn rows_of<T: SkillPoint>(
    rows: Seq<Row>,
    items: Seq<&T>,
    requirements: Seq<Requirement>,
    best: int,
) -> bool {
    &&& rows.len() == items.len()
    &&& forall|i: int|
        0 <= i < rows.len() ==> is_row_of(#[trigger] rows[i], items[i], i, requirements, best)
}

/// The greater of two numbers.
pub open spec fn greater(a: int, b: int) -> int {
    if a >= b {
        a
    } else {
        b
    }
}

/// The greatest score that category `d` can add: its own, or that of the
/// body pieces, whose values a category other than the charms may take.
pub open spec fn category_top(tops: Seq<i32>, d: int) -> int {
    if d == 0 {
        tops[0] as int
    } else {
        greater(tops[d] as int, tops[DEPTH as int] as int)
    }
}

/// The greatest score that the categories from `d` on can add together.
pub open spec fn tops_from(tops: Seq<i32>, d: int) -> int
    decreases DEPTH - d,
{
    if d < 0 || d >= DEPTH {
        0
    } else {
        category_top(tops, d) + tops_from(tops, d + 1)
    }
}

/// `ctx` is what the search works on for the given lists: the rows of the
/// items, the scores that the decorations give, and the best decoration of
/// each skill and size.
pub open spec fn prepared(
    ctx: SearchContext,
    head: Seq<&Armor>,
    body: Seq<&Armor>,
    arms: Seq<&Armor>,
    waist: Seq<&Armor>,
    legs: Seq<&Armor>,
    charms: Seq<&Charm>,
    decorations: Seq<&Decoration>,
    requirements: Seq<Requirement>,
    weapon_slots: usize,
) -> bool {
    let best = ctx.best_per_slot as int;
    &&& ctx.wf()
    &&& ctx.weapon_slots == weapon_slots
    &&& ctx.wanted@.len() == requirements.len()
    &&& forall|r: int| 0 <= r < requirements.len() ==> #[trigger] ctx.wanted@[r] == requirements[r].points
    &&& rows_of(ctx.decorations@, decorations, requirements, 0)
    &&& ctx.tables.scores_found(ctx.decorations@)
    &&& best == best_score(ctx.tables.scores@)
    &&& ctx.tables.best_picked(ctx.decorations@)
    &&& ctx.tables.drains_taken(ctx.decorations@)
    &&& ctx.tables.pairs_found(ctx.decorations@)
    &&& ctx.tables.groups_found(ctx.decorations@)
    &&& ctx.tables.arranged()
    &&& rows_of(ctx.pieces@[0]@, charms, requirements, best)
    &&& rows_of(ctx.pieces@[1]@, head, requirements, best)
    &&& rows_of(ctx.pieces@[2]@, arms, requirements, best)
    &&& rows_of(ctx.pieces@[3]@, waist, requirements, best)
    &&& rows_of(ctx.pieces@[4]@, legs, requirements, best)
    &&& rows_of(ctx.body@, body, requirements, best)
    &&& ctx.tops@.len() == DEPTH + 1
    &&& forall|d: int| 0 <= d < DEPTH ==> is_top_score(ctx.pieces@[d]@, #[trigger] ctx.tops@[d] as int)
    &&& is_top_score(ctx.body@, ctx.tops@[DEPTH as int] as int)
    &&& forall|d: int|
        0 <= d < DEPTH ==> #[trigger] ctx.remaining_scores@[d] == tops_from(ctx.tops@, d)
}

fn zero_scores() -> (r: Vec<i64>)
    ensures
        r.len() == 0,
{
    Vec::new()
}

/// Turns the lists of equipment into what the search works on.
pub fn prepare(
    head: &[&Armor],
    body: &[&Armor],
    arms: &[&Armor],
    waist: &[&Armor],
    legs: &[&Armor],
    charms: &[&Charm],
    decorations: &[&Decoration],
    requirements: &[Requirement],
    weapon_slots: usize,
) -> (ctx: SearchContext)
    requires
        weapon_slots <= 3,
    ensures
        prepared(
            ctx,
            head@,
            body@,
            arms@,
            waist@,
            legs@,
            charms@,
            decorations@,
            requirements@,
            weapon_slots,
        ),
{
    let skills = requirements.len();
    let none = zero_scores();
    assert(best_score(none@) == 0);
    let (decoration_rows, _) = createvec(decorations, requirements, none.as_slice());
    let tables = DecorationTables::build(&decoration_rows, skills);
    let scores = &tables.scores;
    let best = best_of(scores.as_slice());
    let (charm_rows, charm_top) = createvec(charms, requirements, scores.as_slice());
    let (head_rows, head_top) = createvec(head, requirements, scores.as_slice());
    let (arms_rows, arms_top) = createvec(arms, requirements, scores.as_slice());
    let (waist_rows, waist_top) = createvec(waist, requirements, scores.as_slice());
    let (legs_rows, legs_top) = createvec(legs, requirements, scores.as_slice());
    let (body_rows, body_top) = createvec(body, requirements, scores.as_slice());
    let mut wanted: Vec<i32> = Vec::new();
    let mut r: usize = 0;
    while r < skills
        invariant
            r <= skills,
            skills == requirements.len(),
            wanted.len() == r,
            forall|q: int| 0 <= q < r ==> #[trigger] wanted@[q] == requirements@[q].points,
        decreases skills - r,
    {
        wanted.push(requirements[r].points);
        r += 1;
    }
    let mut tops: Vec<i32> = Vec::new();
    tops.push(charm_top);
    tops.push(head_top);
    tops.push(arms_top);
    tops.push(waist_top);
    tops.push(legs_top);
    tops.push(body_top);
    let mut remaining_scores: Vec<i64> = Vec::new();
    let mut d: usize = 0;
    while d < DEPTH
        invariant
            d <= DEPTH,
            remaining_scores.len() == d,
            forall|e: int| 0 <= e < d ==> #[trigger] remaining_scores@[e] == 0,
        decreases DEPTH - d,
    {
        remaining_scores.push(0);
        d += 1;
    }
    let mut acc: i64 = 0;
    d = DEPTH;
    while d > 0
        invariant
            d <= DEPTH,
            tops.len() == DEPTH + 1,
            remaining_scores.len() == DEPTH,
            acc == tops_from(tops@, d as int),
            -0x8000_0000 * (DEPTH - d) <= acc <= 0x8000_0000 * (DEPTH - d),
            forall|e: int| d <= e < DEPTH ==> #[trigger] remaining_scores@[e] == tops_from(tops@, e),
        decreases d,
    {
        d -= 1;
        let own = tops[d];
        let top = if d == 0 || own >= tops[DEPTH] {
            own
        } else {
            tops[DEPTH]
        };
        acc = acc + top as i64;
        remaining_scores.set(d, acc);
    }
    let body_order = order_by_score(&body_rows);
    let mut orders: Vec<Vec<usize>> = Vec::new();
    orders.push(order_by_score(&charm_rows));
    orders.push(order_by_score(&head_rows));
    orders.push(order_by_score(&arms_rows));
    orders.push(order_by_score(&waist_rows));
    orders.push(order_by_score(&legs_rows));
    let mut pieces: Vec<Vec<Row>> = Vec::new();
    pieces.push(charm_rows);
    pieces.push(head_rows);
    pieces.push(arms_rows);
    pieces.push(waist_rows);
    pieces.push(legs_rows);
    let ctx = SearchContext {
        wanted,
        body: body_rows,
        pieces,
        body_order,
        orders,
        tops,
        remaining_scores,
        best_per_slot: best,
        weapon_slots,
        decorations: decoration_rows,
        tables,
    };
    ctx
}

/// Searches the lists of equipment for sets that reach `requirements`, on a
/// weapon with `weapon_slots` slots: one piece of each kind, where a head,
/// arms, waist or legs piece may be left out and then counts as the body
/// piece does; one charm; and decorations in the slots. Gives the first
/// `max_results` sets that the search reaches. A combination whose
/// decorations, as the solver finds them, leave a skill short is no set.
pub fn find(
    head: &[&Armor],
    body: &[&Armor],
    arms: &[&Armor],
    waist: &[&Armor],
    legs: &[&Armor],
    charms: &[&Charm],
    decorations: &[&Decoration],
    requirements: &[Requirement],
    weapon_slots: usize,
    max_results: usize,
) -> (results: Vec<FindResult>)
    requires
        weapon_slots <= 3,
    ensures
        exists|ctx: SearchContext|
            #![trigger ctx.found(results@, max_results as int)]
            prepared(
                ctx,
                head@,
                body@,
                arms@,
                waist@,
                legs@,
                charms@,
                decorations@,
                requirements@,
                weapon_slots,
            ) && ctx.found(results@, max_results as int) && ctx.all_valid(results@),
{
    let ctx = prepare(
        head,
        body,
        arms,
        waist,
        legs,
        charms,
        decorations,
        requirements,
        weapon_slots,
    );
    let tuning = Tuning::standard();
    let results = ctx.search(max_results, &tuning);
    results
}

/// `less` asks for the skills of `more`, and of none of them for more
/// points.
pub open spec fn asks_no_more(less: Seq<Requirement>, more: Seq<Requirement>) -> bool {
    less.len() == more.len() && forall|r: int|
        0 <= r < less.len() ==> (#[trigger] less[r]).name@ == more[r].name@ && less[r].points
            <= more[r].points
}

/// The items of `tight` are those of `roomy` with no more slots: place by
/// place they grant the same points for the skills of `requirements`, and
/// have the same slots, or fewer where both have between none and three.
pub open spec fn no_more_slots<T: SkillPoint>(
    tight: Seq<&T>,
    roomy: Seq<&T>,
    requirements: Seq<Requirement>,
) -> bool {
    &&& tight.len() == roomy.len()
    &&& forall|i: int|
        0 <= i < tight.len() ==> (#[trigger] tight[i]).slot_count() == roomy[i].slot_count() || 0
            <= tight[i].slot_count() <= roomy[i].slot_count() <= 3
    &&& forall|i: int, r: int|
        0 <= i < tight.len() && 0 <= r < requirements.len() ==> (#[trigger] tight[i]).points_of(
            (#[trigger] requirements[r]).name@,
        ) == roomy[i].points_of(requirements[r].name@)
}

/// Rows of items with no fewer slots, for the same skills and valued at the
/// same best score, are no worse.
proof fn lemma_rows_no_worse<T: SkillPoint>(
    a: Seq<Row>,
    b: Seq<Row>,
    roomy: Seq<&T>,
    tight: Seq<&T>,
    less: Seq<Requirement>,
    more: Seq<Requirement>,
    best: int,
)
    requires
        asks_no_more(less, more),
        no_more_slots(tight, roomy, less),
        best >= 0,
        rows_of(a, roomy, less, best),
        rows_of(b, tight, more, best),
    ensures
        rows_no_worse(a, b),
        forall|i: int| 0 <= i < a.len() ==> b[i].score <= (#[trigger] a[i]).score,
{
    assert forall|i: int| 0 <= i < a.len() implies row_no_worse(#[trigger] a[i], b[i]) by {
        assert(is_row_of(a[i], roomy[i], i, less, best));
        assert(is_row_of(b[i], tight[i], i, more, best));
        assert(tight[i].slot_count() == roomy[i].slot_count() || 0 <= tight[i].slot_count()
            <= roomy[i].slot_count() <= 3);
        assert forall|r: int| 0 <= r < less.len() implies a[i].points@[r] == b[i].points@[r] by {
            assert(less[r].name@ == more[r].name@);
            assert(tight[i].points_of(less[r].name@) == roomy[i].points_of(less[r].name@));
        }
        assert(a[i].points@ =~= b[i].points@);
        if a[i].slots != b[i].slots {
            lemma_row_score_monotone(
                b[i].slots as int,
                b[i].points@,
                a[i].slots as int,
                a[i].points@,
                best,
            );
        }
    }
}

/// Rows with no lower scores have no lower greatest score.
proof fn lemma_top_no_lower(a: Seq<Row>, b: Seq<Row>, top: int, other: int)
    requires
        a.len() == b.len(),
        forall|i: int| 0 <= i < a.len() ==> b[i].score <= (#[trigger] a[i]).score,
        is_top_score(a, top),
        is_top_score(b, other),
    ensures
        other <= top,
{
    if other != 0 {
        let i = choose|i: int| 0 <= i < b.len() && (#[trigger] b[i]).score == other;
        assert(a[i].score <= top);
    }
}

/// With no lower greatest scores the categories can add no less together.
proof fn lemma_tops_from_no_lower(a: Seq<i32>, b: Seq<i32>, d: int)
    requires
        a.len() == DEPTH + 1,
        b.len() == DEPTH + 1,
        forall|e: int| 0 <= e <= DEPTH ==> b[e] <= a[e],
        0 <= d <= DEPTH,
    ensures
        tops_from(b, d) <= tops_from(a, d),
    decreases DEPTH - d,
{
    if d < DEPTH {
        lemma_tops_from_no_lower(a, b, d + 1);
    }
}

/// The search that is prepared from lists with no fewer slots, for no more
/// points of the same skills, on a weapon with no fewer slots, is no harder.
proof fn lemma_prepared_no_harder(
    head: Seq<&Armor>,
    body: Seq<&Armor>,
    arms: Seq<&Armor>,
    waist: Seq<&Armor>,
    legs: Seq<&Armor>,
    charms: Seq<&Charm>,
    tight_head: Seq<&Armor>,
    tight_body: Seq<&Armor>,
    tight_arms: Seq<&Armor>,
    tight_waist: Seq<&Armor>,
    tight_legs: Seq<&Armor>,
    tight_charms: Seq<&Charm>,
    decorations: Seq<&Decoration>,
    less: Seq<Requirement>,
    more: Seq<Requirement>,
    weapon_slots: usize,
    fewer_slots: usize,
    easy: SearchContext,
    hard: SearchContext,
)
    requires
        asks_no_more(less, more),
        fewer_slots <= weapon_slots,
        no_more_slots(tight_head, head, less),
        no_more_slots(tight_body, body, less),
        no_more_slots(tight_arms, arms, less),
        no_more_slots(tight_waist, waist, less),
        no_more_slots(tight_legs, legs, less),
        no_more_slots(tight_charms, charms, less),
        prepared(easy, head, body, arms, waist, legs, charms, decorations, less, weapon_slots),
        prepared(
            hard,
            tight_head,
            tight_body,
            tight_arms,
            tight_waist,
            tight_legs,
            tight_charms,
            decorations,
            more,
            fewer_slots,
        ),
    ensures
        easy.no_harder_than(&hard),
{
    assert(no_more_slots(decorations, decorations, less));
    lemma_rows_no_worse(easy.decorations@, hard.decorations@, decorations, decorations, less, more, 0);
    assert(alike(easy.decorations@, hard.decorations@)) by {
        assert forall|i: int| 0 <= i < easy.decorations@.len() implies (
        #[trigger] easy.decorations@[i]).slots == hard.decorations@[i].slots
            && easy.decorations@[i].points@ == hard.decorations@[i].points@ by {
            assert(row_no_worse(easy.decorations@[i], hard.decorations@[i]));
        }
    }
    assert(easy.tables.describes(easy.decorations@));
    assert(hard.tables.describes(hard.decorations@));
    easy.tables.lemma_tables_decided(&hard.tables, easy.decorations@, hard.decorations@);
    let best = easy.best_per_slot as int;
    assert(best == hard.best_per_slot);
    assert forall|r: int| 0 <= r < easy.tables.scores@.len() implies easy.tables.scores@[r]
        >= 0 by {
        assert(is_best_row_density(
            easy.decorations@,
            easy.decorations@.len() as int,
            r,
            easy.tables.scores@[r] as int,
        ));
    }
    lemma_best_score_not_negative(easy.tables.scores@);
    lemma_rows_no_worse(easy.pieces@[0]@, hard.pieces@[0]@, charms, tight_charms, less, more, best);
    lemma_rows_no_worse(easy.pieces@[1]@, hard.pieces@[1]@, head, tight_head, less, more, best);
    lemma_rows_no_worse(easy.pieces@[2]@, hard.pieces@[2]@, arms, tight_arms, less, more, best);
    lemma_rows_no_worse(easy.pieces@[3]@, hard.pieces@[3]@, waist, tight_waist, less, more, best);
    lemma_rows_no_worse(easy.pieces@[4]@, hard.pieces@[4]@, legs, tight_legs, less, more, best);
    lemma_rows_no_worse(easy.body@, hard.body@, body, tight_body, less, more, best);
    assert forall|d: int| 0 <= d <= DEPTH implies hard.tops@[d] <= easy.tops@[d] by {
        if d < DEPTH {
            assert(is_top_score(easy.pieces@[d]@, easy.tops@[d] as int));
            assert(is_top_score(hard.pieces@[d]@, hard.tops@[d] as int));
            lemma_top_no_lower(
                easy.pieces@[d]@,
                hard.pieces@[d]@,
                easy.tops@[d] as int,
                hard.tops@[d] as int,
            );
        } else {
            lemma_top_no_lower(
                easy.body@,
                hard.body@,
                easy.tops@[DEPTH as int] as int,
                hard.tops@[DEPTH as int] as int,
            );
        }
    }
    assert forall|d: int| 0 <= d < DEPTH implies hard.remaining_scores@[d]
        <= #[trigger] easy.remaining_scores@[d] by {
        assert(easy.remaining_scores@[d] == tops_from(easy.tops@, d));
        assert(hard.remaining_scores@[d] == tops_from(hard.tops@, d));
        lemma_tops_from_no_lower(easy.tops@, hard.tops@, d);
    }
    assert forall|r: int| 0 <= r < easy.wanted@.len() implies easy.wanted@[r]
        <= hard.wanted@[r] by {
        assert(easy.wanted@[r] == less[r].points);
        assert(hard.wanted@[r] == more[r].points);
    }
    assert forall|d: int| 0 <= d < DEPTH implies rows_no_worse(
        #[trigger] easy.pieces@[d]@,
        hard.pieces@[d]@,
    ) by {}
}

/// The search is monotone in what is wanted: where the search for `more`
/// finds a set, the search in the same lists, on the same weapon, for
/// `less`, which asks for no more points of any skill, finds one too. This
/// holds where the decorations are well paired: each takes points from one
/// skill at most, the one that the solver closes after its own.
pub proof fn lemma_find_monotone(
    head: Seq<&Armor>,
    body: Seq<&Armor>,
    arms: Seq<&Armor>,
    waist: Seq<&Armor>,
    legs: Seq<&Armor>,
    charms: Seq<&Charm>,
    decorations: Seq<&Decoration>,
    less: Seq<Requirement>,
    more: Seq<Requirement>,
    weapon_slots: usize,
    max_results: int,
    easy: SearchContext,
    hard: SearchContext,
    mine: Seq<FindResult>,
    theirs: Seq<FindResult>,
)
    requires
        asks_no_more(less, more),
        max_results >= 1,
        prepared(easy, head, body, arms, waist, legs, charms, decorations, less, weapon_slots),
        prepared(hard, head, body, arms, waist, legs, charms, decorations, more, weapon_slots),
        easy.tables.well_paired(easy.decorations@),
        easy.found(mine, max_results),
        hard.found(theirs, max_results),
        theirs.len() > 0,
    ensures
        mine.len() > 0,
{
    lemma_prepared_no_harder(
        head,
        body,
        arms,
        waist,
        legs,
        charms,
        head,
        body,
        arms,
        waist,
        legs,
        charms,
        decorations,
        less,
        more,
        weapon_slots,
        weapon_slots,
        easy,
        hard,
    );
    easy.lemma_no_harder_finds(&hard, max_results, mine, theirs);
}

/// The search is monotone in the slots: where the search finds nothing, it
/// finds nothing for the same skills with the same decorations either when
/// the weapon and the items have no more slots and grant the same points.
/// This holds where the decorations are well paired: each takes points from
/// one skill at most, the one that the solver closes after its own.
pub proof fn lemma_find_monotone_in_slots(
    head: Seq<&Armor>,
    body: Seq<&Armor>,
    arms: Seq<&Armor>,
    waist: Seq<&Armor>,
    legs: Seq<&Armor>,
    charms: Seq<&Charm>,
    tight_head: Seq<&Armor>,
    tight_body: Seq<&Armor>,
    tight_arms: Seq<&Armor>,
    tight_waist: Seq<&Armor>,
    tight_legs: Seq<&Armor>,
    tight_charms: Seq<&Charm>,
    decorations: Seq<&Decoration>,
    requirements: Seq<Requirement>,
    weapon_slots: usize,
    fewer_slots: usize,
    max_results: int,
    roomy: SearchContext,
    tight: SearchContext,
    mine: Seq<FindResult>,
    theirs: Seq<FindResult>,
)
    requires
        fewer_slots <= weapon_slots,
        no_more_slots(tight_head, head, requirements),
        no_more_slots(tight_body, body, requirements),
        no_more_slots(tight_arms, arms, requirements),
        no_more_slots(tight_waist, waist, requirements),
        no_more_slots(tight_legs, legs, requirements),
        no_more_slots(tight_charms, charms, requirements),
        max_results >= 1,
        prepared(
            roomy,
            head,
            body,
            arms,
            waist,
            legs,
            charms,
            decorations,
            requirements,
            weapon_slots,
        ),
        prepared(
            tight,
            tight_head,
            tight_body,
            tight_arms,
            tight_waist,
            tight_legs,
            tight_charms,
            decorations,
            requirements,
            fewer_slots,
        ),
        roomy.tables.well_paired(roomy.decorations@),
        roomy.found(mine, max_results),
        tight.found(theirs, max_results),
        mine.len() == 0,
    ensures
        theirs.len() == 0,
{
    lemma_prepared_no_harder(
        head,
        body,
        arms,
        waist,
        legs,
        charms,
        tight_head,
        tight_body,
        tight_arms,
        tight_waist,
        tight_legs,
        tight_charms,
        decorations,
        requirements,
        requirements,
        weapon_slots,
        fewer_slots,
        roomy,
        tight,
    );
    if theirs.len() > 0 {
        roomy.lemma_no_harder_finds(&tight, max_results, mine, theirs);
    }
}

} // verus!

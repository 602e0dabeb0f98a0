use asf::algorithm::decorate::DecorationTables;
use asf::algorithm::resolve::closes_all;
use asf::algorithm::rows::Row;
use asf::algorithm::score::row_scores;
use asf::algorithm::settle::{fresh_cache, Tuning};
use asf::algorithm::weights::get_weight_for_sum;

fn row(id: usize, slots: i32, points: Vec<i32>) -> Row {
    Row { id, slots, points, score: 0 }
}

fn attack_pool() -> Vec<Row> {
    vec![row(0, 1, vec![2]), row(1, 3, vec![5])]
}

fn tables_for(pool: &Vec<Row>, skills: usize) -> DecorationTables {
    DecorationTables::build(pool, skills)
}

#[test]
fn two_one_slot_decorations_reach_four_points() {
    let pool = attack_pool();
    let tables = tables_for(&pool, 1);
    let found = tables.check_decorations(&vec![4], &[2, 0, 0]);
    assert_eq!(found, Some(vec![(2, 0)]));
}

#[test]
fn one_slot_is_not_enough_for_four_points() {
    let pool = attack_pool();
    let tables = tables_for(&pool, 1);
    assert_eq!(tables.check_decorations(&vec![4], &[1, 0, 0]), None);
}

#[test]
fn a_three_slot_piece_takes_the_large_decoration() {
    let pool = attack_pool();
    let tables = tables_for(&pool, 1);
    assert_eq!(tables.check_decorations(&vec![4], &[0, 0, 1]), Some(vec![(1, 1)]));
}

#[test]
fn a_closed_deficit_needs_no_decoration() {
    let pool = attack_pool();
    let tables = tables_for(&pool, 1);
    assert_eq!(tables.check_decorations(&vec![0], &[0, 0, 0]), Some(vec![]));
    assert_eq!(tables.check_decorations(&vec![-3], &[1, 1, 1]), Some(vec![]));
}

#[test]
fn no_requirement_needs_no_decoration() {
    let pool: Vec<Row> = vec![row(0, 1, vec![])];
    let tables = tables_for(&pool, 0);
    assert_eq!(tables.check_decorations(&vec![], &[0, 0, 0]), Some(vec![]));
}

#[test]
fn a_skill_without_decorations_cannot_be_closed() {
    let pool = vec![row(0, 1, vec![2, 0])];
    let tables = tables_for(&pool, 2);
    assert_eq!(tables.check_decorations(&vec![0, 1], &[5, 5, 5]), None);
    assert_eq!(tables.check_decorations(&vec![2, 0], &[1, 0, 0]), Some(vec![(1, 0)]));
}

#[test]
fn the_tables_hold_the_best_decoration_of_each_size() {
    let pool = vec![
        row(0, 1, vec![1]),
        row(1, 1, vec![3]),
        row(2, 1, vec![3]),
        row(3, 2, vec![4]),
        row(4, 1, vec![2]),
    ];
    let tables = tables_for(&pool, 1);
    assert_eq!(tables.order, vec![0]);
    assert_eq!(tables.summands, vec![[3, 4, 127]]);
    assert_eq!(tables.present, vec![[true, true, false]]);
    assert_eq!(tables.picks[0][0], 2);
    assert_eq!(tables.picks[0][1], 3);
}

#[test]
fn a_skill_is_followed_by_the_skill_that_pays_for_it() {
    // skill 1 is granted by a decoration that takes a point from skill 0
    let pool = vec![row(0, 1, vec![2, 0]), row(1, 1, vec![-1, 3])];
    let tables = tables_for(&pool, 2);
    assert_eq!(tables.order, vec![1, 0]);
    assert_eq!(tables.linked, vec![true, false]);
    assert_eq!(tables.drain[1], [1, 0, 0]);
    // three points of skill 1 cost one point of skill 0, which is then one short
    assert_eq!(tables.check_decorations(&vec![0, 3], &[1, 0, 0]), None);
    assert_eq!(tables.check_decorations(&vec![0, 3], &[2, 0, 0]), Some(vec![(1, 1), (1, 0)]));
    // a surplus of skill 0 pays for it
    assert_eq!(tables.check_decorations(&vec![-1, 3], &[1, 0, 0]), Some(vec![(1, 1)]));
}

#[test]
fn scores_are_sixths_of_points_per_slot() {
    let pool = attack_pool();
    // 2 points on one slot are 12 sixths; 5 points on three slots are 10.
    assert_eq!(row_scores(&pool, 1), vec![12]);
    let none: Vec<Row> = vec![];
    assert_eq!(row_scores(&none, 2), vec![0, 0]);
    // a skill that decorations only take from has the score zero
    let big = vec![row(0, 3, vec![5, -3]), row(1, 2, vec![3, -1])];
    assert_eq!(row_scores(&big, 2), vec![10, 0]);
}

#[test]
fn weights_for_five_points() {
    let got = get_weight_for_sum(5, &[1, 2, 3], &[100, 100, 100]);
    assert_eq!(
        got,
        vec![[0, 0, 2], [0, 1, 1], [2, 0, 1], [0, 3, 0], [1, 2, 0], [3, 1, 0], [5, 0, 0]]
    );
}

#[test]
fn weights_for_a_closed_deficit() {
    assert_eq!(get_weight_for_sum(0, &[1, 2, 3], &[0, 0, 0]), vec![[0, 0, 0]]);
    assert_eq!(get_weight_for_sum(-4, &[1, 2, 3], &[5, 5, 5]), vec![[0, 0, 0]]);
}

#[test]
fn weights_within_the_slots() {
    // two slots in all, no piece of two or three slots
    assert_eq!(get_weight_for_sum(4, &[2, 127, 5], &[2, 0, 0]), vec![[2, 0, 0]]);
    assert_eq!(get_weight_for_sum(4, &[2, 127, 5], &[1, 0, 0]), Vec::<[i32; 3]>::new());
}

#[test]
fn a_strong_decoration_is_not_used_twice() {
    // a decoration of any size grants 11 points: 22 points take two of them,
    // of two sizes
    assert_eq!(
        get_weight_for_sum(22, &[11, 11, 11], &[9, 9, 9]),
        vec![[0, 1, 1], [1, 0, 1], [1, 1, 0]]
    );
    assert_eq!(get_weight_for_sum(22, &[11, 1, 1], &[1, 0, 0]), Vec::<[i32; 3]>::new());
    assert_eq!(
        get_weight_for_sum(11, &[11, 11, 11], &[9, 9, 9]),
        vec![[0, 0, 1], [0, 1, 0], [1, 0, 0]]
    );
}

#[test]
fn monotone_in_deficit_and_slots_on_examples() {
    let pool = attack_pool();
    let tables = tables_for(&pool, 1);
    let budgets = [[0u32, 0, 0], [1, 0, 0], [2, 0, 0], [0, 1, 0], [0, 0, 1], [1, 1, 1]];
    for slots in budgets {
        let mut last = true;
        for deficit in 0..12 {
            let now = tables.check_decorations(&vec![deficit], &slots).is_some();
            assert!(last || !now, "a greater deficit cannot be easier");
            last = now;
        }
    }
    for deficit in 0..12 {
        let small = tables.check_decorations(&vec![deficit], &[1, 0, 0]).is_some();
        let large = tables.check_decorations(&vec![deficit], &[1, 1, 1]).is_some();
        assert!(!small || large, "more slots cannot hurt");
    }
}

#[test]
fn the_store_changes_no_answer() {
    let pool = vec![row(0, 1, vec![2, 0]), row(1, 1, vec![0, 3]), row(2, 3, vec![0, 8])];
    let tables = tables_for(&pool, 2);
    let tuning = Tuning::standard();
    let mut cache = fresh_cache(tuning.cache_capacity);
    // 10 * 9 = 90 is above 80: the store is used
    for slots in [[3u32, 1, 0], [9, 0, 0], [6, 0, 1], [8, 0, 0], [5, 0, 1], [4, 1, 1]] {
        let plain = tables.check_decorations(&vec![10, 9], &slots);
        let first = tables.settle(&vec![10, 9], &slots, &mut cache, &tuning);
        let second = tables.settle(&vec![10, 9], &slots, &mut cache, &tuning);
        assert_eq!(plain, first);
        assert_eq!(first, second);
    }
    // 15 * 15 = 225 is above 200: a failure is kept for smaller sets of slots
    let slots = [4u32, 1, 1];
    assert_eq!(tables.settle(&vec![15, 15], &slots, &mut cache, &tuning), None);
    for fewer in [[3u32, 1, 1], [4, 0, 1], [5, 0, 1], [6, 0, 1], [6, 1, 0], [5, 2, 0]] {
        assert_eq!(tables.settle(&vec![15, 15], &fewer, &mut cache, &tuning), None);
        assert_eq!(tables.check_decorations(&vec![15, 15], &fewer), None);
    }
}

#[test]
fn easy_deficits_are_solved_without_the_store() {
    let pool = attack_pool();
    let tables = tables_for(&pool, 1);
    let tuning = Tuning::standard();
    let mut cache = fresh_cache(0);
    assert_eq!(tables.settle(&vec![4], &[2, 0, 0], &mut cache, &tuning), Some(vec![(2, 0)]));
    assert_eq!(tables.settle(&vec![4], &[1, 0, 0], &mut cache, &tuning), None);
}

#[test]
fn the_tables_tell_whether_the_pairs_are_in_order() {
    let pool = vec![row(0, 1, vec![2, 0]), row(1, 1, vec![-1, 3])];
    let tables = tables_for(&pool, 2);
    assert_eq!(tables.pairs, vec![None, Some(0)]);
    assert!(tables.is_well_paired(&pool));
    // two groups take points from skill 0: only one of them can stand before it
    let crowded = vec![row(0, 1, vec![2, 0, 0]), row(1, 1, vec![-1, 3, 0]), row(2, 1, vec![-1, 0, 3])];
    let tables = tables_for(&crowded, 3);
    assert_eq!(tables.pairs, vec![None, Some(0), Some(0)]);
    assert_eq!(tables.order, vec![1, 0, 2]);
    assert_eq!(tables.linked, vec![true, false, false]);
    assert!(!tables.is_well_paired(&crowded));
    // a decoration that takes two points is counted with two points
    let greedy = vec![row(0, 1, vec![2, 0]), row(1, 1, vec![-2, 3])];
    let tables = tables_for(&greedy, 2);
    assert_eq!(tables.drain[1], [2, 0, 0]);
    assert!(tables.is_well_paired(&greedy));
    assert_eq!(tables.check_decorations(&vec![0, 6], &[3, 0, 0]), None);
    assert_eq!(tables.check_decorations(&vec![0, 6], &[4, 0, 0]), Some(vec![(2, 1), (2, 0)]));
}

#[test]
fn skills_that_take_from_each_other_stand_side_by_side() {
    let ring = vec![row(0, 1, vec![2, -1]), row(1, 1, vec![-1, 2])];
    let tables = tables_for(&ring, 2);
    assert_eq!(tables.pairs, vec![Some(1), Some(0)]);
    assert_eq!(tables.order, vec![0, 1]);
    assert_eq!(tables.linked, vec![true, false]);
    // what the second takes from the first is not counted
    assert!(!tables.is_well_paired(&ring));
}

#[test]
fn skills_without_decorations_are_closed_last() {
    let pool = vec![row(0, 1, vec![0, 0, 2]), row(1, 1, vec![0, 0, 3])];
    let tables = tables_for(&pool, 3);
    assert_eq!(tables.grouped, vec![false, false, true]);
    assert_eq!(tables.order, vec![2, 0, 1]);
    assert_eq!(tables.linked, vec![false, false, false]);
    assert_eq!(tables.scores, vec![0, 0, 18]);
}

#[test]
fn no_more_large_decorations_than_large_pieces() {
    // decorations of two slots only: a piece of one slot is of no use
    let pool = vec![row(0, 2, vec![3])];
    let tables = tables_for(&pool, 1);
    assert_eq!(tables.check_decorations(&vec![6], &[4, 0, 0]), None);
    assert_eq!(tables.check_decorations(&vec![6], &[0, 2, 0]), Some(vec![(2, 0)]));
    assert_eq!(tables.check_decorations(&vec![6], &[0, 1, 1]), Some(vec![(2, 0)]));
    assert_eq!(tables.check_decorations(&vec![6], &[2, 1, 0]), None);
}

#[test]
fn the_least_slots_that_the_skills_need() {
    let pool = vec![row(0, 1, vec![2, 0]), row(1, 3, vec![0, 5])];
    let tables = tables_for(&pool, 2);
    // 12 sixths per slot for the first skill, 10 for the second
    assert_eq!(tables.scores, vec![12, 10]);
    assert_eq!(tables.least_slots(&vec![4, 0]), 2);
    assert_eq!(tables.least_slots(&vec![5, -3]), 3);
    assert_eq!(tables.least_slots(&vec![4, 5]), 2 + 3);
    assert_eq!(tables.least_slots(&vec![0, 6]), 4);
}

#[test]
fn a_surplus_that_pays_for_a_drain_counts_through_the_store_too() {
    // one decoration: one slot, ten points of the first skill, one point
    // taken from the second, which has a surplus of nine
    let pool = vec![row(0, 1, vec![10, -1])];
    let tables = tables_for(&pool, 2);
    assert_eq!(tables.linked, vec![true, false]);
    let tuning = Tuning::standard();
    let mut cache = fresh_cache(tuning.cache_capacity);
    let plain = tables.check_decorations(&vec![90, -9], &[9, 0, 0]);
    assert_eq!(plain, Some(vec![(9, 0)]));
    // 90 is above 80: the store is used, first empty, then holding the answer
    assert_eq!(tables.settle(&vec![90, -9], &[9, 0, 0], &mut cache, &tuning), plain);
    assert_eq!(tables.settle(&vec![90, -9], &[9, 0, 0], &mut cache, &tuning), plain);
    // a smaller surplus does not pay for nine points
    assert_eq!(tables.check_decorations(&vec![90, -8], &[9, 0, 0]), None);
    assert_eq!(tables.settle(&vec![90, -8], &[9, 0, 0], &mut cache, &tuning), None);
    assert_eq!(tables.settle(&vec![90, -9], &[9, 0, 0], &mut cache, &tuning), plain);
}

#[test]
fn the_store_changes_no_answer_for_any_tuning() {
    let pool = vec![row(0, 1, vec![10, -1]), row(1, 1, vec![0, 2]), row(2, 2, vec![0, 5])];
    let tables = tables_for(&pool, 2);
    let always = Tuning { cache_capacity: 100, cache_from: 0, guess_from: 0 };
    let never = Tuning { cache_capacity: 0, cache_from: i64::MAX, guess_from: i64::MAX };
    let mut cache = fresh_cache(always.cache_capacity);
    let mut none = fresh_cache(never.cache_capacity);
    for round in 0..2 {
        for first in [0, 5, 30, 90] {
            for second in [-9, -3, 0, 4] {
                for slots in [[9u32, 0, 0], [3, 1, 0], [12, 2, 1], [0, 0, 0]] {
                    let d = vec![first, second];
                    let plain = tables.check_decorations(&d, &slots);
                    assert_eq!(tables.settle(&d, &slots, &mut cache, &always), plain, "round {}", round);
                    assert_eq!(tables.settle(&d, &slots, &mut none, &never), plain);
                }
            }
        }
    }
}

#[test]
fn decorations_close_deficits_by_the_points_that_they_grant_and_take() {
    let pool = vec![row(0, 1, vec![2, -1]), row(1, 1, vec![-1, 2])];
    // one of each: one point of either skill
    assert!(closes_all(&pool, &vec![(1, 0), (1, 1)], &vec![1, 1]));
    assert!(!closes_all(&pool, &vec![(1, 0), (1, 1)], &vec![1, 2]));
    assert!(!closes_all(&pool, &vec![(1, 0), (1, 1)], &vec![2, 1]));
    // one of the second alone takes a point from the first skill
    assert!(!closes_all(&pool, &vec![(1, 1)], &vec![0, 1]));
    assert!(closes_all(&pool, &vec![(1, 1)], &vec![-1, 2]));
    assert!(closes_all(&pool, &vec![(3, 0)], &vec![6, -3]));
    assert!(!closes_all(&pool, &vec![(3, 0)], &vec![6, -2]));
    // nothing closes what is closed, and nothing else
    assert!(closes_all(&pool, &vec![], &vec![0, -5]));
    assert!(!closes_all(&pool, &vec![], &vec![0, 1]));
    let great = vec![row(0, 1, vec![i32::MAX]), row(1, 1, vec![i32::MIN])];
    assert!(closes_all(&great, &vec![(2, 0)], &vec![2 * (i32::MAX as i64)]));
    assert!(!closes_all(&great, &vec![(2, 0)], &vec![2 * (i32::MAX as i64) + 1]));
    assert!(closes_all(&great, &vec![(2, 0), (1, 1)], &vec![i32::MAX as i64 - 1]));
    assert!(!closes_all(&great, &vec![(2, 0), (1, 1)], &vec![i32::MAX as i64]));
}

use asf::algorithm::trim::{trim, trim_places, Candidate};
use asf::algorithm::wide::{less, one, plus, times, zero};
use asf::armor::Armor;
use asf::charms::Charm;
use asf::requirements::Requirement;

fn item(slots: i32, defence: u32, points: Vec<i32>) -> Candidate {
    Candidate { slots, defence, points }
}

fn sorted(mut v: Vec<usize>) -> Vec<usize> {
    v.sort();
    v
}

#[test]
fn of_equal_items_the_best_defence_is_kept() {
    let items = vec![item(1, 10, vec![3]), item(1, 30, vec![3]), item(1, 20, vec![3])];
    let kept = trim_places(&items, &vec![true, true, true], &[12], 10);
    assert_eq!(kept, vec![1]);
}

#[test]
fn of_equal_items_with_equal_defence_the_last_is_kept() {
    let items = vec![item(2, 30, vec![3]), item(2, 30, vec![3])];
    assert_eq!(trim_places(&items, &vec![true, true], &[12], 10), vec![1]);
}

#[test]
fn a_dominated_item_is_not_kept() {
    let items = vec![
        item(1, 50, vec![1, 1]),
        item(2, 10, vec![2, 2]),
        item(0, 10, vec![5, 0]),
        item(2, 10, vec![0, 3]),
    ];
    let kept = trim_places(&items, &vec![true; 4], &[6, 6], 10);
    assert_eq!(sorted(kept), vec![1, 2, 3]);
}

#[test]
fn the_best_piece_of_three_slots_is_always_kept() {
    // the second item beats the first in every respect but defence
    let items = vec![item(3, 100, vec![0]), item(3, 50, vec![5])];
    let kept = trim_places(&items, &vec![true, true], &[6], 10);
    assert_eq!(kept, vec![0, 1]);
}

#[test]
fn where_nothing_is_eligible_the_first_item_is_kept() {
    let items = vec![item(1, 10, vec![3]), item(1, 30, vec![4])];
    assert_eq!(trim_places(&items, &vec![false, false], &[12], 10), vec![0]);
}

#[test]
fn the_filter_decides_what_is_eligible() {
    let items = vec![item(1, 10, vec![3]), item(1, 30, vec![4]), item(1, 5, vec![9])];
    assert_eq!(trim_places(&items, &vec![true, true, false], &[12], 10), vec![1]);
}

#[test]
fn the_pick_of_each_skill_comes_before_the_rest() {
    // three survivors: none is as good as another in both skills
    let items = vec![item(0, 1, vec![5, 0]), item(0, 1, vec![3, 3]), item(0, 1, vec![0, 5])];
    let kept = trim_places(&items, &vec![true; 3], &[6, 6], 10);
    assert_eq!(kept, vec![0, 2, 1]);
    // room for two: the picks of the two skills
    assert_eq!(trim_places(&items, &vec![true; 3], &[6, 6], 2), vec![0, 2]);
    // the picks are kept though there is room for one only
    assert_eq!(trim_places(&items, &vec![true; 3], &[6, 6], 1), vec![0, 2]);
}

#[test]
fn the_room_is_filled_by_ascending_key() {
    // one skill at one point per slot: the key is the slots and the points
    let items = vec![
        item(0, 1, vec![9]),
        item(1, 1, vec![6]),
        item(2, 1, vec![3]),
        item(3, 1, vec![0]),
    ];
    // the pick of the skill is item 0, the item of three slots is item 3;
    // keys of the others, in slots: 1 + 6 and 2 + 3
    assert_eq!(trim_places(&items, &vec![true; 4], &[6], 10), vec![3, 0, 2, 1]);
    assert_eq!(trim_places(&items, &vec![true; 4], &[6], 3), vec![3, 0, 2]);
}

#[test]
fn trims_charms_by_a_closure() {
    let charms = vec![
        Charm { slots: 0, skill_1: "Attack".into(), points_1: 3, ..Default::default() },
        Charm { slots: 0, skill_1: "Attack".into(), points_1: 5, ..Default::default() },
        Charm { slots: 1, skill_1: "Guard".into(), points_1: 9, ..Default::default() },
    ];
    let wanted = vec![Requirement { name: "Attack".into(), points: 10 }];
    let (places, kept) = trim(&charms, |c: &Charm| c.is_valid(&wanted), &wanted, &[6], 10);
    assert_eq!(places, vec![1]);
    assert_eq!(kept.len(), 1);
    assert_eq!(kept[0].points_1, 5);
}

#[test]
fn trims_armor_with_defence() {
    let piece = |name: &str, defence: i32, points: i32, slots: i32| Armor {
        name: name.into(),
        defence_min: defence,
        slots,
        ability_1_name: "Attack".into(),
        ability_1_points: Some(points),
        ..Default::default()
    };
    let pieces =
        vec![piece("a", 10, 4, 1), piece("b", 30, 4, 1), piece("c", 20, 4, 1), piece("d", 99, 2, 1)];
    let wanted = vec![Requirement { name: "Attack".into(), points: 10 }];
    let (places, kept) = trim(&pieces, |_p: &Armor| true, &wanted, &[6], 10);
    assert_eq!(places, vec![1]);
    assert_eq!(kept[0].name, "b");
}

#[test]
fn the_room_is_filled_by_points_over_scores_and_slots() {
    // two skills at a half and at a third of a point per slot: 3 and 2 sixths
    // a point of the first is worth two slots, a point of the second three
    let items = vec![
        item(0, 1, vec![9, 0]),  // pick of the first skill
        item(0, 1, vec![0, 9]),  // pick of the second skill
        item(1, 1, vec![2, 1]),  // key 1 + 4 + 3
        item(2, 1, vec![1, 1]),  // key 2 + 2 + 3
        item(0, 1, vec![1, 2]),  // key 0 + 2 + 6
        item(1, 1, vec![3, 0]),  // key 1 + 6 + 0
    ];
    let kept = trim_places(&items, &vec![true; 6], &[3, 2], 10);
    assert_eq!(kept[..2], [0, 1]);
    assert_eq!(kept[2..], [3, 5, 2, 4]);
}

#[test]
fn a_skill_that_no_decoration_grants_adds_nothing_to_the_key() {
    let items = vec![
        item(0, 1, vec![9, 0]),
        item(0, 1, vec![5, 5]), // key 5
        item(1, 1, vec![3, 9]), // key 1 + 3
        item(2, 1, vec![1, 7]), // key 2 + 1
    ];
    // the picks: item 0 for the first skill, item 2 for the second
    let kept = trim_places(&items, &vec![true; 4], &[6, 0], 10);
    assert_eq!(kept, vec![0, 2, 3, 1]);
}

#[test]
fn the_keys_are_exact_for_many_skills_and_great_scores() {
    // thirty skills, each at 1000003 sixths of a point per slot: the scale has
    // some six hundred bits
    let skills = 30;
    let scores = vec![1_000_003i64; skills];
    let with = |slots: i32, at: usize, points: i32| {
        let mut p = vec![0; skills];
        p[at] = points;
        // a point of the first skill and none of the last, so that no item
        // is as good as another in every respect
        p[skills - 1] = 100 - points;
        item(slots, 1, p)
    };
    // every item has a hundred points in all: the keys differ by the slots
    let items = vec![with(2, 0, 50), with(0, 1, 60), with(1, 2, 70), with(0, 3, 80)];
    let kept = trim_places(&items, &vec![true; 4], &scores, 100);
    // the item of two slots is worth most for every skill; the others follow
    // by their slots, and by place where these are equal
    assert_eq!(kept, vec![0, 1, 3, 2]);
    // now the points decide between items of equal slots
    let few = |points: i32, more: i32| {
        let mut p = vec![0; skills];
        p[0] = points;
        p[1] = more;
        item(0, 1, p)
    };
    // keys in sixths over the score: 3 + 3, 5 + 0, 0 + 5, 1 + 4
    let items = vec![few(3, 3), few(5, 0), few(0, 5), few(1, 4)];
    let kept = trim_places(&items, &vec![true; 4], &scores, 100);
    // picks: item 1 for the first skill, item 2 for the second; then by key:
    // item 3 with five points, item 0 with six
    assert_eq!(kept, vec![1, 2, 3, 0]);
}

#[test]
fn keys_of_scores_without_a_common_divisor() {
    // a point is worth 6/7 of a slot in the first skill and 6/11 in the
    // second: keys over the scale 77
    let items = vec![
        item(0, 1, vec![20, 0]),  // pick of the first skill
        item(0, 1, vec![0, 20]),  // pick of the second skill
        item(0, 1, vec![7, 3]),   // 6 + 18/11 = 7.63..
        item(0, 1, vec![3, 9]),   // 18/7 + 54/11 = 7.48..
        item(1, 1, vec![8, 0]),   // 1 + 48/7 = 7.85..
        item(1, 1, vec![9, -1]),  // 1 + 54/7 - 6/11 = 8.16..
        item(2, 1, vec![7, -2]),  // 2 + 6 - 12/11 = 6.90..
    ];
    let kept = trim_places(&items, &vec![true; 7], &[7, 11], 100);
    assert_eq!(kept, vec![0, 1, 6, 3, 2, 4, 5]);
}

#[test]
fn numbers_of_any_size() {
    let big = times(&one(), u64::MAX);
    let bigger = times(&big, u64::MAX);
    assert!(less(&big, &bigger));
    assert!(!less(&bigger, &big));
    assert!(!less(&big, &big));
    assert!(less(&zero(), &one()));
    assert!(!less(&one(), &zero()));
    // (2^64 - 1) * 2 = (2^64 - 1) + (2^64 - 1)
    let twice = times(&big, 2);
    let sum = plus(&big, &big);
    assert!(!less(&twice, &sum) && !less(&sum, &twice));
    // one more is more
    assert!(less(&sum, &plus(&sum, &one())));
    // 3 * 5 * 7 = 105 < 106
    let product = times(&times(&times(&one(), 3), 5), 7);
    assert!(less(&product, &times(&one(), 106)));
    assert!(!less(&product, &times(&one(), 105)));
    assert!(less(&times(&one(), 104), &product));
    // leading zeros do not count
    assert!(!less(&times(&zero(), 9), &zero()));
    assert!(!less(&zero(), &times(&zero(), 9)));
}

use asf::algorithm::find::{find, prepare};
use asf::algorithm::resolve::FindResult;
use asf::algorithm::settle::Tuning;
use asf::armor::Armor;
use asf::charms::Charm;
use asf::decorations::Decoration;
use asf::requirements::Requirement;
use asf::skillpoint::SkillPoint;

fn piece(name: &str, skills: &[(&str, i32)], slots: i32) -> Armor {
    let mut a = Armor { name: name.into(), slots, ..Default::default() };
    if let Some((n, p)) = skills.first() {
        a.ability_1_name = (*n).into();
        a.ability_1_points = Some(*p);
    }
    if let Some((n, p)) = skills.get(1) {
        a.ability_2_name = (*n).into();
        a.ability_2_points = Some(*p);
    }
    a
}

fn charm(skill: &str, points: i32, slots: i32) -> Charm {
    Charm { slots, skill_1: skill.into(), points_1: points, ..Default::default() }
}

fn jewel(name: &str, slots: i32, skill: &str, points: i32, minus: Option<(&str, i32)>) -> Decoration {
    let mut d = Decoration {
        name: name.into(),
        slots,
        skill_1_name: skill.into(),
        skill_1_points: points,
        ..Default::default()
    };
    if let Some((n, p)) = minus {
        d.skill_2_name = n.into();
        d.skill_2_points = Some(p);
    }
    d
}

fn want(name: &str, points: i32) -> Requirement {
    Requirement { name: name.into(), points }
}

struct Lists {
    head: Vec<Armor>,
    body: Vec<Armor>,
    arms: Vec<Armor>,
    waist: Vec<Armor>,
    legs: Vec<Armor>,
    charms: Vec<Charm>,
    decorations: Vec<Decoration>,
}

fn run(lists: &Lists, wanted: &[Requirement], weapon_slots: usize, max: usize) -> Vec<FindResult> {
    let head: Vec<&Armor> = lists.head.iter().collect();
    let body: Vec<&Armor> = lists.body.iter().collect();
    let arms: Vec<&Armor> = lists.arms.iter().collect();
    let waist: Vec<&Armor> = lists.waist.iter().collect();
    let legs: Vec<&Armor> = lists.legs.iter().collect();
    let charms: Vec<&Charm> = lists.charms.iter().collect();
    let decorations: Vec<&Decoration> = lists.decorations.iter().collect();
    find(&head, &body, &arms, &waist, &legs, &charms, &decorations, wanted, weapon_slots, max)
}

fn usable(slots: i32) -> i32 {
    if (1..=3).contains(&slots) {
        slots
    } else {
        0
    }
}

/// Checks that a result reaches what is wanted and fits its slots.
fn check(lists: &Lists, wanted: &[Requirement], weapon_slots: usize, r: &FindResult) {
    let body = &lists.body[r.body_index];
    let pick = |list: &Vec<Armor>, i: Option<usize>| -> Armor {
        match i {
            Some(i) => list[i].clone(),
            None => body.clone(),
        }
    };
    let worn = vec![
        body.clone(),
        pick(&lists.head, r.head_index),
        pick(&lists.arms, r.arms_index),
        pick(&lists.waist, r.waist_index),
        pick(&lists.legs, r.legs_index),
    ];
    let talisman = &lists.charms[r.charms_index];
    for w in wanted {
        let mut points = talisman.points(&w.name);
        for a in &worn {
            points += a.points(&w.name);
        }
        for (count, place) in &r.decorations_count_indices {
            points += *count as i32 * lists.decorations[*place].points(&w.name);
        }
        assert!(points >= w.points, "{} points of {}, {} wanted", points, w.name, w.points);
    }
    let mut capacity = usable(weapon_slots as i32) + usable(talisman.slots);
    for a in &worn {
        capacity += usable(a.slots);
    }
    let mut used = 0;
    for (count, place) in &r.decorations_count_indices {
        used += *count as i32 * lists.decorations[*place].slots;
    }
    assert!(used <= capacity, "{} slots used of {}", used, capacity);
}

fn small() -> Lists {
    Lists {
        head: vec![piece("helm", &[("Attack", 2)], 0)],
        body: vec![piece("mail", &[("Attack", 3)], 1)],
        arms: vec![piece("vambraces", &[("Attack", 1)], 2)],
        waist: vec![piece("tasset", &[("Attack", 0)], 0)],
        legs: vec![piece("greaves", &[("Attack", 1)], 3)],
        charms: vec![charm("Attack", 1, 1)],
        decorations: vec![
            jewel("attack jewel 1", 1, "Attack", 2, None),
            jewel("attack jewel 3", 3, "Attack", 5, None),
        ],
    }
}

#[test]
fn every_result_reaches_the_wanted_skill_and_fits_its_slots() {
    let lists = small();
    for points in [1, 5, 8, 10, 12, 15, 18, 20] {
        let wanted = vec![want("Attack", points)];
        for weapon_slots in 0..4 {
            let results = run(&lists, &wanted, weapon_slots, 200);
            for r in &results {
                check(&lists, &wanted, weapon_slots, r);
            }
        }
    }
}

#[test]
fn what_cannot_be_reached_gives_no_result() {
    let lists = small();
    assert!(run(&lists, &[want("Attack", 60)], 3, 200).is_empty());
    assert!(run(&lists, &[want("Guard", 1)], 3, 200).is_empty());
}

#[test]
fn no_more_results_than_asked_for() {
    let lists = small();
    let wanted = vec![want("Attack", 5)];
    let all = run(&lists, &wanted, 0, 200);
    assert!(all.len() > 1);
    for max in 0..all.len() {
        assert_eq!(run(&lists, &wanted, 0, max).len(), max);
    }
}

#[test]
fn a_piece_that_is_left_out_counts_as_the_body_piece() {
    // head, arms, waist and legs grant nothing: the body piece counts five
    // times
    let lists = Lists {
        head: vec![piece("helm", &[("Attack", 0)], 0)],
        body: vec![piece("mail", &[("Attack", 2)], 0)],
        arms: vec![piece("vambraces", &[("Attack", 0)], 0)],
        waist: vec![piece("tasset", &[("Attack", 0)], 0)],
        legs: vec![piece("greaves", &[("Attack", 0)], 0)],
        charms: vec![charm("Attack", 0, 0)],
        decorations: vec![],
    };
    let wanted = vec![want("Attack", 10)];
    let results = run(&lists, &wanted, 0, 200);
    assert_eq!(results.len(), 1);
    let r = &results[0];
    assert_eq!(
        (r.head_index, r.arms_index, r.waist_index, r.legs_index),
        (None, None, None, None)
    );
    assert_eq!((r.body_index, r.charms_index), (0, 0));
    assert!(r.decorations_count_indices.is_empty());
    check(&lists, &wanted, 0, r);
}

#[test]
fn decorations_close_what_the_pieces_leave_open() {
    let lists = Lists {
        head: vec![piece("helm", &[("Attack", 1)], 1)],
        body: vec![piece("mail", &[("Attack", 1)], 1)],
        arms: vec![piece("vambraces", &[("Attack", 1)], 1)],
        waist: vec![piece("tasset", &[("Attack", 1)], 1)],
        legs: vec![piece("greaves", &[("Attack", 1)], 1)],
        charms: vec![charm("Attack", 1, 0)],
        decorations: vec![jewel("attack jewel 1", 1, "Attack", 1, None)],
    };
    // six points from the pieces and the charm, five slots for five more
    let wanted = vec![want("Attack", 11)];
    // each of head, arms, waist and legs may be left out, and then counts as
    // the body piece, which grants as much: sixteen sets
    let results = run(&lists, &wanted, 0, 200);
    assert_eq!(results.len(), 16);
    assert_eq!(results[0].head_index, Some(0));
    assert_eq!(results[15].head_index, None);
    for r in &results {
        assert_eq!(r.decorations_count_indices, vec![(5, 0)]);
        check(&lists, &wanted, 0, r);
    }
    assert!(run(&lists, &[want("Attack", 12)], 0, 200).is_empty());
    // a weapon slot takes one more
    let more = run(&lists, &[want("Attack", 12)], 1, 200);
    assert_eq!(more.len(), 16);
    assert_eq!(more[0].decorations_count_indices, vec![(6, 0)]);
}

#[test]
fn a_search_without_charms_finds_nothing() {
    let mut lists = small();
    lists.charms.clear();
    assert!(run(&lists, &[want("Attack", 1)], 0, 200).is_empty());
}

#[test]
fn a_search_without_body_pieces_finds_nothing() {
    let mut lists = small();
    lists.body.clear();
    assert!(run(&lists, &[want("Attack", 1)], 0, 200).is_empty());
}

#[test]
fn two_skills_with_a_jewel_that_takes_from_the_other() {
    let lists = Lists {
        head: vec![piece("helm", &[("Attack", 2), ("Guard", 1)], 1)],
        body: vec![piece("mail", &[("Attack", 1), ("Guard", 2)], 2)],
        arms: vec![piece("vambraces", &[("Guard", 2)], 1), piece("gloves", &[("Attack", 3)], 0)],
        waist: vec![piece("tasset", &[("Attack", 1)], 3)],
        legs: vec![piece("greaves", &[("Guard", 1)], 2)],
        charms: vec![charm("Attack", 4, 0), charm("Guard", 4, 1)],
        decorations: vec![
            jewel("attack jewel", 1, "Attack", 1, Some(("Guard", -1))),
            jewel("guard jewel", 1, "Guard", 2, None),
            jewel("guard jewel 2", 2, "Guard", 4, None),
        ],
    };
    for (attack, guard) in [(5, 5), (8, 6), (10, 8), (6, 12), (12, 4)] {
        let wanted = vec![want("Attack", attack), want("Guard", guard)];
        let results = run(&lists, &wanted, 1, 200);
        assert!(!results.is_empty(), "{} and {} can be reached", attack, guard);
        for r in &results {
            check(&lists, &wanted, 1, r);
        }
    }
}

#[test]
fn the_prepared_rows_hold_the_points_of_the_items() {
    let lists = small();
    let head: Vec<&Armor> = lists.head.iter().collect();
    let body: Vec<&Armor> = lists.body.iter().collect();
    let arms: Vec<&Armor> = lists.arms.iter().collect();
    let waist: Vec<&Armor> = lists.waist.iter().collect();
    let legs: Vec<&Armor> = lists.legs.iter().collect();
    let charms: Vec<&Charm> = lists.charms.iter().collect();
    let decorations: Vec<&Decoration> = lists.decorations.iter().collect();
    let wanted = vec![want("Attack", 9)];
    let ctx = prepare(&head, &body, &arms, &waist, &legs, &charms, &decorations, &wanted, 2);
    assert_eq!(ctx.wanted, vec![9]);
    assert_eq!(ctx.weapon_slots, 2);
    // the best jewel grants 2 points on one slot: 12 sixths
    assert_eq!(ctx.best_per_slot, 12);
    assert_eq!(ctx.tables.scores, vec![12]);
    // body: 3 points and one slot worth 2 points
    assert_eq!(ctx.body[0].points, vec![3]);
    assert_eq!(ctx.body[0].score, 5);
    // legs: 1 point and three slots worth 6 points
    assert_eq!(ctx.pieces[4][0].score, 7);
    // tops: charm 3, head 2, arms 5, waist 0, legs 7, body 5
    assert_eq!(ctx.tops, vec![3, 2, 5, 0, 7, 5]);
    // what the categories can add from each on; the body piece may stand in
    assert_eq!(ctx.remaining_scores, vec![3 + 5 + 5 + 5 + 7, 5 + 5 + 5 + 7, 5 + 5 + 7, 5 + 7, 7]);
    let found = ctx.search(200, &Tuning::standard());
    assert!(!found.is_empty());
}

#[test]
fn the_search_finds_the_same_sets_with_and_without_the_store() {
    let lists = Lists {
        head: vec![piece("helm", &[("Attack", 20), ("Guard", 3)], 3)],
        body: vec![piece("mail", &[("Attack", 10), ("Guard", 3)], 3)],
        arms: vec![piece("vambraces", &[("Attack", 10)], 3), piece("gloves", &[("Guard", 4)], 1)],
        waist: vec![piece("tasset", &[("Attack", 10), ("Guard", 3)], 3)],
        legs: vec![piece("greaves", &[("Attack", 5)], 2)],
        charms: vec![charm("Attack", 4, 0), charm("Guard", 4, 1)],
        decorations: vec![
            jewel("attack jewel", 1, "Attack", 10, Some(("Guard", -1))),
            jewel("guard jewel", 1, "Guard", 2, None),
        ],
    };
    let head: Vec<&Armor> = lists.head.iter().collect();
    let body: Vec<&Armor> = lists.body.iter().collect();
    let arms: Vec<&Armor> = lists.arms.iter().collect();
    let waist: Vec<&Armor> = lists.waist.iter().collect();
    let legs: Vec<&Armor> = lists.legs.iter().collect();
    let charms: Vec<&Charm> = lists.charms.iter().collect();
    let decorations: Vec<&Decoration> = lists.decorations.iter().collect();
    let always = Tuning { cache_capacity: 3000, cache_from: 0, guess_from: 0 };
    let never = Tuning { cache_capacity: 0, cache_from: i64::MAX, guess_from: i64::MAX };
    for (attack, guard) in [(150, 6), (140, 9), (149, 12), (160, 3), (100, 12)] {
        let wanted = vec![want("Attack", attack), want("Guard", guard)];
        let ctx = prepare(&head, &body, &arms, &waist, &legs, &charms, &decorations, &wanted, 1);
        let key = |r: &FindResult| {
            (
                r.body_index,
                r.charms_index,
                r.head_index,
                r.arms_index,
                r.waist_index,
                r.legs_index,
                r.decorations_count_indices.clone(),
            )
        };
        let with: Vec<_> = ctx.search(1000, &always).iter().map(key).collect();
        let without: Vec<_> = ctx.search(1000, &never).iter().map(key).collect();
        let standard: Vec<_> = ctx.search(1000, &Tuning::standard()).iter().map(key).collect();
        assert_eq!(with, without);
        assert_eq!(standard, without);
        for r in ctx.search(1000, &always) {
            check(&lists, &wanted, 1, &r);
        }
    }
}

#[test]
fn less_wanted_or_one_slot_more_never_turns_a_find_into_none() {
    let lists = Lists {
        head: vec![piece("helm", &[("Attack", 20), ("Guard", 3)], 3)],
        body: vec![piece("mail", &[("Attack", 10), ("Guard", 3)], 3)],
        arms: vec![piece("vambraces", &[("Attack", 10)], 3), piece("gloves", &[("Guard", 4)], 1)],
        waist: vec![piece("tasset", &[("Attack", 10), ("Guard", 3)], 3)],
        legs: vec![piece("greaves", &[("Attack", 5)], 2)],
        charms: vec![charm("Attack", 4, 0), charm("Guard", 4, 1)],
        decorations: vec![
            jewel("attack jewel", 1, "Attack", 10, Some(("Guard", -1))),
            jewel("guard jewel", 1, "Guard", 2, None),
        ],
    };
    let mut some: usize = 0;
    let mut none: usize = 0;
    for attack in [60, 100, 140, 150, 160, 170, 180, 200] {
        for guard in [0, 6, 9, 12, 15, 18] {
            for weapon_slots in 0..3usize {
                let hard = run(&lists, &[want("Attack", attack), want("Guard", guard)], weapon_slots, 1);
                if hard.is_empty() {
                    none += 1;
                    continue;
                }
                some += 1;
                let more_room = run(
                    &lists,
                    &[want("Attack", attack), want("Guard", guard)],
                    weapon_slots + 1,
                    1,
                );
                assert!(!more_room.is_empty());
                let less = run(
                    &lists,
                    &[want("Attack", attack - 10), want("Guard", guard)],
                    weapon_slots,
                    1,
                );
                assert!(!less.is_empty());
                let less = run(
                    &lists,
                    &[want("Attack", attack), want("Guard", guard - 3)],
                    weapon_slots,
                    1,
                );
                assert!(!less.is_empty());
            }
        }
    }
    assert!(some > 0);
    assert!(none > 0);
}

#[test]
fn items_with_fewer_slots_never_find_what_the_roomier_miss() {
    let lists = |slots: [i32; 5], charm_slots: i32| Lists {
        head: vec![piece("helm", &[("Attack", 20), ("Guard", 3)], slots[0])],
        body: vec![piece("mail", &[("Attack", 10), ("Guard", 3)], slots[1])],
        arms: vec![
            piece("vambraces", &[("Attack", 10)], slots[2]),
            piece("gloves", &[("Guard", 4)], 1.min(slots[2])),
        ],
        waist: vec![piece("tasset", &[("Attack", 10), ("Guard", 3)], slots[3])],
        legs: vec![piece("greaves", &[("Attack", 5)], slots[4])],
        charms: vec![charm("Attack", 4, 0), charm("Guard", 4, charm_slots)],
        decorations: vec![
            jewel("attack jewel", 1, "Attack", 10, Some(("Guard", -1))),
            jewel("guard jewel", 1, "Guard", 2, None),
            jewel("great guard jewel", 3, "Guard", 8, None),
        ],
    };
    let roomy = lists([3, 3, 3, 3, 2], 1);
    let tights = [
        lists([3, 3, 3, 3, 2], 1),
        lists([2, 3, 3, 3, 2], 1),
        lists([3, 2, 3, 2, 2], 0),
        lists([1, 1, 1, 1, 1], 1),
        lists([0, 0, 0, 0, 0], 0),
    ];
    let mut some: usize = 0;
    let mut none: usize = 0;
    for attack in [60, 120, 150, 170, 200] {
        for guard in [0, 9, 15, 21] {
            let wanted = [want("Attack", attack), want("Guard", guard)];
            let with_room = run(&roomy, &wanted, 2, 1);
            for tight in tights.iter() {
                for weapon_slots in 0..3usize {
                    let without = run(tight, &wanted, weapon_slots, 1);
                    if with_room.is_empty() {
                        assert!(without.is_empty());
                        none += 1;
                    } else if !without.is_empty() {
                        some += 1;
                    }
                }
            }
        }
    }
    assert!(some > 0);
    assert!(none > 0);
}

#[test]
fn a_slot_never_counts_against_a_piece() {
    // the only decoration takes from the wanted skill: its score is zero
    let lists = |slots: i32| Lists {
        head: vec![],
        body: vec![piece("mail", &[("Guard", 10)], slots)],
        arms: vec![],
        waist: vec![],
        legs: vec![],
        charms: vec![charm("Guard", 0, 0)],
        decorations: vec![jewel("attack jewel", 1, "Attack", 10, Some(("Guard", -1)))],
    };
    let wanted = [want("Guard", 50)];
    for slots in 0..4 {
        let found = run(&lists(slots), &wanted, 0, 1);
        assert_eq!(found.len(), 1);
        assert!(found[0].decorations_count_indices.is_empty());
        assert_eq!(run(&lists(slots), &[want("Guard", 51)], 0, 1).len(), 0);
    }
}

fn taking_from_each_other(body: &[(&str, i32)]) -> Lists {
    Lists {
        head: vec![],
        body: vec![piece("mail", body, 3)],
        arms: vec![],
        waist: vec![],
        legs: vec![],
        charms: vec![charm("Attack", 0, 0)],
        decorations: vec![
            jewel("attack jewel", 1, "Attack", 2, Some(("Guard", -1))),
            jewel("guard jewel", 1, "Guard", 2, Some(("Attack", -1))),
        ],
    }
}

#[test]
fn a_set_whose_decorations_leave_a_skill_short_is_left_out() {
    let lists = taking_from_each_other(&[]);
    // one attack jewel, then two guard jewels for three points, which take
    // two points of attack: the set is one point short and is no result
    let wanted = [want("Attack", 2), want("Guard", 2)];
    assert!(run(&lists, &wanted, 3, 10).is_empty());
    // one jewel of each grants one point of each skill
    let wanted = [want("Attack", 1), want("Guard", 1)];
    let found = run(&lists, &wanted, 3, 10);
    assert_eq!(found.len(), 1);
    assert_eq!(found[0].decorations_count_indices, vec![(1, 0), (1, 1)]);
    check(&lists, &wanted, 3, &found[0]);
    for attack in 0..6 {
        for guard in 0..6 {
            let wanted = [want("Attack", attack), want("Guard", guard)];
            for r in run(&lists, &wanted, 3, 10) {
                check(&lists, &wanted, 3, &r);
            }
        }
    }
}

#[test]
fn where_decorations_take_from_each_other_less_wanted_can_find_less() {
    let lists = taking_from_each_other(&[]);
    assert_eq!(run(&lists, &[want("Attack", 1), want("Guard", 1)], 3, 10).len(), 1);
    // no attack jewel is asked for, and the guard jewel takes a point
    assert_eq!(run(&lists, &[want("Attack", 0), want("Guard", 1)], 3, 10).len(), 0);
    // the solver counts what the attack jewel takes, not what the guard jewel takes
    let body: Vec<&Armor> = lists.body.iter().collect();
    let charms: Vec<&Charm> = lists.charms.iter().collect();
    let decorations: Vec<&Decoration> = lists.decorations.iter().collect();
    let wanted = [want("Attack", 1), want("Guard", 1)];
    let ctx = prepare(&[], &body, &[], &[], &[], &charms, &decorations, &wanted, 3);
    assert!(!ctx.tables.is_well_paired(&ctx.decorations));
    // with one of the two jewels alone the decorations are well paired
    let ctx = prepare(&[], &body, &[], &[], &[], &charms, &decorations[..1], &wanted, 3);
    assert!(ctx.tables.is_well_paired(&ctx.decorations));
}

#[test]
fn the_store_changes_nothing_where_sets_are_left_out() {
    let lists = taking_from_each_other(&[("Attack", 1)]);
    let body: Vec<&Armor> = lists.body.iter().collect();
    let charms: Vec<&Charm> = lists.charms.iter().collect();
    let decorations: Vec<&Decoration> = lists.decorations.iter().collect();
    let always = Tuning { cache_capacity: 3000, cache_from: 0, guess_from: 0 };
    let never = Tuning { cache_capacity: 0, cache_from: i64::MAX, guess_from: i64::MAX };
    let mut some: usize = 0;
    let mut none: usize = 0;
    for attack in 0..12 {
        for guard in 0..8 {
            let wanted = [want("Attack", attack), want("Guard", guard)];
            let ctx = prepare(&[], &body, &[], &[], &[], &charms, &decorations, &wanted, 3);
            let with = ctx.search(10, &always);
            let without = ctx.search(10, &never);
            assert_eq!(with.len(), without.len());
            for (a, b) in with.iter().zip(without.iter()) {
                assert_eq!(a.body_index, b.body_index);
                assert_eq!(a.charms_index, b.charms_index);
                assert_eq!(a.head_index, b.head_index);
                assert_eq!(a.decorations_count_indices, b.decorations_count_indices);
                check(&lists, &wanted, 3, a);
            }
            if with.is_empty() {
                none += 1;
            } else {
                some += 1;
            }
        }
    }
    assert!(some > 0);
    assert!(none > 0);
}

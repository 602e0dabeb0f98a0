use asf::algorithm::rows::{best_of, createvec, round_up};
use asf::algorithm::score::scores;
use asf::algorithm::search::order_by_score;
use asf::charms::Charm;
use asf::decorations::Decoration;
use asf::requirements::Requirement;

fn want(name: &str, points: i32) -> Requirement {
    Requirement { name: name.into(), points }
}

fn jewel(slots: i32, skill: &str, points: i32, minus: Option<(&str, i32)>) -> Decoration {
    let mut d = Decoration {
        slots,
        skill_1_name: skill.into(),
        skill_1_points: points,
        ..Default::default()
    };
    if let Some((n, p)) = minus {
        d.skill_2_name = n.into();
        d.skill_2_points = Some(p);
    }
    d
}

#[test]
fn scores_of_decorations() {
    let jewels = vec![
        jewel(1, "Attack", 1, Some(("Guard", -1))),
        jewel(2, "Attack", 3, Some(("Guard", -1))),
        jewel(3, "Attack", 4, None),
        jewel(1, "Guard", 2, None),
    ];
    let wanted = vec![want("Attack", 10), want("Guard", 10), want("Health", 10)];
    // attack: 6, 9 and 8 sixths; guard: 12; health: none grants it
    assert_eq!(scores(&wanted, &jewels), vec![9, 12, 0]);
}

#[test]
fn scores_without_decorations_are_zero() {
    assert_eq!(scores(&[want("Attack", 10)], &[]), vec![0]);
    assert_eq!(scores(&[], &[jewel(1, "Attack", 1, None)]), Vec::<i64>::new());
}

#[test]
fn a_skill_that_decorations_only_take_from_has_the_score_zero() {
    let jewels = vec![jewel(1, "Attack", 1, Some(("Guard", -2))), jewel(3, "Attack", 5, Some(("Guard", -1)))];
    assert_eq!(scores(&[want("Guard", 1)], &jewels), vec![0]);
    assert_eq!(scores(&[want("Guard", 1), want("Attack", 1)], &jewels), vec![0, 10]);
    // one decoration that takes from the skill, one that grants it
    let mixed = vec![jewel(1, "Attack", 1, Some(("Guard", -2))), jewel(2, "Guard", 1, None)];
    assert_eq!(scores(&[want("Guard", 1)], &mixed), vec![3]);
}

#[test]
fn sixths_are_rounded_up_to_whole_points() {
    assert_eq!(round_up(0), 0);
    assert_eq!(round_up(1), 1);
    assert_eq!(round_up(6), 1);
    assert_eq!(round_up(7), 2);
    assert_eq!(round_up(-1), 0);
    assert_eq!(round_up(-6), -1);
    assert_eq!(round_up(-7), -1);
    assert_eq!(round_up(6 * (i32::MAX as i128) + 1), i32::MAX);
    assert_eq!(round_up(6 * (i32::MIN as i128) - 1), i32::MIN);
}

#[test]
fn the_best_score_of_none_is_zero() {
    assert_eq!(best_of(&[]), 0);
    assert_eq!(best_of(&[-4]), -4);
    assert_eq!(best_of(&[3, 9, 2]), 9);
}

#[test]
fn rows_of_charms() {
    let charms = vec![
        Charm { slots: 1, skill_1: "Attack".into(), points_1: 4, ..Default::default() },
        Charm {
            slots: 3,
            skill_1: "Guard".into(),
            points_1: 2,
            skill_2: "Attack".into(),
            points_2: Some(-3),
        },
        Charm { slots: 0, skill_1: "Health".into(), points_1: 9, ..Default::default() },
    ];
    let refs: Vec<&Charm> = charms.iter().collect();
    let wanted = vec![want("Attack", 10), want("Guard", 10)];
    // the best skill has 7 sixths of a point per slot
    let (rows, top) = createvec(&refs, &wanted, &[7, 3]);
    assert_eq!(rows.len(), 3);
    assert_eq!((rows[0].id, rows[0].slots, rows[0].points.clone()), (0, 1, vec![4, 0]));
    assert_eq!((rows[1].id, rows[1].slots, rows[1].points.clone()), (1, 3, vec![-3, 2]));
    assert_eq!((rows[2].id, rows[2].slots, rows[2].points.clone()), (2, 0, vec![0, 0]));
    // 4 points and 7 sixths: 31 sixths, rounded up
    assert_eq!(rows[0].score, 6);
    // -1 point and 21 sixths: 15 sixths
    assert_eq!(rows[1].score, 3);
    assert_eq!(rows[2].score, 0);
    assert_eq!(top, 6);
    assert_eq!(order_by_score(&rows), vec![0, 1, 2]);
}

#[test]
fn rows_without_items() {
    let none: Vec<&Charm> = vec![];
    let (rows, top) = createvec(&none, &[want("Attack", 1)], &[6]);
    assert!(rows.is_empty());
    assert_eq!(top, 0);
}

#[test]
fn rows_are_tried_by_descending_score() {
    let charms: Vec<Charm> = [3, 9, 3, 12, 9]
        .iter()
        .map(|p| Charm { skill_1: "Attack".into(), points_1: *p, ..Default::default() })
        .collect();
    let refs: Vec<&Charm> = charms.iter().collect();
    let (rows, top) = createvec(&refs, &[want("Attack", 1)], &[6]);
    assert_eq!(top, 12);
    assert_eq!(order_by_score(&rows), vec![3, 1, 4, 0, 2]);
}

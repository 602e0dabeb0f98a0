use asf::armor::Armor;
use asf::charms::Charm;
use asf::component::Component;
use asf::decorations::Decoration;
use asf::requirements::Requirement;
use asf::skillpoint::{translate_name, SkillPoint};

fn want(name: &str, points: i32) -> Requirement {
    Requirement { name: name.into(), points }
}

fn armor() -> Armor {
    Armor {
        name: "Rathalos Mail".into(),
        sex: 0,
        weapon_type: 1,
        rarity: 5,
        slots: 2,
        hunter_rank: 4,
        village_rank: 6,
        defence_min: 40,
        defence_max: 95,
        ability_1_name: "Attack".into(),
        ability_1_points: Some(3),
        ability_2_name: "Guard".into(),
        ability_2_points: Some(-2),
        ability_3_name: "Health".into(),
        ability_3_points: None,
        material_1_name: "Rathalos Scale".into(),
        material_2_name: "Festival Ticket".into(),
        ..Default::default()
    }
}

fn components() -> Vec<Component> {
    vec![
        Component { name: "Rathalos Scale".into(), special: None },
        Component { name: "Festival Ticket".into(), special: Some("jEvent".into()) },
        Component { name: "Hunter Ticket".into(), special: Some("Event".into()) },
        Component { name: "Festival Ticket".into(), special: None },
    ]
}

#[test]
fn armor_points_by_skill_name() {
    let a = armor();
    assert_eq!(a.points("Attack"), 3);
    assert_eq!(a.points("Guard"), -2);
    assert_eq!(a.points("Health"), 0);
    assert_eq!(a.points("Sharpness"), 0);
    assert_eq!(a.slots(), 2);
    assert_eq!(a.defence(), 40);
    assert_eq!(a.max_defence(), 95);
}

#[test]
fn the_later_skill_of_a_name_counts() {
    let mut a = armor();
    a.ability_5_name = "Attack".into();
    a.ability_5_points = Some(7);
    assert_eq!(a.points("Attack"), 7);
    // the empty name reads the last skill without a name
    assert_eq!(a.points(""), 0);
}

#[test]
fn components_tell_where_they_come_from() {
    let c = components();
    assert!(!c[0].japanese() && !c[0].event());
    assert!(c[1].japanese() && c[1].event());
    assert!(!c[2].japanese() && c[2].event());
}

#[test]
fn armor_is_japanese_by_its_first_known_material() {
    let a = armor();
    assert!(a.japanese(&components()));
    assert!(!a.japanese(&[]));
    let mut later = components();
    later.swap(1, 3);
    assert!(!a.japanese(&later));
}

#[test]
fn armor_validity() {
    let a = armor();
    let c = components();
    let attack = [want("Attack", 10)];
    // hr, village, min rarity, sex, japanese, weapon type
    assert!(a.is_valid(4, 1, 1, 1, true, 1, &c, &attack));
    assert!(a.is_valid(1, 6, 1, 2, true, 1, &c, &attack));
    assert!(!a.is_valid(3, 5, 1, 1, true, 1, &c, &attack), "both ranks too low");
    assert!(!a.is_valid(4, 6, 1, 1, false, 1, &c, &attack), "japanese material");
    assert!(!a.is_valid(4, 6, 1, 1, true, 2, &c, &attack), "other weapon type");
    assert!(!a.is_valid(4, 6, 6, 1, true, 1, &c, &attack), "too common");
    assert!(!a.is_valid(4, 6, 1, 1, true, 1, &c, &[want("Guard", 1)]), "no points wanted");
    assert!(a.is_valid(4, 6, 1, 1, true, 1, &c, &[]), "nothing wanted");
    let mut female = armor();
    female.sex = 2;
    assert!(!female.is_valid(4, 6, 1, 1, true, 1, &c, &attack));
    assert!(female.is_valid(4, 6, 1, 2, true, 1, &c, &attack));
}

#[test]
fn charm_points_and_validity() {
    let c = Charm {
        slots: 2,
        skill_1: "Attack".into(),
        points_1: 4,
        skill_2: "Guard".into(),
        points_2: Some(-3),
    };
    assert_eq!(c.points("Attack"), 4);
    assert_eq!(c.points("Guard"), -3);
    assert_eq!(c.points("Health"), 0);
    assert_eq!((c.slots(), c.defence(), c.max_defence()), (2, 0, 0));
    assert!(c.is_valid(&[want("Health", 1), want("Attack", 1)]));
    assert!(!c.is_valid(&[want("Guard", 1)]));
    assert!(!c.is_valid(&[]));
    let three = Charm { slots: 3, ..Default::default() };
    assert!(three.is_valid(&[]));
}

#[test]
fn charm_in_one_line() {
    let c = Charm {
        slots: 2,
        skill_1: "Attack".into(),
        points_1: 4,
        skill_2: "Guard".into(),
        points_2: Some(-13),
    };
    assert_eq!(c.text(), "Attack 4, Guard -13 ○ ○");
    let plain = Charm { slots: 0, skill_1: "Health".into(), points_1: 10, ..Default::default() };
    assert_eq!(plain.text(), "Health 10");
}

#[test]
fn decoration_points_and_validity() {
    let d = Decoration {
        name: "Attack Jewel".into(),
        slots: 1,
        hunter_rank: 3,
        village_rank: 4,
        skill_1_name: "Attack".into(),
        skill_1_points: 1,
        skill_2_name: "Guard".into(),
        skill_2_points: Some(-1),
        ..Default::default()
    };
    assert_eq!(d.points("Attack"), 1);
    assert_eq!(d.points("Guard"), -1);
    assert_eq!(d.points("Health"), 0);
    assert_eq!((d.slots(), d.defence(), d.max_defence()), (1, 0, 0));
    assert!(d.is_valid(3, 1, false, &[], &[want("Attack", 5)]));
    assert!(d.is_valid(1, 4, false, &[], &[want("Attack", 5)]));
    assert!(!d.is_valid(2, 3, false, &[], &[want("Attack", 5)]));
    assert!(!d.is_valid(9, 9, false, &[], &[want("Guard", 5)]));
    assert!(!d.is_valid(9, 9, false, &[], &[]));
}

#[test]
fn names_are_translated_by_the_first_entry() {
    let table = vec![
        ("Attack".to_string(), "Angriff".to_string()),
        ("Guard".to_string(), "Abwehr".to_string()),
        ("Attack".to_string(), "Attacke".to_string()),
    ];
    let mut name = "Attack".to_string();
    translate_name(&mut name, &table);
    assert_eq!(name, "Angriff");
    let mut unknown = "Health".to_string();
    translate_name(&mut unknown, &table);
    assert_eq!(unknown, "Health");
}

#[test]
fn items_translate_their_skill_names() {
    let table = vec![
        ("Attack".to_string(), "Angriff".to_string()),
        ("Guard".to_string(), "Abwehr".to_string()),
    ];
    let mut a = armor();
    a.translate_skills(&table);
    assert_eq!(a.ability_1_name, "Angriff");
    assert_eq!(a.ability_2_name, "Abwehr");
    assert_eq!(a.ability_3_name, "Health");
    assert_eq!(a.name, "Rathalos Mail");
    assert_eq!(a.points("Angriff"), 3);
    let mut c = Charm { skill_1: "Guard".into(), points_1: 2, ..Default::default() };
    c.translate_skills(&table);
    assert_eq!(c.skill_1, "Abwehr");
    let mut d = Decoration {
        skill_1_name: "Attack".into(),
        skill_2_name: "Guard".into(),
        ..Default::default()
    };
    d.translate_skills(&table);
    assert_eq!((d.skill_1_name.as_str(), d.skill_2_name.as_str()), ("Angriff", "Abwehr"));
}

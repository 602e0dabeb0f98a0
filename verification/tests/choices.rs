use asf::algorithm::resolve::FindResult;
use asf::armor::Armor;
use asf::plan::{is_addition, is_excluded, remap_result, wanted_requirements};
use asf::requirements::Requirement;
use asf::skill::Skill;
use asf::state::{contains_fuzzy, ArmorState, RelicArmorSkill, Settings};
use asf::types::{ArmorType, GatheringHallRank, Language, Sex, WeaponType};

fn skill(name: &str, attribute: &str, points: i32, category: Option<&str>) -> Skill {
    Skill {
        name: name.into(),
        name_attribute: attribute.into(),
        points,
        category: category.map(|c| c.to_string()),
        ..Default::default()
    }
}

#[test]
fn the_lists_of_choices() {
    assert_eq!(
        Language::all(),
        vec![
            Language::German,
            Language::English,
            Language::Spanish,
            Language::French,
            Language::Italian,
            Language::Japanese
        ]
    );
    let ranks = GatheringHallRank::all();
    assert_eq!(ranks.len(), 13);
    assert_eq!(ranks[0], GatheringHallRank::HR1);
    for (place, rank) in ranks.iter().enumerate().skip(1) {
        assert_eq!(rank.number() as usize, place);
    }
    assert_eq!(
        ArmorType::all(),
        vec![ArmorType::Head, ArmorType::Arms, ArmorType::Chest, ArmorType::Waist, ArmorType::Legs]
    );
}

#[test]
fn the_names_of_choices() {
    assert_eq!(Language::German.name(), "Deutsch");
    assert_eq!(Language::French.name(), "Français");
    assert_eq!(Language::Japanese.name(), "日本語");
    assert_eq!(Language::Spanish.name(), "Español");
    assert_eq!(Language::Italian.name(), "Italiano");
    assert_eq!(Language::English.name(), "English");
    assert_eq!(GatheringHallRank::HR4.name(), "HR4");
    assert_eq!(GatheringHallRank::G2.name(), "G2");
    assert_eq!(GatheringHallRank::All.name(), "All");
    assert_eq!(WeaponType::Marksman.name(), "Marksman");
    assert_eq!(ArmorType::Chest.name(), "Chest");
    assert_eq!(Sex::Female.name(), "Female");
}

#[test]
fn the_numbers_of_choices() {
    assert_eq!(GatheringHallRank::HR1.number(), 1);
    assert_eq!(GatheringHallRank::HR8.number(), 8);
    assert_eq!(GatheringHallRank::G1.number(), 9);
    assert_eq!(GatheringHallRank::All.number(), 12);
    assert_eq!(
        (WeaponType::Both.number(), WeaponType::Melee.number(), WeaponType::Marksman.number()),
        (0, 1, 2)
    );
    assert_eq!((Sex::Male.number(), Sex::Female.number()), (1, 2));
}

#[test]
fn the_defaults() {
    assert_eq!(Language::default(), Language::English);
    assert_eq!(GatheringHallRank::default(), GatheringHallRank::HR1);
    assert_eq!(WeaponType::default(), WeaponType::Melee);
    assert_eq!(ArmorType::default(), ArmorType::Head);
    assert_eq!(Sex::default(), Sex::Male);
    let s = Settings::default();
    assert_eq!(s.language, Language::German);
    assert_eq!(s.gathering_hall_rank, GatheringHallRank::All);
    assert_eq!((s.village_rank, s.min_rarity, s.trim_count, s.weapon_slots), (10, 1, 20, 0));
    assert_eq!((s.weapon_type, s.sex), (WeaponType::Melee, Sex::Male));
    assert!(s.weapon_skill.is_none() && s.skills_needed.is_empty() && s.parts_excluded.is_empty());
    assert!(s.skill_filter.is_empty());
    assert!(RelicArmorSkill::default().is_empty());
}

#[test]
fn skills_are_grouped_by_attribute() {
    let skills = vec![
        skill("Attack Up (S)", "Attack", 10, Some("Offence")),
        skill("Guard +1", "Guard", 10, Some("Defence")),
        skill("Attack Up (L)", "Attack", 20, Some("Offence")),
        skill("Torso Up", "Torso Up", 1, Some("12")),
        skill("Health +20", "Health", 10, None),
        skill("Attack Down", "Attack", -10, Some("Curse")),
    ];
    let (mut groups, types) = Skill::group(&skills);
    groups.sort_by(|a, b| a.0.cmp(&b.0));
    let names: Vec<(String, Vec<String>)> = groups
        .iter()
        .map(|(k, v)| (k.clone(), v.iter().map(|s| s.name.clone()).collect()))
        .collect();
    assert_eq!(
        names,
        vec![
            (
                "Attack".to_string(),
                vec![
                    "Attack Up (S)".to_string(),
                    "Attack Up (L)".to_string(),
                    "Attack Down".to_string()
                ]
            ),
            ("Guard".to_string(), vec!["Guard +1".to_string()]),
            ("Health".to_string(), vec!["Health +20".to_string()]),
            ("Torso Up".to_string(), vec!["Torso Up".to_string()]),
        ]
    );
    // sorted, each once, numbers left out
    assert_eq!(types, vec!["All", "Curse", "Defence", "Offence"]);
}

#[test]
fn categories_that_are_numbers_are_left_out() {
    let names = ["7", "-7", "+7", "007", "2147483647", "-2147483648", "-0"];
    let texts = ["2147483648", "-2147483649", "", "+", "-", "1 ", " 1", "1_000", "1.0", "0x10", "١٢"];
    let mut skills = Vec::new();
    for c in names.iter().chain(texts.iter()) {
        skills.push(skill("s", "Attack", 1, Some(c)));
    }
    let (_, types) = Skill::group(&skills);
    let mut expected: Vec<String> = texts.iter().map(|s| s.to_string()).collect();
    expected.sort();
    expected.insert(0, "All".to_string());
    assert_eq!(types, expected);
}

#[test]
fn no_skills_give_the_one_category() {
    let (groups, types) = Skill::group(&[]);
    assert!(groups.is_empty());
    assert_eq!(types, vec!["All"]);
}

#[test]
fn skills_and_their_categories() {
    let mut s = skill("Attack Up (S)", "Attack", 10, Some("Offence"));
    s.category_2 = Some("Blade".into());
    assert!(s.has_category(Some("All")));
    assert!(s.has_category(Some("Offence")));
    assert!(s.has_category(Some("Blade")));
    assert!(!s.has_category(Some("Defence")));
    assert!(!s.has_category(None));
    let bare = skill("Health", "Health", 10, None);
    assert!(bare.has_category(None));
    assert!(bare.has_category(Some("All")));
    assert!(!bare.has_category(Some("Offence")));
    assert!(!s.is_relic_skill());
    s.max_weapon_skill_points = Some(0);
    assert!(s.is_relic_skill());
}

#[test]
fn relic_skill_values() {
    let slots = RelicArmorSkill::Slots(2);
    assert_eq!((slots.get_skill_name(), slots.is_empty(), slots.slots(), slots.points()), ("", false, 2, 0));
    let skill = RelicArmorSkill::Skill(Requirement { name: "Attack".into(), points: 4 });
    assert_eq!(
        (skill.get_skill_name(), skill.is_empty(), skill.slots(), skill.points()),
        ("Attack", false, 0, 4)
    );
    assert!(RelicArmorSkill::Skill(Requirement { name: "Attack".into(), points: 0 }).is_empty());
    assert!(RelicArmorSkill::Slots(0).is_empty());
}

#[test]
fn a_piece_in_one_line() {
    let piece = Armor {
        name: "Relic Helm".into(),
        slots: 3,
        ability_1_name: "Attack".into(),
        ability_1_points: Some(-120),
        ..Default::default()
    };
    assert_eq!(ArmorState::piece_to_string(&(ArmorType::Head, piece)), "Relic Helm Attack -120 ○ ○ ○");
    let bare = Armor { name: "Cap".into(), slots: -1, ..Default::default() };
    assert_eq!(ArmorState::piece_to_string(&(ArmorType::Head, bare)), "Cap");
    let zero = Armor {
        name: "Cap".into(),
        slots: 1,
        ability_1_name: "Guard".into(),
        ability_1_points: Some(0),
        ..Default::default()
    };
    assert_eq!(ArmorState::piece_to_string(&(ArmorType::Head, zero)), "Cap Guard 0 ○");
}

#[test]
fn fuzzy_search() {
    assert!(contains_fuzzy("Attack Up (Large)", "atl"));
    assert!(contains_fuzzy("Attack Up (Large)", "ATTACK"));
    assert!(contains_fuzzy("Attack Up (Large)", ""));
    assert!(!contains_fuzzy("Attack Up (Large)", "lat"));
    assert!(!contains_fuzzy("", "a"));
    // a character may be found where the one before it was found
    assert!(contains_fuzzy("Guard", "gg"));
    assert!(!contains_fuzzy("Guard", "x"));
}

#[test]
fn what_is_wanted() {
    let attack = vec![
        skill("Attack Up (S)", "Attack", 10, None),
        skill("Attack Up (L)", "Attack", 20, None),
    ];
    let guard = vec![skill("Guard +1", "Guard", 10, None)];
    let needed =
        vec![(true, 1, attack.clone()), (false, 0, guard.clone()), (true, 0, guard.clone())];
    let weapon = Some(Requirement { name: "Attack".into(), points: 4 });
    assert_eq!(
        wanted_requirements(&needed, &weapon),
        vec![
            Requirement { name: "Attack".into(), points: 16 },
            Requirement { name: "Guard".into(), points: 10 }
        ]
    );
    assert_eq!(
        wanted_requirements(&needed, &None),
        vec![
            Requirement { name: "Attack".into(), points: 20 },
            Requirement { name: "Guard".into(), points: 10 }
        ]
    );
    assert!(wanted_requirements(&vec![], &weapon).is_empty());
}

#[test]
fn skills_that_can_be_added() {
    let wanted = vec![Requirement { name: "Attack".into(), points: 10 }];
    assert!(is_addition(&skill("Attack Up (L)", "Attack", 20, None), &wanted));
    assert!(!is_addition(&skill("Attack Up (S)", "Attack", 10, None), &wanted));
    assert!(!is_addition(&skill("Attack Down", "Attack", -10, None), &wanted));
    assert!(is_addition(&skill("Guard +1", "Guard", 10, None), &wanted));
    assert!(!is_addition(&skill("None", "Guard", 0, None), &wanted));
}

#[test]
fn excluded_names() {
    let excluded = vec!["Relic Helm".to_string(), "Cap".to_string()];
    assert!(is_excluded(&excluded, &"Cap".to_string()));
    assert!(!is_excluded(&excluded, &"cap".to_string()));
    assert!(!is_excluded(&vec![], &"Cap".to_string()));
}

#[test]
fn places_are_mapped_back() {
    let mut r = FindResult {
        head_index: Some(1),
        body_index: 0,
        arms_index: None,
        waist_index: Some(5),
        legs_index: Some(0),
        charms_index: 2,
        decorations_count_indices: vec![(2, 1), (1, 0)],
    };
    remap_result(
        &mut r,
        &vec![10, 11],
        &vec![20],
        &vec![30],
        &vec![40],
        &vec![50],
        &vec![60, 61, 62],
        &vec![70, 71],
    );
    assert_eq!(r.head_index, Some(11));
    assert_eq!(r.body_index, 20);
    assert_eq!(r.arms_index, None);
    assert_eq!(r.waist_index, None, "a place that the map does not know");
    assert_eq!(r.legs_index, Some(50));
    assert_eq!(r.charms_index, 62);
    assert_eq!(r.decorations_count_indices, vec![(2, 71), (1, 70)]);
}

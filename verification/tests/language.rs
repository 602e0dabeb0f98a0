use asf::armor::Armor;
use asf::charms::Charm;
use asf::decorations::Decoration;
use asf::localize::{localize_armor, localize_charms, localize_decorations, localize_skills};
use asf::skill::Skill;

fn skill(name: &str, attribute: &str) -> Skill {
    Skill { name: name.into(), name_attribute: attribute.into(), points: 10, ..Default::default() }
}

fn lines(text: &[&str]) -> Vec<String> {
    text.iter().map(|s| s.to_string()).collect()
}

#[test]
fn skills_take_the_names_of_the_language() {
    let mut skills = vec![
        skill("Attack Up (S)", "Attack"),
        skill("Guard +1", "Guard"),
        skill("Attack Up (L)", "Attack"),
        skill("Health +20", "Health"),
    ];
    let file = lines(&["Angriff", "Abwehr", "Leben", "Tempo", "", "Angriff+1", "Abwehr+1", "Angriff+2"]);
    let table = localize_skills(&mut skills, &file);
    assert_eq!(
        table,
        vec![
            ("Attack".to_string(), "Angriff".to_string()),
            ("Guard".to_string(), "Abwehr".to_string()),
            ("Health".to_string(), "Leben".to_string())
        ]
    );
    let names: Vec<(&str, &str)> =
        skills.iter().map(|s| (s.name.as_str(), s.name_attribute.as_str())).collect();
    assert_eq!(
        names,
        vec![
            ("Angriff+1", "Angriff"),
            ("Abwehr+1", "Abwehr"),
            ("Angriff+2", "Angriff"),
            ("Health +20", "Leben")
        ]
    );
    assert!(skills.iter().all(|s| s.points == 10));
}

#[test]
fn a_file_without_an_empty_line_names_attributes_only() {
    let mut skills = vec![skill("Attack Up (S)", "Attack")];
    let table = localize_skills(&mut skills, &lines(&["Angriff", "Abwehr"]));
    assert_eq!(table, vec![("Attack".to_string(), "Angriff".to_string())]);
    assert_eq!(skills[0].name, "Attack Up (S)");
    assert_eq!(skills[0].name_attribute, "Angriff");
}

#[test]
fn no_skills_and_no_lines() {
    let mut skills: Vec<Skill> = vec![];
    assert!(localize_skills(&mut skills, &vec![]).is_empty());
    assert!(localize_skills(&mut skills, &lines(&["", ""])).is_empty());
}

#[test]
fn items_take_the_names_of_the_language() {
    let table = vec![("Attack".to_string(), "Angriff".to_string())];
    let piece = |name: &str| Armor {
        name: name.into(),
        slots: 2,
        ability_1_name: "Attack".into(),
        ability_1_points: Some(3),
        ability_2_name: "Guard".into(),
        ..Default::default()
    };
    let mut parts = vec![piece("Helm"), piece("Cap"), piece("Hood")];
    localize_armor(&mut parts, &lines(&["Helm (de)", "Kappe"]), &table);
    let got: Vec<(&str, &str, &str, i32)> = parts
        .iter()
        .map(|p| (p.name.as_str(), p.ability_1_name.as_str(), p.ability_2_name.as_str(), p.slots))
        .collect();
    assert_eq!(got, vec![("Helm (de)", "Angriff", "Guard", 2), ("Kappe", "Angriff", "Guard", 2)]);

    let mut jewels = vec![Decoration {
        name: "Attack Jewel".into(),
        slots: 1,
        skill_1_name: "Attack".into(),
        skill_1_points: 1,
        ..Default::default()
    }];
    localize_decorations(&mut jewels, &lines(&["Angriffsjuwel", "more"]), &table);
    assert_eq!(jewels.len(), 1);
    assert_eq!((jewels[0].name.as_str(), jewels[0].skill_1_name.as_str()), ("Angriffsjuwel", "Angriff"));

    let mut charms =
        vec![Charm { slots: 1, skill_1: "Guard".into(), skill_2: "Attack".into(), ..Default::default() }];
    localize_charms(&mut charms, &table);
    assert_eq!((charms[0].skill_1.as_str(), charms[0].skill_2.as_str()), ("Guard", "Angriff"));
}

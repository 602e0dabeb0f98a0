//! Armour pieces.

use crate::charms::grants_any;
use crate::component::Component;
use crate::requirements::Requirement;
use crate::skillpoint::{translate, translate_name, SkillPoint};
use crate::text::same_text;
use vstd::prelude::*;

verus! {

/// An armour piece: up to five skills, up to three slots, and what it takes
/// to wear and to make it.
#[derive(Debug, PartialEq, Eq, Hash, Clone, Default)]
pub struct Armor {
    pub name: String,
    pub sex: i32,
    pub weapon_type: i32,
    pub rarity: i32,
    pub slots: i32,
    pub hunter_rank: i32,
    pub village_rank: i32,
    pub defence_min: i32,
    pub defence_max: i32,
    pub defence_fire: i32,
    pub defence_water: i32,
    pub defence_thunder: i32,
    pub defence_ice: i32,
    pub defence_dragon: i32,
    pub ability_1_name: String,
    pub ability_1_points: Option<i32>,
    pub ability_2_name: String,
    pub ability_2_points: Option<i32>,
    pub ability_3_name: String,
    pub ability_3_points: Option<i32>,
    pub ability_4_name: String,
    pub ability_4_points: Option<i32>,
    pub ability_5_name: String,
    pub ability_5_points: Option<i32>,
    pub material_1_name: String,
    pub material_1_count: Option<i32>,
    pub material_2_name: String,
    pub material_2_count: Option<i32>,
    pub material_3_name: String,
    pub material_3_count: Option<i32>,
    pub material_4_name: String,
    pub material_4_count: Option<i32>,
}

/// The points that an optional entry stands for: none counts as zero.
pub open spec fn points_or_zero(points: Option<i32>) -> int {
    match points {
        Some(p) => p as int,
        None => 0,
    }
}

/// The first component named `name`, looking from `from` on, comes from an
/// event held in Japan only; false when no component has that name.
pub open spec fn material_is_japanese(components: Seq<Component>, name: Seq<char>, from: int) -> bool
    decreases components.len() - from,
{
    if from < 0 || from >= components.len() {
        false
    } else if components[from].name@ == name {
        components[from].is_japanese()
    } else {
        material_is_japanese(components, name, from + 1)
    }
}

fn or_zero(points: Option<i32>) -> (r: i32)
    ensures
        r == points_or_zero(points),
{
    match points {
        Some(p) => p,
        None => 0,
    }
}

fn japanese_material(components: &[Component], name: &String) -> (r: bool)
    ensures
        r == material_is_japanese(components@, name@, 0),
{
    let mut i: usize = 0;
    while i < components.len()
        invariant
            i <= components.len(),
            material_is_japanese(components@, name@, 0) == material_is_japanese(
                components@,
                name@,
                i as int,
            ),
        decreases components.len() - i,
    {
        if components[i].name == *name {
            return components[i].japanese();
        }
        i += 1;
    }
    false
}

impl Armor {
    /// One of the materials of the piece comes from an event held in Japan
    /// only.
    pub open spec fn is_japanese(&self, components: Seq<Component>) -> bool {
        ||| material_is_japanese(components, self.material_1_name@, 0)
        ||| material_is_japanese(components, self.material_2_name@, 0)
        ||| material_is_japanese(components, self.material_3_name@, 0)
        ||| material_is_japanese(components, self.material_4_name@, 0)
    }

    /// The skill names of the piece are those of `before`, looked up in
    /// `translation`; all else but the name of the piece is as in `before`.
    pub open spec fn skills_translated(&self, before: &Self, translation: Seq<(String, String)>) -> bool {
        &&& self.ability_1_name@ == translate(translation, before.ability_1_name@)
        &&& self.ability_2_name@ == translate(translation, before.ability_2_name@)
        &&& self.ability_3_name@ == translate(translation, before.ability_3_name@)
        &&& self.ability_4_name@ == translate(translation, before.ability_4_name@)
        &&& self.ability_5_name@ == translate(translation, before.ability_5_name@)
        &&& self.sex == before.sex
        &&& self.weapon_type == before.weapon_type
        &&& self.rarity == before.rarity
        &&& self.slots == before.slots
        &&& self.hunter_rank == before.hunter_rank
        &&& self.village_rank == before.village_rank
        &&& self.defence_min == before.defence_min
        &&& self.defence_max == before.defence_max
        &&& self.defence_fire == before.defence_fire
        &&& self.defence_water == before.defence_water
        &&& self.defence_thunder == before.defence_thunder
        &&& self.defence_ice == before.defence_ice
        &&& self.defence_dragon == before.defence_dragon
        &&& self.ability_1_points == before.ability_1_points
        &&& self.ability_2_points == before.ability_2_points
        &&& self.ability_3_points == before.ability_3_points
        &&& self.ability_4_points == before.ability_4_points
        &&& self.ability_5_points == before.ability_5_points
        &&& self.material_1_name == before.material_1_name
        &&& self.material_1_count == before.material_1_count
        &&& self.material_2_name == before.material_2_name
        &&& self.material_2_count == before.material_2_count
        &&& self.material_3_name == before.material_3_name
        &&& self.material_3_count == before.material_3_count
        &&& self.material_4_name == before.material_4_name
        &&& self.material_4_count == before.material_4_count
    }

    /// The hunter may wear and make the piece.
    pub open spec fn is_allowed(
        &self,
        hr: i32,
        village: i32,
        min_rarity: i32,
        sex: i32,
        japanese: bool,
        weapon_type: i32,
        components: Seq<Component>,
    ) -> bool {
        !((self.hunter_rank > hr && self.village_rank > village) || (self.sex != 0 && self.sex
            != sex) || (self.weapon_type != 0 && self.weapon_type != weapon_type) || (
        self.is_japanese(components) && !japanese) || self.rarity < min_rarity)
    }

    /// A piece is worth a look when the hunter may wear and make it and,
    /// where skills are wanted, it grants points for one of them.
    pub fn is_valid(
        &self,
        hr: i32,
        village: i32,
        min_rarity: i32,
        sex: i32,
        japanese: bool,
        weapon_type: i32,
        components: &[Component],
        requirements: &[Requirement],
    ) -> (r: bool)
        ensures
            r == (self.is_allowed(hr, village, min_rarity, sex, japanese, weapon_type, components@)
                && (requirements@.len() == 0 || grants_any(self, requirements@, 0))),
    {
        if (self.hunter_rank > hr && self.village_rank > village) || (self.sex != 0 && self.sex
            != sex) || (self.weapon_type != 0 && self.weapon_type != weapon_type) || (
        self.japanese(components) && !japanese) || self.rarity < min_rarity {
            return false;
        }
        if requirements.len() == 0 {
            return true;
        }
        let mut i: usize = 0;
        while i < requirements.len()
            invariant
                i <= requirements.len(),
                requirements@.len() != 0,
                self.is_allowed(hr, village, min_rarity, sex, japanese, weapon_type, components@),
                !exists|j: int| 0 <= j < i && self.points_of(requirements@[j].name@) > 0,
            decreases requirements.len() - i,
        {
            if self.points(requirements[i].name.as_str()) > 0 {
                return true;
            }
            i += 1;
        }
        false
    }

    /// Tells whether one of the materials of the piece comes from an event
    /// held in Japan only.
    pub fn japanese(&self, components: &[Component]) -> (r: bool)
        ensures
            r == self.is_japanese(components@),
    {
        japanese_material(components, &self.material_1_name) || japanese_material(
            components,
            &self.material_2_name,
        ) || japanese_material(components, &self.material_3_name) || japanese_material(
            components,
            &self.material_4_name,
        )
    }
}

impl SkillPoint for Armor {
    open spec fn points_of(&self, ability: Seq<char>) -> int {
        if ability == self.ability_5_name@ {
            points_or_zero(self.ability_5_points)
        } else if ability == self.ability_4_name@ {
            points_or_zero(self.ability_4_points)
        } else if ability == self.ability_3_name@ {
            points_or_zero(self.ability_3_points)
        } else if ability == self.ability_2_name@ {
            points_or_zero(self.ability_2_points)
        } else if ability == self.ability_1_name@ {
            points_or_zero(self.ability_1_points)
        } else {
            0
        }
    }

    open spec fn slot_count(&self) -> int {
        self.slots as int
    }

    open spec fn defence_value(&self) -> int {
        self.defence_min as u32 as int
    }

    open spec fn max_defence_value(&self) -> int {
        self.defence_max as u32 as int
    }

    open spec fn is_translation_of(&self, before: &Self, translation: Seq<(String, String)>) -> bool {
        &&& self.skills_translated(before, translation)
        &&& self.name == before.name
    }

    fn points(&self, ability: &str) -> (r: i32) {
        if same_text(ability, self.ability_5_name.as_str()) {
            or_zero(self.ability_5_points)
        } else if same_text(ability, self.ability_4_name.as_str()) {
            or_zero(self.ability_4_points)
        } else if same_text(ability, self.ability_3_name.as_str()) {
            or_zero(self.ability_3_points)
        } else if same_text(ability, self.ability_2_name.as_str()) {
            or_zero(self.ability_2_points)
        } else if same_text(ability, self.ability_1_name.as_str()) {
            or_zero(self.ability_1_points)
        } else {
            0
        }
    }

    fn slots(&self) -> (r: i32) {
        self.slots
    }

    fn translate_skills(&mut self, translation: &Vec<(String, String)>) {
        translate_name(&mut self.ability_1_name, translation);
        translate_name(&mut self.ability_2_name, translation);
        translate_name(&mut self.ability_3_name, translation);
        translate_name(&mut self.ability_4_name, translation);
        translate_name(&mut self.ability_5_name, translation);
    }

    fn max_defence(&self) -> (r: u32) {
        #[verifier::truncate]
        (self.defence_max as u32)
    }

    fn defence(&self) -> (r: u32) {
        #[verifier::truncate]
        (self.defence_min as u32)
    }
}

} // verus!

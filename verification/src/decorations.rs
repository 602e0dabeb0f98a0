//! Decorations: jewels set into the slots of a set.

use crate::charms::grants_any;
use crate::component::Component;
use crate::requirements::Requirement;
use crate::skillpoint::{translate, translate_name, SkillPoint};
use crate::text::same_text;
use vstd::prelude::*;

verus! {

/// A decoration: it takes one to three slots and grants points for one skill,
/// and often takes points from a second.
#[derive(Default, PartialEq, Eq, Hash, Clone, Debug)]
pub struct Decoration {
    pub name: String,
    pub rarity: i32,
    pub slots: i32,
    pub hunter_rank: i32,
    pub village_rank: i32,
    pub skill_1_name: String,
    pub skill_1_points: i32,
    pub skill_2_name: String,
    pub skill_2_points: Option<i32>,
    pub material_a1_name: String,
    pub material_a1_count: Option<i32>,
    pub material_a2_name: String,
    pub material_a2_count: Option<i32>,
    pub material_a3_name: String,
    pub material_a3_count: Option<i32>,
    pub material_a4_name: String,
    pub material_a4_count: Option<i32>,
    pub material_b1_name: String,
    pub material_b1_count: Option<i32>,
    pub material_b2_name: String,
    pub material_b2_count: Option<i32>,
    pub material_b3_name: String,
    pub material_b3_count: Option<i32>,
    pub material_b4_name: String,
    pub material_b4_count: Option<i32>,
}

impl Decoration {
    /// The skill names of the decoration are those of `before`, looked up in
    /// `translation`; all else but the name of the decoration is as in
    /// `before`.
    pub open spec fn skills_translated(&self, before: &Self, translation: Seq<(String, String)>) -> bool {
        &&& self.skill_1_name@ == translate(translation, before.skill_1_name@)
        &&& self.skill_2_name@ == translate(translation, before.skill_2_name@)
        &&& self.rarity == before.rarity
        &&& self.slots == before.slots
        &&& self.hunter_rank == before.hunter_rank
        &&& self.village_rank == before.village_rank
        &&& self.skill_1_points == before.skill_1_points
        &&& self.skill_2_points == before.skill_2_points
        &&& self.material_a1_name == before.material_a1_name
        &&& self.material_a1_count == before.material_a1_count
        &&& self.material_a2_name == before.material_a2_name
        &&& self.material_a2_count == before.material_a2_count
        &&& self.material_a3_name == before.material_a3_name
        &&& self.material_a3_count == before.material_a3_count
        &&& self.material_a4_name == before.material_a4_name
        &&& self.material_a4_count == before.material_a4_count
        &&& self.material_b1_name == before.material_b1_name
        &&& self.material_b1_count == before.material_b1_count
        &&& self.material_b2_name == before.material_b2_name
        &&& self.material_b2_count == before.material_b2_count
        &&& self.material_b3_name == before.material_b3_name
        &&& self.material_b3_count == before.material_b3_count
        &&& self.material_b4_name == before.material_b4_name
        &&& self.material_b4_count == before.material_b4_count
    }

    /// The decoration can be made at the given ranks.
    pub open spec fn in_rank(&self, hr: i32, village: i32) -> bool {
        !(self.hunter_rank > hr && self.village_rank > village)
    }

    /// A decoration is worth a look when it can be made at the given ranks and
    /// grants points for a wanted skill.
    pub fn is_valid(
        &self,
        hr: i32,
        village: i32,
        _japanese: bool,
        _components: &[Component],
        requirements: &[Requirement],
    ) -> (r: bool)
        ensures
            r == (self.in_rank(hr, village) && grants_any(self, requirements@, 0)),
    {
        if self.hunter_rank > hr && self.village_rank > village {
            return false;
        }
        let mut i: usize = 0;
        while i < requirements.len()
            invariant
                i <= requirements.len(),
                self.in_rank(hr, village),
                !exists|j: int| 0 <= j < i && self.points_of(requirements@[j].name@) > 0,
            decreases requirements.len() - i,
        {
            if self.points(requirements[i].name.as_str()) > 0 {
                return true;
            }
            i += 1;
        }
        false
    }
}

impl SkillPoint for Decoration {
    open spec fn points_of(&self, ability: Seq<char>) -> int {
        if ability == self.skill_1_name@ {
            self.skill_1_points as int
        } else if ability == self.skill_2_name@ {
            match self.skill_2_points {
                Some(p) => p as int,
                None => 0,
            }
        } else {
            0
        }
    }

    open spec fn slot_count(&self) -> int {
        self.slots as int
    }

    open spec fn defence_value(&self) -> int {
        0
    }

    open spec fn max_defence_value(&self) -> int {
        0
    }

    open spec fn is_translation_of(&self, before: &Self, translation: Seq<(String, String)>) -> bool {
        &&& self.skills_translated(before, translation)
        &&& self.name == before.name
    }

    fn points(&self, ability: &str) -> (r: i32) {
        if same_text(ability, self.skill_1_name.as_str()) {
            self.skill_1_points
        } else if same_text(ability, self.skill_2_name.as_str()) {
            match self.skill_2_points {
                Some(p) => p,
                None => 0,
            }
        } else {
            0
        }
    }

    fn slots(&self) -> (r: i32) {
        self.slots
    }

    fn translate_skills(&mut self, translation: &Vec<(String, String)>) {
        translate_name(&mut self.skill_1_name, translation);
        translate_name(&mut self.skill_2_name, translation);
    }

    fn max_defence(&self) -> (r: u32) {
        0
    }

    fn defence(&self) -> (r: u32) {
        0
    }
}

} // verus!

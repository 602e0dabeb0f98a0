//! Charms: the one talisman of a set.

use crate::requirements::Requirement;
use crate::skillpoint::{translate, translate_name, SkillPoint};
use crate::text::{append_rings, decimal, decimal_text, repeated, same_text};
use vstd::string::StringExecFns;
use vstd::prelude::*;

verus! {

/// A charm: up to two skills and up to three slots.
#[derive(Debug, PartialEq, Eq, Hash, Default, Clone)]
pub struct Charm {
    pub slots: i32,
    pub skill_1: String,
    pub points_1: i32,
    pub skill_2: String,
    pub points_2: Option<i32>,
}

/// `item` grants points for one of `requirements` at position `from` or later.
pub open spec fn grants_any<T: SkillPoint>(item: &T, requirements: Seq<Requirement>, from: int) -> bool {
    exists|i: int| from <= i < requirements.len() && item.points_of(requirements[i].name@) > 0
}

impl SkillPoint for Charm {
    open spec fn points_of(&self, ability: Seq<char>) -> int {
        if ability == self.skill_1@ {
            self.points_1 as int
        } else if ability == self.skill_2@ {
            match self.points_2 {
                Some(p) => p as int,
                None => 0,
            }
        } else {
            0
        }
    }

    open spec fn slot_count(&self) -> int {
        self.slots as int
    }

    open spec fn defence_value(&self) -> int {
        0
    }

    open spec fn max_defence_value(&self) -> int {
        0
    }

    open spec fn is_translation_of(&self, before: &Self, translation: Seq<(String, String)>) -> bool {
        &&& self.slots == before.slots
        &&& self.points_1 == before.points_1
        &&& self.points_2 == before.points_2
        &&& self.skill_1@ == translate(translation, before.skill_1@)
        &&& self.skill_2@ == translate(translation, before.skill_2@)
    }

    fn points(&self, ability: &str) -> (r: i32) {
        if same_text(ability, self.skill_1.as_str()) {
            self.points_1
        } else if same_text(ability, self.skill_2.as_str()) {
            match self.points_2 {
                Some(p) => p,
                None => 0,
            }
        } else {
            0
        }
    }

    fn slots(&self) -> (r: i32) {
        self.slots
    }

    fn translate_skills(&mut self, translation: &Vec<(String, String)>) {
        translate_name(&mut self.skill_1, translation);
        translate_name(&mut self.skill_2, translation);
    }

    fn max_defence(&self) -> (r: u32) {
        0
    }

    fn defence(&self) -> (r: u32) {
        0
    }
}

/// A charm in one line: its skills with their points, and a ring for each
/// slot.
pub open spec fn charm_text(c: Charm) -> Seq<char> {
    let second = match c.points_2 {
        Some(points) => ", "@ + c.skill_2@ + " "@ + decimal_text(points as int),
        None => Seq::empty(),
    };
    c.skill_1@ + " "@ + decimal_text(c.points_1 as int) + second + repeated(" ○"@, c.slots as int)
}

impl Charm {
    /// Writes the charm in one line.
    pub fn text(&self) -> (r: String)
        ensures
            r@ == charm_text(*self),
    {
        let mut result = self.skill_1.clone();
        result.append(" ");
        let first = decimal(self.points_1);
        result.append(first.as_str());
        match self.points_2 {
            Some(points) => {
                result.append(", ");
                result.append(self.skill_2.as_str());
                result.append(" ");
                let second = decimal(points);
                result.append(second.as_str());
                assert(result@ =~= self.skill_1@ + " "@ + decimal_text(self.points_1 as int) + (", "@
                    + self.skill_2@ + " "@ + decimal_text(points as int)));
            },
            None => {
                assert(result@ =~= self.skill_1@ + " "@ + decimal_text(self.points_1 as int)
                    + Seq::<char>::empty());
            },
        }
        append_rings(&mut result, self.slots);
        result
    }

    /// A charm is worth a look when it has three slots or grants points for a
    /// wanted skill.
    pub fn is_valid(&self, requirements: &[Requirement]) -> (r: bool)
        ensures
            r == (self.slots == 3 || grants_any(self, requirements@, 0)),
    {
        if self.slots() == 3 {
            return true;
        }
        let mut i: usize = 0;
        while i < requirements.len()
            invariant
                i <= requirements.len(),
                !exists|j: int| 0 <= j < i && self.points_of(requirements@[j].name@) > 0,
            decreases requirements.len() - i,
        {
            if self.points(requirements[i].name.as_str()) > 0 {
                return true;
            }
            i += 1;
        }
        false
    }
}

} // verus!

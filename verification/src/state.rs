//! What the program keeps between searches: the lists of equipment, the
//! hunter's settings, and the relic piece that is being put together.

use crate::armor::Armor;
use crate::charms::Charm;
use crate::component::Component;
use crate::decorations::Decoration;
use crate::requirements::Requirement;
use crate::skill::Skill;
use crate::text::{append_rings, decimal, decimal_text, lower_case, repeated, to_lower};
use crate::types::{ArmorType, GatheringHallRank, Language, Sex, WeaponType};
use vstd::prelude::*;
use vstd::string::StrSliceExecFns;
use vstd::string::StringExecFns;

verus! {

/// The lists of equipment as they were read.
#[derive(Clone)]
pub struct Flags {
    pub components: Vec<Component>,
    pub body: Vec<Armor>,
    pub head: Vec<Armor>,
    pub arms: Vec<Armor>,
    pub waist: Vec<Armor>,
    pub legs: Vec<Armor>,
    pub relic_body: Vec<Armor>,
    pub relic_head: Vec<Armor>,
    pub relic_arms: Vec<Armor>,
    pub relic_waist: Vec<Armor>,
    pub relic_legs: Vec<Armor>,
    pub charms: Vec<Charm>,
    pub decorations: Vec<Decoration>,
    pub skills: Vec<Skill>,
}

/// What the hunter has chosen.
pub struct Settings {
    pub gathering_hall_rank: GatheringHallRank,
    pub language: Language,
    pub village_rank: i32,
    pub weapon_type: WeaponType,
    pub weapon_slots: usize,
    pub weapon_skill: Option<Requirement>,
    pub sex: Sex,
    pub skill_type_index: usize,
    pub skill_filter: String,
    pub skills_needed: Vec<(bool, usize, Vec<Skill>)>,
    pub parts_excluded: Vec<String>,
    pub trim_count: usize,
    pub min_rarity: i32,
}

impl Default for Settings {
    fn default() -> (r: Self)
        ensures
            r.language == Language::German,
            r.gathering_hall_rank == GatheringHallRank::All,
            r.village_rank == 10,
            r.weapon_type == WeaponType::Melee,
            r.weapon_slots == 0,
            r.weapon_skill is None,
            r.sex == Sex::Male,
            r.skill_type_index == 0,
            r.min_rarity == 1,
            r.skill_filter@.len() == 0,
            r.skills_needed@.len() == 0,
            r.parts_excluded@.len() == 0,
            r.trim_count == 20,
    {
        Settings {
            language: Language::German,
            gathering_hall_rank: GatheringHallRank::All,
            village_rank: 10,
            weapon_type: WeaponType::Melee,
            weapon_slots: 0,
            sex: Sex::Male,
            skill_type_index: 0,
            min_rarity: 1,
            skill_filter: String::new(),
            skills_needed: Vec::new(),
            parts_excluded: Vec::new(),
            trim_count: 20,
            weapon_skill: None,
        }
    }
}

/// What a relic piece offers: slots, or points of one skill.
pub enum RelicArmorSkill {
    Slots(i32),
    Skill(Requirement),
}

impl Default for RelicArmorSkill {
    fn default() -> (r: Self)
        ensures
            r == RelicArmorSkill::Slots(0),
    {
        RelicArmorSkill::Slots(0)
    }
}

impl RelicArmorSkill {
    /// The name of the skill, or the empty text where the piece offers
    /// slots.
    pub fn get_skill_name(&self) -> (r: &str)
        ensures
            r@ == (match *self {
                RelicArmorSkill::Slots(_) => ""@,
                RelicArmorSkill::Skill(requirement) => requirement.name@,
            }),
    {
        match &self {
            RelicArmorSkill::Slots(_) => "",
            RelicArmorSkill::Skill(requirement) => requirement.name.as_str(),
        }
    }

    /// The piece offers nothing: no slot, or no point.
    pub fn is_empty(&self) -> (r: bool)
        ensures
            r == (match *self {
                RelicArmorSkill::Slots(x) => x == 0,
                RelicArmorSkill::Skill(requirement) => requirement.points == 0,
            }),
    {
        match &self {
            RelicArmorSkill::Slots(x) => *x == 0,
            RelicArmorSkill::Skill(requirement) => requirement.points == 0,
        }
    }

    /// The slots that the piece offers.
    pub fn slots(&self) -> (r: i32)
        ensures
            r == (match *self {
                RelicArmorSkill::Slots(x) => x,
                RelicArmorSkill::Skill(_) => 0,
            }),
    {
        match self {
            RelicArmorSkill::Slots(x) => *x,
            RelicArmorSkill::Skill(_requirement) => 0,
        }
    }

    /// The points that the piece offers.
    pub fn points(&self) -> (r: i32)
        ensures
            r == (match *self {
                RelicArmorSkill::Slots(_) => 0,
                RelicArmorSkill::Skill(requirement) => requirement.points,
            }),
    {
        match self {
            RelicArmorSkill::Slots(_) => 0,
            RelicArmorSkill::Skill(requirement) => requirement.points,
        }
    }
}

/// The relic pieces of the hunter, and the one that is being put together.
pub struct ArmorState {
    pub pieces: Vec<(ArmorType, Armor)>,
    pub skill: RelicArmorSkill,
    pub weapon_type: WeaponType,
    pub armor_type: ArmorType,
    pub name: String,
}

/// A piece in one line: its name, its first skill with its points where it
/// has one, and a ring for each slot.
pub open spec fn piece_text(p: Armor) -> Seq<char> {
    let skill = match p.ability_1_points {
        Some(points) => " "@ + p.ability_1_name@ + " "@ + decimal_text(points as int),
        None => Seq::empty(),
    };
    p.name@ + skill + repeated(" ○"@, p.slots as int)
}

impl ArmorState {
    /// Writes a piece in one line.
    pub fn piece_to_string(piece: &(ArmorType, Armor)) -> (r: String)
        ensures
            r@ == piece_text(piece.1),
    {
        let p = &piece.1;
        let mut result = p.name.clone();
        match p.ability_1_points {
            Some(points) => {
                result.append(" ");
                result.append(p.ability_1_name.as_str());
                result.append(" ");
                let number = decimal(points);
                result.append(number.as_str());
                assert(result@ =~= p.name@ + (" "@ + p.ability_1_name@ + " "@ + decimal_text(
                    points as int,
                )));
            },
            None => {
                assert(result@ =~= p.name@ + Seq::<char>::empty());
            },
        }
        append_rings(&mut result, p.slots);
        assert(result@ =~= piece_text(piece.1));
        result
    }
}

/// The least position from `from` on, below `limit`, at which `text` holds
/// `c`; `limit` where there is none.
pub open spec fn next_match(text: Seq<char>, limit: int, c: char, from: int) -> int
    decreases limit - from,
{
    if from < 0 || from >= limit {
        limit
    } else if from < text.len() && text[from] == c {
        from
    } else {
        next_match(text, limit, c, from + 1)
    }
}

/// The characters of `pattern` from position `p` on are found in `text`, one
/// after the other, from position `from` on and below `limit`; a character
/// may be found where the one before it was found.
pub open spec fn fuzzy_from(text: Seq<char>, limit: int, pattern: Seq<char>, p: int, from: int) -> bool
    decreases pattern.len() - p,
{
    if p < 0 || p >= pattern.len() {
        true
    } else {
        let at = next_match(text, limit, pattern[p], from);
        at < limit && fuzzy_from(text, limit, pattern, p + 1, at)
    }
}

/// Tells whether the characters of `pattern` occur in `s` in their order,
/// whatever their case; the search does not look beyond as many characters
/// as `s` has.
pub fn contains_fuzzy(s: &str, pattern: &str) -> (r: bool)
    ensures
        r == fuzzy_from(lower_case(s@), s@.len() as int, lower_case(pattern@), 0, 0),
{
    let text = to_lower(s);
    let wanted = to_lower(pattern);
    let limit = s.unicode_len();
    let text_len = text.as_str().unicode_len();
    let wanted_len = wanted.as_str().unicode_len();
    let mut index: usize = 0;
    let mut p: usize = 0;
    while p < wanted_len
        invariant
            p <= wanted_len,
            text@ == lower_case(s@),
            wanted@ == lower_case(pattern@),
            wanted_len == wanted@.len(),
            text_len == text@.len(),
            limit == s@.len(),
            index <= limit,
            fuzzy_from(text@, limit as int, wanted@, 0, 0) == fuzzy_from(
                text@,
                limit as int,
                wanted@,
                p as int,
                index as int,
            ),
        decreases wanted_len - p,
    {
        let c = wanted.as_str().get_char(p);
        let ghost from = index;
        let mut found = false;
        while index < limit && !found
            invariant
                index <= limit,
                text_len == text@.len(),
                p < wanted@.len(),
                c == wanted@[p as int],
                next_match(text@, limit as int, c, from as int) == next_match(
                    text@,
                    limit as int,
                    c,
                    index as int,
                ),
                found ==> index < limit && index < text@.len() && text@[index as int] == c,
            decreases limit - index + (if found { 0int } else { 1int }),
        {
            if index < text_len && text.as_str().get_char(index) == c {
                found = true;
            } else {
                index += 1;
            }
        }
        assert(next_match(text@, limit as int, c, index as int) == (if found {
            index as int
        } else {
            limit as int
        }));
        if !found {
            return false;
        }
        p += 1;
    }
    true
}

} // verus!

//! The choices that a hunter makes before a search.

use vstd::prelude::*;

verus! {

/// The language of the names.
#[derive(Debug, Default, Clone, Copy, Eq, PartialEq, Structural)]
pub enum Language {
    German,
    #[default]
    English,
    Spanish,
    French,
    Italian,
    Japanese,
}

impl Language {
    /// The languages, in the order in which they are offered.
    pub fn all() -> (r: Vec<Language>)
        ensures
            r@ == seq![
                Language::German,
                Language::English,
                Language::Spanish,
                Language::French,
                Language::Italian,
                Language::Japanese,
            ],
    {
        let mut v: Vec<Language> = Vec::new();
        v.push(Language::German);
        v.push(Language::English);
        v.push(Language::Spanish);
        v.push(Language::French);
        v.push(Language::Italian);
        v.push(Language::Japanese);
        assert(v@ =~= seq![
            Language::German,
            Language::English,
            Language::Spanish,
            Language::French,
            Language::Italian,
            Language::Japanese,
        ]);
        v
    }

    /// The name of the language in that language.
    pub open spec fn label(&self) -> Seq<char> {
        match self {
            Language::German => "Deutsch"@,
            Language::French => "Français"@,
            Language::English => "English"@,
            Language::Japanese => "日本語"@,
            Language::Italian => "Italiano"@,
            Language::Spanish => "Español"@,
        }
    }

    /// The name of the language in that language.
    pub fn name(&self) -> (r: String)
        ensures
            r@ == self.label(),
    {
        match self {
            Language::German => "Deutsch".to_owned(),
            Language::French => "Français".to_owned(),
            Language::English => "English".to_owned(),
            Language::Japanese => "日本語".to_owned(),
            Language::Italian => "Italiano".to_owned(),
            Language::Spanish => "Español".to_owned(),
        }
    }
}

/// The rank in the gathering hall.
#[derive(Debug, Default, Clone, Copy, Eq, PartialEq, Structural)]
pub enum GatheringHallRank {
    #[default]
    HR1,
    HR2,
    HR3,
    HR4,
    HR5,
    HR6,
    HR7,
    HR8,
    G1,
    G2,
    G3,
    All,
}

impl GatheringHallRank {
    /// The ranks, in the order in which they are offered; the first rank
    /// stands twice, so that a rank stands at the place of its number.
    pub fn all() -> (r: Vec<GatheringHallRank>)
        ensures
            r@ == seq![
                GatheringHallRank::HR1,
                GatheringHallRank::HR1,
                GatheringHallRank::HR2,
                GatheringHallRank::HR3,
                GatheringHallRank::HR4,
                GatheringHallRank::HR5,
                GatheringHallRank::HR6,
                GatheringHallRank::HR7,
                GatheringHallRank::HR8,
                GatheringHallRank::G1,
                GatheringHallRank::G2,
                GatheringHallRank::G3,
                GatheringHallRank::All,
            ],
    {
        let mut v: Vec<GatheringHallRank> = Vec::new();
        v.push(GatheringHallRank::HR1);
        v.push(GatheringHallRank::HR1);
        v.push(GatheringHallRank::HR2);
        v.push(GatheringHallRank::HR3);
        v.push(GatheringHallRank::HR4);
        v.push(GatheringHallRank::HR5);
        v.push(GatheringHallRank::HR6);
        v.push(GatheringHallRank::HR7);
        v.push(GatheringHallRank::HR8);
        v.push(GatheringHallRank::G1);
        v.push(GatheringHallRank::G2);
        v.push(GatheringHallRank::G3);
        v.push(GatheringHallRank::All);
        assert(v@ =~= seq![
            GatheringHallRank::HR1,
            GatheringHallRank::HR1,
            GatheringHallRank::HR2,
            GatheringHallRank::HR3,
            GatheringHallRank::HR4,
            GatheringHallRank::HR5,
            GatheringHallRank::HR6,
            GatheringHallRank::HR7,
            GatheringHallRank::HR8,
            GatheringHallRank::G1,
            GatheringHallRank::G2,
            GatheringHallRank::G3,
            GatheringHallRank::All,
        ]);
        v
    }

    /// The number of the rank, from 1 for the first to 12 for all ranks.
    pub open spec fn rank_number(&self) -> int {
        match self {
            GatheringHallRank::HR1 => 1,
            GatheringHallRank::HR2 => 2,
            GatheringHallRank::HR3 => 3,
            GatheringHallRank::HR4 => 4,
            GatheringHallRank::HR5 => 5,
            GatheringHallRank::HR6 => 6,
            GatheringHallRank::HR7 => 7,
            GatheringHallRank::HR8 => 8,
            GatheringHallRank::G1 => 9,
            GatheringHallRank::G2 => 10,
            GatheringHallRank::G3 => 11,
            GatheringHallRank::All => 12,
        }
    }

    /// The number of the rank, from 1 for the first to 12 for all ranks.
    pub fn number(&self) -> (r: i32)
        ensures
            r == self.rank_number(),
    {
        match self {
            GatheringHallRank::HR1 => 1,
            GatheringHallRank::HR2 => 2,
            GatheringHallRank::HR3 => 3,
            GatheringHallRank::HR4 => 4,
            GatheringHallRank::HR5 => 5,
            GatheringHallRank::HR6 => 6,
            GatheringHallRank::HR7 => 7,
            GatheringHallRank::HR8 => 8,
            GatheringHallRank::G1 => 9,
            GatheringHallRank::G2 => 10,
            GatheringHallRank::G3 => 11,
            GatheringHallRank::All => 12,
        }
    }

    /// The name of the rank.
    pub open spec fn label(&self) -> Seq<char> {
        match self {
            GatheringHallRank::HR1 => "HR1"@,
            GatheringHallRank::HR2 => "HR2"@,
            GatheringHallRank::HR3 => "HR3"@,
            GatheringHallRank::HR4 => "HR4"@,
            GatheringHallRank::HR5 => "HR5"@,
            GatheringHallRank::HR6 => "HR6"@,
            GatheringHallRank::HR7 => "HR7"@,
            GatheringHallRank::HR8 => "HR8"@,
            GatheringHallRank::G1 => "G1"@,
            GatheringHallRank::G2 => "G2"@,
            GatheringHallRank::G3 => "G3"@,
            GatheringHallRank::All => "All"@,
        }
    }

    /// The name of the rank.
    pub fn name(&self) -> (r: String)
        ensures
            r@ == self.label(),
    {
        match self {
            GatheringHallRank::HR1 => "HR1".to_owned(),
            GatheringHallRank::HR2 => "HR2".to_owned(),
            GatheringHallRank::HR3 => "HR3".to_owned(),
            GatheringHallRank::HR4 => "HR4".to_owned(),
            GatheringHallRank::HR5 => "HR5".to_owned(),
            GatheringHallRank::HR6 => "HR6".to_owned(),
            GatheringHallRank::HR7 => "HR7".to_owned(),
            GatheringHallRank::HR8 => "HR8".to_owned(),
            GatheringHallRank::G1 => "G1".to_owned(),
            GatheringHallRank::G2 => "G2".to_owned(),
            GatheringHallRank::G3 => "G3".to_owned(),
            GatheringHallRank::All => "All".to_owned(),
        }
    }
}

/// The kind of weapon that a piece goes with.
#[derive(Debug, Default, PartialEq, Eq, Clone, Copy, Structural)]
pub enum WeaponType {
    Both,
    #[default]
    Melee,
    Marksman,
}

impl WeaponType {
    /// The number that the lists of equipment use for the kind: 0 for both,
    /// 1 for melee, 2 for marksman.
    pub open spec fn kind_number(&self) -> int {
        match self {
            WeaponType::Both => 0,
            WeaponType::Melee => 1,
            WeaponType::Marksman => 2,
        }
    }

    /// The number that the lists of equipment use for the kind.
    pub fn number(&self) -> (r: i32)
        ensures
            r == self.kind_number(),
    {
        match self {
            WeaponType::Both => 0,
            WeaponType::Melee => 1,
            WeaponType::Marksman => 2,
        }
    }

    /// The name of the kind.
    pub open spec fn label(&self) -> Seq<char> {
        match self {
            WeaponType::Both => "Both"@,
            WeaponType::Melee => "Melee"@,
            WeaponType::Marksman => "Marksman"@,
        }
    }

    /// The name of the kind.
    pub fn name(&self) -> (r: String)
        ensures
            r@ == self.label(),
    {
        match self {
            WeaponType::Both => "Both".to_owned(),
            WeaponType::Melee => "Melee".to_owned(),
            WeaponType::Marksman => "Marksman".to_owned(),
        }
    }
}

/// The part of the body that a piece covers.
#[derive(Debug, Default, PartialEq, Eq, Clone, Copy, Structural)]
pub enum ArmorType {
    #[default]
    Head,
    Arms,
    Chest,
    Waist,
    Legs,
}

impl ArmorType {
    /// The parts, in the order in which they are offered.
    pub fn all() -> (r: Vec<ArmorType>)
        ensures
            r@ == seq![
                ArmorType::Head,
                ArmorType::Arms,
                ArmorType::Chest,
                ArmorType::Waist,
                ArmorType::Legs,
            ],
    {
        let mut v: Vec<ArmorType> = Vec::new();
        v.push(ArmorType::Head);
        v.push(ArmorType::Arms);
        v.push(ArmorType::Chest);
        v.push(ArmorType::Waist);
        v.push(ArmorType::Legs);
        assert(v@ =~= seq![
            ArmorType::Head,
            ArmorType::Arms,
            ArmorType::Chest,
            ArmorType::Waist,
            ArmorType::Legs,
        ]);
        v
    }

    /// The name of the part.
    pub open spec fn label(&self) -> Seq<char> {
        match self {
            ArmorType::Head => "Head"@,
            ArmorType::Arms => "Arms"@,
            ArmorType::Chest => "Chest"@,
            ArmorType::Waist => "Waist"@,
            ArmorType::Legs => "Legs"@,
        }
    }

    /// The name of the part.
    pub fn name(&self) -> (r: String)
        ensures
            r@ == self.label(),
    {
        match self {
            ArmorType::Head => "Head".to_owned(),
            ArmorType::Arms => "Arms".to_owned(),
            ArmorType::Chest => "Chest".to_owned(),
            ArmorType::Waist => "Waist".to_owned(),
            ArmorType::Legs => "Legs".to_owned(),
        }
    }
}

/// The sex of the hunter.
#[derive(Debug, Default, PartialEq, Eq, Clone, Copy, Structural)]
pub enum Sex {
    #[default]
    Male,
    Female,
}

impl Sex {
    /// The number that the lists of equipment use: 1 for male, 2 for female.
    pub open spec fn sex_number(&self) -> int {
        match self {
            Sex::Male => 1,
            Sex::Female => 2,
        }
    }

    /// The number that the lists of equipment use.
    pub fn number(&self) -> (r: i32)
        ensures
            r == self.sex_number(),
    {
        match self {
            Sex::Male => 1,
            Sex::Female => 2,
        }
    }

    /// The name of the sex.
    pub open spec fn label(&self) -> Seq<char> {
        match self {
            Sex::Male => "Male"@,
            Sex::Female => "Female"@,
        }
    }

    /// The name of the sex.
    pub fn name(&self) -> (r: String)
        ensures
            r@ == self.label(),
    {
        match self {
            Sex::Male => "Male".to_owned(),
            Sex::Female => "Female".to_owned(),
        }
    }
}

} // verus!

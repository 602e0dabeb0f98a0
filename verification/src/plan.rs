//! From the hunter's choices to a search, and from its results back to the
//! lists of equipment.

use crate::algorithm::resolve::FindResult;
use crate::algorithm::rows::held;
use crate::requirements::Requirement;
use crate::skill::Skill;
use vstd::prelude::*;

verus! {

/// The points that the weapon grants for the attribute `name`.
pub open spec fn weapon_points(weapon_skill: Option<Requirement>, name: Seq<char>) -> int {
    match weapon_skill {
        Some(w) => if w.name@ == name {
            w.points as int
        } else {
            0
        },
        None => 0,
    }
}

/// Every chosen level exists.
pub open spec fn levels_exist(skills_needed: Seq<(bool, usize, Vec<Skill>)>) -> bool {
    forall|i: int|
        0 <= i < skills_needed.len() && (#[trigger] skills_needed[i]).0 ==> skills_needed[i].1
            < skills_needed[i].2@.len()
}

/// The chosen level of entry `i`.
pub open spec fn level(skills_needed: Seq<(bool, usize, Vec<Skill>)>, i: int) -> Skill {
    skills_needed[i].2@[skills_needed[i].1 as int]
}

/// The number of active entries among the first `upto`.
pub open spec fn active_count(skills_needed: Seq<(bool, usize, Vec<Skill>)>, upto: int) -> int
    decreases upto,
{
    if upto <= 0 {
        0
    } else {
        active_count(skills_needed, upto - 1) + (if skills_needed[upto - 1].0 {
            1int
        } else {
            0int
        })
    }
}

/// `wanted` holds, for each active entry of the first `upto`, in their
/// order, the attribute of the chosen level and its points less what the
/// weapon grants.
pub open spec fn is_wanted(
    skills_needed: Seq<(bool, usize, Vec<Skill>)>,
    weapon_skill: Option<Requirement>,
    upto: int,
    wanted: Seq<Requirement>,
) -> bool {
    &&& wanted.len() == active_count(skills_needed, upto)
    &&& forall|i: int|
        0 <= i < upto && (#[trigger] skills_needed[i]).0 ==> {
            let at = active_count(skills_needed, i);
            &&& wanted[at].name@ == level(skills_needed, i).name_attribute@
            &&& wanted[at].points == held(
                level(skills_needed, i).points - weapon_points(
                    weapon_skill,
                    level(skills_needed, i).name_attribute@,
                ),
            )
        }
}

proof fn lemma_active_nonneg(skills_needed: Seq<(bool, usize, Vec<Skill>)>, upto: int)
    ensures
        0 <= active_count(skills_needed, upto),
    decreases upto,
{
    if upto > 0 {
        lemma_active_nonneg(skills_needed, upto - 1);
    }
}

proof fn lemma_active_count(skills_needed: Seq<(bool, usize, Vec<Skill>)>, i: int, upto: int)
    requires
        0 <= i <= upto,
    ensures
        0 <= active_count(skills_needed, i) <= active_count(skills_needed, upto),
        i < upto && skills_needed[i].0 ==> active_count(skills_needed, i) < active_count(
            skills_needed,
            upto,
        ),
    decreases upto - i,
{
    lemma_active_nonneg(skills_needed, i);
    if i < upto {
        lemma_active_count(skills_needed, i, upto - 1);
    }
}

/// Lists what the search shall reach: for each active entry the attribute of
/// the chosen level, with its points less what the weapon grants.
pub fn wanted_requirements(
    skills_needed: &Vec<(bool, usize, Vec<Skill>)>,
    weapon_skill: &Option<Requirement>,
) -> (wanted: Vec<Requirement>)
    requires
        levels_exist(skills_needed@),
    ensures
        is_wanted(skills_needed@, *weapon_skill, skills_needed@.len() as int, wanted@),
{
    let mut wanted: Vec<Requirement> = Vec::new();
    let mut i: usize = 0;
    while i < skills_needed.len()
        invariant
            i <= skills_needed.len(),
            levels_exist(skills_needed@),
            is_wanted(skills_needed@, *weapon_skill, i as int, wanted@),
        decreases skills_needed.len() - i,
    {
        let ghost before = wanted@;
        let entry = &skills_needed[i];
        if entry.0 {
            let skill = &entry.2[entry.1];
            let granted: i64 = match weapon_skill {
                Some(w) => if w.name == skill.name_attribute {
                    w.points as i64
                } else {
                    0
                },
                None => 0,
            };
            let left: i64 = skill.points as i64 - granted;
            let points: i32 = if left > i32::MAX as i64 {
                i32::MAX
            } else if left < i32::MIN as i64 {
                i32::MIN
            } else {
                left as i32
            };
            wanted.push(Requirement { name: skill.name_attribute.clone(), points });
        }
        proof {
            assert forall|j: int| 0 <= j < i + 1 && (#[trigger] skills_needed@[j]).0 implies {
                let at = active_count(skills_needed@, j);
                &&& wanted@[at].name@ == level(skills_needed@, j).name_attribute@
                &&& wanted@[at].points == held(
                    level(skills_needed@, j).points - weapon_points(
                        *weapon_skill,
                        level(skills_needed@, j).name_attribute@,
                    ),
                )
            } by {
                lemma_active_count(skills_needed@, j, i as int);
                if j < i {
                    assert(wanted@[active_count(skills_needed@, j)] == before[active_count(
                        skills_needed@,
                        j,
                    )]);
                }
            }
        }
        i += 1;
    }
    wanted
}

/// The place in the full list of the item at place `i` of a trimmed list.
pub open spec fn mapped(map: Seq<usize>, i: Option<usize>) -> Option<usize> {
    match i {
        Some(x) => if x < map.len() {
            Some(map[x as int])
        } else {
            None
        },
        None => None,
    }
}

fn map_place(map: &Vec<usize>, i: Option<usize>) -> (r: Option<usize>)
    ensures
        r == mapped(map@, i),
{
    match i {
        Some(x) => if x < map.len() {
            Some(map[x])
        } else {
            None
        },
        None => None,
    }
}

/// `after` is `before` with every place looked up in the map of its list.
pub open spec fn is_remapped(
    before: FindResult,
    after: FindResult,
    head: Seq<usize>,
    body: Seq<usize>,
    arms: Seq<usize>,
    waist: Seq<usize>,
    legs: Seq<usize>,
    charms: Seq<usize>,
    decorations: Seq<usize>,
) -> bool {
    &&& after.head_index == mapped(head, before.head_index)
    &&& after.arms_index == mapped(arms, before.arms_index)
    &&& after.waist_index == mapped(waist, before.waist_index)
    &&& after.legs_index == mapped(legs, before.legs_index)
    &&& after.body_index == body[before.body_index as int]
    &&& after.charms_index == charms[before.charms_index as int]
    &&& after.decorations_count_indices@.len() == before.decorations_count_indices@.len()
    &&& forall|i: int|
        0 <= i < before.decorations_count_indices@.len() ==> (#[trigger] after.decorations_count_indices@[i])
            == (
            before.decorations_count_indices@[i].0,
            decorations[before.decorations_count_indices@[i].1 as int],
        )
}

/// The places of `result` can be looked up in the maps.
pub open spec fn can_remap(result: FindResult, body: Seq<usize>, charms: Seq<usize>, decorations: Seq<usize>) -> bool {
    &&& result.body_index < body.len()
    &&& result.charms_index < charms.len()
    &&& forall|i: int|
        0 <= i < result.decorations_count_indices@.len() ==> (#[trigger] result.decorations_count_indices@[i]).1
            < decorations.len()
}

/// Turns the places of a result, which are places in the trimmed lists, into
/// places in the full lists. A piece whose place the map does not know is
/// left out.
pub fn remap_result(
    result: &mut FindResult,
    head: &Vec<usize>,
    body: &Vec<usize>,
    arms: &Vec<usize>,
    waist: &Vec<usize>,
    legs: &Vec<usize>,
    charms: &Vec<usize>,
    decorations: &Vec<usize>,
)
    requires
        can_remap(*old(result), body@, charms@, decorations@),
    ensures
        is_remapped(
            *old(result),
            *final(result),
            head@,
            body@,
            arms@,
            waist@,
            legs@,
            charms@,
            decorations@,
        ),
{
    result.head_index = map_place(head, result.head_index);
    result.arms_index = map_place(arms, result.arms_index);
    result.waist_index = map_place(waist, result.waist_index);
    result.legs_index = map_place(legs, result.legs_index);
    result.charms_index = charms[result.charms_index];
    result.body_index = body[result.body_index];
    let mut i: usize = 0;
    while i < result.decorations_count_indices.len()
        invariant
            i <= result.decorations_count_indices.len(),
            result.decorations_count_indices@.len() == old(result).decorations_count_indices@.len(),
            can_remap(*old(result), body@, charms@, decorations@),
            forall|j: int|
                0 <= j < i ==> (#[trigger] result.decorations_count_indices@[j]) == (
                    old(result).decorations_count_indices@[j].0,
                    decorations@[old(result).decorations_count_indices@[j].1 as int],
                ),
            forall|j: int|
                i <= j < result.decorations_count_indices@.len()
                    ==> (#[trigger] result.decorations_count_indices@[j]) == old(
                    result,
                ).decorations_count_indices@[j],
            result.head_index == mapped(head@, old(result).head_index),
            result.arms_index == mapped(arms@, old(result).arms_index),
            result.waist_index == mapped(waist@, old(result).waist_index),
            result.legs_index == mapped(legs@, old(result).legs_index),
            result.body_index == body@[old(result).body_index as int],
            result.charms_index == charms@[old(result).charms_index as int],
        decreases result.decorations_count_indices.len() - i,
    {
        let entry = result.decorations_count_indices[i];
        assert(entry == old(result).decorations_count_indices@[i as int]);
        result.decorations_count_indices.set(i, (entry.0, decorations[entry.1]));
        i += 1;
    }
}

/// The skill level can be added to what is wanted: it takes points, and no
/// requirement asks as much of its attribute.
pub open spec fn can_add(skill: Skill, requirements: Seq<Requirement>) -> bool {
    skill.points > 0 && forall|i: int|
        0 <= i < requirements.len() ==> (#[trigger] requirements[i]).name@ != skill.name_attribute@
            || requirements[i].points < skill.points
}

/// Tells whether a skill level can be added to what is wanted.
pub fn is_addition(skill: &Skill, requirements: &[Requirement]) -> (r: bool)
    ensures
        r == can_add(*skill, requirements@),
{
    if skill.points <= 0 {
        return false;
    }
    let mut i: usize = 0;
    while i < requirements.len()
        invariant
            i <= requirements.len(),
            skill.points > 0,
            forall|j: int|
                0 <= j < i ==> (#[trigger] requirements@[j]).name@ != skill.name_attribute@
                    || requirements@[j].points < skill.points,
        decreases requirements.len() - i,
    {
        if requirements[i].name == skill.name_attribute && requirements[i].points >= skill.points {
            return false;
        }
        i += 1;
    }
    true
}

/// `name` is one of `excluded`.
pub open spec fn excludes(excluded: Seq<String>, name: Seq<char>) -> bool {
    exists|i: int| 0 <= i < excluded.len() && (#[trigger] excluded[i])@ == name
}

/// Tells whether the hunter has excluded the item called `name`.
pub fn is_excluded(excluded: &Vec<String>, name: &String) -> (r: bool)
    ensures
        r == excludes(excluded@, name@),
{
    let mut i: usize = 0;
    while i < excluded.len()
        invariant
            i <= excluded.len(),
            forall|j: int| 0 <= j < i ==> (#[trigger] excluded@[j])@ != name@,
        decreases excluded.len() - i,
    {
        if excluded[i] == *name {
            return true;
        }
        i += 1;
    }
    false
}

} // verus!

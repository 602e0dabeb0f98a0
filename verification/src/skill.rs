//! Skills and how they are grouped for choosing.

use crate::text::{
    first_occurrences, is_i32, lemma_first_occurrences, reads_as_i32, same_text, sorted_texts,
    stand_in_order, text_le, texts, unique_texts,
};
use itertools::Itertools;
use vstd::prelude::*;

verus! {

broadcast use vstd::seq_lib::to_multiset_contains;

/// One level of a skill: the points of its attribute that it takes, and
/// where it is listed.
#[derive(Debug, Default, Clone)]
pub struct Skill {
    pub name: String,
    pub name_attribute: String,
    pub points: i32,
    pub weapon_type: i32,
    pub category: Option<String>,
    pub category_2: Option<String>,
    pub max_weapon_skill_points: Option<i32>,
    pub max_armor_skill_points: Option<i32>,
}

/// The skills of `skills` whose attribute is `key`, in their order.
pub open spec fn members(skills: Seq<Skill>, key: Seq<char>) -> Seq<Skill> {
    skills.filter(|s: Skill| s.name_attribute@ == key)
}

/// One of `groups` has the key `key`.
pub open spec fn has_group(groups: Seq<(String, Vec<Skill>)>, key: Seq<char>) -> bool {
    exists|g: int| 0 <= g < groups.len() && (#[trigger] groups[g]).0@ == key
}

/// `groups` holds the skills of `skills` by attribute: one group for each
/// attribute that occurs, with the skills of that attribute in their order.
pub open spec fn is_grouping(skills: Seq<Skill>, groups: Seq<(String, Vec<Skill>)>) -> bool {
    &&& forall|g: int|
        0 <= g < groups.len() ==> (#[trigger] groups[g]).1@ == members(skills, groups[g].0@)
            && groups[g].1@.len() > 0
    &&& forall|g: int, h: int| 0 <= g < h < groups.len() ==> groups[g].0@ != groups[h].0@
    &&& forall|i: int|
        0 <= i < skills.len() ==> has_group(groups, (#[trigger] skills[i]).name_attribute@)
}

/// `x` is the first category of one of `skills`, and no number.
pub open spec fn is_listed(skills: Seq<Skill>, x: Seq<char>) -> bool {
    exists|i: int|
        0 <= i < skills.len() && (#[trigger] skills[i]).category is Some
            && skills[i].category->0@ == x && !reads_as_i32(x)
}

/// `types` is the list of categories to choose from: "All", and after it the
/// first categories of `skills` that are no numbers, each once, in ascending
/// order.
pub open spec fn is_type_list(skills: Seq<Skill>, types: Seq<Seq<char>>) -> bool {
    &&& types.len() >= 1
    &&& types[0] == "All"@
    &&& forall|x: Seq<char>| types.skip(1).contains(x) <==> is_listed(skills, x)
    &&& forall|i: int, j: int|
        1 <= i < j < types.len() ==> #[trigger] types[i] != #[trigger] types[j]
    &&& forall|i: int, j: int|
        1 <= i < j < types.len() ==> text_le(#[trigger] types[i], #[trigger] types[j])
}

/// Groups skills by attribute.
///
/// Trusted: calls `Itertools::into_group_map_by` with the attribute as the
/// key, and lists the map that comes back. The claim is that there is one
/// group for each attribute that occurs, with the skills of that attribute
/// in their order; the order of the groups is left open.
#[verifier::external_body]
fn group_by_attribute(skills: &[Skill]) -> (r: Vec<(String, Vec<Skill>)>)
    ensures
        is_grouping(skills@, r@),
{
    skills.iter().cloned().into_group_map_by(|skill| skill.name_attribute.clone()).into_iter().collect()
}

impl Skill {
    /// Groups `skills` by attribute, and lists the categories to choose
    /// from.
    pub fn group(skills: &[Self]) -> (r: (Vec<(String, Vec<Skill>)>, Vec<String>))
        ensures
            is_grouping(skills@, r.0@),
            is_type_list(skills@, texts(r.1@)),
    {
        let groups = group_by_attribute(skills);
        let mut listed: Vec<String> = Vec::new();
        let mut i: usize = 0;
        while i < skills.len()
            invariant
                i <= skills.len(),
                forall|x: Seq<char>|
                    texts(listed@).contains(x) <==> is_listed(skills@.take(i as int), x),
            decreases skills.len() - i,
        {
            let ghost seen = skills@.take(i as int);
            let ghost more = skills@.take(i + 1);
            let ghost before = texts(listed@);
            let mut added = false;
            match &skills[i].category {
                Some(c) => {
                    if !is_i32(c.as_str()) {
                        listed.push(c.clone());
                        added = true;
                    }
                },
                None => {},
            }
            proof {
                let now = texts(listed@);
                assert(forall|j: int| 0 <= j < i ==> seen[j] == more[j]);
                assert(more[i as int] == skills@[i as int]);
                assert forall|x: Seq<char>| now.contains(x) <==> is_listed(more, x) by {
                    if now.contains(x) {
                        let w = choose|j: int| 0 <= j < now.len() && now[j] == x;
                        if w < before.len() {
                            assert(before[w] == x);
                            assert(before.contains(x));
                            let u = choose|j: int|
                                0 <= j < seen.len() && (#[trigger] seen[j]).category is Some
                                    && seen[j].category->0@ == x && !reads_as_i32(x);
                            assert(more[u].category->0@ == x);
                        } else {
                            assert(more[i as int].category->0@ == x);
                        }
                    }
                    if is_listed(more, x) {
                        let u = choose|j: int|
                            0 <= j < more.len() && (#[trigger] more[j]).category is Some
                                && more[j].category->0@ == x && !reads_as_i32(x);
                        if u < i {
                            assert(seen[u].category->0@ == x);
                            assert(before.contains(x));
                            let w = choose|j: int| 0 <= j < before.len() && before[j] == x;
                            assert(now[w] == x);
                        } else {
                            assert(added);
                            assert(now[before.len() as int] == x);
                        }
                    }
                }
            }
            i += 1;
        }
        assert(skills@.take(i as int) =~= skills@);
        let ghost wanted = texts(listed@);
        let ordered = sorted_texts(listed);
        let ghost in_order = texts(ordered@);
        let single = unique_texts(ordered);
        let ghost once = texts(single@);
        let mut types: Vec<String> = Vec::new();
        types.push("All".to_owned());
        let mut j: usize = 0;
        while j < single.len()
            invariant
                j <= single.len(),
                types.len() == j + 1,
                types@[0]@ == "All"@,
                forall|a: int| 0 <= a < j ==> (#[trigger] types@[a + 1])@ == single@[a]@,
            decreases single.len() - j,
        {
            types.push(single[j].clone());
            j += 1;
        }
        proof {
            let out = texts(types@);
            lemma_first_occurrences(in_order);
            assert(out[0] == "All"@);
            assert(out.skip(1) =~= once);
            assert forall|x: Seq<char>| out.skip(1).contains(x) <==> is_listed(skills@, x) by {
                assert(once.contains(x) <==> in_order.contains(x));
                vstd::seq_lib::to_multiset_contains(in_order, x);
                vstd::seq_lib::to_multiset_contains(wanted, x);
                assert(in_order.contains(x) <==> wanted.contains(x));
            }
            assert forall|a: int, b: int| 1 <= a < b < out.len() implies #[trigger] out[a]
                != #[trigger] out[b] && text_le(out[a], out[b]) by {
                assert(out[a] == once[a - 1] && out[b] == once[b - 1]);
                assert(stand_in_order(in_order, once[a - 1], once[b - 1]));
                let (u, v) = choose|u: int, v: int|
                    0 <= u < v < in_order.len() && in_order[u] == once[a - 1] && in_order[v]
                        == once[b - 1];
                assert(text_le(ordered@[u]@, ordered@[v]@));
            }
        }
        (groups, types)
    }

    /// The skill can be had from a relic weapon.
    pub fn is_relic_skill(&self) -> (r: bool)
        ensures
            r == (self.max_weapon_skill_points is Some),
    {
        self.max_weapon_skill_points.is_some()
    }

    /// The skill is listed under `category`: every skill is listed under
    /// "All", and each under its own categories.
    pub open spec fn listed_under(&self, category: Option<&str>) -> bool {
        ||| (category is Some && category->0@ == "All"@)
        ||| match (category, self.category) {
            (Some(a), Some(b)) => a@ == b@,
            (None, None) => true,
            _ => false,
        }
        ||| (category is Some && self.category_2 is Some && self.category_2->0@ == category->0@)
    }

    /// Tells whether the skill is listed under `category`.
    pub fn has_category(&self, category: Option<&str>) -> (r: bool)
        ensures
            r == self.listed_under(category),
    {
        let all = match category {
            Some(c) => same_text(c, "All"),
            None => false,
        };
        let own = match (category, &self.category) {
            (Some(a), Some(b)) => same_text(a, b.as_str()),
            (None, None) => true,
            _ => false,
        };
        if all || own {
            true
        } else {
            match (&self.category_2, category) {
                (Some(second), Some(c)) => same_text(second.as_str(), c),
                _ => false,
            }
        }
    }
}

} // verus!

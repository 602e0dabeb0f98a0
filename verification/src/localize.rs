//! The names of skills and items in the hunter's language.

use crate::armor::Armor;
use crate::charms::Charm;
use crate::decorations::Decoration;
use crate::skill::Skill;
use crate::skillpoint::{translate, translate_name, SkillPoint};
use crate::text::{first_occurrences, texts, unique_texts};
use vstd::prelude::*;

verus! {

/// The place of the first empty line from `from` on, or the number of lines.
pub open spec fn separator(lines: Seq<Seq<char>>, from: int) -> int
    decreases lines.len() - from,
{
    if from < 0 || from >= lines.len() {
        lines.len() as int
    } else if lines[from].len() == 0 {
        from
    } else {
        separator(lines, from + 1)
    }
}

/// The lines before the first empty line: the names of the attributes.
pub open spec fn attribute_lines(lines: Seq<Seq<char>>) -> Seq<Seq<char>> {
    lines.take(separator(lines, 0))
}

/// The lines after the first empty line: the names of the skills.
pub open spec fn name_lines(lines: Seq<Seq<char>>) -> Seq<Seq<char>> {
    if separator(lines, 0) < lines.len() {
        lines.skip(separator(lines, 0) + 1)
    } else {
        Seq::empty()
    }
}

/// The attributes of `skills`, in their order.
pub open spec fn attributes_of(skills: Seq<Skill>) -> Seq<Seq<char>> {
    skills.map_values(|s: Skill| s.name_attribute@)
}

/// The file of a language names every attribute and no more skills than
/// there are.
pub open spec fn fits(skills: Seq<Skill>, lines: Seq<Seq<char>>) -> bool {
    &&& name_lines(lines).len() <= skills.len()
    &&& first_occurrences(attributes_of(skills)).len() <= attribute_lines(lines).len()
}

/// `table` gives each attribute of `skills`, in the order in which they occur
/// first, the name that the line of its place holds.
pub open spec fn is_attribute_table(
    skills: Seq<Skill>,
    lines: Seq<Seq<char>>,
    table: Seq<(String, String)>,
) -> bool {
    let known = first_occurrences(attributes_of(skills));
    &&& table.len() == known.len()
    &&& forall|i: int|
        0 <= i < table.len() ==> (#[trigger] table[i]).0@ == known[i] && table[i].1@
            == attribute_lines(lines)[i]
}

/// `after` is `before` in the language of `lines`: each skill has the name
/// that the line of its place holds, where there is one, and the name of
/// its attribute that `table` gives.
pub open spec fn is_localized(
    before: Seq<Skill>,
    after: Seq<Skill>,
    lines: Seq<Seq<char>>,
    table: Seq<(String, String)>,
) -> bool {
    &&& after.len() == before.len()
    &&& forall|i: int|
        0 <= i < before.len() ==> {
            &&& (#[trigger] after[i]).name@ == (if i < name_lines(lines).len() {
                name_lines(lines)[i]
            } else {
                before[i].name@
            })
            &&& after[i].name_attribute@ == translate(table, before[i].name_attribute@)
            &&& after[i].points == before[i].points
            &&& after[i].weapon_type == before[i].weapon_type
            &&& after[i].category == before[i].category
            &&& after[i].category_2 == before[i].category_2
            &&& after[i].max_weapon_skill_points == before[i].max_weapon_skill_points
            &&& after[i].max_armor_skill_points == before[i].max_armor_skill_points
        }
}

fn find_separator(lines: &Vec<String>) -> (r: usize)
    ensures
        r == separator(texts(lines@), 0),
        r <= lines.len(),
{
    let mut i: usize = 0;
    while i < lines.len()
        invariant
            i <= lines.len(),
            separator(texts(lines@), 0) == separator(texts(lines@), i as int),
        decreases lines.len() - i,
    {
        if lines[i].as_str().unicode_len() == 0 {
            return i;
        }
        i += 1;
    }
    i
}

/// Puts `skills` into the language of `lines`, the lines of that language's
/// file of skills: the names of the attributes, an empty line, and the names
/// of the skills. Gives the table of the attributes' names.
pub fn localize_skills(skills: &mut Vec<Skill>, lines: &Vec<String>) -> (table: Vec<(String, String)>)
    requires
        fits(old(skills)@, texts(lines@)),
    ensures
        is_attribute_table(old(skills)@, texts(lines@), table@),
        is_localized(old(skills)@, final(skills)@, texts(lines@), table@),
{
    let ghost before = skills@;
    let ghost all = texts(lines@);
    let sep = find_separator(lines);
    let mut attributes: Vec<String> = Vec::new();
    let mut i: usize = 0;
    while i < skills.len()
        invariant
            i <= skills.len(),
            skills@ == before,
            texts(attributes@) == attributes_of(before).take(i as int),
        decreases skills.len() - i,
    {
        let ghost had = attributes@;
        attributes.push(skills[i].name_attribute.clone());
        assert(texts(attributes@) =~= texts(had).push(before[i as int].name_attribute@));
        assert(attributes_of(before).take(i + 1) =~= attributes_of(before).take(i as int).push(
            before[i as int].name_attribute@,
        ));
        i += 1;
    }
    assert(attributes_of(before).take(i as int) =~= attributes_of(before));
    let known = unique_texts(attributes);
    let mut table: Vec<(String, String)> = Vec::new();
    let mut j: usize = 0;
    assert(attribute_lines(all).len() == sep);
    while j < known.len()
        invariant
            j <= known.len(),
            known.len() <= sep,
            sep <= lines.len(),
            sep == separator(all, 0),
            all == texts(lines@),
            table.len() == j,
            forall|q: int|
                0 <= q < j ==> (#[trigger] table@[q]).0@ == known@[q]@ && table@[q].1@
                    == attribute_lines(all)[q],
        decreases known.len() - j,
    {
        assert(attribute_lines(all)[j as int] == lines@[j as int]@);
        table.push((known[j].clone(), lines[j].clone()));
        j += 1;
    }
    assert(is_attribute_table(before, all, table@)) by {
        assert forall|q: int| 0 <= q < table@.len() implies (#[trigger] table@[q]).0@
            == first_occurrences(attributes_of(before))[q] by {
            assert(texts(known@)[q] == known@[q]@);
        }
    }
    let names = if sep < lines.len() {
        lines.len() - sep - 1
    } else {
        0
    };
    assert(name_lines(all).len() == names);
    let mut s: usize = 0;
    while s < skills.len()
        invariant
            s <= skills.len(),
            skills@.len() == before.len(),
            names <= before.len(),
            names == name_lines(all).len(),
            sep == separator(all, 0),
            all == texts(lines@),
            sep + 1 + names == lines.len() || names == 0,
            forall|q: int| s <= q < skills@.len() ==> skills@[q] == before[q],
            forall|q: int|
                0 <= q < s ==> {
                    &&& (#[trigger] skills@[q]).name@ == (if q < names {
                        name_lines(all)[q]
                    } else {
                        before[q].name@
                    })
                    &&& skills@[q].name_attribute@ == translate(table@, before[q].name_attribute@)
                    &&& skills@[q].points == before[q].points
                    &&& skills@[q].weapon_type == before[q].weapon_type
                    &&& skills@[q].category == before[q].category
                    &&& skills@[q].category_2 == before[q].category_2
                    &&& skills@[q].max_weapon_skill_points == before[q].max_weapon_skill_points
                    &&& skills@[q].max_armor_skill_points == before[q].max_armor_skill_points
                },
        decreases skills.len() - s,
    {
        let skill = &mut skills[s];
        if s < names {
            assert(name_lines(all)[s as int] == lines@[sep + 1 + s]@);
            skill.name = lines[sep + 1 + s].clone();
        }
        translate_name(&mut skill.name_attribute, &table);
        s += 1;
    }
    table
}

/// The lesser of two lengths.
pub open spec fn lesser(a: int, b: int) -> int {
    if a <= b {
        a
    } else {
        b
    }
}

/// Puts armour pieces into the hunter's language: each piece takes the name
/// that the line of its place holds, and its skill names are looked up in
/// `table`. Pieces for which there is no line are left out.
pub fn localize_armor(parts: &mut Vec<Armor>, names: &Vec<String>, table: &Vec<(String, String)>)
    ensures
        final(parts)@.len() == lesser(old(parts)@.len() as int, names@.len() as int),
        forall|i: int|
            0 <= i < final(parts)@.len() ==> (#[trigger] final(parts)@[i]).name@ == names@[i]@
                && final(parts)@[i].skills_translated(&old(parts)@[i], table@),
{
    let ghost before = parts@;
    if names.len() < parts.len() {
        parts.truncate(names.len());
    }
    let mut i: usize = 0;
    while i < parts.len()
        invariant
            i <= parts.len(),
            parts@.len() == lesser(before.len() as int, names@.len() as int),
            forall|q: int| i <= q < parts@.len() ==> parts@[q] == before[q],
            forall|q: int|
                0 <= q < i ==> (#[trigger] parts@[q]).name@ == names@[q]@
                    && parts@[q].skills_translated(&before[q], table@),
        decreases parts.len() - i,
    {
        let part = &mut parts[i];
        part.translate_skills(table);
        part.name = names[i].clone();
        i += 1;
    }
}

/// Puts decorations into the hunter's language: each decoration takes the
/// name that the line of its place holds, and its skill names are looked up
/// in `table`. Decorations for which there is no line are left out.
pub fn localize_decorations(
    parts: &mut Vec<Decoration>,
    names: &Vec<String>,
    table: &Vec<(String, String)>,
)
    ensures
        final(parts)@.len() == lesser(old(parts)@.len() as int, names@.len() as int),
        forall|i: int|
            0 <= i < final(parts)@.len() ==> (#[trigger] final(parts)@[i]).name@ == names@[i]@
                && final(parts)@[i].skills_translated(&old(parts)@[i], table@),
{
    let ghost before = parts@;
    if names.len() < parts.len() {
        parts.truncate(names.len());
    }
    let mut i: usize = 0;
    while i < parts.len()
        invariant
            i <= parts.len(),
            parts@.len() == lesser(before.len() as int, names@.len() as int),
            forall|q: int| i <= q < parts@.len() ==> parts@[q] == before[q],
            forall|q: int|
                0 <= q < i ==> (#[trigger] parts@[q]).name@ == names@[q]@
                    && parts@[q].skills_translated(&before[q], table@),
        decreases parts.len() - i,
    {
        let part = &mut parts[i];
        part.translate_skills(table);
        part.name = names[i].clone();
        i += 1;
    }
}

/// Puts charms into the hunter's language: their skill names are looked up
/// in `table`.
pub fn localize_charms(charms: &mut Vec<Charm>, table: &Vec<(String, String)>)
    ensures
        final(charms)@.len() == old(charms)@.len(),
        forall|i: int|
            0 <= i < final(charms)@.len() ==> (#[trigger] final(charms)@[i]).is_translation_of(
                &old(charms)@[i],
                table@,
            ),
{
    let ghost before = charms@;
    let mut i: usize = 0;
    while i < charms.len()
        invariant
            i <= charms.len(),
            charms@.len() == before.len(),
            forall|q: int| i <= q < charms@.len() ==> charms@[q] == before[q],
            forall|q: int|
                0 <= q < i ==> (#[trigger] charms@[q]).is_translation_of(&before[q], table@),
        decreases charms.len() - i,
    {
        let charm = &mut charms[i];
        charm.translate_skills(table);
        i += 1;
    }
}

} // verus!

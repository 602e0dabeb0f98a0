//! What every item of equipment offers to the search.

use vstd::prelude::*;

verus! {

/// An item that grants skill points, has decoration slots and a defence value.
pub trait SkillPoint: Sized {
    /// The points that the item grants for the skill named `ability`.
    spec fn points_of(&self, ability: Seq<char>) -> int;

    /// The number of decoration slots of the item.
    spec fn slot_count(&self) -> int;

    /// The defence of the item as it is made.
    spec fn defence_value(&self) -> int;

    /// The defence of the item when fully upgraded.
    spec fn max_defence_value(&self) -> int;

    /// The item is `before` with each skill name looked up in `translation`.
    spec fn is_translation_of(&self, before: &Self, translation: Seq<(String, String)>) -> bool;

    fn points(&self, ability: &str) -> (r: i32)
        ensures
            r == self.points_of(ability@),
    ;

    fn max_defence(&self) -> (r: u32)
        ensures
            r == self.max_defence_value(),
    ;

    fn defence(&self) -> (r: u32)
        ensures
            r == self.defence_value(),
    ;

    fn slots(&self) -> (r: i32)
        ensures
            r == self.slot_count(),
    ;

    /// Replaces each skill name that `translation` knows by its translation.
    fn translate_skills(&mut self, translation: &Vec<(String, String)>)
        ensures
            final(self).is_translation_of(old(self), translation@),
    ;
}

/// The position of the first pair of `translation` whose first half is `name`,
/// looking from `from` on, or the length of `translation`.
pub open spec fn find_translation(translation: Seq<(String, String)>, name: Seq<char>, from: int) -> int
    decreases translation.len() - from,
{
    if from < 0 || from >= translation.len() {
        translation.len() as int
    } else if translation[from].0@ == name {
        from
    } else {
        find_translation(translation, name, from + 1)
    }
}

/// The text that `translation` gives for `name`: the second half of the first
/// pair that names it, or `name` itself.
pub open spec fn translate(translation: Seq<(String, String)>, name: Seq<char>) -> Seq<char> {
    let at = find_translation(translation, name, 0);
    if at < translation.len() {
        translation[at].1@
    } else {
        name
    }
}

/// Replaces `name` by its translation, if `translation` has one.
pub fn translate_name(name: &mut String, translation: &Vec<(String, String)>)
    ensures
        final(name)@ == translate(translation@, old(name)@),
{
    let mut i: usize = 0;
    while i < translation.len()
        invariant
            i <= translation.len(),
            *name == *old(name),
            find_translation(translation@, name@, 0) == find_translation(translation@, name@, i as int),
        decreases translation.len() - i,
    {
        if translation[i].0 == *name {
            *name = translation[i].1.clone();
            return ;
        }
        i += 1;
    }
}

} // verus!

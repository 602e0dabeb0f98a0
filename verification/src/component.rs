//! Crafting materials and where they can be had.

use crate::text::same_text;
use vstd::prelude::*;

verus! {

/// A crafting material; `special` tells whether it comes from an event only.
#[derive(Default, Clone, Debug)]
pub struct Component {
    pub name: String,
    pub special: Option<String>,
}

impl Component {
    /// The material comes from an event held in Japan only.
    pub open spec fn is_japanese(&self) -> bool {
        self.special is Some && self.special->0@ == "jEvent"@
    }

    /// The material comes from an event.
    pub open spec fn is_event(&self) -> bool {
        (self.special is Some && self.special->0@ == "Event"@) || self.is_japanese()
    }

    /// Tells whether the material comes from an event held in Japan only.
    pub fn japanese(&self) -> (r: bool)
        ensures
            r == self.is_japanese(),
    {
        match &self.special {
            Some(s) => same_text(s.as_str(), "jEvent"),
            None => false,
        }
    }

    /// Tells whether the material comes from an event.
    pub fn event(&self) -> (r: bool)
        ensures
            r == self.is_event(),
    {
        let plain = match &self.special {
            Some(s) => same_text(s.as_str(), "Event"),
            None => false,
        };
        plain || self.japanese()
    }
}

} // verus!

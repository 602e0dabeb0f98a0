//! Armour set search: finds combinations of head, body, arms, waist and legs
//! pieces, one charm and a set of decorations that reach a list of wanted
//! skill points.
//!
//! The search engine lives in [`algorithm`]: its entry is
//! [`algorithm::find::find`], which takes the lists of equipment and gives
//! the sets that reach the wanted skills. The other modules hold the records
//! of the equipment ([`armor`], [`charms`], [`decorations`], [`component`],
//! [`skill`]), what they have in common ([`skillpoint`]), the hunter's
//! choices ([`types`], [`state`], [`plan`]) and the names in the hunter's
//! language ([`localize`], [`text`]).
//!
//! Every function states what it returns and is proved to return it, but
//! for the few that call into std or another crate and say so: their
//! contracts are taken on trust. What holds of all results of the search is
//! proved in [`algorithm::laws`] and [`algorithm::monotone`].

pub mod algorithm;
pub mod armor;
pub mod charms;
pub mod component;
pub mod decorations;
pub mod localize;
pub mod plan;
pub mod requirements;
pub mod skill;
pub mod skillpoint;
pub mod state;
pub mod text;
pub mod types;

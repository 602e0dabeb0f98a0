//! The search engine.
//!
//! - [`compositions`]: the ways to write a number as an ordered sum.
//! - [`weights`]: how many decorations of each size close a deficit.
//! - [`score`]: the best points per slot that decorations offer.
//! - [`rows`]: items as rows of numbers.
//! - [`trim`]: cutting a category down to the items worth trying.
//! - [`tables`], [`decorate`]: the decoration solver and what it knows of
//!   the decorations.
//! - [`cache`], [`settle`]: the store of solver results.
//! - [`search`], [`resolve`], [`find`]: the assembly search.
//! - [`wide`]: whole numbers of any size, for the keys of the trimmer.
//! - [`laws`], [`monotone`], [`worn`]: what holds of every result.
//! - [`reach`], [`decided`]: which combinations the search reaches, and
//!   that it finds no less where less is wanted.

pub mod cache;
pub mod compositions;
pub mod decided;
pub mod decorate;
pub mod find;
pub mod laws;
pub mod monotone;
pub mod reach;
pub mod resolve;
pub mod rows;
pub mod score;
pub mod search;
pub mod settle;
pub mod tables;
pub mod trim;
pub mod weights;
pub mod wide;
pub mod worn;

pub use compositions::do_for_each_distribution;
pub use find::find;
pub use resolve::FindResult;
pub use score::scores;
pub use trim::trim;
pub use weights::get_weight_for_sum;

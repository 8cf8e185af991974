//! Rebalancing of building definitions for a grand-strategy game's script
//! files: a building's levels are split between its own type and a
//! replacement type, shared out over its owners so that the number of
//! converted levels is kept exactly.
//!
//! - `engine`: how many levels convert, and how many each owner gives.
//! - `rules`: the fixed table of conversions.
//! - `split`: the owner and building model, and the split of one building.
//! - `levels`: reading an owner's level count.
//! - `render`: a split written out as game script.
//! - `states`: the line rewrite of state resource lists.

pub mod engine;
pub mod levels;
pub mod render;
pub mod rules;
pub mod split;
pub mod states;

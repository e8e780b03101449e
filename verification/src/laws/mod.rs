//! What the operations are for: laws over their results, told without the
//! recursions that define them.

pub mod beam;
pub mod clearing;
pub mod counting;
pub mod games;
pub mod lists;
pub mod moves;
pub mod pairing;
pub mod pieces;
pub mod placements;
pub mod reports;
pub mod rollouts;
pub mod runs;
pub mod search;
pub mod setups;
pub mod surface;
pub mod values;
pub mod words;

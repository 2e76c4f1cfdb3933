//! Search for keyboard layouts that are cheap to type on.
//!
//! A physical layout is a grid of keys, each with a cost and with the finger
//! groups that press it.  A logical layout assigns characters to the keys.
//! What a layout costs follows from how often each run of three characters
//! occurs in a corpus and from what the three keys of the run cost to press
//! in a row.  Three strategies search for a cheap layout: hill climbing,
//! simulated annealing, and an evolutionary search over islands of
//! populations.
//!
//! The crate never calculates with a cost.  The cost of a key is a value of a
//! type that the caller chooses, the cost of a stroke is a formula over the
//! costs of keys, and the strategies rank layouts by an integer key that the
//! caller derives from the cost.  All that is decided by the geometry of the
//! grid, by the assignment of characters and by comparing ranks is decided
//! here, and is proved to be decided as stated.

pub mod algorithms;
pub mod frequency;
pub mod interfaces;
pub mod keyboard_layout;
pub mod n_gram;
mod random;

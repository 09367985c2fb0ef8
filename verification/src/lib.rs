use vstd::prelude::*;

pub mod dices;
pub mod distr_worker;
pub mod game_box;
pub mod game_worker;
pub mod hand_worker;
pub mod pipeline;
pub mod play_worker;
pub mod score_box;
pub mod table;
pub mod tally;
pub mod utils;
pub mod weight_worker;

verus! {

/// The number of dice in a throw.
pub const N_DICE: usize = 5;

} // verus!

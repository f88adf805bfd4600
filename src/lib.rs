//! Depth-limited negamax search with alpha-beta pruning and a transposition
//! table keyed on symmetry-reduced positions.
pub mod game;
pub mod games;
pub mod model;
pub mod search;
pub mod table;

pub use game::GameState;
pub use games::{Pile, Single};
pub use search::{bot_play, negamax, negamax_table, negamax_value};
pub use table::{Bound, Quality, Table};

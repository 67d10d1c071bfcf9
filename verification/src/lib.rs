//! A multi-player number-guessing game: the game rules, the text each
//! player is shown, input validation, and the decisions of the servers
//! that host the game.

pub mod data_type;
pub mod text;
pub mod box_cas;
pub mod state_actor;
pub mod event_loop_futures_unordered;
pub mod event_loop;
pub mod event_loop_spawn_local;

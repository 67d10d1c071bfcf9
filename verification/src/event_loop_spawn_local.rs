//! The server that runs one task per player on a single thread. Its tasks
//! make the same decisions as the threaded server (see `box_cas`).
use vstd::prelude::*;
use vstd::string::StringExecFns;
use crate::data_type::{is_default_launch, start_game, ServerLaunch};

verus! {

/// The server on 127.0.0.1:7878 with a new random game.
pub fn server() -> (launch: ServerLaunch)
    ensures
        is_default_launch(launch),
{
    ServerLaunch { addr: String::from_str("127.0.0.1:7878"), initial_state: start_game() }
}

} // verus!

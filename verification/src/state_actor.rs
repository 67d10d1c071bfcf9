//! The state actor: the one thread that owns the game state and answers the
//! requests of the player threads one at a time.
use vstd::prelude::*;
use vstd::string::StringExecFns;
use crate::data_type::{
    do_action, game_over, is_default_launch, is_over, next_state, start_game, Action, GameState,
    GameStateView, PlayerId, ServerLaunch,
};

verus! {

/// The states last shown to each player, by player.
pub type DisplayedTable = im::HashMap<PlayerId, GameState>;

/// What a table of shown states holds: the state last shown to each player.
pub uninterp spec fn displayed_table(m: DisplayedTable) -> Map<PlayerId, GameStateView>;

/// `im::HashMap::insert`: `player` now maps to `st`, every other entry
/// stays. The previous entry, which the call hands back, is dropped.
#[verifier::external_body]
fn displayed_insert(table: &mut DisplayedTable, player: PlayerId, st: GameState)
    ensures
        displayed_table(*final(table)) == displayed_table(*old(table)).insert(player, st@),
{
    table.insert(player, st);
}

/// A request of a player thread.
pub enum Msg {
    DisplayState(PlayerId),
    ProcessAction(Action),
}

/// The actor's answer.
pub enum Response {
    DisplayState(GameState),
    OtherPlayerWon(GameState),
    ActionCommitted,
}

/// The server on 127.0.0.1:7878 with a new random game for its actor.
pub fn server() -> (launch: ServerLaunch)
    ensures
        is_default_launch(launch),
{
    ServerLaunch { addr: String::from_str("127.0.0.1:7878"), initial_state: start_game() }
}

/// The actor's answer to one request. A display request is answered with
/// the current state, which is recorded as the one last shown to that
/// player. A move is applied and acknowledged while the game goes on; once
/// it is over, the move is refused with the final state.
pub fn handle_request(
    msg: &Msg,
    state: &mut GameState,
    last_displayed: &mut DisplayedTable,
) -> (response: Response)
    ensures
        match *msg {
            Msg::DisplayState(player) => {
                &&& final(state)@ == old(state)@
                &&& displayed_table(*final(last_displayed)) == displayed_table(
                    *old(last_displayed),
                ).insert(player, old(state)@)
                &&& response matches Response::DisplayState(shown) && shown@ == old(state)@
            },
            Msg::ProcessAction(a) => {
                &&& *final(last_displayed) == *old(last_displayed)
                &&& final(state)@ == next_state(old(state)@, a@)
                &&& if is_over(old(state)@) {
                    response matches Response::OtherPlayerWon(shown) && shown@ == old(state)@
                } else {
                    response is ActionCommitted
                }
            },
        },
{
    match msg {
        Msg::DisplayState(player_id) => {
            displayed_insert(last_displayed, *player_id, state.snapshot());
            Response::DisplayState(state.snapshot())
        },
        Msg::ProcessAction(a) => {
            if game_over(state) {
                Response::OtherPlayerWon(state.snapshot())
            } else {
                *state = do_action(state, a);
                Response::ActionCommitted
            }
        },
    }
}

} // verus!

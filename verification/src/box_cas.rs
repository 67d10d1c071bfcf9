//! The decisions of the server that shares one game state among one thread
//! per player, behind a lock.
use vstd::prelude::*;
use vstd::string::StringExecFns;
use crate::text::{
    decimal, law_decimal_reads_back, lemma_decimal_digits, parse_u32, trim, trim_end, trim_start,
};
use crate::data_type::{
    do_action, game_over, greeting, greeting_text, is_default_launch, is_over, late_notice,
    late_text, next_state, start_game, state_view, view_text, Action, GameState, PlayerId,
    ServerLaunch,
};

verus! {

/// The server on 127.0.0.1:7878 with a new random game.
pub fn server() -> (launch: ServerLaunch)
    ensures
        is_default_launch(launch),
{
    ServerLaunch { addr: String::from_str("127.0.0.1:7878"), initial_state: start_game() }
}

/// Applies a player's move to the shared state, unless the game has ended in
/// the meantime: returns whether the move was taken. A refused move leaves
/// the state as it was.
pub fn try_and_commit_action(game_state: &mut GameState, action: &Action) -> (committed: bool)
    ensures
        committed == !is_over(old(game_state)@),
        final(game_state)@ == next_state(old(game_state)@, action@),
        !committed ==> final(game_state)@ == old(game_state)@,
{
    if game_over(game_state) {
        false
    } else {
        *game_state = do_action(game_state, action);
        true
    }
}

} // verus!

verus! {

/// Where a player's session stands: not yet greeted; about to be shown the
/// game; waiting for the player's guess to be committed; or over.
#[derive(Clone, Copy, PartialEq, Eq, Structural, Debug)]
pub enum PlayerPhase {
    Connecting,
    Viewing,
    Guessing,
    Finished,
}

/// What happened last in a player's session: the player connected; the
/// game was read; or the player's move was committed (or refused).
pub enum PlayerEvent {
    Connected,
    Observed(GameState),
    Committed(bool),
}

/// The next phase, and the lines to write to the player.
pub struct PlayerStep {
    pub phase: PlayerPhase,
    pub writes: Vec<String>,
}

/// The lines as texts.
pub open spec fn texts(lines: Seq<String>) -> Seq<Seq<char>> {
    Seq::new(lines.len(), |i: int| lines[i]@)
}

/// The session of one player of the threaded, actor and task servers: the
/// greeting first; then, each time the game is read, the player's view,
/// after which the session ends if the game is over and otherwise waits for
/// the player's guess; a refused move is followed by the late notice. An
/// event that does not fit the phase changes nothing.
pub open spec fn player_step_spec(phase: PlayerPhase, player: PlayerId, event: PlayerEvent) -> (
    PlayerPhase,
    Seq<Seq<char>>,
) {
    match (phase, event) {
        (PlayerPhase::Connecting, PlayerEvent::Connected) => (
            PlayerPhase::Viewing,
            seq![greeting_text(player)],
        ),
        (PlayerPhase::Viewing, PlayerEvent::Observed(st)) => (
            if is_over(st@) {
                PlayerPhase::Finished
            } else {
                PlayerPhase::Guessing
            },
            seq![view_text(st@, player)],
        ),
        (PlayerPhase::Guessing, PlayerEvent::Committed(committed)) => (
            PlayerPhase::Viewing,
            if committed {
                seq![]
            } else {
                seq![late_text()]
            },
        ),
        _ => (phase, seq![]),
    }
}

/// One step of a player's session.
pub fn player_step(phase: PlayerPhase, player_id: PlayerId, event: &PlayerEvent) -> (step:
    PlayerStep)
    ensures
        step.phase == player_step_spec(phase, player_id, *event).0,
        texts(step.writes@) == player_step_spec(phase, player_id, *event).1,
        phase == PlayerPhase::Connecting && *event is Connected ==> step.phase
            == PlayerPhase::Viewing && texts(step.writes@) == seq![
            "You are player "@ + decimal(player_id as nat),
        ],
        phase == PlayerPhase::Guessing ==> (*event matches PlayerEvent::Committed(c) ==> step.phase
            == PlayerPhase::Viewing && texts(step.writes@) == (if c {
            Seq::<Seq<char>>::empty()
        } else {
            seq!["Sorry, another player won in the meantime!"@]
        })),
        phase == PlayerPhase::Viewing ==> (*event matches PlayerEvent::Observed(st) ==> texts(
            step.writes@,
        ) == seq![view_text(st@, player_id)] && (step.phase == PlayerPhase::Finished <==> st@ is Over)),
{
    let mut writes: Vec<String> = Vec::new();
    let next = match (phase, event) {
        (PlayerPhase::Connecting, PlayerEvent::Connected) => {
            writes.push(greeting(player_id));
            PlayerPhase::Viewing
        },
        (PlayerPhase::Viewing, PlayerEvent::Observed(st)) => {
            writes.push(state_view(st, &player_id));
            if game_over(st) {
                PlayerPhase::Finished
            } else {
                PlayerPhase::Guessing
            }
        },
        (PlayerPhase::Guessing, PlayerEvent::Committed(committed)) => {
            if !*committed {
                writes.push(late_notice());
            }
            PlayerPhase::Viewing
        },
        _ => phase,
    };
    assert(texts(writes@) =~= player_step_spec(phase, player_id, *event).1);
    PlayerStep { phase: next, writes }
}

/// The greeting of a session names its own player: it is one line, "You are
/// player " followed by a number, and that number read back is the player's
/// id; so two different players are never greeted alike.
pub proof fn law_greeting_names_the_player(p: PlayerId, q: PlayerId)
    ensures
        player_step_spec(PlayerPhase::Connecting, p, PlayerEvent::Connected).0
            == PlayerPhase::Viewing,
        player_step_spec(PlayerPhase::Connecting, p, PlayerEvent::Connected).1.len() == 1,
        player_step_spec(PlayerPhase::Connecting, p, PlayerEvent::Connected).1[0].take(15)
            == "You are player "@,
        parse_u32(player_step_spec(PlayerPhase::Connecting, p, PlayerEvent::Connected).1[0].skip(15))
            == Some(p),
        p != q ==> player_step_spec(PlayerPhase::Connecting, p, PlayerEvent::Connected).1
            != player_step_spec(PlayerPhase::Connecting, q, PlayerEvent::Connected).1,
{
    reveal_strlit("You are player ");
    let g = player_step_spec(PlayerPhase::Connecting, p, PlayerEvent::Connected).1[0];
    assert(g == "You are player "@ + decimal(p as nat));
    assert(g.take(15) =~= "You are player "@);
    assert(g.skip(15) =~= decimal(p as nat));
    law_decimal_reads_back(p);
    lemma_decimal_digits(p as nat);
    assert(trim(decimal(p as nat)) == decimal(p as nat)) by {
        assert(trim_start(decimal(p as nat)) == decimal(p as nat));
        assert(trim_end(decimal(p as nat)) == decimal(p as nat));
    }
    if p != q {
        let h = player_step_spec(PlayerPhase::Connecting, q, PlayerEvent::Connected).1[0];
        assert(h.skip(15) =~= decimal(q as nat));
        law_decimal_reads_back(q);
        lemma_decimal_digits(q as nat);
        assert(trim(decimal(q as nat)) == decimal(q as nat)) by {
            assert(trim_start(decimal(q as nat)) == decimal(q as nat));
            assert(trim_end(decimal(q as nat)) == decimal(q as nat));
        }
        if player_step_spec(PlayerPhase::Connecting, p, PlayerEvent::Connected).1
            == player_step_spec(PlayerPhase::Connecting, q, PlayerEvent::Connected).1 {
            assert(g == h);
        }
    }
}

/// A refused move, and only a refused move, is answered with the notice that
/// another player won first; after a move, taken or not, the game is shown
/// again; a game-over view, and only that, ends the session.
pub proof fn law_session_answers_moves(
    player: PlayerId,
    committed: bool,
    st: GameState,
)
    ensures
        player_step_spec(PlayerPhase::Guessing, player, PlayerEvent::Committed(committed)).0
            == PlayerPhase::Viewing,
        player_step_spec(PlayerPhase::Guessing, player, PlayerEvent::Committed(committed)).1.len()
            == (if committed {
            0int
        } else {
            1int
        }),
        !committed ==> player_step_spec(
            PlayerPhase::Guessing,
            player,
            PlayerEvent::Committed(committed),
        ).1[0] == "Sorry, another player won in the meantime!"@,
        player_step_spec(PlayerPhase::Viewing, player, PlayerEvent::Observed(st)).1 == seq![
            view_text(st@, player),
        ],
        (player_step_spec(PlayerPhase::Viewing, player, PlayerEvent::Observed(st)).0
            == PlayerPhase::Finished) == (st@ is Over),
{
}

/// A finished session stays finished and writes nothing more.
pub proof fn law_finished_session_is_silent(player: PlayerId, event: PlayerEvent)
    ensures
        player_step_spec(PlayerPhase::Finished, player, event) == (
            PlayerPhase::Finished,
            Seq::<Seq<char>>::empty(),
        ),
{
}

} // verus!

//! The decisions of the single-threaded event-loop server: what it does
//! when a player connects and when a player sends a line. The loop that
//! waits for these events and performs the writes runs outside.
use vstd::prelude::*;
use vstd::string::StringExecFns;
use crate::data_type::{
    accepted_number, do_action, game_over, greeting, greeting_text, is_default_launch, is_over,
    late_notice, late_text, next_state, start_game, state_view, view_text,
    Action, ActionView, GameState, GameStateView, ServerLaunch, MAX_NUM_TO_GUESS, NUM_PLAYERS,
    law_finished_game_is_final, law_finished_game_ignores_moves, lemma_other_texts_are_not_results,
    lemma_play_append, lemma_view_text_of_results, play, first_correct, law_first_correct_guess_wins,
};
use crate::text::{decimal, parse_guess, parse_guess_spec};

verus! {

/// What the server keeps of a connected player: the id, and whether the
/// player's part in the game has ended, after which nothing more is read
/// from that player.
#[derive(Clone, Copy, PartialEq, Eq, Structural, Debug)]
pub struct ClientSlot {
    pub player_id: u32,
    pub done: bool,
}

/// A line of text to write to one client, by its position among the clients.
pub struct Delivery {
    pub client: usize,
    pub text: String,
}

/// The writes as (client, text) pairs.
pub open spec fn deliveries(writes: Seq<Delivery>) -> Seq<(usize, Seq<char>)> {
    Seq::new(writes.len(), |i: int| (writes[i].client, writes[i].text@))
}

/// The state of the event loop: the game, the connected clients in the order
/// they came, and the id the next client will get.
pub struct LoopServer {
    pub game_state: GameState,
    pub clients: Vec<ClientSlot>,
    pub next_player_id: u32,
}

/// What to do after a client connected: write `writes`, start reading from
/// the new client, which sits at `index`, and accept one more client when
/// `accept_more` holds.
pub struct NewClientOutcome {
    pub index: usize,
    pub writes: Vec<Delivery>,
    pub accept_more: bool,
}

/// What to do after a client sent a line: write `writes`, and read the next
/// line from that client when `read_again` holds.
pub struct LineOutcome {
    pub writes: Vec<Delivery>,
    pub read_again: bool,
}

/// The reply to a line that holds no number below `MAX_NUM_TO_GUESS`.
pub open spec fn parse_error_text() -> Seq<char> {
    "Parsing failed. Try again."@
}

/// The final view, sent to each of the first `k` clients whose part had not
/// ended, in the order of the clients.
pub open spec fn notices(clients: Seq<ClientSlot>, game: GameStateView, k: int) -> Seq<
    (usize, Seq<char>),
>
    decreases k,
{
    if k <= 0 {
        seq![]
    } else if !clients[k - 1].done {
        notices(clients, game, k - 1).push(
            ((k - 1) as usize, view_text(game, clients[k - 1].player_id)),
        )
    } else {
        notices(clients, game, k - 1)
    }
}

/// Every client with its part ended.
pub open spec fn all_done(clients: Seq<ClientSlot>) -> Seq<ClientSlot> {
    clients.map_values(|c: ClientSlot| ClientSlot { player_id: c.player_id, done: true })
}

/// The effect of a line: the game and clients after it, the writes, and
/// whether the client is read from again.
pub struct LineStep {
    pub game: GameStateView,
    pub clients: Seq<ClientSlot>,
    pub writes: Seq<(usize, Seq<char>)>,
    pub read_again: bool,
}

/// What a line from the client at `index` does. A client whose part has ended
/// is ignored. A line without a valid number is answered with the parsing
/// error. A valid number is played as that client's move (after a notice if
/// the game had already ended) and the client is shown the new state; if the
/// game is now over, every client's part ends and each client that was still
/// playing is sent the final view.
pub open spec fn line_step(
    game: GameStateView,
    clients: Seq<ClientSlot>,
    index: int,
    line: Seq<char>,
) -> LineStep {
    let c = clients[index];
    if c.done {
        LineStep { game, clients, writes: seq![], read_again: false }
    } else {
        match accepted_number(line, MAX_NUM_TO_GUESS) {
            Some(n) => {
                let late: Seq<(usize, Seq<char>)> = if is_over(game) {
                    seq![(index as usize, late_text())]
                } else {
                    seq![]
                };
                let after = next_state(game, ActionView { player: c.player_id, guess: n });
                let own = late.push((index as usize, view_text(after, c.player_id)));
                if is_over(after) {
                    let marked = clients.update(
                        index,
                        ClientSlot { player_id: c.player_id, done: true },
                    );
                    LineStep {
                        game: after,
                        clients: all_done(marked),
                        writes: own + notices(marked, after, marked.len() as int),
                        read_again: false,
                    }
                } else {
                    LineStep { game: after, clients, writes: own, read_again: true }
                }
            },
            None => LineStep {
                game,
                clients,
                writes: seq![(index as usize, parse_error_text())],
                read_again: true,
            },
        }
    }
}

/// Ends the part of every client, sending the final view to each one whose
/// part had not ended yet.
fn notify_remaining(clients: &mut Vec<ClientSlot>, game: &GameState, writes: &mut Vec<Delivery>)
    ensures
        final(clients)@ == all_done(old(clients)@),
        deliveries(final(writes)@) == deliveries(old(writes)@) + notices(
            old(clients)@,
            game@,
            old(clients)@.len() as int,
        ),
{
    let ghost marked = clients@;
    let ghost own = deliveries(writes@);
    let n = clients.len();
    let mut k: usize = 0;
    assert(own + notices(marked, game@, 0) =~= own);
    while k < n
        invariant
            n == clients.len(),
            n == marked.len(),
            k <= n,
            forall|j: int|
                0 <= j < k ==> #[trigger] clients[j] == (ClientSlot {
                    player_id: marked[j].player_id,
                    done: true,
                }),
            forall|j: int| k <= j < n ==> #[trigger] clients[j] == marked[j],
            deliveries(writes@) == own + notices(marked, game@, k as int),
        decreases n - k,
    {
        let other = clients[k];
        let ghost before = writes@;
        if !other.done {
            let text = state_view(game, &other.player_id);
            writes.push(Delivery { client: k, text });
            clients.set(k, ClientSlot { player_id: other.player_id, done: true });
            assert(deliveries(writes@) =~= deliveries(before).push(
                (k, view_text(game@, other.player_id)),
            ));
        }
        k = k + 1;
    }
    assert(clients@ =~= all_done(marked));
}

impl LoopServer {
    /// Player ids are handed out in order from 0, at most `NUM_PLAYERS` of
    /// them: the client at position `i` is player `i`.
    pub open spec fn wf(&self) -> bool {
        &&& self.next_player_id <= NUM_PLAYERS
        &&& self.clients.len() == self.next_player_id
        &&& forall|i: int| 0 <= i < self.clients.len() ==> #[trigger] self.clients[i].player_id == i
    }

    /// A server with the given game and no clients yet.
    pub fn new(initial_state: GameState) -> (s: Self)
        ensures
            s.wf(),
            s.game_state@ == initial_state@,
            s.clients@ == Seq::<ClientSlot>::empty(),
            s.next_player_id == 0,
    {
        LoopServer { game_state: initial_state, clients: Vec::new(), next_player_id: 0 }
    }

    /// A client connected: it becomes the next player, is greeted and shown
    /// the game.
    pub fn on_new_client(&mut self) -> (out: NewClientOutcome)
        requires
            old(self).wf(),
            old(self).next_player_id < NUM_PLAYERS,
        ensures
            final(self).wf(),
            final(self).game_state@ == old(self).game_state@,
            final(self).next_player_id == old(self).next_player_id + 1,
            final(self).clients@ == old(self).clients@.push(
                ClientSlot { player_id: old(self).next_player_id, done: false },
            ),
            out.index == old(self).clients.len(),
            out.accept_more == (final(self).next_player_id < NUM_PLAYERS),
            deliveries(out.writes@) == seq![
                (out.index, greeting_text(old(self).next_player_id)),
                (out.index, view_text(old(self).game_state@, old(self).next_player_id)),
            ],
    {
        let player_id = self.next_player_id;
        self.next_player_id = self.next_player_id + 1;
        let index = self.clients.len();
        let mut writes: Vec<Delivery> = Vec::new();
        writes.push(Delivery { client: index, text: greeting(player_id) });
        writes.push(Delivery { client: index, text: state_view(&self.game_state, &player_id) });
        self.clients.push(ClientSlot { player_id, done: false });
        assert(deliveries(writes@) =~= seq![
            (index, greeting_text(player_id)),
            (index, view_text(self.game_state@, player_id)),
        ]);
        NewClientOutcome { index, writes, accept_more: self.next_player_id < NUM_PLAYERS }
    }

    /// The client at `index` sent `line`.
    pub fn on_line(&mut self, index: usize, line: &str) -> (out: LineOutcome)
        requires
            old(self).wf(),
            index < old(self).clients.len(),
        ensures
            final(self).wf(),
            final(self).next_player_id == old(self).next_player_id,
            final(self).game_state@ == line_step(
                old(self).game_state@,
                old(self).clients@,
                index as int,
                line@,
            ).game,
            final(self).clients@ == line_step(
                old(self).game_state@,
                old(self).clients@,
                index as int,
                line@,
            ).clients,
            deliveries(out.writes@) == line_step(
                old(self).game_state@,
                old(self).clients@,
                index as int,
                line@,
            ).writes,
            out.read_again == line_step(
                old(self).game_state@,
                old(self).clients@,
                index as int,
                line@,
            ).read_again,
            !old(self).clients@[index as int].done && !(parse_guess_spec(line@) matches Some(n) && n
                < MAX_NUM_TO_GUESS) ==> {
                &&& final(self).game_state@ == old(self).game_state@
                &&& final(self).clients@ == old(self).clients@
                &&& deliveries(out.writes@) == seq![(index, "Parsing failed. Try again."@)]
                &&& out.read_again
            },
            !old(self).clients@[index as int].done ==> (parse_guess_spec(line@) matches Some(n) ==> (n
                < MAX_NUM_TO_GUESS ==> final(self).game_state@ == next_state(
                old(self).game_state@,
                ActionView { player: index as u32, guess: n },
            ))),
    {
        let slot = self.clients[index];
        let player_id = slot.player_id;
        let mut writes: Vec<Delivery> = Vec::new();
        if slot.done {
            assert(deliveries(writes@) =~= seq![]);
            return LineOutcome { writes, read_again: false };
        }
        let ghost game0 = self.game_state@;
        let guess = match parse_guess(line) {
            Some(n) => if n < MAX_NUM_TO_GUESS {
                Some(n)
            } else {
                None
            },
            None => None,
        };
        match guess {
            Some(n) => {
                let ghost late: Seq<(usize, Seq<char>)> = if is_over(game0) {
                    seq![(index, late_text())]
                } else {
                    seq![]
                };
                if game_over(&self.game_state) {
                    writes.push(Delivery { client: index, text: late_notice() });
                } else {
                    let action = Action::new(player_id, n);
                    self.game_state = do_action(&self.game_state, &action);
                }
                assert(deliveries(writes@) =~= late);
                let text = state_view(&self.game_state, &player_id);
                writes.push(Delivery { client: index, text });
                let ghost own = late.push((index, view_text(self.game_state@, player_id)));
                assert(deliveries(writes@) =~= own);
                if game_over(&self.game_state) {
                    self.clients.set(index, ClientSlot { player_id, done: true });
                    notify_remaining(&mut self.clients, &self.game_state, &mut writes);
                    return LineOutcome { writes, read_again: false };
                }
            },
            None => {
                let text = String::from_str("Parsing failed. Try again.");
                writes.push(Delivery { client: index, text });
                assert(deliveries(writes@) =~= seq![(index, parse_error_text())]);
            },
        }
        LineOutcome { writes, read_again: true }
    }
}

impl LoopServer {
    /// The client at `index` went away: its part in the game ends, so
    /// nothing more is read from it or sent to it.
    pub fn retire(&mut self, index: usize)
        requires
            old(self).wf(),
            index < old(self).clients.len(),
        ensures
            final(self).wf(),
            final(self).next_player_id == old(self).next_player_id,
            final(self).game_state@ == old(self).game_state@,
            final(self).clients@ == old(self).clients@.update(
                index as int,
                ClientSlot { player_id: old(self).clients@[index as int].player_id, done: true },
            ),
    {
        let player_id = self.clients[index].player_id;
        self.clients.set(index, ClientSlot { player_id, done: true });
    }
}

proof fn lemma_notices_bounds(clients: Seq<ClientSlot>, game: GameStateView, k: int)
    requires
        0 <= k <= clients.len(),
    ensures
        forall|j: int|
            0 <= j < notices(clients, game, k).len() ==> (#[trigger] notices(clients, game, k)[j]).0
                < k,
    decreases k,
{
    if k > 0 {
        lemma_notices_bounds(clients, game, k - 1);
        let prev = notices(clients, game, k - 1);
        let cur = notices(clients, game, k);
        assert forall|j: int| 0 <= j < cur.len() implies (#[trigger] cur[j]).0 < k by {
            if j < prev.len() {
                if !clients[k - 1].done {
                    assert(cur[j] == prev[j]);
                }
            }
        }
    }
}

/// A line changes no client's id and keeps the number of clients; every
/// write it makes goes to one of the clients.
pub proof fn lemma_line_step_shape(
    game: GameStateView,
    clients: Seq<ClientSlot>,
    index: int,
    line: Seq<char>,
)
    requires
        0 <= index < clients.len(),
    ensures
        line_step(game, clients, index, line).clients.len() == clients.len(),
        forall|j: int|
            0 <= j < clients.len() ==> (#[trigger] line_step(game, clients, index, line).clients[j]).player_id
                == clients[j].player_id,
        forall|j: int|
            0 <= j < clients.len() && clients[j].done ==> (#[trigger] line_step(
                game,
                clients,
                index,
                line,
            ).clients[j]).done,
        forall|j: int|
            0 <= j < line_step(game, clients, index, line).writes.len() ==> (
            #[trigger] line_step(game, clients, index, line).writes[j]).0 < clients.len(),
{
    let step = line_step(game, clients, index, line);
    let c = clients[index];
    if !c.done {
        if let Some(n) = accepted_number(line, MAX_NUM_TO_GUESS) {
            let after = next_state(game, ActionView { player: c.player_id, guess: n });
            if is_over(after) {
                let marked = clients.update(index, ClientSlot { player_id: c.player_id, done: true });
                lemma_notices_bounds(marked, after, marked.len() as int);
                let late: Seq<(usize, Seq<char>)> = if is_over(game) {
                    seq![(index as usize, late_text())]
                } else {
                    seq![]
                };
                let own = late.push((index as usize, view_text(after, c.player_id)));
                let rest = notices(marked, after, marked.len() as int);
                assert forall|j: int| 0 <= j < (own + rest).len() implies (#[trigger] (own
                    + rest)[j]).0 < clients.len() by {
                    if j >= own.len() {
                        assert((own + rest)[j] == rest[j - own.len()]);
                    }
                }
            }
        }
    }
}

/// Only a number below `MAX_NUM_TO_GUESS` is played. A line from a client
/// still playing that holds no number, or a number of `MAX_NUM_TO_GUESS` or
/// more, changes nothing and is answered with the parsing error alone, and
/// the client is read again; a number below the bound is played as that
/// client's guess.
pub proof fn law_only_numbers_below_max_are_played(
    game: GameStateView,
    clients: Seq<ClientSlot>,
    index: int,
    line: Seq<char>,
)
    requires
        0 <= index < clients.len(),
        !clients[index].done,
    ensures
        !(parse_guess_spec(line) matches Some(n) && n < MAX_NUM_TO_GUESS) ==> {
            &&& line_step(game, clients, index, line).game == game
            &&& line_step(game, clients, index, line).clients == clients
            &&& line_step(game, clients, index, line).writes == seq![
                (index as usize, "Parsing failed. Try again."@),
            ]
            &&& line_step(game, clients, index, line).read_again
        },
        parse_guess_spec(line) matches Some(n) ==> (n < MAX_NUM_TO_GUESS ==> line_step(
            game,
            clients,
            index,
            line,
        ).game == next_state(game, ActionView { player: clients[index].player_id, guess: n })),
{
}

/// The server on 127.0.0.1:7878 with a new random game.
pub fn server() -> (launch: ServerLaunch)
    ensures
        is_default_launch(launch),
{
    ServerLaunch { addr: String::from_str("127.0.0.1:7878"), initial_state: start_game() }
}

} // verus!

verus! {

proof fn lemma_notices_contains(clients: Seq<ClientSlot>, game: GameStateView, k: int, j: int)
    requires
        0 <= j < k <= clients.len(),
        !clients[j].done,
    ensures
        notices(clients, game, k).contains((j as usize, view_text(game, clients[j].player_id))),
    decreases k,
{
    let e = (j as usize, view_text(game, clients[j].player_id));
    if j == k - 1 {
        let prev = notices(clients, game, k - 1);
        assert(prev.push(e)[prev.len() as int] == e);
    } else {
        lemma_notices_contains(clients, game, k - 1, j);
        let prev = notices(clients, game, k - 1);
        let i = choose|i: int| 0 <= i < prev.len() && prev[i] == e;
        if !clients[k - 1].done {
            let last = ((k - 1) as usize, view_text(game, clients[k - 1].player_id));
            assert(prev.push(last)[i] == e);
        }
    }
}

/// The first player to guess the secret wins and the others are told at
/// once: when a line from a client still playing ends a game that was in
/// progress, that client's player is the winner and is told so, every other
/// client still playing is sent "Player {winner} won.", every client's part
/// ends, and nothing more is read from the winner.
pub proof fn law_winning_line_notifies_everyone(
    game: GameStateView,
    clients: Seq<ClientSlot>,
    index: int,
    line: Seq<char>,
)
    requires
        0 <= index < clients.len(),
        forall|i: int| 0 <= i < clients.len() ==> #[trigger] clients[i].player_id == i,
        !clients[index].done,
        !is_over(game),
        is_over(line_step(game, clients, index, line).game),
    ensures
        line_step(game, clients, index, line).game == GameStateView::Over(index as u32),
        forall|j: int|
            0 <= j < clients.len() ==> #[trigger] line_step(game, clients, index, line).clients[j].done,
        line_step(game, clients, index, line).writes.contains(
            (index as usize, "You won! Game over."@),
        ),
        forall|j: int|
            0 <= j < clients.len() && j != index && !clients[j].done ==> line_step(
                game,
                clients,
                index,
                line,
            ).writes.contains(((j as usize), "Player "@ + decimal(index as nat) + " won."@)),
        !line_step(game, clients, index, line).read_again,
{
    let step = line_step(game, clients, index, line);
    let c = clients[index];
    let n = accepted_number(line, MAX_NUM_TO_GUESS)->Some_0;
    let after = next_state(game, ActionView { player: c.player_id, guess: n });
    let own: Seq<(usize, Seq<char>)> = seq![].push((index as usize, view_text(after, c.player_id)));
    let marked = clients.update(index, ClientSlot { player_id: c.player_id, done: true });
    let rest = notices(marked, after, marked.len() as int);
    assert(step.writes == own + rest);
    assert((own + rest)[0] == (index as usize, "You won! Game over."@));
    assert forall|j: int|
        0 <= j < clients.len() && j != index && !clients[j].done implies step.writes.contains(
        ((j as usize), "Player "@ + decimal(index as nat) + " won."@),
    ) by {
        assert(marked[j] == clients[j]);
        lemma_notices_contains(marked, after, marked.len() as int, j);
        let i = choose|i: int|
            0 <= i < rest.len() && rest[i] == (j as usize, view_text(after, marked[j].player_id));
        assert((own + rest)[own.len() + i] == rest[i]);
    }
}

} // verus!

verus! {

/// An event of the async loop, as its decisions see it: a client joins, or
/// the client at a position sends a line.
pub enum LoopEvent {
    Join,
    Line(int, Seq<char>),
}

/// The game and the clients of the async loop.
pub struct LoopState {
    pub game: GameStateView,
    pub clients: Seq<ClientSlot>,
}

/// One event: the state after it, and the writes it makes. A join once
/// `NUM_PLAYERS` have joined, or a line from no client, changes nothing.
pub open spec fn event_step(s: LoopState, e: LoopEvent) -> (LoopState, Seq<(usize, Seq<char>)>) {
    match e {
        LoopEvent::Join => {
            if s.clients.len() < NUM_PLAYERS {
                let p = s.clients.len() as u32;
                (
                    LoopState {
                        game: s.game,
                        clients: s.clients.push(ClientSlot { player_id: p, done: false }),
                    },
                    seq![(p as usize, greeting_text(p)), (p as usize, view_text(s.game, p))],
                )
            } else {
                (s, seq![])
            }
        },
        LoopEvent::Line(i, t) => {
            if 0 <= i < s.clients.len() {
                let st = line_step(s.game, s.clients, i, t);
                (LoopState { game: st.game, clients: st.clients }, st.writes)
            } else {
                (s, seq![])
            }
        },
    }
}

/// A run of events: the final state and every write, in order.
pub open spec fn run(s: LoopState, events: Seq<LoopEvent>) -> (LoopState, Seq<(usize, Seq<char>)>)
    decreases events.len(),
{
    if events.len() == 0 {
        (s, seq![])
    } else {
        let first = event_step(s, events[0]);
        let rest = run(first.0, events.drop_first());
        (rest.0, first.1 + rest.1)
    }
}

/// The move an event plays: a valid number on a line from a client still
/// playing.
pub open spec fn event_move(s: LoopState, e: LoopEvent) -> Seq<ActionView> {
    match e {
        LoopEvent::Line(i, t) => {
            if 0 <= i < s.clients.len() && !s.clients[i].done {
                match accepted_number(t, MAX_NUM_TO_GUESS) {
                    Some(n) => seq![ActionView { player: s.clients[i].player_id, guess: n }],
                    None => seq![],
                }
            } else {
                seq![]
            }
        },
        LoopEvent::Join => seq![],
    }
}

/// The moves a run plays, in order.
pub open spec fn run_moves(s: LoopState, events: Seq<LoopEvent>) -> Seq<ActionView>
    decreases events.len(),
{
    if events.len() == 0 {
        seq![]
    } else {
        event_move(s, events[0]) + run_moves(event_step(s, events[0]).0, events.drop_first())
    }
}

/// The client at position `i` is player `i`, and at most `NUM_PLAYERS` have
/// joined.
pub open spec fn ids_in_order(clients: Seq<ClientSlot>) -> bool {
    &&& clients.len() <= NUM_PLAYERS
    &&& forall|i: int| 0 <= i < clients.len() ==> #[trigger] clients[i].player_id == i
}

/// Every announced result names the winner of `game`: each "You won! Game
/// over." goes to the player who won it, and each "Player {x} won." names
/// that player.
pub open spec fn results_agree(writes: Seq<(usize, Seq<char>)>, game: GameStateView) -> bool {
    &&& forall|j: int|
        0 <= j < writes.len() && (#[trigger] writes[j]).1 == "You won! Game over."@ ==> game
            == GameStateView::Over(writes[j].0 as u32)
    &&& forall|j: int, x: u32|
        #![trigger writes[j], decimal(x as nat)]
        0 <= j < writes.len() && writes[j].1 == "Player "@ + decimal(x as nat)
            + " won."@ ==> game == GameStateView::Over(x)
}

proof fn lemma_notices_shape(clients: Seq<ClientSlot>, game: GameStateView, k: int)
    requires
        0 <= k <= clients.len(),
        clients.len() <= NUM_PLAYERS,
    ensures
        forall|m: int|
            0 <= m < notices(clients, game, k).len() ==> {
                let e = #[trigger] notices(clients, game, k)[m];
                &&& e.0 < k
                &&& e.1 == view_text(game, clients[e.0 as int].player_id)
            },
    decreases k,
{
    if k > 0 {
        lemma_notices_shape(clients, game, k - 1);
        let prev = notices(clients, game, k - 1);
        let cur = notices(clients, game, k);
        assert forall|m: int| 0 <= m < cur.len() implies {
            let e = #[trigger] cur[m];
            &&& e.0 < k
            &&& e.1 == view_text(game, clients[e.0 as int].player_id)
        } by {
            if m < prev.len() && !clients[k - 1].done {
                assert(cur[m] == prev[m]);
            }
            if m == prev.len() {
                assert(((k - 1) as usize) as int == k - 1);
            }
        }
    }
}

proof fn lemma_view_write_agrees(st: GameStateView, p: u32, i: usize)
    requires
        p == i,
    ensures
        results_agree(seq![(i, view_text(st, p))], st),
{
    let w = seq![(i, view_text(st, p))];
    assert forall|j: int, x: u32|
        #![trigger w[j], decimal(x as nat)]
        0 <= j < w.len() && w[j].1 == "Player "@ + decimal(x as nat) + " won."@
        implies st == GameStateView::Over(x) by {
        lemma_view_text_of_results(st, p, x);
    }
    lemma_view_text_of_results(st, p, 0);
}

proof fn lemma_event_step(s: LoopState, e: LoopEvent)
    requires
        ids_in_order(s.clients),
    ensures
        ids_in_order(event_step(s, e).0.clients),
        event_step(s, e).0.game == play(s.game, event_move(s, e)),
        results_agree(event_step(s, e).1, event_step(s, e).0.game),
{
    let (s1, w1) = event_step(s, e);
    match e {
        LoopEvent::Join => {
            if s.clients.len() < NUM_PLAYERS {
                let p = s.clients.len() as u32;
                lemma_view_write_agrees(s.game, p, p as usize);
                assert forall|x: u32| true implies greeting_text(p) != "You won! Game over."@
                    && greeting_text(p) != "Player "@ + decimal(x as nat) + " won."@ by {
                    lemma_other_texts_are_not_results(p, x);
                }
                let v = seq![(p as usize, view_text(s.game, p))];
                assert(w1 =~= seq![(p as usize, greeting_text(p))] + v);
                assert forall|j: int| 0 <= j < w1.len() && 0 < j implies w1[j] == v[j - 1] by {}
            }
        },
        LoopEvent::Line(i, t) => {
            if 0 <= i < s.clients.len() {
                lemma_line_step_shape(s.game, s.clients, i, t);
                let c = s.clients[i];
                if !c.done {
                    match accepted_number(t, MAX_NUM_TO_GUESS) {
                        Some(n) => {
                            let a = ActionView { player: c.player_id, guess: n };
                            assert(play(s.game, seq![a]) == play(next_state(s.game, a), seq![a].drop_first()));
                            assert(seq![a].drop_first() =~= Seq::<ActionView>::empty());
                            let after = next_state(s.game, a);
                            if is_over(s.game) {
                                law_finished_game_is_final(s.game, a);
                            }
                            let late: Seq<(usize, Seq<char>)> = if is_over(s.game) {
                                seq![(i as usize, late_text())]
                            } else {
                                seq![]
                            };
                            let own = late.push((i as usize, view_text(after, c.player_id)));
                            lemma_view_write_agrees(after, c.player_id, i as usize);
                            assert forall|x: u32| true implies late_text() != "You won! Game over."@
                                && late_text() != "Player "@ + decimal(x as nat) + " won."@ by {
                                lemma_other_texts_are_not_results(0, x);
                            }
                            if is_over(after) {
                                let marked = s.clients.update(
                                    i,
                                    ClientSlot { player_id: c.player_id, done: true },
                                );
                                let rest = notices(marked, after, marked.len() as int);
                                lemma_notices_shape(marked, after, marked.len() as int);
                                assert(w1 == own + rest);
                                assert forall|j: int| 0 <= j < w1.len() implies results_agree(
                                    seq![#[trigger] w1[j]],
                                    after,
                                ) by {
                                    if j < late.len() {
                                        assert(w1[j] == late[j]);
                                    } else if j == late.len() {
                                        assert(w1[j] == own[j]);
                                        lemma_view_write_agrees(after, c.player_id, i as usize);
                                    } else {
                                        let e2 = rest[j - own.len()];
                                        assert(w1[j] == e2);
                                        assert(marked[e2.0 as int].player_id == e2.0);
                                        lemma_view_write_agrees(after, e2.0 as u32, e2.0);
                                    }
                                }
                                assert forall|j: int, x: u32|
        #![trigger w1[j], decimal(x as nat)]
                                    0 <= j < w1.len() && w1[j].1 == "Player "@ + decimal(
                                        x as nat,
                                    ) + " won."@ implies after == GameStateView::Over(x) by {
                                    assert(results_agree(seq![w1[j]], after));
                                    assert(seq![w1[j]][0] == w1[j]);
                                }
                                assert forall|j: int|
                                    0 <= j < w1.len() && (#[trigger] w1[j]).1 == "You won! Game over."@
                                    implies after == GameStateView::Over(w1[j].0 as u32) by {
                                    assert(results_agree(seq![w1[j]], after));
                                    assert(seq![w1[j]][0] == w1[j]);
                                }
                            } else {
                                assert forall|j: int| 0 <= j < w1.len() implies w1[j] == own[j] by {}
                            }
                        },
                        None => {
                            assert forall|x: u32| true implies "Parsing failed. Try again."@
                                != "You won! Game over."@ && "Parsing failed. Try again."@ != "Player "@
                                + decimal(x as nat) + " won."@ by {
                                lemma_other_texts_are_not_results(0, x);
                            }
                            assert(play(s.game, seq![]) == s.game);
                        },
                    }
                } else {
                    assert(play(s.game, seq![]) == s.game);
                }
            } else {
                assert(play(s.game, seq![]) == s.game);
            }
        },
    }
    if event_move(s, e).len() == 0 {
        assert(event_move(s, e) =~= Seq::<ActionView>::empty());
    }
}

proof fn lemma_run_keeps_result(s: LoopState, events: Seq<LoopEvent>)
    requires
        ids_in_order(s.clients),
        is_over(s.game),
    ensures
        run(s, events).0.game == s.game,
    decreases events.len(),
{
    if events.len() > 0 {
        lemma_event_step(s, events[0]);
        law_finished_game_ignores_moves(s.game, event_move(s, events[0]));
        lemma_run_keeps_result(event_step(s, events[0]).0, events.drop_first());
    }
}

/// Over any run of the async loop, the game ends as the moves the run plays
/// make it end, so the winner is the player of the first valid line that
/// guesses the secret (`law_first_correct_guess_wins`); and every
/// "You won! Game over." goes to that winner and every "Player {x} won."
/// names that winner: at most one client is ever told that it won.
pub proof fn law_one_winner_per_run(s: LoopState, events: Seq<LoopEvent>)
    requires
        ids_in_order(s.clients),
    ensures
        run(s, events).0.game == play(s.game, run_moves(s, events)),
        results_agree(run(s, events).1, run(s, events).0.game),
    decreases events.len(),
{
    if events.len() > 0 {
        let (s1, w1) = event_step(s, events[0]);
        lemma_event_step(s, events[0]);
        law_one_winner_per_run(s1, events.drop_first());
        let (s2, w2) = run(s1, events.drop_first());
        lemma_play_append(s.game, event_move(s, events[0]), run_moves(s1, events.drop_first()));
        let all = w1 + w2;
        assert forall|j: int| 0 <= j < w1.len() && (#[trigger] w1[j]).1 == "You won! Game over."@ implies s2.game == GameStateView::Over(w1[j].0 as u32) by {
            lemma_run_keeps_result(s1, events.drop_first());
        }
        assert forall|j: int, x: u32|
        #![trigger w1[j], decimal(x as nat)] 0 <= j < w1.len() && w1[j].1 == "Player "@ + decimal(x as nat) + " won."@ implies s2.game == GameStateView::Over(x) by {
            lemma_run_keeps_result(s1, events.drop_first());
        }
        assert forall|j: int| 0 <= j < all.len() && (#[trigger] all[j]).1 == "You won! Game over."@ implies s2.game == GameStateView::Over(all[j].0 as u32) by {
            if j < w1.len() {
                assert(all[j] == w1[j]);
            } else {
                assert(all[j] == w2[j - w1.len()]);
            }
        }
        assert forall|j: int, x: u32|
        #![trigger all[j], decimal(x as nat)] 0 <= j < all.len() && all[j].1 == "Player "@ + decimal(x as nat) + " won."@ implies s2.game == GameStateView::Over(x) by {
            if j < w1.len() {
                assert(all[j] == w1[j]);
            } else {
                assert(all[j] == w2[j - w1.len()]);
            }
        }
    } else {
        assert(run_moves(s, events) =~= Seq::<ActionView>::empty());
    }
}

} // verus!

verus! {

/// Over any run of the async loop that starts with a game in progress, the
/// winner is the player of the first valid line that guesses the secret,
/// and if there is none the game is still in progress.
pub proof fn law_first_correct_line_wins(
    s: LoopState,
    events: Seq<LoopEvent>,
    secret: u32,
    guesses: Map<u32, u32>,
)
    requires
        ids_in_order(s.clients),
        s.game == GameStateView::InProgress(secret, guesses),
    ensures
        match first_correct(run_moves(s, events), secret) {
            Some(i) => run(s, events).0.game == GameStateView::Over(
                run_moves(s, events)[i].player,
            ),
            None => !is_over(run(s, events).0.game),
        },
{
    law_one_winner_per_run(s, events);
    law_first_correct_guess_wins(secret, guesses, run_moves(s, events));
}

} // verus!

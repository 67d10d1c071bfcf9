//! The game: its state, the moves of the players, the view each player is
//! shown, and the validation of typed numbers.
use vstd::prelude::*;
use vstd::string::StringExecFns;
use crate::text::{
    decimal, failure_message, failure_text, law_failure_exactly_when_no_number, parse_failure,
    parse_failure_spec, parse_guess, parse_guess_spec, push_decimal, trim,
};

verus! {

/// The persistent map of the `im` crate, held as an opaque value.
#[verifier::external_type_specification]
#[verifier::external_body]
#[verifier::reject_recursive_types(K)]
#[verifier::reject_recursive_types(V)]
#[verifier::reject_recursive_types(S)]
pub struct ExImHashMap<K, V, S>(im::HashMap<K, V, S>);

/// The thread-local random number generator of the `rand` crate.
#[verifier::external_type_specification]
#[verifier::external_body]
pub struct ExThreadRng(rand::rngs::ThreadRng);

pub type SecretNumber = u32;

pub type Guess = u32;

pub type PlayerId = u32;

/// The last guess of each player.
pub type GuessTable = im::HashMap<PlayerId, Guess>;

/// Guesses lie below this bound: the secret is one of `0..MAX_NUM_TO_GUESS`.
pub const MAX_NUM_TO_GUESS: u32 = 20;

/// The number of players in a game.
pub const NUM_PLAYERS: u32 = 3;

/// What a table of guesses holds: each player's last guess.
pub uninterp spec fn guess_table(m: GuessTable) -> Map<PlayerId, Guess>;

/// `im::HashMap::new`: a map with no entries.
#[verifier::external_body]
fn guesses_empty() -> (table: GuessTable)
    ensures
        guess_table(table) =~= Map::empty(),
{
    im::HashMap::new()
}

/// `im::HashMap::update`: a new map that holds the entries of `table` with
/// `player` mapped to `guess`; `table` itself is left as it was.
#[verifier::external_body]
fn guesses_update(table: &GuessTable, player: PlayerId, guess: Guess) -> (updated: GuessTable)
    ensures
        guess_table(updated) == guess_table(*table).insert(player, guess),
{
    table.update(player, guess)
}

/// `im::HashMap::get`, the value copied out: the entry of `player`, if any.
#[verifier::external_body]
fn guesses_get(table: &GuessTable, player: PlayerId) -> (found: Option<Guess>)
    ensures
        found == (if guess_table(*table).contains_key(player) {
            Some(guess_table(*table)[player])
        } else {
            None
        }),
{
    table.get(&player).copied()
}

/// `Clone::clone` of `im::HashMap`: a map with the same entries.
#[verifier::external_body]
fn guesses_clone(table: &GuessTable) -> (copy: GuessTable)
    ensures
        guess_table(copy) == guess_table(*table),
{
    table.clone()
}

/// `rand::rng`: a handle to the generator of this thread. Nothing is
/// promised of what it will produce.
#[verifier::external_body]
fn thread_rng() -> (rng: rand::rngs::ThreadRng) {
    rand::rng()
}

/// `rand::Rng::random_range` on `0..bound`: some number below `bound`.
/// Which one is left to chance, so nothing more is stated.
#[verifier::external_body]
fn random_below(rng: &mut rand::rngs::ThreadRng, bound: u32) -> (n: u32)
    requires
        bound > 0,
    ensures
        n < bound,
{
    rand::Rng::random_range(rng, 0..bound)
}

/// The state of a game: in progress, with the secret and the last guess of
/// each player who has guessed, or over, with the winner.
#[derive(PartialEq)]
pub enum GameState {
    InProgress(SecretNumber, GuessTable),
    Over(PlayerId),
}

/// The mathematical value of a game state.
pub enum GameStateView {
    InProgress(SecretNumber, Map<PlayerId, Guess>),
    Over(PlayerId),
}

impl View for GameState {
    type V = GameStateView;

    open spec fn view(&self) -> GameStateView {
        match self {
            GameState::InProgress(secret, table) => GameStateView::InProgress(
                *secret,
                guess_table(*table),
            ),
            GameState::Over(winner) => GameStateView::Over(*winner),
        }
    }
}

impl Clone for GameState {
    fn clone(&self) -> (copy: GameState)
        ensures
            copy@ == self@,
    {
        self.snapshot()
    }
}

impl GameState {
    /// A copy of this state.
    pub fn snapshot(&self) -> (copy: GameState)
        ensures
            copy@ == self@,
    {
        match self {
            GameState::InProgress(secret, table) => GameState::InProgress(
                *secret,
                guesses_clone(table),
            ),
            GameState::Over(winner) => GameState::Over(*winner),
        }
    }
}

/// A move: a player guesses a number.
#[derive(PartialEq, Eq, Structural, Clone, Copy, Debug)]
pub struct Action {
    player_id: PlayerId,
    guess: u32,
}

/// The mathematical value of a move.
pub struct ActionView {
    pub player: PlayerId,
    pub guess: Guess,
}

impl View for Action {
    type V = ActionView;

    closed spec fn view(&self) -> ActionView {
        ActionView { player: self.player_id, guess: self.guess }
    }
}

impl Action {
    pub fn new(player_id: PlayerId, guess: Guess) -> (a: Self)
        ensures
            a@ == (ActionView { player: player_id, guess: guess }),
    {
        Action { player_id, guess }
    }

    pub fn get_guess(&self) -> (g: u32)
        ensures
            g == self@.guess,
    {
        self.guess
    }

    pub fn get_player_id(&self) -> (p: PlayerId)
        ensures
            p == self@.player,
    {
        self.player_id
    }
}

/// The game is over once somebody has guessed the secret.
pub open spec fn is_over(st: GameStateView) -> bool {
    st is Over
}

/// The state after a move: a move on a finished game changes nothing; the
/// right guess ends the game with its player as the winner; a wrong guess is
/// recorded as that player's last guess.
pub open spec fn next_state(st: GameStateView, a: ActionView) -> GameStateView {
    match st {
        GameStateView::Over(_) => st,
        GameStateView::InProgress(secret, guesses) => {
            if secret == a.guess {
                GameStateView::Over(a.player)
            } else {
                GameStateView::InProgress(secret, guesses.insert(a.player, a.guess))
            }
        },
    }
}

/// The line shown to `player`: the result once the game is over, otherwise a
/// hint from the player's last guess, or the rules before the first guess.
pub open spec fn view_text(st: GameStateView, player: PlayerId) -> Seq<char> {
    match st {
        GameStateView::Over(winner) => {
            if winner == player {
                "You won! Game over."@
            } else {
                "Player "@ + decimal(winner as nat) + " won."@
            }
        },
        GameStateView::InProgress(secret, guesses) => {
            if guesses.contains_key(player) {
                if secret < guesses[player] {
                    "Guess lower."@
                } else {
                    "Guess higher"@
                }
            } else {
                "Guess a number from 0 to "@ + decimal((MAX_NUM_TO_GUESS - 1) as nat) + "."@
            }
        },
    }
}

/// A number typed by a player, as the game takes it: the line, trimmed, is
/// an unsigned number below `max`.
pub open spec fn accepted_number(line: Seq<char>, max: u32) -> Option<u32> {
    match parse_guess_spec(line) {
        Some(n) => if n < max {
            Some(n)
        } else {
            None
        },
        None => None,
    }
}

/// A game with the given secret that nobody has guessed in yet.
pub fn start_game_with_secret(secret: u32) -> (st: GameState)
    ensures
        st@ == GameStateView::InProgress(secret, Map::empty()),
{
    GameState::InProgress(secret, guesses_empty())
}

/// A new game with a random secret below `MAX_NUM_TO_GUESS`.
pub fn start_game() -> (st: GameState)
    ensures
        st@ matches GameStateView::InProgress(secret, guesses) && secret < MAX_NUM_TO_GUESS
            && guesses == Map::<PlayerId, Guess>::empty(),
{
    let mut rng = thread_rng();
    let answer = random_below(&mut rng, MAX_NUM_TO_GUESS);
    start_game_with_secret(answer)
}

pub fn game_over(st: &GameState) -> (over: bool)
    ensures
        over == is_over(st@),
{
    match st {
        GameState::Over(_) => true,
        _ => false,
    }
}

/// Processes a player's move and returns the new game state.
pub fn do_action(st: &GameState, a: &Action) -> (next: GameState)
    ensures
        next@ == next_state(st@, a@),
{
    match st {
        GameState::Over(winner) => GameState::Over(*winner),
        GameState::InProgress(secret_num, hash) => {
            if *secret_num == a.get_guess() {
                GameState::Over(a.get_player_id())
            } else {
                let new_hash = guesses_update(hash, a.get_player_id(), a.get_guess());
                GameState::InProgress(*secret_num, new_hash)
            }
        },
    }
}

/// The message that should be shown to a specific player.
pub fn state_view(st: &GameState, player_id: &PlayerId) -> (text: String)
    ensures
        text@ == view_text(st@, *player_id),
{
    match st {
        GameState::Over(winner) => {
            if *winner == *player_id {
                String::from_str("You won! Game over.")
            } else {
                let mut text = String::from_str("Player ");
                push_decimal(&mut text, *winner);
                text.append(" won.");
                text
            }
        },
        GameState::InProgress(secret_num, hash) => {
            let last_guess = guesses_get(hash, *player_id);
            match last_guess {
                Some(guess) => {
                    if *secret_num < guess {
                        String::from_str("Guess lower.")
                    } else {
                        String::from_str("Guess higher")
                    }
                },
                None => {
                    let mut text = String::from_str("Guess a number from 0 to ");
                    push_decimal(&mut text, MAX_NUM_TO_GUESS - 1);
                    text.append(".");
                    text
                },
            }
        },
    }
}

/// Reads a number below `max` from a line of input.
pub fn parse_number_input(str: String, max: u32) -> (r: Result<u32, String>)
    ensures
        match r {
            Ok(n) => accepted_number(str@, max) == Some(n),
            Err(msg) => accepted_number(str@, max) is None && msg@ == "Parsing failed"@,
        },
{
    match parse_guess(str.as_str()) {
        Some(n) => {
            if n < max {
                Ok(n)
            } else {
                Err(String::from_str("Parsing failed"))
            }
        },
        None => Err(String::from_str("Parsing failed")),
    }
}

} // verus!

verus! {

/// The greeting a player receives on connecting.
pub open spec fn greeting_text(player: PlayerId) -> Seq<char> {
    "You are player "@ + decimal(player as nat)
}

/// The notice to a player whose move came after the game had ended.
pub open spec fn late_text() -> Seq<char> {
    "Sorry, another player won in the meantime!"@
}

/// "You are player {player_id}".
pub fn greeting(player_id: PlayerId) -> (text: String)
    ensures
        text@ == greeting_text(player_id),
{
    let mut text = String::from_str("You are player ");
    push_decimal(&mut text, player_id);
    text
}

/// The notice sent when a move is refused because another player won first.
pub fn late_notice() -> (text: String)
    ensures
        text@ == late_text(),
{
    String::from_str("Sorry, another player won in the meantime!")
}

/// What to do with one line read from a player: take the number, or write
/// the message and ask again.
pub enum InputStep {
    Accept(u32),
    Retry(String),
}

/// The decision of the input loop: a line holding a number below `max` is
/// taken; otherwise the player is told why and asked again. A failed read
/// is passed in as the text of its error.
pub fn check_input(read: Result<String, String>, max: u32) -> (step: InputStep)
    ensures
        match read {
            Ok(line) => match accepted_number(line@, max) {
                Some(n) => step matches InputStep::Accept(m) && m == n,
                None => step matches InputStep::Retry(msg) && msg@ == "Parsing failed. Try again."@,
            },
            Err(e) => step matches InputStep::Retry(msg) && msg@ == e@ + ". Try again."@,
        },
{
    match read {
        Ok(line) => match parse_number_input(line, max) {
            Ok(num) => InputStep::Accept(num),
            Err(msg) => {
                let mut text = msg;
                text.append(". Try again.");
                proof {
                    reveal_strlit("Parsing failed");
                    reveal_strlit(". Try again.");
                    reveal_strlit("Parsing failed. Try again.");
                    assert(text@ =~= "Parsing failed. Try again."@);
                }
                InputStep::Retry(text)
            },
        },
        Err(msg) => {
            let mut text = msg;
            text.append(". Try again.");
            InputStep::Retry(text)
        },
    }
}

/// Where a server listens and the game it starts with.
pub struct ServerLaunch {
    pub addr: String,
    pub initial_state: GameState,
}

/// The address the servers listen on unless told otherwise.
pub open spec fn default_addr() -> Seq<char> {
    "127.0.0.1:7878"@
}

/// A launch on the default address with a new game, as each server's
/// `server` makes it.
pub open spec fn is_default_launch(launch: ServerLaunch) -> bool {
    &&& launch.addr@ == default_addr()
    &&& launch.initial_state@ matches GameStateView::InProgress(secret, guesses) && secret
        < MAX_NUM_TO_GUESS && guesses == Map::<PlayerId, Guess>::empty()
}

/// The game after a sequence of moves, made one after the other.
pub open spec fn play(st: GameStateView, moves: Seq<ActionView>) -> GameStateView
    decreases moves.len(),
{
    if moves.len() == 0 {
        st
    } else {
        play(next_state(st, moves[0]), moves.drop_first())
    }
}

/// The position of the first move that guesses `secret`, if any.
pub open spec fn first_correct(moves: Seq<ActionView>, secret: SecretNumber) -> Option<int>
    decreases moves.len(),
{
    if moves.len() == 0 {
        None
    } else if moves[0].guess == secret {
        Some(0)
    } else {
        match first_correct(moves.drop_first(), secret) {
            Some(i) => Some(i + 1),
            None => None,
        }
    }
}

/// The last guesses after recording each move in turn.
pub open spec fn record_guesses(guesses: Map<PlayerId, Guess>, moves: Seq<ActionView>) -> Map<
    PlayerId,
    Guess,
>
    decreases moves.len(),
{
    if moves.len() == 0 {
        guesses
    } else {
        record_guesses(guesses.insert(moves[0].player, moves[0].guess), moves.drop_first())
    }
}

/// A finished game stays finished: a move on it changes nothing.
pub proof fn law_finished_game_is_final(st: GameStateView, a: ActionView)
    requires
        is_over(st),
    ensures
        next_state(st, a) == st,
{
}

/// A finished game stays finished, whatever moves come after.
pub proof fn law_finished_game_ignores_moves(st: GameStateView, moves: Seq<ActionView>)
    requires
        is_over(st),
    ensures
        play(st, moves) == st,
    decreases moves.len(),
{
    if moves.len() > 0 {
        law_finished_game_ignores_moves(st, moves.drop_first());
    }
}

/// `first_correct` names the first move that guesses the secret: it guesses
/// the secret and no move before it does; when it names none, no move does.
pub proof fn law_first_correct_is_first(moves: Seq<ActionView>, secret: SecretNumber)
    ensures
        match first_correct(moves, secret) {
            Some(i) => 0 <= i < moves.len() && moves[i].guess == secret && forall|j: int|
                0 <= j < i ==> #[trigger] moves[j].guess != secret,
            None => forall|j: int| 0 <= j < moves.len() ==> #[trigger] moves[j].guess != secret,
        },
    decreases moves.len(),
{
    if moves.len() > 0 {
        law_first_correct_is_first(moves.drop_first(), secret);
        if moves[0].guess != secret {
            match first_correct(moves.drop_first(), secret) {
                Some(i) => {
                    assert forall|j: int| 0 <= j < i + 1 implies #[trigger] moves[j].guess
                        != secret by {
                        if j > 0 {
                            assert(moves[j] == moves.drop_first()[j - 1]);
                        }
                    }
                },
                None => {
                    assert forall|j: int| 0 <= j < moves.len() implies #[trigger] moves[j].guess
                        != secret by {
                        if j > 0 {
                            assert(moves[j] == moves.drop_first()[j - 1]);
                        }
                    }
                },
            }
        }
    }
}

/// The first player to guess the secret wins: a game in progress, after any
/// sequence of moves, is won by the player of the first move that guesses
/// the secret; if no move does, the game goes on with every guess recorded.
pub proof fn law_first_correct_guess_wins(
    secret: SecretNumber,
    guesses: Map<PlayerId, Guess>,
    moves: Seq<ActionView>,
)
    ensures
        play(GameStateView::InProgress(secret, guesses), moves) == match first_correct(
            moves,
            secret,
        ) {
            Some(i) => GameStateView::Over(moves[i].player),
            None => GameStateView::InProgress(secret, record_guesses(guesses, moves)),
        },
    decreases moves.len(),
{
    if moves.len() > 0 {
        let a = moves[0];
        if a.guess == secret {
            law_finished_game_ignores_moves(GameStateView::Over(a.player), moves.drop_first());
        } else {
            law_first_correct_guess_wins(
                secret,
                guesses.insert(a.player, a.guess),
                moves.drop_first(),
            );
            law_first_correct_is_first(moves.drop_first(), secret);
            match first_correct(moves.drop_first(), secret) {
                Some(i) => {
                    assert(moves[i + 1] == moves.drop_first()[i]);
                },
                None => {},
            }
        }
    }
}

/// After a wrong guess the player is told which way the secret lies:
/// "Guess lower." when the secret is below the guess, "Guess higher" when
/// it is above.
pub proof fn law_hint_points_to_secret(
    secret: SecretNumber,
    guesses: Map<PlayerId, Guess>,
    a: ActionView,
)
    requires
        a.guess != secret,
    ensures
        view_text(next_state(GameStateView::InProgress(secret, guesses), a), a.player) == (if secret
            < a.guess {
            "Guess lower."@
        } else {
            "Guess higher"@
        }),
{
}

/// The right guess ends the game with its player as the winner: that player
/// is told "You won! Game over." and every other player "Player {winner} won."
pub proof fn law_right_guess_wins(
    secret: SecretNumber,
    guesses: Map<PlayerId, Guess>,
    a: ActionView,
    other: PlayerId,
)
    requires
        a.guess == secret,
        other != a.player,
    ensures
        next_state(GameStateView::InProgress(secret, guesses), a) == GameStateView::Over(a.player),
        view_text(next_state(GameStateView::InProgress(secret, guesses), a), a.player)
            == "You won! Game over."@,
        view_text(next_state(GameStateView::InProgress(secret, guesses), a), other) == "Player "@
            + decimal(a.player as nat) + " won."@,
{
}

} // verus!

verus! {

/// A player who types a number, then Enter, has that number taken exactly
/// when it lies below `max`.
pub proof fn law_typed_number_is_taken(n: u32, max: u32)
    ensures
        accepted_number(crate::text::decimal(n as nat).push('\n'), max) == (if n < max {
            Some(n)
        } else {
            None
        }),
{
    crate::text::law_decimal_reads_back(n);
}

} // verus!

verus! {

/// No recorded guess is the secret: a right guess ends the game instead of
/// being recorded.
pub open spec fn guesses_miss_secret(st: GameStateView) -> bool {
    match st {
        GameStateView::InProgress(secret, guesses) => forall|p: PlayerId|
            #[trigger] guesses.contains_key(p) ==> guesses[p] != secret,
        GameStateView::Over(_) => true,
    }
}

/// Every game that starts with no guesses keeps its recorded guesses off the
/// secret, whatever moves are made; so while it is in progress, "Guess
/// higher" means that the secret lies strictly above the player's last guess.
pub proof fn law_recorded_guesses_miss_secret(st: GameStateView, moves: Seq<ActionView>)
    requires
        guesses_miss_secret(st),
    ensures
        guesses_miss_secret(play(st, moves)),
        forall|p: PlayerId|
            play(st, moves) matches GameStateView::InProgress(secret, guesses) ==> (guesses.contains_key(
                p,
            ) && #[trigger] view_text(play(st, moves), p) == "Guess higher"@ ==> secret > guesses[p]),
    decreases moves.len(),
{
    if moves.len() > 0 {
        law_recorded_guesses_miss_secret(next_state(st, moves[0]), moves.drop_first());
    }
    let end = play(st, moves);
    assert forall|p: PlayerId|
        end matches GameStateView::InProgress(secret, guesses) ==> (guesses.contains_key(p)
            && #[trigger] view_text(end, p) == "Guess higher"@ ==> secret > guesses[p]) by {
        reveal_strlit("Guess higher");
        reveal_strlit("Guess lower.");
        assert("Guess lower."@[6] != "Guess higher"@[6]);
        if let GameStateView::InProgress(secret, guesses) = end {
            if guesses.contains_key(p) {
                assert(guesses[p] != secret);
            }
        }
    }
}

} // verus!

verus! {

/// The announcement of another player's win names that player: two such
/// lines are the same only for the same winner.
pub proof fn lemma_win_announcement_names_winner(w: PlayerId, x: PlayerId)
    requires
        "Player "@ + decimal(w as nat) + " won."@ == "Player "@ + decimal(x as nat) + " won."@,
    ensures
        w == x,
{
    reveal_strlit("Player ");
    reveal_strlit(" won.");
    let a = "Player "@ + decimal(w as nat) + " won."@;
    let b = "Player "@ + decimal(x as nat) + " won."@;
    let dw = decimal(w as nat);
    let dx = decimal(x as nat);
    assert(a.len() == 7 + dw.len() + 5);
    assert(b.len() == 7 + dx.len() + 5);
    assert(a.subrange(7, 7 + dw.len() as int) =~= dw);
    assert(b.subrange(7, 7 + dx.len() as int) =~= dx);
    assert(dw =~= dx);
    crate::text::lemma_decimal_digits(w as nat);
    crate::text::lemma_decimal_digits(x as nat);
}

/// Only the winner is shown "You won! Game over.", and only once the game
/// is over; "Player {x} won." is shown only when `x` has won.
pub proof fn lemma_view_text_of_results(st: GameStateView, p: PlayerId, x: PlayerId)
    ensures
        view_text(st, p) == "You won! Game over."@ ==> st == GameStateView::Over(p),
        view_text(st, p) == "Player "@ + decimal(x as nat) + " won."@ ==> st
            == GameStateView::Over(x),
{
    reveal_strlit("You won! Game over.");
    reveal_strlit("Player ");
    reveal_strlit(" won.");
    reveal_strlit("Guess lower.");
    reveal_strlit("Guess higher");
    reveal_strlit("Guess a number from 0 to ");
    let you = "You won! Game over."@;
    let pw = "Player "@ + decimal(x as nat) + " won."@;
    assert(you[0] == 'Y');
    assert(pw[0] == 'P');
    match st {
        GameStateView::Over(w) => {
            if w != p {
                let other = "Player "@ + decimal(w as nat) + " won."@;
                assert(other[0] == 'P');
                if other == pw {
                    lemma_win_announcement_names_winner(w, x);
                }
            }
        },
        GameStateView::InProgress(secret, guesses) => {
            let t = view_text(st, p);
            assert(t[0] == 'G');
        },
    }
}

/// The greeting, the notice of a late move and the parsing error are not
/// results of the game.
pub proof fn lemma_other_texts_are_not_results(p: PlayerId, x: PlayerId)
    ensures
        greeting_text(p) != "You won! Game over."@,
        greeting_text(p) != "Player "@ + decimal(x as nat) + " won."@,
        late_text() != "You won! Game over."@,
        late_text() != "Player "@ + decimal(x as nat) + " won."@,
        "Parsing failed. Try again."@ != "You won! Game over."@,
        "Parsing failed. Try again."@ != "Player "@ + decimal(x as nat) + " won."@,
{
    reveal_strlit("You won! Game over.");
    reveal_strlit("Player ");
    reveal_strlit(" won.");
    reveal_strlit("You are player ");
    reveal_strlit("Sorry, another player won in the meantime!");
    reveal_strlit("Parsing failed. Try again.");
    let pw = "Player "@ + decimal(x as nat) + " won."@;
    assert(pw[0] == 'P');
    assert(pw[1] == 'l');
    assert(greeting_text(p)[0] == 'Y');
    assert(greeting_text(p)[4] == 'a');
    assert("You won! Game over."@[4] == 'w');
    assert(late_text()[0] == 'S');
    assert("Parsing failed. Try again."@[1] == 'a');
}

/// Playing one list of moves after another is playing them in turn.
pub proof fn lemma_play_append(st: GameStateView, m1: Seq<ActionView>, m2: Seq<ActionView>)
    ensures
        play(st, m1 + m2) == play(play(st, m1), m2),
    decreases m1.len(),
{
    if m1.len() > 0 {
        assert((m1 + m2).drop_first() =~= m1.drop_first() + m2);
        lemma_play_append(next_state(st, m1[0]), m1.drop_first(), m2);
    } else {
        assert(m1 + m2 =~= m2);
    }
}

} // verus!

verus! {

/// The decision of the terminal game's input loop: a line holding a number
/// below `max` is taken; a number that is too large is refused as invalid
/// input; a line without a number is refused with the reason the number
/// could not be read; a failed read with the text of its error.
pub fn check_terminal_input(read: Result<String, String>, max: u32) -> (step: InputStep)
    ensures
        match read {
            Ok(line) => match parse_guess_spec(line@) {
                Some(n) => if n < max {
                    step matches InputStep::Accept(m) && m == n
                } else {
                    step matches InputStep::Retry(msg) && msg@ == "Invalid input. Try again."@
                },
                None => step matches InputStep::Retry(msg) && parse_failure_spec(trim(line@)) matches Some(
                    f,
                ) && msg@ == failure_message(f) + ". Try again."@,
            },
            Err(e) => step matches InputStep::Retry(msg) && msg@ == e@ + ". Try again."@,
        },
{
    match read {
        Ok(line) => match parse_guess(line.as_str()) {
            Some(num) => {
                if num < max {
                    InputStep::Accept(num)
                } else {
                    InputStep::Retry(String::from_str("Invalid input. Try again."))
                }
            },
            None => {
                proof {
                    law_failure_exactly_when_no_number(line@);
                }
                match parse_failure(line.as_str()) {
                    Some(f) => {
                        let mut text = failure_text(f);
                        text.append(". Try again.");
                        InputStep::Retry(text)
                    },
                    None => {
                        assert(false);
                        InputStep::Retry(String::new())
                    },
                }
            },
        },
        Err(msg) => {
            let mut text = msg;
            text.append(". Try again.");
            InputStep::Retry(text)
        },
    }
}

} // verus!

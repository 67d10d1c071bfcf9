//! The servers' decisions, driven by hand through the scenario of the
//! integration test: the secret is 10, player 0 searches by halving the
//! range and players 1 and 2 always guess 0, so player 0 wins.
use number_guessing::box_cas;
use number_guessing::box_cas::{player_step, try_and_commit_action, PlayerEvent, PlayerPhase};
use number_guessing::data_type::{
    game_over, start_game_with_secret, state_view, Action, GameState,
    MAX_NUM_TO_GUESS,
};
use number_guessing::event_loop::{EventLoop, FdWrite};
use number_guessing::event_loop_futures_unordered;
use number_guessing::event_loop_futures_unordered::{LoopServer, NewClientOutcome};
use number_guessing::event_loop_spawn_local;
use number_guessing::state_actor;
use number_guessing::state_actor::{handle_request, Msg, Response};

const SECRET: u32 = 10;

/// A player who halves the range: it keeps bounds and guesses their middle,
/// moving a bound after each hint.
struct Halving {
    lo: u32,
    hi: u32,
}

impl Halving {
    fn new() -> Self {
        Halving { lo: 0, hi: MAX_NUM_TO_GUESS }
    }

    fn react(&mut self, line: &str) -> Option<u32> {
        if line.starts_with("Guess higher") {
            let mid = (self.lo + self.hi) / 2;
            self.lo = self.lo.max(mid + 1);
        } else if line.starts_with("Guess lower") {
            let mid = (self.lo + self.hi) / 2;
            self.hi = self.hi.min(mid);
        } else if !line.starts_with("Guess a number") {
            return None;
        }
        Some((self.lo + self.hi) / 2)
    }
}

/// One step of the threaded player loop: show the state; stop when the game
/// is over; otherwise commit the guess.
/// A player's session: its phase and every line it was sent.
struct Session {
    player: u32,
    phase: PlayerPhase,
    lines: Vec<String>,
}

impl Session {
    fn connect(player: u32) -> Self {
        let mut s = Session { player, phase: PlayerPhase::Connecting, lines: Vec::new() };
        s.feed(PlayerEvent::Connected);
        s
    }

    fn feed(&mut self, event: PlayerEvent) {
        let step = player_step(self.phase, self.player, &event);
        self.lines.extend(step.writes);
        self.phase = step.phase;
    }
}

/// One round of the threaded player loop: read the state and show it; stop
/// when the game is over; otherwise commit the guess.
fn player_turn(shared: &mut GameState, session: &mut Session, choose: &mut dyn FnMut(&str) -> u32) -> bool {
    session.feed(PlayerEvent::Observed(shared.clone()));
    if session.phase == PlayerPhase::Finished {
        return false;
    }
    let guess = choose(session.lines.last().unwrap());
    let committed = try_and_commit_action(shared, &Action::new(session.player, guess));
    session.feed(PlayerEvent::Committed(committed));
    true
}

#[test]
fn test_box_cas_server() {
    let launch = box_cas::server();
    assert_eq!(launch.addr, "127.0.0.1:7878");
    let mut shared = start_game_with_secret(SECRET);
    let mut players = vec![Session::connect(0), Session::connect(1), Session::connect(2)];
    let mut halving = Halving::new();
    let mut zero = |_: &str| 0u32;
    let mut search = |line: &str| halving.react(line).unwrap();
    // players 1 and 2 guess first, then player 0, then everybody again
    assert!(player_turn(&mut shared, &mut players[1], &mut zero));
    assert!(player_turn(&mut shared, &mut players[2], &mut zero));
    assert!(player_turn(&mut shared, &mut players[0], &mut search));
    assert!(!player_turn(&mut shared, &mut players[0], &mut search));
    assert!(!player_turn(&mut shared, &mut players[1], &mut zero));
    assert!(!player_turn(&mut shared, &mut players[2], &mut zero));
    let lines: Vec<Vec<String>> = players.into_iter().map(|p| p.lines).collect();

    assert!(lines[0][0].starts_with("You are player"));
    assert_eq!(lines[0].iter().find(|l| l.contains("won")).unwrap(), "You won! Game over.");
    for i in 1..3 {
        assert!(lines[i][0].starts_with("You are player"));
        let end = lines[i].iter().find(|l| l.contains("won")).unwrap();
        assert!(end.contains("won") && !end.contains("You won"));
        assert_eq!(end, "Player 0 won.");
    }
    assert_eq!(lines[1][1], "Guess a number from 0 to 19.");
}

#[test]
fn commit_loses_race_with_winner() {
    // player 1 read the state before player 0 won, then tries to commit
    let mut shared = start_game_with_secret(SECRET);
    let seen = shared.clone();
    assert!(!game_over(&seen));
    assert!(try_and_commit_action(&mut shared, &Action::new(0, SECRET)));
    assert!(!try_and_commit_action(&mut shared, &Action::new(1, 3)));
    assert_eq!(state_view(&shared, &1), "Player 0 won.");
}

#[test]
fn test_state_actor_server() {
    let launch = state_actor::server();
    assert_eq!(launch.addr, "127.0.0.1:7878");
    let mut state = start_game_with_secret(SECRET);
    let mut shown: im::HashMap<u32, GameState> = im::HashMap::new();

    let view_of = |r: Response, player: u32| match r {
        Response::DisplayState(st) => state_view(&st, &player),
        _ => panic!("response mismatch"),
    };

    let r = handle_request(&Msg::DisplayState(1), &mut state, &mut shown);
    assert_eq!(view_of(r, 1), "Guess a number from 0 to 19.");
    assert!(shown.contains_key(&1));
    let r = handle_request(&Msg::ProcessAction(Action::new(1, 0)), &mut state, &mut shown);
    assert!(matches!(r, Response::ActionCommitted));
    let r = handle_request(&Msg::DisplayState(1), &mut state, &mut shown);
    assert_eq!(view_of(r, 1), "Guess higher");

    let r = handle_request(&Msg::DisplayState(0), &mut state, &mut shown);
    let mut halving = Halving::new();
    let guess = halving.react(&view_of(r, 0)).unwrap();
    assert_eq!(guess, 10);
    let r = handle_request(&Msg::ProcessAction(Action::new(0, guess)), &mut state, &mut shown);
    assert!(matches!(r, Response::ActionCommitted));
    let r = handle_request(&Msg::DisplayState(0), &mut state, &mut shown);
    assert_eq!(view_of(r, 0), "You won! Game over.");

    // player 2 had read an old state and guesses: refused with the final state
    let r = handle_request(&Msg::ProcessAction(Action::new(2, 0)), &mut state, &mut shown);
    match r {
        Response::OtherPlayerWon(st) => assert_eq!(state_view(&st, &2), "Player 0 won."),
        _ => panic!("response mismatch"),
    }
    for p in 1..3 {
        let r = handle_request(&Msg::DisplayState(p), &mut state, &mut shown);
        assert_eq!(view_of(r, p), "Player 0 won.");
    }
    // each display request recorded what that player was shown
    assert_eq!(state_view(shown.get(&2).unwrap(), &2), "Player 0 won.");
    assert_eq!(state_view(shown.get(&0).unwrap(), &0), "You won! Game over.");
}

fn texts(out: &[number_guessing::event_loop_futures_unordered::Delivery]) -> Vec<(usize, String)> {
    out.iter().map(|d| (d.client, d.text.clone())).collect()
}

fn connect(server: &mut LoopServer) -> NewClientOutcome {
    server.on_new_client()
}

#[test]
fn test_event_loop_futures_unordered_server() {
    let launch = event_loop_futures_unordered::server();
    assert_eq!(launch.addr, "127.0.0.1:7878");
    let mut server = LoopServer::new(start_game_with_secret(SECRET));

    let c0 = connect(&mut server);
    assert_eq!(c0.index, 0);
    assert!(c0.accept_more);
    assert_eq!(
        texts(&c0.writes),
        vec![(0, String::from("You are player 0")), (0, String::from("Guess a number from 0 to 19."))]
    );
    // player 1 joins and guesses before player 2 has connected
    let c1 = connect(&mut server);
    assert_eq!(c1.index, 1);
    assert!(c1.accept_more);
    let out = server.on_line(1, "0\n");
    assert_eq!(texts(&out.writes), vec![(1, String::from("Guess higher"))]);
    assert!(out.read_again);
    let c2 = connect(&mut server);
    assert_eq!(c2.index, 2);
    assert!(!c2.accept_more);
    assert_eq!(texts(&c2.writes)[0], (2, String::from("You are player 2")));

    // a bad line is answered and the client is read again
    let out = server.on_line(2, "zero\n");
    assert_eq!(texts(&out.writes), vec![(2, String::from("Parsing failed. Try again."))]);
    assert!(out.read_again);

    let mut halving = Halving::new();
    let guess = halving.react("Guess a number from 0 to 19.").unwrap();
    let out = server.on_line(0, &format!("{}\n", guess));
    assert!(!out.read_again);
    assert_eq!(
        texts(&out.writes),
        vec![
            (0, String::from("You won! Game over.")),
            (1, String::from("Player 0 won.")),
            (2, String::from("Player 0 won.")),
        ]
    );
    assert!(server.clients.iter().all(|c| c.done));
    assert!(game_over(&server.game_state));

    // nothing more is done for finished clients
    let out = server.on_line(1, "0\n");
    assert!(out.writes.is_empty());
    assert!(!out.read_again);
}

#[test]
fn late_joiner_is_told_the_game_ended() {
    let mut server = LoopServer::new(start_game_with_secret(3));
    connect(&mut server);
    let out = server.on_line(0, "3");
    assert_eq!(texts(&out.writes), vec![(0, String::from("You won! Game over."))]);
    let c1 = connect(&mut server);
    assert_eq!(
        texts(&c1.writes),
        vec![(1, String::from("You are player 1")), (1, String::from("Player 0 won."))]
    );
    let out = server.on_line(1, "5");
    assert_eq!(
        texts(&out.writes),
        vec![
            (1, String::from("Sorry, another player won in the meantime!")),
            (1, String::from("Player 0 won.")),
        ]
    );
    assert!(!out.read_again);
    assert!(server.clients.iter().all(|c| c.done));
}

#[test]
fn test_event_loop_spawn_local_server() {
    let launch = event_loop_spawn_local::server();
    assert_eq!(launch.addr, "127.0.0.1:7878");
    // the tasks of this server take the same steps as the threaded one
    let mut shared = start_game_with_secret(SECRET);
    let mut players = vec![Session::connect(0), Session::connect(1), Session::connect(2)];
    let mut halving = Halving::new();
    let mut zero = |_: &str| 0u32;
    let mut search = |line: &str| halving.react(line).unwrap();
    assert!(player_turn(&mut shared, &mut players[0], &mut search));
    assert!(!player_turn(&mut shared, &mut players[1], &mut zero));
    assert!(!player_turn(&mut shared, &mut players[2], &mut zero));
    assert!(!player_turn(&mut shared, &mut players[0], &mut search));
    let lines: Vec<Vec<String>> = players.into_iter().map(|p| p.lines).collect();
    assert_eq!(lines[0].last().unwrap(), "You won! Game over.");
    assert_eq!(lines[1].last().unwrap(), "Player 0 won.");
    assert_eq!(lines[2].last().unwrap(), "Player 0 won.");
}

#[test]
fn random_launch_is_in_range() {
    for launch in [box_cas::server(), state_actor::server(), event_loop_spawn_local::server()] {
        match launch.initial_state {
            GameState::InProgress(secret, guesses) => {
                assert!(secret < MAX_NUM_TO_GUESS);
                assert!(guesses.is_empty());
            }
            GameState::Over(_) => panic!("a new game is not over"),
        }
    }
}

fn fd_texts(out: &[FdWrite]) -> Vec<(i32, String)> {
    out.iter().map(|w| (w.fd, w.text.clone())).collect()
}

#[test]
fn test_event_loop_server() {
    let mut ev = EventLoop::new(start_game_with_secret(SECRET));
    let w = ev.watch_set(3);
    assert!(w.fds.is_empty());
    assert_eq!(w.highest, 3);

    let a0 = ev.on_accept(7);
    assert!(a0.admitted);
    assert_eq!(
        fd_texts(&a0.writes),
        vec![(7, String::from("You are player 0")), (7, String::from("Guess a number from 0 to 19."))]
    );
    assert!(ev.on_accept(5).admitted);
    assert!(!ev.on_accept(-1).admitted);
    assert!(!ev.on_accept(7).admitted);
    assert!(ev.on_accept(9).admitted);
    // a fourth connection is kept and watched, but plays no part
    let a3 = ev.on_accept(11);
    assert!(a3.admitted);
    assert!(a3.writes.is_empty());

    let w = ev.watch_set(3);
    assert_eq!(w.fds, vec![7, 5, 9, 11]);
    assert_eq!(w.highest, 11);
    let out = ev.on_read(11, 3, b"10\n");
    assert!(out.writes.is_empty() && !out.closed);
    assert_eq!(ev.watch_set(20).highest, 20);

    // players 1 and 2 guess 0; two lines can come in one read
    let out = ev.on_read(5, 2, b"0\n");
    assert_eq!(fd_texts(&out.writes), vec![(5, String::from("Guess higher"))]);
    assert!(out.shutdown.is_empty());
    let out = ev.on_read(9, 6, b"0\nxx\n");
    assert_eq!(
        fd_texts(&out.writes),
        vec![(9, String::from("Guess higher")), (9, String::from("Parsing failed. Try again."))]
    );

    // player 0 finds 10, the line split over two reads
    let mut halving = Halving::new();
    let guess = halving.react("Guess a number from 0 to 19.").unwrap();
    assert_eq!(guess, 10);
    let out = ev.on_read(7, 1, b"1");
    assert!(out.writes.is_empty());
    let out = ev.on_read(7, 2, b"0\n");
    assert_eq!(
        fd_texts(&out.writes),
        vec![
            (7, String::from("You won! Game over.")),
            (5, String::from("Player 0 won.")),
            (9, String::from("Player 0 won.")),
        ]
    );
    assert_eq!(out.shutdown, vec![7, 5, 9]);
    assert!(!out.closed);
    assert!(game_over(&ev.server.game_state));

    // later lines get no answer; a closed connection is dropped
    let out = ev.on_read(5, 2, b"0\n");
    assert!(out.writes.is_empty());
    let out = ev.on_read(5, 0, b"");
    assert!(out.closed);
    assert_eq!(ev.watch_set(3).fds, vec![7, 9, 11]);
    assert!(ev.on_read(11, 0, b"").closed);
    assert_eq!(ev.watch_set(3).fds, vec![7, 9]);
    // an unknown descriptor changes nothing
    let out = ev.on_read(42, 3, b"10\n");
    assert!(!out.closed && out.writes.is_empty());
}

#[test]
fn select_loop_handles_odd_bytes() {
    let mut ev = EventLoop::new(start_game_with_secret(4));
    ev.on_accept(6);
    // bytes that are not UTF-8 hold no number
    let out = ev.on_read(6, 3, &[0xff, 0x34, b'\n']);
    assert_eq!(fd_texts(&out.writes), vec![(6, String::from("Parsing failed. Try again."))]);
    // a character split over two reads is put back together
    let out = ev.on_read(6, 2, &[0xe3, 0x80]);
    assert!(out.writes.is_empty());
    let out = ev.on_read(6, 4, &[0x80, b'4', b'\r', b'\n']);
    assert_eq!(fd_texts(&out.writes), vec![(6, String::from("You won! Game over."))]);
    assert_eq!(out.shutdown, vec![6]);
}

#[test]
fn select_loop_disconnect_before_the_end() {
    let mut ev = EventLoop::new(start_game_with_secret(2));
    ev.on_accept(4);
    ev.on_accept(8);
    let out = ev.on_read(8, -1, b"");
    assert!(out.closed);
    assert!(ev.server.clients[1].done);
    // the player who left is not told of the end
    let out = ev.on_read(4, 2, b"2\n");
    assert_eq!(fd_texts(&out.writes), vec![(4, String::from("You won! Game over."))]);
    assert_eq!(out.shutdown, vec![4]);
    // a new connection may come on the descriptor number of one that closed
    assert!(ev.on_accept(8).admitted);
}

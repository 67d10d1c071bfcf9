use number_guessing::box_cas::{player_step, try_and_commit_action, PlayerEvent, PlayerPhase};
use number_guessing::data_type::{
    check_input, check_terminal_input, do_action, game_over, greeting, late_notice, parse_number_input, start_game,
    start_game_with_secret, state_view, Action, GameState, InputStep, MAX_NUM_TO_GUESS,
    NUM_PLAYERS,
};
use number_guessing::text::{
    decimal_string, failure_text, parse_failure, parse_guess, push_decimal, trim_bounds, ParseFailure,
};

fn guess(st: &GameState, player: u32, n: u32) -> GameState {
    do_action(st, &Action::new(player, n))
}

#[test]
fn constants_match_the_rules() {
    assert_eq!(MAX_NUM_TO_GUESS, 20);
    assert_eq!(NUM_PLAYERS, 3);
}

#[test]
fn new_game_shows_the_rules() {
    let st = start_game_with_secret(10);
    assert!(!game_over(&st));
    assert_eq!(state_view(&st, &0), "Guess a number from 0 to 19.");
    assert_eq!(state_view(&st, &2), "Guess a number from 0 to 19.");
}

#[test]
fn random_game_has_secret_in_range() {
    for _ in 0..200 {
        match start_game() {
            GameState::InProgress(secret, guesses) => {
                assert!(secret < MAX_NUM_TO_GUESS);
                assert!(guesses.is_empty());
            }
            GameState::Over(_) => panic!("a new game is not over"),
        }
    }
}

#[test]
fn wrong_guesses_give_hints() {
    let st = start_game_with_secret(10);
    let st = guess(&st, 0, 15);
    assert_eq!(state_view(&st, &0), "Guess lower.");
    assert_eq!(state_view(&st, &1), "Guess a number from 0 to 19.");
    let st = guess(&st, 1, 3);
    assert_eq!(state_view(&st, &1), "Guess higher");
    assert_eq!(state_view(&st, &0), "Guess lower.");
    // the last guess counts
    let st = guess(&st, 0, 2);
    assert_eq!(state_view(&st, &0), "Guess higher");
    assert!(!game_over(&st));
}

#[test]
fn right_guess_wins() {
    let st = start_game_with_secret(10);
    let st = guess(&st, 1, 4);
    let st = guess(&st, 2, 10);
    assert!(game_over(&st));
    assert!(matches!(st, GameState::Over(2)));
    assert_eq!(state_view(&st, &2), "You won! Game over.");
    assert_eq!(state_view(&st, &0), "Player 2 won.");
    assert_eq!(state_view(&st, &1), "Player 2 won.");
}

#[test]
fn finished_game_stays_finished() {
    let st = guess(&start_game_with_secret(7), 0, 7);
    let after = guess(&st, 1, 7);
    assert!(matches!(after, GameState::Over(0)));
    let after = guess(&after, 2, 3);
    assert!(matches!(after, GameState::Over(0)));
}

#[test]
fn winner_with_large_id_is_named() {
    let st = guess(&start_game_with_secret(0), 4294967295, 0);
    assert_eq!(state_view(&st, &1), "Player 4294967295 won.");
    let st = guess(&start_game_with_secret(0), 120, 0);
    assert_eq!(state_view(&st, &1), "Player 120 won.");
}

#[test]
fn snapshot_and_clone_keep_the_state() {
    let st = guess(&start_game_with_secret(10), 0, 15);
    let copy = st.snapshot();
    assert_eq!(state_view(&copy, &0), "Guess lower.");
    let cloned = st.clone();
    assert_eq!(state_view(&cloned, &0), "Guess lower.");
    // the first state is untouched by moves on the copy
    let moved = guess(&copy, 0, 1);
    assert_eq!(state_view(&moved, &0), "Guess higher");
    assert_eq!(state_view(&st, &0), "Guess lower.");
}

#[test]
fn action_getters() {
    let a = Action::new(2, 13);
    assert_eq!(a.get_player_id(), 2);
    assert_eq!(a.get_guess(), 13);
    assert!(a == Action::new(2, 13));
    assert!(a != Action::new(2, 14));
}

#[test]
fn parse_accepts_numbers_below_max() {
    assert_eq!(parse_number_input(String::from("10\n"), 20), Ok(10));
    assert_eq!(parse_number_input(String::from("0"), 20), Ok(0));
    assert_eq!(parse_number_input(String::from("19"), 20), Ok(19));
    assert_eq!(parse_number_input(String::from("  +7 \t\r\n"), 20), Ok(7));
    assert_eq!(parse_number_input(String::from("007"), 20), Ok(7));
    assert_eq!(parse_number_input(String::from("\u{3000}5\u{2028}"), 20), Ok(5));
    assert_eq!(parse_number_input(String::from("2"), 3), Ok(2));
}

#[test]
fn parse_rejects_everything_else() {
    let failed = Err(String::from("Parsing failed"));
    assert_eq!(parse_number_input(String::from("20"), 20), failed);
    assert_eq!(parse_number_input(String::from("3"), 3), failed);
    assert_eq!(parse_number_input(String::from(""), 20), failed);
    assert_eq!(parse_number_input(String::from("\n"), 20), failed);
    assert_eq!(parse_number_input(String::from("+"), 20), failed);
    assert_eq!(parse_number_input(String::from("-1"), 20), failed);
    assert_eq!(parse_number_input(String::from("-0"), 20), failed);
    assert_eq!(parse_number_input(String::from("1 2"), 20), failed);
    assert_eq!(parse_number_input(String::from("abc"), 20), failed);
    assert_eq!(parse_number_input(String::from("1a"), 20), failed);
    assert_eq!(parse_number_input(String::from("++1"), 20), failed);
    assert_eq!(parse_number_input(String::from("\u{0661}"), 20), failed);
    assert_eq!(parse_number_input(String::from("99999999999"), 20), failed);
    assert_eq!(parse_number_input(String::from("4294967295"), u32::MAX), failed);
}

#[test]
fn parse_guess_agrees_with_std() {
    let samples = [
        "0", "5", " 5 ", "+5", "4294967295", "4294967296", "18446744073709551616", "x", "",
        " ", "+", "-3", "0x10", "1_000", "\u{00A0}12\u{0085}", "\u{FEFF}1", "12\u{200B}",
        "\u{1680}3\u{205F}", "٣", "9\n", "\t\t42",
    ];
    for s in samples.iter() {
        assert_eq!(parse_guess(s), s.trim().parse::<u32>().ok(), "input {:?}", s);
    }
}

#[test]
fn trim_bounds_are_char_positions() {
    assert_eq!(trim_bounds("  ab "), (2, 4));
    assert_eq!(trim_bounds("   "), (3, 3));
    assert_eq!(trim_bounds(""), (0, 0));
    assert_eq!(trim_bounds("\u{3000}é\u{3000}"), (1, 2));
}

#[test]
fn decimal_rendering() {
    assert_eq!(decimal_string(0), "0");
    assert_eq!(decimal_string(7), "7");
    assert_eq!(decimal_string(19), "19");
    assert_eq!(decimal_string(100), "100");
    assert_eq!(decimal_string(u32::MAX), "4294967295");
    let mut s = String::from("n=");
    push_decimal(&mut s, 305);
    assert_eq!(s, "n=305");
}

#[test]
fn typed_numbers_read_back() {
    for n in [0u32, 1, 9, 10, 19, 20, 12345, u32::MAX] {
        let mut line = decimal_string(n);
        line.push('\n');
        let expected = if n < 20 { Ok(n) } else { Err(String::from("Parsing failed")) };
        assert_eq!(parse_number_input(line, 20), expected);
    }
}

#[test]
fn check_input_decides() {
    assert!(matches!(check_input(Ok(String::from("4\n")), 20), InputStep::Accept(4)));
    match check_input(Ok(String::from("44\n")), 20) {
        InputStep::Retry(msg) => assert_eq!(msg, "Parsing failed. Try again."),
        InputStep::Accept(_) => panic!("44 is out of range"),
    }
    match check_input(Err(String::from("connection reset")), 20) {
        InputStep::Retry(msg) => assert_eq!(msg, "connection reset. Try again."),
        InputStep::Accept(_) => panic!("a failed read gives no number"),
    }
}

#[test]
fn fixed_messages() {
    assert_eq!(greeting(0), "You are player 0");
    assert_eq!(greeting(12), "You are player 12");
    assert_eq!(late_notice(), "Sorry, another player won in the meantime!");
}

#[test]
fn commit_applies_move_while_game_runs() {
    let mut st = start_game_with_secret(10);
    assert!(try_and_commit_action(&mut st, &Action::new(1, 3)));
    assert_eq!(state_view(&st, &1), "Guess higher");
    assert!(try_and_commit_action(&mut st, &Action::new(0, 10)));
    assert!(matches!(st, GameState::Over(0)));
}

#[test]
fn commit_refused_after_win() {
    let mut st = start_game_with_secret(10);
    assert!(try_and_commit_action(&mut st, &Action::new(0, 10)));
    assert!(!try_and_commit_action(&mut st, &Action::new(1, 10)));
    assert!(!try_and_commit_action(&mut st, &Action::new(2, 4)));
    assert!(matches!(st, GameState::Over(0)));
}

#[test]
fn parse_failure_names_std_errors() {
    let samples = [
        "", "  ", "+", "-", "-1", "+-1", "x", "12x", "4294967295", "4294967296", "42949672950",
        "99999999999x", "4294967296x", "\u{00A0}7\u{3000}", "+0", "1 2", "٣", "00000000000000000001",
    ];
    for s in samples.iter() {
        let ours = parse_failure(s).map(failure_text);
        let std = s.trim().parse::<u32>().err().map(|e| e.to_string());
        assert_eq!(ours, std, "input {:?}", s);
        assert_eq!(ours.is_none(), parse_guess(s).is_some(), "input {:?}", s);
    }
    assert_eq!(parse_failure(""), Some(ParseFailure::Empty));
    assert_eq!(parse_failure("1a"), Some(ParseFailure::InvalidDigit));
    assert_eq!(parse_failure("5000000000"), Some(ParseFailure::PosOverflow));
    assert_eq!(parse_failure("50"), None);
}

#[test]
fn terminal_input_decides() {
    assert!(matches!(check_terminal_input(Ok(String::from("2\n")), 3), InputStep::Accept(2)));
    let retry = |r: Result<String, String>, max: u32| match check_terminal_input(r, max) {
        InputStep::Retry(msg) => msg,
        InputStep::Accept(n) => panic!("accepted {n}"),
    };
    assert_eq!(retry(Ok(String::from("3\n")), 3), "Invalid input. Try again.");
    assert_eq!(retry(Ok(String::from("\n")), 3), "cannot parse integer from empty string. Try again.");
    assert_eq!(retry(Ok(String::from("two\n")), 3), "invalid digit found in string. Try again.");
    assert_eq!(
        retry(Ok(String::from("99999999999\n")), 3),
        "number too large to fit in target type. Try again."
    );
    assert_eq!(retry(Err(String::from("stream did not contain valid UTF-8")), 3), "stream did not contain valid UTF-8. Try again.");
}

#[test]
fn player_session_steps() {
    let step = player_step(PlayerPhase::Connecting, 1, &PlayerEvent::Connected);
    assert_eq!(step.phase, PlayerPhase::Viewing);
    assert_eq!(step.writes, vec![String::from("You are player 1")]);

    let st = start_game_with_secret(10);
    let step = player_step(PlayerPhase::Viewing, 1, &PlayerEvent::Observed(st.clone()));
    assert_eq!(step.phase, PlayerPhase::Guessing);
    assert_eq!(step.writes, vec![String::from("Guess a number from 0 to 19.")]);

    let step = player_step(PlayerPhase::Guessing, 1, &PlayerEvent::Committed(true));
    assert_eq!(step.phase, PlayerPhase::Viewing);
    assert!(step.writes.is_empty());
    let step = player_step(PlayerPhase::Guessing, 1, &PlayerEvent::Committed(false));
    assert_eq!(step.phase, PlayerPhase::Viewing);
    assert_eq!(step.writes, vec![String::from("Sorry, another player won in the meantime!")]);

    let won = do_action(&st, &Action::new(0, 10));
    let step = player_step(PlayerPhase::Viewing, 1, &PlayerEvent::Observed(won.clone()));
    assert_eq!(step.phase, PlayerPhase::Finished);
    assert_eq!(step.writes, vec![String::from("Player 0 won.")]);

    // a finished session writes nothing more; an event out of turn changes nothing
    let step = player_step(PlayerPhase::Finished, 1, &PlayerEvent::Observed(won));
    assert_eq!(step.phase, PlayerPhase::Finished);
    assert!(step.writes.is_empty());
    let step = player_step(PlayerPhase::Viewing, 1, &PlayerEvent::Committed(false));
    assert_eq!(step.phase, PlayerPhase::Viewing);
    assert!(step.writes.is_empty());
}

use checkers::action::Action;
use checkers::board::Board;
use checkers::duration::parse_micros;
use checkers::game::{rollout, white_score, Checkers, MoveError, Outcome, PlayerResult, RandomEngine};
use checkers::geometry::{Cell, Color, Dir, Position};

/// White has a single pawn that can only be captured; Black is to move.
fn black_captures_last_white() -> Board {
    let mut board = Board::parse(
        "
        1 . . . .
        2. . . .
        3 . . . .
        4. . . .
        5 . . . .
        6. b . .
        7 w . . .
        8. . . .",
    );
    board.set_turn_and_plies(Color::Black, 10);
    board
}

fn only_black_pawn() -> Board {
    Board::parse(
        "
        1 . . . .
        2. . . .
        3 . b . .
        4. . . .
        5 . . . .
        6. . . .
        7 . . . .
        8. . . .",
    )
}

#[test]
fn white_without_pieces_loses() {
    let board = only_black_pawn();
    assert!(board.actions().is_empty());
    assert_eq!(white_score(&board), Outcome::BlackWins);
    assert_eq!(rollout(&board), Outcome::BlackWins);
}

#[test]
fn black_without_action_loses() {
    let mut board = Board::parse(
        "
        1 . . . .
        2. . . .
        3 . . . .
        4. . . .
        5 . . . .
        6. . . .
        7 . . . .
        8w . . .",
    );
    board.set_turn_and_plies(Color::Black, 3);
    assert_eq!(white_score(&board), Outcome::WhiteWins);
}

#[test]
fn max_plies_is_a_draw() {
    let mut board = Board::init();
    board.set_turn_and_plies(Color::White, 100);
    assert_eq!(white_score(&board), Outcome::Draw);
    assert_eq!(rollout(&board), Outcome::Draw);
    assert!(board.is_over());
    board.set_turn_and_plies(Color::Black, 150);
    assert_eq!(white_score(&board), Outcome::Draw);
    assert_eq!(rollout(&board), Outcome::Draw);
    assert!(board.is_over());
}

#[test]
fn forced_capture_then_loss() {
    let board = black_captures_last_white();
    let actions = board.actions();
    let texts: Vec<String> = actions.iter().map(|a| a.to_string()).collect();
    assert_eq!(texts, vec!["C6 A8"]);
    assert_eq!(rollout(&board), Outcome::BlackWins);
}

#[test]
fn rollout_from_start_ends() {
    let outcome = rollout(&Board::init());
    assert!(matches!(outcome, Outcome::WhiteWins | Outcome::Draw | Outcome::BlackWins));
}

#[test]
fn after_random_moves_counts_plies() {
    let board = Board::after_random_moves(4);
    assert_eq!(board.plies(), 4);
    assert_eq!(board.current_turn(), Color::White);
    assert_eq!(Board::after_random_moves(0), Board::init());
}

#[test]
fn random_engine_plays_legal_actions() {
    let mut engine = RandomEngine::new();
    let board = Board::init();
    let legal: Vec<String> = board.actions().iter().map(|a| a.to_string()).collect();
    for _ in 0..20 {
        let action = engine.select(&board).expect("an action");
        assert!(legal.contains(&action.to_string()));
    }
    assert!(engine.select(&only_black_pawn()).is_none());
    engine.clear();
}

#[test]
fn missing_action_loses() {
    let mut game = Checkers::init();
    assert_eq!(game.get_current_player_number(), 0);
    assert!(!game.is_finished());
    assert_eq!(game.apply_action(&None), Err(MoveError::MissingAction));
    assert!(game.is_finished());
    assert_eq!(game.get_player_result(1), PlayerResult::Win);
    assert_eq!(game.get_player_result(0), PlayerResult::Loss);
    assert_eq!(game.get_state(), Board::init());
}

#[test]
fn illegal_action_loses() {
    let mut game = Checkers::init();
    // A8 to B7: B7 holds a white pawn
    let action = Action::with_move(Position::new(5), Dir::UpRight.repeat(1));
    assert_eq!(game.apply_action(&Some(action)), Err(MoveError::IllegalAction));
    assert!(game.is_finished());
    assert_eq!(game.get_player_result(1), PlayerResult::Win);
}

#[test]
fn legal_action_is_played() {
    let mut game = Checkers::init();
    let action: Action = "C6 D5".parse().unwrap();
    assert_eq!(game.apply_action(&Some(action)), Ok(()));
    assert!(!game.is_finished());
    assert_eq!(game.get_current_player_number(), 1);
    let state = game.get_state();
    assert_eq!(state.plies(), 1);
    assert_eq!(state.count(Cell::WhitePawn), 12);
    let fresh = game.new_game();
    assert_eq!(fresh.get_state(), Board::init());
    assert_eq!(fresh.get_current_player_number(), 0);
}

#[test]
fn no_winner_yet_means_loss_for_both() {
    let game = Checkers::init();
    assert_eq!(game.get_player_result(0), PlayerResult::Loss);
    assert_eq!(game.get_player_result(1), PlayerResult::Loss);
}

#[test]
fn micros() {
    assert_eq!(parse_micros("1500"), Some(1500));
    assert_eq!(parse_micros("+7"), Some(7));
    assert_eq!(parse_micros("0"), Some(0));
    assert_eq!(parse_micros("18446744073709551615"), Some(u64::MAX));
    assert_eq!(parse_micros("18446744073709551616"), None);
    assert_eq!(parse_micros(""), None);
    assert_eq!(parse_micros("+"), None);
    assert_eq!(parse_micros("-1"), None);
    assert_eq!(parse_micros("12a"), None);
}

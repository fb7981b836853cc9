use checkers::board::Board;
use checkers::action::Action;
use checkers::geometry::{Cell, Color, Dir, Move, Position};

/// The text of the initial board.
fn initial_text() -> String {
    let mut s = String::from("   A  B  C  D  E  F  G  H    White  (0 plies)");
    s.push_str("\n1 ███ b ███ b ███ b ███ b ");
    s.push_str("\n2  b ███ b ███ b ███ b ███");
    s.push_str("\n3 ███ b ███ b ███ b ███ b ");
    s.push_str("\n4  . ███ . ███ . ███ . ███");
    s.push_str("\n5 ███ . ███ . ███ . ███ . ");
    s.push_str("\n6  w ███ w ███ w ███ w ███");
    s.push_str("\n7 ███ w ███ w ███ w ███ w ");
    s.push_str("\n8  w ███ w ███ w ███ w ███");
    s
}

#[test]
fn test_parse() {
    // Ideally, tests should be deterministic. However, generating random boards
    // helps validate the parser against a wide range of scenarios without manually
    // writing out 100 board strings.
    for _ in 0..100 {
        let random_board = Board::after_random_moves(rand::random_range(3..6));
        let parsed_board = Board::parse(&random_board.to_string());
        assert_eq!(random_board, parsed_board);
    }
}

fn validate_actions(board: &str, expected_actions: &[&str]) {
    let board = Board::parse(board);
    let actions = board.actions();
    let mut actions: Vec<String> = actions.iter().map(|a| a.to_string()).collect();
    actions.sort();
    let mut expected_actions: Vec<String> = expected_actions.iter().map(|a| a.to_string()).collect();
    expected_actions.sort();
    assert_eq!(actions, expected_actions, "On board \n{}", board.to_string());
}

#[test]
fn test_actions() {
    validate_actions(
        "
             ABCDEFGH
            1 . . . .
            2W . . .
            3 B . . .
            4. B . .
            5 . . . .
            6. . . .
            7 . . . .
            8. . . .",
        &["A2 B1"],
    );

    validate_actions(
        "
        ABCDEFGH
       1 W . . .
       2. . . .
       3 . B . .
       4B B . .
       5 . B . .
       6B . . .
       7 . . . .
       8. . . .",
        &["B1 E4 A8", "B1 E4 B7", "B1 E4 C6"],
    );
}

#[test]
fn test_parse_pos() {
    for pos in Position::all() {
        assert_eq!(pos, pos.to_string().parse().expect("Parse error"));
    }
}

#[test]
fn test_parse_action() {
    let board = Board::parse(
        "
             ABCDEFGH
            1 . . . .
            2W . . .
            3 B . . .
            4. B . .
            5 . . . .
            6. . . .
            7 . . . .
            8. . . .",
    );
    for action in board.actions() {
        assert_eq!(action, action.to_string().parse().expect("Oops ?"));
    }

    let board = Board::parse(
        "
        ABCDEFGH
       1 W . . .
       2. . . .
       3 . B . .
       4B B . .
       5 . B . .
       6B . . .
       7 . . . .
       8. . . .",
    );
    for action in board.actions() {
        assert_eq!(action, action.to_string().parse().expect("Oops ?"));
    }
}

#[test]
fn initial_board_text() {
    assert_eq!(Board::init().to_string(), initial_text());
}

#[test]
fn initial_board_reads_back() {
    let board = Board::init();
    assert_eq!(Board::parse(&board.to_string()), board);
    let parsed: Board = initial_text().parse().expect("a board");
    assert_eq!(parsed, board);
}

#[test]
fn heading_gives_turn_and_plies() {
    let mut board = Board::init();
    board.set_turn_and_plies(Color::Black, 1234);
    let text = board.to_string();
    assert!(text.starts_with("   A  B  C  D  E  F  G  H    Black  (1234 plies)\n"));
    let parsed = Board::parse(&text);
    assert_eq!(parsed.current_turn(), Color::Black);
    assert_eq!(parsed.plies(), 1234);
    assert_eq!(parsed, board);
}

#[test]
fn text_without_heading_is_white_at_ply_zero() {
    let board = Board::parse(
        "
        1 . . . .
        2. . . .
        3 . . . .
        4. . . .
        5 . . . .
        6. . . .
        7 . . . .
        8w . . .",
    );
    assert_eq!(board.current_turn(), Color::White);
    assert_eq!(board.plies(), 0);
    assert_eq!(board.at(Position::new(5)), Cell::WhitePawn);
    assert_eq!(board.count(Cell::Empty), 31);
}

#[test]
fn too_many_squares_are_refused() {
    let text = ".".repeat(33);
    assert!(Board::try_parse(&text).is_none());
    assert!(text.parse::<Board>().is_err());
    assert!(Board::try_parse(&".".repeat(32)).is_some());
}

#[test]
fn initial_counts_and_positions() {
    let board = Board::init();
    assert_eq!(board.count(Cell::WhitePawn), 12);
    assert_eq!(board.count(Cell::BlackPawn), 12);
    assert_eq!(board.count(Cell::Empty), 8);
    assert_eq!(board.count(Cell::WhiteQueen), 0);
    let whites: Vec<i8> = board.positions_with(Cell::WhitePawn).iter().map(|p| p.index()).collect();
    assert_eq!(whites, vec![5, 6, 7, 8, 10, 11, 12, 13, 14, 15, 16, 17]);
    let empties: Vec<i8> = board.positions_with(Cell::Empty).iter().map(|p| p.index()).collect();
    assert_eq!(empties, vec![19, 20, 21, 22, 23, 24, 25, 26]);
}

#[test]
fn initial_actions() {
    let board = Board::init();
    let mut texts: Vec<String> = board.actions().iter().map(|a| a.to_string()).collect();
    texts.sort();
    assert_eq!(texts, vec!["A6 B5", "C6 B5", "C6 D5", "E6 D5", "E6 F5", "G6 F5", "G6 H5"]);
}

#[test]
fn promotion_on_last_line() {
    let mut board = Board::parse(
        "
        1 . . . .
        2w . . .
        3 . . . .
        4. . . .
        5 . . . .
        6. . . .
        7 . . . .
        8. . . b",
    );
    let actions = board.actions();
    let mut texts: Vec<String> = actions.iter().map(|a| a.to_string()).collect();
    texts.sort();
    assert_eq!(texts, vec!["A2 B1"]);
    board.apply_mut(&actions[0]);
    let b1: Position = "B1".parse().unwrap();
    assert_eq!(board.at(b1), Cell::WhiteQueen);
    assert_eq!(board.current_turn(), Color::Black);
    assert_eq!(board.plies(), 1);
}

#[test]
fn apply_keeps_the_original() {
    let board = Board::init();
    let action: Action = "C6 D5".parse().unwrap();
    let next = board.apply(&action);
    assert_eq!(board, Board::init());
    let c6: Position = "C6".parse().unwrap();
    let d5: Position = "D5".parse().unwrap();
    assert!(next.empty(c6));
    assert_eq!(next.at(d5), Cell::WhitePawn);
    assert!(!next.empty(d5));
    assert_eq!(next.current_turn(), Color::Black);
}

#[test]
fn capture_removes_the_captured_piece() {
    let board = Board::parse(
        "
        1 . . . .
        2. . . .
        3 . . . .
        4. . . .
        5 . . . .
        6. b . .
        7 w . . .
        8. . . .",
    );
    let actions = board.actions();
    let texts: Vec<String> = actions.iter().map(|a| a.to_string()).collect();
    assert_eq!(texts, vec!["B7 D5"]);
    let next = board.apply(&actions[0]);
    assert_eq!(next.count(Cell::BlackPawn), 0);
    assert_eq!(next.count(Cell::WhitePawn), 1);
    let d5: Position = "D5".parse().unwrap();
    assert_eq!(next.at(d5), Cell::WhitePawn);
}

#[test]
fn draw_after_max_plies() {
    let mut board = Board::init();
    assert!(!board.is_draw());
    board.set_turn_and_plies(Color::White, 99);
    assert!(!board.is_draw());
    board.set_turn_and_plies(Color::White, 100);
    assert!(board.is_draw());
    assert!(board.actions().is_empty());
    board.set_turn_and_plies(Color::Black, 150);
    assert!(board.is_draw());
    assert!(board.actions().is_empty());
}

#[test]
fn heading_past_max_plies_is_a_draw() {
    let mut text = String::from("   A  B  C  D  E  F  G  H    White  (150 plies)");
    for line in 1..=8 {
        text.push_str(&format!("\n{line} . . . ."));
    }
    let board = Board::parse(&text);
    assert_eq!(board.plies(), 150);
    assert!(board.is_draw());
}

#[test]
fn played_boards_are_filled_and_read_back() {
    for n in 0..20 {
        let board = Board::after_random_moves(n);
        assert!(board.is_filled());
        assert_eq!(Board::parse(&board.to_string()), board);
    }
    let mut partial = Board::init();
    assert!(partial.is_filled());
    let text = ".".repeat(31);
    partial = Board::parse(&text);
    assert!(!partial.is_filled());
}

#[test]
fn actions_with_and_without_text() {
    let board = Board::init();
    for action in board.actions() {
        assert!(action.has_text());
    }
    // from B1, seven steps down-left leave the board
    let off = Action::with_move(Position::new(37), Dir::DownLeft.repeat(7));
    assert!(!off.has_text());
    let on = Action::with_move(Position::new(37), Dir::DownLeft.repeat(1));
    assert!(on.has_text());
    assert_eq!(on.to_string(), "B1 A2");
}

#[test]
fn adversary_and_adv() {
    assert!(Cell::BlackPawn.adversary(Color::White));
    assert!(Cell::BlackQueen.adversary(Color::White));
    assert!(!Cell::Empty.adversary(Color::White));
    assert!(!Cell::WhitePawn.adversary(Color::White));
    assert!(Cell::WhiteQueen.adversary(Color::Black));
    assert!(!Cell::BlackPawn.adversary(Color::Black));
    let board = Board::init();
    assert!(board.adv(Position::new(40)));
    assert!(!board.adv(Position::new(5)));
}

#[test]
fn colors() {
    let mut c = Color::White;
    assert_eq!(c.pawn(), Cell::WhitePawn);
    assert_eq!(c.queen(), Cell::WhiteQueen);
    c.invert();
    assert_eq!(c, Color::Black);
    assert_eq!(c.pawn(), Cell::BlackPawn);
    assert_eq!(c.queen(), Cell::BlackQueen);
    assert_eq!(c.to_string(), "Black");
    assert_eq!("White".parse::<Color>(), Ok(Color::White));
    assert_eq!("Black".parse::<Color>(), Ok(Color::Black));
    assert_eq!("black".parse::<Color>(), Err(()));
}

#[test]
fn positions() {
    let all = Position::all();
    assert_eq!(all.len(), 32);
    assert_eq!(all[0].index(), 5);
    assert_eq!(all[31].index(), 40);
    let a8 = Position::new(5);
    assert_eq!(a8.coords(), (7, 0));
    assert_eq!(a8.line(), 7);
    assert_eq!(a8.column(), 0);
    assert_eq!(a8.to_string(), "A8");
    let h1 = Position::new(40);
    assert_eq!(h1.coords(), (0, 7));
    assert_eq!(h1.to_string(), "H1");
    assert_eq!("B1".parse::<Position>().map(|p| p.index()), Ok(37));
    assert_eq!("B2".parse::<Position>(), Err(()));
    assert_eq!("A".parse::<Position>(), Err(()));
    let b7: Position = "B7".parse().unwrap();
    assert_eq!(b7.add_move(Dir::UpRight.repeat(2)).to_string(), "D5");
}

#[test]
fn moves_and_dirs() {
    assert_eq!(Dir::UpLeft.repeat(3), Move { dir: Dir::UpLeft, repeat: 3 });
    assert_eq!(Dir::UpLeft.offset(), 4);
    assert_eq!(Dir::UpRight.offset(), 5);
    assert_eq!(Dir::DownLeft.offset(), -5);
    assert_eq!(Dir::DownRight.offset(), -4);
}

#[test]
fn action_texts() {
    let a: Action = "B1 E4 A8".parse().unwrap();
    assert_eq!(a.start().to_string(), "B1");
    assert_eq!(a.num_moves(), 2);
    assert_eq!(a.moves()[0], Move { dir: Dir::DownRight, repeat: 3 });
    assert_eq!(a.moves()[1], Move { dir: Dir::DownLeft, repeat: 4 });
    assert_eq!(a.to_string(), "B1 E4 A8");
    assert!("B1".parse::<Action>().is_err());
    assert!("B1 E4 Z8".parse::<Action>().is_err());
    assert!("B1  E4".parse::<Action>().is_err());
    let b = Action::with_move(Position::new(5), Dir::UpRight.repeat(1));
    assert_eq!(b.to_string(), "A8 B7");
    let c = b.with_new_move(Dir::UpRight.repeat(1));
    assert_eq!(c.num_moves(), 2);
    assert_eq!(c.to_string(), "A8 B7 C6");
    assert_eq!(b.num_moves(), 1);
    let mut d = Action::empty(Position::new(5));
    assert_eq!(d.num_moves(), 0);
    d.enqueue(Dir::UpRight.repeat(1));
    assert_eq!(d, b);
}

#[test]
fn cell_characters() {
    assert_eq!(Cell::WhiteQueen.to_char(), 'W');
    assert_eq!(Cell::Empty.to_char(), '.');
    assert_eq!(Cell::from_char('b'), Some(Cell::BlackPawn));
    assert_eq!(Cell::from_char('x'), None);
}

use tictactoe::board::{Board, Cell, MoveError, Outcome, Player, SpaceOccupied};

fn play_all(bot: Option<Player>, moves: &[i8]) -> Board {
    let mut b = Board::new(bot);
    for &m in moves {
        b = b.make_move(m).expect("legal move");
    }
    b
}

#[test]
fn new_board_is_empty_and_a_moves_first() {
    let b = Board::new(Some(Player::B));
    assert!(b.cells.iter().all(|c| *c == Cell::Empty));
    assert_eq!(b.to_move(), Player::A);
    assert_eq!(b.outcome(), Outcome::InProgress);
    assert_eq!(b.bot, Some(Player::B));
    assert_eq!(b.get_moves(), vec![0, 1, 2, 3, 4, 5, 6, 7, 8]);
    assert_eq!(b.get_depth(), 0);
}

#[test]
fn make_move_fills_square_and_flips_turn() {
    let b = Board::new(None);
    let next = b.make_move(4).unwrap();
    assert_eq!(next.cells[4], Cell::Filled(Player::A));
    assert_eq!(next.to_move(), Player::B);
    assert_eq!(next.outcome(), Outcome::InProgress);
    assert_eq!(next.get_moves(), vec![0, 1, 2, 3, 5, 6, 7, 8]);
    assert_eq!(next.get_depth(), 1);
    let third = next.make_move(0).unwrap();
    assert_eq!(third.cells[0], Cell::Filled(Player::B));
    assert_eq!(third.to_move(), Player::A);
}

#[test]
fn make_move_leaves_input_board_unchanged() {
    let b = play_all(None, &[0, 4]);
    let before = b.cells;
    let next = b.make_move(8).unwrap();
    assert_eq!(b.cells, before);
    assert_eq!(b.to_move(), Player::A);
    assert_ne!(next.cells, before);
    for i in 0..9 {
        if i != 8 {
            assert_eq!(next.cells[i], b.cells[i]);
        }
    }
}

#[test]
fn make_move_on_occupied_square_fails() {
    let b = play_all(None, &[0, 4]);
    let before = b.cells;
    let r = b.make_move(4);
    assert!(r.is_err());
    assert_eq!(r.unwrap_err().details, "Space already occupied!");
    assert!(b.make_move(0).is_err());
    assert_eq!(b.cells, before);
}

#[test]
fn completing_top_row_wins() {
    let b = play_all(None, &[0, 3, 1, 4]);
    assert_eq!(b.cells[0], Cell::Filled(Player::A));
    assert_eq!(b.cells[1], Cell::Filled(Player::A));
    assert_eq!(b.cells[2], Cell::Empty);
    assert_eq!(b.to_move(), Player::A);
    let won = b.make_move(2).unwrap();
    assert_eq!(won.outcome(), Outcome::Won(Player::A));
    assert_eq!(won.check_for_win(), Some(Player::A));
}

#[test]
fn column_and_diagonal_wins() {
    let col = play_all(None, &[0, 1, 3, 4, 8, 7]);
    assert_eq!(col.outcome(), Outcome::Won(Player::B));
    let diag = play_all(None, &[2, 0, 4, 1, 6]);
    assert_eq!(diag.outcome(), Outcome::Won(Player::A));
    let main_diag = play_all(None, &[0, 1, 4, 2, 8]);
    assert_eq!(main_diag.outcome(), Outcome::Won(Player::A));
}

#[test]
fn filling_last_square_without_line_is_draw() {
    let b = play_all(None, &[0, 1, 2, 4, 3, 5, 7, 6]);
    assert_eq!(b.outcome(), Outcome::InProgress);
    assert_eq!(b.get_moves(), vec![8]);
    let end = b.make_move(8).unwrap();
    assert_eq!(end.outcome(), Outcome::Draw);
    assert!(end.get_moves().is_empty());
    assert_eq!(end.get_depth(), 9);
    assert_eq!(end.check_for_win(), None);
}

#[test]
fn line_completed_on_last_square_is_a_win() {
    let end = play_all(None, &[5, 3, 6, 4, 0, 7, 1, 8, 2]);
    assert!(end.get_moves().is_empty());
    assert_eq!(end.outcome(), Outcome::Won(Player::A));
}

#[test]
fn check_for_end_recomputes_outcome() {
    let mut b = play_all(None, &[0, 3, 1, 4]);
    b.cells[2] = Cell::Filled(Player::A);
    assert_eq!(b.outcome(), Outcome::InProgress);
    b.check_for_end();
    assert_eq!(b.outcome(), Outcome::Won(Player::A));
}

#[test]
fn space_occupied_keeps_message() {
    let e = SpaceOccupied::new("taken");
    assert_eq!(e.details, "taken");
}

#[test]
fn render_draws_grid() {
    let b = play_all(None, &[0, 4]);
    assert_eq!(
        b.render(),
        "\n X |   |   \n-----------\n   | O |   \n-----------\n   |   |   \n"
    );
}

#[test]
fn validate_move_reports_each_error() {
    let b = play_all(None, &[4]);
    assert_eq!(b.validate_move(3), Ok(()));
    assert_eq!(b.validate_move(4), Err(MoveError::Occupied));
    assert_eq!(b.validate_move(9), Err(MoveError::OutOfRange));
    assert_eq!(b.validate_move(-1), Err(MoveError::OutOfRange));
}

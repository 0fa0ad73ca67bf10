use tictactoe::board::{Board, Outcome, Player};
use tictactoe::search::{
    best_move, bot_to_move, evaluate, extreme_of, first_min_index, max_score_indexes, pick_max,
    rand_best_mv, score,
};

fn play_all(bot: Option<Player>, moves: &[i8]) -> Board {
    let mut b = Board::new(bot);
    for &m in moves {
        b = b.make_move(m).expect("legal move");
    }
    b
}

#[test]
fn score_rewards_faster_wins_and_slower_losses() {
    // A wins on the fifth move.
    let fast = play_all(Some(Player::A), &[0, 3, 1, 4, 2]);
    assert_eq!(fast.get_depth(), 5);
    assert_eq!(score(&fast), 6);
    let fast_loss = play_all(Some(Player::B), &[0, 3, 1, 4, 2]);
    assert_eq!(score(&fast_loss), -6);
    // A wins on the ninth move.
    let slow = play_all(Some(Player::A), &[5, 3, 6, 4, 0, 7, 1, 8, 2]);
    assert_eq!(slow.get_depth(), 9);
    assert_eq!(score(&slow), 2);
    let slow_loss = play_all(Some(Player::B), &[5, 3, 6, 4, 0, 7, 1, 8, 2]);
    assert_eq!(score(&slow_loss), -2);
    assert!(score(&fast) > score(&slow));
    assert!(score(&fast_loss) < score(&slow_loss));
}

#[test]
fn score_of_draw_and_unfinished_is_zero() {
    let draw = play_all(Some(Player::A), &[0, 1, 2, 4, 3, 5, 7, 6, 8]);
    assert_eq!(draw.outcome(), Outcome::Draw);
    assert_eq!(score(&draw), 0);
    assert_eq!(score(&Board::new(Some(Player::A))), 0);
}

#[test]
fn score_without_bot_is_zero() {
    let b = play_all(None, &[0, 3, 1, 4, 2]);
    assert_eq!(b.outcome(), Outcome::Won(Player::A));
    assert_eq!(score(&b), 0);
}

#[test]
fn empty_board_is_a_draw_for_either_bot_side() {
    assert_eq!(evaluate(&Board::new(Some(Player::A))), 0);
    assert_eq!(evaluate(&Board::new(Some(Player::B))), 0);
    assert_eq!(evaluate(&Board::new(None)), 0);
}

#[test]
fn best_move_on_empty_board_is_a_legal_draw_move() {
    let b = Board::new(Some(Player::A));
    let (s, m) = best_move(&b);
    assert_eq!(s, 0);
    assert!(b.get_moves().contains(&m));
    let next = b.make_move(m).unwrap();
    assert_eq!(evaluate(&next), 0);
}

#[test]
fn bot_takes_an_immediate_win() {
    // A holds 0 and 1, B holds 3 and 4; A (the bot) to move wins at 2.
    let b = play_all(Some(Player::A), &[0, 3, 1, 4]);
    let (s, m) = best_move(&b);
    assert_eq!(m, 2);
    assert_eq!(s, 6);
    assert_eq!(evaluate(&b), 6);
}

#[test]
fn bot_blocks_an_immediate_loss() {
    // A holds 0 and 1 and threatens 2; B (the bot) to move must block.
    let b = play_all(Some(Player::B), &[0, 4, 1]);
    let (s, m) = best_move(&b);
    assert_eq!(m, 2);
    assert_eq!(s, evaluate(&b));
}

#[test]
fn opponent_side_picks_first_lowest_move() {
    // Bot is B; A to move is the minimizer and wins at once only at 2.
    let b = play_all(Some(Player::B), &[0, 3, 1, 4]);
    let (s, m) = best_move(&b);
    assert_eq!(m, 2);
    assert_eq!(s, -6);
}

#[test]
fn evaluate_of_finished_board_is_its_score() {
    let b = play_all(Some(Player::A), &[0, 3, 1, 4, 2]);
    assert_eq!(evaluate(&b), score(&b));
}

#[test]
fn max_score_indexes_lists_every_maximum() {
    assert_eq!(max_score_indexes(&vec![1, 3, 2, 3]), vec![1, 3]);
    assert_eq!(max_score_indexes(&vec![-4]), vec![0]);
    assert_eq!(max_score_indexes(&vec![0, 0, 0]), vec![0, 1, 2]);
}

#[test]
fn rand_best_mv_returns_a_maximum() {
    let scores = vec![1, 3, -2, 3];
    for _ in 0..50 {
        let i = rand_best_mv(&scores);
        assert!(i == 1 || i == 3);
    }
    assert_eq!(rand_best_mv(&vec![-5, 7, 2]), 1);
}

#[test]
fn first_min_index_takes_first_minimum() {
    assert_eq!(first_min_index(&vec![2, 0, 5, 0]), 1);
    assert_eq!(first_min_index(&vec![9]), 0);
}

#[test]
fn extreme_of_gives_max_and_min() {
    let s = vec![3, -7, 11, 0];
    assert_eq!(extreme_of(&s, true), 11);
    assert_eq!(extreme_of(&s, false), -7);
}

#[test]
fn bot_to_move_follows_turn_and_side() {
    assert!(bot_to_move(&Board::new(Some(Player::A))));
    assert!(!bot_to_move(&Board::new(Some(Player::B))));
    assert!(!bot_to_move(&Board::new(None)));
}

#[test]
fn pick_max_maps_each_draw_to_its_own_maximum() {
    let scores = vec![3, 1, 3, -2, 3];
    assert_eq!(pick_max(&scores, 0), 0);
    assert_eq!(pick_max(&scores, 1), 2);
    assert_eq!(pick_max(&scores, 2), 4);
}

#[test]
fn rand_best_mv_reaches_every_maximum() {
    let scores = vec![2, 5, 5, 0, 5];
    let mut seen = [false; 5];
    for _ in 0..300 {
        seen[rand_best_mv(&scores)] = true;
    }
    assert_eq!(seen, [false, true, true, false, true]);
}

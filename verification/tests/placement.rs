use minesweeper_rs::game::{CellContent, CellState, Game, GameState};
use minesweeper_rs::FirstClickPolicy;
use std::time::Instant;

fn is_mine(content: CellContent) -> bool {
    matches!(content, CellContent::Mine | CellContent::Explosion)
}

fn mines(game: &Game) -> Vec<usize> {
    let mut found = Vec::new();
    for y in 0..game.height {
        for x in 0..game.width {
            if is_mine(game.get_cell(x, y).content) {
                found.push(y * game.width + x);
            }
        }
    }
    found
}

fn mines_around(game: &Game, x: usize, y: usize) -> u8 {
    let mut n = 0;
    for ny in y.saturating_sub(1)..=(y + 1).min(game.height - 1) {
        for nx in x.saturating_sub(1)..=(x + 1).min(game.width - 1) {
            if (nx, ny) != (x, y) && is_mine(game.get_cell(nx, ny).content) {
                n += 1;
            }
        }
    }
    n
}

fn numbers_are_right(game: &Game) -> bool {
    for y in 0..game.height {
        for x in 0..game.width {
            if let CellContent::Number(n) = game.get_cell(x, y).content {
                if n != mines_around(game, x, y) {
                    return false;
                }
            }
        }
    }
    true
}

#[test]
fn guaranteed_zero_keeps_the_neighbourhood_free() {
    for round in 0..200 {
        let (fx, fy) = [(4, 4), (0, 0), (8, 3), (5, 8)][round % 4];
        let mut game = Game::new(9, 9, 10, FirstClickPolicy::GuaranteedZero);
        game.reveal_cell(fx, fy);
        assert_eq!(mines(&game).len(), 10);
        assert!(numbers_are_right(&game));
        for m in mines(&game) {
            let (x, y) = (m % 9, m / 9);
            assert!(x.abs_diff(fx) > 1 || y.abs_diff(fy) > 1);
        }
        assert_eq!(game.get_cell(fx, fy).content, CellContent::Number(0));
        assert_eq!(game.get_cell(fx, fy).state, CellState::Revealed);
        assert_ne!(game.state, GameState::Lost);
    }
}

#[test]
fn guaranteed_zero_on_a_full_board() {
    for _ in 0..50 {
        let mut game = Game::new(4, 4, 7, FirstClickPolicy::GuaranteedZero);
        game.reveal_cell(1, 1);
        assert_eq!(mines(&game), vec![3, 7, 11, 12, 13, 14, 15]);
        assert_eq!(game.state, GameState::Won);
    }
}

#[test]
fn guaranteed_safe_keeps_the_clicked_cell_free() {
    let mut next_to_a_mine = 0;
    for _ in 0..200 {
        let mut game = Game::new(4, 4, 7, FirstClickPolicy::GuaranteedSafe);
        game.reveal_cell(2, 1);
        assert_eq!(mines(&game).len(), 7);
        assert!(numbers_are_right(&game));
        assert!(!is_mine(game.get_cell(2, 1).content));
        assert_ne!(game.state, GameState::Lost);
        if game.get_cell(2, 1).content != CellContent::Number(0) {
            next_to_a_mine += 1;
        }
    }
    assert!(next_to_a_mine > 0);
}

#[test]
fn unprotected_may_lose_at_once() {
    let mut lost = 0;
    let mut survived = 0;
    for _ in 0..300 {
        let mut game = Game::new(4, 4, 7, FirstClickPolicy::Unprotected);
        game.reveal_cell(3, 3);
        assert_eq!(mines(&game).len(), 7);
        assert!(numbers_are_right(&game));
        if game.state == GameState::Lost {
            assert_eq!(game.get_cell(3, 3).content, CellContent::Explosion);
            assert!(game.final_time.is_some());
            lost += 1;
        } else {
            assert!(!is_mine(game.get_cell(3, 3).content));
            survived += 1;
        }
    }
    assert!(lost > 0);
    assert!(survived > 0);
}

#[test]
fn mines_do_not_always_fall_alike() {
    let mut first = Game::new(9, 9, 10, FirstClickPolicy::Unprotected);
    first.reveal_cell(8, 8);
    let layout = mines(&first);
    let mut differs = false;
    for _ in 0..50 {
        let mut game = Game::new(9, 9, 10, FirstClickPolicy::Unprotected);
        game.reveal_cell(8, 8);
        if mines(&game) != layout {
            differs = true;
        }
    }
    assert!(differs);
}

#[test]
fn mines_are_laid_by_the_first_reveal_only() {
    let mut game = Game::new(9, 9, 10, FirstClickPolicy::GuaranteedZero);
    game.reveal_cell(4, 4);
    let layout = mines(&game);
    game.reveal_cell(0, 0);
    game.reveal_cell(8, 8);
    game.flag(3, 7);
    let mut after = mines(&game);
    after.sort();
    assert_eq!(after, layout);
}

#[test]
fn lay_mines_takes_the_first_positions() {
    let started = Instant::now();
    let mut game = Game::new(4, 4, 3, FirstClickPolicy::Unprotected);
    game.flag(1, 0);
    game.lay_mines(&vec![5, 0, 15, 7, 2], started);
    assert_eq!(mines(&game), vec![0, 5, 15]);
    assert!(numbers_are_right(&game));
    assert_eq!(game.get_cell(1, 0).content, CellContent::Number(2));
    assert_eq!(game.get_cell(1, 0).state, CellState::Flagged);
    assert_eq!(game.get_cell(3, 0).content, CellContent::Number(0));
    assert_eq!(game.get_cell(2, 2).content, CellContent::Number(2));
    assert_eq!(game.count(CellState::Covered), 15);
    assert_eq!(game.state, GameState::Playing);
    assert_eq!(game.start_time, Some(started));
    game.reveal_cell(5, 0);
    game.reveal_cell(3, 0);
    assert_eq!(mines(&game), vec![0, 5, 15]);
    assert_eq!(game.get_cell(3, 0).state, CellState::Revealed);
}

#[test]
fn lay_mines_with_no_mine() {
    let mut game = Game::new(3, 3, 0, FirstClickPolicy::GuaranteedZero);
    game.lay_mines(&Vec::new(), Instant::now());
    assert!(mines(&game).is_empty());
    game.reveal_cell(1, 1);
    assert_eq!(game.count(CellState::Revealed), 9);
    assert_eq!(game.state, GameState::Won);
}

#[test]
fn unprotected_board_may_be_all_mines() {
    let mut game = Game::new(2, 2, 4, FirstClickPolicy::Unprotected);
    game.reveal_cell(1, 0);
    assert_eq!(mines(&game), vec![0, 1, 2, 3]);
    assert_eq!(game.state, GameState::Lost);
    assert_eq!(game.get_cell(1, 0).content, CellContent::Explosion);
}

#[test]
fn unprotected_mines_are_the_first_of_the_order() {
    let mut game = Game::new(3, 2, 4, FirstClickPolicy::Unprotected);
    game.lay_mines(&vec![4, 1, 5, 0, 3, 2], Instant::now());
    assert_eq!(mines(&game), vec![0, 1, 4, 5]);
    assert!(numbers_are_right(&game));
    assert_eq!(game.get_cell(2, 0).content, CellContent::Number(3));
    assert_eq!(game.get_cell(0, 1).content, CellContent::Number(3));
    let mut full = Game::new(2, 2, 4, FirstClickPolicy::Unprotected);
    full.lay_mines(&vec![3, 2, 1, 0], Instant::now());
    assert_eq!(mines(&full), vec![0, 1, 2, 3]);
}

#[test]
fn guaranteed_safe_leaves_room_for_one_cell() {
    for _ in 0..20 {
        let mut game = Game::new(3, 3, 8, FirstClickPolicy::GuaranteedSafe);
        game.reveal_cell(1, 1);
        assert_eq!(mines(&game), vec![0, 1, 2, 3, 5, 6, 7, 8]);
        assert_eq!(game.get_cell(1, 1).content, CellContent::Number(8));
        assert_eq!(game.state, GameState::Won);
    }
}

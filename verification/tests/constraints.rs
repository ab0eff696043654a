use std::collections::hash_map::DefaultHasher;
use std::hash::{Hash, Hasher};

use minesweeper_rs::game::{CellState, Game};
use minesweeper_rs::bits::whole_count_bits;
use minesweeper_rs::{Constraint, FirstClickPolicy};

fn hash_of(c: &Constraint) -> u64 {
    let mut hasher = DefaultHasher::new();
    c.hash(&mut hasher);
    hasher.finish()
}

fn whole(cells: Vec<usize>, count: usize) -> Constraint {
    Constraint::new(cells, (count as f64).to_bits())
}

fn field() -> Game {
    Game::from_text("..*..\n.*...\n..*..").unwrap()
}

#[test]
fn constraint_puts_cells_in_ascending_order() {
    let c = whole(vec![2, 0, 1], 2);
    assert_eq!(c.cells, vec![0, 1, 2]);
    assert_eq!(c.count_bits, 2.0f64.to_bits());
    let d = whole(vec![40, 7, 7, 3, 12], 1);
    assert_eq!(d.cells, vec![3, 7, 7, 12, 40]);
}

#[test]
fn constraint_does_not_depend_on_the_order_given() {
    let a = whole(vec![2, 0, 1], 2);
    let b = whole(vec![0, 1, 2], 2);
    assert_eq!(a, b);
    assert_eq!(hash_of(&a), hash_of(&b));
}

#[test]
fn constraints_differ_by_count_and_by_cells() {
    let a = whole(vec![2, 0, 1], 2);
    assert_ne!(a, whole(vec![0, 1, 2], 1));
    assert_ne!(a, whole(vec![0, 1, 3], 2));
    assert_ne!(a, whole(vec![0, 1], 2));
    assert_ne!(a, whole(vec![0, 1, 2, 2], 2));
}

#[test]
fn empty_constraint() {
    let c = whole(Vec::new(), 0);
    assert!(c.cells.is_empty());
    assert_eq!(c, whole(vec![], 0));
}

#[test]
fn covered_cells_of_a_fresh_board() {
    let game = field();
    assert_eq!(game.get_covered(), (0..15).collect::<Vec<usize>>());
}

#[test]
fn covered_cells_include_flagged_ones() {
    let mut game = field();
    game.reveal_cell(4, 1);
    game.flag(0, 0);
    assert_eq!(game.get_covered(), vec![0, 1, 2, 5, 6, 7, 10, 11, 12]);
}

#[test]
fn sea_of_unknown_of_a_fresh_board_is_the_board() {
    let game = field();
    assert_eq!(game.get_sea_of_unknown(), (0..15).collect::<Vec<usize>>());
}

#[test]
fn sea_of_unknown_is_away_from_revealed_cells() {
    let mut game = field();
    game.reveal_cell(4, 1);
    assert_eq!(game.get_sea_of_unknown(), vec![0, 1, 5, 6, 10, 11]);
}

#[test]
fn sea_of_unknown_holds_no_revealed_cell() {
    let mut game = field();
    game.reveal_cell(0, 0);
    assert_eq!(game.get_cell(0, 0).state, CellState::Revealed);
    assert_eq!(game.get_sea_of_unknown(), vec![2, 3, 4, 7, 8, 9, 10, 11, 12, 13, 14]);
}

#[test]
fn constraints_of_a_fresh_board() {
    let game = field();
    let (global, local, sea) = game.get_constraints();
    assert_eq!(global, whole((0..15).collect(), 3));
    assert!(local.is_empty());
    assert_eq!(sea, (0..15).collect::<Vec<usize>>());
}

#[test]
fn constraints_after_a_reveal() {
    let mut game = field();
    game.reveal_cell(4, 1);
    let (global, local, sea) = game.get_constraints();
    assert_eq!(global.cells, vec![0, 1, 2, 5, 6, 7, 10, 11, 12]);
    assert_eq!(global.count_bits, 3.0f64.to_bits());
    assert_eq!(f64::from_bits(global.count_bits), 3.0);
    assert_eq!(local.len(), 3);
    assert!(local.contains(&whole(vec![2, 7], 1)));
    assert!(local.contains(&whole(vec![2, 7, 12], 2)));
    assert!(local.contains(&whole(vec![7, 12], 1)));
    assert_eq!(sea, vec![0, 1, 5, 6, 10, 11]);
}

#[test]
fn equal_constraints_are_given_once() {
    let mut game = Game::from_text("*..\n...").unwrap();
    game.reveal_cell(1, 0);
    game.reveal_cell(1, 1);
    let (global, local, sea) = game.get_constraints();
    assert_eq!(global, whole(vec![0, 2, 3, 5], 1));
    assert_eq!(local, vec![whole(vec![0, 2, 3, 5], 1)]);
    assert!(sea.is_empty());
}

#[test]
fn constraints_count_flagged_cells_as_hidden() {
    let mut game = Game::from_text("*..\n...").unwrap();
    game.flag(0, 0);
    game.reveal_cell(1, 0);
    let (global, local, _) = game.get_constraints();
    assert_eq!(global.cells, vec![0, 2, 3, 4, 5]);
    assert_eq!(local, vec![whole(vec![0, 2, 3, 4, 5], 1)]);
}

#[test]
fn revealed_number_with_nothing_hidden_around_gives_no_constraint() {
    let mut game = Game::from_text("...\n...\n..*").unwrap();
    game.reveal_cell(0, 0);
    let (global, local, _) = game.get_constraints();
    assert_eq!(global, whole(vec![8], 1));
    assert_eq!(local, vec![whole(vec![8], 1)]);
}

#[test]
fn prior_is_mines_over_hidden_cells() {
    let mut game = field();
    assert_eq!(game.prior(), Some((3, 15)));
    game.flag(0, 0);
    assert_eq!(game.prior(), Some((3, 15)));
    game.reveal_cell(4, 1);
    assert_eq!(game.prior(), Some((3, 9)));
}

#[test]
fn no_prior_once_the_game_is_over() {
    let mut game = field();
    game.reveal_cell(2, 0);
    assert_eq!(game.prior(), None);
    let mut won = Game::from_text("*.").unwrap();
    won.reveal_cell(1, 0);
    assert_eq!(won.prior(), None);
}

#[test]
fn prior_of_a_game_not_yet_started() {
    let game = Game::new(9, 9, 10, FirstClickPolicy::GuaranteedZero);
    assert_eq!(game.prior(), Some((10, 81)));
}

#[test]
fn constraint_with_a_fractional_count() {
    let a = Constraint::new(vec![2, 0, 1], 0.79f64.to_bits());
    let b = Constraint::new(vec![0, 1, 2], 0.79f64.to_bits());
    assert_eq!(a, b);
    assert_eq!(hash_of(&a), hash_of(&b));
    assert_eq!(f64::from_bits(a.count_bits), 0.79);
    assert_ne!(a, Constraint::new(vec![0, 1, 2], 0.24f64.to_bits()));
}

#[test]
fn counts_are_compared_bit_for_bit() {
    let plus = Constraint::new(vec![0, 1], 0.0f64.to_bits());
    let minus = Constraint::new(vec![0, 1], (-0.0f64).to_bits());
    assert_ne!(plus, minus);
    let nan = Constraint::new(vec![0, 1], f64::NAN.to_bits());
    assert_eq!(nan, Constraint::new(vec![1, 0], f64::NAN.to_bits()));
}

#[test]
fn whole_counts_have_the_bits_of_the_number() {
    assert_eq!(whole_count_bits(0), 0);
    assert_eq!(whole_count_bits(1), 0x3FF0_0000_0000_0000);
    assert_eq!(whole_count_bits(2), 0x4000_0000_0000_0000);
    assert_eq!(whole_count_bits(3), 0x4008_0000_0000_0000);
    for n in 0..5000usize {
        assert_eq!(whole_count_bits(n), (n as f64).to_bits());
    }
    for n in [99usize, 255, 256, 65535, 1 << 20, (1 << 31) - 1, u32::MAX as usize, usize::MAX] {
        assert_eq!(whole_count_bits(n), (n as f64).to_bits());
    }
}

#[test]
fn large_counts_are_rounded_to_the_nearest_even() {
    if usize::BITS < 64 {
        return;
    }
    let two53 = 1usize << 53;
    let mut values = vec![
        (1usize << 52) - 1,
        1 << 52,
        (1 << 52) + 1,
        two53 - 1,
        two53,
        two53 + 1,
        two53 + 2,
        two53 + 3,
        two53 + 4,
        two53 + 5,
        two53 + 6,
        (1 << 54) - 1,
        (1 << 54) + 2,
        (1 << 54) + 6,
        (1 << 60) + (1 << 7),
        (1 << 60) + (1 << 7) + 1,
        (1 << 60) + 3 * (1 << 7),
        (1 << 63) - 1,
        1 << 63,
        (1 << 63) + (1 << 10),
        (1 << 63) + (1 << 10) + 1,
        (1 << 63) + 3 * (1 << 10),
        usize::MAX - 1023,
        usize::MAX - 1024,
        usize::MAX,
    ];
    let mut x: usize = 0x9E37_79B9_7F4A_7C15;
    for _ in 0..2000 {
        x ^= x << 13;
        x ^= x >> 7;
        x ^= x << 17;
        values.push(x);
        values.push(x >> 5);
        values.push(x >> 10);
    }
    for n in values {
        assert_eq!(whole_count_bits(n), (n as f64).to_bits());
    }
}

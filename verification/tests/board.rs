use minesweeper_rs::game::{Cell, CellContent, CellState, Game, GameState};
use minesweeper_rs::FirstClickPolicy;
use std::time::{Duration, Instant};

const FIELD: &str = "
..*..
.*...
..*..
";

fn field() -> Game {
    Game::from_text(FIELD).unwrap()
}

fn states(game: &Game) -> Vec<CellState> {
    let mut all = Vec::new();
    for y in 0..game.height {
        for x in 0..game.width {
            all.push(game.get_cell(x, y).state);
        }
    }
    all
}

fn revealed_indices(game: &Game) -> Vec<usize> {
    states(game)
        .iter()
        .enumerate()
        .filter(|(_, s)| **s == CellState::Revealed)
        .map(|(i, _)| i)
        .collect()
}

fn counts_add_up(game: &Game) -> bool {
    game.count(CellState::Revealed) + game.count(CellState::Covered) + game.count(CellState::Flagged)
        == game.width * game.height
}

#[test]
fn new_game_is_all_covered() {
    let game = Game::new(9, 9, 10, FirstClickPolicy::GuaranteedZero);
    assert_eq!(game.width, 9);
    assert_eq!(game.height, 9);
    assert_eq!(game.num_mines, 10);
    assert_eq!(game.state, GameState::Playing);
    assert!(game.start_time.is_none());
    assert!(game.final_time.is_none());
    assert_eq!(game.count(CellState::Covered), 81);
    assert_eq!(game.count(CellState::Revealed), 0);
    assert_eq!(game.count(CellState::Flagged), 0);
    for y in 0..9 {
        for x in 0..9 {
            assert_eq!(
                *game.get_cell(x, y),
                Cell { content: CellContent::Number(0), state: CellState::Covered }
            );
        }
    }
}

#[test]
fn smallest_board_that_leaves_room() {
    let game = Game::new(3, 3, 0, FirstClickPolicy::GuaranteedZero);
    assert_eq!(game.count(CellState::Covered), 9);
}

#[test]
fn counts_add_up_through_a_game() {
    let mut game = field();
    assert!(counts_add_up(&game));
    game.flag(0, 0);
    assert!(counts_add_up(&game));
    game.reveal_cell(4, 1);
    assert!(counts_add_up(&game));
    game.reveal_cell(2, 0);
    assert!(counts_add_up(&game));
    assert_eq!(game.count(CellState::Flagged), 1);
    assert_eq!(game.count(CellState::Revealed), 7);
    assert_eq!(game.count(CellState::Covered), 7);
}

#[test]
fn flag_toggles_a_covered_cell() {
    let mut game = field();
    game.flag(1, 1);
    assert_eq!(game.get_cell(1, 1).state, CellState::Flagged);
    assert_eq!(game.get_cell(1, 1).content, CellContent::Mine);
    assert_eq!(game.count(CellState::Flagged), 1);
    game.flag(1, 1);
    assert_eq!(game.get_cell(1, 1).state, CellState::Covered);
    assert_eq!(game.count(CellState::Flagged), 0);
}

#[test]
fn flag_leaves_a_revealed_cell_alone() {
    let mut game = field();
    game.reveal_cell(0, 0);
    let before = states(&game);
    game.flag(0, 0);
    assert_eq!(states(&game), before);
    assert_eq!(game.get_cell(0, 0).state, CellState::Revealed);
}

#[test]
fn flag_off_the_board_does_nothing() {
    let mut game = field();
    let before = states(&game);
    game.flag(5, 0);
    game.flag(0, 3);
    game.flag(usize::MAX, usize::MAX);
    assert_eq!(states(&game), before);
}

#[test]
fn flag_before_the_first_reveal_stays() {
    let mut game = Game::new(9, 9, 10, FirstClickPolicy::GuaranteedZero);
    game.flag(0, 0);
    game.reveal_cell(8, 8);
    assert_eq!(game.get_cell(0, 0).state, CellState::Flagged);
}

#[test]
fn reveal_of_a_number_reveals_that_cell_only() {
    let mut game = field();
    game.reveal_cell(0, 0);
    assert_eq!(revealed_indices(&game), vec![0]);
    assert_eq!(game.get_cell(0, 0).content, CellContent::Number(1));
    assert_eq!(game.state, GameState::Playing);
    assert!(game.final_time.is_none());
}

#[test]
fn reveal_of_a_zero_spreads_to_the_region_and_its_rim() {
    let mut game = field();
    game.reveal_cell(4, 1);
    assert_eq!(revealed_indices(&game), vec![3, 4, 8, 9, 13, 14]);
    assert_eq!(game.state, GameState::Playing);
    assert_eq!(game.count(CellState::Covered), 9);
}

#[test]
fn reveal_spreads_through_the_whole_outer_region() {
    let mut game = Game::from_text(".....\n.....\n..*..\n.....\n.....").unwrap();
    game.reveal_cell(0, 0);
    let mut expected: Vec<usize> = (0..25).collect();
    expected.retain(|i| *i != 12);
    assert_eq!(revealed_indices(&game), expected);
    assert_eq!(game.get_cell(2, 2).state, CellState::Covered);
    assert_eq!(game.get_cell(2, 2).content, CellContent::Mine);
    assert_eq!(game.state, GameState::Won);
    assert!(game.final_time.is_some());
}

#[test]
fn reveal_does_not_spread_past_the_rim() {
    let mut game = Game::from_text("...*...\n...*...\n...*...").unwrap();
    game.reveal_cell(0, 1);
    assert_eq!(revealed_indices(&game), vec![0, 1, 2, 7, 8, 9, 14, 15, 16]);
    assert_eq!(game.get_cell(2, 1).content, CellContent::Number(3));
    assert_eq!(game.get_cell(4, 1).state, CellState::Covered);
    assert_eq!(game.state, GameState::Playing);
}

#[test]
fn reveal_stops_at_a_flag() {
    let mut game = field();
    game.flag(4, 0);
    game.reveal_cell(4, 1);
    assert_eq!(revealed_indices(&game), vec![3, 8, 9, 13, 14]);
    assert_eq!(game.get_cell(4, 0).state, CellState::Flagged);
}

#[test]
fn reveal_does_not_spread_from_a_zero_revealed_before() {
    let mut game = field();
    game.flag(4, 0);
    game.reveal_cell(4, 1);
    game.flag(4, 0);
    assert_eq!(game.get_cell(4, 0).state, CellState::Covered);
    game.reveal_cell(3, 0);
    assert_eq!(game.get_cell(4, 0).state, CellState::Covered);
    game.reveal_cell(4, 0);
    assert_eq!(game.get_cell(4, 0).state, CellState::Revealed);
}

#[test]
fn reveal_twice_is_reveal_once() {
    let mut game = field();
    game.reveal_cell(4, 1);
    let before = states(&game);
    let frozen = game.final_time;
    game.reveal_cell(4, 1);
    game.reveal_cell(3, 0);
    assert_eq!(states(&game), before);
    assert_eq!(game.state, GameState::Playing);
    assert_eq!(game.final_time, frozen);
}

#[test]
fn reveal_of_a_flagged_cell_does_nothing() {
    let mut game = field();
    game.flag(2, 0);
    let before = states(&game);
    game.reveal_cell(2, 0);
    assert_eq!(states(&game), before);
    assert_eq!(game.state, GameState::Playing);
    assert_eq!(game.get_cell(2, 0).content, CellContent::Mine);
}

#[test]
fn reveal_off_the_board_does_nothing() {
    let mut game = field();
    let before = states(&game);
    game.reveal_cell(5, 1);
    game.reveal_cell(1, 3);
    game.reveal_cell(usize::MAX, 0);
    assert_eq!(states(&game), before);
    assert_eq!(game.state, GameState::Playing);
}

#[test]
fn reveal_off_the_board_does_not_lay_the_mines() {
    let mut game = Game::new(9, 9, 10, FirstClickPolicy::GuaranteedZero);
    game.reveal_cell(9, 0);
    assert!(game.start_time.is_none());
    assert_eq!(game.count(CellState::Covered), 81);
    for y in 0..9 {
        for x in 0..9 {
            assert_eq!(game.get_cell(x, y).content, CellContent::Number(0));
        }
    }
}

#[test]
fn mine_goes_off_and_the_game_is_lost() {
    let mut game = field();
    game.reveal_cell(2, 0);
    assert_eq!(game.state, GameState::Lost);
    assert_eq!(
        *game.get_cell(2, 0),
        Cell { content: CellContent::Explosion, state: CellState::Revealed }
    );
    assert_eq!(game.get_cell(1, 1).content, CellContent::Mine);
    assert_eq!(game.get_cell(2, 2).content, CellContent::Mine);
    assert_eq!(revealed_indices(&game), vec![2]);
    assert!(game.final_time.is_some());
}

#[test]
fn game_is_won_when_only_mines_are_left() {
    let mut game = field();
    game.reveal_cell(4, 1);
    for (x, y) in [(0, 0), (1, 0), (0, 1), (2, 1), (0, 2)] {
        game.reveal_cell(x, y);
        assert_eq!(game.state, GameState::Playing);
        assert!(game.final_time.is_none());
    }
    game.reveal_cell(1, 2);
    assert_eq!(game.state, GameState::Won);
    assert_eq!(game.count(CellState::Revealed), 12);
    assert!(game.final_time.is_some());
    assert_eq!(game.get_cell(2, 0).state, CellState::Covered);
}

#[test]
fn win_does_not_ask_for_flags() {
    let mut game = Game::from_text("*.").unwrap();
    game.reveal_cell(1, 0);
    assert_eq!(game.state, GameState::Won);
    assert_eq!(game.count(CellState::Flagged), 0);
}

#[test]
fn frozen_time_stays_when_no_mine_goes_off() {
    let mut game = field();
    game.reveal_cell(2, 0);
    let frozen = game.final_time;
    assert!(frozen.is_some());
    game.reveal_cell(0, 0);
    assert_eq!(game.final_time, frozen);
    assert_eq!(game.state, GameState::Lost);
    assert_eq!(game.get_cell(0, 0).state, CellState::Revealed);
}

#[test]
fn mine_that_fills_the_count_loses() {
    let mut game = Game::from_text("*.").unwrap();
    game.reveal_cell(0, 0);
    assert_eq!(game.state, GameState::Lost);
    assert_eq!(game.get_cell(0, 0).content, CellContent::Explosion);
    assert_eq!(game.get_cell(0, 0).state, CellState::Revealed);
    assert_eq!(game.get_cell(1, 0).state, CellState::Covered);
    assert_eq!(game.count(CellState::Revealed), 1);
    assert!(game.final_time.is_some());
}

#[test]
fn mine_after_all_but_one_safe_cell_loses() {
    let mut game = Game::from_text("*..").unwrap();
    game.reveal_cell(1, 0);
    assert_eq!(game.state, GameState::Playing);
    game.reveal_cell(0, 0);
    assert_eq!(game.count(CellState::Revealed), 2);
    assert_eq!(game.get_cell(0, 0).content, CellContent::Explosion);
    assert_eq!(game.state, GameState::Lost);
}

#[test]
fn lost_game_stays_lost() {
    let mut game = field();
    game.reveal_cell(2, 0);
    assert_eq!(game.state, GameState::Lost);
    let frozen = game.final_time;
    game.reveal_cell(4, 1);
    for (x, y) in [(0, 0), (1, 0), (0, 1), (2, 1), (0, 2), (1, 2)] {
        game.reveal_cell(x, y);
        assert_eq!(game.state, GameState::Lost);
    }
    assert_eq!(game.count(CellState::Revealed), 13);
    game.reveal_cell(1, 1);
    assert_eq!(game.state, GameState::Lost);
    assert_eq!(game.get_cell(1, 1).state, CellState::Revealed);
    assert_eq!(game.get_cell(1, 1).content, CellContent::Mine);
    assert_eq!(game.get_cell(2, 0).content, CellContent::Explosion);
    assert_eq!(game.final_time, frozen);
}

#[test]
fn won_game_stays_won() {
    let mut game = Game::from_text("*.").unwrap();
    game.reveal_cell(1, 0);
    assert_eq!(game.state, GameState::Won);
    let frozen = game.final_time;
    assert!(frozen.is_some());
    game.reveal_cell(0, 0);
    assert_eq!(game.state, GameState::Won);
    assert_eq!(game.get_cell(0, 0).state, CellState::Revealed);
    assert_eq!(game.get_cell(0, 0).content, CellContent::Mine);
    assert_eq!(game.final_time, frozen);
}

#[test]
fn timer_freezes_at_the_reading_that_ends_the_game() {
    let started = Instant::now();
    let mut game = Game::from_text("*..").unwrap();
    game.reveal_at(1, 0, started, Duration::from_secs(3));
    assert_eq!(game.state, GameState::Playing);
    assert_eq!(game.final_time, None);
    game.reveal_at(2, 0, started, Duration::from_secs(7));
    assert_eq!(game.state, GameState::Won);
    assert_eq!(game.final_time, Some(Duration::from_secs(7)));
    game.reveal_at(0, 0, started, Duration::from_secs(9));
    assert_eq!(game.state, GameState::Won);
    assert_eq!(game.final_time, Some(Duration::from_secs(7)));
}

#[test]
fn timer_freezes_at_a_loss() {
    let started = Instant::now();
    let mut game = field();
    game.reveal_at(0, 0, started, Duration::from_secs(1));
    assert_eq!(game.final_time, None);
    game.reveal_at(2, 0, started, Duration::from_millis(2500));
    assert_eq!(game.state, GameState::Lost);
    assert_eq!(game.final_time, Some(Duration::from_millis(2500)));
    game.reveal_at(1, 1, started, Duration::from_secs(4));
    game.reveal_at(4, 1, started, Duration::from_secs(5));
    assert_eq!(game.final_time, Some(Duration::from_millis(2500)));
}

#[test]
fn timer_is_not_read_by_a_reveal_that_does_nothing() {
    let started = Instant::now();
    let mut game = field();
    game.flag(2, 0);
    game.reveal_at(2, 0, started, Duration::from_secs(1));
    game.reveal_at(9, 9, started, Duration::from_secs(1));
    assert_eq!(game.state, GameState::Playing);
    assert_eq!(game.final_time, None);
}

#[test]
fn first_reveal_starts_the_timer_at_the_given_instant() {
    let started = Instant::now();
    let mut game = Game::new(9, 9, 10, FirstClickPolicy::GuaranteedZero);
    game.reveal_at(9, 0, started, Duration::ZERO);
    assert_eq!(game.start_time, None);
    game.reveal_at(4, 4, started, Duration::ZERO);
    assert_eq!(game.start_time, Some(started));
    let later = Instant::now();
    game.reveal_at(0, 0, later, Duration::from_secs(1));
    assert_eq!(game.start_time, Some(started));
}

#[test]
fn timer_starts_with_the_first_reveal() {
    let mut game = Game::new(9, 9, 10, FirstClickPolicy::GuaranteedSafe);
    assert!(game.start_time.is_none());
    game.flag(1, 1);
    assert!(game.start_time.is_none());
    game.reveal_cell(4, 4);
    assert!(game.start_time.is_some());
    let started = game.start_time;
    game.reveal_cell(0, 0);
    assert_eq!(game.start_time, started);
}

#[test]
fn get_cell_mut_writes_through() {
    let mut game = field();
    game.get_cell_mut(3, 2).state = CellState::Flagged;
    assert_eq!(game.get_cell(3, 2).state, CellState::Flagged);
    assert_eq!(game.get_cell(3, 2).content, CellContent::Number(1));
    assert_eq!(game.count(CellState::Flagged), 1);
    assert_eq!(game.get_cell(2, 2).state, CellState::Covered);
}

#[test]
fn get_cell_reads_row_by_row() {
    let game = Game::from_text("*..\n...").unwrap();
    assert_eq!(game.get_cell(0, 0).content, CellContent::Mine);
    assert_eq!(game.get_cell(1, 0).content, CellContent::Number(1));
    assert_eq!(game.get_cell(2, 0).content, CellContent::Number(0));
    assert_eq!(game.get_cell(0, 1).content, CellContent::Number(1));
    assert_eq!(game.get_cell(1, 1).content, CellContent::Number(1));
    assert_eq!(game.get_cell(2, 1).content, CellContent::Number(0));
}

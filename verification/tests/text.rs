use minesweeper_rs::game::{CellContent, CellState, Game, GameState, LoadGameError, ParseGameError};
use minesweeper_rs::FirstClickPolicy;
use std::time::Instant;

fn contents(game: &Game) -> Vec<CellContent> {
    let mut all = Vec::new();
    for y in 0..game.height {
        for x in 0..game.width {
            all.push(game.get_cell(x, y).content);
        }
    }
    all
}

fn numbers(row: &[i32]) -> Vec<CellContent> {
    row.iter()
        .map(|n| if *n < 0 { CellContent::Mine } else { CellContent::Number(*n as u8) })
        .collect()
}

#[test]
fn text_gives_size_and_mines() {
    let game = Game::from_text("\n..*..\n.*...\n..*..\n").unwrap();
    assert_eq!(game.width, 5);
    assert_eq!(game.height, 3);
    assert_eq!(game.num_mines, 3);
    assert_eq!(game.state, GameState::Playing);
    assert!(matches!(game.first_click_policy, FirstClickPolicy::Unprotected));
    assert!(game.start_time.is_some());
    assert!(game.final_time.is_none());
    assert_eq!(game.count(CellState::Covered), 15);
}

#[test]
fn text_gives_the_numbers() {
    let game = Game::from_text("..*..\n.*...\n..*..").unwrap();
    assert_eq!(
        contents(&game),
        numbers(&[1, 2, -1, 1, 0, 1, -1, 3, 2, 0, 1, 2, -1, 1, 0])
    );
}

#[test]
fn mine_with_eight_mines_around() {
    let game = Game::from_text("***\n*.*\n***").unwrap();
    assert_eq!(game.get_cell(1, 1).content, CellContent::Number(8));
    assert_eq!(game.num_mines, 8);
}

#[test]
fn text_of_mines_only() {
    let game = Game::from_text("**\n**").unwrap();
    assert_eq!(game.num_mines, 4);
    assert_eq!(contents(&game), numbers(&[-1, -1, -1, -1]));
}

#[test]
fn any_other_character_is_a_safe_cell() {
    let game = Game::from_text("a*#\n0 .").unwrap();
    assert_eq!(game.width, 3);
    assert_eq!(game.height, 2);
    assert_eq!(contents(&game), numbers(&[1, -1, 1, 1, 1, 1]));
}

#[test]
fn white_space_around_rows_and_blank_lines_do_not_count() {
    let game = Game::from_text("\n\n   ..*..  \n\t.*...\n   \n\n..*..\t \n\n").unwrap();
    assert_eq!(game.width, 5);
    assert_eq!(game.height, 3);
    assert_eq!(
        contents(&game),
        numbers(&[1, 2, -1, 1, 0, 1, -1, 3, 2, 0, 1, 2, -1, 1, 0])
    );
}

#[test]
fn lines_may_end_in_carriage_return_and_line_feed() {
    let game = Game::from_text("..*\r\n*..\r\n").unwrap();
    assert_eq!(game.width, 3);
    assert_eq!(game.height, 2);
    assert_eq!(game.num_mines, 2);
}

#[test]
fn width_counts_characters_not_bytes() {
    let game = Game::from_text("\u{e9}*\n*\u{4e2d}").unwrap();
    assert_eq!(game.width, 2);
    assert_eq!(game.height, 2);
    assert_eq!(contents(&game), numbers(&[2, -1, -1, 2]));
}

#[test]
fn wide_space_is_white_space() {
    let game = Game::from_text("\u{3000}.*\u{a0}\n*.").unwrap();
    assert_eq!(game.width, 2);
    assert_eq!(game.height, 2);
}

#[test]
fn single_cell() {
    let game = Game::from_text(".").unwrap();
    assert_eq!(game.width, 1);
    assert_eq!(game.height, 1);
    assert_eq!(game.num_mines, 0);
    assert_eq!(game.get_cell(0, 0).content, CellContent::Number(0));
}

#[test]
fn last_line_needs_no_line_feed() {
    let with = Game::from_text(".*\n*.\n").unwrap();
    let without = Game::from_text(".*\n*.").unwrap();
    assert_eq!(contents(&with), contents(&without));
    assert_eq!(with.height, without.height);
}

#[test]
fn empty_text_is_refused() {
    assert!(matches!(Game::from_text(""), Err(ParseGameError::EmptyInput)));
}

#[test]
fn blank_text_is_refused() {
    assert!(matches!(Game::from_text("  \n\t\n \r\n"), Err(ParseGameError::EmptyInput)));
}

#[test]
fn uneven_rows_are_refused() {
    match Game::from_text("..*\n.*\n...") {
        Err(err) => assert_eq!(
            err,
            ParseGameError::InconsistentRowLength { expected: 3, actual: 2, row_index: 1 }
        ),
        Ok(_) => panic!("uneven rows were taken"),
    }
}

#[test]
fn first_uneven_row_is_reported() {
    match Game::from_text("..\n..\n\n...\n.\n") {
        Err(err) => assert_eq!(
            err,
            ParseGameError::InconsistentRowLength { expected: 2, actual: 3, row_index: 2 }
        ),
        Ok(_) => panic!("uneven rows were taken"),
    }
}

#[test]
fn parse_error_in_words() {
    assert_eq!(ParseGameError::EmptyInput.to_string(), "Input text cannot be empty.");
    assert_eq!(
        ParseGameError::InconsistentRowLength { expected: 3, actual: 2, row_index: 1 }.to_string(),
        "Inconsistent row length at row 1: expected 3, but got 2"
    );
    assert_eq!(
        ParseGameError::InconsistentRowLength { expected: 100, actual: 7, row_index: 12 }
            .to_string(),
        "Inconsistent row length at row 12: expected 100, but got 7"
    );
    assert_eq!(
        ParseGameError::InconsistentRowLength { expected: 0, actual: 10, row_index: 4096 }
            .to_string(),
        "Inconsistent row length at row 4096: expected 0, but got 10"
    );
}

#[test]
fn load_error_in_words() {
    let parse = LoadGameError::from(ParseGameError::EmptyInput);
    assert!(matches!(parse, LoadGameError::Parse(ParseGameError::EmptyInput)));
    assert_eq!(parse.to_string(), "Parse error: Input text cannot be empty.");
    let io = LoadGameError::from(std::io::Error::new(std::io::ErrorKind::NotFound, "gone"));
    assert!(matches!(io, LoadGameError::Io(_)));
    assert_eq!(io.to_string(), "I/O error: gone");
}

fn rows(lines: &[&str]) -> Vec<Vec<char>> {
    lines.iter().map(|line| line.chars().collect()).collect()
}

#[test]
fn rows_give_the_game() {
    let started = Instant::now();
    let game = Game::from_rows(&rows(&["..*..", ".*...", "..*.."]), started).unwrap();
    assert_eq!(game.width, 5);
    assert_eq!(game.height, 3);
    assert_eq!(game.num_mines, 3);
    assert_eq!(game.state, GameState::Playing);
    assert!(matches!(game.first_click_policy, FirstClickPolicy::Unprotected));
    assert_eq!(game.start_time, Some(started));
    assert_eq!(game.final_time, None);
    assert_eq!(game.count(CellState::Covered), 15);
    assert_eq!(
        contents(&game),
        numbers(&[1, 2, -1, 1, 0, 1, -1, 3, 2, 0, 1, 2, -1, 1, 0])
    );
}

#[test]
fn rows_are_taken_as_they_are() {
    let game = Game::from_rows(&rows(&[" *", "* "]), Instant::now()).unwrap();
    assert_eq!(game.width, 2);
    assert_eq!(contents(&game), numbers(&[2, -1, -1, 2]));
}

#[test]
fn no_rows_are_refused() {
    assert!(matches!(
        Game::from_rows(&Vec::new(), Instant::now()),
        Err(ParseGameError::EmptyInput)
    ));
}

#[test]
fn uneven_rows_are_refused_with_both_lengths() {
    match Game::from_rows(&rows(&["...", "...", "....", "."]), Instant::now()) {
        Err(err) => assert_eq!(
            err,
            ParseGameError::InconsistentRowLength { expected: 3, actual: 4, row_index: 2 }
        ),
        Ok(_) => panic!("uneven rows were taken"),
    }
}

#[test]
fn empty_rows_give_a_board_without_cells() {
    let game = Game::from_rows(&rows(&["", ""]), Instant::now()).unwrap();
    assert_eq!(game.width, 0);
    assert_eq!(game.height, 2);
    assert_eq!(game.num_mines, 0);
    assert_eq!(game.count(CellState::Covered), 0);
    assert_eq!(game.to_string(), "\n\n");
}

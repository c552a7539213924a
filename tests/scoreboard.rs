use bevy::color::Color;
use bevy::ecs::entity::Entity;
use bevy_scoreboard::{DuplicateIdError, Scoreboard, WinState, CELEBRATION_NANOS};

fn red() -> Color {
    Color::srgb(1.0, 0.0, 0.0)
}

fn green() -> Color {
    Color::srgb(0.0, 1.0, 0.0)
}

fn blue() -> Color {
    Color::srgb(0.0, 0.0, 1.0)
}

fn texts(board: &Scoreboard) -> Vec<String> {
    board.rendered_lines().into_iter().map(|(text, _)| text).collect()
}

fn band() -> Scoreboard {
    let mut board = Scoreboard::new();
    board.add_player(1, "Ferris".to_string(), red()).unwrap();
    board.add_player(2, "Paul".to_string(), green()).unwrap();
    board.add_player(3, "George".to_string(), blue()).unwrap();
    board
}

#[test]
fn new_board_is_empty_and_waiting() {
    let board = Scoreboard::new();
    assert!(board.rendered_lines().is_empty());
    assert_eq!(board.win_state(), WinState::Detecting);
    assert_eq!(board.winner_entity(), None);
    assert_eq!(board.celebration_elapsed(), 0);
    let default_board = Scoreboard::default();
    assert!(default_board.rendered_lines().is_empty());
}

#[test]
fn distinct_players_join_with_score_zero() {
    let board = band();
    assert_eq!(texts(&board), vec!["0 - Ferris", "0 - Paul", "0 - George"]);
    assert_eq!(board.get_score(1), 0);
    assert_eq!(board.get_score(2), 0);
    assert_eq!(board.get_score(3), 0);
}

#[test]
fn repeated_id_is_reported_and_changes_nothing() {
    let mut board = band();
    board.increment(2, 5);
    let before = texts(&board);
    let result = board.add_player(2, "Ringo".to_string(), red());
    assert_eq!(result, Err(DuplicateIdError { id: 2 }));
    assert_eq!(texts(&board), before);
    assert_eq!(board.get_score(2), 5);
}

#[test]
fn lines_carry_player_colors() {
    let board = band();
    let lines = board.rendered_lines();
    assert_eq!(lines.len(), 3);
    assert_eq!(lines[0].1, red());
    assert_eq!(lines[1].1, green());
    assert_eq!(lines[2].1, blue());
}

#[test]
fn lines_are_sorted_by_descending_score() {
    let mut board = band();
    board.increment(1, 1);
    board.increment(2, 2);
    board.increment(3, 4);
    assert_eq!(texts(&board), vec!["4 - George", "2 - Paul", "1 - Ferris"]);
    board.increment(1, 10);
    assert_eq!(texts(&board), vec!["11 - Ferris", "4 - George", "2 - Paul"]);
}

#[test]
fn ties_keep_the_order_they_last_had() {
    let mut board = band();
    board.increment(2, 1);
    assert_eq!(texts(&board), vec!["1 - Paul", "0 - Ferris", "0 - George"]);
    board.increment(2, -1);
    assert_eq!(texts(&board), vec!["0 - Paul", "0 - Ferris", "0 - George"]);
    board.increment(3, 0);
    assert_eq!(texts(&board), vec!["0 - Paul", "0 - Ferris", "0 - George"]);
}

#[test]
fn new_player_goes_behind_equal_scores_and_ahead_of_lower() {
    let mut board = band();
    board.increment(1, -3);
    board.add_player(4, "Ringo".to_string(), red()).unwrap();
    assert_eq!(
        texts(&board),
        vec!["0 - Paul", "0 - George", "0 - Ringo", "-3 - Ferris"]
    );
}

#[test]
fn increment_twice_adds_both_amounts() {
    let mut board = band();
    board.increment(3, 7);
    board.increment(3, -2);
    assert_eq!(board.get_score(3), 5);
}

#[test]
fn increment_of_unknown_id_changes_nothing() {
    let mut board = band();
    board.increment(2, 3);
    let before = texts(&board);
    board.increment(99, 4);
    assert_eq!(texts(&board), before);
    assert_eq!(board.get_score(99), 0);
}

#[test]
fn scores_may_go_negative() {
    let mut board = band();
    board.increment(1, -12);
    assert_eq!(board.get_score(1), -12);
    assert_eq!(texts(&board)[2], "-12 - Ferris");
}

#[test]
fn set_score_overwrites_and_ranks() {
    let mut board = band();
    board.set_score(3, 9);
    assert_eq!(board.get_score(3), 9);
    assert_eq!(texts(&board), vec!["9 - George", "0 - Ferris", "0 - Paul"]);
    board.set_score(42, 9);
    assert_eq!(board.get_score(42), 0);
    assert_eq!(texts(&board).len(), 3);
}

#[test]
fn reset_scores_zeroes_and_keeps_order() {
    let mut board = band();
    board.increment(3, 4);
    board.increment(1, 2);
    assert_eq!(texts(&board), vec!["4 - George", "2 - Ferris", "0 - Paul"]);
    board.reset_scores();
    assert_eq!(texts(&board), vec!["0 - George", "0 - Ferris", "0 - Paul"]);
    let lines = board.rendered_lines();
    assert_eq!(lines[0].1, blue());
    assert_eq!(lines[1].1, red());
    assert_eq!(lines[2].1, green());
}

#[test]
fn remove_player_drops_one_entry() {
    let mut board = band();
    board.increment(2, 2);
    board.remove_player(2);
    assert_eq!(texts(&board), vec!["0 - Ferris", "0 - George"]);
    assert_eq!(board.get_score(2), 0);
    board.remove_player(2);
    assert_eq!(texts(&board).len(), 2);
    assert!(board.add_player(2, "Paul".to_string(), green()).is_ok());
}

#[test]
fn clear_then_add_with_used_id_succeeds() {
    let mut board = band();
    board.increment(1, 3);
    board.clear();
    assert!(board.rendered_lines().is_empty());
    assert_eq!(board.add_player(1, "Ferris".to_string(), red()), Ok(()));
    assert_eq!(texts(&board), vec!["0 - Ferris"]);
}

#[test]
fn high_score_of_empty_and_single_tables() {
    let mut board = Scoreboard::new();
    assert_eq!(board.high_score(), 0);
    board.add_player(5, "Solo".to_string(), red()).unwrap();
    board.increment(5, -4);
    assert_eq!(board.high_score(), -4);
    board.add_player(6, "Duo".to_string(), blue()).unwrap();
    board.increment(6, 8);
    assert_eq!(board.high_score(), 8);
}

#[test]
fn celebration_runs_for_its_full_duration() {
    let mut board = band();
    board.increment(1, 3);
    board.increment(2, 1);
    let winner = Entity::from_raw(7);
    board.show_winner_screen(winner);
    assert_eq!(board.win_state(), WinState::Displaying);
    assert_eq!(board.winner_entity(), Some(winner));
    assert!(!board.tick(1_000_000_000));
    assert!(!board.tick(1_490_000_000));
    assert_eq!(board.win_state(), WinState::Displaying);
    assert_eq!(board.celebration_elapsed(), 2_490_000_000);
    assert_eq!(board.get_score(1), 3);
    assert!(board.tick(10_000_000));
    assert_eq!(board.win_state(), WinState::Detecting);
    assert_eq!(board.winner_entity(), None);
    assert_eq!(board.celebration_elapsed(), 0);
    assert_eq!(board.get_score(1), 0);
    assert_eq!(board.get_score(2), 0);
    assert_eq!(texts(&board), vec!["0 - Ferris", "0 - Paul", "0 - George"]);
}

#[test]
fn celebration_ends_on_one_long_tick() {
    let mut board = band();
    board.show_winner_screen(Entity::from_raw(1));
    assert!(board.tick(CELEBRATION_NANOS + 5));
    assert_eq!(board.win_state(), WinState::Detecting);
}

#[test]
fn tick_without_winner_changes_nothing() {
    let mut board = band();
    board.increment(3, 2);
    assert!(!board.tick(CELEBRATION_NANOS));
    assert_eq!(board.win_state(), WinState::Detecting);
    assert_eq!(board.get_score(3), 2);
}

#[test]
fn second_winner_during_celebration_is_ignored() {
    let mut board = band();
    let first = Entity::from_raw(1);
    board.show_winner_screen(first);
    assert!(!board.tick(1_000_000_000));
    board.show_winner_screen(Entity::from_raw(2));
    assert_eq!(board.winner_entity(), Some(first));
    assert_eq!(board.celebration_elapsed(), 1_000_000_000);
}

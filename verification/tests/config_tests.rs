use chromosaic::config::{AppConfig, ConfigError};
use chromosaic::game::{Color, Game, Player};
use chromosaic::piece::Piece;

fn knight_player(color: Color) -> Player {
    Player { piece: Piece::from_name("knight", &[]), color }
}

#[test]
fn building_a_game_plays_it() {
    let config = AppConfig::new(100, vec![knight_player(Color::black()), knight_player(Color::red())]);
    assert_eq!(config.board_size, 100);
    assert_eq!(config.players.len(), 2);
    let game = config.build_game().ok().expect("valid settings");

    let mut reference = Game::new(
        100,
        vec![Color::black(), Color::red()],
        vec![Piece::from_name("knight", &[]), Piece::from_name("knight", &[])],
    );
    reference.play();
    assert_eq!(game.coloring(), reference.coloring());
    assert_eq!(game.coloring().len(), 61);
}

#[test]
fn an_empty_board_is_refused() {
    let config = AppConfig::new(0, vec![knight_player(Color::black())]);
    let error = config.build_game().err().expect("empty board");
    assert_eq!(error, ConfigError::EmptyBoard);
    assert_eq!(error.message(), "board size must be at least 1");
}

#[test]
fn settings_without_players_are_refused() {
    let config = AppConfig::new(10, vec![]);
    let error = config.build_game().err().expect("no players");
    assert_eq!(error, ConfigError::NoPlayers);
    assert_eq!(error.message(), "at least one player row is required");
}

#[test]
fn empty_board_is_reported_before_missing_players() {
    let config = AppConfig::new(0, vec![]);
    assert_eq!(config.build_game().err(), Some(ConfigError::EmptyBoard));
}

use chromosaic::game::{Color, Game};
use chromosaic::grid::Coord;
use chromosaic::piece::Piece;
use std::collections::HashMap;

#[test]
fn colors_red_black_knights() -> anyhow::Result<()> {
    let knight_piece = Piece::from_name("knight", &[]);
    let knight_piece2 = Piece::from_name("knight", &[]);

    let black = Color::black();
    let red = Color::red();

    let mut game = Game::new(100, vec![black, red], vec![knight_piece, knight_piece2]);
    game.play();

    // These are listed on the ON-LINE ENCYCLOPEDIA OF INTEGER SEQUENCES
    let expected_black = [
        0, 2, 5, 9, 11, 15, 20, 21, 30, 31, 36, 40, 42, 47, 48, 50, 56, 61, 65, 67, 69, 70, 71, 75,
        76, 81, 83, 85, 87, 89, 93,
    ]; // OEIS A392177
    let expected_red = [
        1, 3, 4, 6, 10, 12, 24, 25, 34, 35, 37, 41, 44, 49, 55, 57, 58, 63, 64, 66, 68, 72, 78, 82,
        84, 86, 88, 90, 95, 96,
    ]; // OEIS A392178

    let mut black_actual: Vec<usize> = game
        .coloring()
        .iter()
        .filter_map(|(&square, &assigned_color)| (assigned_color == 0).then_some(square))
        .collect();
    black_actual.sort();

    let mut red_actual: Vec<usize> = game
        .coloring()
        .iter()
        .filter_map(|(&square, &assigned_color)| (assigned_color == 1).then_some(square))
        .collect();
    red_actual.sort();

    assert_eq!(black_actual, expected_black);
    assert_eq!(red_actual, expected_red);

    Ok(())
}

fn wazir() -> Piece {
    Piece::new("wazir", &[Coord::new(1, 0)])
}

#[test]
fn wazirs_take_turns_on_a_small_board() {
    let mut game = Game::new(9, vec![Color::red(), Color::blue()], vec![wazir(), wazir()]);
    game.play();
    let expected: HashMap<usize, usize> = [(0, 0), (2, 1), (4, 0), (6, 1), (8, 0)].into_iter().collect();
    assert_eq!(game.coloring(), &expected);
}

#[test]
fn a_lone_player_claims_every_cell() {
    let mut game = Game::new(5, vec![Color::green()], vec![wazir()]);
    game.play();
    let expected: HashMap<usize, usize> = (0..5).map(|i| (i, 0)).collect();
    assert_eq!(game.coloring(), &expected);
}

#[test]
fn game_stops_when_the_player_to_move_is_blocked() {
    let mut game = Game::new(2, vec![Color::red(), Color::blue()], vec![wazir(), wazir()]);
    game.play();
    let expected: HashMap<usize, usize> = [(0, 0)].into_iter().collect();
    assert_eq!(game.coloring(), &expected);
}

#[test]
fn playing_again_changes_nothing() {
    let mut game = Game::new(30, vec![Color::red(), Color::blue()], vec![wazir(), wazir()]);
    game.play();
    let first = game.coloring().clone();
    game.play();
    assert_eq!(game.coloring(), &first);
}

#[test]
fn new_game_has_no_claims_and_keeps_its_board() {
    let game = Game::new(7, vec![Color::red()], vec![wazir()]);
    assert!(game.coloring().is_empty());
    assert_eq!(game.board().points().len(), 7);
    assert_eq!(game.colors(), &[Color::red()]);
}

#[test]
fn named_colors_have_their_channels() {
    assert_eq!((Color::red().r, Color::red().g, Color::red().b), (255, 0, 0));
    assert_eq!((Color::green().r, Color::green().g, Color::green().b), (0, 255, 0));
    assert_eq!((Color::blue().r, Color::blue().g, Color::blue().b), (0, 0, 255));
    assert_eq!((Color::black().r, Color::black().g, Color::black().b), (0, 0, 0));
}

#[test]
fn moves_that_fit_every_cell_make_a_playable_game() {
    let game = Game::new(9, vec![Color::red(), Color::blue()], vec![wazir(), wazir()]);
    assert!(game.moves_fit_board());
    let far = Piece::new("far", &[Coord::new(2147483647, 0)]);
    let lone = Game::new(1, vec![Color::red()], vec![far.clone()]);
    assert!(lone.moves_fit_board());
    let wide = Game::new(2, vec![Color::red()], vec![far]);
    assert!(!wide.moves_fit_board());
}

#[test]
fn a_game_without_players_or_pieces_is_not_playable() {
    let no_players = Game::new(4, vec![], vec![wazir()]);
    assert!(!no_players.moves_fit_board());
    let too_few_pieces = Game::new(4, vec![Color::red(), Color::blue()], vec![wazir()]);
    assert!(!too_few_pieces.moves_fit_board());
}

#[test]
fn knights_never_attack_each_other() {
    let knight = Piece::new("knight", &[Coord::new(1, 2)]);
    let mut game = Game::new(200, vec![Color::red(), Color::blue()], vec![knight.clone(), knight.clone()]);
    game.play();
    let points = game.board().points();
    for (&i, &ci) in game.coloring() {
        for (&j, &cj) in game.coloring() {
            if ci != cj {
                let d = Coord::new(points[j].x - points[i].x, points[j].y - points[i].y);
                assert!(!knight.moves().contains(&d));
            }
        }
    }
}

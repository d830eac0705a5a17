use chromosaic::game::{Color, Game};
use chromosaic::grid::Coord;
use chromosaic::piece::Piece;
use chromosaic::render::{game_image_fits, image_dimensions, render_image, BoardBounds, ImageRenderOptions, RenderError};

fn wazir() -> Piece {
    Piece::new("wazir", &[Coord::new(1, 0)])
}

fn pixel(rgba: &[u8], width: u32, x: u32, y: u32) -> [u8; 4] {
    let i = 4 * (y * width + x) as usize;
    [rgba[i], rgba[i + 1], rgba[i + 2], rgba[i + 3]]
}

#[test]
fn bounds_cover_the_points() {
    let points = [Coord::new(0, 0), Coord::new(3, -1), Coord::new(-2, 5)];
    let bounds = BoardBounds::from_points(&points).expect("points");
    assert_eq!(bounds, BoardBounds { min_x: -2, max_x: 3, min_y: -1, max_y: 5 });
    assert_eq!(bounds.width_cells(), 6);
    assert_eq!(bounds.height_cells(), 7);
    assert_eq!(BoardBounds::from_points(&[]), None);
}

#[test]
fn default_options_and_dimensions() {
    let options = ImageRenderOptions::default();
    assert_eq!(options, ImageRenderOptions { cell_px: 16, padding_cells: 1 });
    let bounds = BoardBounds { min_x: -1, max_x: 1, min_y: -1, max_y: 2 };
    assert_eq!(image_dimensions(bounds, options), ((3 + 2) * 16, (4 + 2) * 16));
}

#[test]
fn a_claimed_cell_is_drawn_in_its_owners_color() {
    let mut game = Game::new(1, vec![Color::blue()], vec![wazir()]);
    game.play();
    let image = render_image(&game, ImageRenderOptions { cell_px: 2, padding_cells: 1 }).ok().expect("image");
    assert_eq!((image.width, image.height), (6, 6));
    assert_eq!(image.rgba.len(), 4 * 6 * 6);
    for y in 0..6 {
        for x in 0..6 {
            let expected = if (2..4).contains(&x) && (2..4).contains(&y) { [0, 0, 255, 255] } else { [242, 242, 238, 255] };
            assert_eq!(pixel(&image.rgba, 6, x, y), expected);
        }
    }
}

#[test]
fn unclaimed_cells_are_grey_and_rows_run_downwards() {
    let mut game = Game::new(3, vec![Color::red(), Color::blue()], vec![wazir(), wazir()]);
    game.play();
    // Cell 0 (0,0) is red's, cell 2 (1,1) blue's; cell 1 (1,0) stays unclaimed.
    let image = render_image(&game, ImageRenderOptions { cell_px: 1, padding_cells: 0 }).ok().expect("image");
    assert_eq!((image.width, image.height), (2, 2));
    assert_eq!(pixel(&image.rgba, 2, 0, 1), [255, 0, 0, 255]);
    assert_eq!(pixel(&image.rgba, 2, 1, 1), [220, 220, 216, 255]);
    assert_eq!(pixel(&image.rgba, 2, 1, 0), [0, 0, 255, 255]);
    assert_eq!(pixel(&image.rgba, 2, 0, 0), [242, 242, 238, 255]);
}

#[test]
fn zero_sized_blocks_are_refused() {
    let game = Game::new(4, vec![Color::red()], vec![wazir()]);
    let error = render_image(&game, ImageRenderOptions { cell_px: 0, padding_cells: 1 }).err().expect("error");
    assert_eq!(error, RenderError::ZeroCellSize);
    assert_eq!(error.message(), "cell size must be at least one pixel");
}

#[test]
fn an_empty_board_cannot_be_drawn() {
    let game = Game::new(0, vec![Color::red()], vec![wazir()]);
    let error = render_image(&game, ImageRenderOptions::default()).err().expect("error");
    assert_eq!(error, RenderError::EmptyBoard);
    assert_eq!(error.message(), "cannot export an empty board");
}

#[test]
fn dimensions_of_a_small_board_with_padding() {
    let bounds = BoardBounds { min_x: -1, max_x: 2, min_y: -1, max_y: 1 };
    let options = ImageRenderOptions { cell_px: 16, padding_cells: 1 };
    assert_eq!(image_dimensions(bounds, options), (96, 80));
}

#[test]
fn dimensions_of_inverted_bounds() {
    let bounds = BoardBounds { min_x: 1, max_x: 0, min_y: 0, max_y: 0 };
    let options = ImageRenderOptions { cell_px: 1, padding_cells: 0 };
    assert_eq!(bounds.width_cells(), 0);
    assert_eq!(image_dimensions(bounds, options), (0, 1));
}

#[test]
fn images_of_small_boards_fit() {
    let game = Game::new(9, vec![Color::red()], vec![wazir()]);
    assert!(game_image_fits(&game, ImageRenderOptions::default()));
    assert!(game_image_fits(&game, ImageRenderOptions { cell_px: 0, padding_cells: 0 }));
    assert!(!game_image_fits(&game, ImageRenderOptions { cell_px: 1 << 30, padding_cells: 0 }));
    assert!(!game_image_fits(&game, ImageRenderOptions { cell_px: 1, padding_cells: u32::MAX }));
    let empty = Game::new(0, vec![Color::red()], vec![wazir()]);
    assert!(game_image_fits(&empty, ImageRenderOptions::default()));
}

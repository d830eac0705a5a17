//! Drawing a game as an image: one square block of pixels per board cell, the cell's
//! owner's colour on it, with a margin of background around the board.
use vstd::prelude::*;
use crate::game::{Color, Game};
use crate::grid::{Coord, coords_view};

verus! {

/// The smallest rectangle of cells holding a set of points.
#[derive(Clone, Copy, Debug, PartialEq, Eq, Structural)]
pub struct BoardBounds {
    pub min_x: i32,
    pub max_x: i32,
    pub min_y: i32,
    pub max_y: i32,
}

/// `b` is the bounding rectangle of `points`: each bound is reached by a point and no
/// point lies outside.
pub open spec fn is_bounds_of(b: BoardBounds, points: Seq<(int, int)>) -> bool {
    &&& exists|i: int| 0 <= i < points.len() && #[trigger] points[i].0 == b.min_x
    &&& exists|i: int| 0 <= i < points.len() && #[trigger] points[i].0 == b.max_x
    &&& exists|i: int| 0 <= i < points.len() && #[trigger] points[i].1 == b.min_y
    &&& exists|i: int| 0 <= i < points.len() && #[trigger] points[i].1 == b.max_y
    &&& forall|i: int|
        #![trigger points[i]]
        0 <= i < points.len() ==> b.min_x <= points[i].0 <= b.max_x && b.min_y
            <= points[i].1 <= b.max_y
}

impl BoardBounds {
    /// The bounding rectangle of `points`; none for no points.
    pub fn from_points(points: &[Coord]) -> (r: Option<BoardBounds>)
        ensures
            points@.len() == 0 <==> r is None,
            r matches Some(b) ==> is_bounds_of(b, crate::grid::coords_view(points@)),
    {
        if points.len() == 0 {
            return None;
        }
        let ghost pts = crate::grid::coords_view(points@);
        let first = points[0];
        let mut bounds = BoardBounds { min_x: first.x, max_x: first.x, min_y: first.y, max_y: first.y };
        assert(pts[0] == first@);
        assert(pts.take(1)[0] == first@);
        assert(pts.take(1)[0].0 == bounds.min_x && pts.take(1)[0].0 == bounds.max_x);
        assert(pts.take(1)[0].1 == bounds.min_y && pts.take(1)[0].1 == bounds.max_y);
        let mut i: usize = 1;
        while i < points.len()
            invariant
                1 <= i <= points@.len(),
                pts == crate::grid::coords_view(points@),
                is_bounds_of(bounds, pts.take(i as int)),
            decreases points@.len() - i,
        {
            let point = points[i];
            let ghost before = bounds;
            assert(pts[i as int] == point@);
            if point.x < bounds.min_x {
                bounds.min_x = point.x;
            }
            if point.x > bounds.max_x {
                bounds.max_x = point.x;
            }
            if point.y < bounds.min_y {
                bounds.min_y = point.y;
            }
            if point.y > bounds.max_y {
                bounds.max_y = point.y;
            }
            proof {
                let prev = pts.take(i as int);
                let next = pts.take(i + 1);
                assert(next[i as int] == point@);
                assert forall|k: int| 0 <= k < i implies #[trigger] next[k] == prev[k] by {}
                if bounds.min_x == before.min_x {
                    let w = choose|w: int| 0 <= w < prev.len() && #[trigger] prev[w].0 == before.min_x;
                    assert(next[w].0 == bounds.min_x);
                } else {
                    assert(next[i as int].0 == bounds.min_x);
                }
                if bounds.max_x == before.max_x {
                    let w = choose|w: int| 0 <= w < prev.len() && #[trigger] prev[w].0 == before.max_x;
                    assert(next[w].0 == bounds.max_x);
                } else {
                    assert(next[i as int].0 == bounds.max_x);
                }
                if bounds.min_y == before.min_y {
                    let w = choose|w: int| 0 <= w < prev.len() && #[trigger] prev[w].1 == before.min_y;
                    assert(next[w].1 == bounds.min_y);
                } else {
                    assert(next[i as int].1 == bounds.min_y);
                }
                if bounds.max_y == before.max_y {
                    let w = choose|w: int| 0 <= w < prev.len() && #[trigger] prev[w].1 == before.max_y;
                    assert(next[w].1 == bounds.max_y);
                } else {
                    assert(next[i as int].1 == bounds.max_y);
                }
            }
            i += 1;
        }
        assert(pts.take(points@.len() as int) =~= pts);
        Some(bounds)
    }

    /// The number of columns, `max_x - min_x + 1`, as a `u32`.
    pub fn width_cells(&self) -> (r: u32)
        requires
            i32::MIN <= self.max_x - self.min_x <= i32::MAX,
            i32::MIN <= self.max_x - self.min_x + 1 <= i32::MAX,
        ensures
            r == cells_between(self.min_x, self.max_x),
    {
        #[verifier::truncate] ((self.max_x - self.min_x + 1) as u32)
    }

    /// The number of rows, `max_y - min_y + 1`, as a `u32`.
    pub fn height_cells(&self) -> (r: u32)
        requires
            i32::MIN <= self.max_y - self.min_y <= i32::MAX,
            i32::MIN <= self.max_y - self.min_y + 1 <= i32::MAX,
        ensures
            r == cells_between(self.min_y, self.max_y),
    {
        #[verifier::truncate] ((self.max_y - self.min_y + 1) as u32)
    }
}

/// How an image is drawn: the side of a cell's block in pixels, and the margin around
/// the board in cells.
#[derive(Clone, Copy, Debug, PartialEq, Eq, Structural)]
pub struct ImageRenderOptions {
    pub cell_px: u32,
    pub padding_cells: u32,
}

impl Default for ImageRenderOptions {
    /// Blocks of 16 pixels and a margin of one cell.
    fn default() -> (r: ImageRenderOptions)
        ensures
            r == (ImageRenderOptions { cell_px: 16, padding_cells: 1 }),
    {
        ImageRenderOptions { cell_px: 16, padding_cells: 1 }
    }
}

/// The number of cells from `lo` to `hi`, `hi - lo + 1`, as a `u32` holds it (taken
/// modulo `2^32` when negative).
pub open spec fn cells_between(lo: i32, hi: i32) -> u32 {
    #[verifier::truncate]
    ((hi - lo + 1) as u32)
}

/// The number of cells across an image: the board's width plus the margin on both sides.
pub open spec fn image_columns(bounds: BoardBounds, options: ImageRenderOptions) -> int {
    cells_between(bounds.min_x, bounds.max_x) + 2 * options.padding_cells
}

/// The number of cells down an image: the board's height plus the margin on both sides.
pub open spec fn image_rows(bounds: BoardBounds, options: ImageRenderOptions) -> int {
    cells_between(bounds.min_y, bounds.max_y) + 2 * options.padding_cells
}

/// The sizes `image_dimensions` computes, and their parts, fit in their types.
pub open spec fn dimensions_fit(bounds: BoardBounds, options: ImageRenderOptions) -> bool {
    &&& i32::MIN <= bounds.max_x - bounds.min_x <= i32::MAX
    &&& i32::MIN <= bounds.max_x - bounds.min_x + 1 <= i32::MAX
    &&& i32::MIN <= bounds.max_y - bounds.min_y <= i32::MAX
    &&& i32::MIN <= bounds.max_y - bounds.min_y + 1 <= i32::MAX
    &&& 2 * options.padding_cells <= u32::MAX
    &&& image_columns(bounds, options) <= u32::MAX
    &&& image_rows(bounds, options) <= u32::MAX
    &&& image_columns(bounds, options) * options.cell_px <= u32::MAX
    &&& image_rows(bounds, options) * options.cell_px <= u32::MAX
}

/// The width and height in pixels of the image of a board with these bounds.
pub fn image_dimensions(bounds: BoardBounds, options: ImageRenderOptions) -> (r: (u32, u32))
    requires
        dimensions_fit(bounds, options),
    ensures
        r.0 == image_columns(bounds, options) * options.cell_px,
        r.1 == image_rows(bounds, options) * options.cell_px,
{
    let padding = options.padding_cells * 2;
    (
        (bounds.width_cells() + padding) * options.cell_px,
        (bounds.height_cells() + padding) * options.cell_px,
    )
}

// ---------------------------------------------------------------------------
// Images.
// ---------------------------------------------------------------------------
/// An RGBA image of the `image` crate.
#[verifier::external_body]
pub struct PixelImage {
    image: image::RgbaImage,
}

/// The pixels of an image: each position `(x, y)` inside it, with its red, green, blue
/// and alpha channels.
pub uninterp spec fn image_pixels(image: PixelImage) -> Map<(u32, u32), (u8, u8, u8, u8)>;

/// The width and height of an image.
pub uninterp spec fn image_size(image: PixelImage) -> (u32, u32);

/// Every position of a `width` × `height` image.
pub open spec fn image_positions(width: u32, height: u32) -> Set<(u32, u32)> {
    Set::new(|p: (u32, u32)| p.0 < width && p.1 < height)
}

/// `bytes` lists the pixels of a `width` × `height` image row by row, top row first,
/// four bytes per pixel: red, green, blue, alpha.
pub open spec fn rgba_layout(
    bytes: Seq<u8>,
    width: u32,
    height: u32,
    pixels: Map<(u32, u32), (u8, u8, u8, u8)>,
) -> bool {
    &&& bytes.len() == 4 * width * height
    &&& forall|x: u32, y: u32|
        x < width && y < height ==> {
            let i = 4 * (y * width + x);
            let px = #[trigger] pixels[(x, y)];
            &&& bytes[i] == px.0
            &&& bytes[i + 1] == px.1
            &&& bytes[i + 2] == px.2
            &&& bytes[i + 3] == px.3
        }
}

/// `ImageBuffer::from_pixel`: a `width` × `height` image whose every pixel is `pixel`.
/// Its buffer of `4 * width * height` bytes must be one that a `Vec` can hold, else
/// the call panics; running out of memory is not ruled out.
#[verifier::external_body]
fn image_from_pixel(width: u32, height: u32, pixel: (u8, u8, u8, u8)) -> (image: PixelImage)
    requires
        4 * width * height <= isize::MAX,
    ensures
        image_size(image) == (width, height),
        image_pixels(image) == Map::new(
            |p: (u32, u32)| image_positions(width, height).contains(p),
            |p: (u32, u32)| pixel,
        ),
{
    PixelImage {
        image: image::ImageBuffer::from_pixel(
            width,
            height,
            image::Rgba([pixel.0, pixel.1, pixel.2, pixel.3]),
        ),
    }
}

/// `ImageBuffer::put_pixel`: sets the pixel at `(x, y)`, which must lie inside the
/// image; the call panics otherwise.
#[verifier::external_body]
fn image_put_pixel(image: &mut PixelImage, x: u32, y: u32, pixel: (u8, u8, u8, u8))
    requires
        image_pixels(*old(image)).contains_key((x, y)),
    ensures
        image_size(*final(image)) == image_size(*old(image)),
        image_pixels(*final(image)) == image_pixels(*old(image)).insert((x, y), pixel),
{
    image.image.put_pixel(x, y, image::Rgba([pixel.0, pixel.1, pixel.2, pixel.3]))
}

/// `ImageBuffer::into_raw`: the image's buffer, row by row, four bytes per pixel.
#[verifier::external_body]
fn image_into_raw(image: PixelImage) -> (bytes: Vec<u8>)
    requires
        image_pixels(image).dom() == image_positions(image_size(image).0, image_size(image).1),
    ensures
        rgba_layout(bytes@, image_size(image).0, image_size(image).1, image_pixels(image)),
{
    image.image.into_raw()
}

/// A drawn image: its size and its pixels, row by row, four bytes (red, green, blue,
/// alpha) per pixel.
#[derive(Debug)]
pub struct RenderedImage {
    pub width: u32,
    pub height: u32,
    pub rgba: Vec<u8>,
}

/// Why a game cannot be drawn.
#[derive(Clone, Copy, Debug, PartialEq, Eq, Structural)]
pub enum RenderError {
    /// Blocks of zero pixels.
    ZeroCellSize,
    /// The board has no cell.
    EmptyBoard,
}

impl RenderError {
    /// A sentence describing the error.
    pub fn message(&self) -> (r: &'static str)
        ensures
            *self == RenderError::ZeroCellSize ==> r@ == "cell size must be at least one pixel"@,
            *self == RenderError::EmptyBoard ==> r@ == "cannot export an empty board"@,
    {
        match self {
            RenderError::ZeroCellSize => "cell size must be at least one pixel",
            RenderError::EmptyBoard => "cannot export an empty board",
        }
    }
}

/// The colour of the margin and of the space outside cells.
pub open spec fn background_pixel() -> (u8, u8, u8, u8) {
    (242, 242, 238, 255)
}

/// The colour of an unclaimed cell.
pub open spec fn unclaimed_pixel() -> (u8, u8, u8, u8) {
    (220, 220, 216, 255)
}

/// The colour of cell `i`: its owner's colour, or the unclaimed colour when it has no
/// owner or its owner has no colour.
pub open spec fn cell_pixel(claimed: Map<usize, usize>, colors: Seq<Color>, i: int) -> (
    u8,
    u8,
    u8,
    u8,
) {
    if claimed.contains_key(i as usize) && claimed[i as usize] < colors.len() {
        let c = colors[claimed[i as usize] as int];
        (c.r, c.g, c.b, 255)
    } else {
        unclaimed_pixel()
    }
}

/// The column and row, counted in cells, of the block of board point `p`; rows run
/// downwards, so larger `y` is higher up.
pub open spec fn block_of(p: (int, int), bounds: BoardBounds, options: ImageRenderOptions) -> (int, int) {
    (p.0 - bounds.min_x + options.padding_cells, bounds.max_y - p.1 + options.padding_cells)
}

/// Pixel `p` lies in the block at column and row `block` of `cell_px`-pixel blocks.
pub open spec fn in_block(p: (u32, u32), block: (int, int), cell_px: int) -> bool {
    &&& block.0 * cell_px <= p.0 < block.0 * cell_px + cell_px
    &&& block.1 * cell_px <= p.1 < block.1 * cell_px + cell_px
}

/// The image after drawing the blocks of the first `count` cells, in order, on the
/// background.
pub open spec fn drawn_pixels(
    cells: Seq<(int, int)>,
    claimed: Map<usize, usize>,
    colors: Seq<Color>,
    bounds: BoardBounds,
    options: ImageRenderOptions,
    count: nat,
) -> Map<(u32, u32), (u8, u8, u8, u8)>
    decreases count,
{
    let width = (image_columns(bounds, options) * options.cell_px) as u32;
    let height = (image_rows(bounds, options) * options.cell_px) as u32;
    if count == 0 {
        Map::new(
            |p: (u32, u32)| image_positions(width, height).contains(p),
            |p: (u32, u32)| background_pixel(),
        )
    } else {
        let i = count - 1;
        let before = drawn_pixels(cells, claimed, colors, bounds, options, (count - 1) as nat);
        Map::new(
            |p: (u32, u32)| image_positions(width, height).contains(p),
            |p: (u32, u32)|
                if in_block(p, block_of(cells[i], bounds, options), options.cell_px as int) {
                    cell_pixel(claimed, colors, i)
                } else {
                    before[p]
                },
        )
    }
}

/// An image of a board with these bounds can be made: its sizes fit in a `u32` and its
/// bytes in a `Vec`.
pub open spec fn image_fits(bounds: BoardBounds, options: ImageRenderOptions) -> bool {
    &&& dimensions_fit(bounds, options)
    &&& 4 * (image_columns(bounds, options) * options.cell_px) * (image_rows(bounds, options)
        * options.cell_px) <= isize::MAX
}

/// Whether an image of a board with these bounds can be made.
fn image_fits_bounds(bounds: BoardBounds, options: ImageRenderOptions) -> (r: bool)
    requires
        bounds.min_x <= bounds.max_x,
        bounds.min_y <= bounds.max_y,
    ensures
        r == image_fits(bounds, options),
{
    let dx: i64 = bounds.max_x as i64 - bounds.min_x as i64;
    let dy: i64 = bounds.max_y as i64 - bounds.min_y as i64;
    if dx >= i32::MAX as i64 || dy >= i32::MAX as i64 {
        return false;
    }
    let across: u64 = (dx + 1) as u64;
    let down: u64 = (dy + 1) as u64;
    assert(cells_between(bounds.min_x, bounds.max_x) == across);
    assert(cells_between(bounds.min_y, bounds.max_y) == down);
    let margin: u64 = 2 * options.padding_cells as u64;
    if margin > u32::MAX as u64 {
        return false;
    }
    let columns: u64 = across + margin;
    let rows: u64 = down + margin;
    if columns > u32::MAX as u64 || rows > u32::MAX as u64 {
        return false;
    }
    let cell_px: u64 = options.cell_px as u64;
    assert(columns * cell_px <= u64::MAX && rows * cell_px <= u64::MAX) by (nonlinear_arith)
        requires
            columns <= u32::MAX,
            rows <= u32::MAX,
            cell_px <= u32::MAX,
    ;
    let width: u64 = columns * cell_px;
    let height: u64 = rows * cell_px;
    if width > u32::MAX as u64 || height > u32::MAX as u64 {
        return false;
    }
    assert(4 * width * height <= u128::MAX) by (nonlinear_arith)
        requires
            width <= u32::MAX,
            height <= u32::MAX,
    ;
    let bytes: u128 = 4 * width as u128 * height as u128;
    bytes <= isize::MAX as u128
}

/// Whether `render_image` can draw `game` with these options: always when it refuses
/// them, and otherwise when the image of the board's bounding rectangle fits.
pub fn game_image_fits(game: &Game, options: ImageRenderOptions) -> (r: bool)
    ensures
        r == (options.cell_px > 0 && game.cells().len() > 0 ==> forall|b: BoardBounds|
            is_bounds_of(b, game.cells()) ==> image_fits(b, options)),
{
    if options.cell_px == 0 {
        return true;
    }
    let points = game.board().points();
    let bounds = match BoardBounds::from_points(points) {
        Some(b) => b,
        None => {
            return true;
        },
    };
    let ghost cells = game.cells();
    proof {
        assert forall|b: BoardBounds| is_bounds_of(b, cells) implies b == bounds by {
            lemma_bounds_unique(b, bounds, cells);
        }
    }
    image_fits_bounds(bounds, options)
}

/// A board has a single bounding rectangle.
pub proof fn lemma_bounds_unique(a: BoardBounds, b: BoardBounds, points: Seq<(int, int)>)
    requires
        is_bounds_of(a, points),
        is_bounds_of(b, points),
    ensures
        a == b,
{
    let i1 = choose|i: int| 0 <= i < points.len() && #[trigger] points[i].0 == a.min_x;
    let i2 = choose|i: int| 0 <= i < points.len() && #[trigger] points[i].0 == b.min_x;
    let i3 = choose|i: int| 0 <= i < points.len() && #[trigger] points[i].0 == a.max_x;
    let i4 = choose|i: int| 0 <= i < points.len() && #[trigger] points[i].0 == b.max_x;
    let i5 = choose|i: int| 0 <= i < points.len() && #[trigger] points[i].1 == a.min_y;
    let i6 = choose|i: int| 0 <= i < points.len() && #[trigger] points[i].1 == b.min_y;
    let i7 = choose|i: int| 0 <= i < points.len() && #[trigger] points[i].1 == a.max_y;
    let i8 = choose|i: int| 0 <= i < points.len() && #[trigger] points[i].1 == b.max_y;
    assert(a.min_x <= points[i2].0 && b.min_x <= points[i1].0);
    assert(a.max_x >= points[i4].0 && b.max_x >= points[i3].0);
    assert(a.min_y <= points[i6].1 && b.min_y <= points[i5].1);
    assert(a.max_y >= points[i8].1 && b.max_y >= points[i7].1);
}

/// Paints the block at column `cell_x` and row `cell_y` of `cell_px`-pixel blocks.
fn fill_cell(
    image: &mut PixelImage,
    cell_x: u32,
    cell_y: u32,
    cell_px: u32,
    color: (u8, u8, u8, u8),
)
    requires
        (cell_x + 1) * cell_px <= u32::MAX,
        (cell_y + 1) * cell_px <= u32::MAX,
        forall|p: (u32, u32)|
            in_block(p, (cell_x as int, cell_y as int), cell_px as int) ==> image_pixels(
                *old(image),
            ).contains_key(p),
    ensures
        image_size(*final(image)) == image_size(*old(image)),
        image_pixels(*final(image)) == Map::new(
            |p: (u32, u32)| image_pixels(*old(image)).contains_key(p),
            |p: (u32, u32)|
                if in_block(p, (cell_x as int, cell_y as int), cell_px as int) {
                    color
                } else {
                    image_pixels(*old(image))[p]
                },
        ),
{
    let ghost unpainted = image_pixels(*image);
    let ghost size = image_size(*image);
    let ghost block = (cell_x as int, cell_y as int);
    proof {
        assert(cell_x * cell_px + cell_px == (cell_x + 1) * cell_px) by (nonlinear_arith);
        assert(cell_y * cell_px + cell_px == (cell_y + 1) * cell_px) by (nonlinear_arith);
    }
    let start_x = cell_x * cell_px;
    let start_y = cell_y * cell_px;
    assert(block.0 * (cell_px as int) == start_x && block.1 * (cell_px as int) == start_y);
    let mut y = start_y;
    while y < start_y + cell_px
        invariant
            start_x == cell_x * cell_px,
            start_y == cell_y * cell_px,
            block.0 * (cell_px as int) == start_x,
            block.1 * (cell_px as int) == start_y,
            start_x + cell_px <= u32::MAX,
            start_y + cell_px <= u32::MAX,
            start_y <= y <= start_y + cell_px,
            forall|p: (u32, u32)| in_block(p, block, cell_px as int) ==> unpainted.contains_key(p),
            image_size(*image) == size,
            image_pixels(*image) == Map::new(
                |p: (u32, u32)| unpainted.contains_key(p),
                |p: (u32, u32)|
                    if in_block(p, block, cell_px as int) && p.1 < y {
                        color
                    } else {
                        unpainted[p]
                    },
            ),
        decreases start_y + cell_px - y,
    {
        let mut x = start_x;
        assert(image_pixels(*image) =~= Map::new(
            |p: (u32, u32)| unpainted.contains_key(p),
            |p: (u32, u32)|
                if in_block(p, block, cell_px as int) && (p.1 < y || (p.1 == y && p.0 < x)) {
                    color
                } else {
                    unpainted[p]
                },
        ));
        while x < start_x + cell_px
            invariant
                start_x == cell_x * cell_px,
                start_y == cell_y * cell_px,
                block.0 * (cell_px as int) == start_x,
                block.1 * (cell_px as int) == start_y,
                start_x + cell_px <= u32::MAX,
                start_y + cell_px <= u32::MAX,
                start_y <= y < start_y + cell_px,
                start_x <= x <= start_x + cell_px,
                forall|p: (u32, u32)| in_block(p, block, cell_px as int) ==> unpainted.contains_key(p),
                image_size(*image) == size,
                image_pixels(*image) == Map::new(
                    |p: (u32, u32)| unpainted.contains_key(p),
                    |p: (u32, u32)|
                        if in_block(p, block, cell_px as int) && (p.1 < y || (p.1 == y && p.0 < x)) {
                            color
                        } else {
                            unpainted[p]
                        },
                ),
            decreases start_x + cell_px - x,
        {
            assert(block.0 * (cell_px as int) == start_x && block.1 * (cell_px as int) == start_y);
            assert(in_block((x, y), block, cell_px as int));
            image_put_pixel(image, x, y, color);
            assert(image_pixels(*image) =~= Map::new(
                |p: (u32, u32)| unpainted.contains_key(p),
                |p: (u32, u32)|
                    if in_block(p, block, cell_px as int) && (p.1 < y || (p.1 == y && p.0 < x + 1)) {
                        color
                    } else {
                        unpainted[p]
                    },
            ));
            x += 1;
        }
        assert(image_pixels(*image) =~= Map::new(
            |p: (u32, u32)| unpainted.contains_key(p),
            |p: (u32, u32)|
                if in_block(p, block, cell_px as int) && p.1 < y + 1 {
                    color
                } else {
                    unpainted[p]
                },
        ));
        y += 1;
    }
    assert(image_pixels(*image) =~= Map::new(
        |p: (u32, u32)| unpainted.contains_key(p),
        |p: (u32, u32)|
            if in_block(p, block, cell_px as int) {
                color
            } else {
                unpainted[p]
            },
    ));
}

/// A block that ends within `limit` blocks of `cell_px` pixels ends within
/// `limit * cell_px` pixels.
proof fn lemma_block_end(index: int, limit: int, cell_px: int)
    requires
        0 <= index < limit,
        0 <= cell_px,
    ensures
        index * cell_px + cell_px == (index + 1) * cell_px,
        (index + 1) * cell_px <= limit * cell_px,
{
    assert(index * cell_px + cell_px == (index + 1) * cell_px) by (nonlinear_arith);
    assert((index + 1) * cell_px <= limit * cell_px) by (nonlinear_arith)
        requires
            index + 1 <= limit,
            0 <= cell_px,
    ;
}

/// The image of a game: each board cell, in spiral order, drawn as a square block of
/// `cell_px` pixels in its owner's colour, with `padding_cells` cells of background
/// around the board; the top row of the image holds the highest cells.
pub fn render_image(game: &Game, options: ImageRenderOptions) -> (r: Result<RenderedImage, RenderError>)
    requires
        options.cell_px > 0 && game.cells().len() > 0 ==> forall|b: BoardBounds|
            is_bounds_of(b, game.cells()) ==> image_fits(b, options),
    ensures
        options.cell_px == 0 ==> (r matches Err(e) && e == RenderError::ZeroCellSize),
        options.cell_px > 0 && game.cells().len() == 0 ==> (r matches Err(e) && e
            == RenderError::EmptyBoard),
        options.cell_px > 0 && game.cells().len() > 0 ==> (r matches Ok(img) && forall|
            b: BoardBounds,
        |
            is_bounds_of(b, game.cells()) ==> {
                &&& img.width == image_columns(b, options) * options.cell_px
                &&& img.height == image_rows(b, options) * options.cell_px
                &&& rgba_layout(
                    img.rgba@,
                    img.width,
                    img.height,
                    drawn_pixels(
                        game.cells(),
                        game.claimed(),
                        game.player_colors(),
                        b,
                        options,
                        game.cells().len(),
                    ),
                )
            }),
{
    if options.cell_px == 0 {
        return Err(RenderError::ZeroCellSize);
    }
    let points = game.board().points();
    let ghost cells = game.cells();
    let ghost claimed = game.claimed();
    let ghost palette = game.player_colors();
    let bounds = match BoardBounds::from_points(points) {
        Some(b) => b,
        None => {
            return Err(RenderError::EmptyBoard);
        },
    };
    assert(image_fits(bounds, options));
    let (width, height) = image_dimensions(bounds, options);
    let mut image = image_from_pixel(width, height, (242, 242, 238, 255));
    let coloring = game.coloring();
    let colors = game.colors();
    let cell_px = options.cell_px;
    let padding = options.padding_cells;
    assert(image_pixels(image) =~= drawn_pixels(cells, claimed, palette, bounds, options, 0));
    let mut index: usize = 0;
    while index < points.len()
        invariant
            coords_view(points@) == cells,
            coloring@ == claimed,
            colors@ == palette,
            is_bounds_of(bounds, cells),
            image_fits(bounds, options),
            cell_px == options.cell_px,
            padding == options.padding_cells,
            cell_px > 0,
            width == image_columns(bounds, options) * options.cell_px,
            height == image_rows(bounds, options) * options.cell_px,
            index <= points@.len(),
            image_size(image) == (width, height),
            image_pixels(image) == drawn_pixels(cells, claimed, palette, bounds, options, index as nat),
        decreases points@.len() - index,
    {
        let color = match coloring.get(&index) {
            Some(color_index) => {
                let owner = *color_index;
                if owner < colors.len() {
                    let c = colors[owner];
                    (c.r, c.g, c.b, 255u8)
                } else {
                    (220u8, 220u8, 216u8, 255u8)
                }
            },
            None => (220u8, 220u8, 216u8, 255u8),
        };
        assert(color == cell_pixel(claimed, palette, index as int));
        let coord = points[index];
        assert(cells[index as int] == coord@);
        assert(bounds.min_x <= coord.x <= bounds.max_x && bounds.min_y <= coord.y <= bounds.max_y);
        let x = (coord.x - bounds.min_x) as u32 + padding;
        let y = (bounds.max_y - coord.y) as u32 + padding;
        let ghost block = (x as int, y as int);
        assert(block == block_of(cells[index as int], bounds, options));
        proof {
            lemma_block_end(x as int, image_columns(bounds, options), cell_px as int);
            lemma_block_end(y as int, image_rows(bounds, options), cell_px as int);
        }
        let ghost before = image_pixels(image);
        fill_cell(&mut image, x, y, cell_px, color);
        assert(image_pixels(image) =~= drawn_pixels(
            cells,
            claimed,
            palette,
            bounds,
            options,
            (index + 1) as nat,
        ));
        index += 1;
    }
    assert(image_pixels(image).dom() =~= image_positions(width, height));
    let rgba = image_into_raw(image);
    proof {
        assert forall|b: BoardBounds| is_bounds_of(b, cells) implies b == bounds by {
            lemma_bounds_unique(b, bounds, cells);
        }
    }
    Ok(RenderedImage { width, height, rgba })
}

/// Blocks at different columns or rows share no pixel.
proof fn lemma_blocks_disjoint(p: (u32, u32), a: (int, int), b: (int, int), cell_px: int)
    requires
        cell_px > 0,
        in_block(p, a, cell_px),
        in_block(p, b, cell_px),
    ensures
        a == b,
{
    if a.0 < b.0 {
        assert(a.0 * cell_px + cell_px <= b.0 * cell_px) by (nonlinear_arith)
            requires
                a.0 < b.0,
                cell_px > 0,
        ;
    }
    if b.0 < a.0 {
        assert(b.0 * cell_px + cell_px <= a.0 * cell_px) by (nonlinear_arith)
            requires
                b.0 < a.0,
                cell_px > 0,
        ;
    }
    if a.1 < b.1 {
        assert(a.1 * cell_px + cell_px <= b.1 * cell_px) by (nonlinear_arith)
            requires
                a.1 < b.1,
                cell_px > 0,
        ;
    }
    if b.1 < a.1 {
        assert(b.1 * cell_px + cell_px <= a.1 * cell_px) by (nonlinear_arith)
            requires
                b.1 < a.1,
                cell_px > 0,
        ;
    }
}

/// On a board of distinct cells, every pixel of a drawn cell's block shows that cell's
/// colour: later cells never paint over earlier ones.
pub proof fn lemma_block_shows_cell_color(
    cells: Seq<(int, int)>,
    claimed: Map<usize, usize>,
    colors: Seq<Color>,
    bounds: BoardBounds,
    options: ImageRenderOptions,
    count: nat,
    i: int,
    p: (u32, u32),
)
    requires
        forall|a: int, b: int| 0 <= a < b < cells.len() ==> cells[a] != cells[b],
        options.cell_px > 0,
        0 <= i < count <= cells.len(),
        drawn_pixels(cells, claimed, colors, bounds, options, count).contains_key(p),
        in_block(p, block_of(cells[i], bounds, options), options.cell_px as int),
    ensures
        drawn_pixels(cells, claimed, colors, bounds, options, count)[p] == cell_pixel(
            claimed,
            colors,
            i,
        ),
    decreases count,
{
    let last = count - 1;
    if last != i {
        if in_block(p, block_of(cells[last], bounds, options), options.cell_px as int) {
            lemma_blocks_disjoint(
                p,
                block_of(cells[i], bounds, options),
                block_of(cells[last], bounds, options),
                options.cell_px as int,
            );
            assert(cells[i] != cells[last]);
        }
        lemma_block_shows_cell_color(
            cells,
            claimed,
            colors,
            bounds,
            options,
            (count - 1) as nat,
            i,
            p,
        );
    }
}

/// In a drawn board, every pixel of a claimed cell's square carries the red, green and
/// blue channels of its owner's colour, fully opaque, and every pixel of an unclaimed
/// cell's square is the unclaimed grey `(220, 220, 216, 255)`. Squares are `cell_px`
/// pixels wide, laid out from the left for increasing `x` and from the top for
/// decreasing `y`, after `padding_cells` squares of margin.
pub proof fn lemma_cell_block_shows_owner_channels(
    cells: Seq<(int, int)>,
    claimed: Map<usize, usize>,
    colors: Seq<Color>,
    bounds: BoardBounds,
    options: ImageRenderOptions,
    i: int,
    p: (u32, u32),
)
    requires
        forall|a: int, b: int| 0 <= a < b < cells.len() ==> cells[a] != cells[b],
        options.cell_px > 0,
        0 <= i < cells.len(),
        drawn_pixels(cells, claimed, colors, bounds, options, cells.len()).contains_key(p),
        ({
            let left = (cells[i].0 - bounds.min_x + options.padding_cells) * options.cell_px;
            let top = (bounds.max_y - cells[i].1 + options.padding_cells) * options.cell_px;
            left <= p.0 < left + options.cell_px && top <= p.1 < top + options.cell_px
        }),
    ensures
        claimed.contains_key(i as usize) && claimed[i as usize] < colors.len() ==> drawn_pixels(
            cells,
            claimed,
            colors,
            bounds,
            options,
            cells.len(),
        )[p] == (
            colors[claimed[i as usize] as int].r,
            colors[claimed[i as usize] as int].g,
            colors[claimed[i as usize] as int].b,
            255u8,
        ),
        !claimed.contains_key(i as usize) ==> drawn_pixels(
            cells,
            claimed,
            colors,
            bounds,
            options,
            cells.len(),
        )[p] == (220u8, 220u8, 216u8, 255u8),
{
    assert(in_block(p, block_of(cells[i], bounds, options), options.cell_px as int));
    lemma_block_shows_cell_color(cells, claimed, colors, bounds, options, cells.len(), i, p);
}

/// In a drawn board, a pixel in no cell's square, the margin among them, is the
/// background `(242, 242, 238, 255)`.
pub proof fn lemma_margin_shows_background(
    cells: Seq<(int, int)>,
    claimed: Map<usize, usize>,
    colors: Seq<Color>,
    bounds: BoardBounds,
    options: ImageRenderOptions,
    p: (u32, u32),
)
    requires
        drawn_pixels(cells, claimed, colors, bounds, options, cells.len()).contains_key(p),
        forall|i: int|
            #![trigger cells[i]]
            0 <= i < cells.len() ==> {
                let left = (cells[i].0 - bounds.min_x + options.padding_cells) * options.cell_px;
                let top = (bounds.max_y - cells[i].1 + options.padding_cells) * options.cell_px;
                !(left <= p.0 < left + options.cell_px && top <= p.1 < top + options.cell_px)
            },
    ensures
        drawn_pixels(cells, claimed, colors, bounds, options, cells.len())[p] == (
            242u8,
            242u8,
            238u8,
            255u8,
        ),
{
    assert forall|i: int| 0 <= i < cells.len() implies !in_block(
        p,
        block_of(#[trigger] cells[i], bounds, options),
        options.cell_px as int,
    ) by {
    }
    lemma_pixel_outside_blocks_is_background(
        cells,
        claimed,
        colors,
        bounds,
        options,
        cells.len(),
        p,
    );
}

/// A pixel outside the blocks of the drawn cells shows the background.
pub proof fn lemma_pixel_outside_blocks_is_background(
    cells: Seq<(int, int)>,
    claimed: Map<usize, usize>,
    colors: Seq<Color>,
    bounds: BoardBounds,
    options: ImageRenderOptions,
    count: nat,
    p: (u32, u32),
)
    requires
        count <= cells.len(),
        drawn_pixels(cells, claimed, colors, bounds, options, count).contains_key(p),
        forall|i: int|
            0 <= i < count ==> !in_block(
                p,
                block_of(#[trigger] cells[i], bounds, options),
                options.cell_px as int,
            ),
    ensures
        drawn_pixels(cells, claimed, colors, bounds, options, count)[p] == background_pixel(),
    decreases count,
{
    if count > 0 {
        assert(!in_block(p, block_of(cells[count - 1], bounds, options), options.cell_px as int));
        lemma_pixel_outside_blocks_is_background(
            cells,
            claimed,
            colors,
            bounds,
            options,
            (count - 1) as nat,
            p,
        );
    }
}

} // verus!
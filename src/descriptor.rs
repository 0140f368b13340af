//! Piece descriptors: the immutable outcome of cutting a source image into a
//! grid of interlocking pieces.
use vstd::prelude::*;
use jigsaw_puzzle_generator::{GameMode, JigsawGenerator, JigsawTemplate};

verus! {

/// The most pieces along one axis. The generator rounds piece sizes to
/// hundredths of a pixel; with at least one pixel per piece and at most this
/// many pieces, the rounding error stays under half a pixel, so no piece
/// starts past the image edge.
pub const MAX_PIECES_PER_AXIS: usize = 100;

/// The widest and tallest image cut, in pixels, so that single-precision
/// piece positions stay exact enough for the bound above.
pub const MAX_IMAGE_SIDE: u32 = 0x1_0000;

#[verifier::external_type_specification]
#[verifier::external_body]
pub struct ExJigsawTemplate(JigsawTemplate);

/// Crop rectangle of one generated piece, in source-image pixels.
#[derive(Clone, Copy, Debug, PartialEq, Eq, Structural)]
pub struct PieceGeometry {
    pub index: usize,
    pub top_left_x: u32,
    pub top_left_y: u32,
    pub crop_width: u32,
    pub crop_height: u32,
}

/// What the generator hands back: the template (kept for cropping) and the
/// geometry of each piece as plain values.
pub struct GeneratedPieces {
    pub template: JigsawTemplate,
    pub geometry: Vec<PieceGeometry>,
    pub columns: usize,
    pub rows: usize,
    pub image_width: u32,
    pub image_height: u32,
}

/// Relies on `JigsawGenerator::from_rgba8`, which succeeds when the buffer
/// holds at least `4 * width * height` bytes, followed by `seed(0)` (the
/// default tab size and jitter, and the seed that `from_path` uses), and on
/// `JigsawGenerator::generate(Classic, false)`. That call keeps the image as
/// it is, pushes `columns * rows` pieces row by row, piece `i` with
/// `index == i`, and reports `number_of_pieces == (columns, rows)`. Its one
/// error, an outline without a bounding box, cannot arise for the closed
/// four-edge outline of a piece. The bounds in `requires` keep every piece
/// starting inside the image, where its crop is clipped without underflow.
/// The image size is read back with `DynamicImage::width` and `height`.
#[verifier::external_body]
fn generate_pieces(width: u32, height: u32, pixels: &Vec<u8>, columns: usize, rows: usize) -> (g: GeneratedPieces)
    requires
        pixels@.len() == 4 * (width * height),
        width <= MAX_IMAGE_SIDE,
        height <= MAX_IMAGE_SIDE,
        1 <= columns <= MAX_PIECES_PER_AXIS,
        1 <= rows <= MAX_PIECES_PER_AXIS,
        columns <= width,
        rows <= height,
    ensures
        g.columns == columns,
        g.rows == rows,
        g.image_width == width,
        g.image_height == height,
        g.geometry@.len() == columns * rows,
        forall|i: int| 0 <= i < g.geometry@.len() ==> (#[trigger] g.geometry@[i]).index == i,
{
    let generator = JigsawGenerator::from_rgba8(width, height, pixels, columns, rows)
        .expect("buffer holds the image").seed(0);
    let t = generator.generate(GameMode::Classic, false).expect("outline is bounded");
    let geometry = t.pieces.iter().map(|p| PieceGeometry {
        index: p.index, top_left_x: p.top_left_x, top_left_y: p.top_left_y,
        crop_width: p.crop_width, crop_height: p.crop_height,
    }).collect();
    let (columns, rows) = t.number_of_pieces;
    let (image_width, image_height) = (t.origin_image.width(), t.origin_image.height());
    GeneratedPieces { template: t, geometry, columns, rows, image_width, image_height }
}

/// Immutable description of one piece: its place in the grid, its crop
/// rectangle in the source image, and its anchor in world space (the crop's
/// top-left corner relative to the image centre, with y pointing up).
#[derive(Clone, Copy, Debug, PartialEq, Eq, Structural)]
pub struct PieceDescriptor {
    pub index: usize,
    pub column: usize,
    pub row: usize,
    pub top_left_x: u32,
    pub top_left_y: u32,
    pub crop_width: u32,
    pub crop_height: u32,
    pub anchor_x: i64,
    pub anchor_y: i64,
}

#[derive(Clone, Copy, Debug, PartialEq, Eq, Structural)]
pub enum DecompositionError {
    /// The source image could not be read.
    ImageUnreadable,
    /// The grid holds fewer than two pieces.
    TooFewPieces,
    /// More pieces along an axis than the image has pixels there or than
    /// the generator cuts, or an image larger than it takes.
    GridTooFine,
}

/// World-space anchor of a crop rectangle's top-left corner for an image of
/// `width` x `height` pixels centred on the origin.
pub open spec fn anchor_of(top_left_x: u32, top_left_y: u32, width: u32, height: u32) -> (i64, i64) {
    ((top_left_x as int - (width / 2) as int) as i64, ((height / 2) as int - top_left_y as int) as i64)
}

/// The descriptor that a generated piece becomes in a grid of `columns` columns.
pub open spec fn descriptor_of(g: PieceGeometry, columns: usize, width: u32, height: u32) -> PieceDescriptor {
    PieceDescriptor {
        index: g.index,
        column: (g.index % columns) as usize,
        row: (g.index / columns) as usize,
        top_left_x: g.top_left_x,
        top_left_y: g.top_left_y,
        crop_width: g.crop_width,
        crop_height: g.crop_height,
        anchor_x: anchor_of(g.top_left_x, g.top_left_y, width, height).0,
        anchor_y: anchor_of(g.top_left_x, g.top_left_y, width, height).1,
    }
}

/// Two grid cells are adjacent when they differ by one step along one axis.
pub open spec fn cells_adjacent(ca: int, ra: int, cb: int, rb: int) -> bool {
    (if ca >= cb { ca - cb } else { cb - ca }) + (if ra >= rb { ra - rb } else { rb - ra }) == 1
}

pub open spec fn grid_adjacent(a: PieceDescriptor, b: PieceDescriptor) -> bool {
    cells_adjacent(a.column as int, a.row as int, b.column as int, b.row as int)
}

/// Whether the crop rectangle lies inside an image of `width` x `height`.
pub open spec fn crop_in_bounds(d: PieceDescriptor, width: u32, height: u32) -> bool {
    d.top_left_x + d.crop_width <= width && d.top_left_y + d.crop_height <= height
}

/// Grid adjacency of two descriptors.
pub fn is_grid_adjacent(a: &PieceDescriptor, b: &PieceDescriptor) -> (r: bool)
    ensures
        r == grid_adjacent(*a, *b),
{
    let dc: usize = if a.column >= b.column { a.column - b.column } else { b.column - a.column };
    let dr: usize = if a.row >= b.row { a.row - b.row } else { b.row - a.row };
    (dc == 1 && dr == 0) || (dc == 0 && dr == 1)
}

/// The descriptors of one puzzle, with the generator's template kept for
/// cropping the pieces' images.
pub struct PieceStore {
    pub template: JigsawTemplate,
    pub descriptors: Vec<PieceDescriptor>,
    pub columns: usize,
    pub rows: usize,
    pub image_width: u32,
    pub image_height: u32,
}

impl PieceStore {
    /// Well-formed: a grid of at least two pieces, one descriptor per cell,
    /// stored row by row with `index == i`, each anchored at its crop's
    /// top-left corner relative to the image centre.
    pub open spec fn wf(&self) -> bool {
        &&& self.columns >= 1
        &&& self.rows >= 1
        &&& self.columns * self.rows >= 2
        &&& self.descriptors@.len() == self.columns * self.rows
        &&& forall|i: int| 0 <= i < self.descriptors@.len() ==> {
            &&& (#[trigger] self.descriptors@[i]).index == i
            &&& self.descriptors@[i].column == i % (self.columns as int)
            &&& self.descriptors@[i].row == i / (self.columns as int)
            &&& (self.descriptors@[i].anchor_x, self.descriptors@[i].anchor_y) == anchor_of(
                self.descriptors@[i].top_left_x,
                self.descriptors@[i].top_left_y,
                self.image_width,
                self.image_height,
            )
        }
    }

    /// Builds the store from what the generator returned.
    pub fn from_generated(g: GeneratedPieces) -> (r: Result<PieceStore, DecompositionError>)
        requires
            g.geometry@.len() == g.columns * g.rows,
            forall|i: int| 0 <= i < g.geometry@.len() ==> (#[trigger] g.geometry@[i]).index == i,
        ensures
            r is Err <==> g.columns * g.rows < 2,
            r matches Err(e) ==> e == DecompositionError::TooFewPieces,
            r matches Ok(s) ==> {
                &&& s.wf()
                &&& s.columns == g.columns
                &&& s.rows == g.rows
                &&& s.image_width == g.image_width
                &&& s.image_height == g.image_height
                &&& forall|i: int| 0 <= i < s.descriptors@.len() ==> (#[trigger] s.descriptors@[i])
                    == descriptor_of(g.geometry@[i], g.columns, g.image_width, g.image_height)
            },
    {
        let n = g.geometry.len();
        if n < 2 {
            return Err(DecompositionError::TooFewPieces);
        }
        proof {
            if g.columns == 0 || g.rows == 0 {
                assert(g.columns * g.rows == 0) by (nonlinear_arith)
                    requires g.columns == 0 || g.rows == 0;
            }
        }
        let columns = g.columns;
        let half_w: i64 = (g.image_width / 2) as i64;
        let half_h: i64 = (g.image_height / 2) as i64;
        let mut descriptors: Vec<PieceDescriptor> = Vec::new();
        let mut i: usize = 0;
        while i < n
            invariant
                n == g.geometry@.len(),
                columns == g.columns,
                columns >= 1,
                half_w == g.image_width / 2,
                half_h == g.image_height / 2,
                i <= n,
                descriptors@.len() == i,
                forall|i: int| 0 <= i < g.geometry@.len() ==> (#[trigger] g.geometry@[i]).index == i,
                forall|k: int| 0 <= k < i ==> (#[trigger] descriptors@[k])
                    == descriptor_of(g.geometry@[k], g.columns, g.image_width, g.image_height),
            decreases n - i,
        {
            let p = g.geometry[i];
            descriptors.push(PieceDescriptor {
                index: p.index,
                column: p.index % columns,
                row: p.index / columns,
                top_left_x: p.top_left_x,
                top_left_y: p.top_left_y,
                crop_width: p.crop_width,
                crop_height: p.crop_height,
                anchor_x: p.top_left_x as i64 - half_w,
                anchor_y: half_h - p.top_left_y as i64,
            });
            i = i + 1;
        }
        Ok(PieceStore {
            template: g.template,
            descriptors,
            columns: g.columns,
            rows: g.rows,
            image_width: g.image_width,
            image_height: g.image_height,
        })
    }

    /// Whether piece `i`'s crop rectangle lies inside the source image.
    pub fn crop_fits(&self, i: usize) -> (r: bool)
        requires
            i < self.descriptors@.len(),
        ensures
            r == crop_in_bounds(self.descriptors@[i as int], self.image_width, self.image_height),
    {
        let d = &self.descriptors[i];
        (d.top_left_x as u64) + (d.crop_width as u64) <= self.image_width as u64
            && (d.top_left_y as u64) + (d.crop_height as u64) <= self.image_height as u64
    }
}

/// A decomposed grid holds exactly `columns * rows` descriptors, their
/// indices are `0..n` with none repeated, and the cell at column `c` and row
/// `r` is described by descriptor `r * columns + c`.
pub proof fn lemma_decomposition_covers_grid(s: &PieceStore, c: int, r: int)
    requires
        s.wf(),
        0 <= c < s.columns,
        0 <= r < s.rows,
    ensures
        s.descriptors@.len() == s.columns * s.rows,
        forall|i: int| 0 <= i < s.descriptors@.len() ==> (#[trigger] s.descriptors@[i]).index == i,
        forall|i: int, j: int|
            0 <= i < s.descriptors@.len() && 0 <= j < s.descriptors@.len() && i != j
                ==> #[trigger] s.descriptors@[i].index != #[trigger] s.descriptors@[j].index,
        0 <= r * s.columns + c < s.descriptors@.len(),
        s.descriptors@[r * s.columns + c].column == c,
        s.descriptors@[r * s.columns + c].row == r,
{
    let cols = s.columns as int;
    let rows = s.rows as int;
    let k = r * cols + c;
    assert(0 <= k < cols * rows) by (nonlinear_arith)
        requires 0 <= c < cols, 0 <= r < rows, k == r * cols + c;
    vstd::arithmetic::div_mod::lemma_fundamental_div_mod_converse(k, cols, r, c);
}

/// The puzzle's source: an RGBA image, four bytes per pixel row by row, and
/// the grid to cut it into.
pub struct JigsawPuzzleGenerator {
    pub width: u32,
    pub height: u32,
    pub pixels: Vec<u8>,
    pub columns: usize,
    pub rows: usize,
}

/// Why a source cannot be cut, if it cannot.
pub open spec fn decomposition_error(width: u32, height: u32, pixel_len: nat, columns: usize, rows: usize) -> Option<
    DecompositionError,
> {
    if pixel_len != 4 * (width * height) {
        Some(DecompositionError::ImageUnreadable)
    } else if columns * rows < 2 {
        Some(DecompositionError::TooFewPieces)
    } else if width > MAX_IMAGE_SIDE || height > MAX_IMAGE_SIDE || columns > MAX_PIECES_PER_AXIS
        || rows > MAX_PIECES_PER_AXIS || columns > width || rows > height {
        Some(DecompositionError::GridTooFine)
    } else {
        None
    }
}

impl JigsawPuzzleGenerator {
    /// Cuts the image into `columns * rows` pieces, each anchored at its
    /// crop's top-left corner relative to the image centre.
    pub fn decompose(&self) -> (r: Result<PieceStore, DecompositionError>)
        ensures
            match decomposition_error(self.width, self.height, self.pixels@.len(), self.columns, self.rows) {
                Some(e) => r == Err::<PieceStore, DecompositionError>(e),
                None => r matches Ok(s) && {
                    &&& s.wf()
                    &&& s.columns == self.columns
                    &&& s.rows == self.rows
                    &&& s.image_width == self.width
                    &&& s.image_height == self.height
                },
            },
    {
        proof {
            assert(self.width * self.height <= 0xFFFF_FFFF * 0xFFFF_FFFF) by (nonlinear_arith)
                requires self.width <= 0xFFFF_FFFF, self.height <= 0xFFFF_FFFF, self.width >= 0, self.height >= 0;
        }
        let area: u128 = (self.width as u128) * (self.height as u128);
        if self.pixels.len() as u128 != 4 * area {
            return Err(DecompositionError::ImageUnreadable);
        }
        if self.columns == 0 || self.rows == 0 || (self.columns == 1 && self.rows == 1) {
            proof {
                assert(self.columns * self.rows < 2) by (nonlinear_arith)
                    requires self.columns == 0 || self.rows == 0 || (self.columns == 1 && self.rows == 1);
            }
            return Err(DecompositionError::TooFewPieces);
        }
        proof {
            assert(self.columns * self.rows >= 2) by (nonlinear_arith)
                requires self.columns >= 1, self.rows >= 1, !(self.columns == 1 && self.rows == 1);
        }
        if self.width > MAX_IMAGE_SIDE || self.height > MAX_IMAGE_SIDE || self.columns > MAX_PIECES_PER_AXIS
            || self.rows > MAX_PIECES_PER_AXIS || self.columns > self.width as usize || self.rows
            > self.height as usize {
            return Err(DecompositionError::GridTooFine);
        }
        let g = generate_pieces(self.width, self.height, &self.pixels, self.columns, self.rows);
        PieceStore::from_generated(g)
    }
}

} // verus!

//! Grid with up to 64 tiles holding a single bit of information.

use crate::bits::{
    bit_at, get_bit, lemma_bits_determine_word, lemma_max_bits, lemma_with_bit, lemma_zero_bits,
    set_bit, with_bit,
};
use crate::text::{chars_of, string_of};
use vstd::arithmetic::div_mod::lemma_fundamental_div_mod_converse;
use vstd::prelude::*;

verus! {

/// A grid with up to 64 tiles holding a single bit of information.
///
/// Tile `(x, y)` is bit `width * y + x` of the underlying word. Two grids are
/// equal when their dimensions and their whole words are equal, so bits that
/// lie beyond the last tile take part in the comparison.
#[derive(Debug, Clone, Copy, Hash, PartialEq, Eq, PartialOrd, Ord, Structural)]
pub struct SmallBitGrid {
    width: u8,
    height: u8,
    grid: u64,
}

/// Where the tile for a given target coordinate is read from when a grid is
/// rebuilt tile by tile.
#[derive(Clone, Copy)]
pub enum Remap {
    /// Quarter turn clockwise.
    Rotate,
    /// Mirror image, left to right.
    MirrorColumns,
    /// Mirror image, top to bottom.
    MirrorRows,
    /// The window whose top left tile is `(left, top)` of the source.
    Window { left: u8, top: u8 },
}

/// Greatest number of tiles in a grid.
pub const MAX_TILES: u32 = 64;

/// `x < w` and `y < h` put the tile index below `w * h`.
pub proof fn lemma_tile_index_bound(w: int, h: int, x: int, y: int)
    requires
        0 <= x < w,
        0 <= y < h,
    ensures
        0 <= w * y + x < w * h,
{
    assert(w * y + x < w * h) by (nonlinear_arith)
        requires
            0 <= x < w,
            0 <= y < h,
    ;
    assert(0 <= w * y) by (nonlinear_arith)
        requires
            0 <= w,
            0 <= y,
    ;
}

/// A tile index determines its column and its row.
pub proof fn lemma_tile_index_split(w: int, x: int, y: int)
    requires
        0 <= x < w,
        0 <= y,
    ensures
        (w * y + x) % w == x,
        (w * y + x) / w == y,
{
    assert(w * y == y * w) by (nonlinear_arith);
    lemma_fundamental_div_mod_converse(w * y + x, w, y, x);
}

impl SmallBitGrid {
    /// Number of columns.
    pub closed spec fn spec_width(&self) -> u8 {
        self.width
    }

    /// Number of rows.
    pub closed spec fn spec_height(&self) -> u8 {
        self.height
    }

    /// The underlying word.
    pub closed spec fn bits(&self) -> u64 {
        self.grid
    }

    /// The dimensions fit the word.
    pub open spec fn wf(&self) -> bool {
        self.width() * self.height() <= 64
    }

    /// Whether `(x, y)` names a tile of the grid.
    pub open spec fn in_range(&self, x: int, y: int) -> bool {
        0 <= x < self.width() && 0 <= y < self.height()
    }

    /// Content of tile `(x, y)`.
    pub open spec fn cell(&self, x: int, y: int) -> bool {
        bit_at(self.bits(), self.width() * y + x)
    }

    /// No bit beyond the last tile is set.
    pub open spec fn is_trimmed(&self) -> bool {
        forall|i: int| self.width() * self.height() <= i ==> !bit_at(self.bits(), i)
    }

    /// A grid is its dimensions and its word.
    pub proof fn lemma_equal_by_parts(a: SmallBitGrid, b: SmallBitGrid)
        requires
            a.width() == b.width(),
            a.height() == b.height(),
            a.bits() == b.bits(),
        ensures
            a == b,
    {
    }

    /// Trimmed grids of the same dimensions with the same tiles are equal.
    pub proof fn lemma_equal_by_cells(a: SmallBitGrid, b: SmallBitGrid)
        requires
            a.wf(),
            b.wf(),
            a.width() == b.width(),
            a.height() == b.height(),
            a.is_trimmed(),
            b.is_trimmed(),
            forall|x: int, y: int| a.in_range(x, y) ==> a.cell(x, y) == b.cell(x, y),
        ensures
            a == b,
    {
        let w = a.width() as int;
        let h = a.height() as int;
        assert forall|j: int| 0 <= j < 64 implies bit_at(a.bits(), j) == bit_at(b.bits(), j) by {
            if j < w * h {
                assert(w > 0) by (nonlinear_arith)
                    requires
                        0 <= j < w * h,
                        0 <= w,
                ;
                let x = j % w;
                let y = j / w;
                assert(j == w * y + x && 0 <= x < w && 0 <= y) by (nonlinear_arith)
                    requires
                        x == j % w,
                        y == j / w,
                        0 <= j,
                        w > 0,
                ;
                assert(y < h) by (nonlinear_arith)
                    requires
                        j == w * y + x,
                        j < w * h,
                        0 <= x,
                        w > 0,
                ;
                assert(a.in_range(x, y));
                assert(a.cell(x, y) == b.cell(x, y));
            }
        }
        lemma_bits_determine_word(a.bits(), b.bits());
    }

    /// Number of columns.
    #[verifier::when_used_as_spec(spec_width)]
    pub fn width(&self) -> (w: u8)
        ensures
            w == self.width(),
    {
        self.width
    }

    /// Number of rows.
    #[verifier::when_used_as_spec(spec_height)]
    pub fn height(&self) -> (h: u8)
        ensures
            h == self.height(),
    {
        self.height
    }

    /// The grid with the tile at `(x, y)` replaced by `value`.
    pub closed spec fn with_tile(&self, x: int, y: int, value: bool) -> Self {
        SmallBitGrid {
            width: self.width,
            height: self.height,
            grid: with_bit(self.grid, self.width * y + x, value),
        }
    }

    /// Replacing a tile changes that tile and nothing else.
    pub proof fn lemma_with_tile(&self, x: int, y: int, value: bool)
        requires
            self.wf(),
            self.in_range(x, y),
        ensures
            self.with_tile(x, y, value).wf(),
            self.with_tile(x, y, value).width() == self.width(),
            self.with_tile(x, y, value).height() == self.height(),
            self.with_tile(x, y, value).cell(x, y) == value,
            forall|x2: int, y2: int|
                self.in_range(x2, y2) && (x2 != x || y2 != y) ==> #[trigger] self.with_tile(
                    x,
                    y,
                    value,
                ).cell(x2, y2) == self.cell(x2, y2),
            self.is_trimmed() ==> self.with_tile(x, y, value).is_trimmed(),
    {
        let r = self.with_tile(x, y, value);
        let w = self.width as int;
        lemma_tile_index_bound(w, self.height as int, x, y);
        assert forall|i: int| bit_at(r.bits(), i) == (if i == w * y + x {
            value
        } else {
            bit_at(self.bits(), i)
        }) by {
            lemma_with_bit(self.grid, w * y + x, value, i);
        }
        assert forall|x2: int, y2: int|
            self.in_range(x2, y2) && (x2 != x || y2 != y) implies #[trigger] r.cell(x2, y2)
            == self.cell(x2, y2) by {
            lemma_tile_index_split(w, x2, y2);
            lemma_tile_index_split(w, x, y);
        }
    }

    /// The underlying word.
    pub fn word(&self) -> (w: u64)
        ensures
            w == self.bits(),
    {
        self.grid
    }

    /// Reads the tile at `(x, y)`.
    pub fn get(&self, x: u8, y: u8) -> (value: bool)
        requires
            self.wf(),
            self.in_range(x as int, y as int),
        ensures
            value == self.cell(x as int, y as int),
    {
        proof {
            lemma_tile_index_bound(self.width as int, self.height as int, x as int, y as int);
        }
        let n: u32 = self.width as u32 * y as u32 + x as u32;
        get_bit(self.grid, n)
    }

    /// Writes `value` into the tile at `(x, y)` and leaves every other tile,
    /// and every bit beyond the last tile, as it was.
    pub fn set(&mut self, x: u8, y: u8, value: bool)
        requires
            old(self).wf(),
            old(self).in_range(x as int, y as int),
        ensures
            *final(self) == old(self).with_tile(x as int, y as int, value),
            final(self).width() == old(self).width(),
            final(self).height() == old(self).height(),
            final(self).cell(x as int, y as int) == value,
            forall|i: int|
                i != old(self).width() * y + x ==> bit_at(final(self).bits(), i) == bit_at(
                    old(self).bits(),
                    i,
                ),
            forall|x2: int, y2: int|
                old(self).in_range(x2, y2) && (x2 != x || y2 != y) ==> #[trigger] final(self).cell(
                    x2,
                    y2,
                ) == old(self).cell(x2, y2),
    {
        proof {
            lemma_tile_index_bound(self.width as int, self.height as int, x as int, y as int);
        }
        let n: u32 = self.width as u32 * y as u32 + x as u32;
        let ghost before = *self;
        self.grid = set_bit(self.grid, n, value);
        proof {
            assert forall|x2: int, y2: int|
                before.in_range(x2, y2) && (x2 != x || y2 != y) implies #[trigger] self.cell(x2, y2)
                == before.cell(x2, y2) by {
                let w = before.width as int;
                lemma_tile_index_split(w, x2, y2);
                lemma_tile_index_split(w, x as int, y as int);
            }
        }
    }

    /// Check if dimensions are small enough to fit in the fixed-size bit representation.
    fn check_dimensions(width: u8, height: u8) -> (r: Option<()>)
        ensures
            r.is_some() <==> width * height <= 64,
    {
        assert(width * height <= 255 * 255) by (nonlinear_arith)
            requires
                width <= 255,
                height <= 255,
        ;
        if (width as u32) * (height as u32) > MAX_TILES {
            return None;
        }
        Some(())
    }

    /// Creates empty grid with given size, or nothing if it would have more
    /// than 64 tiles.
    pub fn empty(width: u8, height: u8) -> (r: Option<Self>)
        ensures
            r.is_some() <==> width * height <= 64,
            r matches Some(g) ==> g.wf() && g.width() == width && g.height() == height && g.bits()
                == 0 && g.is_trimmed() && forall|x: int, y: int| !g.cell(x, y),
    {
        if Self::check_dimensions(width, height).is_none() {
            return None;
        }
        let g = Self { width, height, grid: 0 };
        proof {
            assert forall|i: int| !bit_at(0, i) by {
                lemma_zero_bits(i);
            }
        }
        Some(g)
    }

    /// Creates empty grid of zero size
    #[must_use]
    pub fn zero_size() -> (g: Self)
        ensures
            g.wf(),
            g.width() == 0,
            g.height() == 0,
            g.bits() == 0,
            g.is_trimmed(),
    {
        let g = Self { width: 0, height: 0, grid: 0 };
        proof {
            assert forall|i: int| !bit_at(0, i) by {
                lemma_zero_bits(i);
            }
        }
        g
    }

    /// Creates filled grid with given size, or nothing if it would have more
    /// than 64 tiles. Every bit of the word is set, also beyond the last tile.
    pub fn filled(width: u8, height: u8) -> (r: Option<Self>)
        ensures
            r.is_some() <==> width * height <= 64,
            r matches Some(g) ==> g.wf() && g.width() == width && g.height() == height && g.bits()
                == u64::MAX && forall|x: int, y: int| g.in_range(x, y) ==> g.cell(x, y),
    {
        if Self::check_dimensions(width, height).is_none() {
            return None;
        }
        let g = Self { width, height, grid: u64::MAX };
        proof {
            assert forall|x: int, y: int| g.in_range(x, y) implies g.cell(x, y) by {
                lemma_tile_index_bound(width as int, height as int, x, y);
                lemma_max_bits(width * y + x);
            }
        }
        Some(g)
    }

    /// Create a grid that correspondes to given size and "internal id".
    ///
    /// Bit `i` of `grid_id` is tile `i`, counted row by row from the top left.
    /// The word is taken as it is: bits beyond the last tile are kept.
    pub fn from_number(width: u8, height: u8, grid_id: u64) -> (r: Option<Self>)
        ensures
            r.is_some() <==> width * height <= 64,
            r matches Some(g) ==> g.wf() && g.width() == width && g.height() == height && g.bits()
                == grid_id,
    {
        if Self::check_dimensions(width, height).is_none() {
            return None;
        }
        Some(Self { width, height, grid: grid_id })
    }

    /// Creates a grid from given array of bools, tile `i` being `grid[i]`.
    pub fn from_arr(width: u8, height: u8, grid: &[bool]) -> (r: Option<Self>)
        requires
            grid@.len() <= 64,
        ensures
            r.is_some() <==> width * height <= 64,
            r matches Some(g) ==> g.wf() && g.width() == width && g.height() == height && (forall|
                i: int,
            |
                #[trigger] bit_at(g.bits(), i) == (0 <= i < grid@.len() && grid@[i])),
    {
        Self::from_number(width, height, arr_to_bits(grid))
    }

    /// The source coordinate that `how` assigns to the target `(tx, ty)`.
    pub open spec fn source(&self, how: Remap, tx: int, ty: int) -> (int, int) {
        match how {
            Remap::Rotate => (ty, self.height() - 1 - tx),
            Remap::MirrorColumns => (self.width() - 1 - tx, ty),
            Remap::MirrorRows => (tx, self.height() - 1 - ty),
            Remap::Window { left, top } => (tx + left, ty + top),
        }
    }

    /// The grid of `width` by `height` tiles whose tile `(tx, ty)` is this
    /// grid's tile at `source(how, tx, ty)`. Bits beyond the last tile are
    /// those of `base`.
    pub fn remapped(&self, base: u64, width: u8, height: u8, how: Remap) -> (r: Self)
        requires
            self.wf(),
            width * height <= 64,
            forall|tx: int, ty: int|
                0 <= tx < width && 0 <= ty < height ==> self.in_range(
                    #[trigger] self.source(how, tx, ty).0,
                    self.source(how, tx, ty).1,
                ),
        ensures
            r.wf(),
            r.width() == width,
            r.height() == height,
            forall|tx: int, ty: int|
                r.in_range(tx, ty) ==> #[trigger] r.cell(tx, ty) == self.cell(
                    self.source(how, tx, ty).0,
                    self.source(how, tx, ty).1,
                ),
            forall|i: int| width * height <= i ==> bit_at(r.bits(), i) == bit_at(base, i),
    {
        let mut word: u64 = base;
        let mut n: u32 = 0;
        let mut ty: u8 = 0;
        while ty < height
            invariant
                self.wf(),
                width * height <= 64,
                ty <= height,
                n == width * ty,
                forall|tx: int, ty: int|
                    0 <= tx < width && 0 <= ty < height ==> self.in_range(
                        #[trigger] self.source(how, tx, ty).0,
                        self.source(how, tx, ty).1,
                    ),
                forall|j: int|
                    0 <= j < n ==> bit_at(word, j) == self.cell(
                        self.source(how, j % (width as int), j / (width as int)).0,
                        self.source(how, j % (width as int), j / (width as int)).1,
                    ),
                forall|j: int| n <= j ==> bit_at(word, j) == bit_at(base, j),
            decreases height - ty,
        {
            let mut tx: u8 = 0;
            while tx < width
                invariant
                    self.wf(),
                    width * height <= 64,
                    ty < height,
                    tx <= width,
                    n == width * ty + tx,
                    forall|tx: int, ty: int|
                        0 <= tx < width && 0 <= ty < height ==> self.in_range(
                            #[trigger] self.source(how, tx, ty).0,
                            self.source(how, tx, ty).1,
                        ),
                    forall|j: int|
                        0 <= j < n ==> bit_at(word, j) == self.cell(
                            self.source(how, j % (width as int), j / (width as int)).0,
                            self.source(how, j % (width as int), j / (width as int)).1,
                        ),
                    forall|j: int| n <= j ==> bit_at(word, j) == bit_at(base, j),
                decreases width - tx,
            {
                proof {
                    lemma_tile_index_bound(width as int, height as int, tx as int, ty as int);
                    lemma_tile_index_split(width as int, tx as int, ty as int);
                    assert(self.in_range(
                        self.source(how, tx as int, ty as int).0,
                        self.source(how, tx as int, ty as int).1,
                    ));
                }
                let (sx, sy): (u8, u8) = match how {
                    Remap::Rotate => (ty, self.height - 1 - tx),
                    Remap::MirrorColumns => (self.width - 1 - tx, ty),
                    Remap::MirrorRows => (tx, self.height - 1 - ty),
                    Remap::Window { left, top } => (tx + left, ty + top),
                };
                let value = self.get(sx, sy);
                word = set_bit(word, n, value);
                n += 1;
                tx += 1;
            }
            proof {
                assert(width * (ty + 1) == width * ty + width) by (nonlinear_arith);
            }
            ty += 1;
        }
        let r = Self { width, height, grid: word };
        proof {
            assert forall|tx: int, ty: int| r.in_range(tx, ty) implies #[trigger] r.cell(tx, ty)
                == self.cell(self.source(how, tx, ty).0, self.source(how, tx, ty).1) by {
                lemma_tile_index_bound(width as int, height as int, tx, ty);
                lemma_tile_index_split(width as int, tx, ty);
            }
        }
        r
    }

    /// Rotate grid 90° clockwise: the tile at `(x, y)` moves to
    /// `(height - 1 - y, x)`. The result is trimmed.
    #[must_use]
    pub fn rotate(&self) -> (r: Self)
        requires
            self.wf(),
        ensures
            r.wf(),
            r.is_trimmed(),
            r.width() == self.height(),
            r.height() == self.width(),
            forall|x: int, y: int|
                r.in_range(x, y) ==> #[trigger] r.cell(x, y) == self.cell(
                    y,
                    self.height() - 1 - x,
                ),
    {
        proof {
            assert(self.height() * self.width() == self.width() * self.height())
                by (nonlinear_arith);
            assert forall|i: int| !bit_at(0, i) by {
                lemma_zero_bits(i);
            }
        }
        let r = self.remapped(0, self.height, self.width, Remap::Rotate);
        proof {
            assert forall|i: int| r.width() * r.height() <= i implies !bit_at(r.bits(), i) by {
                lemma_zero_bits(i);
            }
        }
        r
    }

    /// Flip grid vertically: the tile at `(x, y)` moves to
    /// `(width - 1 - x, y)`. Bits beyond the last tile are kept.
    #[must_use]
    pub fn vertical_flip(&self) -> (r: Self)
        requires
            self.wf(),
        ensures
            r.wf(),
            r.width() == self.width(),
            r.height() == self.height(),
            forall|x: int, y: int|
                r.in_range(x, y) ==> #[trigger] r.cell(x, y) == self.cell(self.width() - 1 - x, y),
            forall|i: int|
                self.width() * self.height() <= i ==> bit_at(r.bits(), i) == bit_at(
                    self.bits(),
                    i,
                ),
    {
        self.remapped(self.grid, self.width, self.height, Remap::MirrorColumns)
    }

    /// Flip grid horizontally: the tile at `(x, y)` moves to
    /// `(x, height - 1 - y)`. Bits beyond the last tile are kept.
    #[must_use]
    pub fn horizontal_flip(&self) -> (r: Self)
        requires
            self.wf(),
        ensures
            r.wf(),
            r.width() == self.width(),
            r.height() == self.height(),
            forall|x: int, y: int|
                r.in_range(x, y) ==> #[trigger] r.cell(x, y) == self.cell(x, self.height() - 1 - y),
            forall|i: int|
                self.width() * self.height() <= i ==> bit_at(r.bits(), i) == bit_at(
                    self.bits(),
                    i,
                ),
    {
        self.remapped(self.grid, self.width, self.height, Remap::MirrorRows)
    }
}

/// Why a text is not a grid.
#[derive(Debug, Clone, Copy, Hash, PartialEq, Eq, Structural)]
pub enum GridTextError {
    /// The text is a rectangle of tiles, but of more than 64.
    TooLarge,
    /// The text is no rectangle of `.` and `#` with rows separated by `|`.
    Malformed,
}

/// `s` consists of `h` rows of `w` tiles each, `.` or `#`, with a `|` between
/// two rows.
pub open spec fn is_grid_shape(s: Seq<char>, w: int, h: int) -> bool {
    &&& 1 <= w
    &&& 1 <= h
    &&& s.len() == h * (w + 1) - 1
    &&& forall|i: int|
        0 <= i < s.len() ==> if i % (w + 1) == w {
            s[i] == '|'
        } else {
            s[i] == '.' || s[i] == '#'
        }
}

/// The width of a grid text is the position of its first `|`, or its length
/// where it has none.
pub proof fn lemma_grid_shape_width(s: Seq<char>, w: int, h: int, first_bar: int)
    requires
        is_grid_shape(s, w, h),
        0 <= first_bar <= s.len(),
        forall|i: int| 0 <= i < first_bar ==> s[i] != '|',
        first_bar < s.len() ==> s[first_bar] == '|',
    ensures
        w == first_bar,
        s.len() == (h - 1) * (w + 1) + w,
{
    assert(h * (w + 1) - 1 == (h - 1) * (w + 1) + w) by (nonlinear_arith);
    assert((h - 1) * (w + 1) >= 0) by (nonlinear_arith)
        requires
            h >= 1,
            w >= 1,
    ;
    assert(w <= s.len());
    if w < s.len() {
        lemma_tile_index_split(w + 1, w, 0);
        assert((w + 1) * 0 + w == w);
        assert(s[w] == '|');
        if first_bar < w {
            lemma_tile_index_split(w + 1, first_bar, 0);
            assert((w + 1) * 0 + first_bar == first_bar);
            assert(s[first_bar] != '|');
        }
    } else {
        if first_bar < s.len() {
            lemma_tile_index_split(w + 1, first_bar, 0);
            assert((w + 1) * 0 + first_bar == first_bar);
        }
    }
}

/// A text has at most one shape.
pub proof fn lemma_grid_shape_unique(s: Seq<char>, w1: int, h1: int, w2: int, h2: int)
    requires
        is_grid_shape(s, w1, h1),
        is_grid_shape(s, w2, h2),
    ensures
        w1 == w2,
        h1 == h2,
{
    assert(h1 * (w1 + 1) - 1 == (h1 - 1) * (w1 + 1) + w1) by (nonlinear_arith);
    assert((h1 - 1) * (w1 + 1) >= 0) by (nonlinear_arith)
        requires
            h1 >= 1,
            w1 >= 1,
    ;
    assert forall|i: int| 0 <= i < w1 implies s[i] != '|' by {
        lemma_tile_index_split(w1 + 1, i, 0);
        assert((w1 + 1) * 0 + i == i);
    }
    if w1 < s.len() {
        lemma_tile_index_split(w1 + 1, w1, 0);
        assert((w1 + 1) * 0 + w1 == w1);
    }
    lemma_grid_shape_width(s, w2, h2, w1);
    assert(h1 == h2) by (nonlinear_arith)
        requires
            h1 * (w1 + 1) == h2 * (w1 + 1),
            w1 >= 1,
    ;
}

impl SmallBitGrid {
    /// Every tile of row `y` is set.
    pub open spec fn row_filled(&self, y: int) -> bool {
        forall|x: int| 0 <= x < self.width() ==> self.cell(x, y)
    }

    /// Every tile of column `x` is set.
    pub open spec fn column_filled(&self, x: int) -> bool {
        forall|y: int| 0 <= y < self.height() ==> self.cell(x, y)
    }

    /// Number of rows (`rows`) or of columns.
    pub open spec fn lines(&self, rows: bool) -> int {
        if rows {
            self.height() as int
        } else {
            self.width() as int
        }
    }

    /// Whether the `k`-th row or column, counted from the start or from the
    /// end, is wholly set.
    pub open spec fn line_filled(&self, rows: bool, from_end: bool, k: int) -> bool {
        let i = if from_end {
            self.lines(rows) - 1 - k
        } else {
            k
        };
        if rows {
            self.row_filled(i)
        } else {
            self.column_filled(i)
        }
    }

    /// `m` is the number of wholly set rows (or columns) that the grid starts
    /// with (or ends with): the first `m` are set and the next one, if there
    /// is one, is not.
    pub open spec fn is_margin(&self, rows: bool, from_end: bool, m: int) -> bool {
        &&& 0 <= m <= self.lines(rows)
        &&& forall|k: int| 0 <= k < m ==> self.line_filled(rows, from_end, k)
        &&& m < self.lines(rows) ==> !self.line_filled(rows, from_end, m)
    }

    /// The number of wholly set rows (or columns) at the start (or end).
    pub open spec fn margin(&self, rows: bool, from_end: bool) -> int {
        choose|m: int| self.is_margin(rows, from_end, m)
    }

    /// There is one margin only.
    pub proof fn lemma_margin_unique(&self, rows: bool, from_end: bool, m: int)
        requires
            self.is_margin(rows, from_end, m),
        ensures
            self.margin(rows, from_end) == m,
    {
        let c = self.margin(rows, from_end);
        assert(self.is_margin(rows, from_end, c));
        if c < m {
            assert(self.line_filled(rows, from_end, c));
        }
        if m < c {
            assert(self.line_filled(rows, from_end, m));
        }
    }

    /// Some tile of the grid is not set.
    pub open spec fn has_empty_cell(&self) -> bool {
        exists|x: int, y: int| self.in_range(x, y) && !self.cell(x, y)
    }

    fn is_line_filled(&self, rows: bool, from_end: bool, k: u8) -> (r: bool)
        requires
            self.wf(),
            0 <= k < self.lines(rows),
        ensures
            r == self.line_filled(rows, from_end, k as int),
    {
        let count = if rows {
            self.width
        } else {
            self.height
        };
        let total = if rows {
            self.height
        } else {
            self.width
        };
        let i = if from_end {
            total - 1 - k
        } else {
            k
        };
        let mut j: u8 = 0;
        while j < count
            invariant
                self.wf(),
                j <= count,
                count == self.lines(!rows),
                0 <= i < self.lines(rows),
                i == (if from_end {
                    self.lines(rows) - 1 - k
                } else {
                    k as int
                }),
                rows ==> forall|x: int| 0 <= x < j ==> self.cell(x, i as int),
                !rows ==> forall|y: int| 0 <= y < j ==> self.cell(i as int, y),
            decreases count - j,
        {
            let value = if rows {
                self.get(j, i)
            } else {
                self.get(i, j)
            };
            if !value {
                proof {
                    if rows {
                        assert(!self.cell(j as int, i as int));
                        assert(!self.row_filled(i as int));
                    } else {
                        assert(!self.cell(i as int, j as int));
                        assert(!self.column_filled(i as int));
                    }
                }
                return false;
            }
            j += 1;
        }
        true
    }

    fn compute_margin(&self, rows: bool, from_end: bool) -> (m: u8)
        requires
            self.wf(),
        ensures
            self.is_margin(rows, from_end, m as int),
            m == self.margin(rows, from_end),
    {
        let total = if rows {
            self.height
        } else {
            self.width
        };
        let mut m: u8 = 0;
        while m < total
            invariant
                self.wf(),
                total == self.lines(rows),
                m <= total,
                forall|k: int| 0 <= k < m ==> self.line_filled(rows, from_end, k),
            ensures
                self.is_margin(rows, from_end, m as int),
            decreases total - m,
        {
            if !self.is_line_filled(rows, from_end, m) {
                break;
            }
            m += 1;
        }
        proof {
            self.lemma_margin_unique(rows, from_end, m as int);
        }
        m
    }

    /// Where some tile is not set, the margins leave a row and a column
    /// between them.
    pub proof fn lemma_margins_leave_room(&self)
        requires
            self.wf(),
            self.has_empty_cell(),
        ensures
            self.margin(false, false) + self.margin(false, true) < self.width(),
            self.margin(true, false) + self.margin(true, true) < self.height(),
    {
        let (x, y) = choose|x: int, y: int| self.in_range(x, y) && !self.cell(x, y);
        let left = self.margin(false, false);
        let right = self.margin(false, true);
        let top = self.margin(true, false);
        let bottom = self.margin(true, true);
        self.lemma_margin_exists(false, false);
        self.lemma_margin_exists(false, true);
        self.lemma_margin_exists(true, false);
        self.lemma_margin_exists(true, true);
        if left > x {
            assert(self.line_filled(false, false, x));
        }
        if right > self.width() - 1 - x {
            assert(self.line_filled(false, true, self.width() - 1 - x));
        }
        if top > y {
            assert(self.line_filled(true, false, y));
        }
        if bottom > self.height() - 1 - y {
            assert(self.line_filled(true, true, self.height() - 1 - y));
        }
    }

    /// Every grid has its margins.
    pub proof fn lemma_margin_exists(&self, rows: bool, from_end: bool)
        ensures
            self.is_margin(rows, from_end, self.margin(rows, from_end)),
    {
        self.lemma_margin_from(rows, from_end, 0);
    }

    proof fn lemma_margin_from(&self, rows: bool, from_end: bool, k: int)
        requires
            0 <= k <= self.lines(rows),
            forall|j: int| 0 <= j < k ==> self.line_filled(rows, from_end, j),
        ensures
            exists|m: int| self.is_margin(rows, from_end, m),
        decreases self.lines(rows) - k,
    {
        if k < self.lines(rows) && self.line_filled(rows, from_end, k) {
            self.lemma_margin_from(rows, from_end, k + 1);
        } else {
            assert(self.is_margin(rows, from_end, k));
        }
    }

    /// `r` is this grid without its wholly set rows and columns at the edges:
    /// the grid of zero size where no tile is empty, else the window between
    /// the margins, trimmed.
    pub open spec fn moved_top_left(&self, r: Self) -> bool {
        &&& r.wf()
        &&& r.is_trimmed()
        &&& !self.has_empty_cell() ==> r.width() == 0 && r.height() == 0
        &&& self.has_empty_cell() ==> {
            &&& r.width() == self.width() - self.margin(false, false) - self.margin(false, true)
            &&& r.height() == self.height() - self.margin(true, false) - self.margin(true, true)
            &&& forall|x: int, y: int|
                r.in_range(x, y) ==> #[trigger] r.cell(x, y) == self.cell(
                    x + self.margin(false, false),
                    y + self.margin(true, false),
                )
        }
    }

    /// This grid without its wholly set rows and columns at the edges.
    pub open spec fn top_left(&self) -> Self {
        choose|r: Self| self.moved_top_left(r)
    }

    /// Every grid can be moved to the top left.
    pub proof fn lemma_top_left(&self)
        requires
            self.wf(),
        ensures
            self.moved_top_left(self.top_left()),
    {
        if self.has_empty_cell() {
            self.lemma_margins_leave_room();
            self.lemma_margin_exists(false, false);
            self.lemma_margin_exists(false, true);
            self.lemma_margin_exists(true, false);
            self.lemma_margin_exists(true, true);
            let left = self.margin(false, false);
            let right = self.margin(false, true);
            let top = self.margin(true, false);
            let bottom = self.margin(true, true);
            let w = (self.width() - left - right) as u8;
            let h = (self.height() - top - bottom) as u8;
            let cells = |i: int| self.cell(i % (w as int) + left, i / (w as int) + top);
            assert(0 <= w * h <= self.width() * self.height()) by (nonlinear_arith)
                requires
                    0 <= w <= self.width(),
                    0 <= h <= self.height(),
            ;
            let word = Self::lemma_word_exists(cells, (w * h) as int);
            let r = SmallBitGrid { width: w, height: h, grid: word };
            assert forall|x: int, y: int| r.in_range(x, y) implies #[trigger] r.cell(x, y)
                == self.cell(x + left, y + top) by {
                lemma_tile_index_bound(w as int, h as int, x, y);
                lemma_tile_index_split(w as int, x, y);
            }
            assert(self.moved_top_left(r));
        } else {
            let r = SmallBitGrid { width: 0, height: 0, grid: 0 };
            assert forall|i: int| !bit_at(0, i) by {
                lemma_zero_bits(i);
            }
            assert(self.moved_top_left(r));
        }
    }

    /// There is a word whose first `n` bits are as `cells` says and whose
    /// other bits are unset.
    proof fn lemma_word_exists(cells: spec_fn(int) -> bool, n: int) -> (word: u64)
        requires
            0 <= n <= 64,
        ensures
            forall|i: int| bit_at(word, i) == (0 <= i < n && cells(i)),
        decreases n,
    {
        if n == 0 {
            assert forall|i: int| !bit_at(0, i) by {
                lemma_zero_bits(i);
            }
            0
        } else {
            let before = Self::lemma_word_exists(cells, n - 1);
            let word = with_bit(before, n - 1, cells(n - 1));
            assert forall|i: int| bit_at(word, i) == (0 <= i < n && cells(i)) by {
                lemma_with_bit(before, n - 1, cells(n - 1), i);
            }
            word
        }
    }

    /// Only one grid is this grid moved to the top left.
    pub proof fn lemma_moved_top_left_unique(&self, r1: Self, r2: Self)
        requires
            self.wf(),
            self.moved_top_left(r1),
            self.moved_top_left(r2),
        ensures
            r1 == r2,
    {
        Self::lemma_equal_by_cells(r1, r2);
    }

    /// Moving to the top left twice is moving once: a grid that was moved has
    /// no wholly set row or column left at an edge.
    pub proof fn lemma_move_top_left_idempotent(&self, once: Self, twice: Self)
        requires
            self.wf(),
            self.moved_top_left(once),
            once.moved_top_left(twice),
        ensures
            twice == once,
    {
        if self.has_empty_cell() {
            self.lemma_margins_leave_room();
            self.lemma_margin_exists(false, false);
            self.lemma_margin_exists(false, true);
            self.lemma_margin_exists(true, false);
            self.lemma_margin_exists(true, true);
            let left = self.margin(false, false);
            let right = self.margin(false, true);
            let top = self.margin(true, false);
            let bottom = self.margin(true, true);
            let (ex, ey) = choose|x: int, y: int| self.in_range(x, y) && !self.cell(x, y);
            // The empty tile lies between the margins.
            if ex < left {
                assert(self.line_filled(false, false, ex));
            }
            if ex >= self.width() - right {
                assert(self.line_filled(false, true, self.width() - 1 - ex));
            }
            if ey < top {
                assert(self.line_filled(true, false, ey));
            }
            if ey >= self.height() - bottom {
                assert(self.line_filled(true, true, self.height() - 1 - ey));
            }
            assert(once.in_range(ex - left, ey - top));
            assert(once.cell(ex - left, ey - top) == self.cell(ex, ey));
            assert(once.has_empty_cell());
            // A line of the window that is wholly set was wholly set before.
            assert(!self.line_filled(false, false, left));
            assert(!self.line_filled(false, true, right));
            assert(!self.line_filled(true, false, top));
            assert(!self.line_filled(true, true, bottom));
            assert(!once.line_filled(false, false, 0)) by {
                if once.column_filled(0) {
                    assert forall|y: int| 0 <= y < self.height() implies self.cell(left, y) by {
                        if y < top {
                            assert(self.line_filled(true, false, y));
                        } else if y >= self.height() - bottom {
                            assert(self.line_filled(true, true, self.height() - 1 - y));
                        } else {
                            assert(once.in_range(0, y - top));
                            assert(once.cell(0, y - top));
                        }
                    }
                }
            }
            assert(!once.line_filled(false, true, 0)) by {
                if once.column_filled(once.width() - 1) {
                    let last = self.width() - 1 - right;
                    assert forall|y: int| 0 <= y < self.height() implies self.cell(last, y) by {
                        if y < top {
                            assert(self.line_filled(true, false, y));
                        } else if y >= self.height() - bottom {
                            assert(self.line_filled(true, true, self.height() - 1 - y));
                        } else {
                            assert(once.in_range(once.width() - 1, y - top));
                            assert(once.cell(once.width() - 1, y - top));
                        }
                    }
                }
            }
            assert(!once.line_filled(true, false, 0)) by {
                if once.row_filled(0) {
                    assert forall|x: int| 0 <= x < self.width() implies self.cell(x, top) by {
                        if x < left {
                            assert(self.line_filled(false, false, x));
                        } else if x >= self.width() - right {
                            assert(self.line_filled(false, true, self.width() - 1 - x));
                        } else {
                            assert(once.in_range(x - left, 0));
                            assert(once.cell(x - left, 0));
                        }
                    }
                }
            }
            assert(!once.line_filled(true, true, 0)) by {
                if once.row_filled(once.height() - 1) {
                    let last = self.height() - 1 - bottom;
                    assert forall|x: int| 0 <= x < self.width() implies self.cell(x, last) by {
                        if x < left {
                            assert(self.line_filled(false, false, x));
                        } else if x >= self.width() - right {
                            assert(self.line_filled(false, true, self.width() - 1 - x));
                        } else {
                            assert(once.in_range(x - left, once.height() - 1));
                            assert(once.cell(x - left, once.height() - 1));
                        }
                    }
                }
            }
            once.lemma_margin_unique(false, false, 0);
            once.lemma_margin_unique(false, true, 0);
            once.lemma_margin_unique(true, false, 0);
            once.lemma_margin_unique(true, true, 0);
            Self::lemma_equal_by_cells(twice, once);
        } else {
            assert(!once.has_empty_cell());
            Self::lemma_equal_by_cells(twice, once);
        }
    }

    /// Remove filled rows and columns from the edges.
    ///
    /// A grid with no empty tile becomes the grid of zero size. Otherwise the
    /// result is the window between the margins, trimmed.
    pub fn move_top_left(&self) -> (r: Self)
        requires
            self.wf(),
        ensures
            self.moved_top_left(r),
            r == self.top_left(),
    {
        let top = self.compute_margin(true, false);
        if top == self.height {
            proof {
                if self.has_empty_cell() {
                    let (x, y) = choose|x: int, y: int| self.in_range(x, y) && !self.cell(x, y);
                    assert(self.line_filled(true, false, y));
                }
            }
            let r = Self::zero_size();
            proof {
                self.lemma_moved_top_left_unique(r, self.top_left());
            }
            return r;
        }
        proof {
            assert(!self.line_filled(true, false, top as int));
            assert(!self.row_filled(top as int));
            let x = choose|x: int| 0 <= x < self.width() && !self.cell(x, top as int);
            assert(self.in_range(x, top as int) && !self.cell(x, top as int));
            assert(self.has_empty_cell());
            self.lemma_margins_leave_room();
        }
        let bottom = self.compute_margin(true, true);
        let left = self.compute_margin(false, false);
        let right = self.compute_margin(false, true);
        let width = self.width - left - right;
        let height = self.height - top - bottom;
        proof {
            assert(width * height <= self.width() * self.height()) by (nonlinear_arith)
                requires
                    0 <= width <= self.width(),
                    0 <= height <= self.height(),
            ;
        }
        let r = self.remapped(0, width, height, Remap::Window { left, top });
        proof {
            assert forall|i: int| r.width() * r.height() <= i implies !bit_at(r.bits(), i) by {
                lemma_zero_bits(i);
            }
            self.lemma_moved_top_left_unique(r, self.top_left());
        }
        r
    }

    /// Number of empty tiles among the first `n` tiles of row `y`.
    pub open spec fn free_in_row(&self, y: int, n: int) -> nat
        decreases n,
    {
        if n <= 0 {
            0
        } else {
            self.free_in_row(y, n - 1) + if !self.cell(n - 1, y) {
                1nat
            } else {
                0nat
            }
        }
    }

    /// Number of empty tiles in the first `m` rows.
    pub open spec fn free_in_rows(&self, m: int) -> nat
        decreases m,
    {
        if m <= 0 {
            0
        } else {
            self.free_in_rows(m - 1) + self.free_in_row(m - 1, self.width() as int)
        }
    }

    /// Number of empty tiles.
    pub open spec fn free_count(&self) -> nat {
        self.free_in_rows(self.height() as int)
    }

    /// Number of empty tiles.
    pub fn free_places(&self) -> (n: usize)
        requires
            self.wf(),
        ensures
            n == self.free_count(),
            n <= 64,
    {
        let mut n: usize = 0;
        let mut y: u8 = 0;
        while y < self.height
            invariant
                self.wf(),
                y <= self.height(),
                n == self.free_in_rows(y as int),
                n <= self.width() * y,
            decreases self.height() - y,
        {
            let mut x: u8 = 0;
            let ghost before = n;
            while x < self.width
                invariant
                    self.wf(),
                    y < self.height(),
                    x <= self.width(),
                    n == before + self.free_in_row(y as int, x as int),
                    before <= self.width() * y,
                    self.free_in_row(y as int, x as int) <= x,
                decreases self.width() - x,
            {
                proof {
                    lemma_tile_index_bound(
                        self.width() as int,
                        self.height() as int,
                        x as int,
                        y as int,
                    );
                }
                if !self.get(x, y) {
                    n += 1;
                }
                x += 1;
            }
            proof {
                assert(self.width() * (y + 1) == self.width() * y + self.width())
                    by (nonlinear_arith);
            }
            y += 1;
        }
        proof {
            assert(self.width() * self.height() <= 64);
        }
        n
    }

    /// Rows whose tiles are empty only where those of another row are have
    /// no more empty tiles.
    pub proof fn lemma_free_in_row_monotone(&self, other: Self, y: int, y2: int, shift: int, n: int)
        requires
            n >= 0,
            shift >= 0,
            forall|x: int| 0 <= x < n && !self.cell(x, y) ==> !other.cell(x + shift, y2),
        ensures
            self.free_in_row(y, n) <= other.free_in_row(y2, n + shift) - other.free_in_row(
                y2,
                shift,
            ),
            other.free_in_row(y2, shift) <= other.free_in_row(y2, n + shift),
        decreases n,
    {
        if n > 0 {
            self.lemma_free_in_row_monotone(other, y, y2, shift, n - 1);
            assert((n - 1) + shift == n + shift - 1);
        }
    }

    /// A row counts as many empty tiles as a row of another grid that has
    /// the same tiles, `shift` tiles further on.
    pub proof fn lemma_free_in_row_same(&self, other: Self, y: int, y2: int, shift: int, n: int)
        requires
            n >= 0,
            shift >= 0,
            forall|x: int| 0 <= x < n ==> self.cell(x, y) == other.cell(x + shift, y2),
        ensures
            self.free_in_row(y, n) == other.free_in_row(y2, n + shift) - other.free_in_row(
                y2,
                shift,
            ),
        decreases n,
    {
        if n > 0 {
            self.lemma_free_in_row_same(other, y, y2, shift, n - 1);
            assert((n - 1) + shift == n + shift - 1);
        }
    }

    /// Tiles that are all set count no empty tile.
    pub proof fn lemma_free_in_row_filled(&self, y: int, from: int, to: int)
        requires
            from <= to,
            forall|x: int| from <= x < to ==> self.cell(x, y),
        ensures
            self.free_in_row(y, to) == self.free_in_row(y, from),
        decreases to - from,
    {
        if from < to {
            self.lemma_free_in_row_filled(y, from, to - 1);
        }
    }

    /// Rows that are wholly set count no empty tile.
    pub proof fn lemma_free_in_rows_filled(&self, from: int, to: int)
        requires
            0 <= from <= to,
            forall|y: int| from <= y < to ==> self.row_filled(y),
        ensures
            self.free_in_rows(to) == self.free_in_rows(from),
        decreases to - from,
    {
        if from < to {
            self.lemma_free_in_rows_filled(from, to - 1);
            assert(self.row_filled(to - 1));
            self.lemma_free_in_row_filled(to - 1, 0, self.width() as int);
        }
    }

    /// A grid with the same rows as another, `shift` rows further on, counts
    /// as many empty tiles.
    pub proof fn lemma_free_in_rows_same(&self, other: Self, shift: int, m: int)
        requires
            shift >= 0,
            m >= 0,
            forall|y: int|
                0 <= y < m ==> self.free_in_row(y, self.width() as int) == other.free_in_row(
                    y + shift,
                    other.width() as int,
                ),
        ensures
            self.free_in_rows(m) == other.free_in_rows(m + shift) - other.free_in_rows(shift),
        decreases m,
    {
        if m > 0 {
            self.lemma_free_in_rows_same(other, shift, m - 1);
            assert((m - 1) + shift == m + shift - 1);
        }
    }

    /// A grid whose rows have no more empty tiles than those of another has
    /// no more empty tiles.
    pub proof fn lemma_free_in_rows_monotone(&self, other: Self, m: int)
        requires
            self.width() == other.width(),
            forall|y: int|
                0 <= y < m ==> self.free_in_row(y, self.width() as int) <= other.free_in_row(
                    y,
                    other.width() as int,
                ),
        ensures
            self.free_in_rows(m) <= other.free_in_rows(m),
        decreases m,
    {
        if m > 0 {
            self.lemma_free_in_rows_monotone(other, m - 1);
        }
    }

    /// A grid of the same dimensions whose empty tiles are empty in `other`
    /// has no more empty tiles than `other`.
    pub proof fn lemma_free_count_monotone(&self, other: Self)
        requires
            self.width() == other.width(),
            self.height() == other.height(),
            forall|x: int, y: int| self.in_range(x, y) && !self.cell(x, y) ==> !other.cell(x, y),
        ensures
            self.free_count() <= other.free_count(),
    {
        assert forall|y: int| 0 <= y < self.height() implies self.free_in_row(
            y,
            self.width() as int,
        ) <= other.free_in_row(y, other.width() as int) by {
            self.lemma_free_in_row_monotone(other, y, y, 0, self.width() as int);
        }
        self.lemma_free_in_rows_monotone(other, self.height() as int);
    }

    /// Moving to the top left keeps the number of empty tiles.
    pub proof fn lemma_free_count_top_left(&self)
        requires
            self.wf(),
        ensures
            self.top_left().free_count() == self.free_count(),
            self.moved_top_left(self.top_left()),
    {
        self.lemma_top_left();
        let r = self.top_left();
        let w = self.width() as int;
        let h = self.height() as int;
        if self.has_empty_cell() {
            self.lemma_margins_leave_room();
            self.lemma_margin_exists(false, false);
            self.lemma_margin_exists(false, true);
            self.lemma_margin_exists(true, false);
            self.lemma_margin_exists(true, true);
            let left = self.margin(false, false);
            let right = self.margin(false, true);
            let top = self.margin(true, false);
            let bottom = self.margin(true, true);
            assert forall|y: int| 0 <= y < r.height() implies r.free_in_row(y, r.width() as int)
                == self.free_in_row(y + top, w) by {
                let row = y + top;
                assert forall|x: int| 0 <= x < r.width() implies r.cell(x, y) == self.cell(
                    x + left,
                    row,
                ) by {
                    assert(r.in_range(x, y));
                }
                r.lemma_free_in_row_same(*self, y, row, left, r.width() as int);
                assert forall|x: int| 0 <= x < left implies self.cell(x, row) by {
                    assert(self.line_filled(false, false, x));
                }
                self.lemma_free_in_row_filled(row, 0, left);
                assert forall|x: int| w - right <= x < w implies self.cell(x, row) by {
                    assert(self.line_filled(false, true, w - 1 - x));
                }
                self.lemma_free_in_row_filled(row, w - right, w);
            }
            r.lemma_free_in_rows_same(*self, top, r.height() as int);
            assert forall|y: int| 0 <= y < top implies self.row_filled(y) by {
                assert(self.line_filled(true, false, y));
            }
            self.lemma_free_in_rows_filled(0, top);
            assert forall|y: int| h - bottom <= y < h implies self.row_filled(y) by {
                assert(self.line_filled(true, true, h - 1 - y));
            }
            self.lemma_free_in_rows_filled(h - bottom, h);
        } else {
            assert forall|y: int| 0 <= y < h implies self.row_filled(y) by {
                assert forall|x: int| 0 <= x < w implies self.cell(x, y) by {
                    if !self.cell(x, y) {
                        assert(self.in_range(x, y));
                    }
                }
            }
            self.lemma_free_in_rows_filled(0, h);
        }
    }

    /// Setting an empty tile leaves one empty tile less.
    pub proof fn lemma_free_count_with_tile(&self, x: int, y: int)
        requires
            self.wf(),
            self.in_range(x, y),
            !self.cell(x, y),
        ensures
            self.with_tile(x, y, true).free_count() + 1 == self.free_count(),
    {
        self.lemma_with_tile(x, y, true);
        let r = self.with_tile(x, y, true);
        let w = self.width() as int;
        let h = self.height() as int;
        // The row of the tile.
        assert forall|x2: int| 0 <= x2 < x implies r.cell(x2, y) == self.cell(x2, y) by {
            assert(self.in_range(x2, y));
        }
        Self::lemma_free_in_row_tail(r, *self, y, 0, x);
        assert forall|x2: int| x + 1 <= x2 < w implies r.cell(x2, y) == self.cell(x2, y) by {
            assert(self.in_range(x2, y));
        }
        Self::lemma_free_in_row_tail(r, *self, y, x + 1, w);
        assert(r.free_in_row(y, x + 1) == r.free_in_row(y, x));
        assert(self.free_in_row(y, x + 1) == self.free_in_row(y, x) + 1);
        assert(r.free_in_row(y, w) + 1 == self.free_in_row(y, w));
        // The other rows.
        assert forall|y2: int| 0 <= y2 < h && y2 != y implies r.free_in_row(y2, w)
            == self.free_in_row(y2, w) by {
            assert forall|x2: int| 0 <= x2 < w implies r.cell(x2, y2) == self.cell(x2, y2) by {
                assert(self.in_range(x2, y2));
            }
            Self::lemma_free_in_row_tail(r, *self, y2, 0, w);
        }
        Self::lemma_free_in_rows_agree(r, *self, 0, y);
        Self::lemma_free_in_rows_agree(r, *self, y + 1, h);
    }

    /// Freeing a set tile leaves one empty tile more.
    pub proof fn lemma_free_count_without_tile(&self, x: int, y: int)
        requires
            self.wf(),
            self.in_range(x, y),
            self.cell(x, y),
        ensures
            self.with_tile(x, y, false).free_count() == self.free_count() + 1,
    {
        self.lemma_with_tile(x, y, false);
        let r = self.with_tile(x, y, false);
        let w = self.width() as int;
        let h = self.height() as int;
        assert forall|x2: int| 0 <= x2 < x implies r.cell(x2, y) == self.cell(x2, y) by {
            assert(self.in_range(x2, y));
        }
        Self::lemma_free_in_row_tail(r, *self, y, 0, x);
        assert forall|x2: int| x + 1 <= x2 < w implies r.cell(x2, y) == self.cell(x2, y) by {
            assert(self.in_range(x2, y));
        }
        Self::lemma_free_in_row_tail(r, *self, y, x + 1, w);
        assert(r.free_in_row(y, x + 1) == r.free_in_row(y, x) + 1);
        assert(self.free_in_row(y, x + 1) == self.free_in_row(y, x));
        assert(r.free_in_row(y, w) == self.free_in_row(y, w) + 1);
        assert forall|y2: int| 0 <= y2 < h && y2 != y implies r.free_in_row(y2, w)
            == self.free_in_row(y2, w) by {
            assert forall|x2: int| 0 <= x2 < w implies r.cell(x2, y2) == self.cell(x2, y2) by {
                assert(self.in_range(x2, y2));
            }
            Self::lemma_free_in_row_tail(r, *self, y2, 0, w);
        }
        Self::lemma_free_in_rows_agree(r, *self, 0, y);
        Self::lemma_free_in_rows_agree(r, *self, y + 1, h);
    }

    /// A grid has no more empty tiles than tiles.
    pub proof fn lemma_free_count_bound(&self)
        ensures
            self.free_count() <= self.width() * self.height(),
    {
        self.lemma_free_in_rows_bound(self.height() as int);
    }

    proof fn lemma_free_in_rows_bound(&self, m: int)
        requires
            m >= 0,
        ensures
            self.free_in_rows(m) <= self.width() * m,
        decreases m,
    {
        if m > 0 {
            self.lemma_free_in_rows_bound(m - 1);
            self.lemma_free_in_row_bound(m - 1, self.width() as int);
            assert(self.width() * m == self.width() * (m - 1) + self.width()) by (nonlinear_arith);
        }
    }

    proof fn lemma_free_in_row_bound(&self, y: int, n: int)
        requires
            n >= 0,
        ensures
            self.free_in_row(y, n) <= n,
        decreases n,
    {
        if n > 0 {
            self.lemma_free_in_row_bound(y, n - 1);
        }
    }

    /// A grid with no empty tile counts none.
    pub proof fn lemma_free_count_none(&self)
        requires
            forall|x: int, y: int| self.in_range(x, y) ==> self.cell(x, y),
        ensures
            self.free_count() == 0,
    {
        assert forall|y: int| 0 <= y < self.height() implies self.row_filled(y) by {
            assert forall|x: int| 0 <= x < self.width() implies self.cell(x, y) by {
                assert(self.in_range(x, y));
            }
        }
        self.lemma_free_in_rows_filled(0, self.height() as int);
    }

    /// Grids of the same dimensions with the same tiles are the same grid
    /// once moved to the top left.
    pub proof fn lemma_top_left_by_cells(&self, other: Self)
        requires
            self.wf(),
            other.wf(),
            self.width() == other.width(),
            self.height() == other.height(),
            forall|x: int, y: int| self.in_range(x, y) ==> self.cell(x, y) == other.cell(x, y),
        ensures
            self.top_left() == other.top_left(),
    {
        self.lemma_top_left();
        other.lemma_top_left();
        let r = other.top_left();
        assert forall|rows: bool, from_end: bool, k: int|
            0 <= k < self.lines(rows) implies #[trigger] self.line_filled(rows, from_end, k)
            == other.line_filled(rows, from_end, k) by {
            let i = if from_end {
                self.lines(rows) - 1 - k
            } else {
                k
            };
            if rows {
                assert(self.row_filled(i) == other.row_filled(i)) by {
                    if self.row_filled(i) {
                        assert forall|x: int| 0 <= x < other.width() implies other.cell(x, i) by {
                            assert(self.in_range(x, i));
                        }
                    }
                    if other.row_filled(i) {
                        assert forall|x: int| 0 <= x < self.width() implies self.cell(x, i) by {
                            assert(self.in_range(x, i));
                        }
                    }
                }
            } else {
                assert(self.column_filled(i) == other.column_filled(i)) by {
                    if self.column_filled(i) {
                        assert forall|y: int| 0 <= y < other.height() implies other.cell(i, y) by {
                            assert(self.in_range(i, y));
                        }
                    }
                    if other.column_filled(i) {
                        assert forall|y: int| 0 <= y < self.height() implies self.cell(i, y) by {
                            assert(self.in_range(i, y));
                        }
                    }
                }
            }
        }
        assert forall|rows: bool, from_end: bool| #![trigger self.margin(rows, from_end)]
            self.margin(rows, from_end) == other.margin(rows, from_end) by {
            other.lemma_margin_exists(rows, from_end);
            let m = other.margin(rows, from_end);
            assert(self.is_margin(rows, from_end, m)) by {
                assert forall|k: int| 0 <= k < m implies self.line_filled(rows, from_end, k) by {
                    assert(other.line_filled(rows, from_end, k));
                }
            }
            self.lemma_margin_unique(rows, from_end, m);
        }
        assert(self.has_empty_cell() == other.has_empty_cell()) by {
            if self.has_empty_cell() {
                let (x, y) = choose|x: int, y: int| self.in_range(x, y) && !self.cell(x, y);
                assert(other.in_range(x, y) && !other.cell(x, y));
            }
            if other.has_empty_cell() {
                let (x, y) = choose|x: int, y: int| other.in_range(x, y) && !other.cell(x, y);
                assert(self.in_range(x, y) && !self.cell(x, y));
            }
        }
        if self.has_empty_cell() {
            self.lemma_margins_leave_room();
            self.lemma_margin_exists(false, false);
            self.lemma_margin_exists(false, true);
            self.lemma_margin_exists(true, false);
            self.lemma_margin_exists(true, true);
            assert(self.margin(false, false) == other.margin(false, false));
            assert(self.margin(false, true) == other.margin(false, true));
            assert(self.margin(true, false) == other.margin(true, false));
            assert(self.margin(true, true) == other.margin(true, true));
            assert forall|x: int, y: int| r.in_range(x, y) implies #[trigger] r.cell(x, y)
                == self.cell(x + self.margin(false, false), y + self.margin(true, false)) by {
                assert(self.in_range(x + self.margin(false, false), y + self.margin(true, false)));
            }
        }
        assert(self.moved_top_left(r));
        self.lemma_moved_top_left_unique(r, self.top_left());
    }

    /// Two rows that agree from `from` on count the same from there.
    proof fn lemma_free_in_row_tail(a: Self, b: Self, y: int, from: int, to: int)
        requires
            from <= to,
            forall|x: int| from <= x < to ==> a.cell(x, y) == b.cell(x, y),
        ensures
            a.free_in_row(y, to) - a.free_in_row(y, from) == b.free_in_row(y, to) - b.free_in_row(
                y,
                from,
            ),
        decreases to - from,
    {
        if from < to {
            Self::lemma_free_in_row_tail(a, b, y, from, to - 1);
        }
    }

    /// Two grids whose rows from `from` to `to` count the same count the
    /// same over those rows.
    proof fn lemma_free_in_rows_agree(a: Self, b: Self, from: int, to: int)
        requires
            from <= to,
            a.width() == b.width(),
            forall|y: int|
                from <= y < to ==> a.free_in_row(y, a.width() as int) == b.free_in_row(
                    y,
                    b.width() as int,
                ),
        ensures
            a.free_in_rows(to) - a.free_in_rows(from) == b.free_in_rows(to) - b.free_in_rows(from),
        decreases to - from,
    {
        if from < to {
            Self::lemma_free_in_rows_agree(a, b, from, to - 1);
        }
    }

    /// Number of characters in the text of the grid.
    pub open spec fn text_len(&self) -> nat {
        if self.height() == 0 {
            0
        } else {
            (self.height() * (self.width() + 1) - 1) as nat
        }
    }

    /// The `i`-th character of the text of the grid.
    pub open spec fn text_char(&self, i: int) -> char {
        let col = i % (self.width() + 1);
        let row = i / (self.width() + 1);
        if col == self.width() {
            '|'
        } else if self.cell(col, row) {
            '#'
        } else {
            '.'
        }
    }

    /// The grid as text: the rows from the top, each tile `#` where it is set
    /// and `.` where it is not, with `|` between two rows.
    pub open spec fn text(&self) -> Seq<char> {
        Seq::new(self.text_len(), |i: int| self.text_char(i))
    }

    /// The characters of the grid's text.
    pub fn render(&self) -> (out: Vec<char>)
        requires
            self.wf(),
        ensures
            out@ == self.text(),
    {
        let mut out: Vec<char> = Vec::new();
        let mut y: u8 = 0;
        let ghost period = self.width() + 1;
        while y < self.height
            invariant
                self.wf(),
                period == self.width() + 1,
                y <= self.height(),
                y == 0 ==> out@.len() == 0,
                y > 0 ==> out@.len() == y * period - 1,
                forall|i: int| 0 <= i < out@.len() ==> out@[i] == self.text_char(i),
            decreases self.height() - y,
        {
            if y != 0 {
                proof {
                    lemma_tile_index_split(period, self.width() as int, y - 1);
                    assert(period * (y - 1) + self.width() == y * period - 1)
                        by (nonlinear_arith)
                        requires
                            period == self.width() + 1,
                    ;
                }
                out.push('|');
            }
            let mut x: u8 = 0;
            while x < self.width
                invariant
                    self.wf(),
                    period == self.width() + 1,
                    y < self.height(),
                    x <= self.width(),
                    out@.len() == period * y + x,
                    forall|i: int| 0 <= i < out@.len() ==> out@[i] == self.text_char(i),
                decreases self.width() - x,
            {
                proof {
                    lemma_tile_index_split(period, x as int, y as int);
                }
                let c = if self.get(x, y) {
                    '#'
                } else {
                    '.'
                };
                out.push(c);
                x += 1;
            }
            proof {
                assert(period * y + self.width() == (y + 1) * period - 1) by (nonlinear_arith)
                    requires
                        period == self.width() + 1,
                ;
            }
            y += 1;
        }
        assert(out@ =~= self.text());
        out
    }

    /// The grid as text, for example `..#|.#.|##.`.
    pub fn to_string(&self) -> (out: String)
        requires
            self.wf(),
        ensures
            out@ == self.text(),
    {
        string_of(&self.render())
    }

    /// This grid is the trimmed grid that the text `s` shows.
    pub open spec fn shows(&self, s: Seq<char>) -> bool {
        &&& self.wf()
        &&& self.is_trimmed()
        &&& is_grid_shape(s, self.width() as int, self.height() as int)
        &&& forall|x: int, y: int|
            self.in_range(x, y) ==> #[trigger] self.cell(x, y) == (s[(self.width() + 1) * y + x]
                == '#')
    }

    /// The text of a grid with at least one row and one column has the
    /// grid's shape.
    pub proof fn lemma_text_shape(&self)
        requires
            self.wf(),
            self.width() >= 1,
            self.height() >= 1,
        ensures
            is_grid_shape(self.text(), self.width() as int, self.height() as int),
    {
        let w = self.width() as int;
        let h = self.height() as int;
        assert(h * (w + 1) - 1 >= 0) by (nonlinear_arith)
            requires
                h >= 1,
                w >= 1,
        ;
    }

    /// Reading the text of a grid gives the grid back: a grid that shows the
    /// text of `self` has the dimensions and the tiles of `self`, and is
    /// `self` where `self` is trimmed. (A grid of no rows or no columns has
    /// a text that is no grid text.)
    pub proof fn lemma_text_roundtrip(&self, parsed: Self)
        requires
            self.wf(),
            self.width() >= 1,
            self.height() >= 1,
            parsed.shows(self.text()),
        ensures
            parsed.width() == self.width(),
            parsed.height() == self.height(),
            forall|x: int, y: int| self.in_range(x, y) ==> parsed.cell(x, y) == self.cell(x, y),
            self.is_trimmed() ==> parsed == *self,
    {
        self.lemma_text_shape();
        lemma_grid_shape_unique(
            self.text(),
            self.width() as int,
            self.height() as int,
            parsed.width() as int,
            parsed.height() as int,
        );
        let w = self.width() as int;
        let h = self.height() as int;
        assert forall|x: int, y: int| self.in_range(x, y) implies parsed.cell(x, y) == self.cell(
            x,
            y,
        ) by {
            lemma_tile_index_split(w + 1, x, y);
            assert((w + 1) * y + x <= h * (w + 1) - 2 && 0 <= (w + 1) * y) by (nonlinear_arith)
                requires
                    0 <= x < w,
                    0 <= y < h,
            ;
            assert(parsed.in_range(x, y));
            assert(self.text()[(w + 1) * y + x] == self.text_char((w + 1) * y + x));
        }
        if self.is_trimmed() {
            Self::lemma_equal_by_cells(parsed, *self);
        }
    }

    /// Reads a grid from the characters of its text.
    ///
    /// Succeeds exactly on the texts that are a rectangle of at most 64
    /// tiles; the result is trimmed and holds the tiles that the text shows.
    pub fn parse_chars(input: &Vec<char>) -> (r: Result<Self, GridTextError>)
        ensures
            r is Ok <==> exists|w: int, h: int| is_grid_shape(input@, w, h) && w * h <= 64,
            r == Err::<Self, GridTextError>(GridTextError::TooLarge) <==> exists|w: int, h: int|
                is_grid_shape(input@, w, h) && w * h > 64,
            r matches Ok(g) ==> g.shows(input@),
    {
        let n = input.len();
        let mut w: usize = 0;
        while w < n && input[w] != '|'
            invariant
                w <= n,
                n == input@.len(),
                forall|i: int| 0 <= i < w ==> input@[i] != '|',
            decreases n - w,
        {
            w += 1;
        }
        if w == 0 {
            proof {
                assert forall|w2: int, h2: int| !is_grid_shape(input@, w2, h2) by {
                    if is_grid_shape(input@, w2, h2) {
                        lemma_grid_shape_width(input@, w2, h2, 0);
                    }
                }
            }
            return Err(GridTextError::Malformed);
        }
        // Walk the text with the column and the row of each character.
        let mut i: usize = 0;
        let mut col: usize = 0;
        let mut row: usize = 0;
        while i < n
            invariant
                n == input@.len(),
                1 <= w <= n,
                i <= n,
                col <= w,
                i == (w + 1) * row + col,
                2 * row <= i,
                forall|k: int| 0 <= k < w ==> input@[k] != '|',
                w < n ==> input@[w as int] == '|',
                forall|k: int|
                    0 <= k < i ==> if k % (w + 1) == w {
                        input@[k] == '|'
                    } else {
                        input@[k] == '.' || input@[k] == '#'
                    },
            decreases n - i,
        {
            let c = input[i];
            proof {
                lemma_tile_index_split(w + 1, col as int, row as int);
            }
            let good = if col == w {
                c == '|'
            } else {
                c == '.' || c == '#'
            };
            if !good {
                proof {
                    assert forall|w2: int, h2: int| !is_grid_shape(input@, w2, h2) by {
                        if is_grid_shape(input@, w2, h2) {
                            lemma_grid_shape_width(input@, w2, h2, w as int);
                        }
                    }
                }
                return Err(GridTextError::Malformed);
            }
            if col == w {
                proof {
                    assert((w + 1) * (row + 1) + 0 == (w + 1) * row + w + 1) by (nonlinear_arith);
                    assert(2 * (row + 1) <= (w + 1) * (row + 1)) by (nonlinear_arith)
                        requires
                            w >= 1,
                            row >= 0,
                    ;
                }
                col = 0;
                row += 1;
            } else {
                col += 1;
            }
            i += 1;
        }
        if col != w {
            proof {
                assert forall|w2: int, h2: int| !is_grid_shape(input@, w2, h2) by {
                    if is_grid_shape(input@, w2, h2) {
                        lemma_grid_shape_width(input@, w2, h2, w as int);
                        lemma_fundamental_div_mod_converse(n as int, w + 1, h2 - 1, w as int);
                        lemma_tile_index_split(w + 1, col as int, row as int);
                    }
                }
            }
            return Err(GridTextError::Malformed);
        }
        let h = row + 1;
        proof {
            assert(h * (w + 1) - 1 == (w + 1) * row + w) by (nonlinear_arith)
                requires
                    h == row + 1,
            ;
            assert(is_grid_shape(input@, w as int, h as int));
            assert forall|w2: int, h2: int| is_grid_shape(input@, w2, h2) implies w2 == w && h2
                == h by {
                lemma_grid_shape_unique(input@, w as int, h as int, w2, h2);
            }
        }
        if w > 64 || h > 64 {
            proof {
                assert(w * h > 64) by (nonlinear_arith)
                    requires
                        w > 64 || h > 64,
                        w >= 1,
                        h >= 1,
                ;
            }
            return Err(GridTextError::TooLarge);
        }
        assert(w * h <= 64 * 64) by (nonlinear_arith)
            requires
                w <= 64,
                h <= 64,
        ;
        if w * h > 64 {
            return Err(GridTextError::TooLarge);
        }
        let width = w as u8;
        let height = h as u8;
        let mut word: u64 = 0;
        let mut bit: u32 = 0;
        let mut y: u8 = 0;
        proof {
            assert forall|j: int| !bit_at(0, j) by {
                lemma_zero_bits(j);
            }
        }
        while y < height
            invariant
                n == input@.len(),
                width == w,
                height == h,
                1 <= w,
                w * h <= 64,
                n == h * (w + 1) - 1,
                y <= height,
                bit == width * y,
                forall|j: int| bit <= j ==> !bit_at(word, j),
                forall|j: int|
                    0 <= j < bit ==> bit_at(word, j) == (input@[(w + 1) * (j / (w as int)) + j % (
                    w as int)] == '#'),
            decreases height - y,
        {
            let mut x: u8 = 0;
            while x < width
                invariant
                    n == input@.len(),
                    width == w,
                    height == h,
                    1 <= w,
                    w * h <= 64,
                    n == h * (w + 1) - 1,
                    y < height,
                    x <= width,
                    bit == width * y + x,
                    forall|j: int| bit <= j ==> !bit_at(word, j),
                    forall|j: int|
                        0 <= j < bit ==> bit_at(word, j) == (input@[(w + 1) * (j / (w as int)) + j
                            % (w as int)] == '#'),
                decreases width - x,
            {
                proof {
                    lemma_tile_index_bound(w as int, h as int, x as int, y as int);
                    lemma_tile_index_split(w as int, x as int, y as int);
                    assert((w + 1) * y + x <= h * (w + 1) - 2 && 0 <= (w + 1) * y) by (nonlinear_arith)
                        requires
                            0 <= x < w,
                            0 <= y < h,
                    ;
                }
                let at: usize = (w + 1) * (y as usize) + (x as usize);
                word = set_bit(word, bit, input[at] == '#');
                bit += 1;
                x += 1;
            }
            proof {
                assert(width * (y + 1) == width * y + width) by (nonlinear_arith);
            }
            y += 1;
        }
        let g = Self { width, height, grid: word };
        proof {
            assert forall|x: int, y: int| g.in_range(x, y) implies #[trigger] g.cell(x, y) == (
            input@[(g.width() + 1) * y + x] == '#') by {
                lemma_tile_index_bound(w as int, h as int, x, y);
                lemma_tile_index_split(w as int, x, y);
            }
        }
        Ok(g)
    }

    /// Parses a grid from `.#` notation with `|` as rows separator, or gives
    /// nothing where the text is not such a grid of at most 64 tiles.
    pub fn parse(input: &str) -> (r: Option<Self>)
        ensures
            r is Some <==> exists|w: int, h: int| is_grid_shape(input@, w, h) && w * h <= 64,
            r matches Some(g) ==> g.shows(input@),
    {
        let chars = chars_of(input);
        match Self::parse_chars(&chars) {
            Ok(g) => Some(g),
            Err(_) => None,
        }
    }
}

/// Convert bits in a number to an array: element `i` is bit `i`.
pub fn bits_to_arr(num: u64) -> (arr: [bool; 64])
    ensures
        forall|i: int| 0 <= i < 64 ==> arr@[i] == #[trigger] bit_at(num, i),
{
    let mut arr = [false;64];
    let mut i: usize = 0;
    while i < 64
        invariant
            i <= 64,
            forall|j: int| 0 <= j < i ==> arr@[j] == #[trigger] bit_at(num, j),
        decreases 64 - i,
    {
        arr[i] = get_bit(num, i as u32);
        i += 1;
    }
    arr
}

/// Reverse of [`bits_to_arr`]: bit `i` of the result is `grid[i]`, and the
/// bits from `grid.len()` on are unset.
pub fn arr_to_bits(grid: &[bool]) -> (res: u64)
    requires
        grid@.len() <= 64,
    ensures
        forall|i: int| #[trigger] bit_at(res, i) == (0 <= i < grid@.len() && grid@[i]),
{
    let mut res: u64 = 0;
    let mut i: usize = 0;
    proof {
        assert forall|j: int| !bit_at(0, j) by {
            lemma_zero_bits(j);
        }
    }
    while i < grid.len()
        invariant
            i <= grid@.len() <= 64,
            forall|j: int| #[trigger] bit_at(res, j) == (0 <= j < i && grid@[j]),
        decreases grid@.len() - i,
    {
        res = set_bit(res, i as u32, grid[i]);
        i += 1;
    }
    res
}

/// Packing the array of a word's bits gives the word back.
pub proof fn lemma_bits_roundtrip(num: u64, arr: Seq<bool>, res: u64)
    requires
        arr.len() == 64,
        forall|i: int| 0 <= i < 64 ==> arr[i] == #[trigger] bit_at(num, i),
        forall|i: int| #[trigger] bit_at(res, i) == (0 <= i < arr.len() && arr[i]),
    ensures
        res == num,
{
    lemma_bits_determine_word(res, num);
}

} // verus!

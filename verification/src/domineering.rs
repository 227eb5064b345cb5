//! Domineering game

use crate::grid::small_bit_grid::{
    lemma_tile_index_bound, lemma_tile_index_split, GridTextError, Remap, SmallBitGrid,
};
use crate::short::partizan::game_storage::Game;
use crate::short::partizan::partizan_game::{members, PartizanGame};
use crate::short::partizan::transposition_table::TranspositionTable;
use crate::text::{chars_of, decimal, push_decimal, push_str, string_of};
use std::collections::VecDeque;
use vstd::prelude::*;

verus! {

/// A Domineering position on a rectengular grid.
#[derive(Debug, Clone, Copy, Hash, PartialEq, Eq, PartialOrd, Ord, Structural)]
pub struct Position {
    grid: SmallBitGrid,
}

/// Why a position could not be made.
#[derive(Debug, Clone, Copy, Hash, PartialEq, Eq, Structural)]
pub enum PositionError {
    /// The grid would have more than 64 tiles.
    TooLarge,
    /// The text is no grid.
    CouldNotParse,
}

/// Convert bits in a number to an array but in reverse order.
pub fn bits_to_arr(num: u64) -> (arr: [bool; 64])
    ensures
        forall|i: int| 0 <= i < 64 ==> arr@[i] == #[trigger] crate::bits::bit_at(num, i),
{
    crate::grid::small_bit_grid::bits_to_arr(num)
}

/// Reverse of [`bits_to_arr`]: bit `i` of the result is `grid[i]`.
pub fn arr_to_bits(grid: &[bool]) -> (res: u64)
    requires
        grid@.len() <= 64,
    ensures
        forall|i: int| #[trigger] crate::bits::bit_at(res, i) == (0 <= i < grid@.len() && grid@[i]),
{
    crate::grid::small_bit_grid::arr_to_bits(grid)
}

/// The places of a list of positions.
pub open spec fn listed(s: Seq<Position>) -> Set<Position> {
    Set::new(|p: Position| exists|k: int| 0 <= k < s.len() && s[k] == p)
}

/// The order of positions: by width, then by height, then by the word of the
/// grid.
pub open spec fn comes_before(a: Position, b: Position) -> bool {
    a.width() < b.width() || (a.width() == b.width() && (a.height() < b.height() || (a.height()
        == b.height() && a.grid().bits() < b.grid().bits())))
}

/// The list goes up strictly in the order of positions.
pub open spec fn strictly_sorted(s: Seq<Position>) -> bool {
    forall|i: int, j: int| 0 <= i < j < s.len() ==> comes_before(s[i], s[j])
}

impl Position {
    /// The grid of the position.
    pub closed spec fn grid(&self) -> SmallBitGrid {
        self.grid
    }

    /// Number of columns.
    pub open spec fn spec_width(&self) -> u8 {
        self.grid().width()
    }

    /// Number of rows.
    pub open spec fn spec_height(&self) -> u8 {
        self.grid().height()
    }

    /// The grid has at most 64 tiles.
    pub open spec fn wf(&self) -> bool {
        self.grid().wf()
    }

    /// Whether the tile at `(x, y)` is taken.
    pub open spec fn cell(&self, x: int, y: int) -> bool {
        self.grid().cell(x, y)
    }

    /// Whether `(x, y)` names a tile.
    pub open spec fn in_range(&self, x: int, y: int) -> bool {
        self.grid().in_range(x, y)
    }

    /// The position with the given grid.
    pub closed spec fn of(grid: SmallBitGrid) -> Position {
        Position { grid }
    }

    /// A position is its grid.
    pub proof fn lemma_of(grid: SmallBitGrid)
        ensures
            Self::of(grid).grid() == grid,
    {
    }

    /// Positions with the same grid are the same position.
    pub proof fn lemma_same_grid(a: Position, b: Position)
        requires
            a.grid() == b.grid(),
        ensures
            a == b,
    {
    }

    /// Creates empty grid with given size.
    pub fn empty(width: u8, height: u8) -> (r: Result<Position, PositionError>)
        ensures
            r is Ok <==> width * height <= 64,
            r is Err ==> r == Err::<Position, PositionError>(PositionError::TooLarge),
            r matches Ok(p) ==> p.wf() && p.width() == width && p.height() == height && p.grid().bits()
                == 0 && p.grid().is_trimmed() && forall|x: int, y: int| !p.cell(x, y),
    {
        match SmallBitGrid::empty(width, height) {
            Some(grid) => Ok(Position { grid }),
            None => Err(PositionError::TooLarge),
        }
    }

    /// Creates filled grid with given size.
    pub fn filled(width: u8, height: u8) -> (r: Result<Position, PositionError>)
        ensures
            r is Ok <==> width * height <= 64,
            r is Err ==> r == Err::<Position, PositionError>(PositionError::TooLarge),
            r matches Ok(p) ==> p.wf() && p.width() == width && p.height() == height && p.grid().bits()
                == u64::MAX && forall|x: int, y: int| p.in_range(x, y) ==> p.cell(x, y),
    {
        match SmallBitGrid::filled(width, height) {
            Some(grid) => Ok(Position { grid }),
            None => Err(PositionError::TooLarge),
        }
    }

    /// Parses a grid from `.#` notation with `|` as rows separator.
    ///
    /// The text is a position exactly when it is a rectangle of at most 64
    /// tiles; a larger rectangle is too large, and any other text could not
    /// be parsed.
    pub fn parse(input: &str) -> (r: Result<Position, PositionError>)
        ensures
            r is Ok <==> exists|w: int, h: int|
                crate::grid::small_bit_grid::is_grid_shape(input@, w, h) && w * h <= 64,
            r == Err::<Position, PositionError>(PositionError::TooLarge) <==> exists|w: int, h: int|
                crate::grid::small_bit_grid::is_grid_shape(input@, w, h) && w * h > 64,
            r matches Ok(p) ==> p.grid().shows(input@),
    {
        let chars = chars_of(input);
        match SmallBitGrid::parse_chars(&chars) {
            Ok(grid) => Ok(Position { grid }),
            Err(GridTextError::TooLarge) => Err(PositionError::TooLarge),
            Err(GridTextError::Malformed) => Err(PositionError::CouldNotParse),
        }
    }

    /// Create a grid that correspondes to given size and "internal id".
    ///
    /// Bit `i` of `grid_id` is tile `i`, counted row by row from the top
    /// left; bits beyond the last tile are kept as they are.
    pub fn from_number(width: u8, height: u8, grid_id: u64) -> (r: Result<Position, PositionError>)
        ensures
            r is Ok <==> width * height <= 64,
            r is Err ==> r == Err::<Position, PositionError>(PositionError::TooLarge),
            r matches Ok(p) ==> p.wf() && p.width() == width && p.height() == height && p.grid().bits()
                == grid_id,
    {
        match SmallBitGrid::from_number(width, height, grid_id) {
            Some(grid) => Ok(Position { grid }),
            None => Err(PositionError::TooLarge),
        }
    }

    /// Creates a grid from given array of bools, tile `i` being `grid[i]`.
    pub fn from_arr(width: u8, height: u8, grid: &[bool]) -> (r: Result<Position, PositionError>)
        requires
            grid@.len() <= 64,
        ensures
            r is Ok <==> width * height <= 64,
            r is Err ==> r == Err::<Position, PositionError>(PositionError::TooLarge),
            r matches Ok(p) ==> p.wf() && p.width() == width && p.height() == height && (forall|
                i: int,
            |
                #[trigger] crate::bits::bit_at(p.grid().bits(), i) == (0 <= i < grid@.len()
                    && grid@[i])),
    {
        Position::from_number(width, height, arr_to_bits(grid))
    }

    /// Get number of columns in the grid
    #[verifier::when_used_as_spec(spec_width)]
    pub fn width(&self) -> (w: u8)
        ensures
            w == self.width(),
    {
        self.grid.width()
    }

    /// Get number of rows in the grid
    #[verifier::when_used_as_spec(spec_height)]
    pub fn height(&self) -> (h: u8)
        ensures
            h == self.height(),
    {
        self.grid.height()
    }

    /// Whether the tile at `(x, y)` is taken.
    pub fn at(&self, x: u8, y: u8) -> (value: bool)
        requires
            self.wf(),
            self.in_range(x as int, y as int),
        ensures
            value == self.cell(x as int, y as int),
    {
        self.grid.get(x, y)
    }

    /// Takes or frees the tile at `(x, y)`; every other tile stays.
    pub fn set(&mut self, x: u8, y: u8, val: bool)
        requires
            old(self).wf(),
            old(self).in_range(x as int, y as int),
        ensures
            final(self).grid() == old(self).grid().with_tile(x as int, y as int, val),
            final(self).wf(),
            final(self).width() == old(self).width(),
            final(self).height() == old(self).height(),
            final(self).cell(x as int, y as int) == val,
            forall|x2: int, y2: int|
                old(self).in_range(x2, y2) && (x2 != x || y2 != y) ==> #[trigger] final(self).cell(
                    x2,
                    y2,
                ) == old(self).cell(x2, y2),
    {
        let mut grid = self.grid;
        grid.set(x, y, val);
        self.grid = grid;
    }

    /// Remove filled rows and columns from the edges
    pub fn move_top_left(&self) -> (r: Position)
        requires
            self.wf(),
        ensures
            r.grid() == self.grid().top_left(),
            self.grid().moved_top_left(r.grid()),
            r.wf(),
    {
        Position { grid: self.grid.move_top_left() }
    }

    /// Rotate grid 90° clockwise
    pub fn rotate(&self) -> (r: Self)
        requires
            self.wf(),
        ensures
            r.wf(),
            r.grid().is_trimmed(),
            r.width() == self.height(),
            r.height() == self.width(),
            forall|x: int, y: int|
                r.in_range(x, y) ==> #[trigger] r.cell(x, y) == self.cell(
                    y,
                    self.height() - 1 - x,
                ),
    {
        Position { grid: self.grid.rotate() }
    }

    /// Flip grid vertically: the tile at `(x, y)` moves to
    /// `(width - 1 - x, y)`.
    pub fn vertical_flip(&self) -> (r: Self)
        requires
            self.wf(),
        ensures
            r.wf(),
            r.grid().is_trimmed(),
            r.width() == self.width(),
            r.height() == self.height(),
            forall|x: int, y: int|
                r.in_range(x, y) ==> #[trigger] r.cell(x, y) == self.cell(self.width() - 1 - x, y),
    {
        let grid = self.grid.remapped(0, self.grid.width(), self.grid.height(), Remap::MirrorColumns);
        proof {
            assert forall|i: int| grid.width() * grid.height() <= i implies !crate::bits::bit_at(
                grid.bits(),
                i,
            ) by {
                crate::bits::lemma_zero_bits(i);
            }
        }
        Position { grid }
    }

    /// Flip grid horizontally: the tile at `(x, y)` moves to
    /// `(x, height - 1 - y)`.
    pub fn horizontal_flip(&self) -> (r: Self)
        requires
            self.wf(),
        ensures
            r.wf(),
            r.grid().is_trimmed(),
            r.width() == self.width(),
            r.height() == self.height(),
            forall|x: int, y: int|
                r.in_range(x, y) ==> #[trigger] r.cell(x, y) == self.cell(x, self.height() - 1 - y),
    {
        let grid = self.grid.remapped(0, self.grid.width(), self.grid.height(), Remap::MirrorRows);
        proof {
            assert forall|i: int| grid.width() * grid.height() <= i implies !crate::bits::bit_at(
                grid.bits(),
                i,
            ) by {
                crate::bits::lemma_zero_bits(i);
            }
        }
        Position { grid }
    }

    /// The position as text, for example `..#|.#.|##.`.
    pub fn to_string(&self) -> (out: String)
        requires
            self.wf(),
        ensures
            out@ == self.grid().text(),
    {
        self.grid.to_string()
    }

    /// Number of tiles that are free.
    pub fn free_places(&self) -> (n: usize)
        requires
            self.wf(),
        ensures
            n == self.grid().free_count(),
    {
        self.grid.free_places()
    }

    /// Whether this position comes before `other` in the order of positions.
    pub fn precedes(&self, other: &Position) -> (r: bool)
        ensures
            r == comes_before(*self, *other),
    {
        let (w1, h1) = (self.grid.width(), self.grid.height());
        let (w2, h2) = (other.grid.width(), other.grid.height());
        w1 < w2 || (w1 == w2 && (h1 < h2 || (h1 == h2 && self.grid.word() < other.grid.word())))
    }

    /// A domino can be put on `(x, y)` and the tile `dx` to the right and
    /// `dy` below.
    pub open spec fn can_place(&self, x: int, y: int, dx: int, dy: int) -> bool {
        &&& self.in_range(x, y)
        &&& self.in_range(x + dx, y + dy)
        &&& !self.cell(x, y)
        &&& !self.cell(x + dx, y + dy)
    }

    /// The position after a domino was put on `(x, y)` and the tile `dx` to
    /// the right and `dy` below, moved to the top left.
    pub open spec fn after_placing(&self, x: int, y: int, dx: int, dy: int) -> Position {
        Self::of(self.grid().with_tile(x, y, true).with_tile(x + dx, y + dy, true).top_left())
    }

    /// The positions that a player can move to who puts a domino on a tile
    /// and the tile `dx` to the right and `dy` below.
    pub open spec fn placements(&self, dx: int, dy: int) -> Set<Position> {
        Set::new(
            |p: Position|
                exists|x: int, y: int|
                    self.can_place(x, y, dx, dy) && p == #[trigger] self.after_placing(x, y, dx, dy),
        )
    }

    /// The positions that Left, who plays upright dominoes, can move to.
    pub open spec fn left_options(&self) -> Set<Position> {
        self.placements(0, 1)
    }

    /// The positions that Right, who plays level dominoes, can move to.
    pub open spec fn right_options(&self) -> Set<Position> {
        self.placements(1, 0)
    }

    /// A position reached by a move has two free tiles less.
    pub proof fn lemma_after_placing(&self, x: int, y: int, dx: int, dy: int)
        requires
            self.wf(),
            self.can_place(x, y, dx, dy),
            dx != 0 || dy != 0,
        ensures
            self.after_placing(x, y, dx, dy).wf(),
            self.after_placing(x, y, dx, dy).grid().free_count() + 2 == self.grid().free_count(),
    {
        let g = self.grid();
        g.lemma_with_tile(x, y, true);
        let g1 = g.with_tile(x, y, true);
        assert(g1.in_range(x + dx, y + dy));
        assert(g1.cell(x + dx, y + dy) == g.cell(x + dx, y + dy));
        g1.lemma_with_tile(x + dx, y + dy, true);
        let g2 = g1.with_tile(x + dx, y + dy, true);
        g.lemma_free_count_with_tile(x, y);
        g1.lemma_free_count_with_tile(x + dx, y + dy);
        g2.lemma_free_count_top_left();
        Self::lemma_of(g2.top_left());
    }

    /// Puts `p` into the strictly sorted list, at its place, unless it is
    /// there already.
    fn insert_sorted(list: &mut Vec<Position>, p: Position)
        requires
            strictly_sorted(old(list)@),
        ensures
            strictly_sorted(final(list)@),
            listed(final(list)@) =~= listed(old(list)@).insert(p),
    {
        let mut k: usize = 0;
        while k < list.len() && list[k].precedes(&p)
            invariant
                k <= list@.len(),
                forall|j: int| 0 <= j < k ==> comes_before(list@[j], p),
            decreases list@.len() - k,
        {
            k += 1;
        }
        if k < list.len() && list[k] == p {
            assert(listed(list@).contains(p));
            return ;
        }
        let ghost before = list@;
        list.insert(k, p);
        proof {
            if k < before.len() {
                // Neither before nor equal, so after.
                Self::lemma_order_total(before[k as int], p);
            }
            assert forall|i: int, j: int| 0 <= i < j < list@.len() implies comes_before(
                list@[i],
                list@[j],
            ) by {
                if j < k {
                    assert(list@[i] == before[i] && list@[j] == before[j]);
                } else if j == k {
                    assert(list@[i] == before[i]);
                } else if i < k {
                    assert(list@[i] == before[i] && list@[j] == before[j - 1]);
                    if j - 1 > k {
                        assert(comes_before(before[k as int], before[j - 1]));
                    }
                } else if i == k {
                    assert(list@[j] == before[j - 1]);
                    if j - 1 > k {
                        assert(comes_before(before[k as int], before[j - 1]));
                        Self::lemma_order_transitive(p, before[k as int], before[j - 1]);
                    }
                } else {
                    assert(list@[i] == before[i - 1] && list@[j] == before[j - 1]);
                }
            }
            assert forall|q: Position| listed(list@).contains(q) == listed(before).insert(p).contains(
                q,
            ) by {
                if listed(list@).contains(q) {
                    let i = choose|i: int| 0 <= i < list@.len() && list@[i] == q;
                    if i < k {
                        assert(before[i] == q);
                    } else if i > k {
                        assert(before[i - 1] == q);
                    }
                }
                if listed(before).contains(q) {
                    let i = choose|i: int| 0 <= i < before.len() && before[i] == q;
                    if i < k {
                        assert(list@[i] == q);
                    } else {
                        assert(list@[i + 1] == q);
                    }
                }
                if q == p {
                    assert(list@[k as int] == q);
                }
            }
        }
    }

    /// Of two different positions one comes before the other.
    pub proof fn lemma_order_total(a: Position, b: Position)
        ensures
            a == b || comes_before(a, b) || comes_before(b, a),
    {
        if !comes_before(a, b) && !comes_before(b, a) {
            SmallBitGrid::lemma_equal_by_parts(a.grid(), b.grid());
            Self::lemma_same_grid(a, b);
        }
    }

    /// The order of positions is transitive.
    pub proof fn lemma_order_transitive(a: Position, b: Position, c: Position)
        requires
            comes_before(a, b),
            comes_before(b, c),
        ensures
            comes_before(a, c),
    {
    }

    /// The positions that a player can move to who puts a domino on a tile
    /// and the tile `dir_x` to the right and `dir_y` below: sorted, each once.
    fn moves_for(&self, dir_x: u8, dir_y: u8) -> (moves: Vec<Position>)
        requires
            self.wf(),
            dir_x + dir_y == 1,
        ensures
            strictly_sorted(moves@),
            listed(moves@) =~= self.placements(dir_x as int, dir_y as int),
    {
        let mut moves: Vec<Position> = Vec::new();
        let width = self.grid.width();
        let height = self.grid.height();
        if height == 0 || width == 0 {
            assert(listed(moves@) =~= self.placements(dir_x as int, dir_y as int));
            return moves;
        }
        let ghost dx = dir_x as int;
        let ghost dy = dir_y as int;
        let mut y: u8 = 0;
        while y < height - dir_y
            invariant
                self.wf(),
                width == self.width(),
                height == self.height(),
                width > 0,
                height > 0,
                dir_x + dir_y == 1,
                dx == dir_x,
                dy == dir_y,
                y <= height - dir_y,
                strictly_sorted(moves@),
                forall|p: Position|
                    listed(moves@).contains(p) <==> exists|x2: int, y2: int|
                        y2 < y && self.can_place(x2, y2, dx, dy) && p == #[trigger] self.after_placing(
                            x2,
                            y2,
                            dx,
                            dy,
                        ),
            decreases height - y,
        {
            let mut x: u8 = 0;
            while x < width - dir_x
                invariant
                    self.wf(),
                    width == self.width(),
                    height == self.height(),
                    width > 0,
                    height > 0,
                    dir_x + dir_y == 1,
                    dx == dir_x,
                    dy == dir_y,
                    y < height - dir_y,
                    x <= width - dir_x,
                    strictly_sorted(moves@),
                    forall|p: Position|
                        listed(moves@).contains(p) <==> exists|x2: int, y2: int|
                            (y2 < y || (y2 == y && x2 < x)) && self.can_place(x2, y2, dx, dy) && p
                                == #[trigger] self.after_placing(x2, y2, dx, dy),
                decreases width - x,
            {
                let next_x = x + dir_x;
                let next_y = y + dir_y;
                let ghost before = moves@;
                if !self.at(x, y) && !self.at(next_x, next_y) {
                    let mut new_grid = *self;
                    new_grid.set(x, y, true);
                    new_grid.set(next_x, next_y, true);
                    let moved = new_grid.move_top_left();
                    proof {
                        Self::lemma_of(
                            self.grid().with_tile(x as int, y as int, true).with_tile(
                                x + dx,
                                y + dy,
                                true,
                            ).top_left(),
                        );
                        Self::lemma_same_grid(moved, self.after_placing(x as int, y as int, dx, dy));
                    }
                    Self::insert_sorted(&mut moves, moved);
                }
                proof {
                    assert forall|p: Position|
                        listed(moves@).contains(p) <==> exists|x2: int, y2: int|
                            (y2 < y || (y2 == y && x2 < x + 1)) && self.can_place(x2, y2, dx, dy) && p
                                == #[trigger] self.after_placing(x2, y2, dx, dy) by {
                        if listed(moves@).contains(p) {
                            if listed(before).contains(p) {
                                let (x2, y2) = choose|x2: int, y2: int|
                                    (y2 < y || (y2 == y && x2 < x)) && self.can_place(x2, y2, dx, dy)
                                        && p == #[trigger] self.after_placing(x2, y2, dx, dy);
                                assert((y2 < y || (y2 == y && x2 < x + 1)) && self.can_place(
                                    x2,
                                    y2,
                                    dx,
                                    dy,
                                ) && p == self.after_placing(x2, y2, dx, dy));
                            } else {
                                assert(self.can_place(x as int, y as int, dx, dy));
                                assert(p == self.after_placing(x as int, y as int, dx, dy));
                            }
                        }
                        if exists|x2: int, y2: int|
                            (y2 < y || (y2 == y && x2 < x + 1)) && self.can_place(x2, y2, dx, dy) && p
                                == #[trigger] self.after_placing(x2, y2, dx, dy) {
                            let (x2, y2) = choose|x2: int, y2: int|
                                (y2 < y || (y2 == y && x2 < x + 1)) && self.can_place(x2, y2, dx, dy)
                                    && p == #[trigger] self.after_placing(x2, y2, dx, dy);
                            if y2 == y && x2 == x {
                                assert(listed(moves@).contains(p));
                            } else {
                                assert((y2 < y || (y2 == y && x2 < x)) && self.can_place(
                                    x2,
                                    y2,
                                    dx,
                                    dy,
                                ) && p == self.after_placing(x2, y2, dx, dy));
                                assert(listed(before).contains(p));
                            }
                        }
                    }
                }
                x += 1;
            }
            proof {
                assert forall|p: Position|
                    listed(moves@).contains(p) <==> exists|x2: int, y2: int|
                        y2 < y + 1 && self.can_place(x2, y2, dx, dy) && p
                            == #[trigger] self.after_placing(x2, y2, dx, dy) by {
                    if listed(moves@).contains(p) {
                        let (x2, y2) = choose|x2: int, y2: int|
                            (y2 < y || (y2 == y && x2 < x)) && self.can_place(x2, y2, dx, dy) && p
                                == #[trigger] self.after_placing(x2, y2, dx, dy);
                        assert(y2 < y + 1 && self.can_place(x2, y2, dx, dy) && p
                            == self.after_placing(x2, y2, dx, dy));
                    }
                    if exists|x2: int, y2: int|
                        y2 < y + 1 && self.can_place(x2, y2, dx, dy) && p
                            == #[trigger] self.after_placing(x2, y2, dx, dy) {
                        let (x2, y2) = choose|x2: int, y2: int|
                            y2 < y + 1 && self.can_place(x2, y2, dx, dy) && p
                                == #[trigger] self.after_placing(x2, y2, dx, dy);
                        assert((y2 < y || (y2 == y && x2 < x)) && self.can_place(x2, y2, dx, dy) && p
                            == self.after_placing(x2, y2, dx, dy));
                    }
                }
            }
            y += 1;
        }
        proof {
            assert forall|p: Position|
                listed(moves@).contains(p) == self.placements(dx, dy).contains(p) by {
                if listed(moves@).contains(p) {
                    let (x2, y2) = choose|x2: int, y2: int|
                        y2 < y && self.can_place(x2, y2, dx, dy) && p == #[trigger] self.after_placing(
                            x2,
                            y2,
                            dx,
                            dy,
                        );
                    assert(self.can_place(x2, y2, dx, dy) && p == self.after_placing(x2, y2, dx, dy));
                }
                if self.placements(dx, dy).contains(p) {
                    let (x2, y2) = choose|x2: int, y2: int|
                        self.can_place(x2, y2, dx, dy) && p == #[trigger] self.after_placing(
                            x2,
                            y2,
                            dx,
                            dy,
                        );
                    assert(y2 < y && self.can_place(x2, y2, dx, dy) && p == self.after_placing(
                        x2,
                        y2,
                        dx,
                        dy,
                    ));
                }
            }
        }
        moves
    }

    /// Get moves for the Left player as positions she can move to: every
    /// position reached by an upright domino, moved to the top left, sorted
    /// and each once.
    pub fn left_moves(&self) -> (moves: Vec<Position>)
        requires
            self.wf(),
        ensures
            strictly_sorted(moves@),
            listed(moves@) =~= self.left_options(),
    {
        self.moves_for(0, 1)
    }

    /// Get moves for the Right player as positions he can move to: every
    /// position reached by a level domino, moved to the top left, sorted and
    /// each once.
    pub fn right_moves(&self) -> (moves: Vec<Position>)
        requires
            self.wf(),
        ensures
            strictly_sorted(moves@),
            listed(moves@) =~= self.right_options(),
    {
        self.moves_for(1, 0)
    }

    /// Two free tiles that lie side by side.
    pub open spec fn linked(&self, x1: int, y1: int, x2: int, y2: int) -> bool {
        &&& self.in_range(x1, y1)
        &&& self.in_range(x2, y2)
        &&& !self.cell(x1, y1)
        &&& !self.cell(x2, y2)
        &&& (x1 == x2 && (y1 == y2 + 1 || y2 == y1 + 1)) || (y1 == y2 && (x1 == x2 + 1 || x2 == x1
            + 1))
    }

    /// `path` goes from the free tile `(sx, sy)` to the tile `(x, y)`, each
    /// step from a free tile to a free tile beside it.
    pub open spec fn is_path(&self, path: Seq<(int, int)>, sx: int, sy: int, x: int, y: int) -> bool {
        &&& path.len() >= 1
        &&& path[0] == (sx, sy)
        &&& path[path.len() - 1] == (x, y)
        &&& self.in_range(sx, sy)
        &&& !self.cell(sx, sy)
        &&& forall|i: int|
            0 <= i < path.len() - 1 ==> self.linked(
                (#[trigger] path[i]).0,
                path[i].1,
                path[i + 1].0,
                path[i + 1].1,
            )
    }

    /// The tile `(x, y)` belongs to the region of free tiles of `(sx, sy)`.
    pub open spec fn connected(&self, sx: int, sy: int, x: int, y: int) -> bool {
        exists|path: Seq<(int, int)>| self.is_path(path, sx, sy, x, y)
    }

    /// `g` is the grid of this size in which exactly the tiles of the region
    /// of `(sx, sy)` are free.
    pub open spec fn is_region_grid(&self, sx: int, sy: int, g: SmallBitGrid) -> bool {
        &&& g.wf()
        &&& g.width() == self.width()
        &&& g.height() == self.height()
        &&& forall|x: int, y: int|
            self.in_range(x, y) ==> #[trigger] g.cell(x, y) == !self.connected(sx, sy, x, y)
    }

    /// The region of free tiles of `(sx, sy)` as a position of its own,
    /// moved to the top left.
    pub open spec fn region(&self, sx: int, sy: int) -> Position {
        Self::of((choose|g: SmallBitGrid| self.is_region_grid(sx, sy, g)).top_left())
    }

    /// Column of the `n`-th tile, counted row by row.
    pub open spec fn column_of(&self, n: int) -> int {
        if self.width() == 0 {
            0
        } else {
            n % (self.width() as int)
        }
    }

    /// Row of the `n`-th tile, counted row by row.
    pub open spec fn row_of(&self, n: int) -> int {
        if self.width() == 0 {
            0
        } else {
            n / (self.width() as int)
        }
    }

    /// The tile `(x, y)` belongs to the region of one of the first `n`
    /// tiles that start a region.
    pub open spec fn covered(&self, n: int, x: int, y: int) -> bool
        decreases n, 0int,
    {
        if n <= 0 {
            false
        } else {
            self.covered(n - 1, x, y) || (self.starts_region(n - 1) && self.connected(
                self.column_of(n - 1),
                self.row_of(n - 1),
                x,
                y,
            ))
        }
    }

    /// The `n`-th tile starts a region: it is free and belongs to the region
    /// of no tile before it.
    pub open spec fn starts_region(&self, n: int) -> bool
        decreases n, 1int,
    {
        &&& n >= 0
        &&& self.in_range(self.column_of(n), self.row_of(n))
        &&& !self.cell(self.column_of(n), self.row_of(n))
        &&& !self.covered(n, self.column_of(n), self.row_of(n))
    }

    /// The regions that start among the first `n` tiles, in that order.
    pub open spec fn regions(&self, n: int) -> Seq<Position>
        decreases n,
    {
        if n <= 0 {
            Seq::<Position>::empty()
        } else if self.starts_region(n - 1) {
            self.regions(n - 1).push(self.region(self.column_of(n - 1), self.row_of(n - 1)))
        } else {
            self.regions(n - 1)
        }
    }

    /// The regions of free tiles of the position, each as a position of its
    /// own, in the order in which their first tiles come row by row.
    pub open spec fn components(&self) -> Seq<Position> {
        self.regions(self.width() * self.height())
    }

    /// Every linked tile beside `(x, y)` is free in `found`.
    pub open spec fn closed_at(&self, found: SmallBitGrid, x: int, y: int) -> bool {
        forall|x2: int, y2: int| #[trigger] self.linked(x, y, x2, y2) ==> !found.cell(x2, y2)
    }

    /// State of the search for the region of `(sx, sy)`: the tiles free in
    /// `found` belong to the region, and each of them waits in the queue or
    /// has all its neighbours found.
    pub open spec fn searching(
        &self,
        sx: int,
        sy: int,
        found: SmallBitGrid,
        queue: Seq<(u8, u8)>,
        head: int,
    ) -> bool {
        &&& found.wf()
        &&& found.width() == self.width()
        &&& found.height() == self.height()
        &&& 0 <= head <= queue.len()
        &&& queue.len() == found.free_count()
        &&& !found.cell(sx, sy)
        &&& self.in_range(sx, sy)
        &&& forall|j: int|
            0 <= j < queue.len() ==> self.in_range(
                (#[trigger] queue[j]).0 as int,
                queue[j].1 as int,
            ) && !found.cell(queue[j].0 as int, queue[j].1 as int)
        &&& forall|x: int, y: int|
            self.in_range(x, y) && !#[trigger] found.cell(x, y) ==> self.connected(sx, sy, x, y)
        &&& forall|x: int, y: int|
            self.in_range(x, y) && !#[trigger] found.cell(x, y) ==> self.closed_at(found, x, y)
                || exists|j: int|
                head <= j < queue.len() && #[trigger] queue[j] == (x as u8, y as u8)
    }

    /// Takes the tile `(nx, ny)` beside the tile at the head of the queue
    /// into the search, if it is free and not found yet.
    fn visit(
        &self,
        found: &mut SmallBitGrid,
        visited: &mut SmallBitGrid,
        queue: &mut VecDeque<(u8, u8)>,
        Ghost(start): Ghost<(int, int)>,
        Ghost(all): Ghost<Seq<(u8, u8)>>,
        Ghost(head): Ghost<int>,
        nx: u8,
        ny: u8,
    ) -> (more: Ghost<Seq<(u8, u8)>>)
        requires
            self.wf(),
            self.searching(start.0, start.1, *old(found), all, head),
            0 <= head < all.len(),
            old(queue)@ == all.subrange(head + 1, all.len() as int),
            self.in_range(nx as int, ny as int),
            old(visited).wf(),
            old(visited).width() == self.width(),
            old(visited).height() == self.height(),
            (nx == all[head].0 && (ny == all[head].1 + 1 || all[head].1 == ny + 1)) || (ny
                == all[head].1 && (nx == all[head].0 + 1 || all[head].0 == nx + 1)),
        ensures
            self.searching(start.0, start.1, *final(found), more@, head),
            more@.len() >= all.len(),
            more@[head] == all[head],
            final(queue)@ == more@.subrange(head + 1, more@.len() as int),
            self.cell(nx as int, ny as int) || !final(found).cell(nx as int, ny as int),
            forall|x: int, y: int|
                self.in_range(x, y) && !old(found).cell(x, y) ==> !#[trigger] final(found).cell(x, y),
            final(visited).wf(),
            final(visited).width() == self.width(),
            final(visited).height() == self.height(),
            forall|x: int, y: int|
                self.in_range(x, y) ==> #[trigger] final(visited).cell(x, y) == (old(visited).cell(
                    x,
                    y,
                ) || (old(found).cell(x, y) && !final(found).cell(x, y))),
    {
        let ghost q0 = all;
        let ghost f0 = *found;
        let ghost (qx, qy) = (q0[head].0 as int, q0[head].1 as int);
        if !self.at(nx, ny) && found.get(nx, ny) {
            proof {
                f0.lemma_free_count_without_tile(nx as int, ny as int);
                f0.lemma_with_tile(nx as int, ny as int, false);
            }
            found.set(nx, ny, false);
            visited.set(nx, ny, true);
            queue.push_back((nx, ny));
            let ghost now = all.push((nx, ny));
            proof {
                assert(queue@ =~= now.subrange(head + 1, now.len() as int));
                let sx = start.0;
                let sy = start.1;
                assert(self.linked(qx, qy, nx as int, ny as int)) by {
                    self.lemma_connected_is_free(sx, sy, qx, qy);
                }
                assert forall|x: int, y: int|
                    self.in_range(x, y) && !#[trigger] found.cell(x, y) implies self.connected(
                    sx,
                    sy,
                    x,
                    y,
                ) by {
                    if x == nx && y == ny {
                        let path = choose|path: Seq<(int, int)>| self.is_path(path, sx, sy, qx, qy);
                        let longer = path.push((x, y));
                        assert forall|i: int| 0 <= i < longer.len() - 1 implies self.linked(
                            (#[trigger] longer[i]).0,
                            longer[i].1,
                            longer[i + 1].0,
                            longer[i + 1].1,
                        ) by {
                            if i < path.len() - 1 {
                                assert(longer[i] == path[i] && longer[i + 1] == path[i + 1]);
                            } else {
                                assert(longer[i] == path[i]);
                            }
                        }
                        assert(self.is_path(longer, sx, sy, x, y));
                    } else {
                        assert(!f0.cell(x, y));
                    }
                }
                assert forall|x: int, y: int|
                    self.in_range(x, y) && !#[trigger] found.cell(x, y) implies self.closed_at(
                    *found,
                    x,
                    y,
                ) || exists|j: int|
                    head <= j < now.len() && #[trigger] now[j] == (x as u8, y as u8) by {
                    if x == nx && y == ny {
                        assert(now[q0.len() as int] == (x as u8, y as u8));
                    } else {
                        assert(!f0.cell(x, y));
                        if self.closed_at(f0, x, y) {
                            assert forall|x2: int, y2: int| #[trigger]
                                self.linked(x, y, x2, y2) implies !found.cell(x2, y2) by {
                                assert(!f0.cell(x2, y2));
                            }
                        } else {
                            let j = choose|j: int|
                                head <= j < q0.len() && #[trigger] q0[j] == (x as u8, y as u8);
                            assert(now[j] == (x as u8, y as u8));
                        }
                    }
                }
                assert forall|j: int| 0 <= j < now.len() implies self.in_range(
                    (#[trigger] now[j]).0 as int,
                    now[j].1 as int,
                ) && !found.cell(now[j].0 as int, now[j].1 as int) by {
                    if j < q0.len() {
                        assert(now[j] == q0[j]);
                        assert(!f0.cell(q0[j].0 as int, q0[j].1 as int));
                    }
                }
            }
            Ghost(now)
        } else {
            Ghost(all)
        }
    }

    /// A tile of a region is a free tile of the grid.
    pub proof fn lemma_connected_is_free(&self, sx: int, sy: int, x: int, y: int)
        requires
            self.connected(sx, sy, x, y),
        ensures
            self.in_range(x, y),
            !self.cell(x, y),
    {
        let path = choose|path: Seq<(int, int)>| self.is_path(path, sx, sy, x, y);
        if path.len() > 1 {
            let i = path.len() - 2;
            assert(self.linked(path[i].0, path[i].1, path[i + 1].0, path[i + 1].1));
        }
    }

    /// Once every found tile has all its neighbours found, every tile at the
    /// end of a path from the first tile is found.
    pub proof fn lemma_search_complete(
        &self,
        sx: int,
        sy: int,
        found: SmallBitGrid,
        path: Seq<(int, int)>,
        x: int,
        y: int,
    )
        requires
            self.in_range(sx, sy),
            !found.cell(sx, sy),
            forall|x: int, y: int|
                self.in_range(x, y) && !#[trigger] found.cell(x, y) ==> self.closed_at(found, x, y),
            self.is_path(path, sx, sy, x, y),
        ensures
            !found.cell(x, y),
        decreases path.len(),
    {
        if path.len() > 1 {
            let shorter = path.drop_last();
            let i = path.len() - 2;
            let (px, py) = path[i];
            assert(self.linked(path[i].0, path[i].1, path[i + 1].0, path[i + 1].1));
            assert forall|j: int| 0 <= j < shorter.len() - 1 implies self.linked(
                (#[trigger] shorter[j]).0,
                shorter[j].1,
                shorter[j + 1].0,
                shorter[j + 1].1,
            ) by {
                assert(shorter[j] == path[j] && shorter[j + 1] == path[j + 1]);
            }
            assert(self.is_path(shorter, sx, sy, px, py));
            self.lemma_search_complete(sx, sy, found, shorter, px, py);
            assert(self.closed_at(found, px, py));
        }
    }

    /// The region of free tiles of the free tile `(x, y)`, as a position of
    /// its own; its tiles are marked in `visited`.
    fn bfs(&self, visited: &mut SmallBitGrid, x: u8, y: u8) -> (r: Position)
        requires
            self.wf(),
            self.in_range(x as int, y as int),
            !self.cell(x as int, y as int),
            old(visited).wf(),
            old(visited).width() == self.width(),
            old(visited).height() == self.height(),
        ensures
            r == self.region(x as int, y as int),
            r.wf(),
            r.grid().free_count() <= self.grid().free_count(),
            final(visited).wf(),
            final(visited).width() == self.width(),
            final(visited).height() == self.height(),
            forall|x2: int, y2: int|
                self.in_range(x2, y2) ==> #[trigger] final(visited).cell(x2, y2) == (old(
                    visited,
                ).cell(x2, y2) || self.connected(x as int, y as int, x2, y2)),
    {
        let width = self.grid.width();
        let height = self.grid.height();
        let ghost sx = x as int;
        let ghost sy = y as int;
        let ghost v0 = *visited;
        let mut found = match SmallBitGrid::filled(width, height) {
            Some(g) => g,
            None => {
                assert(false);
                SmallBitGrid::zero_size()
            },
        };
        proof {
            found.lemma_free_count_none();
            found.lemma_free_count_without_tile(sx, sy);
            found.lemma_with_tile(sx, sy, false);
        }
        let ghost filled = found;
        found.set(x, y, false);
        visited.set(x, y, true);
        let mut queue: VecDeque<(u8, u8)> = VecDeque::new();
        queue.push_back((x, y));
        let ghost mut all: Seq<(u8, u8)> = seq![(x, y)];
        let ghost mut head: int = 0;
        proof {
            assert(queue@ =~= all.subrange(0, 1));
            assert(self.is_path(seq![(sx, sy)], sx, sy, sx, sy));
            assert forall|x2: int, y2: int|
                self.in_range(x2, y2) && !#[trigger] found.cell(x2, y2) implies self.connected(
                sx,
                sy,
                x2,
                y2,
            ) by {
                assert(x2 == sx && y2 == sy);
            }
            assert forall|x2: int, y2: int|
                self.in_range(x2, y2) && !#[trigger] found.cell(x2, y2) implies self.closed_at(
                found,
                x2,
                y2,
            ) || exists|j: int|
                head <= j < all.len() && #[trigger] all[j] == (x2 as u8, y2 as u8) by {
                assert(x2 == sx && y2 == sy);
                assert(all[0] == (x2 as u8, y2 as u8));
            }
        }
        while queue.len() > 0
            invariant
                self.wf(),
                width == self.width(),
                height == self.height(),
                sx == x,
                sy == y,
                0 <= head <= all.len(),
                queue@ == all.subrange(head, all.len() as int),
                self.searching(sx, sy, found, all, head),
                visited.wf(),
                visited.width() == self.width(),
                visited.height() == self.height(),
                forall|x2: int, y2: int|
                    self.in_range(x2, y2) ==> #[trigger] visited.cell(x2, y2) == (v0.cell(x2, y2)
                        || !found.cell(x2, y2)),
            decreases 64 - head,
        {
            proof {
                found.lemma_free_count_bound();
            }
            let (qx, qy) = match queue.pop_front() {
                Some(tile) => tile,
                None => (x, y),
            };
            assert(qx == all[head].0 && qy == all[head].1);
            assert(queue@ =~= all.subrange(head + 1, all.len() as int));
            let ghost f0 = found;
            if qx + 1 < width {
                let more = self.visit(
                    &mut found,
                    visited,
                    &mut queue,
                    Ghost((sx, sy)),
                    Ghost(all),
                    Ghost(head),
                    qx + 1,
                    qy,
                );
                proof {
                    all = more@;
                }
            }
            if qx > 0 {
                let more = self.visit(
                    &mut found,
                    visited,
                    &mut queue,
                    Ghost((sx, sy)),
                    Ghost(all),
                    Ghost(head),
                    qx - 1,
                    qy,
                );
                proof {
                    all = more@;
                }
            }
            if qy + 1 < height {
                let more = self.visit(
                    &mut found,
                    visited,
                    &mut queue,
                    Ghost((sx, sy)),
                    Ghost(all),
                    Ghost(head),
                    qx,
                    qy + 1,
                );
                proof {
                    all = more@;
                }
            }
            if qy > 0 {
                let more = self.visit(
                    &mut found,
                    visited,
                    &mut queue,
                    Ghost((sx, sy)),
                    Ghost(all),
                    Ghost(head),
                    qx,
                    qy - 1,
                );
                proof {
                    all = more@;
                }
            }
            proof {
                assert(self.closed_at(found, qx as int, qy as int)) by {
                    assert forall|x2: int, y2: int| #[trigger]
                        self.linked(qx as int, qy as int, x2, y2) implies !found.cell(x2, y2) by {
                        if x2 == qx + 1 && y2 == qy {
                        } else if x2 == qx - 1 && y2 == qy {
                        } else if x2 == qx && y2 == qy + 1 {
                        } else {
                            assert(x2 == qx && y2 == qy - 1);
                        }
                    }
                }
                assert forall|x2: int, y2: int|
                    self.in_range(x2, y2) && !#[trigger] found.cell(x2, y2) implies self.closed_at(
                    found,
                    x2,
                    y2,
                ) || exists|j: int|
                    head + 1 <= j < all.len() && #[trigger] all[j] == (x2 as u8, y2 as u8) by {
                    if !self.closed_at(found, x2, y2) {
                        let j = choose|j: int|
                            head <= j < all.len() && #[trigger] all[j] == (x2 as u8, y2 as u8);
                        assert(j != head);
                    }
                }
                head = head + 1;
            }
        }
        assert(head == all.len());
        proof {
            assert forall|x2: int, y2: int| self.in_range(x2, y2) implies #[trigger] found.cell(
                x2,
                y2,
            ) == !self.connected(sx, sy, x2, y2) by {
                if self.connected(sx, sy, x2, y2) {
                    let path = choose|path: Seq<(int, int)>| self.is_path(path, sx, sy, x2, y2);
                    self.lemma_search_complete(sx, sy, found, path, x2, y2);
                }
            }
            assert(self.is_region_grid(sx, sy, found));
            let chosen = choose|g: SmallBitGrid| self.is_region_grid(sx, sy, g);
            found.lemma_top_left_by_cells(chosen);
            Self::lemma_of(chosen.top_left());
            // No more free tiles than the position has.
            assert forall|x2: int, y2: int|
                found.in_range(x2, y2) && !found.cell(x2, y2) implies !self.grid().cell(x2, y2) by {
                self.lemma_connected_is_free(sx, sy, x2, y2);
            }
            found.lemma_free_count_monotone(self.grid());
            found.lemma_free_count_top_left();
        }
        let r = Position { grid: found.move_top_left() };
        proof {
            Self::lemma_same_grid(r, self.region(sx, sy));
        }
        r
    }

    /// Get decompisitons of given position: its regions of free tiles, each
    /// as a position of its own, moved to the top left.
    pub fn decompositions(&self) -> (parts: Vec<Position>)
        requires
            self.wf(),
        ensures
            parts@ == self.components(),
            forall|k: int|
                0 <= k < parts@.len() ==> (#[trigger] parts@[k]).wf() && parts@[k].grid().free_count()
                    <= self.grid().free_count(),
    {
        let width = self.grid.width();
        let height = self.grid.height();
        let mut visited = match SmallBitGrid::empty(width, height) {
            Some(g) => g,
            None => {
                assert(false);
                SmallBitGrid::zero_size()
            },
        };
        let mut parts: Vec<Position> = Vec::new();
        let mut n: usize = 0;
        let mut y: u8 = 0;
        while y < height
            invariant
                self.wf(),
                width == self.width(),
                height == self.height(),
                y <= height,
                n == width * y,
                visited.wf(),
                visited.width() == width,
                visited.height() == height,
                parts@ == self.regions(n as int),
                forall|x2: int, y2: int|
                    self.in_range(x2, y2) ==> #[trigger] visited.cell(x2, y2) == self.covered(
                        n as int,
                        x2,
                        y2,
                    ),
                forall|k: int|
                    0 <= k < parts@.len() ==> (#[trigger] parts@[k]).wf()
                        && parts@[k].grid().free_count() <= self.grid().free_count(),
            decreases height - y,
        {
            let mut x: u8 = 0;
            while x < width
                invariant
                    self.wf(),
                    width == self.width(),
                    height == self.height(),
                    y < height,
                    x <= width,
                    n == width * y + x,
                    visited.wf(),
                    visited.width() == width,
                    visited.height() == height,
                    parts@ == self.regions(n as int),
                    forall|x2: int, y2: int|
                        self.in_range(x2, y2) ==> #[trigger] visited.cell(x2, y2) == self.covered(
                            n as int,
                            x2,
                            y2,
                        ),
                    forall|k: int|
                        0 <= k < parts@.len() ==> (#[trigger] parts@[k]).wf()
                            && parts@[k].grid().free_count() <= self.grid().free_count(),
                decreases width - x,
            {
                proof {
                    lemma_tile_index_bound(width as int, height as int, x as int, y as int);
                    lemma_tile_index_split(width as int, x as int, y as int);
                    assert(self.column_of(n as int) == x && self.row_of(n as int) == y);
                }
                if !self.at(x, y) && !visited.get(x, y) {
                    let part = self.bfs(&mut visited, x, y);
                    parts.push(part);
                    proof {
                        assert(self.starts_region(n as int));
                    }
                } else {
                    proof {
                        assert(!self.starts_region(n as int));
                    }
                }
                n += 1;
                x += 1;
            }
            proof {
                assert(width * (y + 1) == width * y + width) by (nonlinear_arith);
            }
            y += 1;
        }
        parts
    }
}

impl Position {
    /// The picture of one taken tile whose top left corner is `(x, y)`.
    pub open spec fn latex_tile(x: int, y: int) -> Seq<char> {
        "\\fill[fill=gray] ("@ + decimal(x as nat) + ","@ + decimal(y as nat) + ") rectangle ("@
            + decimal((x + 1) as nat) + ","@ + decimal((y + 1) as nat) + "); "@
    }

    /// The pictures of the taken tiles among the first `n` tiles, row by
    /// row.
    pub open spec fn latex_tiles(&self, n: int) -> Seq<char>
        decreases n,
    {
        if n <= 0 {
            Seq::<char>::empty()
        } else if self.cell(self.column_of(n - 1), self.row_of(n - 1)) {
            self.latex_tiles(n - 1) + Self::latex_tile(self.column_of(n - 1), self.row_of(n - 1))
        } else {
            self.latex_tiles(n - 1)
        }
    }

    /// The position as a TikZ picture at the scale that `scale` spells.
    pub open spec fn scaled_latex_text(&self, scale: Seq<char>) -> Seq<char> {
        "\\begin{tikzpicture}[scale="@ + scale + "] "@ + self.latex_tiles(
            self.width() * self.height(),
        ) + "\\draw[step=1cm,black] (0,0) grid ("@ + decimal(self.width() as nat) + ", "@
            + decimal(self.height() as nat) + "); \\end{tikzpicture}"@
    }

    /// The position as a TikZ picture of full size.
    pub open spec fn latex_text(&self) -> Seq<char> {
        self.scaled_latex_text("1"@)
    }

    /// Output positions as LaTeX TikZ picture where empty tiles are 1x1 tiles
    pub fn to_latex(&self) -> (out: String)
        requires
            self.wf(),
        ensures
            out@ == self.latex_text(),
    {
        self.to_latex_scaled("1")
    }

    /// The position as a TikZ picture whose scale is the number that
    /// `scale` spells: taken tiles are grey squares of side 1.
    pub fn to_latex_scaled(&self, scale: &str) -> (out: String)
        requires
            self.wf(),
        ensures
            out@ == self.scaled_latex_text(scale@),
    {
        let width = self.grid.width();
        let height = self.grid.height();
        let mut buf: Vec<char> = Vec::new();
        push_str(&mut buf, "\\begin{tikzpicture}[scale=");
        push_str(&mut buf, scale);
        push_str(&mut buf, "] ");
        let ghost head = buf@;
        let mut n: usize = 0;
        let mut y: u8 = 0;
        while y < height
            invariant
                self.wf(),
                width == self.width(),
                height == self.height(),
                y <= height,
                n == width * y,
                buf@ == head + self.latex_tiles(n as int),
            decreases height - y,
        {
            let mut x: u8 = 0;
            while x < width
                invariant
                    self.wf(),
                    width == self.width(),
                    height == self.height(),
                    y < height,
                    x <= width,
                    n == width * y + x,
                    buf@ == head + self.latex_tiles(n as int),
                decreases width - x,
            {
                proof {
                    lemma_tile_index_bound(width as int, height as int, x as int, y as int);
                    lemma_tile_index_split(width as int, x as int, y as int);
                    assert(self.column_of(n as int) == x && self.row_of(n as int) == y);
                    assert((n + 1) - 1 == n);
                }
                let ghost before = buf@;
                if self.at(x, y) {
                    push_str(&mut buf, "\\fill[fill=gray] (");
                    push_decimal(&mut buf, x as u64);
                    push_str(&mut buf, ",");
                    push_decimal(&mut buf, y as u64);
                    push_str(&mut buf, ") rectangle (");
                    push_decimal(&mut buf, x as u64 + 1);
                    push_str(&mut buf, ",");
                    push_decimal(&mut buf, y as u64 + 1);
                    push_str(&mut buf, "); ");
                    assert(buf@ =~= before + Self::latex_tile(x as int, y as int));
                }
                assert(buf@ =~= head + self.latex_tiles(n + 1));
                n += 1;
                x += 1;
            }
            proof {
                assert(width * (y + 1) == width * y + width) by (nonlinear_arith);
            }
            y += 1;
        }
        let ghost tiles = buf@;
        push_str(&mut buf, "\\draw[step=1cm,black] (0,0) grid (");
        push_decimal(&mut buf, width as u64);
        push_str(&mut buf, ", ");
        push_decimal(&mut buf, height as u64);
        push_str(&mut buf, "); \\end{tikzpicture}");
        assert(buf@ =~= self.scaled_latex_text(scale@));
        string_of(&buf)
    }
}

impl PartizanGame for Position {
    /// A position is what it is kept as.
    type State = Position;

    open spec fn state(&self) -> Position {
        *self
    }

    open spec fn valid(s: Position) -> bool {
        s.grid().wf()
    }

    /// Every move takes two free tiles, so the free tiles bound the moves.
    open spec fn rank(s: Position) -> nat {
        s.grid().free_count()
    }

    /// A position is kept moved to the top left.
    open spec fn normal(s: Position) -> Position {
        Position::of(s.grid().top_left())
    }

    open spec fn left_options(s: Position) -> Set<Position> {
        s.placements(0, 1)
    }

    open spec fn right_options(s: Position) -> Set<Position> {
        s.placements(1, 0)
    }

    open spec fn components(s: Position) -> Seq<Position> {
        s.regions(s.width() * s.height())
    }

    /// The rules of Domineering tell the value of no position.
    open spec fn reduced(s: Position) -> Option<int> {
        None
    }

    open spec fn fingerprint_spec(s: Position) -> u64 {
        s.grid().bits().wrapping_mul(0x100_0000_01b3).wrapping_add(
            ((s.width() as u64) * 256 + (s.height() as u64)) as u64,
        )
    }

    fn normalized(&self) -> (r: Self) {
        let r = self.move_top_left();
        proof {
            Position::lemma_of(self.grid().top_left());
            Position::lemma_same_grid(r, Self::normal(*self));
            self.grid().lemma_free_count_top_left();
        }
        r
    }

    fn left_moves(&self) -> (moves: Vec<Self>) {
        let moves = self.moves_for(0, 1);
        proof {
            self.lemma_moves_rank(moves@, 0, 1);
            assert forall|s: Position|
                self.placements(0, 1).contains(s) <==> exists|k: int|
                    0 <= k < moves@.len() && (#[trigger] moves@[k]).state() == s by {
                assert(listed(moves@).contains(s) == self.placements(0, 1).contains(s));
            }
        }
        moves
    }

    fn right_moves(&self) -> (moves: Vec<Self>) {
        let moves = self.moves_for(1, 0);
        proof {
            self.lemma_moves_rank(moves@, 1, 0);
            assert forall|s: Position|
                self.placements(1, 0).contains(s) <==> exists|k: int|
                    0 <= k < moves@.len() && (#[trigger] moves@[k]).state() == s by {
                assert(listed(moves@).contains(s) == self.placements(1, 0).contains(s));
            }
        }
        moves
    }

    fn decompositions(&self) -> (parts: Vec<Self>) {
        Position::decompositions(self)
    }

    fn reductions(&self) -> (r: Option<i64>) {
        None
    }

    fn fingerprint(&self) -> (r: u64) {
        self.grid.word().wrapping_mul(0x100_0000_01b3).wrapping_add(
            (self.grid.width() as u64) * 256 + (self.grid.height() as u64),
        )
    }

    fn same_as(&self, other: &Self) -> (r: bool) {
        *self == *other
    }

    fn duplicate(&self) -> (r: Self) {
        *self
    }
}

impl Position {
    /// The moves of a list that names the placements are positions of lower
    /// rank.
    proof fn lemma_moves_rank(&self, moves: Seq<Position>, dx: int, dy: int)
        requires
            self.wf(),
            dx != 0 || dy != 0,
            listed(moves) =~= self.placements(dx, dy),
        ensures
            members(moves) =~= self.placements(dx, dy),
            forall|k: int|
                0 <= k < moves.len() ==> (#[trigger] moves[k]).grid().wf()
                    && moves[k].grid().free_count() < self.grid().free_count(),
    {
        assert(members(moves) =~= listed(moves));
        assert forall|k: int| 0 <= k < moves.len() implies (#[trigger] moves[k]).grid().wf()
            && moves[k].grid().free_count() < self.grid().free_count() by {
            assert(listed(moves).contains(moves[k]));
            assert(self.placements(dx, dy).contains(moves[k]));
            let (x, y) = choose|x: int, y: int|
                self.can_place(x, y, dx, dy) && moves[k] == #[trigger] self.after_placing(
                    x,
                    y,
                    dx,
                    dy,
                );
            self.lemma_after_placing(x, y, dx, dy);
        }
    }

    /// Get the canonical form of the position.
    ///
    /// The table `cache` keeps the form under the position moved to the top
    /// left: it is the sum of the forms of the regions of free tiles, each of
    /// which is the game whose left options are the forms of the positions
    /// after an upright domino and whose right options are those after a level
    /// domino.
    pub fn canonical_form(&self, cache: &mut TranspositionTable<Position>) -> (r: Game)
        requires
            old(cache).wf(),
            self.wf(),
        ensures
            final(cache).wf(),
            final(cache).grows_from(old(cache)),
            final(cache).games().has(r),
            final(cache).grids().contains_key(Position::of(self.grid().top_left())),
            final(cache).grids()[Position::of(self.grid().top_left())] == r.id,
    {
        cache.canonical_form(self)
    }
}

} // verus!

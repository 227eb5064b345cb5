//! Ski Jumps game

use crate::grid::grid_text::{is_rows, lemma_rows_unique, scan_rows, Alphabet};
use crate::grid::small_bit_grid::{lemma_tile_index_bound, lemma_tile_index_split};
use crate::grid::vec_grid::VecGrid;
use crate::short::partizan::game_storage::Game;
use crate::short::partizan::partizan_game::PartizanGame;
use crate::short::partizan::transposition_table::TranspositionTable;
use crate::text::{chars_of, string_of};
use vstd::prelude::*;

verus! {

/// Skier type
#[derive(Debug, Hash, Clone, Copy, PartialEq, Eq, PartialOrd, Ord, Structural)]
pub enum Skier {
    /// Skier that can jump over skiers below
    Jumper,
    /// Skier that was jumped over tunrs into slipper and cannot jump anymore
    Slipper,
}

/// Ski Jumps game grid tile
#[derive(Debug, Hash, Clone, Copy, PartialEq, Eq, PartialOrd, Ord, Structural)]
pub enum Tile {
    /// Empty tile, without skiers
    Empty,
    /// Left player's skier
    Left(Skier),
    /// Right player's skier
    Right(Skier),
}

impl Tile {
    /// The character that stands for the tile.
    pub open spec fn to_char(self) -> char {
        match self {
            Tile::Empty => '.',
            Tile::Left(Skier::Jumper) => 'L',
            Tile::Left(Skier::Slipper) => 'l',
            Tile::Right(Skier::Jumper) => 'R',
            Tile::Right(Skier::Slipper) => 'r',
        }
    }

    /// The character that stands for the tile.
    pub fn tile_to_char(self) -> (c: char)
        ensures
            c == self.to_char(),
            Alphabet::Skiers.allows(c),
    {
        match self {
            Tile::Empty => '.',
            Tile::Left(Skier::Jumper) => 'L',
            Tile::Left(Skier::Slipper) => 'l',
            Tile::Right(Skier::Jumper) => 'R',
            Tile::Right(Skier::Slipper) => 'r',
        }
    }

    /// The tile that the character stands for, if it stands for one.
    pub fn char_to_tile(input: char) -> (t: Option<Tile>)
        ensures
            t is Some <==> Alphabet::Skiers.allows(input),
            t matches Some(tile) ==> tile.to_char() == input,
    {
        if input == '.' {
            Some(Tile::Empty)
        } else if input == 'L' {
            Some(Tile::Left(Skier::Jumper))
        } else if input == 'l' {
            Some(Tile::Left(Skier::Slipper))
        } else if input == 'R' {
            Some(Tile::Right(Skier::Jumper))
        } else if input == 'r' {
            Some(Tile::Right(Skier::Slipper))
        } else {
            None
        }
    }

    /// The tile holds a skier of Left.
    pub open spec fn is_left(self) -> bool {
        self is Left
    }

    /// The tile holds a skier of Right.
    pub open spec fn is_right(self) -> bool {
        self is Right
    }
}

/// What a position of Ski Jumps is: a slope of `width` by `height` tiles,
/// kept row by row from the top.
pub struct Slope {
    pub width: int,
    pub height: int,
    pub tiles: Seq<Tile>,
}

impl Slope {
    /// There is one tile for every place, and no side is longer than 255.
    pub open spec fn wf(self) -> bool {
        &&& 0 <= self.width <= 255
        &&& 0 <= self.height <= 255
        &&& self.tiles.len() == self.width * self.height
    }

    /// Whether `(x, y)` names a tile.
    pub open spec fn in_range(self, x: int, y: int) -> bool {
        0 <= x < self.width && 0 <= y < self.height
    }

    /// The tile at `(x, y)`.
    pub open spec fn tile(self, x: int, y: int) -> Tile {
        self.tiles[self.width * y + x]
    }

    /// The slope with the tile at `(x, y)` replaced by `t`.
    pub open spec fn put(self, x: int, y: int, t: Tile) -> Slope {
        Slope { tiles: self.tiles.update(self.width * y + x, t), ..self }
    }

    /// The tiles of row `y` from column `from` up to column `to` are empty.
    pub open spec fn clear(self, y: int, from: int, to: int) -> bool {
        forall|k: int| from <= k < to ==> #[trigger] self.tile(k, y) == Tile::Empty
    }

    /// The skier of Left at `(x, y)` can slide to the column `dx` to its
    /// right, or off the slope where `dx` is the width: nothing is in its way.
    pub open spec fn can_slide_right(self, x: int, y: int, dx: int) -> bool {
        &&& self.in_range(x, y)
        &&& self.tile(x, y).is_left()
        &&& x < dx <= self.width
        &&& self.clear(
            y,
            x + 1,
            if dx < self.width {
                dx + 1
            } else {
                dx
            },
        )
    }

    /// The slope after the skier at `(x, y)` slid to the column `dx`, or off
    /// the slope where `dx` is beyond it.
    pub open spec fn slid(self, x: int, y: int, dx: int) -> Slope {
        if 0 <= dx < self.width {
            self.put(x, y, Tile::Empty).put(dx, y, self.tile(x, y))
        } else {
            self.put(x, y, Tile::Empty)
        }
    }

    /// The skier of Right at `(x, y)` can slide to the column `dx` to its
    /// left, or off the slope where `dx` is minus one.
    pub open spec fn can_slide_left(self, x: int, y: int, dx: int) -> bool {
        &&& self.in_range(x, y)
        &&& self.tile(x, y).is_right()
        &&& -1 <= dx < x
        &&& self.clear(
            y,
            if dx >= 0 {
                dx
            } else {
                0
            },
            x,
        )
    }

    /// The skier at `(x, y)`, one of Left (`left`) or of Right, can slide to
    /// the column `dx`.
    pub open spec fn can_slide(self, x: int, y: int, dx: int, left: bool) -> bool {
        if left {
            self.can_slide_right(x, y, dx)
        } else {
            self.can_slide_left(x, y, dx)
        }
    }

    /// The jumper of Left (`left`) or of Right at `(x, y)` can jump over a
    /// skier of the other player right below.
    pub open spec fn can_jump(self, x: int, y: int, left: bool) -> bool {
        &&& self.in_range(x, y)
        &&& y + 1 < self.height
        &&& if left {
            self.tile(x, y) == Tile::Left(Skier::Jumper) && self.tile(x, y + 1).is_right()
        } else {
            self.tile(x, y) == Tile::Right(Skier::Jumper) && self.tile(x, y + 1).is_left()
        }
    }

    /// The slope after the jumper at `(x, y)` jumped: the skier below is a
    /// slipper now, and the jumper lands two rows down, or leaves the slope.
    pub open spec fn jumped(self, x: int, y: int, left: bool) -> Slope {
        let over = if left {
            Tile::Right(Skier::Slipper)
        } else {
            Tile::Left(Skier::Slipper)
        };
        let jumper = if left {
            Tile::Left(Skier::Jumper)
        } else {
            Tile::Right(Skier::Jumper)
        };
        let after = self.put(x, y, Tile::Empty).put(x, y + 1, over);
        if y + 2 < self.height {
            after.put(x, y + 2, jumper)
        } else {
            after
        }
    }

    /// `m` is the slope after a move of Left (`left`) or of Right.
    pub open spec fn is_move(self, left: bool, m: Slope) -> bool {
        ||| exists|x: int, y: int, dx: int|
            #[trigger] self.can_slide(x, y, dx, left) && m == self.slid(x, y, dx)
        ||| exists|x: int, y: int| #[trigger] self.can_jump(x, y, left) && m == self.jumped(x, y, left)
    }

    /// A jump is possible, now or later: some jumper has a skier of the
    /// other player somewhere in the row below.
    pub open spec fn jump_available(self) -> bool {
        exists|x: int, y: int, dx: int|
            self.in_range(x, y) && self.in_range(dx, y + 1) && #[trigger] self.threatens(x, y, dx)
    }

    /// The tile at `(x, y)` holds a jumper and the tile at `(dx, y + 1)` a
    /// skier of the other player.
    pub open spec fn threatens(self, x: int, y: int, dx: int) -> bool {
        (self.tile(x, y) == Tile::Left(Skier::Jumper) && self.tile(dx, y + 1).is_right()) || (
        self.tile(x, y) == Tile::Right(Skier::Jumper) && self.tile(dx, y + 1).is_left())
    }

    /// What the `i`-th tile is worth where no jump is possible: for a skier
    /// of Left the moves that it has to the edge, for a skier of Right the
    /// negative of those that it has.
    pub open spec fn worth(self, i: int) -> int {
        let x = if self.width > 0 {
            i % self.width
        } else {
            0
        };
        match self.tiles[i] {
            Tile::Empty => 0,
            Tile::Left(_) => self.width - x,
            Tile::Right(_) => -(x + 1),
        }
    }

    /// The worth of the first `n` tiles together.
    pub open spec fn worth_upto(self, n: int) -> int
        decreases n,
    {
        if n <= 0 {
            0
        } else {
            self.worth_upto(n - 1) + self.worth(n - 1)
        }
    }

    /// What a skier at the `i`-th place weighs: more the higher it stands
    /// and the farther it is from the edge that it slides to.
    pub open spec fn weight_of(self, i: int, t: Tile) -> nat {
        let x = if self.width > 0 {
            i % self.width
        } else {
            0
        };
        let y = if self.width > 0 {
            i / self.width
        } else {
            0
        };
        match t {
            Tile::Empty => 0,
            Tile::Left(_) => ((self.height - y) * (self.width + 1) + (self.width - x)) as nat,
            Tile::Right(_) => ((self.height - y) * (self.width + 1) + (x + 1)) as nat,
        }
    }

    /// The weight of the first `n` tiles together.
    pub open spec fn weight_upto(self, n: int) -> nat
        decreases n,
    {
        if n <= 0 {
            0
        } else {
            self.weight_upto(n - 1) + self.weight_of(n - 1, self.tiles[n - 1])
        }
    }

    /// The weight of all skiers, which every move makes less.
    pub open spec fn weight(self) -> nat {
        self.weight_upto(self.tiles.len() as int)
    }
}

/// Replacing the tile at the place `i` changes the weight of the slope by
/// the change of weight at that place.
pub proof fn lemma_weight_update(s: Slope, i: int, t: Tile, n: int)
    requires
        0 <= i < s.tiles.len(),
        0 <= n <= s.tiles.len(),
    ensures
        (Slope { tiles: s.tiles.update(i, t), ..s }).weight_upto(n) + (if i < n {
            s.weight_of(i, s.tiles[i])
        } else {
            0
        }) == s.weight_upto(n) + (if i < n {
            s.weight_of(i, t)
        } else {
            0
        }),
    decreases n,
{
    let r = Slope { tiles: s.tiles.update(i, t), ..s };
    if n > 0 {
        lemma_weight_update(s, i, t, n - 1);
        assert(r.weight_of(n - 1, r.tiles[n - 1]) == s.weight_of(n - 1, r.tiles[n - 1]));
    }
}

/// What the tile `t` weighs at `(x, y)`.
pub open spec fn weight_at(s: Slope, x: int, y: int, t: Tile) -> int {
    match t {
        Tile::Empty => 0,
        Tile::Left(_) => (s.height - y) * (s.width + 1) + (s.width - x),
        Tile::Right(_) => (s.height - y) * (s.width + 1) + (x + 1),
    }
}

/// Replacing the tile at `(x, y)` changes the weight of the slope by the
/// change of weight there.
pub proof fn lemma_weight_put(s: Slope, x: int, y: int, t: Tile)
    requires
        s.wf(),
        s.in_range(x, y),
    ensures
        s.put(x, y, t).wf(),
        s.put(x, y, t).weight() + weight_at(s, x, y, s.tile(x, y)) == s.weight() + weight_at(
            s,
            x,
            y,
            t,
        ),
        weight_at(s, x, y, t) >= 0,
        s.put(x, y, t).tile(x, y) == t,
        forall|x2: int, y2: int|
            s.in_range(x2, y2) && (x2 != x || y2 != y) ==> #[trigger] s.put(x, y, t).tile(x2, y2)
                == s.tile(x2, y2),
{
    let i = s.width * y + x;
    lemma_tile_index_bound(s.width, s.height, x, y);
    lemma_tile_index_split(s.width, x, y);
    lemma_weight_update(s, i, t, s.tiles.len() as int);
    assert((s.height - y) * (s.width + 1) >= 0) by (nonlinear_arith)
        requires
            s.height - y >= 0,
            s.width >= 0,
    ;
    assert forall|x2: int, y2: int|
        s.in_range(x2, y2) && (x2 != x || y2 != y) implies #[trigger] s.put(x, y, t).tile(x2, y2)
        == s.tile(x2, y2) by {
        lemma_tile_index_bound(s.width, s.height, x2, y2);
        lemma_tile_index_split(s.width, x2, y2);
    }
}

/// A slide makes the slope lighter.
pub proof fn lemma_slid(s: Slope, x: int, y: int, dx: int, left: bool)
    requires
        s.wf(),
        s.can_slide(x, y, dx, left),
    ensures
        s.slid(x, y, dx).wf(),
        s.slid(x, y, dx).weight() < s.weight(),
{
    lemma_weight_put(s, x, y, Tile::Empty);
    let a = s.put(x, y, Tile::Empty);
    let t = s.tile(x, y);
    assert((s.height - y) * (s.width + 1) >= s.width + 1) by (nonlinear_arith)
        requires
            s.height - y >= 1,
            s.width >= 0,
    ;
    if 0 <= dx < s.width {
        assert(a.in_range(dx, y));
        if left {
            assert(s.tile(dx, y) == Tile::Empty);
        } else {
            assert(s.tile(dx, y) == Tile::Empty);
        }
        assert(a.tile(dx, y) == s.tile(dx, y));
        lemma_weight_put(a, dx, y, t);
    }
}

/// A jump makes the slope lighter.
pub proof fn lemma_jumped(s: Slope, x: int, y: int, left: bool)
    requires
        s.wf(),
        s.can_jump(x, y, left),
    ensures
        s.jumped(x, y, left).wf(),
        s.jumped(x, y, left).weight() < s.weight(),
{
    let over = if left {
        Tile::Right(Skier::Slipper)
    } else {
        Tile::Left(Skier::Slipper)
    };
    let jumper = if left {
        Tile::Left(Skier::Jumper)
    } else {
        Tile::Right(Skier::Jumper)
    };
    lemma_weight_put(s, x, y, Tile::Empty);
    let a = s.put(x, y, Tile::Empty);
    assert(a.in_range(x, y + 1));
    assert(a.tile(x, y + 1) == s.tile(x, y + 1));
    lemma_weight_put(a, x, y + 1, over);
    let b = a.put(x, y + 1, over);
    assert((s.height - y) * (s.width + 1) == (s.height - (y + 2)) * (s.width + 1) + 2 * (s.width + 1))
        by (nonlinear_arith);
    assert((s.height - y) * (s.width + 1) >= s.width + 1) by (nonlinear_arith)
        requires
            s.height - y >= 1,
            s.width >= 0,
    ;
    if y + 2 < s.height {
        assert(b.in_range(x, y + 2));
        lemma_weight_put(b, x, y + 2, jumper);
        assert(weight_at(b, x, y + 2, b.tile(x, y + 2)) >= 0) by {
            lemma_weight_put(b, x, y + 2, b.tile(x, y + 2));
        }
    }
}

/// Ski Jumps game
#[derive(Debug)]
pub struct SkiJumps {
    grid: VecGrid<Tile>,
}

/// The slopes of a list of positions.
pub open spec fn slopes(v: Seq<SkiJumps>) -> Set<Slope> {
    Set::new(|m: Slope| exists|k: int| 0 <= k < v.len() && (#[trigger] v[k]).slope() == m)
}

/// `m` is the slope after a move of the skier at `(x, y)`, who is Left's
/// (`left`) or Right's.
pub open spec fn cell_move(s: Slope, left: bool, x: int, y: int, m: Slope) -> bool {
    ||| exists|dx: int| #[trigger] s.can_slide(x, y, dx, left) && m == s.slid(x, y, dx)
    ||| s.can_jump(x, y, left) && m == s.jumped(x, y, left)
}

/// The column that a skier in column `x` slides to with its slide number
/// `step`, counted from nought: one column farther with every number.
pub open spec fn slide_target(left: bool, x: int, step: int) -> int {
    if left {
        x + step + 1
    } else {
        x - step - 1
    }
}

/// `m` is the slope after one of the first `steps` slides of the skier at
/// `(x, y)`.
pub open spec fn slide_within(s: Slope, left: bool, x: int, y: int, steps: int, m: Slope) -> bool {
    exists|k: int|
        0 <= k < steps && #[trigger] s.can_slide(x, y, slide_target(left, x, k), left) && m == s.slid(
            x,
            y,
            slide_target(left, x, k),
        )
}

/// The slopes of the positions of a list, in their order.
pub open spec fn slope_list(v: Seq<SkiJumps>) -> Seq<Slope> {
    Seq::new(v.len(), |k: int| v[k].slope())
}

/// The slopes after the first `steps` slides of the skier at `(x, y)` that
/// are possible, from the nearest place on.
pub open spec fn slides_upto(s: Slope, left: bool, x: int, y: int, steps: int) -> Seq<Slope>
    decreases steps,
{
    if steps <= 0 {
        Seq::<Slope>::empty()
    } else {
        let before = slides_upto(s, left, x, y, steps - 1);
        let target = slide_target(left, x, steps - 1);
        if s.can_slide(x, y, target, left) {
            before.push(s.slid(x, y, target))
        } else {
            before
        }
    }
}

/// The slopes after the moves of the skier at `(x, y)`, if it is one of
/// Left's (`left`) or of Right's: its slides from the nearest place on up to
/// the one that leaves the slope, and then its jump.
pub open spec fn cell_list(s: Slope, left: bool, x: int, y: int) -> Seq<Slope> {
    let mine = if left {
        s.tile(x, y).is_left()
    } else {
        s.tile(x, y).is_right()
    };
    let reach = if left {
        s.width - x
    } else {
        x + 1
    };
    if !mine {
        Seq::<Slope>::empty()
    } else if s.can_jump(x, y, left) {
        slides_upto(s, left, x, y, reach).push(s.jumped(x, y, left))
    } else {
        slides_upto(s, left, x, y, reach)
    }
}

/// The slopes after the moves of the skiers on the first `n` tiles, row by
/// row from the top left.
pub open spec fn moves_upto(s: Slope, left: bool, n: int) -> Seq<Slope>
    decreases n,
{
    if n <= 0 || s.width <= 0 {
        Seq::<Slope>::empty()
    } else {
        moves_upto(s, left, n - 1) + cell_list(s, left, (n - 1) % s.width, (n - 1) / s.width)
    }
}

/// The slopes after the moves of Left (`left`) or of Right, in the order
/// of the tiles of the skiers, the slides of a skier before its jump.
pub open spec fn moves_list(s: Slope, left: bool) -> Seq<Slope> {
    moves_upto(s, left, s.width * s.height)
}

/// `list` holds what `start` holds and the slopes after the moves of the
/// skier at `(x, y)`, and nothing else.
pub open spec fn lists_cell(
    list: Set<Slope>,
    start: Set<Slope>,
    s: Slope,
    left: bool,
    x: int,
    y: int,
) -> bool {
    forall|m: Slope| list.contains(m) <==> start.contains(m) || cell_move(s, left, x, y, m)
}

/// `list` holds what `start` holds and the slopes after the first `steps`
/// slides of the skier at `(x, y)`, and nothing else.
pub open spec fn lists_slides(
    list: Set<Slope>,
    start: Set<Slope>,
    s: Slope,
    left: bool,
    x: int,
    y: int,
    steps: int,
) -> bool {
    forall|m: Slope| list.contains(m) <==> start.contains(m) || slide_within(s, left, x, y, steps, m)
}

/// One slide more.
pub proof fn lemma_slide_within_step(s: Slope, left: bool, x: int, y: int, steps: int, m: Slope)
    requires
        steps >= 0,
    ensures
        slide_within(s, left, x, y, steps + 1, m) == (slide_within(s, left, x, y, steps, m) || (
        s.can_slide(x, y, slide_target(left, x, steps), left) && m == s.slid(
            x,
            y,
            slide_target(left, x, steps),
        ))),
{
    if slide_within(s, left, x, y, steps + 1, m) {
        let k = choose|k: int|
            0 <= k < steps + 1 && #[trigger] s.can_slide(x, y, slide_target(left, x, k), left) && m
                == s.slid(x, y, slide_target(left, x, k));
        if k < steps {
            assert(slide_within(s, left, x, y, steps, m));
        }
    }
    if slide_within(s, left, x, y, steps, m) {
        let k = choose|k: int|
            0 <= k < steps && #[trigger] s.can_slide(x, y, slide_target(left, x, k), left) && m
                == s.slid(x, y, slide_target(left, x, k));
        assert(0 <= k < steps + 1);
    }
    if s.can_slide(x, y, slide_target(left, x, steps), left) && m == s.slid(
        x,
        y,
        slide_target(left, x, steps),
    ) {
        assert(0 <= steps < steps + 1);
    }
}

/// The slides up to the edge are all slides that there are.
pub proof fn lemma_slide_within_all(s: Slope, left: bool, x: int, y: int, reach: int, m: Slope)
    requires
        reach == (if left {
            s.width - x
        } else {
            x + 1
        }),
    ensures
        slide_within(s, left, x, y, reach, m) == (exists|dx: int|
            #[trigger] s.can_slide(x, y, dx, left) && m == s.slid(x, y, dx)),
{
    if slide_within(s, left, x, y, reach, m) {
        let k = choose|k: int|
            0 <= k < reach && #[trigger] s.can_slide(x, y, slide_target(left, x, k), left) && m
                == s.slid(x, y, slide_target(left, x, k));
        assert(s.can_slide(x, y, slide_target(left, x, k), left));
    }
    if exists|dx: int| #[trigger] s.can_slide(x, y, dx, left) && m == s.slid(x, y, dx) {
        let dx = choose|dx: int| #[trigger] s.can_slide(x, y, dx, left) && m == s.slid(x, y, dx);
        let k = if left {
            dx - x - 1
        } else {
            x - dx - 1
        };
        assert(slide_target(left, x, k) == dx);
        assert(0 <= k < reach);
        assert(s.can_slide(x, y, slide_target(left, x, k), left));
    }
}

/// A list with one more position has one more slope.
pub proof fn lemma_slopes_push(v: Seq<SkiJumps>, p: SkiJumps)
    ensures
        forall|m: Slope|
            slopes(v.push(p)).contains(m) <==> slopes(v).contains(m) || m == p.slope(),
{
    let w = v.push(p);
    assert forall|m: Slope| slopes(w).contains(m) <==> slopes(v).contains(m) || m == p.slope() by {
        if slopes(w).contains(m) {
            let k = choose|k: int| 0 <= k < w.len() && (#[trigger] w[k]).slope() == m;
            if k < v.len() {
                assert(v[k].slope() == m);
            }
        }
        if slopes(v).contains(m) {
            let k = choose|k: int| 0 <= k < v.len() && (#[trigger] v[k]).slope() == m;
            assert(w[k].slope() == m);
        }
        if m == p.slope() {
            assert(w[v.len() as int].slope() == m);
        }
    }
}

impl SkiJumps {
    /// What the position is.
    pub closed spec fn slope(&self) -> Slope {
        Slope {
            width: self.grid.width() as int,
            height: self.grid.height() as int,
            tiles: self.grid.tiles(),
        }
    }

    /// The grid has a tile for every place.
    pub open spec fn wf(&self) -> bool {
        self.slope().wf()
    }

    /// Create new Ski Jumps game from a grid
    pub fn new(grid: VecGrid<Tile>) -> (r: Self)
        requires
            grid.wf(),
        ensures
            r.wf(),
            r.slope().width == grid.width(),
            r.slope().height == grid.height(),
            r.slope().tiles == grid.tiles(),
    {
        SkiJumps { grid }
    }

    /// Number of columns.
    pub fn width(&self) -> (w: u8)
        ensures
            w == self.slope().width,
    {
        self.grid.width()
    }

    /// Number of rows.
    pub fn height(&self) -> (h: u8)
        ensures
            h == self.slope().height,
    {
        self.grid.height()
    }

    /// The tile at `(x, y)`.
    pub fn get(&self, x: u8, y: u8) -> (t: Tile)
        requires
            self.wf(),
            self.slope().in_range(x as int, y as int),
        ensures
            t == self.slope().tile(x as int, y as int),
    {
        self.grid.get(x, y)
    }

    /// The position with the tile at `(x, y)` replaced by `t`.
    fn with(&self, x: u8, y: u8, t: Tile) -> (r: SkiJumps)
        requires
            self.wf(),
            self.slope().in_range(x as int, y as int),
        ensures
            r.slope() == self.slope().put(x as int, y as int, t),
            r.wf(),
    {
        let mut grid = self.grid.duplicate();
        grid.set(x, y, t);
        proof {
            lemma_weight_put(self.slope(), x as int, y as int, t);
        }
        SkiJumps { grid }
    }

    /// Whether the tiles of row `y` from column `from` up to column `to`
    /// are empty.
    fn is_clear(&self, y: u8, from: u8, to: u8) -> (r: bool)
        requires
            self.wf(),
            y < self.slope().height,
            to <= self.slope().width,
        ensures
            r == self.slope().clear(y as int, from as int, to as int),
    {
        let mut k = from;
        while k < to
            invariant
                self.wf(),
                y < self.slope().height,
                to <= self.slope().width,
                from <= k,
                forall|j: int| from <= j < k ==> #[trigger] self.slope().tile(j, y as int) == Tile::Empty,
            decreases to - k,
        {
            match self.grid.get(k, y) {
                Tile::Empty => {},
                _ => {
                    assert(self.slope().tile(k as int, y as int) != Tile::Empty);
                    return false;
                },
            }
            k += 1;
        }
        true
    }

    /// Check if jumping move is possible
    #[verifier::loop_isolation(false)]
    pub fn jump_available(&self) -> (r: bool)
        requires
            self.wf(),
        ensures
            r == self.slope().jump_available(),
    {
        let width = self.grid.width();
        let height = self.grid.height();
        let ghost s = self.slope();
        let mut y: u8 = 0;
        while y < height
            invariant
                y <= height,
                forall|x2: int, y2: int, d2: int|
                    s.in_range(x2, y2) && s.in_range(d2, y2 + 1) && y2 < y ==> !#[trigger] s.threatens(
                        x2,
                        y2,
                        d2,
                    ),
            decreases height - y,
        {
            let mut x: u8 = 0;
            while x < width
                invariant
                    y < height,
                    x <= width,
                    forall|x2: int, y2: int, d2: int|
                        s.in_range(x2, y2) && s.in_range(d2, y2 + 1) && (y2 < y || (y2 == y && x2
                            < x)) ==> !#[trigger] s.threatens(x2, y2, d2),
                decreases width - x,
            {
                let current = self.grid.get(x, y);
                let mut dx: u8 = 0;
                while dx < width
                    invariant
                        y < height,
                        x < width,
                        dx <= width,
                        current == s.tile(x as int, y as int),
                        forall|d2: int|
                            s.in_range(d2, y + 1) && d2 < dx ==> !#[trigger] s.threatens(
                                x as int,
                                y as int,
                                d2,
                            ),
                    decreases width - dx,
                {
                    if y + 1 < height {
                        let below = self.grid.get(dx, y + 1);
                        let hit = match (current, below) {
                            (Tile::Left(Skier::Jumper), Tile::Right(_)) => true,
                            (Tile::Right(Skier::Jumper), Tile::Left(_)) => true,
                            _ => false,
                        };
                        if hit {
                            assert(s.in_range(x as int, y as int) && s.in_range(dx as int, y + 1)
                                && s.threatens(x as int, y as int, dx as int));
                            return true;
                        }
                    }
                    dx += 1;
                }
                x += 1;
            }
            y += 1;
        }
        false
    }

    /// Puts the moves of the skier at `(x, y)`, if it is one of Left's
    /// (`left`) or of Right's, at the end of `out`.
    fn cell_moves(&self, x: u8, y: u8, left: bool, out: &mut Vec<SkiJumps>)
        requires
            self.wf(),
            self.slope().in_range(x as int, y as int),
            forall|k: int|
                0 <= k < old(out)@.len() ==> (#[trigger] old(out)@[k]).wf() && old(out)@[k].slope().weight()
                    < self.slope().weight(),
        ensures
            forall|k: int|
                0 <= k < final(out)@.len() ==> (#[trigger] final(out)@[k]).wf() && final(out)@[k].slope().weight() < self.slope().weight(),
            lists_cell(
                slopes(final(out)@),
                slopes(old(out)@),
                self.slope(),
                left,
                x as int,
                y as int,
            ),
            slope_list(final(out)@) == slope_list(old(out)@) + cell_list(
                self.slope(),
                left,
                x as int,
                y as int,
            ),
    {
        let ghost s = self.slope();
        let ghost start = out@;
        let width = self.grid.width();
        let height = self.grid.height();
        let tile = self.grid.get(x, y);
        let (mine, jumper) = match tile {
            Tile::Empty => (false, false),
            Tile::Left(skier) => (left, left && skier == Skier::Jumper),
            Tile::Right(skier) => (!left, !left && skier == Skier::Jumper),
        };
        if !mine {
            assert forall|m: Slope| !cell_move(s, left, x as int, y as int, m) by {}
            assert(slope_list(out@) =~= slope_list(start) + cell_list(s, left, x as int, y as int));
            return ;
        }
        // The slides, from the nearest place on; the last one leaves the slope.
        let mut step: u8 = 0;
        let reach: u8 = if left {
            width - x
        } else {
            x + 1
        };
        while step < reach
            invariant
                self.wf(),
                s == self.slope(),
                s.in_range(x as int, y as int),
                width == s.width,
                tile == s.tile(x as int, y as int),
                mine,
                left ==> tile.is_left() && reach == width - x,
                !left ==> tile.is_right() && reach == x + 1,
                step <= reach,
                forall|k: int|
                    0 <= k < out@.len() ==> (#[trigger] out@[k]).wf() && out@[k].slope().weight()
                        < s.weight(),
                lists_slides(slopes(out@), slopes(start), s, left, x as int, y as int, step as int),
                slope_list(out@) == slope_list(start) + slides_upto(
                    s,
                    left,
                    x as int,
                    y as int,
                    step as int,
                ),
            decreases reach - step,
        {
            let ghost before = out@;
            assert(forall|m: Slope|
                slopes(before).contains(m) <==> slopes(start).contains(m) || slide_within(
                    s,
                    left,
                    x as int,
                    y as int,
                    step as int,
                    m,
                ));
            // The place slid to: `step + 1` to the right for Left, to the left for Right.
            let target: i16 = if left {
                x as i16 + step as i16 + 1
            } else {
                x as i16 - step as i16 - 1
            };
            let on_slope = 0 <= target && target < width as i16;
            let free = if left {
                let to: u8 = if on_slope {
                    (target + 1) as u8
                } else {
                    width
                };
                self.is_clear(y, x + 1, to)
            } else {
                let from: u8 = if on_slope {
                    target as u8
                } else {
                    0
                };
                self.is_clear(y, from, x)
            };
            assert(free == s.can_slide(x as int, y as int, target as int, left));
            if free {
                let gone = self.with(x, y, Tile::Empty);
                let moved = if on_slope {
                    proof {
                        lemma_weight_put(s, x as int, y as int, Tile::Empty);
                    }
                    gone.with(target as u8, y, tile)
                } else {
                    gone
                };
                proof {
                    lemma_slid(s, x as int, y as int, target as int, left);
                    assert(moved.slope() == s.slid(x as int, y as int, target as int));
                    lemma_slopes_push(before, moved);
                }
                out.push(moved);
                assert(slope_list(out@) =~= slope_list(before).push(moved.slope()));
            }
            proof {
                assert((step + 1) - 1 == step);
                assert(target == slide_target(left, x as int, step as int));
                assert(slope_list(out@) =~= slope_list(start) + slides_upto(
                    s,
                    left,
                    x as int,
                    y as int,
                    step + 1,
                ));
                assert forall|k: int| 0 <= k < out@.len() implies (#[trigger] out@[k]).wf()
                    && out@[k].slope().weight() < s.weight() by {
                    if k < before.len() {
                        assert(out@[k] == before[k]);
                    }
                }
                assert forall|m: Slope|
                    slopes(out@).contains(m) <==> slopes(start).contains(m) || slide_within(
                        s,
                        left,
                        x as int,
                        y as int,
                        step + 1,
                        m,
                    ) by {
                    lemma_slide_within_step(s, left, x as int, y as int, step as int, m);
                    assert(target == slide_target(left, x as int, step as int));
                    assert(slopes(before).contains(m) == (slopes(start).contains(m) || slide_within(
                        s,
                        left,
                        x as int,
                        y as int,
                        step as int,
                        m,
                    )));
                    if free {
                        assert(slopes(out@).contains(m) == (slopes(before).contains(m) || m
                            == s.slid(x as int, y as int, target as int)));
                    } else {
                        assert(out@ == before);
                    }
                }
                assert(lists_slides(slopes(out@), slopes(start), s, left, x as int, y as int, step + 1));
            }
            step += 1;
        }
        let ghost slides = out@;
        assert(step == reach);
        assert(forall|m: Slope|
            slopes(slides).contains(m) <==> slopes(start).contains(m) || slide_within(
                s,
                left,
                x as int,
                y as int,
                step as int,
                m,
            ));
        // The jump over a skier of the other player right below.
        let mut jumps = false;
        if jumper && y + 1 < height {
            let below = self.grid.get(x, y + 1);
            let other = match below {
                Tile::Empty => false,
                Tile::Left(_) => !left,
                Tile::Right(_) => left,
            };
            if other {
                jumps = true;
                let over = if left {
                    Tile::Right(Skier::Slipper)
                } else {
                    Tile::Left(Skier::Slipper)
                };
                proof {
                    lemma_weight_put(s, x as int, y as int, Tile::Empty);
                    lemma_weight_put(s.put(x as int, y as int, Tile::Empty), x as int, y + 1, over);
                    lemma_jumped(s, x as int, y as int, left);
                }
                let gone = self.with(x, y, Tile::Empty);
                let slipped = gone.with(x, y + 1, over);
                let landed = if y + 2 < height {
                    slipped.with(x, y + 2, tile)
                } else {
                    slipped
                };
                proof {
                    assert(landed.slope() == s.jumped(x as int, y as int, left));
                    lemma_slopes_push(slides, landed);
                }
                out.push(landed);
                assert(slope_list(out@) =~= slope_list(slides).push(landed.slope()));
            }
        }
        assert(jumps == s.can_jump(x as int, y as int, left));
        assert(slope_list(out@) == slope_list(start) + cell_list(s, left, x as int, y as int)) by {
            assert(slope_list(out@) =~= slope_list(start) + cell_list(s, left, x as int, y as int));
        }
        proof {
            assert(jumps == s.can_jump(x as int, y as int, left));
            assert forall|k: int| 0 <= k < out@.len() implies (#[trigger] out@[k]).wf()
                && out@[k].slope().weight() < s.weight() by {
                if k < slides.len() {
                    assert(out@[k] == slides[k]);
                }
            }
            assert forall|m: Slope|
                slopes(out@).contains(m) <==> slopes(start).contains(m) || cell_move(
                    s,
                    left,
                    x as int,
                    y as int,
                    m,
                ) by {
                lemma_slide_within_all(s, left, x as int, y as int, reach as int, m);
                assert(slopes(slides).contains(m) == (slopes(start).contains(m) || slide_within(
                    s,
                    left,
                    x as int,
                    y as int,
                    reach as int,
                    m,
                )));
                if jumps {
                    assert(slopes(out@).contains(m) == (slopes(slides).contains(m) || m == s.jumped(
                        x as int,
                        y as int,
                        left,
                    )));
                } else {
                    assert(out@ == slides);
                }
            }
            assert(lists_cell(slopes(out@), slopes(start), s, left, x as int, y as int));
        }
    }
}

/// A move is a move of the skier at some place.
pub proof fn lemma_is_move(s: Slope, left: bool, m: Slope)
    ensures
        s.is_move(left, m) == (exists|x: int, y: int|
            s.in_range(x, y) && #[trigger] cell_move(s, left, x, y, m)),
{
    if s.is_move(left, m) {
        if exists|x: int, y: int, dx: int|
            #[trigger] s.can_slide(x, y, dx, left) && m == s.slid(x, y, dx) {
            let (x, y, dx) = choose|x: int, y: int, dx: int|
                #[trigger] s.can_slide(x, y, dx, left) && m == s.slid(x, y, dx);
            assert(s.in_range(x, y) && cell_move(s, left, x, y, m));
        } else {
            let (x, y) = choose|x: int, y: int|
                #[trigger] s.can_jump(x, y, left) && m == s.jumped(x, y, left);
            assert(s.in_range(x, y) && cell_move(s, left, x, y, m));
        }
    }
    if exists|x: int, y: int| s.in_range(x, y) && #[trigger] cell_move(s, left, x, y, m) {
        let (x, y) = choose|x: int, y: int| s.in_range(x, y) && #[trigger] cell_move(s, left, x, y, m);
        if exists|dx: int| #[trigger] s.can_slide(x, y, dx, left) && m == s.slid(x, y, dx) {
            let dx = choose|dx: int| #[trigger] s.can_slide(x, y, dx, left) && m == s.slid(x, y, dx);
            assert(s.can_slide(x, y, dx, left) && m == s.slid(x, y, dx));
        } else {
            assert(s.can_jump(x, y, left) && m == s.jumped(x, y, left));
        }
    }
}

impl SkiJumps {
    /// The positions after the moves of Left (`left`) or of Right: for every
    /// skier of the player, row by row, its slides from the nearest on and
    /// then its jump.
    fn moves_for(&self, left: bool) -> (moves: Vec<SkiJumps>)
        requires
            self.wf(),
        ensures
            forall|m: Slope| slopes(moves@).contains(m) <==> self.slope().is_move(left, m),
            forall|k: int|
                0 <= k < moves@.len() ==> (#[trigger] moves@[k]).wf() && moves@[k].slope().weight()
                    < self.slope().weight(),
            slope_list(moves@) == moves_list(self.slope(), left),
    {
        let ghost s = self.slope();
        let width = self.grid.width();
        let height = self.grid.height();
        let mut moves: Vec<SkiJumps> = Vec::new();
        let mut y: u8 = 0;
        assert(slope_list(moves@) =~= moves_upto(s, left, 0));
        while y < height
            invariant
                self.wf(),
                s == self.slope(),
                width == s.width,
                height == s.height,
                y <= height,
                slope_list(moves@) == moves_upto(s, left, width * y),
                forall|k: int|
                    0 <= k < moves@.len() ==> (#[trigger] moves@[k]).wf() && moves@[k].slope().weight()
                        < s.weight(),
                forall|m: Slope|
                    slopes(moves@).contains(m) <==> exists|x2: int, y2: int|
                        s.in_range(x2, y2) && y2 < y && #[trigger] cell_move(s, left, x2, y2, m),
            decreases height - y,
        {
            let mut x: u8 = 0;
            while x < width
                invariant
                    self.wf(),
                    s == self.slope(),
                    width == s.width,
                    height == s.height,
                    y < height,
                    x <= width,
                    slope_list(moves@) == moves_upto(s, left, width * y + x),
                    forall|k: int|
                        0 <= k < moves@.len() ==> (#[trigger] moves@[k]).wf()
                            && moves@[k].slope().weight() < s.weight(),
                    forall|m: Slope|
                        slopes(moves@).contains(m) <==> exists|x2: int, y2: int|
                            s.in_range(x2, y2) && (y2 < y || (y2 == y && x2 < x)) && #[trigger] cell_move(
                                s,
                                left,
                                x2,
                                y2,
                                m,
                            ),
                decreases width - x,
            {
                let ghost before = moves@;
                self.cell_moves(x, y, left, &mut moves);
                proof {
                    lemma_tile_index_split(width as int, x as int, y as int);
                    assert((width * y + x + 1) - 1 == width * y + x);
                    assert(width * y + x >= 0) by (nonlinear_arith)
                        requires
                            width >= 0,
                            y >= 0,
                            x >= 0,
                    ;
                    assert forall|m: Slope|
                        slopes(moves@).contains(m) <==> exists|x2: int, y2: int|
                            s.in_range(x2, y2) && (y2 < y || (y2 == y && x2 < x + 1))
                                && #[trigger] cell_move(s, left, x2, y2, m) by {
                        let was = exists|x2: int, y2: int|
                            s.in_range(x2, y2) && (y2 < y || (y2 == y && x2 < x)) && #[trigger] cell_move(
                                s,
                                left,
                                x2,
                                y2,
                                m,
                            );
                        assert(slopes(before).contains(m) == was);
                        assert(slopes(moves@).contains(m) == (slopes(before).contains(m) || cell_move(
                            s,
                            left,
                            x as int,
                            y as int,
                            m,
                        )));
                        if was {
                            let (x2, y2) = choose|x2: int, y2: int|
                                s.in_range(x2, y2) && (y2 < y || (y2 == y && x2 < x))
                                    && #[trigger] cell_move(s, left, x2, y2, m);
                            assert(s.in_range(x2, y2) && (y2 < y || (y2 == y && x2 < x + 1)) && cell_move(
                                s,
                                left,
                                x2,
                                y2,
                                m,
                            ));
                        }
                        if cell_move(s, left, x as int, y as int, m) {
                            assert(s.in_range(x as int, y as int) && (y < y || (y == y && x < x + 1))
                                && cell_move(s, left, x as int, y as int, m));
                        }
                        if exists|x2: int, y2: int|
                            s.in_range(x2, y2) && (y2 < y || (y2 == y && x2 < x + 1))
                                && #[trigger] cell_move(s, left, x2, y2, m) {
                            let (x2, y2) = choose|x2: int, y2: int|
                                s.in_range(x2, y2) && (y2 < y || (y2 == y && x2 < x + 1))
                                    && #[trigger] cell_move(s, left, x2, y2, m);
                            if !(x2 == x && y2 == y) {
                                assert(s.in_range(x2, y2) && (y2 < y || (y2 == y && x2 < x)) && cell_move(
                                    s,
                                    left,
                                    x2,
                                    y2,
                                    m,
                                ));
                            }
                        }
                    }
                }
                x += 1;
            }
            proof {
                assert(width * (y + 1) == width * y + width) by (nonlinear_arith);
                assert forall|m: Slope|
                    slopes(moves@).contains(m) <==> exists|x2: int, y2: int|
                        s.in_range(x2, y2) && y2 < y + 1 && #[trigger] cell_move(s, left, x2, y2, m) by {
                    if slopes(moves@).contains(m) {
                        let (x2, y2) = choose|x2: int, y2: int|
                            s.in_range(x2, y2) && (y2 < y || (y2 == y && x2 < x)) && #[trigger] cell_move(
                                s,
                                left,
                                x2,
                                y2,
                                m,
                            );
                        assert(s.in_range(x2, y2) && y2 < y + 1 && cell_move(s, left, x2, y2, m));
                    }
                    if exists|x2: int, y2: int|
                        s.in_range(x2, y2) && y2 < y + 1 && #[trigger] cell_move(s, left, x2, y2, m) {
                        let (x2, y2) = choose|x2: int, y2: int|
                            s.in_range(x2, y2) && y2 < y + 1 && #[trigger] cell_move(s, left, x2, y2, m);
                        assert(s.in_range(x2, y2) && (y2 < y || (y2 == y && x2 < x)) && cell_move(
                            s,
                            left,
                            x2,
                            y2,
                            m,
                        ));
                    }
                }
            }
            y += 1;
        }
        proof {
            assert forall|m: Slope| slopes(moves@).contains(m) <==> s.is_move(left, m) by {
                lemma_is_move(s, left, m);
                if slopes(moves@).contains(m) {
                    let (x2, y2) = choose|x2: int, y2: int|
                        s.in_range(x2, y2) && y2 < y && #[trigger] cell_move(s, left, x2, y2, m);
                    assert(s.in_range(x2, y2) && cell_move(s, left, x2, y2, m));
                }
                if s.is_move(left, m) {
                    let (x2, y2) = choose|x2: int, y2: int|
                        s.in_range(x2, y2) && #[trigger] cell_move(s, left, x2, y2, m);
                    assert(s.in_range(x2, y2) && y2 < y && cell_move(s, left, x2, y2, m));
                }
            }
        }
        moves
    }

    /// The positions that Left can move to: a skier of Left slides to the
    /// right as far as nothing is in its way, or off the slope, or jumps over
    /// a skier of Right right below.
    pub fn left_moves(&self) -> (moves: Vec<SkiJumps>)
        requires
            self.wf(),
        ensures
            forall|m: Slope| slopes(moves@).contains(m) <==> self.slope().is_move(true, m),
            forall|k: int|
                0 <= k < moves@.len() ==> (#[trigger] moves@[k]).wf() && moves@[k].slope().weight()
                    < self.slope().weight(),
            slope_list(moves@) == moves_list(self.slope(), true),
    {
        self.moves_for(true)
    }

    /// The positions that Right can move to: a skier of Right slides to the
    /// left as far as nothing is in its way, or off the slope, or jumps over
    /// a skier of Left right below.
    pub fn right_moves(&self) -> (moves: Vec<SkiJumps>)
        requires
            self.wf(),
        ensures
            forall|m: Slope| slopes(moves@).contains(m) <==> self.slope().is_move(false, m),
            forall|k: int|
                0 <= k < moves@.len() ==> (#[trigger] moves@[k]).wf() && moves@[k].slope().weight()
                    < self.slope().weight(),
            slope_list(moves@) == moves_list(self.slope(), false),
    {
        self.moves_for(false)
    }

    /// The value of the position where no jump is possible any more: then
    /// every skier is best moved on by one tile, and the value is the number
    /// of moves that Left has less those that Right has.
    pub fn reductions(&self) -> (r: Option<i64>)
        requires
            self.wf(),
        ensures
            r == (if self.slope().jump_available() {
                None
            } else {
                Some(self.slope().worth_upto(self.slope().tiles.len() as int) as i64)
            }),
            r matches Some(v) ==> v == self.slope().worth_upto(self.slope().tiles.len() as int),
    {
        if self.jump_available() {
            return None;
        }
        let ghost s = self.slope();
        let width = self.grid.width();
        let height = self.grid.height();
        let mut value: i64 = 0;
        let mut n: usize = 0;
        let mut y: u8 = 0;
        while y < height
            invariant
                self.wf(),
                s == self.slope(),
                width == s.width,
                height == s.height,
                y <= height,
                n == width * y,
                value == s.worth_upto(n as int),
                -256 * n <= value <= 256 * n,
            decreases height - y,
        {
            let mut x: u8 = 0;
            while x < width
                invariant
                    self.wf(),
                    s == self.slope(),
                    width == s.width,
                    height == s.height,
                    y < height,
                    x <= width,
                    n == width * y + x,
                    value == s.worth_upto(n as int),
                    -256 * n <= value <= 256 * n,
                decreases width - x,
            {
                proof {
                    lemma_tile_index_bound(width as int, height as int, x as int, y as int);
                    lemma_tile_index_split(width as int, x as int, y as int);
                    assert(width * height <= 255 * 255) by (nonlinear_arith)
                        requires
                            width <= 255,
                            height <= 255,
                    ;
                    assert((n + 1) - 1 == n);
                }
                match self.grid.get(x, y) {
                    Tile::Empty => {},
                    Tile::Left(_) => {
                        value = value + (width as i64 - x as i64);
                    },
                    Tile::Right(_) => {
                        value = value - (x as i64 + 1);
                    },
                }
                n += 1;
                x += 1;
            }
            proof {
                assert(width * (y + 1) == width * y + width) by (nonlinear_arith);
            }
            y += 1;
        }
        Some(value)
    }

    /// Number of characters in the text of the position.
    pub open spec fn text_len(&self) -> nat {
        if self.slope().height == 0 {
            0
        } else {
            (self.slope().height * (self.slope().width + 1) - 1) as nat
        }
    }

    /// The `i`-th character of the text of the position.
    pub open spec fn text_char(&self, i: int) -> char {
        let col = i % (self.slope().width + 1);
        let row = i / (self.slope().width + 1);
        if col == self.slope().width {
            '|'
        } else {
            self.slope().tile(col, row).to_char()
        }
    }

    /// The position as text: the rows from the top, with `|` between two
    /// rows; `.` is an empty tile, `L` and `R` are jumpers and `l` and `r`
    /// slippers.
    pub open spec fn text(&self) -> Seq<char> {
        Seq::new(self.text_len(), |i: int| self.text_char(i))
    }

    /// The position as text.
    pub fn to_string(&self) -> (out: String)
        requires
            self.wf(),
        ensures
            out@ == self.text(),
    {
        let width = self.grid.width();
        let height = self.grid.height();
        let mut out: Vec<char> = Vec::new();
        let mut y: u8 = 0;
        let ghost period = self.slope().width + 1;
        while y < height
            invariant
                self.wf(),
                width == self.slope().width,
                height == self.slope().height,
                period == self.slope().width + 1,
                y <= height,
                y == 0 ==> out@.len() == 0,
                y > 0 ==> out@.len() == y * period - 1,
                forall|i: int| 0 <= i < out@.len() ==> out@[i] == self.text_char(i),
            decreases height - y,
        {
            if y != 0 {
                proof {
                    lemma_tile_index_split(period, width as int, y - 1);
                    assert(period * (y - 1) + width == y * period - 1) by (nonlinear_arith)
                        requires
                            period == width + 1,
                    ;
                }
                out.push('|');
            }
            let mut x: u8 = 0;
            while x < width
                invariant
                    self.wf(),
                    width == self.slope().width,
                    height == self.slope().height,
                    period == self.slope().width + 1,
                    y < height,
                    x <= width,
                    out@.len() == period * y + x,
                    forall|i: int| 0 <= i < out@.len() ==> out@[i] == self.text_char(i),
                decreases width - x,
            {
                proof {
                    lemma_tile_index_split(period, x as int, y as int);
                }
                out.push(self.grid.get(x, y).tile_to_char());
                x += 1;
            }
            proof {
                assert(period * y + width == (y + 1) * period - 1) by (nonlinear_arith)
                    requires
                        period == width + 1,
                ;
            }
            y += 1;
        }
        assert(out@ =~= self.text());
        string_of(&out)
    }

    /// The text of a position with a tile at least is a rectangle of tiles.
    pub proof fn lemma_text_shape(&self)
        requires
            self.wf(),
            self.slope().width >= 1,
            self.slope().height >= 1,
        ensures
            is_rows(self.text(), self.slope().width, self.slope().height, Alphabet::Skiers),
    {
        let w = self.slope().width;
        let h = self.slope().height;
        let s = self.text();
        assert(h * (w + 1) - 1 >= 0) by (nonlinear_arith)
            requires
                h >= 1,
                w >= 1,
        ;
        assert forall|i: int| 0 <= i < s.len() implies if i % (w + 1) == w {
            s[i] == '|'
        } else {
            Alphabet::Skiers.allows(#[trigger] s[i])
        } by {
            assert(s[i] == self.text_char(i));
        }
    }

    /// Reading the text of a position gives the position back: a position
    /// that shows the text of `self` has the size and the tiles of `self`.
    pub proof fn lemma_text_roundtrip(&self, read: SkiJumps)
        requires
            self.wf(),
            self.slope().width >= 1,
            self.slope().height >= 1,
            read.wf(),
            is_rows(self.text(), read.slope().width, read.slope().height, Alphabet::Skiers),
            forall|x: int, y: int|
                read.slope().in_range(x, y) ==> (#[trigger] read.slope().tile(x, y)).to_char()
                    == self.text()[(read.slope().width + 1) * y + x],
        ensures
            read.slope() == self.slope(),
    {
        let w = self.slope().width;
        let h = self.slope().height;
        self.lemma_text_shape();
        lemma_rows_unique(
            self.text(),
            w,
            h,
            read.slope().width,
            read.slope().height,
            Alphabet::Skiers,
        );
        assert forall|i: int| 0 <= i < w * h implies read.slope().tiles[i] == self.slope().tiles[i] by {
            let x = i % w;
            let y = i / w;
            vstd::arithmetic::div_mod::lemma_fundamental_div_mod(i, w);
            vstd::arithmetic::div_mod::lemma_mod_bound(i, w);
            assert(w * y == y * w) by (nonlinear_arith);
            assert(0 <= y < h) by (nonlinear_arith)
                requires
                    i == w * y + x,
                    0 <= x < w,
                    0 <= i < w * h,
                    w >= 1,
            ;
            assert(read.slope().in_range(x, y));
            assert(read.slope().tile(x, y) == read.slope().tiles[i]);
            assert(self.slope().tile(x, y) == self.slope().tiles[i]);
            let j = (w + 1) * y + x;
            lemma_tile_index_split(w + 1, x, y);
            assert(0 <= j < self.text().len()) by (nonlinear_arith)
                requires
                    j == (w + 1) * y + x,
                    0 <= x < w,
                    0 <= y < h,
                    self.text().len() == h * (w + 1) - 1,
            ;
            assert(self.text()[j] == self.text_char(j));
            assert(read.slope().tile(x, y).to_char() == self.slope().tile(x, y).to_char());
        }
        assert(read.slope().tiles =~= self.slope().tiles);
    }

    /// Reads a position from its text.
    ///
    /// There is one exactly where the text is a rectangle of tiles of at
    /// most 255 columns and 255 rows; it has the tiles that the text shows.
    pub fn parse(input: &str) -> (r: Option<SkiJumps>)
        ensures
            r is Some <==> exists|w: int, h: int|
                is_rows(input@, w, h, Alphabet::Skiers) && w <= 255 && h <= 255,
            r matches Some(g) ==> g.wf() && is_rows(
                input@,
                g.slope().width,
                g.slope().height,
                Alphabet::Skiers,
            ) && forall|x: int, y: int|
                g.slope().in_range(x, y) ==> (#[trigger] g.slope().tile(x, y)).to_char() == input@[(
                g.slope().width + 1) * y + x],
    {
        let chars = chars_of(input);
        let (w, h) = match scan_rows(&chars, Alphabet::Skiers) {
            Ok(shape) => shape,
            Err(_) => {
                return None;
            },
        };
        proof {
            assert forall|w2: int, h2: int| is_rows(input@, w2, h2, Alphabet::Skiers) implies w2 == w
                && h2 == h by {
                lemma_rows_unique(input@, w as int, h as int, w2, h2, Alphabet::Skiers);
            }
        }
        if w > 255 || h > 255 {
            return None;
        }
        let width = w as u8;
        let height = h as u8;
        let mut grid: VecGrid<Tile> = VecGrid::new(width, height, Tile::Empty);
        let mut y: u8 = 0;
        while y < height
            invariant
                grid.wf(),
                grid.width() == width,
                grid.height() == height,
                width == w,
                height == h,
                1 <= w,
                chars@.len() == h * (w + 1) - 1,
                is_rows(chars@, w as int, h as int, Alphabet::Skiers),
                y <= height,
                forall|x2: int, y2: int|
                    0 <= x2 < width && 0 <= y2 < y ==> (#[trigger] grid.tile(x2, y2)).to_char()
                        == chars@[(w + 1) * y2 + x2],
            decreases height - y,
        {
            let mut x: u8 = 0;
            while x < width
                invariant
                    grid.wf(),
                    grid.width() == width,
                    grid.height() == height,
                    width == w,
                    height == h,
                    1 <= w,
                    chars@.len() == h * (w + 1) - 1,
                    is_rows(chars@, w as int, h as int, Alphabet::Skiers),
                    y < height,
                    x <= width,
                    forall|x2: int, y2: int|
                        0 <= x2 < width && (0 <= y2 < y || (y2 == y && x2 < x)) ==> (
                        #[trigger] grid.tile(x2, y2)).to_char() == chars@[(w + 1) * y2 + x2],
                decreases width - x,
            {
                proof {
                    lemma_tile_index_split(w + 1, x as int, y as int);
                    assert((w + 1) * y + x <= h * (w + 1) - 2 && 0 <= (w + 1) * y) by (nonlinear_arith)
                        requires
                            0 <= x < w,
                            0 <= y < h,
                    ;
                    assert((w + 1) * y <= 256 * 255) by (nonlinear_arith)
                        requires
                            w <= 255,
                            0 <= y <= 255,
                    ;
                }
                let at: usize = (w + 1) * (y as usize) + (x as usize);
                let c = chars[at];
                assert(Alphabet::Skiers.allows(c));
                let ghost before = grid;
                let t = match Tile::char_to_tile(c) {
                    Some(t) => t,
                    None => Tile::Empty,
                };
                grid.set(x, y, t);
                proof {
                    assert forall|x2: int, y2: int|
                        0 <= x2 < width && (0 <= y2 < y || (y2 == y && x2 < x + 1)) implies (
                    #[trigger] grid.tile(x2, y2)).to_char() == chars@[(w + 1) * y2 + x2] by {
                        lemma_tile_index_split(width as int, x2, y2);
                        lemma_tile_index_split(width as int, x as int, y as int);
                        lemma_tile_index_bound(width as int, height as int, x2, y2);
                        lemma_tile_index_bound(width as int, height as int, x as int, y as int);
                        let i1 = width * y + x;
                        let i2 = width * y2 + x2;
                        assert(grid.tiles() == before.tiles().update(i1, t));
                        if !(x2 == x && y2 == y) {
                            assert(i1 != i2);
                            assert(grid.tiles()[i2] == before.tiles()[i2]);
                            assert(before.tile(x2, y2).to_char() == chars@[(w + 1) * y2 + x2]);
                        } else {
                            assert(grid.tiles()[i1] == t);
                        }
                    }
                }
                x += 1;
            }
            y += 1;
        }
        let g = SkiJumps { grid };
        proof {
            assert forall|x: int, y: int| g.slope().in_range(x, y) implies (#[trigger] g.slope().tile(
                x,
                y,
            )).to_char() == input@[(g.slope().width + 1) * y + x] by {
                assert(g.grid.tile(x, y) == g.slope().tile(x, y));
            }
        }
        Some(g)
    }

    /// Whether the two positions have the same slope.
    pub fn same_slope(&self, other: &SkiJumps) -> (r: bool)
        ensures
            r == (self.slope() == other.slope()),
    {
        if self.grid.width() != other.grid.width() || self.grid.height() != other.grid.height() {
            return false;
        }
        let count = self.grid.tile_count();
        if count != other.grid.tile_count() {
            return false;
        }
        let ghost s = self.slope();
        let ghost o = other.slope();
        let mut i: usize = 0;
        while i < count
            invariant
                s == self.slope(),
                o == other.slope(),
                count == s.tiles.len(),
                count == o.tiles.len(),
                i <= count,
                forall|j: int| 0 <= j < i ==> s.tiles[j] == o.tiles[j],
            decreases count - i,
        {
            if self.grid.tile_at(i) != other.grid.tile_at(i) {
                assert(s.tiles[i as int] != o.tiles[i as int]);
                return false;
            }
            i += 1;
        }
        proof {
            assert(s.tiles =~= o.tiles);
        }
        true
    }

    /// The number under which the position is filed.
    pub fn fingerprint_of(&self) -> (r: u64)
        ensures
            r == slope_fingerprint(self.slope().tiles, self.slope().tiles.len() as int),
    {
        let count = self.grid.tile_count();
        let mut h: u64 = 0xcbf2_9ce4_8422_2325;
        let mut i: usize = 0;
        while i < count
            invariant
                count == self.slope().tiles.len(),
                i <= count,
                h == slope_fingerprint(self.slope().tiles, i as int),
            decreases count - i,
        {
            let code: u64 = match self.grid.tile_at(i) {
                Tile::Empty => 0,
                Tile::Left(Skier::Jumper) => 1,
                Tile::Left(Skier::Slipper) => 2,
                Tile::Right(Skier::Jumper) => 3,
                Tile::Right(Skier::Slipper) => 4,
            };
            proof {
                assert((i + 1) - 1 == i);
            }
            h = h.wrapping_mul(0x100_0000_01b3).wrapping_add(code);
            i += 1;
        }
        h
    }

    /// A copy of the position.
    pub fn duplicate(&self) -> (r: SkiJumps)
        ensures
            r.slope() == self.slope(),
    {
        SkiJumps { grid: self.grid.duplicate() }
    }

    /// The canonical form of the position.
    ///
    /// Where no jump is possible any more it is the integer that
    /// `reductions` gives; else it is the game whose left options are the
    /// forms of the positions after the moves of Left and whose right options
    /// are those after the moves of Right.
    pub fn canonical_form(&self, cache: &mut TranspositionTable<SkiJumps>) -> (r: Game)
        requires
            old(cache).wf(),
            self.wf(),
        ensures
            final(cache).wf(),
            final(cache).grows_from(old(cache)),
            final(cache).games().has(r),
            final(cache).grids().contains_key(self.slope()),
            final(cache).grids()[self.slope()] == r.id,
    {
        cache.canonical_form(self)
    }
}

/// The number under which a slope is filed.
pub open spec fn slope_fingerprint(tiles: Seq<Tile>, n: int) -> u64
    decreases n,
{
    if n <= 0 {
        0xcbf2_9ce4_8422_2325
    } else {
        slope_fingerprint(tiles, n - 1).wrapping_mul(0x100_0000_01b3).wrapping_add(
            tile_code(tiles[n - 1]),
        )
    }
}

/// A number for every kind of tile.
pub open spec fn tile_code(t: Tile) -> u64 {
    match t {
        Tile::Empty => 0,
        Tile::Left(Skier::Jumper) => 1,
        Tile::Left(Skier::Slipper) => 2,
        Tile::Right(Skier::Jumper) => 3,
        Tile::Right(Skier::Slipper) => 4,
    }
}

impl PartizanGame for SkiJumps {
    /// A position is its slope.
    type State = Slope;

    open spec fn state(&self) -> Slope {
        self.slope()
    }

    open spec fn valid(s: Slope) -> bool {
        s.wf()
    }

    /// Every move makes the skiers lighter together.
    open spec fn rank(s: Slope) -> nat {
        s.weight()
    }

    /// A position is kept as it is.
    open spec fn normal(s: Slope) -> Slope {
        s
    }

    open spec fn left_options(s: Slope) -> Set<Slope> {
        Set::new(|m: Slope| s.is_move(true, m))
    }

    open spec fn right_options(s: Slope) -> Set<Slope> {
        Set::new(|m: Slope| s.is_move(false, m))
    }

    /// A position does not fall into parts.
    open spec fn components(s: Slope) -> Seq<Slope> {
        seq![s]
    }

    /// Where no jump is possible any more, the value is the number of moves
    /// that Left has less those that Right has.
    open spec fn reduced(s: Slope) -> Option<int> {
        if s.jump_available() {
            None
        } else {
            Some(s.worth_upto(s.tiles.len() as int))
        }
    }

    open spec fn fingerprint_spec(s: Slope) -> u64 {
        slope_fingerprint(s.tiles, s.tiles.len() as int)
    }

    fn normalized(&self) -> (r: Self) {
        self.duplicate()
    }

    fn left_moves(&self) -> (moves: Vec<Self>) {
        let moves = self.moves_for(true);
        proof {
            assert forall|s: Slope|
                Self::left_options(self.slope()).contains(s) <==> exists|k: int|
                    0 <= k < moves@.len() && (#[trigger] moves@[k]).state() == s by {
                assert(slopes(moves@).contains(s) == self.slope().is_move(true, s));
            }
        }
        moves
    }

    fn right_moves(&self) -> (moves: Vec<Self>) {
        let moves = self.moves_for(false);
        proof {
            assert forall|s: Slope|
                Self::right_options(self.slope()).contains(s) <==> exists|k: int|
                    0 <= k < moves@.len() && (#[trigger] moves@[k]).state() == s by {
                assert(slopes(moves@).contains(s) == self.slope().is_move(false, s));
            }
        }
        moves
    }

    fn decompositions(&self) -> (parts: Vec<Self>) {
        let mut parts: Vec<SkiJumps> = Vec::new();
        parts.push(self.duplicate());
        parts
    }

    fn reductions(&self) -> (r: Option<i64>) {
        SkiJumps::reductions(self)
    }

    fn fingerprint(&self) -> (r: u64) {
        self.fingerprint_of()
    }

    fn same_as(&self, other: &Self) -> (r: bool) {
        self.same_slope(other)
    }

    fn duplicate(&self) -> (r: Self) {
        SkiJumps::duplicate(self)
    }
}

} // verus!

//! A region of a Domineering position, taken as a position of its own, is
//! its own only region, and is kept as it is.

use crate::domineering::Position;
use crate::grid::small_bit_grid::{lemma_tile_index_bound, lemma_tile_index_split, SmallBitGrid};
use crate::short::partizan::partizan_game::PartizanGame;
use crate::short::partizan::transposition_table::TranspositionTable;
use vstd::prelude::*;

verus! {

/// The path the other way round.
pub open spec fn reversed(path: Seq<(int, int)>) -> Seq<(int, int)> {
    Seq::new(path.len(), |i: int| path[path.len() - 1 - i])
}

impl Position {
    /// A tile on a path belongs to the region of the tile from which the
    /// path starts.
    pub proof fn lemma_path_prefix(&self, path: Seq<(int, int)>, sx: int, sy: int, x: int, y: int, i: int)
        requires
            self.is_path(path, sx, sy, x, y),
            0 <= i < path.len(),
        ensures
            self.connected(sx, sy, path[i].0, path[i].1),
    {
        let start = path.take(i + 1);
        assert forall|j: int| 0 <= j < start.len() - 1 implies self.linked(
            (#[trigger] start[j]).0,
            start[j].1,
            start[j + 1].0,
            start[j + 1].1,
        ) by {
            assert(start[j] == path[j] && start[j + 1] == path[j + 1]);
            assert(self.linked(path[j].0, path[j].1, path[j + 1].0, path[j + 1].1));
        }
        assert(self.is_path(start, sx, sy, path[i].0, path[i].1));
    }

    /// A tile of the region of another has that other in its region.
    pub proof fn lemma_connected_back(&self, sx: int, sy: int, x: int, y: int)
        requires
            self.connected(sx, sy, x, y),
        ensures
            self.connected(x, y, sx, sy),
    {
        let path = choose|path: Seq<(int, int)>| self.is_path(path, sx, sy, x, y);
        self.lemma_connected_is_free(sx, sy, x, y);
        let back = reversed(path);
        let n = path.len() as int;
        assert forall|j: int| 0 <= j < back.len() - 1 implies self.linked(
            (#[trigger] back[j]).0,
            back[j].1,
            back[j + 1].0,
            back[j + 1].1,
        ) by {
            let k = n - 2 - j;
            assert(back[j] == path[k + 1] && back[j + 1] == path[k]);
            assert(self.linked(path[k].0, path[k].1, path[k + 1].0, path[k + 1].1));
        }
        assert(self.is_path(back, x, y, sx, sy));
    }

    /// The region of a tile holds the regions of its tiles.
    pub proof fn lemma_connected_on(&self, ax: int, ay: int, bx: int, by: int, cx: int, cy: int)
        requires
            self.connected(ax, ay, bx, by),
            self.connected(bx, by, cx, cy),
        ensures
            self.connected(ax, ay, cx, cy),
    {
        let first = choose|path: Seq<(int, int)>| self.is_path(path, ax, ay, bx, by);
        let second = choose|path: Seq<(int, int)>| self.is_path(path, bx, by, cx, cy);
        let whole = first + second.subrange(1, second.len() as int);
        let n = first.len() as int;
        assert forall|j: int| 0 <= j < whole.len() - 1 implies self.linked(
            (#[trigger] whole[j]).0,
            whole[j].1,
            whole[j + 1].0,
            whole[j + 1].1,
        ) by {
            if j + 1 < n {
                assert(whole[j] == first[j] && whole[j + 1] == first[j + 1]);
                assert(self.linked(first[j].0, first[j].1, first[j + 1].0, first[j + 1].1));
            } else {
                let k = j - n + 1;
                assert(whole[j + 1] == second[k + 1]);
                assert(whole[j] == second[k]) by {
                    if j == n - 1 {
                        assert(whole[j] == first[n - 1]);
                    }
                }
                assert(self.linked(second[k].0, second[k].1, second[k + 1].0, second[k + 1].1));
            }
        }
        assert(whole[whole.len() - 1] == (cx, cy)) by {
            if second.len() == 1 {
                assert(whole =~= first);
            } else {
                assert(whole[whole.len() - 1] == second[second.len() - 1]);
            }
        }
        assert(whole[0] == first[0]);
        assert(self.is_path(whole, ax, ay, cx, cy));
    }

    /// The grid of this size in which the first `n` tiles are free exactly
    /// where they belong to the region of `(sx, sy)`, and the others as they
    /// are.
    pub open spec fn region_upto(&self, sx: int, sy: int, n: int) -> SmallBitGrid
        decreases n,
    {
        if n <= 0 {
            self.grid()
        } else {
            self.region_upto(sx, sy, n - 1).with_tile(
                self.column_of(n - 1),
                self.row_of(n - 1),
                !self.connected(sx, sy, self.column_of(n - 1), self.row_of(n - 1)),
            )
        }
    }

    proof fn lemma_region_upto(&self, sx: int, sy: int, n: int)
        requires
            self.wf(),
            0 <= n <= self.width() * self.height(),
        ensures
            self.region_upto(sx, sy, n).wf(),
            self.region_upto(sx, sy, n).width() == self.width(),
            self.region_upto(sx, sy, n).height() == self.height(),
            forall|x: int, y: int|
                self.in_range(x, y) && self.width() * y + x < n ==> #[trigger] self.region_upto(
                    sx,
                    sy,
                    n,
                ).cell(x, y) == !self.connected(sx, sy, x, y),
        decreases n,
    {
        if n > 0 {
            self.lemma_region_upto(sx, sy, n - 1);
            let before = self.region_upto(sx, sy, n - 1);
            let w = self.width() as int;
            let h = self.height() as int;
            assert(w > 0) by (nonlinear_arith)
                requires
                    0 < n <= w * h,
                    h >= 0,
            ;
            let cx = (n - 1) % w;
            let cy = (n - 1) / w;
            vstd::arithmetic::div_mod::lemma_fundamental_div_mod(n - 1, w);
            vstd::arithmetic::div_mod::lemma_mod_bound(n - 1, w);
            assert(w * cy == cy * w) by (nonlinear_arith);
            assert(0 <= cy < h) by (nonlinear_arith)
                requires
                    n - 1 == w * cy + cx,
                    0 <= cx < w,
                    0 <= n - 1 < w * h,
            ;
            before.lemma_with_tile(cx, cy, !self.connected(sx, sy, cx, cy));
            assert forall|x: int, y: int| self.in_range(x, y) && w * y + x < n implies #[trigger] self.region_upto(
                sx,
                sy,
                n,
            ).cell(x, y) == !self.connected(sx, sy, x, y) by {
                if w * y + x == n - 1 {
                    lemma_tile_index_split(w, x, y);
                } else {
                    assert(x != cx || y != cy);
                    assert(before.in_range(x, y));
                }
            }
        }
    }

    /// Every free tile has a grid of its region.
    pub proof fn lemma_region_grid_exists(&self, sx: int, sy: int)
        requires
            self.wf(),
        ensures
            exists|g: SmallBitGrid| self.is_region_grid(sx, sy, g),
    {
        let n = self.width() * self.height();
        self.lemma_region_upto(sx, sy, n);
        let g = self.region_upto(sx, sy, n);
        assert forall|x: int, y: int| self.in_range(x, y) implies #[trigger] g.cell(x, y)
            == !self.connected(sx, sy, x, y) by {
            lemma_tile_index_bound(self.width() as int, self.height() as int, x, y);
        }
        assert(self.is_region_grid(sx, sy, g));
    }

    /// The free tiles of a grid lie between its margins.
    proof fn lemma_free_between_margins(g: SmallBitGrid, x: int, y: int)
        requires
            g.in_range(x, y),
            !g.cell(x, y),
        ensures
            g.margin(false, false) <= x < g.width() - g.margin(false, true),
            g.margin(true, false) <= y < g.height() - g.margin(true, true),
    {
        g.lemma_margin_exists(false, false);
        g.lemma_margin_exists(false, true);
        g.lemma_margin_exists(true, false);
        g.lemma_margin_exists(true, true);
        if x < g.margin(false, false) {
            assert(g.line_filled(false, false, x));
            assert(g.column_filled(x));
        }
        if x >= g.width() - g.margin(false, true) {
            assert(g.line_filled(false, true, g.width() - 1 - x));
            assert(g.column_filled(x));
        }
        if y < g.margin(true, false) {
            assert(g.line_filled(true, false, y));
            assert(g.row_filled(y));
        }
        if y >= g.height() - g.margin(true, true) {
            assert(g.line_filled(true, true, g.height() - 1 - y));
            assert(g.row_filled(y));
        }
    }

    /// The place of the first free tile among the first `n` tiles, or minus
    /// one where none of them is free.
    pub open spec fn first_free(&self, n: int) -> int
        decreases n,
    {
        if n <= 0 {
            -1
        } else if self.first_free(n - 1) >= 0 {
            self.first_free(n - 1)
        } else if !self.cell(self.column_of(n - 1), self.row_of(n - 1)) {
            n - 1
        } else {
            -1
        }
    }

    /// A free tile among the first `n` makes one of them the first.
    proof fn lemma_first_free(&self, n: int, i: int)
        requires
            0 <= i < n,
            !self.cell(self.column_of(i), self.row_of(i)),
        ensures
            0 <= self.first_free(n) < n,
            !self.cell(self.column_of(self.first_free(n)), self.row_of(self.first_free(n))),
        decreases n,
    {
        if i < n - 1 {
            self.lemma_first_free(n - 1, i);
        } else if self.first_free(n - 1) >= 0 {
            self.lemma_first_free_is_free(n - 1);
        }
    }

    proof fn lemma_first_free_is_free(&self, n: int)
        requires
            self.first_free(n) >= 0,
        ensures
            self.first_free(n) < n,
            !self.cell(self.column_of(self.first_free(n)), self.row_of(self.first_free(n))),
        decreases n,
    {
        if n > 0 && self.first_free(n - 1) >= 0 {
            self.lemma_first_free_is_free(n - 1);
        }
    }

    /// The tile at the place `i` of a grid with tiles.
    proof fn lemma_tile_place(&self, i: int)
        requires
            self.wf(),
            0 <= i < self.width() * self.height(),
        ensures
            self.in_range(self.column_of(i), self.row_of(i)),
            self.width() * self.row_of(i) + self.column_of(i) == i,
    {
        let w = self.width() as int;
        let h = self.height() as int;
        assert(w > 0) by (nonlinear_arith)
            requires
                0 <= i < w * h,
                h >= 0,
        ;
        vstd::arithmetic::div_mod::lemma_fundamental_div_mod(i, w);
        vstd::arithmetic::div_mod::lemma_mod_bound(i, w);
        let cx = i % w;
        let cy = i / w;
        assert(w * cy == cy * w) by (nonlinear_arith);
        assert(0 <= cy < h) by (nonlinear_arith)
            requires
                i == w * cy + cx,
                0 <= cx < w,
                0 <= i < w * h,
        ;
    }

    /// In a position whose free tiles all belong to one region, the regions
    /// that start among the first `n` tiles are the region of the first
    /// free tile, if there is one.
    proof fn lemma_one_region(&self, n: int)
        requires
            self.wf(),
            0 <= n <= self.width() * self.height(),
            forall|x1: int, y1: int, x2: int, y2: int|
                self.in_range(x1, y1) && !self.cell(x1, y1) && self.in_range(x2, y2) && !self.cell(
                    x2,
                    y2,
                ) ==> #[trigger] self.connected(x1, y1, x2, y2),
        ensures
            self.first_free(n) < 0 ==> self.regions(n) =~= Seq::<Position>::empty() && forall|
                x: int,
                y: int,
            | !#[trigger] self.covered(n, x, y),
            self.first_free(n) >= 0 ==> self.regions(n) =~= seq![
                self.region(
                    self.column_of(self.first_free(n)),
                    self.row_of(self.first_free(n)),
                ),
            ] && forall|x: int, y: int| #[trigger]
                self.covered(n, x, y) == self.connected(
                    self.column_of(self.first_free(n)),
                    self.row_of(self.first_free(n)),
                    x,
                    y,
                ),
        decreases n,
    {
        if n > 0 {
            self.lemma_one_region(n - 1);
            self.lemma_tile_place(n - 1);
            let cx = self.column_of(n - 1);
            let cy = self.row_of(n - 1);
            let f = self.first_free(n - 1);
            if f >= 0 {
                self.lemma_first_free_is_free(n - 1);
                self.lemma_tile_place(f);
                let fx = self.column_of(f);
                let fy = self.row_of(f);
                if !self.cell(cx, cy) {
                    assert(self.connected(fx, fy, cx, cy));
                    assert(self.covered(n - 1, cx, cy));
                }
                assert(!self.starts_region(n - 1));
                assert forall|x: int, y: int| #[trigger]
                    self.covered(n, x, y) == self.connected(fx, fy, x, y) by {
                    assert(self.covered(n - 1, x, y) == self.connected(fx, fy, x, y));
                }
            } else {
                assert(!self.covered(n - 1, cx, cy));
                if !self.cell(cx, cy) {
                    assert(self.starts_region(n - 1));
                    assert forall|x: int, y: int| #[trigger]
                        self.covered(n, x, y) == self.connected(cx, cy, x, y) by {
                        assert(!self.covered(n - 1, x, y));
                    }
                } else {
                    assert(!self.starts_region(n - 1));
                    assert forall|x: int, y: int| !#[trigger] self.covered(n, x, y) by {
                        assert(!self.covered(n - 1, x, y));
                    }
                }
            }
        }
    }

    /// A position with a free tile whose free tiles all belong to one
    /// region, and which has no wholly taken row or column at an edge, is its
    /// own only region.
    pub proof fn lemma_whole_region(&self)
        requires
            self.wf(),
            self.grid().top_left() == self.grid(),
            exists|x: int, y: int| self.in_range(x, y) && !self.cell(x, y),
            forall|x1: int, y1: int, x2: int, y2: int|
                self.in_range(x1, y1) && !self.cell(x1, y1) && self.in_range(x2, y2) && !self.cell(
                    x2,
                    y2,
                ) ==> #[trigger] self.connected(x1, y1, x2, y2),
        ensures
            self.components() =~= seq![*self],
    {
        let n = self.width() * self.height();
        let (x, y) = choose|x: int, y: int| self.in_range(x, y) && !self.cell(x, y);
        lemma_tile_index_bound(self.width() as int, self.height() as int, x, y);
        lemma_tile_index_split(self.width() as int, x, y);
        let i = self.width() * y + x;
        assert(self.column_of(i) == x && self.row_of(i) == y);
        self.lemma_first_free(n, i);
        self.lemma_one_region(n);
        let f = self.first_free(n);
        self.lemma_tile_place(f);
        let fx = self.column_of(f);
        let fy = self.row_of(f);
        // The grid of the position is the grid of the region of the first
        // free tile.
        assert(self.is_region_grid(fx, fy, self.grid())) by {
            assert forall|x2: int, y2: int| self.in_range(x2, y2) implies #[trigger] self.grid().cell(
                x2,
                y2,
            ) == !self.connected(fx, fy, x2, y2) by {
                if self.connected(fx, fy, x2, y2) {
                    self.lemma_connected_is_free(fx, fy, x2, y2);
                } else {
                    assert(self.cell(x2, y2) == self.grid().cell(x2, y2));
                    if !self.cell(x2, y2) {
                        assert(self.connected(fx, fy, x2, y2));
                    }
                }
            }
        }
        let chosen = choose|g: SmallBitGrid| self.is_region_grid(fx, fy, g);
        chosen.lemma_top_left_by_cells(self.grid());
        Self::lemma_of(self.grid());
        Self::lemma_same_grid(self.region(fx, fy), *self);
    }

    /// A region of a position, taken as a position of its own, is its own
    /// only region, and is kept as it is: it has no wholly taken row or
    /// column at an edge.
    pub proof fn lemma_region_is_whole(&self, sx: int, sy: int)
        requires
            self.wf(),
            self.in_range(sx, sy),
            !self.cell(sx, sy),
        ensures
            self.region(sx, sy).wf(),
            self.region(sx, sy).components() =~= seq![self.region(sx, sy)],
            Self::of(self.region(sx, sy).grid().top_left()) == self.region(sx, sy),
    {
        self.lemma_region_grid_exists(sx, sy);
        let g = choose|g: SmallBitGrid| self.is_region_grid(sx, sy, g);
        let r = g.top_left();
        let c = self.region(sx, sy);
        Self::lemma_of(r);
        assert(c.grid() == r);
        g.lemma_top_left();
        assert(self.is_path(seq![(sx, sy)], sx, sy, sx, sy));
        assert(self.connected(sx, sy, sx, sy));
        assert(g.in_range(sx, sy) && !g.cell(sx, sy));
        assert(g.has_empty_cell());
        r.lemma_top_left();
        g.lemma_move_top_left_idempotent(r, r.top_left());
        let ml = g.margin(false, false);
        let mt = g.margin(true, false);
        Self::lemma_free_between_margins(g, sx, sy);
        let tx = sx - ml;
        let ty = sy - mt;
        assert(r.in_range(tx, ty));
        assert(r.cell(tx, ty) == g.cell(tx + ml, ty + mt));
        assert(c.in_range(tx, ty) && !c.cell(tx, ty));
        // Every free tile of the region is reached from the first one.
        assert forall|x2: int, y2: int| c.in_range(x2, y2) && !c.cell(x2, y2) implies c.connected(
            tx,
            ty,
            x2,
            y2,
        ) by {
            let vx = x2 + ml;
            let vy = y2 + mt;
            g.lemma_margin_exists(false, false);
            g.lemma_margin_exists(false, true);
            g.lemma_margin_exists(true, false);
            g.lemma_margin_exists(true, true);
            assert(r.in_range(x2, y2));
            assert(r.cell(x2, y2) == g.cell(vx, vy));
            assert(self.in_range(vx, vy));
            assert(self.connected(sx, sy, vx, vy));
            let path = choose|path: Seq<(int, int)>| self.is_path(path, sx, sy, vx, vy);
            let q = Seq::new(path.len(), |i: int| (path[i].0 - ml, path[i].1 - mt));
            assert forall|i: int| 0 <= i < q.len() implies c.in_range((#[trigger] q[i]).0, q[i].1)
                && !c.cell(q[i].0, q[i].1) by {
                self.lemma_path_prefix(path, sx, sy, vx, vy, i);
                self.lemma_connected_is_free(sx, sy, path[i].0, path[i].1);
                assert(!g.cell(path[i].0, path[i].1));
                Self::lemma_free_between_margins(g, path[i].0, path[i].1);
                assert(r.in_range(q[i].0, q[i].1));
                assert(r.cell(q[i].0, q[i].1) == g.cell(q[i].0 + ml, q[i].1 + mt));
            }
            assert forall|i: int| 0 <= i < q.len() - 1 implies c.linked(
                (#[trigger] q[i]).0,
                q[i].1,
                q[i + 1].0,
                q[i + 1].1,
            ) by {
                assert(self.linked(path[i].0, path[i].1, path[i + 1].0, path[i + 1].1));
                assert(c.in_range(q[i].0, q[i].1) && !c.cell(q[i].0, q[i].1));
                assert(c.in_range(q[i + 1].0, q[i + 1].1) && !c.cell(q[i + 1].0, q[i + 1].1));
            }
            assert(q[0] == (tx, ty));
            assert(q[q.len() - 1] == (x2, y2));
            assert(c.is_path(q, tx, ty, x2, y2));
        }
        assert forall|x1: int, y1: int, x2: int, y2: int|
            c.in_range(x1, y1) && !c.cell(x1, y1) && c.in_range(x2, y2) && !c.cell(
                x2,
                y2,
            ) implies #[trigger] c.connected(x1, y1, x2, y2) by {
            assert(c.connected(tx, ty, x1, y1));
            assert(c.connected(tx, ty, x2, y2));
            c.lemma_connected_back(tx, ty, x1, y1);
            c.lemma_connected_on(x1, y1, tx, ty, x2, y2);
        }
        c.lemma_whole_region();
        Self::lemma_same_grid(Self::of(c.grid().top_left()), c);
    }

    /// Every region of the list is the region of a free tile.
    proof fn lemma_regions_of_tiles(&self, n: int, k: int) -> (i: int)
        requires
            0 <= k < self.regions(n).len(),
        ensures
            0 <= i < n,
            self.starts_region(i),
            self.regions(n)[k] == self.region(self.column_of(i), self.row_of(i)),
        decreases n,
    {
        if self.starts_region(n - 1) && k == self.regions(n - 1).len() {
            n - 1
        } else {
            self.lemma_regions_of_tiles(n - 1, k)
        }
    }

    /// A part of a position is its own only part, and is kept as it is.
    pub proof fn lemma_part_is_whole(&self, k: int)
        requires
            self.wf(),
            0 <= k < self.components().len(),
        ensures
            self.components()[k].wf(),
            self.components()[k].components() =~= seq![self.components()[k]],
            Self::of(self.components()[k].grid().top_left()) == self.components()[k],
    {
        let i = self.lemma_regions_of_tiles(self.width() * self.height(), k);
        self.lemma_region_is_whole(self.column_of(i), self.row_of(i));
    }
}

/// The canonical form of a position is the sum of the canonical forms of
/// its parts: the form that the table has for a part of a position is the
/// form that it has for the part as a position of its own.
pub proof fn lemma_forms_of_parts(table: &TranspositionTable<Position>, position: Position, k: int)
    requires
        table.wf(),
        position.wf(),
        0 <= k < position.components().len(),
        table.grids().contains_key(position.components()[k]),
    ensures
        <Position as PartizanGame>::normal(position.components()[k]) == position.components()[k],
        table.parts().contains_key(position.components()[k]),
        table.grids()[position.components()[k]] == table.parts()[position.components()[k]],
{
    position.lemma_part_is_whole(k);
    table.lemma_part_as_position(position.components()[k]);
}

} // verus!

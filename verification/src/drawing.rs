//! Pictures of positions as plain shapes: letters at places and straight
//! lines, from which a drawing can be written in any format.

use crate::grid::small_bit_grid::{lemma_tile_index_bound, lemma_tile_index_split};
use crate::short::partizan::games::ski_jumps::{SkiJumps, Slope, Tile};
use crate::text::{decimal, push_decimal, push_signed_decimal, push_str, signed_decimal, string_of};
use vstd::prelude::*;

verus! {

/// Side of a tile in a picture.
pub const TILE_SIZE: u32 = 48;

/// Width of the lines of the grid in a picture.
pub const GRID_WIDTH: u32 = 4;

/// A letter in a picture, its middle at `x` and its foot at `y`.
#[derive(Debug, Clone, Copy, PartialEq, Eq, Structural)]
pub struct Label {
    pub x: i32,
    pub y: i32,
    pub text: char,
}

/// A straight line in a picture.
#[derive(Debug, Clone, Copy, PartialEq, Eq, Structural)]
pub struct Stroke {
    pub x1: i32,
    pub y1: i32,
    pub x2: i32,
    pub y2: i32,
    pub width: u32,
}

/// A picture: its size, its letters and its lines.
#[derive(Debug, Clone, PartialEq, Eq)]
pub struct Picture {
    pub width: u32,
    pub height: u32,
    pub labels: Vec<Label>,
    pub strokes: Vec<Stroke>,
}

/// The letter of the tile at `(x, y)`: in the middle of the tile from left
/// to right, and six tenths of the tile down.
pub open spec fn label_at(x: int, y: int, tile: Tile) -> Label {
    Label { x: (x * 48 + 2 + 24) as i32, y: (y * 48 + 2 + 28) as i32, text: tile.to_char() }
}

/// The letters of the first `n` tiles, row by row: one for every tile that
/// is not empty.
pub open spec fn labels_upto(slope: Slope, n: int) -> Seq<Label>
    decreases n,
{
    if n <= 0 || slope.width <= 0 {
        Seq::<Label>::empty()
    } else if slope.tiles[n - 1] == Tile::Empty {
        labels_upto(slope, n - 1)
    } else {
        labels_upto(slope, n - 1).push(
            label_at((n - 1) % slope.width, (n - 1) / slope.width, slope.tiles[n - 1]),
        )
    }
}

/// The line between the rows `y - 1` and `y`, as long as `length`.
pub open spec fn level_stroke(y: int, length: int) -> Stroke {
    Stroke {
        x1: 0,
        y1: (y * 48 + 2) as i32,
        x2: length as i32,
        y2: (y * 48 + 2) as i32,
        width: GRID_WIDTH,
    }
}

/// The line between the columns `x - 1` and `x`, as long as `length`.
pub open spec fn upright_stroke(x: int, length: int) -> Stroke {
    Stroke {
        x1: (x * 48 + 2) as i32,
        y1: 0,
        x2: (x * 48 + 2) as i32,
        y2: length as i32,
        width: GRID_WIDTH,
    }
}

/// The lines of a grid of `width` by `height` tiles: those between the
/// rows from the top, then those between the columns from the left.
pub open spec fn grid_strokes(width: int, height: int) -> Seq<Stroke> {
    Seq::new((height + 1) as nat, |y: int| level_stroke(y, width * 48 + 4)) + Seq::new(
        (width + 1) as nat,
        |x: int| upright_stroke(x, height * 48 + 4),
    )
}

/// A letter as SVG text.
pub open spec fn label_text(l: Label) -> Seq<char> {
    "<text text-anchor=\"middle\" x=\""@ + signed_decimal(l.x as int) + "\" y=\""@
        + signed_decimal(l.y as int) + "\">"@ + seq![l.text] + "</text>"@
}

/// A line as SVG text.
pub open spec fn stroke_text(s: Stroke) -> Seq<char> {
    "<line x1=\""@ + signed_decimal(s.x1 as int) + "\" y1=\""@ + signed_decimal(s.y1 as int)
        + "\" x2=\""@ + signed_decimal(s.x2 as int) + "\" y2=\""@ + signed_decimal(s.y2 as int)
        + "\" stroke-width=\""@ + decimal(s.width as nat) + "\"/>"@
}

/// The first `n` letters as SVG text, one after another.
pub open spec fn labels_text(labels: Seq<Label>, n: int) -> Seq<char>
    decreases n,
{
    if n <= 0 {
        Seq::<char>::empty()
    } else {
        labels_text(labels, n - 1) + label_text(labels[n - 1])
    }
}

/// The first `n` lines as SVG text, one after another.
pub open spec fn strokes_text(strokes: Seq<Stroke>, n: int) -> Seq<char>
    decreases n,
{
    if n <= 0 {
        Seq::<char>::empty()
    } else {
        strokes_text(strokes, n - 1) + stroke_text(strokes[n - 1])
    }
}

/// A picture as an SVG image: the letters, then the lines in black.
pub open spec fn svg_text(width: u32, height: u32, labels: Seq<Label>, strokes: Seq<Stroke>) -> Seq<
    char,
> {
    "<svg xmlns=\"http://www.w3.org/2000/svg\" width=\""@ + decimal(width as nat)
        + "\" height=\""@ + decimal(height as nat) + "\">"@ + labels_text(
        labels,
        labels.len() as int,
    ) + "<g stroke=\"black\">"@ + strokes_text(strokes, strokes.len() as int) + "</g></svg>"@
}

/// Appends `lead` and the numeral of `v` to `buf`.
fn push_field(buf: &mut Vec<char>, lead: &str, v: i64)
    ensures
        final(buf)@ == old(buf)@ + (lead@ + signed_decimal(v as int)),
{
    push_str(buf, lead);
    push_signed_decimal(buf, v);
    assert(buf@ =~= old(buf)@ + (lead@ + signed_decimal(v as int)));
}

/// Appends the SVG text of the letter to `buf`.
fn push_label(buf: &mut Vec<char>, l: Label)
    ensures
        final(buf)@ == old(buf)@ + label_text(l),
{
    let ghost start = buf@;
    push_field(buf, "<text text-anchor=\"middle\" x=\"", l.x as i64);
    let ghost a = "<text text-anchor=\"middle\" x=\""@ + signed_decimal(l.x as int);
    assert(buf@ == start + a);
    push_field(buf, "\" y=\"", l.y as i64);
    let ghost b = a + "\" y=\""@ + signed_decimal(l.y as int);
    assert(buf@ =~= start + b);
    push_str(buf, "\">");
    buf.push(l.text);
    push_str(buf, "</text>");
    assert(buf@ =~= start + (b + "\">"@ + seq![l.text] + "</text>"@));
    assert(label_text(l) =~= b + "\">"@ + seq![l.text] + "</text>"@);
}

/// Appends the SVG text of the line to `buf`.
fn push_stroke(buf: &mut Vec<char>, s: Stroke)
    ensures
        final(buf)@ == old(buf)@ + stroke_text(s),
{
    let ghost start = buf@;
    push_field(buf, "<line x1=\"", s.x1 as i64);
    let ghost a = "<line x1=\""@ + signed_decimal(s.x1 as int);
    assert(buf@ == start + a);
    push_field(buf, "\" y1=\"", s.y1 as i64);
    let ghost b = a + "\" y1=\""@ + signed_decimal(s.y1 as int);
    assert(buf@ =~= start + b);
    push_field(buf, "\" x2=\"", s.x2 as i64);
    let ghost c = b + "\" x2=\""@ + signed_decimal(s.x2 as int);
    assert(buf@ =~= start + c);
    push_field(buf, "\" y2=\"", s.y2 as i64);
    let ghost d = c + "\" y2=\""@ + signed_decimal(s.y2 as int);
    assert(buf@ =~= start + d);
    push_str(buf, "\" stroke-width=\"");
    push_decimal(buf, s.width as u64);
    push_str(buf, "\"/>");
    assert(buf@ =~= start + (d + "\" stroke-width=\""@ + decimal(s.width as nat) + "\"/>"@));
    assert(stroke_text(s) =~= d + "\" stroke-width=\""@ + decimal(s.width as nat) + "\"/>"@);
}

/// The picture as an SVG image.
pub fn picture_text(p: &Picture) -> (out: String)
    ensures
        out@ == svg_text(p.width, p.height, p.labels@, p.strokes@),
{
    let mut buf: Vec<char> = Vec::new();
    push_str(&mut buf, "<svg xmlns=\"http://www.w3.org/2000/svg\" width=\"");
    push_decimal(&mut buf, p.width as u64);
    push_str(&mut buf, "\" height=\"");
    push_decimal(&mut buf, p.height as u64);
    push_str(&mut buf, "\">");
    let ghost head = buf@;
    let mut k: usize = 0;
    while k < p.labels.len()
        invariant
            k <= p.labels@.len(),
            buf@ == head + labels_text(p.labels@, k as int),
        decreases p.labels@.len() - k,
    {
        push_label(&mut buf, p.labels[k]);
        proof {
            assert((k + 1) - 1 == k);
            assert(buf@ =~= head + labels_text(p.labels@, k + 1));
        }
        k += 1;
    }
    push_str(&mut buf, "<g stroke=\"black\">");
    let ghost middle = buf@;
    let mut k: usize = 0;
    while k < p.strokes.len()
        invariant
            k <= p.strokes@.len(),
            buf@ == middle + strokes_text(p.strokes@, k as int),
        decreases p.strokes@.len() - k,
    {
        push_stroke(&mut buf, p.strokes[k]);
        proof {
            assert((k + 1) - 1 == k);
            assert(buf@ =~= middle + strokes_text(p.strokes@, k + 1));
        }
        k += 1;
    }
    push_str(&mut buf, "</g></svg>");
    assert(buf@ =~= svg_text(p.width, p.height, p.labels@, p.strokes@));
    string_of(&buf)
}

impl SkiJumps {
    /// Draw position as SVG image
    pub fn to_svg(&self) -> (out: String)
        requires
            self.wf(),
        ensures
            out@ == svg_text(
                (self.slope().width * 48 + 4) as u32,
                (self.slope().width * 48 + 4) as u32,
                labels_upto(self.slope(), self.slope().width * self.slope().height),
                grid_strokes(self.slope().width, self.slope().height),
            ),
    {
        let p = self.picture();
        picture_text(&p)
    }

    /// The picture of the position: the grid, and in every tile that is not
    /// empty the letter of its skier. The picture is a square as wide as
    /// the grid with its lines.
    pub fn picture(&self) -> (p: Picture)
        requires
            self.wf(),
        ensures
            p.width == self.slope().width * 48 + 4,
            p.height == p.width,
            p.labels@ == labels_upto(self.slope(), self.slope().width * self.slope().height),
            p.strokes@ == grid_strokes(self.slope().width, self.slope().height),
    {
        let width = self.width();
        let height = self.height();
        let offset: u32 = GRID_WIDTH / 2;
        let svg_width: u32 = width as u32 * TILE_SIZE + GRID_WIDTH;
        let svg_height: u32 = height as u32 * TILE_SIZE + GRID_WIDTH;
        let mut labels: Vec<Label> = Vec::new();
        let mut n: usize = 0;
        let mut y: u8 = 0;
        while y < height
            invariant
                self.wf(),
                width == self.slope().width,
                height == self.slope().height,
                y <= height,
                n == width * y,
                offset == 2,
                labels@ == labels_upto(self.slope(), n as int),
            decreases height - y,
        {
            let mut x: u8 = 0;
            while x < width
                invariant
                    self.wf(),
                    width == self.slope().width,
                    height == self.slope().height,
                    y < height,
                    x <= width,
                    n == width * y + x,
                    offset == 2,
                    labels@ == labels_upto(self.slope(), n as int),
                decreases width - x,
            {
                proof {
                    lemma_tile_index_bound(width as int, height as int, x as int, y as int);
                    lemma_tile_index_split(width as int, x as int, y as int);
                    assert(width * height <= 255 * 255) by (nonlinear_arith)
                        requires
                            0 <= width <= 255,
                            0 <= height <= 255,
                    ;
                    assert((n + 1) - 1 == n);
                }
                let tile = self.get(x, y);
                match tile {
                    Tile::Empty => {},
                    _ => {
                        labels.push(
                            Label {
                                x: (x as u32 * TILE_SIZE + offset + TILE_SIZE / 2) as i32,
                                y: (y as u32 * TILE_SIZE + offset + (TILE_SIZE * 3) / 5) as i32,
                                text: tile.tile_to_char(),
                            },
                        );
                    },
                }
                n += 1;
                x += 1;
            }
            proof {
                assert(width * (y + 1) == width * y + width) by (nonlinear_arith);
            }
            y += 1;
        }
        let mut strokes: Vec<Stroke> = Vec::new();
        let mut row: u32 = 0;
        while row < height as u32 + 1
            invariant
                row <= height + 1,
                offset == 2,
                svg_width == width * 48 + 4,
                strokes@ == Seq::new(row as nat, |y: int| level_stroke(y, width * 48 + 4)),
            decreases height + 1 - row,
        {
            strokes.push(
                Stroke {
                    x1: 0,
                    y1: (row * TILE_SIZE + offset) as i32,
                    x2: svg_width as i32,
                    y2: (row * TILE_SIZE + offset) as i32,
                    width: GRID_WIDTH,
                },
            );
            assert(strokes@ =~= Seq::new((row + 1) as nat, |y: int| level_stroke(y, width * 48 + 4)));
            row += 1;
        }
        let ghost level = strokes@;
        let mut column: u32 = 0;
        while column < width as u32 + 1
            invariant
                column <= width + 1,
                offset == 2,
                svg_height == height * 48 + 4,
                strokes@ == level + Seq::new(
                    column as nat,
                    |x: int| upright_stroke(x, height * 48 + 4),
                ),
            decreases width + 1 - column,
        {
            strokes.push(
                Stroke {
                    x1: (column * TILE_SIZE + offset) as i32,
                    y1: 0,
                    x2: (column * TILE_SIZE + offset) as i32,
                    y2: svg_height as i32,
                    width: GRID_WIDTH,
                },
            );
            assert(strokes@ =~= level + Seq::new(
                (column + 1) as nat,
                |x: int| upright_stroke(x, height * 48 + 4),
            ));
            column += 1;
        }
        Picture { width: svg_width, height: svg_width, labels, strokes }
    }
}

} // verus!

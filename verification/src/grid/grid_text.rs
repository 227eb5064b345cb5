//! The text of a grid: its rows from the top, one character for each tile,
//! with `|` between two rows.

use crate::grid::small_bit_grid::lemma_tile_index_split;
use vstd::arithmetic::div_mod::lemma_fundamental_div_mod_converse;
use vstd::prelude::*;

verus! {

/// The characters that stand for tiles in the text of a grid.
#[derive(Debug, Clone, Copy, PartialEq, Eq, Structural)]
pub enum Alphabet {
    /// `.` for a free tile and `#` for a taken one.
    Bits,
    /// `.` for a free tile, `L` and `l` for the skiers of Left, `R` and `r`
    /// for those of Right.
    Skiers,
}

/// Why a text is not a grid.
#[derive(Debug, Clone, Copy, PartialEq, Eq, Structural)]
pub enum RowsError {
    /// A row is empty, or longer or shorter than the first, or a character
    /// stands for no tile.
    Malformed,
}

impl Alphabet {
    /// The character stands for a tile.
    pub open spec fn allows(&self, c: char) -> bool {
        match *self {
            Alphabet::Bits => c == '.' || c == '#',
            Alphabet::Skiers => c == '.' || c == 'L' || c == 'l' || c == 'R' || c == 'r',
        }
    }

    /// Whether the character stands for a tile.
    pub fn admits(&self, c: char) -> (r: bool)
        ensures
            r == self.allows(c),
    {
        match *self {
            Alphabet::Bits => c == '.' || c == '#',
            Alphabet::Skiers => c == '.' || c == 'L' || c == 'l' || c == 'R' || c == 'r',
        }
    }
}

/// `s` consists of `h` rows of `w` tiles each, in the characters of the
/// alphabet, with a `|` between two rows.
pub open spec fn is_rows(s: Seq<char>, w: int, h: int, alphabet: Alphabet) -> bool {
    &&& 1 <= w
    &&& 1 <= h
    &&& s.len() == h * (w + 1) - 1
    &&& forall|i: int|
        0 <= i < s.len() ==> if i % (w + 1) == w {
            s[i] == '|'
        } else {
            alphabet.allows(#[trigger] s[i])
        }
}

/// The width of the rows is the place of the first `|`, or the length of the
/// text where it has none.
pub proof fn lemma_rows_width(s: Seq<char>, w: int, h: int, alphabet: Alphabet, first_bar: int)
    requires
        is_rows(s, w, h, alphabet),
        0 <= first_bar <= s.len(),
        forall|i: int| 0 <= i < first_bar ==> s[i] != '|',
        first_bar < s.len() ==> s[first_bar] == '|',
    ensures
        w == first_bar,
        s.len() == (h - 1) * (w + 1) + w,
{
    assert(h * (w + 1) - 1 == (h - 1) * (w + 1) + w) by (nonlinear_arith);
    assert((h - 1) * (w + 1) >= 0) by (nonlinear_arith)
        requires
            h >= 1,
            w >= 1,
    ;
    assert(w <= s.len());
    if w < s.len() {
        lemma_tile_index_split(w + 1, w, 0);
        assert((w + 1) * 0 + w == w);
        assert(s[w] == '|');
        if first_bar < w {
            lemma_tile_index_split(w + 1, first_bar, 0);
            assert((w + 1) * 0 + first_bar == first_bar);
            assert(alphabet.allows(s[first_bar]));
        }
    } else {
        if first_bar < s.len() {
            lemma_tile_index_split(w + 1, first_bar, 0);
            assert((w + 1) * 0 + first_bar == first_bar);
            assert(alphabet.allows(s[first_bar]));
        }
    }
}

/// A text has at most one shape.
pub proof fn lemma_rows_unique(s: Seq<char>, w1: int, h1: int, w2: int, h2: int, alphabet: Alphabet)
    requires
        is_rows(s, w1, h1, alphabet),
        is_rows(s, w2, h2, alphabet),
    ensures
        w1 == w2,
        h1 == h2,
{
    assert(h1 * (w1 + 1) - 1 == (h1 - 1) * (w1 + 1) + w1) by (nonlinear_arith);
    assert((h1 - 1) * (w1 + 1) >= 0) by (nonlinear_arith)
        requires
            h1 >= 1,
            w1 >= 1,
    ;
    assert forall|i: int| 0 <= i < w1 implies s[i] != '|' by {
        lemma_tile_index_split(w1 + 1, i, 0);
        assert((w1 + 1) * 0 + i == i);
        assert(alphabet.allows(s[i]));
    }
    if w1 < s.len() {
        lemma_tile_index_split(w1 + 1, w1, 0);
        assert((w1 + 1) * 0 + w1 == w1);
    }
    lemma_rows_width(s, w2, h2, alphabet, w1);
    assert(h1 == h2) by (nonlinear_arith)
        requires
            h1 * (w1 + 1) == h2 * (w1 + 1),
            w1 >= 1,
    ;
}

/// The width and the height of the grid that the text shows, if it shows
/// one.
pub fn scan_rows(input: &Vec<char>, alphabet: Alphabet) -> (r: Result<(usize, usize), RowsError>)
    ensures
        r is Ok <==> exists|w: int, h: int| is_rows(input@, w, h, alphabet),
        r matches Ok((w, h)) ==> is_rows(input@, w as int, h as int, alphabet),
{
    let n = input.len();
    let mut w: usize = 0;
    while w < n && input[w] != '|'
        invariant
            w <= n,
            n == input@.len(),
            forall|i: int| 0 <= i < w ==> input@[i] != '|',
        decreases n - w,
    {
        w += 1;
    }
    if w == 0 {
        proof {
            assert forall|w2: int, h2: int| !is_rows(input@, w2, h2, alphabet) by {
                if is_rows(input@, w2, h2, alphabet) {
                    lemma_rows_width(input@, w2, h2, alphabet, 0);
                }
            }
        }
        return Err(RowsError::Malformed);
    }
    let mut i: usize = 0;
    let mut col: usize = 0;
    let mut row: usize = 0;
    while i < n
        invariant
            n == input@.len(),
            1 <= w <= n,
            i <= n,
            col <= w,
            i == (w + 1) * row + col,
            2 * row <= i,
            forall|k: int| 0 <= k < w ==> input@[k] != '|',
            w < n ==> input@[w as int] == '|',
            forall|k: int|
                0 <= k < i ==> if k % (w + 1) == w {
                    input@[k] == '|'
                } else {
                    alphabet.allows(#[trigger] input@[k])
                },
        decreases n - i,
    {
        let c = input[i];
        proof {
            lemma_tile_index_split(w + 1, col as int, row as int);
        }
        let good = if col == w {
            c == '|'
        } else {
            alphabet.admits(c)
        };
        if !good {
            proof {
                assert forall|w2: int, h2: int| !is_rows(input@, w2, h2, alphabet) by {
                    if is_rows(input@, w2, h2, alphabet) {
                        lemma_rows_width(input@, w2, h2, alphabet, w as int);
                        assert(alphabet.allows(input@[i as int]) || input@[i as int] == '|');
                    }
                }
            }
            return Err(RowsError::Malformed);
        }
        if col == w {
            proof {
                assert((w + 1) * (row + 1) + 0 == (w + 1) * row + w + 1) by (nonlinear_arith);
                assert(2 * (row + 1) <= (w + 1) * (row + 1)) by (nonlinear_arith)
                    requires
                        w >= 1,
                        row >= 0,
                ;
            }
            col = 0;
            row += 1;
        } else {
            col += 1;
        }
        i += 1;
    }
    if col != w {
        proof {
            assert forall|w2: int, h2: int| !is_rows(input@, w2, h2, alphabet) by {
                if is_rows(input@, w2, h2, alphabet) {
                    lemma_rows_width(input@, w2, h2, alphabet, w as int);
                    lemma_fundamental_div_mod_converse(n as int, w + 1, h2 - 1, w as int);
                    lemma_tile_index_split(w + 1, col as int, row as int);
                }
            }
        }
        return Err(RowsError::Malformed);
    }
    let h = row + 1;
    proof {
        assert(h * (w + 1) - 1 == (w + 1) * row + w) by (nonlinear_arith)
            requires
                h == row + 1,
        ;
        assert(is_rows(input@, w as int, h as int, alphabet));
    }
    Ok((w, h))
}

} // verus!

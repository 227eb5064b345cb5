//! Table of recorded positions: the records are read, positions that are
//! turned or mirrored pictures of earlier ones are left out, the rest is
//! put in the order of falling temperature and written as a LaTeX table.

use crate::domineering::Position;
use crate::grid::small_bit_grid::SmallBitGrid;
use crate::numeric::rational::{rational_text, Rational};
use crate::search::SearchRecord;
use crate::text::{push_str, string_of};
use vstd::prelude::*;

verus! {

/// A recorded position with its temperature.
#[derive(Debug, Clone, Copy)]
pub struct Entry {
    pub temperature: Rational,
    pub grid: Position,
}

/// Why a record is no entry.
#[derive(Debug, Clone, Copy, PartialEq, Eq, Structural)]
pub enum EntryError {
    /// The temperature is no rational number.
    InvalidTemperature,
    /// The grid is no grid of at most 64 tiles.
    InvalidGrid,
}

/// `b` is `a` after `quarters` quarter turns clockwise.
pub open spec fn turned(a: Position, b: Position, quarters: int) -> bool {
    if quarters == 1 {
        &&& b.width() == a.height()
        &&& b.height() == a.width()
        &&& forall|x: int, y: int|
            b.in_range(x, y) ==> #[trigger] b.cell(x, y) == a.cell(y, a.height() - 1 - x)
    } else if quarters == 2 {
        &&& b.width() == a.width()
        &&& b.height() == a.height()
        &&& forall|x: int, y: int|
            b.in_range(x, y) ==> #[trigger] b.cell(x, y) == a.cell(
                a.width() - 1 - x,
                a.height() - 1 - y,
            )
    } else {
        &&& b.width() == a.height()
        &&& b.height() == a.width()
        &&& forall|x: int, y: int|
            b.in_range(x, y) ==> #[trigger] b.cell(x, y) == a.cell(a.width() - 1 - y, x)
    }
}

/// `b` is the mirror image of `a`: top to bottom (`rows`), or left to
/// right.
pub open spec fn mirrored(a: Position, b: Position, rows: bool) -> bool {
    &&& b.width() == a.width()
    &&& b.height() == a.height()
    &&& forall|x: int, y: int|
        b.in_range(x, y) ==> #[trigger] b.cell(x, y) == (if rows {
            a.cell(x, a.height() - 1 - y)
        } else {
            a.cell(a.width() - 1 - x, y)
        })
}

/// `b` is a turned or mirrored picture of `a`.
pub open spec fn alike(a: Position, b: Position) -> bool {
    turned(a, b, 1) || turned(a, b, 2) || turned(a, b, 3) || mirrored(a, b, false) || mirrored(
        a,
        b,
        true,
    )
}

/// A position as the table takes it: of at most 64 tiles, with nothing
/// beyond them.
pub open spec fn plain(p: Position) -> bool {
    p.wf() && p.grid().is_trimmed()
}

/// Positions of the same size with the same tiles are the same position.
proof fn lemma_same_tiles(a: Position, b: Position)
    requires
        plain(a),
        plain(b),
        a.width() == b.width(),
        a.height() == b.height(),
        forall|x: int, y: int| a.in_range(x, y) ==> a.cell(x, y) == b.cell(x, y),
    ensures
        a == b,
{
    assert forall|x: int, y: int| a.grid().in_range(x, y) implies a.grid().cell(x, y)
        == b.grid().cell(x, y) by {
        assert(a.in_range(x, y));
        assert(a.cell(x, y) == b.cell(x, y));
    }
    SmallBitGrid::lemma_equal_by_cells(a.grid(), b.grid());
    Position::lemma_same_grid(a, b);
}

/// Whether `b` is a turned or mirrored picture of `a`.
pub fn is_alike(a: &Position, b: &Position) -> (r: bool)
    requires
        plain(*a),
        plain(*b),
    ensures
        r == alike(*a, *b),
{
    let r1 = a.rotate();
    let r2 = r1.rotate();
    let r3 = r2.rotate();
    let v = a.vertical_flip();
    let h = a.horizontal_flip();
    proof {
        assert(turned(*a, r1, 1));
        assert(turned(*a, r2, 2)) by {
            assert forall|x: int, y: int| r2.in_range(x, y) implies #[trigger] r2.cell(x, y)
                == a.cell(a.width() - 1 - x, a.height() - 1 - y) by {
                assert(r1.in_range(y, r1.height() - 1 - x));
                assert(r2.cell(x, y) == r1.cell(y, r1.height() - 1 - x));
            }
        }
        assert(turned(*a, r3, 3)) by {
            assert forall|x: int, y: int| r3.in_range(x, y) implies #[trigger] r3.cell(x, y)
                == a.cell(a.width() - 1 - y, x) by {
                assert(r2.in_range(y, r2.height() - 1 - x));
                assert(r3.cell(x, y) == r2.cell(y, r2.height() - 1 - x));
            }
        }
        assert(mirrored(*a, v, false));
        assert(mirrored(*a, h, true));
        if turned(*a, *b, 1) {
            lemma_same_tiles(r1, *b);
        }
        if turned(*a, *b, 2) {
            lemma_same_tiles(r2, *b);
        }
        if turned(*a, *b, 3) {
            lemma_same_tiles(r3, *b);
        }
        if mirrored(*a, *b, false) {
            lemma_same_tiles(v, *b);
        }
        if mirrored(*a, *b, true) {
            lemma_same_tiles(h, *b);
        }
    }
    r1 == *b || r2 == *b || r3 == *b || v == *b || h == *b
}

/// Every entry holds a number and a plain position.
pub open spec fn entries_wf(entries: Seq<Entry>) -> bool {
    forall|k: int|
        0 <= k < entries.len() ==> (#[trigger] entries[k]).temperature.wf() && plain(entries[k].grid)
}

/// The entry at `j` is a turned or mirrored picture of an entry before
/// it.
pub open spec fn repeats(entries: Seq<Entry>, j: int) -> bool {
    exists|i: int| 0 <= i < j && #[trigger] alike(entries[i].grid, entries[j].grid)
}

/// The first `n` entries without those that are turned or mirrored
/// pictures of an entry before them.
pub open spec fn first_pictures(entries: Seq<Entry>, n: int) -> Seq<Entry>
    decreases n,
{
    if n <= 0 {
        Seq::<Entry>::empty()
    } else if repeats(entries, n - 1) {
        first_pictures(entries, n - 1)
    } else {
        first_pictures(entries, n - 1).push(entries[n - 1])
    }
}

/// The entries without those that are turned or mirrored pictures of an
/// entry before them, in their order.
pub fn without_rotations(entries: &Vec<Entry>) -> (out: Vec<Entry>)
    requires
        entries_wf(entries@),
    ensures
        out@ == first_pictures(entries@, entries@.len() as int),
        entries_wf(out@),
{
    let mut out: Vec<Entry> = Vec::new();
    let mut j: usize = 0;
    while j < entries.len()
        invariant
            j <= entries@.len(),
            entries_wf(entries@),
            entries_wf(out@),
            out@ == first_pictures(entries@, j as int),
        decreases entries@.len() - j,
    {
        let mut seen = false;
        let mut i: usize = 0;
        while i < j
            invariant
                i <= j < entries@.len(),
                entries_wf(entries@),
                seen == exists|k: int| 0 <= k < i && #[trigger] alike(entries@[k].grid, entries@[j as int].grid),
            decreases j - i,
        {
            if is_alike(&entries[i].grid, &entries[j].grid) {
                seen = true;
            }
            i += 1;
        }
        proof {
            assert((j + 1) - 1 == j);
        }
        if !seen {
            out.push(entries[j]);
        }
        j += 1;
    }
    out
}

/// The temperatures fall along the list, or stay.
pub open spec fn falling(entries: Seq<Entry>) -> bool {
    forall|i: int, j: int|
        0 <= i < j < entries.len() ==> !(#[trigger] entries[i]).temperature.spec_lt(
            &(#[trigger] entries[j]).temperature,
        )
}

/// The place of the first entry from `from` on that is colder than `e`, or
/// the length of the list where none is.
pub open spec fn first_colder(list: Seq<Entry>, e: Entry, from: int) -> int
    decreases list.len() - from,
{
    if from >= list.len() {
        list.len() as int
    } else if list[from].temperature.spec_lt(&e.temperature) {
        from
    } else {
        first_colder(list, e, from + 1)
    }
}

/// The first `n` entries in the order of falling temperature: each is put
/// before the first colder one of those before it, so that entries of the
/// same temperature keep their order.
pub open spec fn sorted_upto(entries: Seq<Entry>, n: int) -> Seq<Entry>
    decreases n,
{
    if n <= 0 {
        Seq::<Entry>::empty()
    } else {
        let before = sorted_upto(entries, n - 1);
        before.insert(first_colder(before, entries[n - 1], 0), entries[n - 1])
    }
}

/// The entries in the order of falling temperature: the same entries, each
/// as often as before, and those of the same temperature in the order in
/// which they came.
pub fn by_temperature(entries: &Vec<Entry>) -> (out: Vec<Entry>)
    requires
        entries_wf(entries@),
    ensures
        out@ == sorted_upto(entries@, entries@.len() as int),
        out@.to_multiset() == entries@.to_multiset(),
        falling(out@),
        entries_wf(out@),
{
    broadcast use vstd::seq_lib::group_to_multiset_ensures;

    let mut out: Vec<Entry> = Vec::new();
    let mut k: usize = 0;
    assert(entries@.take(0) =~= Seq::<Entry>::empty());
    while k < entries.len()
        invariant
            k <= entries@.len(),
            entries_wf(entries@),
            entries_wf(out@),
            falling(out@),
            out@ == sorted_upto(entries@, k as int),
            out@.to_multiset() == entries@.take(k as int).to_multiset(),
        decreases entries@.len() - k,
    {
        let e = entries[k];
        let mut p: usize = 0;
        while p < out.len() && !out[p].temperature.lt(&e.temperature)
            invariant
                p <= out@.len(),
                entries_wf(out@),
                e.temperature.wf(),
                forall|i: int| 0 <= i < p ==> !(#[trigger] out@[i]).temperature.spec_lt(&e.temperature),
                first_colder(out@, e, 0) == first_colder(out@, e, p as int),
            decreases out@.len() - p,
        {
            p += 1;
        }
        let ghost before = out@;
        assert(first_colder(before, e, 0) == p);
        out.insert(p, e);
        proof {
            assert((k + 1) - 1 == k);
            assert(out@ =~= before.insert(p as int, e));
            assert forall|i: int, j: int| 0 <= i < j < out@.len() implies !(#[trigger] out@[i]).temperature.spec_lt(
                &(#[trigger] out@[j]).temperature,
            ) by {
                if j == p {
                    assert(out@[i] == before[i]);
                } else if i == p {
                    // The entry that was at `p` is less than `e`, and none
                    // after it is more than it.
                    assert(out@[j] == before[j - 1]);
                    assert(before[p as int].temperature.spec_lt(&e.temperature));
                    if j - 1 > p {
                        assert(!before[p as int].temperature.spec_lt(&before[j - 1].temperature));
                    }
                    if e.temperature.spec_lt(&before[j - 1].temperature) {
                        lemma_less_chain(
                            before[p as int].temperature,
                            e.temperature,
                            before[j - 1].temperature,
                        );
                    }
                } else {
                    let i0 = if i < p {
                        i
                    } else {
                        i - 1
                    };
                    let j0 = if j < p {
                        j
                    } else {
                        j - 1
                    };
                    assert(out@[i] == before[i0] && out@[j] == before[j0]);
                }
            }
            assert(entries@.take(k + 1) =~= entries@.take(k as int).push(e));
            vstd::seq_lib::to_multiset_insert(before, p as int, e);
            vstd::seq_lib::to_multiset_build(entries@.take(k as int), e);
            assert(out@.to_multiset() =~= before.to_multiset().insert(e));
            assert(entries@.take(k + 1).to_multiset() =~= entries@.take(k as int).to_multiset().insert(
                e,
            ));
        }
        k += 1;
    }
    assert(entries@.take(entries@.len() as int) =~= entries@);
    out
}

/// A number less than a second that is less than a third is less than the
/// third.
pub proof fn lemma_less_chain(a: Rational, b: Rational, c: Rational)
    requires
        a.wf(),
        b.wf(),
        c.wf(),
        a.spec_lt(&b),
        b.spec_lt(&c),
    ensures
        a.spec_lt(&c),
{
    match (a, b, c) {
        (Rational::Value(an, ad), Rational::Value(bn, bd), Rational::Value(cn, cd)) => {
            assert(an * cd < cn * ad) by (nonlinear_arith)
                requires
                    an * bd < bn * ad,
                    bn * cd < cn * bd,
                    ad > 0,
                    bd > 0,
                    cd > 0,
            ;
        },
        _ => {},
    }
}

impl Entry {
    /// The entry that a record holds: its temperature and its grid, both
    /// read from their texts.
    pub fn new(record: &SearchRecord) -> (r: Result<Entry, EntryError>)
        ensures
            r == Err::<Entry, EntryError>(EntryError::InvalidTemperature) <==> rational_text(
                record.temperature@,
            ) is None,
            r is Ok <==> rational_text(record.temperature@) is Some && exists|w: int, h: int|
                crate::grid::small_bit_grid::is_grid_shape(record.grid@, w, h) && w * h <= 64,
            r matches Ok(e) ==> e.temperature.wf() && plain(e.grid) && e.grid.grid().shows(
                record.grid@,
            ) && ({
                let parts = rational_text(record.temperature@)->Some_0;
                e.temperature.is_fraction(parts.0, parts.1)
            }),
    {
        let temperature = match Rational::parse(record.temperature.as_str()) {
            Ok(t) => t,
            Err(_) => {
                return Err(EntryError::InvalidTemperature);
            },
        };
        match Position::parse(record.grid.as_str()) {
            Ok(grid) => Ok(Entry { temperature, grid }),
            Err(_) => Err(EntryError::InvalidGrid),
        }
    }
}

/// The greatest width of the grids of the first `n` entries.
pub open spec fn widest(entries: Seq<Entry>, n: int) -> int
    decreases n,
{
    if n <= 0 {
        0
    } else if entries[n - 1].grid.width() > widest(entries, n - 1) {
        entries[n - 1].grid.width() as int
    } else {
        widest(entries, n - 1)
    }
}

/// The greatest width of the grids of the entries; none where there is no
/// entry.
pub fn max_grid_width(entries: &Vec<Entry>) -> (r: Option<u8>)
    ensures
        r is Some <==> entries@.len() > 0,
        r matches Some(w) ==> w == widest(entries@, entries@.len() as int),
{
    if entries.len() == 0 {
        return None;
    }
    let mut w: u8 = 0;
    let mut k: usize = 0;
    while k < entries.len()
        invariant
            k <= entries@.len(),
            w == widest(entries@, k as int),
        decreases entries@.len() - k,
    {
        proof {
            assert((k + 1) - 1 == k);
        }
        let here = entries[k].grid.width();
        if here > w {
            w = here;
        }
        k += 1;
    }
    Some(w)
}

/// What the table says before its rows: the columns, each as wide as
/// `position_width` spells for the picture and 1cm for the temperature, and
/// the line of headings.
pub open spec fn table_head(position_width: Seq<char>, columns: int) -> Seq<char> {
    "{\n"@ + "%% Auto generated by `cgt-cli`\n"@
        + "%% Make sure to include preamble from README.md\n"@ + "\\begin{longtabu}{"@
        + column_list(position_width, columns) + "} \n\\hline "@
        + headings(columns) + "\\\\ \\hline \\endhead\n"@
}

/// The list of the first `n` columns.
pub open spec fn column_list(position_width: Seq<char>, n: int) -> Seq<char>
    decreases n,
{
    if n <= 1 {
        "m{"@ + position_width + "} m{1cm}"@
    } else {
        column_list(position_width, n - 1) + "|m{"@ + position_width + "} m{1cm}"@
    }
}

/// The headings of the first `n` columns.
pub open spec fn headings(n: int) -> Seq<char>
    decreases n,
{
    if n <= 0 {
        Seq::<char>::empty()
    } else if n == 1 {
        "Position & Temp. "@
    } else {
        headings(n - 1) + "& "@ + "Position & Temp. "@
    }
}

/// The cell of one entry: its picture at the scale that `scale` spells, and
/// its temperature.
pub open spec fn cell_text(e: Entry, scale: Seq<char>) -> Seq<char> {
    e.grid.scaled_latex_text(scale) + " & $"@ + e.temperature.text() + "$ "@
}

/// The rows that hold the first `n` entries, `columns` to a row.
pub open spec fn rows_text(entries: Seq<Entry>, scale: Seq<char>, columns: int, n: int) -> Seq<char>
    decreases n,
{
    if n <= 0 || columns <= 0 {
        Seq::<char>::empty()
    } else {
        let before = rows_text(entries, scale, columns, n - 1);
        let cell = if (n - 1) % columns == 0 {
            cell_text(entries[n - 1], scale)
        } else {
            "& "@ + cell_text(entries[n - 1], scale)
        };
        if n % columns == 0 || n == entries.len() {
            before + cell + "\\\\\n"@
        } else {
            before + cell
        }
    }
}

/// The whole table.
pub open spec fn table_text(
    entries: Seq<Entry>,
    scale: Seq<char>,
    position_width: Seq<char>,
    columns: int,
) -> Seq<char> {
    table_head(position_width, columns) + rows_text(entries, scale, columns, entries.len() as int)
        + "\\end{longtabu}\n}\n"@
}

/// The entries as a LaTeX table of `columns` pairs of columns, a picture
/// and a temperature each, filled row by row.
pub fn table(entries: &Vec<Entry>, scale: &str, position_width: &str, columns: usize) -> (out: String)
    requires
        columns >= 1,
        entries_wf(entries@),
    ensures
        out@ == table_text(entries@, scale@, position_width@, columns as int),
{
    let mut buf: Vec<char> = Vec::new();
    push_str(&mut buf, "{\n");
    push_str(&mut buf, "%% Auto generated by `cgt-cli`\n");
    push_str(&mut buf, "%% Make sure to include preamble from README.md\n");
    push_str(&mut buf, "\\begin{longtabu}{");
    let ghost start = buf@;
    push_str(&mut buf, "m{");
    push_str(&mut buf, position_width);
    push_str(&mut buf, "} m{1cm}");
    assert(buf@ =~= start + column_list(position_width@, 1));
    let mut c: usize = 1;
    while c < columns
        invariant
            1 <= c <= columns,
            buf@ == start + column_list(position_width@, c as int),
        decreases columns - c,
    {
        let ghost before = buf@;
        push_str(&mut buf, "|m{");
        push_str(&mut buf, position_width);
        push_str(&mut buf, "} m{1cm}");
        assert(buf@ =~= start + column_list(position_width@, c + 1));
        c += 1;
    }
    push_str(&mut buf, "} \n\\hline ");
    let ghost listed = buf@;
    let mut c: usize = 0;
    while c < columns
        invariant
            c <= columns,
            buf@ == listed + headings(c as int),
        decreases columns - c,
    {
        if c != 0 {
            push_str(&mut buf, "& ");
        }
        push_str(&mut buf, "Position & Temp. ");
        assert(buf@ =~= listed + headings(c + 1));
        c += 1;
    }
    push_str(&mut buf, "\\\\ \\hline \\endhead\n");
    assert(buf@ =~= table_head(position_width@, columns as int));
    let ghost head = buf@;
    let mut n: usize = 0;
    let mut at: usize = 0;
    while n < entries.len()
        invariant
            n <= entries@.len(),
            columns >= 1,
            entries_wf(entries@),
            at < columns,
            at == (n as int) % (columns as int),
            buf@ == head + rows_text(entries@, scale@, columns as int, n as int),
        decreases entries@.len() - n,
    {
        let ghost before = rows_text(entries@, scale@, columns as int, n as int);
        let ghost cell = if at == 0 {
            cell_text(entries@[n as int], scale@)
        } else {
            "& "@ + cell_text(entries@[n as int], scale@)
        };
        if at != 0 {
            push_str(&mut buf, "& ");
        }
        push_cell(&mut buf, &entries[n], scale);
        assert(buf@ =~= head + (before + cell));
        at += 1;
        let ends = at == columns || n + 1 == entries.len();
        if ends {
            push_str(&mut buf, "\\\\\n");
        }
        if at == columns {
            at = 0;
        }
        proof {
            lemma_next_column(n as int, columns as int);
            lemma_row_step(entries@, scale@, columns as int, n + 1);
            assert(ends == ((n + 1) % (columns as int) == 0 || n + 1 == entries@.len()));
            if ends {
                assert(buf@ =~= head + (before + cell + "\\\\\n"@));
            }
        }
        n += 1;
    }
    push_str(&mut buf, "\\end{longtabu}\n}\n");
    assert(buf@ =~= table_text(entries@, scale@, position_width@, columns as int));
    string_of(&buf)
}

/// Appends the cell of the entry `e` to `buf`.
fn push_cell(buf: &mut Vec<char>, e: &Entry, scale: &str)
    requires
        plain(e.grid),
    ensures
        final(buf)@ == old(buf)@ + cell_text(*e, scale@),
{
    let picture = e.grid.to_latex_scaled(scale);
    push_str(buf, picture.as_str());
    push_str(buf, " & $");
    let temperature = e.temperature.to_string();
    push_str(buf, temperature.as_str());
    push_str(buf, "$ ");
    assert(buf@ =~= old(buf)@ + cell_text(*e, scale@));
}

/// The rows with one entry more are the rows before, the cell of the
/// entry, after `& ` unless it begins a row, and the end of the row where
/// the row is full or the entry the last.
proof fn lemma_row_step(entries: Seq<Entry>, scale: Seq<char>, columns: int, n: int)
    requires
        n >= 1,
        columns >= 1,
    ensures
        rows_text(entries, scale, columns, n) == rows_text(entries, scale, columns, n - 1) + (if (n
            - 1) % columns == 0 {
            cell_text(entries[n - 1], scale)
        } else {
            "& "@ + cell_text(entries[n - 1], scale)
        }) + (if n % columns == 0 || n == entries.len() {
            "\\\\\n"@
        } else {
            Seq::<char>::empty()
        }),
{
    let before = rows_text(entries, scale, columns, n - 1);
    let cell = if (n - 1) % columns == 0 {
        cell_text(entries[n - 1], scale)
    } else {
        "& "@ + cell_text(entries[n - 1], scale)
    };
    assert(before + cell + Seq::<char>::empty() =~= before + cell);
}

/// The column of the next entry: the next column, or the first after the
/// last.
proof fn lemma_next_column(n: int, columns: int)
    requires
        n >= 0,
        columns >= 1,
    ensures
        (n + 1) % columns == (if n % columns + 1 == columns {
            0
        } else {
            n % columns + 1
        }),
{
    vstd::arithmetic::div_mod::lemma_fundamental_div_mod(n, columns);
    vstd::arithmetic::div_mod::lemma_fundamental_div_mod(n + 1, columns);
    vstd::arithmetic::div_mod::lemma_mod_bound(n, columns);
    vstd::arithmetic::div_mod::lemma_mod_bound(n + 1, columns);
    let q = n / columns;
    let r = n % columns;
    assert((q + 1) * columns == q * columns + columns) by (nonlinear_arith);
    assert(q * columns == columns * q) by (nonlinear_arith);
    if r + 1 == columns {
        vstd::arithmetic::div_mod::lemma_fundamental_div_mod_converse(n + 1, columns, q + 1, 0);
    } else {
        vstd::arithmetic::div_mod::lemma_fundamental_div_mod_converse(n + 1, columns, q, r + 1);
    }
}

} // verus!

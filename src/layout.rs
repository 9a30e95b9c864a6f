use vstd::prelude::*;
use vstd::arithmetic::div_mod::{lemma_fundamental_div_mod, lemma_fundamental_div_mod_converse};
use vstd::set_lib::{lemma_int_range, lemma_map_size, set_int_range};
use crate::names::names_view;

verus! {

/// The byte that pads a name out to its column and separates the columns.
pub const SPACE: u8 = 0x20;

/// Width of one column: the longest name plus one byte for the separator.
pub open spec fn col_width(s: Seq<Seq<u8>>) -> nat
    decreases s.len(),
{
    if s.len() == 0 {
        0
    } else {
        let w = col_width(s.drop_last());
        let l = s.last().len() + 1;
        if l > w {
            l
        } else {
            w
        }
    }
}

/// How many columns fit in `term_width`, keeping one column's worth of margin;
/// never fewer than one, also when the width is unknown (zero).
pub open spec fn columns_for(term_width: nat, colwidth: nat) -> nat {
    if colwidth > 0 && term_width / colwidth >= 2 {
        (term_width / colwidth - 1) as nat
    } else {
        1
    }
}

/// How many rows `n` entries take in `numcols` columns: `n / numcols` rounded up.
pub open spec fn rows_for(n: nat, numcols: nat) -> nat {
    if numcols == 0 {
        0
    } else {
        ((n + numcols - 1) / (numcols as int)) as nat
    }
}

/// Whether the cell in row `r` and column `c` holds an entry: entries fill
/// the columns one after the other, each from the top down.
pub open spec fn filled(n: nat, rows: nat, r: int, c: int) -> bool {
    c * rows + r < n
}

/// The cells of a `cols` by `rows` grid, stored row by row; the cell in row `r`
/// and column `c` holds entry `c * rows + r`, or the empty name where there is none.
pub open spec fn grid_of(names: Seq<Seq<u8>>, cols: nat, rows: nat) -> Seq<Seq<u8>> {
    Seq::new(
        cols * rows,
        |k: int|
            {
                let r = k / (cols as int);
                let c = k % (cols as int);
                if filled(names.len(), rows, r, c) {
                    names[c * rows + r]
                } else {
                    Seq::<u8>::empty()
                }
            },
    )
}

/// `name` followed by spaces up to `width` bytes.
pub open spec fn padded(name: Seq<u8>, width: nat) -> Seq<u8> {
    name + Seq::new((width - name.len()) as nat, |i: int| SPACE)
}

/// What the cell in row `r` and column `c` puts on its line: its name (nothing
/// for an empty cell) padded with spaces to `colwidth - 1` bytes, then one space
/// as the separator unless the cell is in the last column.
pub open spec fn row_piece(grid: Seq<Seq<u8>>, cols: nat, colwidth: nat, r: int, c: int) -> Seq<
    u8,
> {
    if c + 1 < cols {
        padded(grid[r * cols + c], colwidth)
    } else {
        padded(grid[r * cols + c], (colwidth - 1) as nat)
    }
}

/// The text of row `r` made of its first `c` cells.
pub open spec fn row_text(grid: Seq<Seq<u8>>, cols: nat, colwidth: nat, r: int, c: nat) -> Seq<u8>
    decreases c,
{
    if c == 0 {
        Seq::empty()
    } else {
        row_text(grid, cols, colwidth, r, (c - 1) as nat) + row_piece(grid, cols, colwidth, r, c - 1)
    }
}

/// The lines that show a grid, one per row, without line breaks.
pub open spec fn lines_of(grid: Seq<Seq<u8>>, cols: nat, rows: nat, colwidth: nat) -> Seq<Seq<u8>> {
    Seq::new(rows, |r: int| row_text(grid, cols, colwidth, r, cols))
}

/// The lines that list `names` in columns for a terminal `term_width` bytes wide
/// (zero when the width is unknown); nothing at all for no names.
pub open spec fn listing_lines(names: Seq<Seq<u8>>, term_width: nat) -> Seq<Seq<u8>> {
    if names.len() == 0 {
        Seq::empty()
    } else {
        let colwidth = col_width(names);
        let cols = columns_for(term_width, colwidth);
        let rows = rows_for(names.len(), cols);
        lines_of(grid_of(names, cols, rows), cols, rows, colwidth)
    }
}

/// The longest name, plus one: the width of every column.
pub fn column_width(names: &Vec<Vec<u8>>) -> (r: usize)
    requires
        forall|i: int| 0 <= i < names@.len() ==> #[trigger] names@[i]@.len() < usize::MAX,
    ensures
        r == col_width(names_view(names@)),
{
    let mut w: usize = 0;
    let mut k: usize = 0;
    while k < names.len()
        invariant
            k <= names@.len(),
            forall|i: int| 0 <= i < names@.len() ==> #[trigger] names@[i]@.len() < usize::MAX,
            w == col_width(names_view(names@).take(k as int)),
        decreases names@.len() - k,
    {
        assert(names_view(names@).take(k + 1).drop_last() =~= names_view(names@).take(k as int));
        let l = names[k].len() + 1;
        if l > w {
            w = l;
        }
        k = k + 1;
    }
    assert(names_view(names@).take(k as int) =~= names_view(names@));
    w
}

/// The number of columns for a terminal `term_width` bytes wide and columns
/// `colwidth` bytes wide.
pub fn num_columns(term_width: usize, colwidth: usize) -> (r: usize)
    ensures
        r == columns_for(term_width as nat, colwidth as nat),
        r >= 1,
{
    if colwidth > 0 && term_width / colwidth >= 2 {
        term_width / colwidth - 1
    } else {
        1
    }
}

/// The number of rows that `n` entries take in `numcols` columns.
pub fn num_rows(n: usize, numcols: usize) -> (r: usize)
    requires
        numcols >= 1,
    ensures
        r == rows_for(n as nat, numcols as nat),
        r * numcols >= n,
        r * numcols <= n + numcols - 1,
{
    let q = n / numcols;
    let m = n % numcols;
    proof {
        lemma_fundamental_div_mod(n as int, numcols as int);
        assert(q * numcols + m == n) by (nonlinear_arith)
            requires
                n == numcols * q + m,
        ;
        if m == 0 {
            lemma_fundamental_div_mod_converse(
                n + numcols - 1,
                numcols as int,
                q as int,
                numcols - 1,
            );
            assert(q * numcols + numcols - 1 == n + numcols - 1);
        } else {
            assert((q + 1) * numcols == q * numcols + numcols) by (nonlinear_arith);
            lemma_fundamental_div_mod_converse(
                n + numcols - 1,
                numcols as int,
                q + 1,
                m - 1,
            );
        }
    }
    if m == 0 {
        q
    } else {
        assert(q * numcols <= n && q + 1 <= n) by (nonlinear_arith)
            requires
                q * numcols + m == n,
                1 <= m < numcols,
                q >= 0,
        ;
        assert((q + 1) * numcols == q * numcols + numcols) by (nonlinear_arith);
        q + 1
    }
}

/// Every name is narrower than its column by at least the separator byte.
pub proof fn lemma_col_width_bounds(s: Seq<Seq<u8>>)
    ensures
        forall|i: int| 0 <= i < s.len() ==> #[trigger] s[i].len() + 1 <= col_width(s),
    decreases s.len(),
{
    if s.len() > 0 {
        lemma_col_width_bounds(s.drop_last());
        assert forall|i: int| 0 <= i < s.len() implies #[trigger] s[i].len() + 1 <= col_width(
            s,
        ) by {
            if i < s.len() - 1 {
                assert(s[i] == s.drop_last()[i]);
            }
        }
    }
}

/// Arranges `names` in a grid of `width` columns and `height` rows, stored row
/// by row: entries go down the first column, then down the next, and cells
/// past the last entry hold the empty name.
pub fn transpose(names: Vec<Vec<u8>>, width: usize, height: usize) -> (r: Vec<Vec<u8>>)
    requires
        width * height <= usize::MAX,
        names@.len() <= width * height,
    ensures
        names_view(r@) == grid_of(names_view(names@), width as nat, height as nat),
{
    let n = names.len();
    let ghost want = grid_of(names_view(names@), width as nat, height as nat);
    let mut grid: Vec<Vec<u8>> = Vec::new();
    let mut r: usize = 0;
    while r < height
        invariant
            r <= height,
            n == names@.len(),
            width * height <= usize::MAX,
            want == grid_of(names_view(names@), width as nat, height as nat),
            grid@.len() == r * width,
            forall|k: int| 0 <= k < grid@.len() ==> #[trigger] grid@[k]@ == want[k],
        decreases height - r,
    {
        let mut c: usize = 0;
        while c < width
            invariant
                c <= width,
                r < height,
                n == names@.len(),
                width * height <= usize::MAX,
                want == grid_of(names_view(names@), width as nat, height as nat),
                grid@.len() == r * width + c,
                forall|k: int| 0 <= k < grid@.len() ==> #[trigger] grid@[k]@ == want[k],
            decreases width - c,
        {
            assert(c * height + r < width * height && r * width + c < width * height)
                by (nonlinear_arith)
                requires
                    c < width,
                    r < height,
            ;
            let i = c * height + r;
            let ghost k = r * width + c;
            proof {
                lemma_fundamental_div_mod_converse(k, width as int, r as int, c as int);
            }
            if i < n {
                let x = names[i].clone();
                assert(x@ =~= names@[i as int]@);
                grid.push(x);
            } else {
                let x: Vec<u8> = Vec::new();
                assert(x@ =~= Seq::<u8>::empty());
                grid.push(x);
            }
            assert(grid@[k]@ == want[k]);
            c = c + 1;
        }
        assert(r * width + width == (r + 1) * width) by (nonlinear_arith);
        r = r + 1;
    }
    assert(height * width == width * height) by (nonlinear_arith);
    assert(names_view(grid@) =~= want);
    grid
}

/// Appends the bytes of `bytes` to `line`.
fn push_bytes(line: &mut Vec<u8>, bytes: &Vec<u8>)
    ensures
        final(line)@ == old(line)@ + bytes@,
{
    let ghost start = line@;
    let mut j: usize = 0;
    while j < bytes.len()
        invariant
            j <= bytes@.len(),
            line@ == start + bytes@.take(j as int),
        decreases bytes@.len() - j,
    {
        line.push(bytes[j]);
        assert(bytes@.take(j + 1) =~= bytes@.take(j as int).push(bytes@[j as int]));
        j = j + 1;
    }
    assert(bytes@.take(j as int) =~= bytes@);
}

/// Appends `count` spaces to `line`.
fn push_spaces(line: &mut Vec<u8>, count: usize)
    ensures
        final(line)@ == old(line)@ + Seq::new(count as nat, |i: int| SPACE),
{
    let ghost start = line@;
    let mut j: usize = 0;
    while j < count
        invariant
            j <= count,
            line@ == start + Seq::new(j as nat, |i: int| SPACE),
        decreases count - j,
    {
        line.push(SPACE);
        assert(Seq::new((j + 1) as nat, |i: int| SPACE) =~= Seq::new(j as nat, |i: int| SPACE).push(
            SPACE,
        ));
        j = j + 1;
    }
}

/// The lines that show a grid of `cols` columns and `rows` rows in columns
/// `colwidth` bytes wide, one line per row, each without its line break.
pub fn render_rows(grid: &Vec<Vec<u8>>, cols: usize, rows: usize, colwidth: usize) -> (r: Vec<
    Vec<u8>,
>)
    requires
        grid@.len() == cols * rows,
        forall|k: int| 0 <= k < grid@.len() ==> #[trigger] grid@[k]@.len() < colwidth,
    ensures
        names_view(r@) == lines_of(names_view(grid@), cols as nat, rows as nat, colwidth as nat),
{
    let ghost g = names_view(grid@);
    let cells = grid.len();
    let mut lines: Vec<Vec<u8>> = Vec::new();
    let mut r: usize = 0;
    while r < rows
        invariant
            r <= rows,
            g == names_view(grid@),
            grid@.len() == cols * rows,
            cells == cols * rows,
            forall|k: int| 0 <= k < grid@.len() ==> #[trigger] grid@[k]@.len() < colwidth,
            lines@.len() == r,
            forall|q: int|
                0 <= q < r ==> #[trigger] lines@[q]@ == row_text(
                    g,
                    cols as nat,
                    colwidth as nat,
                    q,
                    cols as nat,
                ),
        decreases rows - r,
    {
        let mut line: Vec<u8> = Vec::new();
        let mut c: usize = 0;
        assert(line@ =~= Seq::<u8>::empty());
        while c < cols
            invariant
                c <= cols,
                r < rows,
                g == names_view(grid@),
                grid@.len() == cols * rows,
                cells == cols * rows,
                forall|k: int| 0 <= k < grid@.len() ==> #[trigger] grid@[k]@.len() < colwidth,
                line@ == row_text(g, cols as nat, colwidth as nat, r as int, c as nat),
            decreases cols - c,
        {
            assert(r * cols + c < cols * rows && r * cols <= r * cols + c) by (nonlinear_arith)
                requires
                    c < cols,
                    r < rows,
            ;
            let ghost before = line@;
            let k = r * cols + c;
            push_bytes(&mut line, &grid[k]);
            let w = if c + 1 < cols {
                colwidth
            } else {
                colwidth - 1
            };
            push_spaces(&mut line, w - grid[k].len());
            assert(line@ =~= before + row_piece(g, cols as nat, colwidth as nat, r as int, c as int));
            c = c + 1;
        }
        lines.push(line);
        r = r + 1;
    }
    assert(names_view(lines@) =~= lines_of(g, cols as nat, rows as nat, colwidth as nat));
    lines
}

/// The lines that list `names` in columns for a terminal `term_width` bytes
/// wide, or zero when its width is unknown.
pub fn column_lines(names: &Vec<Vec<u8>>, term_width: usize) -> (r: Vec<Vec<u8>>)
    requires
        names@.len() + term_width <= usize::MAX,
        forall|i: int| 0 <= i < names@.len() ==> #[trigger] names@[i]@.len() < usize::MAX,
    ensures
        names_view(r@) == listing_lines(names_view(names@), term_width as nat),
        names@.len() == 0 ==> r@.len() == 0,
{
    let n = names.len();
    if n == 0 {
        return Vec::new();
    }
    let ghost s = names_view(names@);
    let colwidth = column_width(names);
    proof {
        lemma_col_width_bounds(s);
        assert(s[0].len() + 1 <= colwidth);
    }
    let cols = num_columns(term_width, colwidth);
    assert(cols <= term_width || cols == 1) by (nonlinear_arith)
        requires
            colwidth >= 1,
            cols == columns_for(term_width as nat, colwidth as nat),
    ;
    let rows = num_rows(n, cols);
    assert(cols * rows == rows * cols) by (nonlinear_arith);
    let copy = names.clone();
    assert(names_view(copy@) =~= s);
    let grid = transpose(copy, cols, rows);
    let ghost g = grid_of(s, cols as nat, rows as nat);
    assert(names_view(grid@).len() == grid@.len());
    assert(g.len() == cols * rows);
    assert forall|k: int| 0 <= k < grid@.len() implies #[trigger] grid@[k]@.len() < colwidth by {
        assert(names_view(grid@)[k] == grid@[k]@);
        let rr = k / (cols as int);
        let cc = k % (cols as int);
        assert(rr >= 0 && cc >= 0);
        assert(cc * rows + rr >= 0) by (nonlinear_arith)
            requires
                rr >= 0,
                cc >= 0,
        ;
    }
    render_rows(&grid, cols, rows, colwidth)
}

/// The cells of a grid read down each column, column after column.
pub open spec fn column_major(grid: Seq<Seq<u8>>, cols: nat, rows: nat) -> Seq<Seq<u8>> {
    Seq::new(cols * rows, |i: int| grid[(i % (rows as int)) * cols + i / (rows as int)])
}

/// Where a cell sits in the column-major reading: the entry it holds, if any.
proof fn lemma_cell_position(cols: nat, rows: nat, i: int)
    requires
        0 <= i < cols * rows,
    ensures
        ({
            let r = i % (rows as int);
            let c = i / (rows as int);
            let k = r * cols + c;
            &&& 0 <= r < rows
            &&& 0 <= c < cols
            &&& i == c * rows + r
            &&& 0 <= k < cols * rows
            &&& k / (cols as int) == r
            &&& k % (cols as int) == c
        }),
{
    assert(rows > 0 && cols > 0) by (nonlinear_arith)
        requires
            0 <= i < cols * rows,
    ;
    let r = i % (rows as int);
    let c = i / (rows as int);
    lemma_fundamental_div_mod(i, rows as int);
    assert(i == c * rows + r && c >= 0) by (nonlinear_arith)
        requires
            i == rows * c + r,
            0 <= r < rows,
            i >= 0,
    ;
    assert(c < cols) by (nonlinear_arith)
        requires
            i == c * rows + r,
            0 <= r,
            i < cols * rows,
    ;
    assert(0 <= r * cols + c < cols * rows) by (nonlinear_arith)
        requires
            0 <= r < rows,
            0 <= c < cols,
    ;
    lemma_fundamental_div_mod_converse(r * cols + c, cols as int, r, c);
}

/// Reading the grid down each column, column after column, gives back the
/// names in their order, followed only by empty cells.
pub proof fn lemma_transpose_round_trip(names: Seq<Seq<u8>>, cols: nat, rows: nat)
    requires
        names.len() <= cols * rows,
    ensures
        column_major(grid_of(names, cols, rows), cols, rows).take(names.len() as int) == names,
        forall|i: int|
            names.len() <= i < cols * rows ==> #[trigger] column_major(
                grid_of(names, cols, rows),
                cols,
                rows,
            )[i] == Seq::<u8>::empty(),
{
    let g = grid_of(names, cols, rows);
    let m = column_major(g, cols, rows);
    assert forall|i: int| 0 <= i < cols * rows implies #[trigger] m[i] == if i < names.len() {
        names[i]
    } else {
        Seq::<u8>::empty()
    } by {
        lemma_cell_position(cols, rows, i);
    }
    assert(m.take(names.len() as int) =~= names);
}

/// The cells of a grid that hold no entry.
pub open spec fn empty_cells(n: nat, cols: nat, rows: nat) -> Set<int> {
    Set::new(
        |k: int| 0 <= k < cols * rows && !filled(n, rows, k / (cols as int), k % (cols as int)),
    )
}

/// A grid of `numcols` columns with as many rows as `n` entries need holds
/// exactly `numcols * rows - n` empty cells, each holding the empty name; when
/// the entries reach the final column (`n >= (numcols - 1) * rows`) they all lie
/// in that column. (With more columns than that, say five entries in four
/// columns, whole columns stay empty.)
pub proof fn lemma_grid_empty_cells(names: Seq<Seq<u8>>, numcols: nat)
    requires
        numcols >= 1,
        names.len() >= 1,
    ensures
        ({
            let n = names.len();
            let rows = rows_for(n, numcols);
            let g = grid_of(names, numcols, rows);
            &&& forall|k: int|
                #[trigger] empty_cells(n, numcols, rows).contains(k) ==> g[k] == Seq::<u8>::empty()
            &&& empty_cells(n, numcols, rows).finite()
            &&& empty_cells(n, numcols, rows).len() == numcols * rows - n
            &&& n >= (numcols - 1) * rows ==> forall|k: int|
                #[trigger] empty_cells(n, numcols, rows).contains(k) ==> k % (numcols as int)
                    == numcols - 1
        }),
{
    let n = names.len();
    let cols = numcols;
    let rows = rows_for(n, cols);
    let e = empty_cells(n, cols, rows);
    let q = (n + cols - 1) / (cols as int);
    let rem = (n + cols - 1) % (cols as int);
    lemma_fundamental_div_mod(n + cols - 1, cols as int);
    assert(rows * cols >= n && rows >= 1) by (nonlinear_arith)
        requires
            n + cols - 1 == cols * q + rem,
            0 <= rem < cols,
            rows == q,
            n >= 1,
            cols >= 1,
    ;
    assert(rows * cols == cols * rows) by (nonlinear_arith);
    let f = |i: int| (i % (rows as int)) * cols + i / (rows as int);
    let x = set_int_range(n as int, (cols * rows) as int);
    lemma_int_range(n as int, (cols * rows) as int);
    assert forall|i: int| #[trigger] x.contains(i) implies e.contains(f(i)) by {
        lemma_cell_position(cols, rows, i);
    }
    assert forall|k: int| #[trigger] e.contains(k) implies x.contains(
        (k % (cols as int)) * rows + k / (cols as int),
    ) && f((k % (cols as int)) * rows + k / (cols as int)) == k by {
        lemma_cell_position(rows, cols, k);
    }
    assert(x.map(f) =~= e) by {
        assert forall|k: int| #[trigger] e.contains(k) implies x.map(f).contains(k) by {
            assert(x.contains((k % (cols as int)) * rows + k / (cols as int)));
        }
    }
    assert forall|a: int, b: int| x.contains(a) && x.contains(b) && #[trigger] f(a) == #[trigger] f(
        b,
    ) implies a == b by {
        lemma_cell_position(cols, rows, a);
        lemma_cell_position(cols, rows, b);
    }
    lemma_map_size(x, e, f);
    if n >= (cols - 1) * rows {
        assert forall|k: int| #[trigger] e.contains(k) implies k % (cols as int) == cols - 1 by {
            let r = k / (cols as int);
            let c = k % (cols as int);
            lemma_cell_position(rows, cols, k);
            assert(c == cols - 1) by (nonlinear_arith)
                requires
                    c * rows + r >= n,
                    n >= (cols - 1) * rows,
                    0 <= r < rows,
                    0 <= c < cols,
            ;
        }
    }
}

} // verus!

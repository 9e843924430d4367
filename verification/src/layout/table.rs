//! Table decisions read off the box tree: which row groups repeat on every
//! page, the spans of a cell, whether the layout is fixed, and the placement
//! of cells into grid slots under `colspan`/`rowspan` occupancy. Measuring
//! the columns (float widths) is done by the caller on the placed slots.
use vstd::prelude::*;
use crate::chars::{chars_of, eq_str, trim, trim_chars};
use crate::layout::boxgen::{attr_value, attr_value_spec};
use crate::layout::fragment::RepeatKind;
use crate::layout::value::Display;
use crate::node::Attr;
use crate::numbers::{parse_unsigned_spec, parse_usize};
use crate::style::cascade::{map_get, ComputedStyle};

verus! {

/// The repeat kind of a row group: header groups repeat atop, footer groups
/// at the foot of every page the table spans.
pub fn group_repeat(d: Display) -> (res: Option<RepeatKind>)
    ensures
        res == match d {
            Display::TableHeaderGroup => Some(RepeatKind::Header),
            Display::TableFooterGroup => Some(RepeatKind::Footer),
            _ => None,
        },
{
    match d {
        Display::TableHeaderGroup => Some(RepeatKind::Header),
        Display::TableFooterGroup => Some(RepeatKind::Footer),
        _ => None,
    }
}

/// A positive integer attribute (a span): the first attribute of that name,
/// trimmed and parsed, when it is at least 1; otherwise 1.
pub open spec fn attr_usize_spec(attrs: Seq<Attr>, name: Seq<char>) -> int {
    match attr_value_spec(attrs, name) {
        Some(v) => match parse_unsigned_spec(trim(v), usize::MAX as int) {
            Some(n) => if n >= 1 {
                n
            } else {
                1
            },
            None => 1,
        },
        None => 1,
    }
}

/// A positive integer attribute, 1 when absent, malformed or zero.
pub fn attr_usize(attrs: &[Attr], name: &str) -> (res: usize)
    ensures
        res as int == attr_usize_spec(attrs@, name@),
{
    match attr_value(attrs, name) {
        Some(v) => {
            let cs = chars_of(v);
            let t = trim_chars(cs.as_slice());
            match parse_usize(t.as_slice()) {
                Some(n) => if n >= 1 {
                    n
                } else {
                    1
                },
                None => 1,
            }
        },
        None => 1,
    }
}

/// The `(colspan, rowspan)` of a cell.
pub fn cell_spans(attrs: &[Attr]) -> (res: (usize, usize))
    ensures
        res.0 as int == attr_usize_spec(attrs@, "colspan"@),
        res.1 as int == attr_usize_spec(attrs@, "rowspan"@),
{
    (attr_usize(attrs, "colspan"), attr_usize(attrs, "rowspan"))
}

/// Whether a table's style asks for the fixed layout algorithm.
pub fn is_fixed(style: &ComputedStyle) -> (res: bool)
    ensures
        res == match map_get(style@, "table-layout"@) {
            Some(v) => trim(v) == "fixed"@,
            None => false,
        },
{
    match style.get("table-layout") {
        Some(v) => {
            let cs = chars_of(v);
            let t = trim_chars(cs.as_slice());
            eq_str(t.as_slice(), "fixed")
        },
        None => false,
    }
}

// ---------------------------------------------------------------------------
// Grid placement
// ---------------------------------------------------------------------------
/// A row padded with free cells to at least `cols` columns.
pub open spec fn pad_row(row: Seq<bool>, cols: int) -> Seq<bool> {
    if row.len() < cols {
        row + Seq::new((cols - row.len()) as nat, |j: int| false)
    } else {
        row
    }
}

/// The occupancy grid grown to at least `rows` rows, every row padded to at
/// least `cols` columns.
pub open spec fn ensure_spec(occ: Seq<Seq<bool>>, rows: int, cols: int) -> Seq<Seq<bool>> {
    let grown = if occ.len() < rows {
        occ + Seq::new((rows - occ.len()) as nat, |i: int| Seq::<bool>::empty())
    } else {
        occ
    };
    Seq::new(grown.len(), |i: int| pad_row(grown[i], cols))
}

/// The first free column at or after `start` (a column past the row's end
/// is free).
pub open spec fn next_free_spec(row: Seq<bool>, start: int) -> int
    decreases row.len() - start,
{
    if 0 <= start < row.len() && row[start] {
        next_free_spec(row, start + 1)
    } else {
        start
    }
}

/// The grid with the `rs` × `cs` rectangle at `(r, col)` occupied.
pub open spec fn mark_spec(occ: Seq<Seq<bool>>, r: int, col: int, cs: int, rs: int) -> Seq<
    Seq<bool>,
> {
    let e = ensure_spec(occ, r + rs, col + cs);
    Seq::new(
        e.len(),
        |i: int|
            if r <= i < r + rs {
                Seq::new(e[i].len(), |j: int| if col <= j < col + cs { true } else { e[i][j] })
            } else {
                e[i]
            },
    )
}

/// A placed cell: its row, column, column span and row span.
pub type SlotV = (int, int, int, int);

/// Place the cells of row `r` from the `k`-th on, starting the search at
/// column `col`: each cell goes to the first free column, occupies its
/// spans, and the next search starts just past it. Returns the grid, the
/// rightmost column edge reached and the placed slots.
pub open spec fn place_from(
    occ: Seq<Seq<bool>>,
    r: int,
    cells: Seq<(usize, usize)>,
    k: int,
    col: int,
    maxc: int,
    placed: Seq<SlotV>,
) -> (Seq<Seq<bool>>, int, Seq<SlotV>)
    decreases cells.len() - k,
{
    if k < 0 || k >= cells.len() {
        (occ, maxc, placed)
    } else {
        let c = next_free_spec(occ[r], col);
        let cs = cells[k].0 as int;
        let rs = cells[k].1 as int;
        let col2 = c + cs;
        place_from(
            mark_spec(occ, r, c, cs, rs),
            r,
            cells,
            k + 1,
            col2,
            if col2 > maxc {
                col2
            } else {
                maxc
            },
            placed.push((r, c, cs, rs)),
        )
    }
}

/// Place the cells of grid row `r` (the grid first grown to reach it).
pub open spec fn place_row_spec(
    occ: Seq<Seq<bool>>,
    r: int,
    cells: Seq<(usize, usize)>,
    placed: Seq<SlotV>,
) -> (Seq<Seq<bool>>, int, Seq<SlotV>) {
    place_from(ensure_spec(occ, r + 1, 0), r, cells, 0, 0, 0, placed)
}

/// Place rows `r..` in turn; returns the slots and the column count.
pub open spec fn grid_from(
    rows: Seq<Seq<(usize, usize)>>,
    r: int,
    occ: Seq<Seq<bool>>,
    placed: Seq<SlotV>,
    ncols: int,
) -> (Seq<SlotV>, int)
    decreases rows.len() - r,
{
    if r < 0 || r >= rows.len() {
        (placed, ncols)
    } else {
        let (o2, m, p2) = place_row_spec(occ, r, rows[r], placed);
        grid_from(
            rows,
            r + 1,
            o2,
            p2,
            if m > ncols {
                m
            } else {
                ncols
            },
        )
    }
}

/// The slots of a table whose rows list their cells' `(colspan, rowspan)`,
/// and its column count.
pub open spec fn grid_spec(rows: Seq<Seq<(usize, usize)>>) -> (Seq<SlotV>, int) {
    grid_from(rows, 0, seq![], seq![], 0)
}

/// The sum of a row's spans.
pub open spec fn row_total(cells: Seq<(usize, usize)>) -> int
    decreases cells.len(),
{
    if cells.len() == 0 {
        0
    } else {
        row_total(cells.drop_last()) + cells.last().0 + cells.last().1
    }
}

/// The sum of all spans, plus one per row: a bound on every column and row
/// index the placement computes (and on the grid it allocates).
pub open spec fn grid_total(rows: Seq<Seq<(usize, usize)>>) -> int
    decreases rows.len(),
{
    if rows.len() == 0 {
        0
    } else {
        grid_total(rows.drop_last()) + row_total(rows.last()) + 1
    }
}

/// The views of an occupancy grid.
pub open spec fn occ_view(o: Seq<Vec<bool>>) -> Seq<Seq<bool>> {
    o.map_values(|v: Vec<bool>| v@)
}

/// Every row of the grid, and the number of rows, is at most `b`.
pub open spec fn occ_within(o: Seq<Seq<bool>>, b: int) -> bool {
    o.len() <= b && forall|i: int| 0 <= i < o.len() ==> #[trigger] o[i].len() <= b
}

/// A placed cell.
#[derive(Debug, Clone, Copy, PartialEq, Eq, Structural)]
pub struct Slot {
    pub row: usize,
    pub col: usize,
    pub colspan: usize,
    pub rowspan: usize,
}

/// The model of placed cells.
pub open spec fn slots_view(s: Seq<Slot>) -> Seq<SlotV> {
    s.map_values(|x: Slot| (x.row as int, x.col as int, x.colspan as int, x.rowspan as int))
}

/// A copy of a grid row.
fn copy_row(row: &Vec<bool>) -> (res: Vec<bool>)
    ensures
        res@ == row@,
{
    let mut out: Vec<bool> = Vec::new();
    let mut j: usize = 0;
    while j < row.len()
        invariant
            j <= row@.len(),
            out@ == row@.take(j as int),
        decreases row.len() - j,
    {
        out.push(row[j]);
        j += 1;
        assert(out@ =~= row@.take(j as int));
    }
    assert(row@.take(j as int) =~= row@);
    out
}

/// Grow the grid to at least `rows` rows, each padded to `cols` columns.
fn ensure(occ: &mut Vec<Vec<bool>>, rows: usize, cols: usize)
    ensures
        occ_view(final(occ)@) == ensure_spec(occ_view(old(occ)@), rows as int, cols as int),
{
    let ghost o0 = occ_view(occ@);
    while occ.len() < rows
        invariant
            o0 == occ_view(old(occ)@),
            occ_view(occ@) == (if o0.len() < occ@.len() {
                o0 + Seq::new((occ@.len() - o0.len()) as nat, |i: int| Seq::<bool>::empty())
            } else {
                o0
            }),
            occ@.len() >= o0.len(),
            occ@.len() <= rows || occ@.len() == o0.len(),
        decreases rows - occ.len(),
    {
        let ghost before = occ_view(occ@);
        occ.push(Vec::new());
        assert(occ_view(occ@) =~= before.push(Seq::<bool>::empty()));
        assert(occ_view(occ@) =~= o0 + Seq::new((occ@.len() - o0.len()) as nat, |i: int| Seq::<bool>::empty()));
    }
    let ghost grown = occ_view(occ@);
    assert(grown =~= if o0.len() < rows {
        o0 + Seq::new((rows - o0.len()) as nat, |i: int| Seq::<bool>::empty())
    } else {
        o0
    });
    let mut i: usize = 0;
    while i < occ.len()
        invariant
            i <= occ@.len(),
            occ@.len() == grown.len(),
            forall|k: int| 0 <= k < i ==> #[trigger] occ@[k]@ == pad_row(grown[k], cols as int),
            forall|k: int| i <= k < occ@.len() ==> #[trigger] occ@[k]@ == grown[k],
        decreases occ.len() - i,
    {
        let mut row = copy_row(&occ[i]);
        while row.len() < cols
            invariant
                row@.len() <= cols || row@ == grown[i as int],
                row@.len() >= grown[i as int].len(),
                row@ == grown[i as int] + Seq::new((row@.len() - grown[i as int].len()) as nat, |j: int| false),
            decreases cols - row.len(),
        {
            row.push(false);
            assert(row@ =~= grown[i as int] + Seq::new((row@.len() - grown[i as int].len()) as nat, |j: int| false));
        }
        assert(row@ =~= pad_row(grown[i as int], cols as int));
        occ.set(i, row);
        i += 1;
    }
    assert(occ_view(occ@) =~= ensure_spec(o0, rows as int, cols as int));
}

/// The first free column of `row` at or after `start`.
fn next_free(row: &Vec<bool>, start: usize) -> (res: usize)
    ensures
        res as int == next_free_spec(row@, start as int),
        res >= start,
        res <= start || res <= row@.len(),
{
    let mut c = start;
    while c < row.len() && row[c]
        invariant
            start <= c,
            c <= start || c <= row@.len(),
            next_free_spec(row@, start as int) == next_free_spec(row@, c as int),
        decreases row.len() - c,
    {
        c += 1;
    }
    c
}

/// Occupy the `rs` × `cs` rectangle at `(r, col)`.
fn mark(occ: &mut Vec<Vec<bool>>, r: usize, col: usize, cs: usize, rs: usize)
    requires
        r + rs <= usize::MAX,
        col + cs <= usize::MAX,
    ensures
        occ_view(final(occ)@) == mark_spec(occ_view(old(occ)@), r as int, col as int, cs as int, rs as int),
{
    ensure(occ, r + rs, col + cs);
    let ghost e = occ_view(occ@);
    let mut i: usize = r;
    while i < r + rs
        invariant
            r + rs <= usize::MAX,
            col + cs <= usize::MAX,
            r <= i <= r + rs,
            occ@.len() == e.len(),
            e.len() >= r + rs,
            forall|k: int| 0 <= k < e.len() ==> #[trigger] e[k].len() >= col + cs,
            forall|k: int|
                0 <= k < occ@.len() ==> #[trigger] occ@[k]@ == if r <= k < i {
                    Seq::new(e[k].len(), |j: int| if col <= j < col + cs { true } else { e[k][j] })
                } else {
                    e[k]
                },
        decreases r + rs - i,
    {
        let mut row = copy_row(&occ[i]);
        let mut j: usize = col;
        while j < col + cs
            invariant
                col + cs <= usize::MAX,
                i < e.len(),
                col <= j <= col + cs,
                row@.len() == e[i as int].len(),
                e[i as int].len() >= col + cs,
                forall|x: int|
                    0 <= x < row@.len() ==> #[trigger] row@[x] == if col <= x < j {
                        true
                    } else {
                        e[i as int][x]
                    },
            decreases col + cs - j,
        {
            row.set(j, true);
            j += 1;
        }
        assert(row@ =~= Seq::new(e[i as int].len(), |x: int| if col <= x < col + cs { true } else { e[i as int][x] }));
        occ.set(i, row);
        i += 1;
    }
    assert(occ_view(occ@) =~= mark_spec(occ_view(old(occ)@), r as int, col as int, cs as int, rs as int));
}


proof fn lemma_ensure_within(o: Seq<Seq<bool>>, rows: int, cols: int, b: int)
    requires
        occ_within(o, b),
        rows <= b,
        cols <= b,
    ensures
        occ_within(ensure_spec(o, rows, cols), b),
        ensure_spec(o, rows, cols).len() >= rows,
        forall|i: int| 0 <= i < ensure_spec(o, rows, cols).len() ==> #[trigger] ensure_spec(o, rows, cols)[i].len() >= cols,
{
    let e = ensure_spec(o, rows, cols);
    assert forall|i: int| 0 <= i < e.len() implies #[trigger] e[i].len() <= b by {
        if i < o.len() {
            assert(o[i].len() <= b);
        }
    }
}

proof fn lemma_mark_within(o: Seq<Seq<bool>>, r: int, col: int, cs: int, rs: int, b: int)
    requires
        occ_within(o, b),
        0 <= r,
        0 <= rs,
        0 <= col,
        0 <= cs,
        r + rs <= b,
        col + cs <= b,
    ensures
        occ_within(mark_spec(o, r, col, cs, rs), b),
        mark_spec(o, r, col, cs, rs).len() >= r + rs,
{
    lemma_ensure_within(o, r + rs, col + cs, b);
    let e = ensure_spec(o, r + rs, col + cs);
    let m = mark_spec(o, r, col, cs, rs);
    assert forall|i: int| 0 <= i < m.len() implies #[trigger] m[i].len() <= b by {
        assert(e[i].len() <= b);
    }
}

proof fn lemma_row_total_prefix(cells: Seq<(usize, usize)>, k: int)
    requires
        0 <= k < cells.len(),
    ensures
        row_total(cells.take(k + 1)) == row_total(cells.take(k)) + cells[k].0 + cells[k].1,
        row_total(cells.take(k + 1)) <= row_total(cells),
    decreases cells.len() - k,
{
    assert(cells.take(k + 1).drop_last() =~= cells.take(k));
    if k + 1 < cells.len() {
        lemma_row_total_prefix(cells, k + 1);
    } else {
        assert(cells.take(k + 1) =~= cells);
    }
}

proof fn lemma_grid_total_prefix(rows: Seq<Seq<(usize, usize)>>, r: int)
    requires
        0 <= r < rows.len(),
    ensures
        grid_total(rows.take(r + 1)) == grid_total(rows.take(r)) + row_total(rows[r]) + 1,
        grid_total(rows.take(r + 1)) <= grid_total(rows),
    decreases rows.len() - r,
{
    assert(rows.take(r + 1).drop_last() =~= rows.take(r));
    if r + 1 < rows.len() {
        lemma_grid_total_prefix(rows, r + 1);
        lemma_row_total_nonneg(rows[r + 1]);
    } else {
        assert(rows.take(r + 1) =~= rows);
    }
}

proof fn lemma_grid_total_nonneg(rows: Seq<Seq<(usize, usize)>>)
    ensures
        grid_total(rows) >= 0,
    decreases rows.len(),
{
    if rows.len() > 0 {
        lemma_grid_total_nonneg(rows.drop_last());
        lemma_row_total_nonneg(rows.last());
    }
}

proof fn lemma_row_total_nonneg(cells: Seq<(usize, usize)>)
    ensures
        row_total(cells) >= 0,
    decreases cells.len(),
{
    if cells.len() > 0 {
        lemma_row_total_nonneg(cells.drop_last());
    }
}

/// Place one row's cells; returns the rightmost column edge it reached.
fn place_row(
    occ: &mut Vec<Vec<bool>>,
    cells: &[(usize, usize)],
    r: usize,
    placed: &mut Vec<Slot>,
    Ghost(g): Ghost<int>,
) -> (res: usize)
    requires
        occ_within(occ_view(old(occ)@), g),
        0 <= r <= g,
        g + 1 + row_total(cells@) <= usize::MAX,
    ensures
        (occ_view(final(occ)@), res as int, slots_view(final(placed)@)) == place_row_spec(
            occ_view(old(occ)@),
            r as int,
            cells@,
            slots_view(old(placed)@),
        ),
        occ_within(occ_view(final(occ)@), g + 1 + row_total(cells@)),
        res <= g + 1 + row_total(cells@),
{
    proof {
        lemma_ensure_within(occ_view(occ@), r + 1, 0, g + 1);
        lemma_row_total_nonneg(cells@);
    }
    ensure(occ, r + 1, 0);
    let ghost o1 = occ_view(occ@);
    let ghost p0 = slots_view(placed@);
    let mut col: usize = 0;
    let mut max_col: usize = 0;
    let mut k: usize = 0;
    assert(cells@.take(0) =~= Seq::<(usize, usize)>::empty());
    while k < cells.len()
        invariant
            k <= cells@.len(),
            r <= g,
            g + 1 + row_total(cells@) <= usize::MAX,
            occ@.len() > r,
            occ_within(occ_view(occ@), g + 1 + row_total(cells@.take(k as int))),
            col <= g + 1 + row_total(cells@.take(k as int)),
            max_col <= g + 1 + row_total(cells@.take(k as int)),
            row_total(cells@.take(k as int)) >= 0,
            row_total(cells@.take(k as int)) <= row_total(cells@),
            place_from(occ_view(occ@), r as int, cells@, k as int, col as int, max_col as int, slots_view(placed@))
                == place_from(o1, r as int, cells@, 0, 0, 0, p0),
            o1 == ensure_spec(occ_view(old(occ)@), r + 1, 0),
            p0 == slots_view(old(placed)@),
        decreases cells.len() - k,
    {
        proof {
            lemma_row_total_prefix(cells@, k as int);
        }
        let ghost t = g + 1 + row_total(cells@.take(k as int));
        let ghost t2 = g + 1 + row_total(cells@.take(k + 1));
        assert(occ_view(occ@)[r as int] == occ@[r as int]@);
        assert(occ_view(occ@)[r as int].len() <= t);
        let c = next_free(&occ[r], col);
        let (cs, rs) = cells[k];
        assert(c <= t);
        proof {
            lemma_mark_within(occ_view(occ@), r as int, c as int, cs as int, rs as int, t2);
            assert(occ_within(occ_view(occ@), t2));
        }
        mark(occ, r, c, cs, rs);
        let ghost before = slots_view(placed@);
        placed.push(Slot { row: r, col: c, colspan: cs, rowspan: rs });
        assert(slots_view(placed@) =~= before.push((r as int, c as int, cs as int, rs as int)));
        col = c + cs;
        if col > max_col {
            max_col = col;
        }
        k += 1;
    }
    assert(cells@.take(k as int) =~= cells@);
    max_col
}

/// Place every row's cells into grid slots under `colspan`/`rowspan`
/// occupancy; returns the slots (in row, then cell order) and the number of
/// columns. Each row lists its cells' `(colspan, rowspan)`; the sum of all
/// spans plus the row count must fit a `usize` (every index computed, and
/// every grid row allocated, stays below it).
pub fn build_grid(rows: &[Vec<(usize, usize)>]) -> (res: (Vec<Slot>, usize))
    requires
        grid_total(rows_view(rows@)) <= usize::MAX,
    ensures
        (slots_view(res.0@), res.1 as int) == grid_spec(rows_view(rows@)),
{
    let ghost rv = rows_view(rows@);
    let mut occ: Vec<Vec<bool>> = Vec::new();
    let mut placed: Vec<Slot> = Vec::new();
    let mut ncols: usize = 0;
    let mut r: usize = 0;
    assert(occ_view(occ@) =~= Seq::<Seq<bool>>::empty());
    assert(slots_view(placed@) =~= Seq::<SlotV>::empty());
    assert(rv.take(0) =~= Seq::<Seq<(usize, usize)>>::empty());
    proof {
        lemma_grid_total_nonneg(rv);
    }
    while r < rows.len()
        invariant
            r <= rows@.len(),
            rv == rows_view(rows@),
            rv.len() == rows@.len(),
            grid_total(rv) <= usize::MAX,
            occ_within(occ_view(occ@), grid_total(rv.take(r as int))),
            r <= grid_total(rv.take(r as int)),
            ncols <= grid_total(rv.take(r as int)),
            grid_total(rv.take(r as int)) <= grid_total(rv),
            grid_from(rv, r as int, occ_view(occ@), slots_view(placed@), ncols as int) == grid_spec(rv),
        decreases rows.len() - r,
    {
        proof {
            lemma_grid_total_prefix(rv, r as int);
            lemma_row_total_nonneg(rv[r as int]);
        }
        let ghost g = grid_total(rv.take(r as int));
        assert(rows[r as int]@ == rv[r as int]);
        let m = place_row(&mut occ, rows[r].as_slice(), r, &mut placed, Ghost(g));
        if m > ncols {
            ncols = m;
        }
        r += 1;
    }
    (placed, ncols)
}

/// The views of the rows of a table.
pub open spec fn rows_view(rows: Seq<Vec<(usize, usize)>>) -> Seq<Seq<(usize, usize)>> {
    rows.map_values(|v: Vec<(usize, usize)>| v@)
}


// ---------------------------------------------------------------------------
// Laws
// ---------------------------------------------------------------------------
/// Slots come row by row, and within a row each starts at or past the end of
/// the one before it.
pub open spec fn ordered(p: Seq<SlotV>) -> bool {
    forall|i: int|
        0 <= i && i + 1 < p.len() ==> (#[trigger] p[i]).0 < p[i + 1].0 || (p[i].0 == p[i + 1].0
            && p[i + 1].1 >= p[i].1 + p[i].2)
}

/// The right edge of a slot.
pub open spec fn slot_end(s: SlotV) -> int {
    s.1 + s.2
}

proof fn lemma_next_free_ge(row: Seq<bool>, start: int)
    ensures
        next_free_spec(row, start) >= start,
    decreases row.len() - start,
{
    if 0 <= start < row.len() && row[start] {
        lemma_next_free_ge(row, start + 1);
    }
}

#[verifier::spinoff_prover]
#[verifier::rlimit(60)]
proof fn lemma_place_from(
    occ: Seq<Seq<bool>>,
    r: int,
    cells: Seq<(usize, usize)>,
    k: int,
    col: int,
    maxc: int,
    p: Seq<SlotV>,
)
    requires
        0 <= k,
        0 <= col,
        0 <= maxc,
        ordered(p),
        forall|i: int| 0 <= i < p.len() ==> (#[trigger] p[i]).0 <= r,
        p.len() > 0 && p.last().0 == r ==> slot_end(p.last()) <= col,
        forall|i: int| 0 <= i < p.len() && (#[trigger] p[i]).0 == r ==> slot_end(p[i]) <= maxc,
        maxc == 0 || exists|i: int| 0 <= i < p.len() && (#[trigger] p[i]).0 == r && slot_end(p[i]) == maxc,
    ensures
        ({
            let (o2, m, p2) = place_from(occ, r, cells, k, col, maxc, p);
            &&& ordered(p2)
            &&& p2.len() >= p.len()
            &&& p2.take(p.len() as int) == p
            &&& forall|i: int| p.len() <= i < p2.len() ==> (#[trigger] p2[i]).0 == r
            &&& forall|i: int| 0 <= i < p2.len() ==> (#[trigger] p2[i]).0 <= r
            &&& forall|i: int| 0 <= i < p2.len() && (#[trigger] p2[i]).0 == r ==> slot_end(p2[i]) <= m
            &&& m == 0 || exists|i: int| 0 <= i < p2.len() && (#[trigger] p2[i]).0 == r && slot_end(p2[i]) == m
            &&& m >= maxc
        }),
    decreases cells.len() - k,
{
    if k < cells.len() {
        let c = next_free_spec(occ[r], col);
        lemma_next_free_ge(occ[r], col);
        let cs = cells[k].0 as int;
        let rs = cells[k].1 as int;
        let col2 = c + cs;
        let m2 = if col2 > maxc { col2 } else { maxc };
        let q = p.push((r, c, cs, rs));
        assert(q[p.len() as int] == (r, c, cs, rs));
        assert forall|i: int| 0 <= i && i + 1 < q.len() implies (#[trigger] q[i]).0 < q[i + 1].0 || (q[i].0 == q[i + 1].0
            && q[i + 1].1 >= q[i].1 + q[i].2) by {
            if i + 1 < p.len() {
                assert(q[i] == p[i] && q[i + 1] == p[i + 1]);
            } else {
                assert(q[i] == p.last());
            }
        }
        assert forall|i: int| 0 <= i < q.len() && (#[trigger] q[i]).0 == r implies slot_end(q[i]) <= m2 by {
            if i < p.len() {
                assert(q[i] == p[i]);
            }
        }
        if m2 != 0 {
            if col2 > maxc {
                assert(q[p.len() as int].0 == r && slot_end(q[p.len() as int]) == m2);
            } else {
                let w = choose|i: int| 0 <= i < p.len() && (#[trigger] p[i]).0 == r && slot_end(p[i]) == maxc;
                assert(q[w] == p[w]);
            }
        }
        assert forall|i: int| 0 <= i < q.len() implies (#[trigger] q[i]).0 <= r by {
            if i < p.len() {
                assert(q[i] == p[i]);
            }
        }
        lemma_place_from(mark_spec(occ, r, c, cs, rs), r, cells, k + 1, col2, m2, q);
        let (o3, m3, p3) = place_from(mark_spec(occ, r, c, cs, rs), r, cells, k + 1, col2, m2, q);
        assert(p3.take(q.len() as int) == q);
        assert(p3.take(p.len() as int) =~= q.take(p.len() as int));
        assert(q.take(p.len() as int) =~= p);
        assert forall|i: int| p.len() <= i < p3.len() implies (#[trigger] p3[i]).0 == r by {
            if i < q.len() {
                assert(p3[i] == p3.take(q.len() as int)[i]);
                assert(q[i].0 == r);
            }
        }
    }
}

proof fn lemma_grid_from(
    rows: Seq<Seq<(usize, usize)>>,
    r: int,
    occ: Seq<Seq<bool>>,
    p: Seq<SlotV>,
    ncols: int,
)
    requires
        0 <= r,
        0 <= ncols,
        ordered(p),
        forall|i: int| 0 <= i < p.len() ==> (#[trigger] p[i]).0 < r,
        forall|i: int| 0 <= i < p.len() ==> slot_end(#[trigger] p[i]) <= ncols,
        ncols == 0 || exists|i: int| 0 <= i < p.len() && slot_end(#[trigger] p[i]) == ncols,
    ensures
        ({
            let (p2, n) = grid_from(rows, r, occ, p, ncols);
            &&& ordered(p2)
            &&& forall|i: int| 0 <= i < p2.len() ==> slot_end(#[trigger] p2[i]) <= n
            &&& n == 0 || exists|i: int| 0 <= i < p2.len() && slot_end(#[trigger] p2[i]) == n
        }),
    decreases rows.len() - r,
{
    if r < rows.len() {
        let e = ensure_spec(occ, r + 1, 0);
        assert forall|i: int| 0 <= i < p.len() && (#[trigger] p[i]).0 == r implies slot_end(p[i]) <= 0 by {
            assert(p[i].0 < r);
        }
        assert forall|i: int| 0 <= i < p.len() implies (#[trigger] p[i]).0 <= r by {
            assert(p[i].0 < r);
        }
        lemma_place_from(e, r, rows[r], 0, 0, 0, p);
        let (o2, m, p2) = place_row_spec(occ, r, rows[r], p);
        let n2 = if m > ncols { m } else { ncols };
        assert forall|i: int| 0 <= i < p2.len() implies slot_end(#[trigger] p2[i]) <= n2 by {
            if i < p.len() {
                assert(p2[i] == p2.take(p.len() as int)[i]);
            } else {
                assert(p2[i].0 == r);
            }
        }
        if n2 != 0 {
            if m > ncols {
                let w = choose|i: int| 0 <= i < p2.len() && (#[trigger] p2[i]).0 == r && slot_end(p2[i]) == m;
                assert(slot_end(p2[w]) == n2);
            } else {
                let w = choose|i: int| 0 <= i < p.len() && slot_end(#[trigger] p[i]) == ncols;
                assert(p2[w] == p2.take(p.len() as int)[w]);
                assert(slot_end(p2[w]) == n2);
            }
        }
        assert forall|i: int| 0 <= i < p2.len() implies (#[trigger] p2[i]).0 < r + 1 by {}
        lemma_grid_from(rows, r + 1, o2, p2, n2);
    }
}

/// Cells are placed row by row and, within a row, left to right without
/// overlapping each other; the column count is the rightmost edge any cell
/// reaches (0 for a table without cells).
pub proof fn grid_is_ordered_and_counts_columns(rows: Seq<Seq<(usize, usize)>>)
    ensures
        ordered(grid_spec(rows).0),
        forall|i: int|
            0 <= i < grid_spec(rows).0.len() ==> slot_end(#[trigger] grid_spec(rows).0[i])
                <= grid_spec(rows).1,
        grid_spec(rows).1 == 0 || exists|i: int|
            0 <= i < grid_spec(rows).0.len() && slot_end(#[trigger] grid_spec(rows).0[i])
                == grid_spec(rows).1,
{
    lemma_grid_from(rows, 0, seq![], seq![], 0);
}

} // verus!

//! Rows of cells covering a rectangle of the rHEALPix plane.
//!
//! Given the cells at three corners of a rectangle, the rows are walked on
//! the planar grid: each row starts one step down from the previous row's
//! start and runs rightwards until it meets the cell one step down from the
//! previous row's end; the last row is the one that ends at the lower-right
//! corner.

use vstd::prelude::*;

use crate::cell::{CellId, CellView};
use crate::compaction::cell_views;
use crate::dggs::{planar_neighbor_of, RhealpixDggs};
use crate::error::{Error, Result};
use crate::face::Direction;

verus! {

/// Largest number of cells that one coverage may hold.
pub const MAX_COVERAGE_CELLS: usize = 10_000_000;

/// The cell reached from `c` after `n` planar steps in `direction`, with
/// the polar squares at `layout`.
pub open spec fn walk(layout: (nat, nat), c: CellView, direction: Direction, n: nat) -> CellView
    decreases n,
{
    if n == 0 {
        c
    } else {
        let p = walk(layout, c, direction, (n - 1) as nat);
        planar_neighbor_of(layout.0, layout.1, p.0, p.1, direction)
    }
}

/// The walk from `start` in `direction` meets `end` for the first time
/// after `n` steps.
pub open spec fn first_meets(
    layout: (nat, nat),
    start: CellView,
    direction: Direction,
    end: CellView,
    n: nat,
) -> bool {
    &&& walk(layout, start, direction, n) == end
    &&& forall|j: nat| j < n ==> #[trigger] walk(layout, start, direction, j) != end
}

/// Row `i` of the rectangle: from the `i`-th cell below the upper-left
/// corner rightwards, until the `i`-th cell below the upper-right corner.
pub open spec fn is_region_row(
    layout: (nat, nat),
    upper_left: CellView,
    upper_right: CellView,
    i: nat,
    row: Seq<CellView>,
) -> bool {
    let start = walk(layout, upper_left, Direction::Down, i);
    &&& row.len() > 0
    &&& first_meets(
        layout,
        start,
        Direction::Right,
        walk(layout, upper_right, Direction::Down, i),
        (row.len() - 1) as nat,
    )
    &&& forall|j: int| 0 <= j < row.len() ==> #[trigger] row[j] == walk(layout, start, Direction::Right, j as nat)
}

/// `rows` are the rows of the rectangle with the given corners: one per
/// step down from the upper-right corner until the lower-right one.
pub open spec fn region_rows_of(
    layout: (nat, nat),
    upper_left: CellView,
    upper_right: CellView,
    lower_right: CellView,
    rows: Seq<Seq<CellView>>,
) -> bool {
    &&& rows.len() > 0
    &&& first_meets(layout, upper_right, Direction::Down, lower_right, (rows.len() - 1) as nat)
    &&& forall|i: int|
        0 <= i < rows.len() ==> #[trigger] is_region_row(
            layout,
            upper_left,
            upper_right,
            i as nat,
            rows[i],
        )
}

/// Number of cells in all rows.
pub open spec fn total_cells(rows: Seq<Seq<CellView>>) -> nat
    decreases rows.len(),
{
    if rows.len() == 0 {
        0
    } else {
        total_cells(rows.drop_last()) + rows.last().len()
    }
}

/// The values of rows of cell identifiers.
pub open spec fn row_views(rows: Seq<Vec<CellId>>) -> Seq<Seq<CellView>> {
    rows.map_values(|row: Vec<CellId>| cell_views(row@))
}

/// A walk meets its end at one step count only.
pub proof fn lemma_first_meets_unique(
    layout: (nat, nat),
    start: CellView,
    direction: Direction,
    end: CellView,
    n: nat,
    m: nat,
)
    requires
        first_meets(layout, start, direction, end, n),
        first_meets(layout, start, direction, end, m),
    ensures
        n == m,
{
    if n < m {
        assert(walk(layout, start, direction, n) != end);
    }
    if m < n {
        assert(walk(layout, start, direction, m) != end);
    }
}

/// Cells in a prefix of the rows.
proof fn lemma_total_prefix(rows: Seq<Seq<CellView>>, i: int)
    requires
        0 <= i < rows.len(),
    ensures
        total_cells(rows.take(i + 1)) == total_cells(rows.take(i)) + rows[i].len(),
        total_cells(rows.take(i + 1)) <= total_cells(rows),
    decreases rows.len(),
{
    assert(rows.take(i + 1).drop_last() =~= rows.take(i));
    if i + 1 < rows.len() {
        lemma_total_prefix(rows.drop_last(), i);
        assert(rows.drop_last().take(i + 1) =~= rows.take(i + 1));
    } else {
        assert(rows.take(i + 1) =~= rows);
    }
}

/// Rows that agree row by row have the same number of cells.
proof fn lemma_total_same_lengths(a: Seq<Seq<CellView>>, b: Seq<Seq<CellView>>)
    requires
        a.len() == b.len(),
        forall|i: int| 0 <= i < a.len() ==> #[trigger] a[i].len() == b[i].len(),
    ensures
        total_cells(a) == total_cells(b),
    decreases a.len(),
{
    if a.len() > 0 {
        lemma_total_same_lengths(a.drop_last(), b.drop_last());
    }
}

/// When the walk has produced complete rows and part of the next one, and
/// the rectangle's rows exist, they hold more cells than that.
proof fn lemma_rows_budget(
    layout: (nat, nat),
    upper_left: CellView,
    upper_right: CellView,
    lower_right: CellView,
    done: Seq<Seq<CellView>>,
    k: nat,
    rows: Seq<Seq<CellView>>,
)
    requires
        forall|i: int|
            0 <= i < done.len() ==> #[trigger] is_region_row(
                layout,
                upper_left,
                upper_right,
                i as nat,
                done[i],
            ),
        forall|i: nat| i < done.len() ==> #[trigger] walk(layout, upper_right, Direction::Down, i) != lower_right,
        forall|j: nat|
            j < k ==> #[trigger] walk(
                layout,
                walk(layout, upper_left, Direction::Down, done.len()),
                Direction::Right,
                j,
            ) != walk(layout, upper_right, Direction::Down, done.len()),
        region_rows_of(layout, upper_left, upper_right, lower_right, rows),
    ensures
        total_cells(rows) >= total_cells(done) + k + 1,
{
    let n = done.len();
    let last = (rows.len() - 1) as nat;
    if last < n {
        assert(walk(layout, upper_right, Direction::Down, last) != lower_right);
    }
    assert(n < rows.len());
    assert forall|i: int| 0 <= i < n implies #[trigger] done[i].len() == rows.take(n as int)[i].len() by {
        assert(is_region_row(layout, upper_left, upper_right, i as nat, done[i]));
        assert(is_region_row(layout, upper_left, upper_right, i as nat, rows[i]));
        let start = walk(layout, upper_left, Direction::Down, i as nat);
        let end = walk(layout, upper_right, Direction::Down, i as nat);
        lemma_first_meets_unique(
            layout,
            start,
            Direction::Right,
            end,
            (done[i].len() - 1) as nat,
            (rows[i].len() - 1) as nat,
        );
    }
    lemma_total_same_lengths(done, rows.take(n as int));
    lemma_total_prefix(rows, n as int);
    let ni = n as int;
    let row = rows[ni];
    assert(is_region_row(layout, upper_left, upper_right, ni as nat, row));
    let m = (row.len() - 1) as nat;
    if m < k {
        assert(walk(
            layout,
            walk(layout, upper_left, Direction::Down, n),
            Direction::Right,
            m,
        ) != walk(layout, upper_right, Direction::Down, n));
    }
}

impl RhealpixDggs {
    /// Rows of cells covering the rectangle whose upper-left, upper-right
    /// and lower-right corners lie in the given cells, top to bottom, each
    /// row left to right. A rectangle inside one cell is that cell alone.
    /// The walk stops once it would hold more than [`MAX_COVERAGE_CELLS`].
    pub fn region_rows(
        &self,
        upper_left: &CellId,
        upper_right: &CellId,
        lower_right: &CellId,
    ) -> (r: Result<Vec<Vec<CellId>>>)
        ensures
            upper_left@ == lower_right@ ==> (r matches Ok(rows) && row_views(rows@) == seq![
                seq![upper_left@],
            ]),
            upper_left@ != lower_right@ ==> match r {
                Ok(rows) => region_rows_of(
                    self@,
                    upper_left@,
                    upper_right@,
                    lower_right@,
                    row_views(rows@),
                ) && total_cells(row_views(rows@)) <= MAX_COVERAGE_CELLS,
                Err(e) => e == Error::ExpansionTooLarge((MAX_COVERAGE_CELLS + 1) as u64) && !exists|
                    rows: Seq<Seq<CellView>>,
                |
                    region_rows_of(self@, upper_left@, upper_right@, lower_right@, rows)
                        && total_cells(rows) <= MAX_COVERAGE_CELLS,
            },
    {
        let layout = Ghost(self@);
        if upper_left.same_as(lower_right) {
            let mut row: Vec<CellId> = Vec::new();
            row.push(*upper_left);
            let mut rows: Vec<Vec<CellId>> = Vec::new();
            rows.push(row);
            proof {
                assert(row_views(rows@) =~= seq![seq![upper_left@]]) by {
                    assert(row_views(rows@)[0] =~= seq![upper_left@]);
                }
            }
            return Ok(rows);
        }
        let ghost ul = upper_left@;
        let ghost ur = upper_right@;
        let ghost lr = lower_right@;
        let mut rows: Vec<Vec<CellId>> = Vec::new();
        let mut row_start = *upper_left;
        let mut row_end = *upper_right;
        let mut count: usize = 0;
        loop
            invariant_except_break
                row_start@ == walk(self@, ul, Direction::Down, rows@.len() as nat),
                row_end@ == walk(self@, ur, Direction::Down, rows@.len() as nat),
                forall|i: nat| i < rows@.len() ==> #[trigger] walk(self@, ur, Direction::Down, i) != lr,
            invariant
                layout@ == self@,
                ul == upper_left@,
                ur == upper_right@,
                lr == lower_right@,
                ul != lr,
                count <= MAX_COVERAGE_CELLS,
                count == total_cells(row_views(rows@)),
                forall|i: int|
                    0 <= i < rows@.len() ==> #[trigger] is_region_row(
                        self@,
                        ul,
                        ur,
                        i as nat,
                        row_views(rows@)[i],
                    ),
            ensures
                region_rows_of(self@, ul, ur, lr, row_views(rows@)),
                total_cells(row_views(rows@)) <= MAX_COVERAGE_CELLS,
            decreases MAX_COVERAGE_CELLS - count,
        {
            let ghost done = row_views(rows@);
            let mut row: Vec<CellId> = Vec::new();
            let mut current = row_start;
            loop
                invariant_except_break
                    current@ == walk(self@, row_start@, Direction::Right, row@.len() as nat),
                    forall|j: nat|
                        j < row@.len() ==> #[trigger] walk(self@, row_start@, Direction::Right, j)
                            != row_end@,
                invariant
                    layout@ == self@,
                    ul == upper_left@,
                    ur == upper_right@,
                    lr == lower_right@,
                    ul != lr,
                    count <= MAX_COVERAGE_CELLS,
                    count == total_cells(done) + row@.len(),
                    forall|j: int|
                        0 <= j < row@.len() ==> #[trigger] row@[j]@ == walk(
                            self@,
                            row_start@,
                            Direction::Right,
                            j as nat,
                        ),
                    row_start@ == walk(self@, ul, Direction::Down, done.len()),
                    row_end@ == walk(self@, ur, Direction::Down, done.len()),
                    forall|i: int|
                        0 <= i < done.len() ==> #[trigger] is_region_row(
                            self@,
                            ul,
                            ur,
                            i as nat,
                            done[i],
                        ),
                    forall|i: nat| i < done.len() ==> #[trigger] walk(self@, ur, Direction::Down, i) != lr,
                ensures
                    row@.len() > 0,
                    count == total_cells(done) + row@.len(),
                    count <= MAX_COVERAGE_CELLS,
                    is_region_row(self@, ul, ur, done.len(), cell_views(row@)),
                decreases MAX_COVERAGE_CELLS - count,
            {
                if count >= MAX_COVERAGE_CELLS {
                    proof {
                        assert forall|rows: Seq<Seq<CellView>>|
                            region_rows_of(self@, ul, ur, lr, rows) implies total_cells(rows)
                            > MAX_COVERAGE_CELLS by {
                            lemma_rows_budget(self@, ul, ur, lr, done, row@.len() as nat, rows);
                        }
                    }
                    return Err(Error::ExpansionTooLarge(count as u64 + 1));
                }
                count += 1;
                row.push(current);
                if current.same_as(&row_end) {
                    proof {
                        let v = cell_views(row@);
                        assert forall|j: int| 0 <= j < v.len() implies #[trigger] v[j] == walk(
                            self@,
                            row_start@,
                            Direction::Right,
                            j as nat,
                        ) by {
                            assert(v[j] == row@[j]@);
                        }
                    }
                    break;
                }
                current = self.planar_neighbor(&current, Direction::Right);
            }
            let is_final = row_end.same_as(lower_right);
            rows.push(row);
            proof {
                let after = row_views(rows@);
                assert(after.drop_last() =~= done);
                assert forall|i: int| 0 <= i < after.len() implies #[trigger] is_region_row(
                    self@,
                    ul,
                    ur,
                    i as nat,
                    after[i],
                ) by {
                    if i < done.len() {
                        assert(after[i] == done[i]);
                    }
                }
            }
            if is_final {
                proof {
                    let after = row_views(rows@);
                    assert forall|i: nat| i < (after.len() - 1) as nat implies #[trigger] walk(
                        self@,
                        ur,
                        Direction::Down,
                        i,
                    ) != lr by {}
                }
                break;
            }
            row_start = self.planar_neighbor(&row_start, Direction::Down);
            row_end = self.planar_neighbor(&row_end, Direction::Down);
        }
        Ok(rows)
    }
}

/// `cells` followed by `items`, each item left out when it repeats the
/// cell just before it.
pub open spec fn collapse_repeats(cells: Seq<CellView>, items: Seq<CellView>) -> Seq<CellView>
    decreases items.len(),
{
    if items.len() == 0 {
        cells
    } else if cells.len() > 0 && cells.last() == items[0] {
        collapse_repeats(cells, items.drop_first())
    } else {
        collapse_repeats(cells.push(items[0]), items.drop_first())
    }
}

/// Collapsing never shortens.
proof fn lemma_collapse_grows(cells: Seq<CellView>, items: Seq<CellView>)
    ensures
        collapse_repeats(cells, items).len() >= cells.len(),
    decreases items.len(),
{
    if items.len() > 0 {
        if cells.len() > 0 && cells.last() == items[0] {
            lemma_collapse_grows(cells, items.drop_first());
        } else {
            lemma_collapse_grows(cells.push(items[0]), items.drop_first());
        }
    }
}

/// Add `count` cells to a running total of coverage cells.
pub fn checked_coverage_count(current: usize, additional: usize) -> (r: Result<usize>)
    ensures
        current + additional > usize::MAX ==> r == Err::<usize, Error>(
            Error::ExpansionTooLarge(u64::MAX),
        ),
        MAX_COVERAGE_CELLS < current + additional <= usize::MAX ==> r == Err::<usize, Error>(
            Error::ExpansionTooLarge((current + additional) as u64),
        ),
        current + additional <= MAX_COVERAGE_CELLS ==> r == Ok::<usize, Error>(
            (current + additional) as usize,
        ),
{
    let count = match current.checked_add(additional) {
        Some(c) => c,
        None => return Err(Error::ExpansionTooLarge(u64::MAX)),
    };
    if count > MAX_COVERAGE_CELLS {
        return Err(Error::ExpansionTooLarge(count as u64));
    }
    Ok(count)
}

/// Append the cells a path segment touches, in the order they are met,
/// leaving out a cell that repeats the one before it. The path may hold at
/// most [`MAX_COVERAGE_CELLS`] cells.
pub fn append_segment_cells(result: &mut Vec<CellId>, touched: Vec<CellId>) -> (r: Result<()>)
    requires
        old(result)@.len() <= MAX_COVERAGE_CELLS,
    ensures
        collapse_repeats(cell_views(old(result)@), cell_views(touched@)).len()
            <= MAX_COVERAGE_CELLS ==> r is Ok && cell_views(final(result)@) == collapse_repeats(
            cell_views(old(result)@),
            cell_views(touched@),
        ),
        collapse_repeats(cell_views(old(result)@), cell_views(touched@)).len()
            > MAX_COVERAGE_CELLS ==> r == Err::<(), Error>(
            Error::ExpansionTooLarge((MAX_COVERAGE_CELLS + 1) as u64),
        ),
{
    let ghost target = collapse_repeats(cell_views(result@), cell_views(touched@));
    assert(target == collapse_repeats(cell_views(old(result)@), cell_views(touched@)));
    let n = touched.len();
    let mut i: usize = 0;
    proof {
        assert(cell_views(touched@).skip(0) =~= cell_views(touched@));
    }
    while i < n
        invariant
            n == touched@.len(),
            i <= n,
            target == collapse_repeats(cell_views(old(result)@), cell_views(touched@)),
            result@.len() <= MAX_COVERAGE_CELLS,
            collapse_repeats(cell_views(result@), cell_views(touched@).skip(i as int)) == target,
        decreases n - i,
    {
        let cell = touched[i];
        let ghost rest = cell_views(touched@).skip(i as int);
        proof {
            assert(rest[0] == cell@);
            assert(rest.drop_first() =~= cell_views(touched@).skip(i + 1));
        }
        let len = result.len();
        let repeats = len > 0 && result[len - 1].same_as(&cell);
        proof {
            if len > 0 {
                assert(cell_views(result@).last() == result@[len - 1]@);
            }
        }
        if !repeats {
            if len >= MAX_COVERAGE_CELLS {
                proof {
                    assert(collapse_repeats(cell_views(result@), rest) == collapse_repeats(
                        cell_views(result@).push(cell@),
                        rest.drop_first(),
                    ));
                    lemma_collapse_grows(cell_views(result@).push(cell@), rest.drop_first());
                    assert(target.len() > MAX_COVERAGE_CELLS);
                }
                return Err(Error::ExpansionTooLarge(len as u64 + 1));
            }
            let ghost before = cell_views(result@);
            result.push(cell);
            proof {
                assert(cell_views(result@) =~= before.push(cell@));
            }
        }
        i += 1;
    }
    proof {
        assert(cell_views(touched@).skip(n as int) =~= Seq::<CellView>::empty());
    }
    Ok(())
}

/// All cells of the rows, row after row.
pub fn flatten_rows(rows: Vec<Vec<CellId>>) -> (r: Vec<CellId>)
    ensures
        cell_views(r@) == row_views(rows@).flatten(),
{
    let ghost all = row_views(rows@);
    let mut out: Vec<CellId> = Vec::new();
    let n = rows.len();
    let mut i: usize = 0;
    proof {
        assert(all.take(0) =~= Seq::<Seq<CellView>>::empty());
        assert(cell_views(out@) =~= all.take(0).flatten());
    }
    while i < n
        invariant
            n == rows@.len(),
            all == row_views(rows@),
            i <= n,
            cell_views(out@) == all.take(i as int).flatten(),
        decreases n - i,
    {
        let row = &rows[i];
        let ghost before = cell_views(out@);
        let mut j: usize = 0;
        while j < row.len()
            invariant
                j <= row@.len(),
                cell_views(out@) == before + cell_views(row@).take(j as int),
            decreases row@.len() - j,
        {
            let ghost previous = out@;
            out.push(row[j]);
            proof {
                assert(cell_views(out@) =~= cell_views(previous).push(row@[j as int]@));
                assert(cell_views(row@).take(j + 1) =~= cell_views(row@).take(j as int).push(
                    row@[j as int]@,
                ));
                assert(cell_views(out@) =~= before + cell_views(row@).take(j + 1));
            }
            j += 1;
        }
        proof {
            assert(cell_views(row@).take(row@.len() as int) =~= cell_views(row@));
            assert(all[i as int] == cell_views(rows@[i as int]@));
            assert(all.take(i + 1) =~= all.take(i as int).push(all[i as int]));
            all.take(i as int).lemma_flatten_push(all[i as int]);
        }
        i += 1;
    }
    proof {
        assert(all.take(n as int) =~= all);
    }
    out
}

} // verus!

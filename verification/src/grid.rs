//! Row and column of a cell within its resolution-zero face.
//!
//! A face at resolution `r` is a `3^r` by `3^r` grid of cells, rows counted
//! downwards from the face's upper edge and columns rightwards from its left
//! edge. Child digit `d` sits in row `d / 3` and column `d % 3` of its
//! parent, so a cell's row and column are its digits' rows and columns read
//! as base-3 numbers.

use vstd::prelude::*;

use crate::cell::CellId;
use crate::error::{Error, Result};
use crate::face::Face;
use crate::numbering::valid_digits;

verus! {

/// Largest number of points that one densified boundary may hold.
pub const MAX_BOUNDARY_POINTS: usize = 10_000_000;

/// Largest number of points that the boundaries of one list of cells may
/// hold together.
pub const MAX_BULK_BOUNDARY_POINTS: usize = 10_000_000;

/// `3` raised to the power `n`.
pub open spec fn pow3(n: nat) -> nat
    decreases n,
{
    if n == 0 {
        1
    } else {
        3 * pow3((n - 1) as nat)
    }
}

/// Row of the cell with `digits` within its face.
pub open spec fn grid_row(digits: Seq<u8>) -> nat
    decreases digits.len(),
{
    if digits.len() == 0 {
        0
    } else {
        grid_row(digits.drop_last()) * 3 + (digits.last() / 3) as nat
    }
}

/// Column of the cell with `digits` within its face.
pub open spec fn grid_column(digits: Seq<u8>) -> nat
    decreases digits.len(),
{
    if digits.len() == 0 {
        0
    } else {
        grid_column(digits.drop_last()) * 3 + (digits.last() % 3) as nat
    }
}

/// Digits of the cell in `row` and `column` of a face at resolution `width`:
/// one digit per base-3 digit of the row and of the column.
pub open spec fn grid_digits(row: nat, column: nat, width: nat) -> Seq<u8>
    decreases width,
{
    if width == 0 {
        Seq::empty()
    } else {
        grid_digits(row / 3, column / 3, (width - 1) as nat).push(
            (3 * (row % 3) + column % 3) as u8,
        )
    }
}

/// Small powers of three.
pub proof fn lemma_pow3_bounded(n: nat)
    requires
        n <= 15,
    ensures
        1 <= pow3(n) <= 14348907,
{
    lemma_pow3_monotone(n, 15);
    reveal_with_fuel(pow3, 16);
}

/// Powers of three grow with the exponent.
pub proof fn lemma_pow3_monotone(a: nat, b: nat)
    requires
        a <= b,
    ensures
        1 <= pow3(a) <= pow3(b),
    decreases b,
{
    if b > 0 {
        if a < b {
            lemma_pow3_monotone(a, (b - 1) as nat);
        } else {
            lemma_pow3_monotone((b - 1) as nat, (b - 1) as nat);
        }
    }
}

/// A cell's row and column lie within its face's grid.
pub proof fn lemma_grid_bounds(digits: Seq<u8>)
    requires
        forall|i: int| 0 <= i < digits.len() ==> #[trigger] digits[i] < 9,
    ensures
        grid_row(digits) < pow3(digits.len()),
        grid_column(digits) < pow3(digits.len()),
    decreases digits.len(),
{
    if digits.len() > 0 {
        let rest = digits.drop_last();
        assert forall|i: int| 0 <= i < rest.len() implies #[trigger] rest[i] < 9 by {
            assert(rest[i] == digits[i]);
        }
        lemma_grid_bounds(rest);
        assert(digits.last() == digits[digits.len() - 1]);
        let p = pow3(rest.len());
        let r = grid_row(rest);
        let c = grid_column(rest);
        assert(r * 3 + 2 < 3 * p) by (nonlinear_arith)
            requires
                r < p,
        ;
        assert(c * 3 + 2 < 3 * p) by (nonlinear_arith)
            requires
                c < p,
        ;
    }
}

/// Reading back the row and column of the cell placed at a row and column
/// gives them again, and its digits are valid.
pub proof fn law_grid_position_round_trip(row: nat, column: nat, width: nat)
    requires
        row < pow3(width),
        column < pow3(width),
    ensures
        grid_digits(row, column, width).len() == width,
        forall|i: int|
            0 <= i < grid_digits(row, column, width).len() ==> #[trigger] grid_digits(
                row,
                column,
                width,
            )[i] < 9,
        grid_row(grid_digits(row, column, width)) == row,
        grid_column(grid_digits(row, column, width)) == column,
    decreases width,
{
    if width > 0 {
        let p = pow3((width - 1) as nat);
        assert(row / 3 < p && column / 3 < p) by (nonlinear_arith)
            requires
                row < 3 * p,
                column < 3 * p,
        ;
        law_grid_position_round_trip(row / 3, column / 3, (width - 1) as nat);
        let d = grid_digits(row, column, width);
        let rest = grid_digits(row / 3, column / 3, (width - 1) as nat);
        let last = (3 * (row % 3) + column % 3) as u8;
        assert(d.drop_last() =~= rest);
        assert(d.last() == last);
        assert(last / 3 == row % 3 && last % 3 == column % 3) by (nonlinear_arith)
            requires
                last == 3 * (row % 3) + column % 3,
                row % 3 < 3,
                column % 3 < 3,
        ;
        assert(row == (row / 3) * 3 + row % 3) by (nonlinear_arith);
        assert(column == (column / 3) * 3 + column % 3) by (nonlinear_arith);
        assert forall|i: int| 0 <= i < d.len() implies #[trigger] d[i] < 9 by {
            if i < d.len() - 1 {
                assert(d[i] == rest[i]);
            }
        }
    }
}

/// Placing a cell at its own row and column gives its digits back.
pub proof fn law_grid_digits_round_trip(digits: Seq<u8>)
    requires
        forall|i: int| 0 <= i < digits.len() ==> #[trigger] digits[i] < 9,
    ensures
        grid_digits(grid_row(digits), grid_column(digits), digits.len()) == digits,
    decreases digits.len(),
{
    if digits.len() > 0 {
        let rest = digits.drop_last();
        assert forall|i: int| 0 <= i < rest.len() implies #[trigger] rest[i] < 9 by {
            assert(rest[i] == digits[i]);
        }
        law_grid_digits_round_trip(rest);
        let r = grid_row(rest);
        let c = grid_column(rest);
        let last = digits.last();
        assert(last == digits[digits.len() - 1]);
        let row = r * 3 + (last / 3) as nat;
        let column = c * 3 + (last % 3) as nat;
        assert(row / 3 == r && row % 3 == last / 3) by (nonlinear_arith)
            requires
                row == r * 3 + (last / 3) as nat,
                last < 9,
        ;
        assert(column / 3 == c && column % 3 == last % 3) by (nonlinear_arith)
            requires
                column == c * 3 + (last % 3) as nat,
        ;
        assert(3 * (last / 3) + last % 3 == last) by (nonlinear_arith);
        assert(digits =~= rest.push(last));
    }
}

/// Number of rows (and of columns) of cells on a face at `resolution`.
pub fn grid_size(resolution: u8) -> (r: u64)
    requires
        resolution <= 15,
    ensures
        r == pow3(resolution as nat),
{
    let mut size: u64 = 1;
    let mut i: u8 = 0;
    while i < resolution
        invariant
            i <= resolution <= 15,
            size == pow3(i as nat),
        decreases resolution - i,
    {
        proof {
            lemma_pow3_bounded(i as nat);
        }
        size = size * 3;
        i += 1;
    }
    size
}

/// Digits of the cell in `row` and `column` of a face at `width`.
fn grid_digits_vec(row: u64, column: u64, width: u8) -> (r: Vec<u8>)
    ensures
        r@ == grid_digits(row as nat, column as nat, width as nat),
    decreases width,
{
    if width == 0 {
        return Vec::new();
    }
    let mut digits = grid_digits_vec(row / 3, column / 3, width - 1);
    digits.push((3 * (row % 3) + column % 3) as u8);
    digits
}

impl CellId {
    /// The cell in `row` and `column` of `face`'s grid at `resolution`.
    pub fn from_grid(face: Face, row: u64, column: u64, resolution: u8) -> (r: CellId)
        requires
            resolution <= 15,
            row < pow3(resolution as nat),
            column < pow3(resolution as nat),
        ensures
            r@ == (face, grid_digits(row as nat, column as nat, resolution as nat)),
    {
        proof {
            law_grid_position_round_trip(row as nat, column as nat, resolution as nat);
        }
        let digits = grid_digits_vec(row, column, resolution);
        CellId::from_valid_digits(face, digits.as_slice())
    }

    /// The row and column of the cell within its face's grid.
    pub fn grid_position(&self) -> (r: (u64, u64))
        ensures
            r.0 == grid_row(self@.1),
            r.1 == grid_column(self@.1),
            r.0 < pow3(self@.1.len()),
            r.1 < pow3(self@.1.len()),
    {
        let digits = self.digits();
        let n = digits.len();
        let mut row: u64 = 0;
        let mut column: u64 = 0;
        let mut i: usize = 0;
        while i < n
            invariant
                n == digits@.len(),
                n <= 15,
                valid_digits(digits@),
                i <= n,
                row == grid_row(digits@.take(i as int)),
                column == grid_column(digits@.take(i as int)),
                row < pow3(i as nat),
                column < pow3(i as nat),
            decreases n - i,
        {
            proof {
                let prefix = digits@.take(i + 1);
                assert(prefix.drop_last() =~= digits@.take(i as int));
                assert(prefix.last() == digits@[i as int]);
                lemma_pow3_bounded(i as nat);
                lemma_pow3_bounded((i + 1) as nat);
                let p = pow3(i as nat);
                assert(row * 3 + 2 < 3 * p) by (nonlinear_arith)
                    requires
                        row < p,
                ;
                assert(column * 3 + 2 < 3 * p) by (nonlinear_arith)
                    requires
                        column < p,
                ;
            }
            row = row * 3 + (digits[i] / 3) as u64;
            column = column * 3 + (digits[i] % 3) as u64;
            i += 1;
        }
        assert(digits@.take(n as int) =~= digits@);
        (row, column)
    }
}

/// Number of points on a boundary densified with `points_per_edge` points on
/// each of the four edges, corners shared.
pub fn boundary_point_count(points_per_edge: usize) -> (r: Result<usize>)
    ensures
        points_per_edge < 2 ==> r == Err::<usize, Error>(
            Error::InvalidBoundaryPointCount(points_per_edge),
        ),
        points_per_edge >= 2 && 4 * (points_per_edge - 1) > usize::MAX ==> r == Err::<usize, Error>(
            Error::BoundaryTooLarge(u64::MAX),
        ),
        points_per_edge >= 2 && MAX_BOUNDARY_POINTS < 4 * (points_per_edge - 1) <= usize::MAX ==> r
            == Err::<usize, Error>(Error::BoundaryTooLarge((4 * (points_per_edge - 1)) as u64)),
        points_per_edge >= 2 && 4 * (points_per_edge - 1) <= MAX_BOUNDARY_POINTS ==> r == Ok::<
            usize,
            Error,
        >((4 * (points_per_edge - 1)) as usize),
{
    if points_per_edge < 2 {
        return Err(Error::InvalidBoundaryPointCount(points_per_edge));
    }
    let count = match (points_per_edge - 1).checked_mul(4) {
        Some(c) => c,
        None => return Err(Error::BoundaryTooLarge(u64::MAX)),
    };
    if count > MAX_BOUNDARY_POINTS {
        return Err(Error::BoundaryTooLarge(count as u64));
    }
    Ok(count)
}


/// Number of points in the boundaries of `cells` cells, each densified with
/// `points_per_edge` points on each edge: the count of one boundary, checked
/// as [`boundary_point_count`] checks it, times the number of cells, which
/// may not exceed [`MAX_BULK_BOUNDARY_POINTS`].
pub fn bulk_boundary_total(cells: usize, points_per_edge: usize) -> (r: Result<usize>)
    ensures
        points_per_edge < 2 ==> r == Err::<usize, Error>(
            Error::InvalidBoundaryPointCount(points_per_edge),
        ),
        points_per_edge >= 2 && 4 * (points_per_edge - 1) > usize::MAX ==> r == Err::<usize, Error>(
            Error::BoundaryTooLarge(u64::MAX),
        ),
        points_per_edge >= 2 && MAX_BOUNDARY_POINTS < 4 * (points_per_edge - 1) <= usize::MAX ==> r
            == Err::<usize, Error>(Error::BoundaryTooLarge((4 * (points_per_edge - 1)) as u64)),
        points_per_edge >= 2 && 4 * (points_per_edge - 1) <= MAX_BOUNDARY_POINTS && cells * (4 * (
        points_per_edge - 1)) > usize::MAX ==> r == Err::<usize, Error>(
            Error::BoundaryTooLarge(u64::MAX),
        ),
        points_per_edge >= 2 && 4 * (points_per_edge - 1) <= MAX_BOUNDARY_POINTS
            && MAX_BULK_BOUNDARY_POINTS < cells * (4 * (points_per_edge - 1)) <= usize::MAX ==> r
            == Err::<usize, Error>(
            Error::BoundaryTooLarge((cells * (4 * (points_per_edge - 1))) as u64),
        ),
        points_per_edge >= 2 && 4 * (points_per_edge - 1) <= MAX_BOUNDARY_POINTS && cells * (4 * (
        points_per_edge - 1)) <= MAX_BULK_BOUNDARY_POINTS ==> r == Ok::<usize, Error>(
            (cells * (4 * (points_per_edge - 1))) as usize,
        ),
{
    let point_count = match boundary_point_count(points_per_edge) {
        Ok(count) => count,
        Err(e) => return Err(e),
    };
    let total = match cells.checked_mul(point_count) {
        Some(t) => t,
        None => return Err(Error::BoundaryTooLarge(u64::MAX)),
    };
    if total > MAX_BULK_BOUNDARY_POINTS {
        return Err(Error::BoundaryTooLarge(total as u64));
    }
    Ok(total)
}

} // verus!

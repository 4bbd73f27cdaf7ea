//! Laws on the shape of cells, on edge contact and on the distance limit
//! of grid traversals.

use vstd::prelude::*;

use crate::cell::{cells_at, rotate_digit, rotate_digits, rotate_once, shape_of, CellView};
use crate::compaction::contains_view;
use crate::dggs::{law_are_planar_neighbors_symmetric, lemma_rotate_valid};
use crate::face::{CellShape, Face};
use crate::numbering::{lemma_pow9_monotone, pow9, valid_digits};
use crate::topology::{
    edge_contact_of, grid_distance_refused, MAX_GRID_CELLS, MAX_GRID_DISTANCE_AT_LARGE_RESOLUTION,
};

verus! {

proof fn lemma_rotate_once_classes(x: u8)
    requires
        x < 9,
    ensures
        rotate_once(x) < 9,
        (rotate_once(x) == 4) <==> (x == 4),
        (rotate_once(x) == 0 || rotate_once(x) == 4 || rotate_once(x) == 8) <==> (x == 2 || x == 4
            || x == 6),
        (rotate_once(x) == 2 || rotate_once(x) == 4 || rotate_once(x) == 6) <==> (x == 0 || x == 4
            || x == 8),
{
    assert(x == 0 || x == 1 || x == 2 || x == 3 || x == 4 || x == 5 || x == 6 || x == 7 || x == 8);
}

proof fn lemma_shape_turn_once(face: Face, digits: Seq<u8>)
    requires
        valid_digits(digits),
    ensures
        shape_of(face, digits.map_values(|d: u8| rotate_once(d))) == shape_of(face, digits),
{
    let e = digits.map_values(|d: u8| rotate_once(d));
    assert forall|i: int| 0 <= i < digits.len() implies {
        &&& (#[trigger] e[i] == 4) <==> (digits[i] == 4)
        &&& (e[i] == 0 || e[i] == 4 || e[i] == 8) <==> (digits[i] == 2 || digits[i] == 4 || digits[i]
            == 6)
        &&& (e[i] == 2 || e[i] == 4 || e[i] == 6) <==> (digits[i] == 0 || digits[i] == 4 || digits[i]
            == 8)
    } by {
        lemma_rotate_once_classes(digits[i]);
    }
    let all_centre = forall|i: int| 0 <= i < digits.len() ==> #[trigger] digits[i] == 4;
    let e_centre = forall|i: int| 0 <= i < e.len() ==> #[trigger] e[i] == 4;
    assert(all_centre == e_centre) by {
        if all_centre {
            assert forall|i: int| 0 <= i < e.len() implies #[trigger] e[i] == 4 by {
                assert(digits[i] == 4);
            }
        }
        if e_centre {
            assert forall|i: int| 0 <= i < digits.len() implies #[trigger] digits[i] == 4 by {
                assert(e[i] == 4);
            }
        }
    }
    let main = forall|i: int|
        0 <= i < digits.len() ==> #[trigger] digits[i] == 0 || digits[i] == 4 || digits[i] == 8;
    let anti = forall|i: int|
        0 <= i < digits.len() ==> #[trigger] digits[i] == 2 || digits[i] == 4 || digits[i] == 6;
    let e_main = forall|i: int| 0 <= i < e.len() ==> #[trigger] e[i] == 0 || e[i] == 4 || e[i] == 8;
    let e_anti = forall|i: int| 0 <= i < e.len() ==> #[trigger] e[i] == 2 || e[i] == 4 || e[i] == 6;
    assert(e_main == anti) by {
        if e_main {
            assert forall|i: int| 0 <= i < digits.len() implies #[trigger] digits[i] == 2 || digits[i]
                == 4 || digits[i] == 6 by {
                assert(e[i] == 0 || e[i] == 4 || e[i] == 8);
            }
        }
        if anti {
            assert forall|i: int| 0 <= i < e.len() implies #[trigger] e[i] == 0 || e[i] == 4 || e[i]
                == 8 by {
                assert(digits[i] == 2 || digits[i] == 4 || digits[i] == 6);
            }
        }
    }
    assert(e_anti == main) by {
        if e_anti {
            assert forall|i: int| 0 <= i < digits.len() implies #[trigger] digits[i] == 0 || digits[i]
                == 4 || digits[i] == 8 by {
                assert(e[i] == 2 || e[i] == 4 || e[i] == 6);
            }
        }
        if main {
            assert forall|i: int| 0 <= i < e.len() implies #[trigger] e[i] == 2 || e[i] == 4 || e[i]
                == 6 by {
                assert(digits[i] == 0 || digits[i] == 4 || digits[i] == 8);
            }
        }
    }
}

/// A cell's shape does not change when its digits are turned by quarter
/// turns: the shapes of a polar square repeat in each of its four
/// quarters, so a cell on either diagonal (other than the centre column) is
/// a dart wherever it lies.
pub proof fn law_shape_turn_invariant(face: Face, digits: Seq<u8>, turns: nat)
    requires
        valid_digits(digits),
    ensures
        shape_of(face, rotate_digits(digits, turns)) == shape_of(face, digits),
    decreases turns,
{
    if turns > 0 {
        let t = (turns - 1) as nat;
        law_shape_turn_invariant(face, digits, t);
        let e = rotate_digits(digits, t);
        lemma_rotate_valid(digits, t);
        lemma_shape_turn_once(face, e);
        assert(e.map_values(|d: u8| rotate_once(d)) =~= rotate_digits(digits, turns)) by {
            assert forall|i: int| 0 <= i < digits.len() implies #[trigger] rotate_digits(
                digits,
                turns,
            )[i] == rotate_once(e[i]) by {
                assert(rotate_digit(digits[i], turns) == rotate_once(rotate_digit(digits[i], t)));
            }
        }
    } else {
        assert(rotate_digits(digits, 0) =~= digits);
    }
}

/// Edge contact does not depend on the order of the two cells; nested
/// cells, in either order, never touch; and edge neighbours of one
/// resolution always do.
pub proof fn law_edge_contact_symmetric(
    north_square: nat,
    south_square: nat,
    left: CellView,
    right: CellView,
)
    requires
        north_square < 4,
        south_square < 4,
        valid_digits(left.1),
        valid_digits(right.1),
    ensures
        edge_contact_of(north_square, south_square, left, right) == edge_contact_of(
            north_square,
            south_square,
            right,
            left,
        ),
        contains_view(left, right) || contains_view(right, left) ==> edge_contact_of(
            north_square,
            south_square,
            left,
            right,
        ) == Some(false),
        left.1.len() == right.1.len() && crate::dggs::are_planar_neighbors(
            north_square,
            south_square,
            left,
            right,
        ) ==> edge_contact_of(north_square, south_square, left, right) == Some(true),
{
    if left.1.len() == right.1.len() && left.0 == right.0 && left.1.is_prefix_of(right.1) {
        assert(left.1 =~= right.1);
    }
    if left.1.len() == right.1.len() && left.0 == right.0 && right.1.is_prefix_of(left.1) {
        assert(left.1 =~= right.1);
    }
    if crate::dggs::are_planar_neighbors(north_square, south_square, left, right) {
        law_are_planar_neighbors_symmetric(north_square, south_square, left, right);
    }
    if crate::dggs::are_planar_neighbors(north_square, south_square, right, left) {
        law_are_planar_neighbors_symmetric(north_square, south_square, right, left);
    }
}

/// Grid traversals are refused exactly at resolutions 7 and finer, whose
/// grids hold more than [`MAX_GRID_CELLS`] cells, and only for distances
/// above [`MAX_GRID_DISTANCE_AT_LARGE_RESOLUTION`]: every smaller distance,
/// and every distance at resolutions up to 6, is accepted.
pub proof fn law_grid_distance_limit(resolution: nat, k: nat)
    requires
        resolution <= 15,
    ensures
        grid_distance_refused(resolution, k) ==> k > MAX_GRID_DISTANCE_AT_LARGE_RESOLUTION,
        grid_distance_refused(resolution, k) <==> (resolution >= 7 && k
            > MAX_GRID_DISTANCE_AT_LARGE_RESOLUTION),
{
    assert(pow9(6) == 531441 && pow9(7) == 4782969) by {
        reveal_with_fuel(pow9, 8);
    }
    if resolution >= 7 {
        lemma_pow9_monotone(7, resolution);
    } else {
        lemma_pow9_monotone(resolution, 6);
    }
    assert(cells_at(resolution) == 6 * pow9(resolution));
}

} // verus!

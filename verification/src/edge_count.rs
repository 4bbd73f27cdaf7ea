//! How planar steps move a cell, and how many edges the cells of a
//! resolution share.

use vstd::prelude::*;
use vstd::set_lib::{lemma_int_range, lemma_map_size, lemma_set_disjoint_lens, set_int_range};

use crate::cell::{law_level_index_injective, rotate_digits, CellView};
use crate::dggs::{
    is_on_border, law_planar_neighbor_symmetric, lemma_planar_neighbor_valid, neighbor_digit,
    neighbor_rotation, opposite, planar_neighbor_of, root_neighbor, rotate_direction,
    step_digits,
};
use crate::edges::{
    is_edge_plan, key_view, level_of, owner_position, side_direction, side_key,
    side_keys, EdgeOwner,
};
use crate::face::{Direction, Face};
use crate::grid::{grid_column, grid_row};
use crate::compaction::{antichain, contains_view};
use crate::expansion_size::{cells_below_any, lemma_cells_below_any_len, total_below};
use crate::numbering::{pow9, valid_digits};

verus! {

/// The change of row of a step in `direction`.
pub open spec fn row_step(direction: Direction) -> int {
    match direction {
        Direction::Up => -1,
        Direction::Down => 1,
        _ => 0,
    }
}

/// The change of column of a step in `direction`.
pub open spec fn column_step(direction: Direction) -> int {
    match direction {
        Direction::Left => -1,
        Direction::Right => 1,
        _ => 0,
    }
}

proof fn lemma_row_column_push(digits: Seq<u8>, digit: u8)
    ensures
        grid_row(digits.push(digit)) == grid_row(digits) * 3 + (digit / 3) as nat,
        grid_column(digits.push(digit)) == grid_column(digits) * 3 + (digit % 3) as nat,
{
    assert(digits.push(digit).drop_last() =~= digits);
}

proof fn lemma_digit_step(digit: u8, direction: Direction)
    requires
        digit < 9,
    ensures
        !is_on_border(digit, direction) ==> neighbor_digit(digit, direction) / 3 == digit / 3
            + row_step(direction) && neighbor_digit(digit, direction) % 3 == digit % 3
            + column_step(direction),
        is_on_border(digit, direction) ==> neighbor_digit(digit, direction) / 3 == digit / 3 - 2
            * row_step(direction) && neighbor_digit(digit, direction) % 3 == digit % 3 - 2
            * column_step(direction),
{
    assert(digit == 0 || digit == 1 || digit == 2 || digit == 3 || digit == 4 || digit == 5 || digit
        == 6 || digit == 7 || digit == 8);
}

/// Within a face, a planar step moves one row up or down or one column
/// left or right: rows grow downwards and columns to the right.
pub proof fn law_step_within_face(digits: Seq<u8>, direction: Direction)
    requires
        valid_digits(digits),
        !step_digits(digits, direction).1,
    ensures
        grid_row(step_digits(digits, direction).0) == grid_row(digits) + row_step(direction),
        grid_column(step_digits(digits, direction).0) == grid_column(digits) + column_step(
            direction,
        ),
    decreases digits.len(),
{
    let prefix = digits.drop_last();
    let last = digits.last();
    assert(last == digits[digits.len() - 1]);
    assert(prefix.push(last) =~= digits);
    lemma_row_column_push(prefix, last);
    lemma_digit_step(last, direction);
    let moved = neighbor_digit(last, direction);
    if is_on_border(last, direction) {
        assert forall|i: int| 0 <= i < prefix.len() implies #[trigger] prefix[i] < 9 by {
            assert(prefix[i] == digits[i]);
        }
        law_step_within_face(prefix, direction);
        lemma_row_column_push(step_digits(prefix, direction).0, moved);
    } else {
        lemma_row_column_push(prefix, moved);
    }
}

/// Leaving a face in different directions reaches different faces, none
/// of them the face left.
proof fn lemma_root_neighbors_distinct(
    north_square: nat,
    south_square: nat,
    face: Face,
    a: Direction,
    b: Direction,
)
    requires
        north_square < 4,
        south_square < 4,
    ensures
        root_neighbor(north_square, south_square, face, a) != face,
        a != b ==> root_neighbor(north_square, south_square, face, a) != root_neighbor(
            north_square,
            south_square,
            face,
            b,
        ),
{
    reveal(root_neighbor);
}

proof fn lemma_same_face_unturned(north_square: nat, south_square: nat, face: Face, digits: Seq<u8>)
    requires
        north_square < 4,
        south_square < 4,
    ensures
        rotate_digits(digits, (neighbor_rotation(north_square, south_square, face, face) % 4) as nat)
            == digits,
{
    reveal(neighbor_rotation);
    reveal(root_neighbor);
    assert(rotate_digits(digits, 0) =~= digits);
}

/// The four edge neighbours of a cell are four different cells, none of
/// them the cell itself.
pub proof fn law_neighbors_distinct(
    north_square: nat,
    south_square: nat,
    face: Face,
    digits: Seq<u8>,
    a: Direction,
    b: Direction,
)
    requires
        north_square < 4,
        south_square < 4,
        valid_digits(digits),
    ensures
        planar_neighbor_of(north_square, south_square, face, digits, a) != (face, digits),
        a != b ==> planar_neighbor_of(north_square, south_square, face, digits, a)
            != planar_neighbor_of(north_square, south_square, face, digits, b),
{
    let sa = step_digits(digits, a);
    let sb = step_digits(digits, b);
    lemma_root_neighbors_distinct(north_square, south_square, face, a, b);
    lemma_root_neighbors_distinct(north_square, south_square, face, b, a);
    lemma_same_face_unturned(north_square, south_square, face, sa.0);
    lemma_same_face_unturned(north_square, south_square, face, sb.0);
    if !sa.1 {
        law_step_within_face(digits, a);
        assert(sa.0 != digits) by {
            if sa.0 == digits {
                assert(row_step(a) == 0 && column_step(a) == 0);
            }
        }
    }
    if !sb.1 {
        law_step_within_face(digits, b);
    }
    if !sa.1 && !sb.1 && a != b {
        assert(sa.0 != sb.0) by {
            if sa.0 == sb.0 {
                assert(row_step(a) == row_step(b) && column_step(a) == column_step(b));
            }
        }
    }
}

/// Where a planar neighbour lies on the same face, it is one row or one
/// column away from the cell.
pub proof fn law_neighbor_within_face(
    north_square: nat,
    south_square: nat,
    face: Face,
    digits: Seq<u8>,
    direction: Direction,
)
    requires
        north_square < 4,
        south_square < 4,
        valid_digits(digits),
        planar_neighbor_of(north_square, south_square, face, digits, direction).0 == face,
    ensures
        ({
            let n = planar_neighbor_of(north_square, south_square, face, digits, direction).1;
            &&& grid_row(n) == grid_row(digits) + row_step(direction)
            &&& grid_column(n) == grid_column(digits) + column_step(direction)
        }),
{
    let s = step_digits(digits, direction);
    lemma_root_neighbors_distinct(north_square, south_square, face, direction, direction);
    lemma_same_face_unturned(north_square, south_square, face, s.0);
    law_step_within_face(digits, direction);
}


/// The number of the side of a cell's boundary that faces `direction`.
pub open spec fn side_index(direction: Direction) -> int {
    match direction {
        Direction::Up => 0,
        Direction::Right => 1,
        Direction::Down => 2,
        Direction::Left => 3,
    }
}

/// `cells` lists valid cells once each, together with every planar
/// neighbour of each of them.
pub open spec fn closed_listing(dggs: (nat, nat), cells: Seq<CellView>) -> bool {
    &&& forall|i: int| 0 <= i < cells.len() ==> valid_digits(#[trigger] cells[i].1)
    &&& cells.no_duplicates()
    &&& forall|i: int, d: Direction|
        0 <= i < cells.len() ==> cells.contains(
            #[trigger] planar_neighbor_of(dggs.0, dggs.1, cells[i].0, cells[i].1, d),
        )
}

/// Side `p` shares its key with exactly one other side.
pub open spec fn has_partner(keys: Seq<(nat, nat)>, p: int) -> bool {
    exists|q: int| is_partner(keys, p, q)
}

/// Position `q` is the one other side with the key of side `p`.
pub open spec fn is_partner(keys: Seq<(nat, nat)>, p: int, q: int) -> bool {
    &&& 0 <= q < keys.len()
    &&& q != p
    &&& keys[q] == keys[p]
    &&& forall|x: int| 0 <= x < keys.len() && #[trigger] keys[x] == keys[p] ==> x == p || x == q
}

proof fn lemma_split_position(x: int, n: int)
    requires
        0 <= x < 4 * n,
    ensures
        0 <= x / 4 < n,
        0 <= x % 4 < 4,
        x == 4 * (x / 4) + x % 4,
{
    assert(0 <= x / 4 < n && 0 <= x % 4 < 4 && x == 4 * (x / 4) + x % 4) by (nonlinear_arith)
        requires
            0 <= x < 4 * n,
    ;
}

proof fn lemma_join_position(i: int, j: int)
    requires
        0 <= i,
        0 <= j < 4,
    ensures
        (4 * i + j) / 4 == i,
        (4 * i + j) % 4 == j,
{
    assert((4 * i + j) / 4 == i && (4 * i + j) % 4 == j) by (nonlinear_arith)
        requires
            0 <= i,
            0 <= j < 4,
    ;
}

proof fn lemma_index_of(cells: Seq<CellView>, c: CellView) -> (i: int)
    requires
        cells.contains(c),
    ensures
        0 <= i < cells.len(),
        cells[i] == c,
{
    choose|i: int| 0 <= i < cells.len() && cells[i] == c
}

/// In a listing closed under planar neighbours, every side shares its edge
/// with exactly one other side: the neighbour's side facing back.
proof fn lemma_side_partner(dggs: (nat, nat), cells: Seq<CellView>, p: int) -> (q: int)
    requires
        dggs.0 < 4,
        dggs.1 < 4,
        closed_listing(dggs, cells),
        0 <= p < 4 * cells.len(),
    ensures
        is_partner(side_keys(dggs, cells), p, q),
{
    let keys = side_keys(dggs, cells);
    let (ns, ss) = (dggs.0, dggs.1);
    lemma_split_position(p, cells.len() as int);
    let i = p / 4;
    let j = p % 4;
    let c = cells[i];
    let d = side_direction(j);
    let n = planar_neighbor_of(ns, ss, c.0, c.1, d);
    assert(valid_digits(c.1));
    lemma_planar_neighbor_valid(ns, ss, c.0, c.1, d);
    law_neighbors_distinct(ns, ss, c.0, c.1, d, d);
    let i2 = lemma_index_of(cells, n);
    let t = neighbor_rotation(ns, ss, c.0, n.0) as nat % 4;
    let b = rotate_direction(opposite(d), t);
    law_planar_neighbor_symmetric(ns, ss, c.0, c.1, d);
    let j2 = side_index(b);
    assert(side_direction(j2) == b);
    let q = 4 * i2 + j2;
    lemma_join_position(i2, j2);
    assert(keys[p] == side_key(dggs, c, j));
    assert(keys[q] == side_key(dggs, n, j2));
    assert(level_of(c) != level_of(n)) by {
        if level_of(c) == level_of(n) {
            law_level_index_injective(c.0, c.1, n.0, n.1);
        }
    }
    assert(q != p) by {
        if q == p {
            assert(i2 == i);
        }
    }
    assert forall|x: int| 0 <= x < keys.len() && #[trigger] keys[x] == keys[p] implies x == p || x
        == q by {
        lemma_split_position(x, cells.len() as int);
        let i3 = x / 4;
        let j3 = x % 4;
        let y = cells[i3];
        let e = side_direction(j3);
        let m = planar_neighbor_of(ns, ss, y.0, y.1, e);
        assert(valid_digits(y.1));
        lemma_planar_neighbor_valid(ns, ss, y.0, y.1, e);
        assert(keys[x] == side_key(dggs, y, j3));
        if level_of(y) == level_of(c) {
            law_level_index_injective(y.0, y.1, c.0, c.1);
            assert(i3 == i);
            assert(level_of(m) == level_of(n));
            law_level_index_injective(m.0, m.1, n.0, n.1);
            law_neighbors_distinct(ns, ss, c.0, c.1, e, d);
            assert(j3 == j);
        } else {
            assert(level_of(y) == level_of(n));
            law_level_index_injective(y.0, y.1, n.0, n.1);
            assert(i3 == i2);
            assert(level_of(m) == level_of(c));
            law_level_index_injective(m.0, m.1, c.0, c.1);
            law_neighbors_distinct(ns, ss, n.0, n.1, e, b);
            assert(j3 == j2);
        }
    }
    q
}


/// Where every side shares its key with exactly one other side, a plan of
/// the sides has one edge per two sides.
proof fn lemma_paired_plan_len(keys: Seq<(nat, nat)>, owners: Seq<EdgeOwner>, uses: Seq<(usize, bool)>)
    requires
        is_edge_plan(keys, owners, uses),
        forall|p: int| 0 <= p < keys.len() ==> #[trigger] has_partner(keys, p),
    ensures
        2 * owners.len() == keys.len(),
{
    let len = keys.len() as int;
    let own = |p: int| owner_position(owners[uses[p].0 as int]);
    let all = set_int_range(0, len);
    let firsts = all.intersect(Set::new(|p: int| own(p) == p));
    let seconds = all.intersect(Set::new(|p: int| own(p) != p));
    lemma_int_range(0, len);
    assert(firsts.finite());
    assert(seconds.finite());
    assert forall|p: int| 0 <= p < len implies {
        &&& 0 <= #[trigger] own(p) <= p
        &&& keys[own(p)] == keys[p]
        &&& own(own(p)) == own(p)
    } by {
        let a = uses[p].0 as int;
        assert(0 <= a < owners.len());
        let w = owners[a];
        assert(uses[owner_position(w)].0 == a);
    }
    // Each first side is the owner of a second side, its partner.
    assert(seconds.map(own) =~= firsts) by {
        assert forall|o: int| firsts.contains(o) implies seconds.map(own).contains(o) by {
            assert(has_partner(keys, o));
            let q = choose|q: int| is_partner(keys, o, q);
            let aq = uses[q].0 as int;
            let ao = uses[o].0 as int;
            assert(key_view(owners[aq].key) == keys[q]);
            assert(key_view(owners[ao].key) == keys[o]);
            assert(owners[aq].key == owners[ao].key);
            if aq != ao {
                if aq < ao {
                    assert(owners[aq].key != owners[ao].key);
                } else {
                    assert(owners[ao].key != owners[aq].key);
                }
            }
            assert(own(q) == o);
            assert(seconds.contains(q));
        }
        assert forall|o: int| seconds.map(own).contains(o) implies firsts.contains(o) by {
            let p = choose|p: int| seconds.contains(p) && own(p) == o;
        }
    }
    // Two second sides never share an owner.
    assert(vstd::relations::injective_on(own, seconds)) by {
        assert forall|p1: int, p2: int|
            seconds.contains(p1) && seconds.contains(p2) && #[trigger] own(p1) == #[trigger] own(p2)
            implies p1 == p2 by {
            let o = own(p1);
            assert(has_partner(keys, o));
            let q = choose|q: int| is_partner(keys, o, q);
            assert(keys[p1] == keys[o]);
            assert(keys[p2] == keys[o]);
        }
    }
    lemma_map_size(seconds, firsts, own);
    assert(firsts.disjoint(seconds));
    assert(firsts + seconds =~= all);
    lemma_set_disjoint_lens(firsts, seconds);
    // The first sides are the owners' positions.
    let owned = set_int_range(0, owners.len() as int);
    let place = |a: int| owner_position(owners[a]);
    lemma_int_range(0, owners.len() as int);
    assert(owned.map(place) =~= firsts) by {
        assert forall|o: int| firsts.contains(o) implies owned.map(place).contains(o) by {
            let a = uses[o].0 as int;
            assert(owned.contains(a) && place(a) == o);
        }
        assert forall|o: int| owned.map(place).contains(o) implies firsts.contains(o) by {
            let a = choose|a: int| owned.contains(a) && place(a) == o;
            assert(uses[o].0 == a);
        }
    }
    assert(vstd::relations::injective_on(place, owned)) by {
        assert forall|a: int, b: int|
            owned.contains(a) && owned.contains(b) && #[trigger] place(a) == #[trigger] place(b)
            implies a == b by {
            if a < b {
                assert(owner_position(owners[a]) < owner_position(owners[b]));
            } else if b < a {
                assert(owner_position(owners[b]) < owner_position(owners[a]));
            }
        }
    }
    lemma_map_size(owned, firsts, place);
}

/// Cells listed once each together with all their planar neighbours share
/// their sides in pairs: a plan of the sides has two edges per cell.
pub proof fn law_two_edges_per_cell(
    dggs: (nat, nat),
    cells: Seq<CellView>,
    owners: Seq<EdgeOwner>,
    uses: Seq<(usize, bool)>,
)
    requires
        dggs.0 < 4,
        dggs.1 < 4,
        closed_listing(dggs, cells),
        is_edge_plan(side_keys(dggs, cells), owners, uses),
    ensures
        owners.len() == 2 * cells.len(),
{
    let keys = side_keys(dggs, cells);
    assert forall|p: int| 0 <= p < keys.len() implies #[trigger] has_partner(keys, p) by {
        let q = lemma_side_partner(dggs, cells, p);
    }
    lemma_paired_plan_len(keys, owners, uses);
}


/// The six faces, as cells of resolution zero.
pub open spec fn root_cells() -> Seq<CellView> {
    seq![
        (Face::N, Seq::<u8>::empty()),
        (Face::O, Seq::<u8>::empty()),
        (Face::P, Seq::<u8>::empty()),
        (Face::Q, Seq::<u8>::empty()),
        (Face::R, Seq::<u8>::empty()),
        (Face::S, Seq::<u8>::empty()),
    ]
}

/// `cells` lists every valid cell of `resolution` exactly once.
pub open spec fn complete_listing(cells: Seq<CellView>, resolution: nat) -> bool {
    &&& cells.no_duplicates()
    &&& forall|i: int|
        0 <= i < cells.len() ==> valid_digits(#[trigger] cells[i].1) && cells[i].1.len() == resolution
    &&& forall|c: CellView| valid_digits(c.1) && c.1.len() == resolution ==> #[trigger] cells.contains(c)
}

/// The complete grid of a resolution holds `6 * 9^resolution` cells.
pub proof fn law_complete_grid_cells(cells: Seq<CellView>, resolution: nat)
    requires
        resolution <= 15,
        complete_listing(cells, resolution),
    ensures
        cells.len() == 6 * pow9(resolution),
{
    let roots = root_cells();
    assert forall|i: int| 0 <= i < roots.len() implies valid_digits(#[trigger] roots[i].1) && roots[i].1.len()
        <= resolution by {}
    assert(antichain(roots)) by {
        assert forall|i: int, j: int|
            0 <= i < roots.len() && 0 <= j < roots.len() && i != j implies !contains_view(
            #[trigger] roots[i],
            #[trigger] roots[j],
        ) by {}
    }
    lemma_cells_below_any_len(roots, resolution);
    reveal_with_fuel(total_below, 7);
    assert(roots.drop_last().drop_last().drop_last().drop_last().drop_last().drop_last().len() == 0);
    assert(total_below(roots, resolution) == 6 * pow9(resolution));
    assert(cells.to_set() =~= cells_below_any(roots, resolution)) by {
        assert forall|z: CellView| cells_below_any(roots, resolution).contains(z) implies cells.contains(z) by {}
        assert forall|z: CellView| cells.contains(z) implies cells_below_any(roots, resolution).contains(z) by {
            let i = choose|i: int| 0 <= i < cells.len() && cells[i] == z;
            assert(valid_digits(cells[i].1) && cells[i].1.len() == resolution);
            let k = if z.0 == Face::N {
                0int
            } else if z.0 == Face::O {
                1
            } else if z.0 == Face::P {
                2
            } else if z.0 == Face::Q {
                3
            } else if z.0 == Face::R {
                4
            } else {
                5
            };
            assert(roots[k].1.is_prefix_of(z.1)) by {
                assert(z.1.subrange(0, 0) =~= Seq::<u8>::empty());
            }
            assert(contains_view(roots[k], z));
        }
    }
    cells.unique_seq_to_set();
}

/// The complete grid of a resolution, in every polar-square layout, has
/// `12 * 9^resolution` distinct edges: a plan of the sides of all its
/// cells has that many.
pub proof fn law_complete_grid_edges(
    dggs: (nat, nat),
    resolution: nat,
    cells: Seq<CellView>,
    owners: Seq<EdgeOwner>,
    uses: Seq<(usize, bool)>,
)
    requires
        dggs.0 < 4,
        dggs.1 < 4,
        resolution <= 15,
        complete_listing(cells, resolution),
        is_edge_plan(side_keys(dggs, cells), owners, uses),
    ensures
        cells.len() == 6 * pow9(resolution),
        owners.len() == 12 * pow9(resolution),
{
    law_complete_grid_cells(cells, resolution);
    assert(closed_listing(dggs, cells)) by {
        assert forall|i: int, d: Direction| 0 <= i < cells.len() implies cells.contains(
            #[trigger] planar_neighbor_of(dggs.0, dggs.1, cells[i].0, cells[i].1, d),
        ) by {
            assert(valid_digits(cells[i].1));
            lemma_planar_neighbor_valid(dggs.0, dggs.1, cells[i].0, cells[i].1, d);
        }
    }
    law_two_edges_per_cell(dggs, cells, owners, uses);
}

} // verus!

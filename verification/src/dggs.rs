//! The rHEALPix polar-square layout and planar edge adjacency of cells.

use vstd::prelude::*;

use crate::cell::{rotate_digits, shape_of, CellId};
use crate::face::{face_index, CellShape, Direction, EllipsoidalDirection, Face, Region};
use crate::numbering::valid_digits;

verus! {

/// An aperture-9 rHEALPix discrete global grid system, described by where
/// its two polar squares sit above and below the four equatorial faces.
///
/// Everything that depends on the ellipsoid (projection, vertices, areas)
/// is computed elsewhere from the same two positions.
#[derive(Debug, Clone, Copy, PartialEq, Eq, Structural, Hash)]
pub struct RhealpixDggs {
    north_square: u8,
    south_square: u8,
}

/// The equatorial face numbered `index` modulo four (`O`, `P`, `Q`, `R`).
pub open spec fn equatorial_face_at(index: nat) -> Face {
    let i = index % 4;
    if i == 0 {
        Face::O
    } else if i == 1 {
        Face::P
    } else if i == 2 {
        Face::Q
    } else {
        Face::R
    }
}

/// The resolution-zero face across the edge of `face` in `direction`.
#[verifier::opaque]
pub open spec fn root_neighbor(
    north_square: nat,
    south_square: nat,
    face: Face,
    direction: Direction,
) -> Face {
    match face {
        Face::N => equatorial_face_at(
            north_square + match direction {
                Direction::Down => 0nat,
                Direction::Right => 1nat,
                Direction::Up => 2nat,
                Direction::Left => 3nat,
            },
        ),
        Face::S => equatorial_face_at(
            south_square + match direction {
                Direction::Up => 0nat,
                Direction::Right => 1nat,
                Direction::Down => 2nat,
                Direction::Left => 3nat,
            },
        ),
        _ => match direction {
            Direction::Left => equatorial_face_at((face_index(face) - 1 + 3) as nat),
            Direction::Right => equatorial_face_at((face_index(face) - 1 + 1) as nat),
            Direction::Down => Face::S,
            Direction::Up => Face::N,
        },
    }
}

/// Anticlockwise quarter turns applied to the digits of a cell whose
/// neighbour lies on another face, so that the neighbour's digits are read
/// in that face's orientation.
#[verifier::opaque]
pub open spec fn neighbor_rotation(
    north_square: nat,
    south_square: nat,
    original: Face,
    neighbor: Face,
) -> u8 {
    let north_left = root_neighbor(north_square, south_square, Face::N, Direction::Left);
    let north_right = root_neighbor(north_square, south_square, Face::N, Direction::Right);
    let north_up = root_neighbor(north_square, south_square, Face::N, Direction::Up);
    let south_left = root_neighbor(north_square, south_square, Face::S, Direction::Left);
    let south_right = root_neighbor(north_square, south_square, Face::S, Direction::Right);
    let south_down = root_neighbor(north_square, south_square, Face::S, Direction::Down);
    if (original == Face::S && neighbor == south_left) || (original == south_right && neighbor
        == Face::S) || (original == Face::N && neighbor == north_right) || (original == north_left
        && neighbor == Face::N) {
        1
    } else if (original == Face::S && neighbor == south_down) || (original == south_down
        && neighbor == Face::S) || (original == Face::N && neighbor == north_up) || (original
        == north_up && neighbor == Face::N) {
        2
    } else if (original == Face::S && neighbor == south_right) || (original == south_left
        && neighbor == Face::S) || (original == Face::N && neighbor == north_left) || (original
        == north_right && neighbor == Face::N) {
        3
    } else {
        0
    }
}

/// Whether a child digit lies on the edge of its 3x3 block facing `direction`.
pub open spec fn is_on_border(digit: u8, direction: Direction) -> bool {
    match direction {
        Direction::Left => digit % 3 == 0,
        Direction::Right => digit % 3 == 2,
        Direction::Up => digit / 3 == 0,
        Direction::Down => digit / 3 == 2,
    }
}

/// The child digit one step in `direction`, wrapping around its 3x3 block.
pub open spec fn neighbor_digit(digit: u8, direction: Direction) -> u8 {
    match direction {
        Direction::Left => (digit / 3 * 3 + (digit % 3 + 2) % 3) as u8,
        Direction::Right => (digit / 3 * 3 + (digit % 3 + 1) % 3) as u8,
        Direction::Up => (((digit / 3 + 2) % 3) * 3 + digit % 3) as u8,
        Direction::Down => (((digit / 3 + 1) % 3) * 3 + digit % 3) as u8,
    }
}

/// One step in `direction` within a face: the stepped digits, and whether
/// the step leaves the face.
pub open spec fn step_digits(digits: Seq<u8>, direction: Direction) -> (Seq<u8>, bool)
    decreases digits.len(),
{
    if digits.len() == 0 {
        (digits, true)
    } else {
        let last = digits.last();
        let moved = neighbor_digit(last, direction);
        if is_on_border(last, direction) {
            let inner = step_digits(digits.drop_last(), direction);
            (inner.0.push(moved), inner.1)
        } else {
            (digits.drop_last().push(moved), false)
        }
    }
}

/// The edge neighbour of `(face, digits)` in `direction` on the unfolded
/// plane, with the polar-face rotations applied.
pub open spec fn planar_neighbor_of(
    north_square: nat,
    south_square: nat,
    face: Face,
    digits: Seq<u8>,
    direction: Direction,
) -> (Face, Seq<u8>) {
    let stepped = step_digits(digits, direction);
    let neighbor_face = if stepped.1 {
        root_neighbor(north_square, south_square, face, direction)
    } else {
        face
    };
    let turns = neighbor_rotation(north_square, south_square, face, neighbor_face);
    (neighbor_face, rotate_digits(stepped.0, (turns % 4) as nat))
}

/// Stepping keeps the number and validity of the digits.
pub proof fn lemma_step_digits_valid(digits: Seq<u8>, direction: Direction)
    requires
        valid_digits(digits),
    ensures
        step_digits(digits, direction).0.len() == digits.len(),
        valid_digits(step_digits(digits, direction).0),
    decreases digits.len(),
{
    if digits.len() > 0 {
        let prefix = digits.drop_last();
        assert forall|i: int| 0 <= i < prefix.len() implies #[trigger] prefix[i] < 9 by {
            assert(prefix[i] == digits[i]);
        }
        lemma_step_digits_valid(prefix, direction);
        let last = digits.last();
        assert(last == digits[digits.len() - 1]);
        assert(neighbor_digit(last, direction) < 9);
        let stepped = step_digits(digits, direction).0;
        assert forall|i: int| 0 <= i < stepped.len() implies #[trigger] stepped[i] < 9 by {
            if i < stepped.len() - 1 {
                if is_on_border(last, direction) {
                    assert(stepped[i] == step_digits(prefix, direction).0[i]);
                } else {
                    assert(stepped[i] == prefix[i]);
                }
            }
        }
    }
}

/// The direction pointing back.
pub open spec fn opposite(direction: Direction) -> Direction {
    match direction {
        Direction::Left => Direction::Right,
        Direction::Right => Direction::Left,
        Direction::Up => Direction::Down,
        Direction::Down => Direction::Up,
    }
}

/// A direction seen after `turns` anticlockwise quarter turns of the grid.
pub open spec fn rotate_direction(direction: Direction, turns: nat) -> Direction
    decreases turns,
{
    if turns == 0 {
        direction
    } else {
        match rotate_direction(direction, (turns - 1) as nat) {
            Direction::Left => Direction::Up,
            Direction::Up => Direction::Right,
            Direction::Right => Direction::Down,
            Direction::Down => Direction::Left,
        }
    }
}

/// Whether `b` shares an edge with `a` on the unfolded plane.
pub open spec fn are_planar_neighbors(
    north_square: nat,
    south_square: nat,
    a: (Face, Seq<u8>),
    b: (Face, Seq<u8>),
) -> bool {
    a != b && exists|direction: Direction|
        planar_neighbor_of(north_square, south_square, a.0, a.1, direction) == b
}

proof fn lemma_digit_step_back(digit: u8, direction: Direction)
    requires
        digit < 9,
    ensures
        neighbor_digit(neighbor_digit(digit, direction), opposite(direction)) == digit,
        is_on_border(neighbor_digit(digit, direction), opposite(direction)) == is_on_border(
            digit,
            direction,
        ),
{
}

proof fn lemma_digit_step_rotates(digit: u8, direction: Direction)
    requires
        digit < 9,
    ensures
        neighbor_digit(crate::cell::rotate_once(digit), rotate_direction(direction, 1))
            == crate::cell::rotate_once(neighbor_digit(digit, direction)),
        is_on_border(crate::cell::rotate_once(digit), rotate_direction(direction, 1))
            == is_on_border(digit, direction),
{
    reveal_with_fuel(rotate_direction, 2);
}

/// Stepping back in the opposite direction undoes a step.
proof fn lemma_step_back(digits: Seq<u8>, direction: Direction)
    requires
        valid_digits(digits),
    ensures
        step_digits(step_digits(digits, direction).0, opposite(direction)) == (
            digits,
            step_digits(digits, direction).1,
        ),
    decreases digits.len(),
{
    if digits.len() > 0 {
        let prefix = digits.drop_last();
        assert forall|i: int| 0 <= i < prefix.len() implies #[trigger] prefix[i] < 9 by {
            assert(prefix[i] == digits[i]);
        }
        let last = digits.last();
        assert(last == digits[digits.len() - 1]);
        lemma_digit_step_back(last, direction);
        lemma_step_digits_valid(prefix, direction);
        let stepped = step_digits(digits, direction).0;
        let moved = neighbor_digit(last, direction);
        if is_on_border(last, direction) {
            lemma_step_back(prefix, direction);
            let inner = step_digits(prefix, direction).0;
            assert(stepped.drop_last() =~= inner);
            assert(stepped.last() == moved);
            assert(step_digits(inner, opposite(direction)).0.push(last) =~= digits);
        } else {
            assert(stepped.drop_last() =~= prefix);
            assert(stepped.last() == moved);
            assert(prefix.push(last) =~= digits);
        }
    }
}

/// Stepping commutes with a quarter turn of the digits and the direction.
proof fn lemma_step_rotates_once(digits: Seq<u8>, direction: Direction)
    requires
        valid_digits(digits),
    ensures
        step_digits(rotate_digits(digits, 1), rotate_direction(direction, 1)) == (
            rotate_digits(step_digits(digits, direction).0, 1),
            step_digits(digits, direction).1,
        ),
    decreases digits.len(),
{
    let rd = rotate_direction(direction, 1);
    let rotated = rotate_digits(digits, 1);
    if digits.len() == 0 {
        assert(rotated =~= digits);
        assert(rotate_digits(step_digits(digits, direction).0, 1) =~= digits);
    } else {
        let prefix = digits.drop_last();
        assert forall|i: int| 0 <= i < prefix.len() implies #[trigger] prefix[i] < 9 by {
            assert(prefix[i] == digits[i]);
        }
        let last = digits.last();
        assert(last == digits[digits.len() - 1]);
        lemma_digit_step_rotates(last, direction);
        lemma_step_rotates_once(prefix, direction);
        reveal_with_fuel(crate::cell::rotate_digit, 2);
        assert(rotated.drop_last() =~= rotate_digits(prefix, 1));
        assert(rotated.last() == crate::cell::rotate_once(last));
        if is_on_border(last, direction) {
            assert(rotate_digits(step_digits(prefix, direction).0.push(
                neighbor_digit(last, direction),
            ), 1) =~= rotate_digits(step_digits(prefix, direction).0, 1).push(
                crate::cell::rotate_once(neighbor_digit(last, direction)),
            ));
        } else {
            assert(rotate_digits(prefix.push(neighbor_digit(last, direction)), 1) =~= rotate_digits(
                prefix,
                1,
            ).push(crate::cell::rotate_once(neighbor_digit(last, direction))));
        }
    }
}

/// Stepping commutes with any number of quarter turns.
proof fn lemma_step_rotates(digits: Seq<u8>, direction: Direction, turns: nat)
    requires
        valid_digits(digits),
    ensures
        step_digits(rotate_digits(digits, turns), rotate_direction(direction, turns)) == (
            rotate_digits(step_digits(digits, direction).0, turns),
            step_digits(digits, direction).1,
        ),
    decreases turns,
{
    if turns == 0 {
        assert(rotate_digits(digits, 0) =~= digits);
        assert(rotate_digits(step_digits(digits, direction).0, 0) =~= step_digits(
            digits,
            direction,
        ).0);
    } else {
        let t = (turns - 1) as nat;
        lemma_step_rotates(digits, direction, t);
        crate::cell::law_rotation_composes(digits, t, 1);
        crate::cell::law_rotation_composes(step_digits(digits, direction).0, t, 1);
        lemma_rotate_valid(digits, t);
        lemma_step_rotates_once(rotate_digits(digits, t), rotate_direction(direction, t));
        reveal_with_fuel(rotate_direction, 2);
        assert(rotate_direction(rotate_direction(direction, t), 1) == rotate_direction(
            direction,
            turns,
        ));
    }
}

pub proof fn lemma_rotate_valid(digits: Seq<u8>, turns: nat)
    requires
        valid_digits(digits),
    ensures
        valid_digits(rotate_digits(digits, turns)),
{
    assert forall|i: int| 0 <= i < digits.len() implies #[trigger] rotate_digits(digits, turns)[i]
        < 9 by {
        lemma_rotate_digit_valid(digits[i], turns);
    }
}

proof fn lemma_rotate_digit_valid(digit: u8, turns: nat)
    requires
        digit < 9,
    ensures
        crate::cell::rotate_digit(digit, turns) < 9,
    decreases turns,
{
    if turns > 0 {
        lemma_rotate_digit_valid(digit, (turns - 1) as nat);
    }
}

/// A planar neighbour is a valid cell of the same resolution.
pub proof fn lemma_planar_neighbor_valid(
    north_square: nat,
    south_square: nat,
    face: Face,
    digits: Seq<u8>,
    direction: Direction,
)
    requires
        valid_digits(digits),
    ensures
        valid_digits(planar_neighbor_of(north_square, south_square, face, digits, direction).1),
        planar_neighbor_of(north_square, south_square, face, digits, direction).1.len()
            == digits.len(),
{
    lemma_step_digits_valid(digits, direction);
    let stepped = step_digits(digits, direction).0;
    let neighbor = planar_neighbor_of(north_square, south_square, face, digits, direction);
    lemma_rotate_valid(stepped, (neighbor_rotation(north_square, south_square, face, neighbor.0)
        % 4) as nat);
}

/// Crossing a face edge and crossing back lands on the starting face, and
/// the two rotations add up to whole turns.
proof fn lemma_face_edge_back(north_square: nat, south_square: nat, face: Face, direction: Direction)
    requires
        north_square < 4,
        south_square < 4,
    ensures
        ({
            let neighbor = root_neighbor(north_square, south_square, face, direction);
            let turns = neighbor_rotation(north_square, south_square, face, neighbor);
            let back = rotate_direction(opposite(direction), turns as nat);
            &&& turns < 4
            &&& root_neighbor(north_square, south_square, neighbor, back) == face
            &&& (turns + neighbor_rotation(north_square, south_square, neighbor, face)) % 4 == 0
        }),
{
    reveal(root_neighbor);
    reveal(neighbor_rotation);
    reveal_with_fuel(rotate_direction, 4);
}

proof fn lemma_same_face_no_rotation(north_square: nat, south_square: nat, face: Face)
    requires
        north_square < 4,
        south_square < 4,
    ensures
        neighbor_rotation(north_square, south_square, face, face) == 0,
{
    reveal(neighbor_rotation);
    reveal(root_neighbor);
}

/// Planar adjacency is symmetric: every edge neighbour of a cell has that
/// cell as an edge neighbour, for every polar-square layout.
pub proof fn law_planar_neighbor_symmetric(
    north_square: nat,
    south_square: nat,
    face: Face,
    digits: Seq<u8>,
    direction: Direction,
)
    requires
        north_square < 4,
        south_square < 4,
        valid_digits(digits),
    ensures
        ({
            let neighbor = planar_neighbor_of(north_square, south_square, face, digits, direction);
            let turns = neighbor_rotation(
                north_square,
                south_square,
                face,
                neighbor.0,
            ) as nat % 4;
            planar_neighbor_of(
                north_square,
                south_square,
                neighbor.0,
                neighbor.1,
                rotate_direction(opposite(direction), turns),
            ) == (face, digits)
        }),
{
    let stepped = step_digits(digits, direction);
    let neighbor = planar_neighbor_of(north_square, south_square, face, digits, direction);
    let t = neighbor_rotation(north_square, south_square, face, neighbor.0) as nat % 4;
    let back = rotate_direction(opposite(direction), t);
    lemma_step_digits_valid(digits, direction);
    lemma_step_back(digits, direction);
    lemma_step_rotates(stepped.0, opposite(direction), t);
    let stepped_back = step_digits(neighbor.1, back);
    assert(stepped_back == (rotate_digits(digits, t), stepped.1));
    lemma_face_edge_back(north_square, south_square, face, direction);
    let t2 = neighbor_rotation(north_square, south_square, neighbor.0, face) as nat % 4;
    if stepped.1 {
        assert(root_neighbor(north_square, south_square, neighbor.0, back) == face);
    } else {
        assert(neighbor.0 == face);
        lemma_same_face_no_rotation(north_square, south_square, face);
    }
    crate::cell::law_rotation_composes(digits, t, t2);
    assert(t + t2 == 0 || t + t2 == 4);
    if t + t2 == 4 {
        crate::cell::law_full_rotation(digits);
    } else {
        assert(rotate_digits(digits, 0) =~= digits);
    }
}

/// Planar adjacency as a relation between cells is symmetric.
pub proof fn law_are_planar_neighbors_symmetric(
    north_square: nat,
    south_square: nat,
    a: (Face, Seq<u8>),
    b: (Face, Seq<u8>),
)
    requires
        north_square < 4,
        south_square < 4,
        valid_digits(a.1),
        are_planar_neighbors(north_square, south_square, a, b),
    ensures
        are_planar_neighbors(north_square, south_square, b, a),
{
    let direction = choose|direction: Direction|
        planar_neighbor_of(north_square, south_square, a.0, a.1, direction) == b;
    law_planar_neighbor_symmetric(north_square, south_square, a.0, a.1, direction);
    let t = neighbor_rotation(north_square, south_square, a.0, b.0) as nat % 4;
    let back = rotate_direction(opposite(direction), t);
    assert(planar_neighbor_of(north_square, south_square, b.0, b.1, back) == a);
}

impl View for RhealpixDggs {
    type V = (nat, nat);

    /// North and south polar-square positions.
    closed spec fn view(&self) -> (nat, nat) {
        (self.north_square as nat, self.south_square as nat)
    }
}

impl RhealpixDggs {
    #[verifier::type_invariant]
    spec fn well_formed(self) -> bool {
        self.north_square < 4 && self.south_square < 4
    }

    /// Construct an aperture-9 DGGS with configurable polar-square placement.
    /// Positions are taken modulo four.
    pub fn new(north_square: u8, south_square: u8) -> (r: RhealpixDggs)
        ensures
            r@ == ((north_square % 4) as nat, (south_square % 4) as nat),
    {
        RhealpixDggs { north_square: north_square % 4, south_square: south_square % 4 }
    }

    /// The standard `WGS84_003` layout: both polar squares in
    /// position zero.
    pub fn wgs84_003() -> (r: RhealpixDggs)
        ensures
            r@ == (0nat, 0nat),
    {
        RhealpixDggs::new(0, 0)
    }

    /// Return the north polar-square position in `0..=3`.
    pub fn north_square(&self) -> (r: u8)
        ensures
            r == self@.0,
            r < 4,
    {
        proof {
            use_type_invariant(self);
        }
        self.north_square
    }

    /// The resolution-zero face across the edge of `face` in `direction`.
    fn root_neighbor(&self, face: Face, direction: Direction) -> (r: Face)
        ensures
            r == root_neighbor(self@.0, self@.1, face, direction),
    {
        proof {
            use_type_invariant(self);
            reveal(root_neighbor);
        }
        match face {
            Face::N => {
                let offset: u8 = match direction {
                    Direction::Down => 0,
                    Direction::Right => 1,
                    Direction::Up => 2,
                    Direction::Left => 3,
                };
                equatorial_face(self.north_square + offset)
            },
            Face::S => {
                let offset: u8 = match direction {
                    Direction::Up => 0,
                    Direction::Right => 1,
                    Direction::Down => 2,
                    Direction::Left => 3,
                };
                equatorial_face(self.south_square + offset)
            },
            _ => match direction {
                Direction::Left => equatorial_face(face.number() - 1 + 3),
                Direction::Right => equatorial_face(face.number() - 1 + 1),
                Direction::Down => Face::S,
                Direction::Up => Face::N,
            },
        }
    }

    /// Quarter turns applied to a neighbour's digits when it lies on another
    /// face.
    fn neighbor_rotation(&self, original: Face, neighbor: Face) -> (r: u8)
        ensures
            r == neighbor_rotation(self@.0, self@.1, original, neighbor),
    {
        proof {
            reveal(neighbor_rotation);
        }
        let north_left = self.root_neighbor(Face::N, Direction::Left);
        let north_right = self.root_neighbor(Face::N, Direction::Right);
        let north_up = self.root_neighbor(Face::N, Direction::Up);
        let south_left = self.root_neighbor(Face::S, Direction::Left);
        let south_right = self.root_neighbor(Face::S, Direction::Right);
        let south_down = self.root_neighbor(Face::S, Direction::Down);

        if (original == Face::S && neighbor == south_left) || (original == south_right && neighbor
            == Face::S) || (original == Face::N && neighbor == north_right) || (original
            == north_left && neighbor == Face::N) {
            1
        } else if (original == Face::S && neighbor == south_down) || (original == south_down
            && neighbor == Face::S) || (original == Face::N && neighbor == north_up) || (original
            == north_up && neighbor == Face::N) {
            2
        } else if (original == Face::S && neighbor == south_right) || (original == south_left
            && neighbor == Face::S) || (original == Face::N && neighbor == north_left) || (original
            == north_right && neighbor == Face::N) {
            3
        } else {
            0
        }
    }

    /// Return the edge neighbour in a cardinal direction on the unfolded
    /// rHEALPix plane, applying the required polar-face rotations.
    pub fn planar_neighbor(&self, cell: &CellId, direction: Direction) -> (r: CellId)
        ensures
            r@ == planar_neighbor_of(self@.0, self@.1, cell@.0, cell@.1, direction),
    {
        let source = cell.digits();
        let ghost d = source@;
        let mut digits = vstd::slice::slice_to_vec(source);
        let mut crosses_border = true;
        let mut i = digits.len();
        proof {
            assert(d.take(d.len() as int) =~= d);
            assert(digits@.skip(i as int) =~= Seq::<u8>::empty());
            assert(step_digits(d, direction).0 + Seq::<u8>::empty() =~= step_digits(
                d,
                direction,
            ).0);
        }
        while i > 0 && crosses_border
            invariant
                d == cell@.1,
                valid_digits(d),
                digits@.len() == d.len(),
                i <= d.len(),
                forall|j: int| 0 <= j < digits@.len() ==> #[trigger] digits@[j] < 9,
                crosses_border ==> digits@.take(i as int) == d.take(i as int),
                crosses_border ==> step_digits(d, direction) == (
                    step_digits(d.take(i as int), direction).0 + digits@.skip(i as int),
                    step_digits(d.take(i as int), direction).1,
                ),
                !crosses_border ==> step_digits(d, direction) == (digits@, false),
            decreases i,
        {
            i -= 1;
            let original = digits[i];
            proof {
                assert(original == d[i as int]);
                let t = d.take(i + 1);
                assert(t.drop_last() =~= d.take(i as int));
                assert(t.last() == original);
            }
            digits[i] = digit_neighbor(original, direction);
            crosses_border = digit_on_border(original, direction);
            proof {
                let t = d.take(i + 1);
                if crosses_border {
                    assert(digits@.take(i as int) =~= d.take(i as int));
                    assert(step_digits(d.take(i as int), direction).0.push(
                        neighbor_digit(original, direction),
                    ) + digits@.skip(i + 1) =~= step_digits(
                        d.take(i as int),
                        direction,
                    ).0 + digits@.skip(i as int)) by {
                        assert(digits@.skip(i as int) =~= seq![neighbor_digit(original, direction)]
                            + digits@.skip(i + 1));
                    }
                } else {
                    assert(d.take(i as int).push(neighbor_digit(original, direction))
                        + digits@.skip(i + 1) =~= digits@);
                }
            }
        }
        proof {
            if crosses_border {
                assert(d.take(0) =~= Seq::<u8>::empty());
                assert(digits@.skip(0) =~= digits@);
                assert(Seq::<u8>::empty() + digits@ =~= digits@);
            }
        }
        let neighbor_face = if crosses_border {
            self.root_neighbor(cell.face(), direction)
        } else {
            cell.face()
        };
        let turns = self.neighbor_rotation(cell.face(), neighbor_face);
        let unrotated = CellId::from_valid_digits(neighbor_face, digits.as_slice());
        unrotated.rotated(turns)
    }

    /// Return the south polar-square position in `0..=3`.
    pub fn south_square(&self) -> (r: u8)
        ensures
            r == self@.1,
            r < 4,
    {
        proof {
            use_type_invariant(self);
        }
        self.south_square
    }
}

/// The equatorial face numbered `index` modulo four.
fn equatorial_face(index: u8) -> (r: Face)
    ensures
        r == equatorial_face_at(index as nat),
{
    match index % 4 {
        0 => Face::O,
        1 => Face::P,
        2 => Face::Q,
        _ => Face::R,
    }
}

/// Whether a child digit lies on the edge of its block facing `direction`.
fn digit_on_border(digit: u8, direction: Direction) -> (r: bool)
    ensures
        r == is_on_border(digit, direction),
{
    match direction {
        Direction::Left => digit % 3 == 0,
        Direction::Right => digit % 3 == 2,
        Direction::Up => digit / 3 == 0,
        Direction::Down => digit / 3 == 2,
    }
}

/// The child digit one step in `direction`, wrapping around its block.
fn digit_neighbor(digit: u8, direction: Direction) -> (r: u8)
    requires
        digit < 9,
    ensures
        r == neighbor_digit(digit, direction),
        r < 9,
{
    match direction {
        Direction::Left => digit / 3 * 3 + (digit % 3 + 2) % 3,
        Direction::Right => digit / 3 * 3 + (digit % 3 + 1) % 3,
        Direction::Up => ((digit / 3 + 2) % 3) * 3 + digit % 3,
        Direction::Down => ((digit / 3 + 1) % 3) * 3 + digit % 3,
    }
}

impl Default for RhealpixDggs {
    /// The `WGS84_003` layout.
    fn default() -> (r: RhealpixDggs)
        ensures
            r@ == (0nat, 0nat),
    {
        RhealpixDggs::wgs84_003()
    }
}


/// The boundary vertex at which a skew quadrilateral's geographic northwest
/// corner lies, from the number `triangle` of the polar triangle holding its
/// nucleus: counted back from the north polar square's position in the north,
/// forward from the south polar square's position in the south.
pub open spec fn skew_quad_northwest(north_square: nat, south_square: nat, triangle: int, region: Region) -> nat {
    if region == Region::NorthPolar {
        ((4 - (triangle - north_square) % 4) % 4) as nat
    } else {
        ((triangle - south_square) % 4) as nat
    }
}

/// `value` modulo 4, in `0..4`.
fn modulo_four(value: i64) -> (r: u8)
    requires
        -0x1_0000_0000 <= value <= 0x1_0000_0000,
    ensures
        r == value % 4,
{
    let shifted = (value + 0x2_0000_0000) as u64;
    assert(shifted % 4 == value % 4) by (nonlinear_arith)
        requires
            shifted == value + 0x2_0000_0000,
    ;
    (shifted % 4) as u8
}

impl RhealpixDggs {
    /// The edge neighbours of a quadrilateral cell by geographic direction:
    /// north is its planar neighbour up, south down, west left and east
    /// right. Cells of other shapes, whose directions follow the positions
    /// of their neighbours' nuclei, give `None`.
    pub fn quad_ellipsoidal_neighbors(&self, cell: &CellId) -> (r: Option<Vec<(EllipsoidalDirection, CellId)>>)
        ensures
            shape_of(cell@.0, cell@.1) != CellShape::Quad ==> r is None,
            shape_of(cell@.0, cell@.1) == CellShape::Quad ==> (r matches Some(v) && v@.len() == 4
                && v@[0].0 == EllipsoidalDirection::North && v@[0].1@ == planar_neighbor_of(
                self@.0,
                self@.1,
                cell@.0,
                cell@.1,
                Direction::Up,
            ) && v@[1].0 == EllipsoidalDirection::South && v@[1].1@ == planar_neighbor_of(
                self@.0,
                self@.1,
                cell@.0,
                cell@.1,
                Direction::Down,
            ) && v@[2].0 == EllipsoidalDirection::West && v@[2].1@ == planar_neighbor_of(
                self@.0,
                self@.1,
                cell@.0,
                cell@.1,
                Direction::Left,
            ) && v@[3].0 == EllipsoidalDirection::East && v@[3].1@ == planar_neighbor_of(
                self@.0,
                self@.1,
                cell@.0,
                cell@.1,
                Direction::Right,
            )),
    {
        if cell.shape() != CellShape::Quad {
            return None;
        }
        let north = self.planar_neighbor(cell, Direction::Up);
        let south = self.planar_neighbor(cell, Direction::Down);
        let west = self.planar_neighbor(cell, Direction::Left);
        let east = self.planar_neighbor(cell, Direction::Right);
        let mut v: Vec<(EllipsoidalDirection, CellId)> = Vec::new();
        v.push((EllipsoidalDirection::North, north));
        v.push((EllipsoidalDirection::South, south));
        v.push((EllipsoidalDirection::West, west));
        v.push((EllipsoidalDirection::East, east));
        Some(v)
    }

    /// The boundary vertex, counted from the upper left one, at which the
    /// geographic northwest corner of a skew quadrilateral lies, given the
    /// number of the polar triangle that holds its nucleus and its polar
    /// region.
    pub fn skew_quad_northwest_index(&self, triangle: i32, region: Region) -> (r: usize)
        requires
            region != Region::Equatorial,
        ensures
            r == skew_quad_northwest(self@.0, self@.1, triangle as int, region),
            r < 4,
    {
        if region == Region::NorthPolar {
            let offset = modulo_four(triangle as i64 - self.north_square as i64);
            ((4 - offset) % 4) as usize
        } else {
            modulo_four(triangle as i64 - self.south_square as i64) as usize
        }
    }
}

} // verus!

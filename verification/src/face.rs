//! Resolution-zero faces and the small named classifications of cells.

use vstd::prelude::*;
use vstd::string::*;

use crate::error::{Error, Result};
use crate::text::{char_string, push_decimal};

verus! {

/// One of the six resolution-zero rHEALPix faces.
#[derive(Debug, Clone, Copy, PartialEq, Eq, Structural, PartialOrd, Ord, Hash)]
pub enum Face {
    /// North polar face.
    N,
    /// First equatorial face.
    O,
    /// Second equatorial face.
    P,
    /// Third equatorial face.
    Q,
    /// Fourth equatorial face.
    R,
    /// South polar face.
    S,
}

/// Zero-based number of a face: `N` is 0 and `S` is 5.
pub open spec fn face_index(face: Face) -> nat {
    match face {
        Face::N => 0,
        Face::O => 1,
        Face::P => 2,
        Face::Q => 3,
        Face::R => 4,
        Face::S => 5,
    }
}

/// The face with zero-based number `n` (meaningful for `n < 6`).
pub open spec fn face_at(n: nat) -> Face {
    if n == 0 {
        Face::N
    } else if n == 1 {
        Face::O
    } else if n == 2 {
        Face::P
    } else if n == 3 {
        Face::Q
    } else if n == 4 {
        Face::R
    } else {
        Face::S
    }
}

/// Canonical letter of a face.
pub open spec fn face_letter(face: Face) -> char {
    match face {
        Face::N => 'N',
        Face::O => 'O',
        Face::P => 'P',
        Face::Q => 'Q',
        Face::R => 'R',
        Face::S => 'S',
    }
}

/// Whether `c` is the letter of some face.
pub open spec fn is_face_letter(c: char) -> bool {
    c == 'N' || c == 'O' || c == 'P' || c == 'Q' || c == 'R' || c == 'S'
}

/// The face named by a face letter (meaningful when `is_face_letter(c)`).
pub open spec fn face_of_letter(c: char) -> Face {
    if c == 'N' {
        Face::N
    } else if c == 'O' {
        Face::O
    } else if c == 'P' {
        Face::P
    } else if c == 'Q' {
        Face::Q
    } else if c == 'R' {
        Face::R
    } else {
        Face::S
    }
}

/// Numbering a face and reading the number back gives the same face.
pub proof fn lemma_face_index_round_trip(face: Face)
    ensures
        face_index(face) < 6,
        face_at(face_index(face)) == face,
        face_of_letter(face_letter(face)) == face,
        is_face_letter(face_letter(face)),
{
}

/// Every number below six names a face whose number it is.
pub proof fn lemma_face_at_round_trip(n: nat)
    requires
        n < 6,
    ensures
        face_index(face_at(n)) == n,
{
}

impl Face {
    /// Construct a face from its zero-based number.
    pub fn from_number(value: u8) -> (r: Option<Face>)
        ensures
            r == (if value < 6 {
                Some(face_at(value as nat))
            } else {
                None
            }),
    {
        match value {
            0 => Some(Face::N),
            1 => Some(Face::O),
            2 => Some(Face::P),
            3 => Some(Face::Q),
            4 => Some(Face::R),
            5 => Some(Face::S),
            _ => None,
        }
    }

    /// Return the zero-based face number.
    pub fn number(self) -> (r: u8)
        ensures
            r == face_index(self),
    {
        match self {
            Face::N => 0,
            Face::O => 1,
            Face::P => 2,
            Face::Q => 3,
            Face::R => 4,
            Face::S => 5,
        }
    }

    /// Return the canonical face letter.
    pub fn letter(self) -> (r: char)
        ensures
            r == face_letter(self),
    {
        match self {
            Face::N => 'N',
            Face::O => 'O',
            Face::P => 'P',
            Face::Q => 'Q',
            Face::R => 'R',
            Face::S => 'S',
        }
    }

    /// Read a face from its letter; any other character is an invalid cell ID
    /// whose text is that character.
    pub fn from_letter(value: char) -> (r: Result<Face>)
        ensures
            is_face_letter(value) ==> r == Ok::<Face, Error>(face_of_letter(value)),
            !is_face_letter(value) ==> (r matches Err(Error::InvalidCellId(m)) && m@ == seq![value]),
    {
        match value {
            'N' => Ok(Face::N),
            'O' => Ok(Face::O),
            'P' => Ok(Face::P),
            'Q' => Ok(Face::Q),
            'R' => Ok(Face::R),
            'S' => Ok(Face::S),
            _ => Err(Error::InvalidCellId(char_string(value))),
        }
    }
}

/// Broad geographic region occupied by a cell.
#[derive(Debug, Clone, Copy, PartialEq, Eq, Structural, Hash)]
pub enum Region {
    /// The north-polar rHEALPix face.
    NorthPolar,
    /// One of the four equatorial faces.
    Equatorial,
    /// The south-polar rHEALPix face.
    SouthPolar,
}

/// Conventional name of a region.
pub open spec fn region_name(region: Region) -> Seq<char> {
    match region {
        Region::NorthPolar => "north_polar"@,
        Region::Equatorial => "equatorial"@,
        Region::SouthPolar => "south_polar"@,
    }
}

impl Region {
    /// Return the conventional name.
    pub fn as_str(self) -> (r: &'static str)
        ensures
            r@ == region_name(self),
    {
        match self {
            Region::NorthPolar => "north_polar",
            Region::Equatorial => "equatorial",
            Region::SouthPolar => "south_polar",
        }
    }
}

/// Shape of a cell after inverse projection onto the ellipsoid.
#[derive(Debug, Clone, Copy, PartialEq, Eq, Structural, Hash)]
pub enum CellShape {
    /// An equatorial quadrilateral.
    Quad,
    /// A polar cap containing a pole.
    Cap,
    /// A polar triangular dart.
    Dart,
    /// A polar skew quadrilateral.
    SkewQuad,
}

/// Conventional name of a shape.
pub open spec fn shape_name(shape: CellShape) -> Seq<char> {
    match shape {
        CellShape::Quad => "quad"@,
        CellShape::Cap => "cap"@,
        CellShape::Dart => "dart"@,
        CellShape::SkewQuad => "skew_quad"@,
    }
}

impl CellShape {
    /// Return the conventional name.
    pub fn as_str(self) -> (r: &'static str)
        ensures
            r@ == shape_name(self),
    {
        match self {
            CellShape::Quad => "quad",
            CellShape::Cap => "cap",
            CellShape::Dart => "dart",
            CellShape::SkewQuad => "skew_quad",
        }
    }
}

/// Cardinal direction on the rHEALPix unfolded plane.
#[derive(Debug, Clone, Copy, PartialEq, Eq, Structural, PartialOrd, Ord, Hash)]
pub enum Direction {
    /// Decreasing planar x.
    Left,
    /// Increasing planar x.
    Right,
    /// Decreasing planar y.
    Down,
    /// Increasing planar y.
    Up,
}

/// Conventional name of a planar direction.
pub open spec fn direction_name(direction: Direction) -> Seq<char> {
    match direction {
        Direction::Left => "left"@,
        Direction::Right => "right"@,
        Direction::Down => "down"@,
        Direction::Up => "up"@,
    }
}

impl Direction {
    /// All planar directions in their conventional order.
    pub const ALL: [Direction; 4] = [Direction::Left, Direction::Right, Direction::Down, Direction::Up];

    /// Return the conventional name.
    pub fn as_str(self) -> (r: &'static str)
        ensures
            r@ == direction_name(self),
    {
        match self {
            Direction::Left => "left",
            Direction::Right => "right",
            Direction::Down => "down",
            Direction::Up => "up",
        }
    }

    /// Read a planar direction from its conventional name.
    pub fn parse(value: &str) -> (r: Result<Direction>)
        ensures
            direction_from_name(value@) matches Some(d) ==> r == Ok::<Direction, Error>(d),
            direction_from_name(value@) is None ==> (r matches Err(Error::InvalidDirection(m))
                && m@ == value@),
    {
        if str_equal(value, "left") {
            Ok(Direction::Left)
        } else if str_equal(value, "right") {
            Ok(Direction::Right)
        } else if str_equal(value, "down") {
            Ok(Direction::Down)
        } else if str_equal(value, "up") {
            Ok(Direction::Up)
        } else {
            Err(Error::InvalidDirection(value.to_owned()))
        }
    }
}

/// The planar direction that a name denotes, if any.
pub open spec fn direction_from_name(name: Seq<char>) -> Option<Direction> {
    if name == "left"@ {
        Some(Direction::Left)
    } else if name == "right"@ {
        Some(Direction::Right)
    } else if name == "down"@ {
        Some(Direction::Down)
    } else if name == "up"@ {
        Some(Direction::Up)
    } else {
        None
    }
}

/// Reading the name of a planar direction gives that direction back.
pub proof fn law_direction_name_round_trip(direction: Direction)
    ensures
        direction_from_name(direction_name(direction)) == Some(direction),
{
    reveal_strlit("left");
    reveal_strlit("right");
    reveal_strlit("down");
    reveal_strlit("up");
    assert("right"@.len() != "left"@.len());
    assert("down"@[0] != "left"@[0]);
    assert("down"@.len() != "right"@.len());
    assert("up"@.len() != "left"@.len());
    assert("up"@.len() != "right"@.len());
    assert("up"@.len() != "down"@.len());
}

impl core::str::FromStr for Direction {
    type Err = Error;

    fn from_str(value: &str) -> (r: Result<Self>)
        ensures
            direction_from_name(value@) matches Some(d) ==> r == Ok::<Direction, Error>(d),
            direction_from_name(value@) is None ==> (r matches Err(Error::InvalidDirection(m))
                && m@ == value@),
    {
        Direction::parse(value)
    }
}

/// Compare two strings character by character.
pub fn str_equal(left: &str, right: &str) -> (r: bool)
    ensures
        r == (left@ == right@),
{
    let n = left.unicode_len();
    let m = right.unicode_len();
    if n != m {
        return false;
    }
    let mut i: usize = 0;
    while i < n
        invariant
            n == left@.len(),
            m == right@.len(),
            n == m,
            i <= n,
            forall|j: int| 0 <= j < i ==> left@[j] == right@[j],
        decreases n - i,
    {
        if left.get_char(i) != right.get_char(i) {
            return false;
        }
        i += 1;
    }
    assert(left@ =~= right@);
    true
}

/// Geographic edge-neighbour direction on the ellipsoid.
///
/// The valid names depend on cell shape. Cap cells use indexed poleward
/// directions, while darts use diagonal names on their equatorward side.
#[derive(Debug, Clone, Copy, PartialEq, Eq, Structural, PartialOrd, Ord, Hash)]
pub enum EllipsoidalDirection {
    /// Geographic north.
    North,
    /// Geographic south.
    South,
    /// Geographic east.
    East,
    /// Geographic west.
    West,
    /// Geographic northeast, used by southern darts.
    NorthEast,
    /// Geographic northwest, used by southern darts.
    NorthWest,
    /// Geographic southeast, used by northern darts.
    SouthEast,
    /// Geographic southwest, used by northern darts.
    SouthWest,
    /// Indexed northward neighbour of a southern cap.
    NorthIndexed(u8),
    /// Indexed southward neighbour of a northern cap.
    SouthIndexed(u8),
}

/// Conventional name of an ellipsoidal direction; indexed directions append
/// `_` and the decimal index.
pub open spec fn ellipsoidal_direction_name(direction: EllipsoidalDirection) -> Seq<char> {
    match direction {
        EllipsoidalDirection::North => "north"@,
        EllipsoidalDirection::South => "south"@,
        EllipsoidalDirection::East => "east"@,
        EllipsoidalDirection::West => "west"@,
        EllipsoidalDirection::NorthEast => "north_east"@,
        EllipsoidalDirection::NorthWest => "north_west"@,
        EllipsoidalDirection::SouthEast => "south_east"@,
        EllipsoidalDirection::SouthWest => "south_west"@,
        EllipsoidalDirection::NorthIndexed(i) => "north_"@ + crate::text::decimal(i as nat),
        EllipsoidalDirection::SouthIndexed(i) => "south_"@ + crate::text::decimal(i as nat),
    }
}

/// Whether a direction can be named in text: indexed directions carry an
/// index in `0..=3`.
pub open spec fn is_nameable(direction: EllipsoidalDirection) -> bool {
    match direction {
        EllipsoidalDirection::NorthIndexed(i) => i < 4,
        EllipsoidalDirection::SouthIndexed(i) => i < 4,
        _ => true,
    }
}

impl EllipsoidalDirection {
    /// Return the conventional name of this direction.
    pub fn to_string(&self) -> (r: String)
        ensures
            r@ == ellipsoidal_direction_name(*self),
    {
        match *self {
            EllipsoidalDirection::North => "north".to_owned(),
            EllipsoidalDirection::South => "south".to_owned(),
            EllipsoidalDirection::East => "east".to_owned(),
            EllipsoidalDirection::West => "west".to_owned(),
            EllipsoidalDirection::NorthEast => "north_east".to_owned(),
            EllipsoidalDirection::NorthWest => "north_west".to_owned(),
            EllipsoidalDirection::SouthEast => "south_east".to_owned(),
            EllipsoidalDirection::SouthWest => "south_west".to_owned(),
            EllipsoidalDirection::NorthIndexed(i) => {
                let mut s = "north_".to_owned();
                push_decimal(&mut s, i as u64);
                s
            },
            EllipsoidalDirection::SouthIndexed(i) => {
                let mut s = "south_".to_owned();
                push_decimal(&mut s, i as u64);
                s
            },
        }
    }

    /// Read an ellipsoidal direction from its conventional name. Indexed names
    /// accept the indices `0..=3` only.
    pub fn parse(value: &str) -> (r: Result<EllipsoidalDirection>)
        ensures
            ellipsoidal_direction_from_name(value@) matches Some(d) ==> r == Ok::<
                EllipsoidalDirection,
                Error,
            >(d),
            ellipsoidal_direction_from_name(value@) is None ==> (r matches Err(
                Error::InvalidEllipsoidalDirection(m),
            ) && m@ == value@),
    {
        if str_equal(value, "north") {
            Ok(EllipsoidalDirection::North)
        } else if str_equal(value, "south") {
            Ok(EllipsoidalDirection::South)
        } else if str_equal(value, "east") {
            Ok(EllipsoidalDirection::East)
        } else if str_equal(value, "west") {
            Ok(EllipsoidalDirection::West)
        } else if str_equal(value, "north_east") {
            Ok(EllipsoidalDirection::NorthEast)
        } else if str_equal(value, "north_west") {
            Ok(EllipsoidalDirection::NorthWest)
        } else if str_equal(value, "south_east") {
            Ok(EllipsoidalDirection::SouthEast)
        } else if str_equal(value, "south_west") {
            Ok(EllipsoidalDirection::SouthWest)
        } else if str_equal(value, "north_0") {
            Ok(EllipsoidalDirection::NorthIndexed(0))
        } else if str_equal(value, "north_1") {
            Ok(EllipsoidalDirection::NorthIndexed(1))
        } else if str_equal(value, "north_2") {
            Ok(EllipsoidalDirection::NorthIndexed(2))
        } else if str_equal(value, "north_3") {
            Ok(EllipsoidalDirection::NorthIndexed(3))
        } else if str_equal(value, "south_0") {
            Ok(EllipsoidalDirection::SouthIndexed(0))
        } else if str_equal(value, "south_1") {
            Ok(EllipsoidalDirection::SouthIndexed(1))
        } else if str_equal(value, "south_2") {
            Ok(EllipsoidalDirection::SouthIndexed(2))
        } else if str_equal(value, "south_3") {
            Ok(EllipsoidalDirection::SouthIndexed(3))
        } else {
            Err(Error::InvalidEllipsoidalDirection(value.to_owned()))
        }
    }
}

/// The ellipsoidal direction that a name denotes, if any.
pub open spec fn ellipsoidal_direction_from_name(name: Seq<char>) -> Option<EllipsoidalDirection> {
    if name == "north"@ {
        Some(EllipsoidalDirection::North)
    } else if name == "south"@ {
        Some(EllipsoidalDirection::South)
    } else if name == "east"@ {
        Some(EllipsoidalDirection::East)
    } else if name == "west"@ {
        Some(EllipsoidalDirection::West)
    } else if name == "north_east"@ {
        Some(EllipsoidalDirection::NorthEast)
    } else if name == "north_west"@ {
        Some(EllipsoidalDirection::NorthWest)
    } else if name == "south_east"@ {
        Some(EllipsoidalDirection::SouthEast)
    } else if name == "south_west"@ {
        Some(EllipsoidalDirection::SouthWest)
    } else if name == "north_0"@ {
        Some(EllipsoidalDirection::NorthIndexed(0))
    } else if name == "north_1"@ {
        Some(EllipsoidalDirection::NorthIndexed(1))
    } else if name == "north_2"@ {
        Some(EllipsoidalDirection::NorthIndexed(2))
    } else if name == "north_3"@ {
        Some(EllipsoidalDirection::NorthIndexed(3))
    } else if name == "south_0"@ {
        Some(EllipsoidalDirection::SouthIndexed(0))
    } else if name == "south_1"@ {
        Some(EllipsoidalDirection::SouthIndexed(1))
    } else if name == "south_2"@ {
        Some(EllipsoidalDirection::SouthIndexed(2))
    } else if name == "south_3"@ {
        Some(EllipsoidalDirection::SouthIndexed(3))
    } else {
        None
    }
}

/// Reading the name of a nameable ellipsoidal direction gives that direction
/// back.
pub proof fn law_ellipsoidal_direction_name_round_trip(direction: EllipsoidalDirection)
    requires
        is_nameable(direction),
    ensures
        ellipsoidal_direction_from_name(ellipsoidal_direction_name(direction)) == Some(direction),
{
    reveal_strlit("north");
    reveal_strlit("south");
    reveal_strlit("east");
    reveal_strlit("west");
    reveal_strlit("north_east");
    reveal_strlit("north_west");
    reveal_strlit("south_east");
    reveal_strlit("south_west");
    reveal_strlit("north_0");
    reveal_strlit("north_1");
    reveal_strlit("north_2");
    reveal_strlit("north_3");
    reveal_strlit("south_0");
    reveal_strlit("south_1");
    reveal_strlit("south_2");
    reveal_strlit("south_3");
    reveal_strlit("north_");
    reveal_strlit("south_");
    assert("south"@[0] != "north"@[0]);
    assert("east"@.len() != "north"@.len());
    assert("east"@.len() != "south"@.len());
    assert("west"@.len() != "north"@.len());
    assert("west"@.len() != "south"@.len());
    assert("west"@[0] != "east"@[0]);
    assert("north_east"@.len() != "north"@.len());
    assert("north_east"@.len() != "south"@.len());
    assert("north_east"@.len() != "east"@.len());
    assert("north_east"@.len() != "west"@.len());
    assert("north_west"@.len() != "north"@.len());
    assert("north_west"@.len() != "south"@.len());
    assert("north_west"@.len() != "east"@.len());
    assert("north_west"@.len() != "west"@.len());
    assert("north_west"@[6] != "north_east"@[6]);
    assert("south_east"@.len() != "north"@.len());
    assert("south_east"@.len() != "south"@.len());
    assert("south_east"@.len() != "east"@.len());
    assert("south_east"@.len() != "west"@.len());
    assert("south_east"@[0] != "north_east"@[0]);
    assert("south_east"@[0] != "north_west"@[0]);
    assert("south_west"@.len() != "north"@.len());
    assert("south_west"@.len() != "south"@.len());
    assert("south_west"@.len() != "east"@.len());
    assert("south_west"@.len() != "west"@.len());
    assert("south_west"@[0] != "north_east"@[0]);
    assert("south_west"@[0] != "north_west"@[0]);
    assert("south_west"@[6] != "south_east"@[6]);
    assert("north_0"@.len() != "north"@.len());
    assert("north_0"@.len() != "south"@.len());
    assert("north_0"@.len() != "east"@.len());
    assert("north_0"@.len() != "west"@.len());
    assert("north_0"@.len() != "north_east"@.len());
    assert("north_0"@.len() != "north_west"@.len());
    assert("north_0"@.len() != "south_east"@.len());
    assert("north_0"@.len() != "south_west"@.len());
    assert("north_1"@.len() != "north"@.len());
    assert("north_1"@.len() != "south"@.len());
    assert("north_1"@.len() != "east"@.len());
    assert("north_1"@.len() != "west"@.len());
    assert("north_1"@.len() != "north_east"@.len());
    assert("north_1"@.len() != "north_west"@.len());
    assert("north_1"@.len() != "south_east"@.len());
    assert("north_1"@.len() != "south_west"@.len());
    assert("north_1"@[6] != "north_0"@[6]);
    assert("north_2"@.len() != "north"@.len());
    assert("north_2"@.len() != "south"@.len());
    assert("north_2"@.len() != "east"@.len());
    assert("north_2"@.len() != "west"@.len());
    assert("north_2"@.len() != "north_east"@.len());
    assert("north_2"@.len() != "north_west"@.len());
    assert("north_2"@.len() != "south_east"@.len());
    assert("north_2"@.len() != "south_west"@.len());
    assert("north_2"@[6] != "north_0"@[6]);
    assert("north_2"@[6] != "north_1"@[6]);
    assert("north_3"@.len() != "north"@.len());
    assert("north_3"@.len() != "south"@.len());
    assert("north_3"@.len() != "east"@.len());
    assert("north_3"@.len() != "west"@.len());
    assert("north_3"@.len() != "north_east"@.len());
    assert("north_3"@.len() != "north_west"@.len());
    assert("north_3"@.len() != "south_east"@.len());
    assert("north_3"@.len() != "south_west"@.len());
    assert("north_3"@[6] != "north_0"@[6]);
    assert("north_3"@[6] != "north_1"@[6]);
    assert("north_3"@[6] != "north_2"@[6]);
    assert("south_0"@.len() != "north"@.len());
    assert("south_0"@.len() != "south"@.len());
    assert("south_0"@.len() != "east"@.len());
    assert("south_0"@.len() != "west"@.len());
    assert("south_0"@.len() != "north_east"@.len());
    assert("south_0"@.len() != "north_west"@.len());
    assert("south_0"@.len() != "south_east"@.len());
    assert("south_0"@.len() != "south_west"@.len());
    assert("south_0"@[0] != "north_0"@[0]);
    assert("south_0"@[0] != "north_1"@[0]);
    assert("south_0"@[0] != "north_2"@[0]);
    assert("south_0"@[0] != "north_3"@[0]);
    assert("south_1"@.len() != "north"@.len());
    assert("south_1"@.len() != "south"@.len());
    assert("south_1"@.len() != "east"@.len());
    assert("south_1"@.len() != "west"@.len());
    assert("south_1"@.len() != "north_east"@.len());
    assert("south_1"@.len() != "north_west"@.len());
    assert("south_1"@.len() != "south_east"@.len());
    assert("south_1"@.len() != "south_west"@.len());
    assert("south_1"@[0] != "north_0"@[0]);
    assert("south_1"@[0] != "north_1"@[0]);
    assert("south_1"@[0] != "north_2"@[0]);
    assert("south_1"@[0] != "north_3"@[0]);
    assert("south_1"@[6] != "south_0"@[6]);
    assert("south_2"@.len() != "north"@.len());
    assert("south_2"@.len() != "south"@.len());
    assert("south_2"@.len() != "east"@.len());
    assert("south_2"@.len() != "west"@.len());
    assert("south_2"@.len() != "north_east"@.len());
    assert("south_2"@.len() != "north_west"@.len());
    assert("south_2"@.len() != "south_east"@.len());
    assert("south_2"@.len() != "south_west"@.len());
    assert("south_2"@[0] != "north_0"@[0]);
    assert("south_2"@[0] != "north_1"@[0]);
    assert("south_2"@[0] != "north_2"@[0]);
    assert("south_2"@[0] != "north_3"@[0]);
    assert("south_2"@[6] != "south_0"@[6]);
    assert("south_2"@[6] != "south_1"@[6]);
    assert("south_3"@.len() != "north"@.len());
    assert("south_3"@.len() != "south"@.len());
    assert("south_3"@.len() != "east"@.len());
    assert("south_3"@.len() != "west"@.len());
    assert("south_3"@.len() != "north_east"@.len());
    assert("south_3"@.len() != "north_west"@.len());
    assert("south_3"@.len() != "south_east"@.len());
    assert("south_3"@.len() != "south_west"@.len());
    assert("south_3"@[0] != "north_0"@[0]);
    assert("south_3"@[0] != "north_1"@[0]);
    assert("south_3"@[0] != "north_2"@[0]);
    assert("south_3"@[0] != "north_3"@[0]);
    assert("south_3"@[6] != "south_0"@[6]);
    assert("south_3"@[6] != "south_1"@[6]);
    assert("south_3"@[6] != "south_2"@[6]);
    crate::text::lemma_decimal_single_digit();
    match direction {
        EllipsoidalDirection::NorthIndexed(i) => {
            assert(ellipsoidal_direction_name(direction) =~= "north_"@.push(
                crate::text::digit_char(i as nat),
            ));
            if i == 0 {
                assert("north_"@.push('0') =~= "north_0"@);
            }
            if i == 1 {
                assert("north_"@.push('1') =~= "north_1"@);
            }
            if i == 2 {
                assert("north_"@.push('2') =~= "north_2"@);
            }
            if i == 3 {
                assert("north_"@.push('3') =~= "north_3"@);
            }
        },
        EllipsoidalDirection::SouthIndexed(i) => {
            assert(ellipsoidal_direction_name(direction) =~= "south_"@.push(
                crate::text::digit_char(i as nat),
            ));
            if i == 0 {
                assert("south_"@.push('0') =~= "south_0"@);
            }
            if i == 1 {
                assert("south_"@.push('1') =~= "south_1"@);
            }
            if i == 2 {
                assert("south_"@.push('2') =~= "south_2"@);
            }
            if i == 3 {
                assert("south_"@.push('3') =~= "south_3"@);
            }
        },
        _ => {},
    }
}

impl core::str::FromStr for EllipsoidalDirection {
    type Err = Error;

    fn from_str(value: &str) -> (r: Result<Self>)
        ensures
            ellipsoidal_direction_from_name(value@) matches Some(d) ==> r == Ok::<
                EllipsoidalDirection,
                Error,
            >(d),
            ellipsoidal_direction_from_name(value@) is None ==> (r matches Err(
                Error::InvalidEllipsoidalDirection(m),
            ) && m@ == value@),
    {
        EllipsoidalDirection::parse(value)
    }
}

} // verus!

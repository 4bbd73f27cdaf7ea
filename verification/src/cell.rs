//! Aperture-9 rHEALPix cell identifiers.

use vstd::prelude::*;
use vstd::string::*;
use vstd::arithmetic::div_mod::lemma_fundamental_div_mod;

use crate::error::{Error, Result};
use crate::face::{
    face_at, face_index, face_letter, face_of_letter, is_face_letter, lemma_face_at_round_trip, lemma_face_index_round_trip, CellShape, Face, Region,
};
use crate::numbering::{
    digits_value, lemma_digits_round_trip, lemma_digits_value_bound, lemma_pow9_bounded,
    lemma_pow9_positive, lemma_post_encode_decode, lemma_resolution_offset_closed_form,
    lemma_resolution_offset_monotone, lemma_resolution_offset_total, lemma_to_digits_value,
    post_decode, lemma_post_decode_encode, lemma_post_rel_bound,
    lemma_subtree_size_monotone, lemma_subtree_size_values, lemma_to_digits_shape, pow9, post_rel, resolution_offset,
    subtree_size, to_digits, valid_digits,
};
use crate::text::{decimal, decimal_string, digit_char, push_decimal, push_digit};

verus! {

/// Number of children of every cell.
pub const APERTURE: u8 = 9;

/// Largest number of cells that one expansion may produce.
pub const MAX_EXPANSION: u64 = 10_000_000;

/// The mathematical value of a cell identifier: its face and child digits.
pub type CellView = (Face, Seq<u8>);

/// Post-order number of the cell `(face, digits)` in the complete hierarchy
/// of all six faces down to resolution 15.
pub open spec fn post_index(face: Face, digits: Seq<u8>) -> nat {
    face_index(face) * subtree_size(0) + post_rel(digits, 0)
}

/// Rank of the cell among the cells of its resolution, in identifier order.
pub open spec fn level_rank(face: Face, digits: Seq<u8>) -> nat {
    face_index(face) * pow9(digits.len()) + digits_value(digits)
}

/// Level-order number of the cell: all coarser cells come first.
pub open spec fn level_index(face: Face, digits: Seq<u8>) -> nat {
    resolution_offset(digits.len()) + level_rank(face, digits)
}

/// Number of cells at `resolution`.
pub open spec fn cells_at(resolution: nat) -> nat {
    6 * pow9(resolution)
}

/// The cell at `resolution` with the given rank (for `rank < cells_at(resolution)`).
pub open spec fn cell_of_rank(resolution: nat, rank: nat) -> (Face, Seq<u8>) {
    (face_at(rank / pow9(resolution)), to_digits(rank % pow9(resolution), resolution))
}

/// Region of the cells on a face.
pub open spec fn region_of(face: Face) -> Region {
    match face {
        Face::N => Region::NorthPolar,
        Face::S => Region::SouthPolar,
        _ => Region::Equatorial,
    }
}

/// Ellipsoidal shape of the cell `(face, digits)`.
pub open spec fn shape_of(face: Face, digits: Seq<u8>) -> CellShape {
    if region_of(face) == Region::Equatorial {
        CellShape::Quad
    } else if forall|i: int| 0 <= i < digits.len() ==> #[trigger] digits[i] == 4 {
        CellShape::Cap
    } else if (forall|i: int|
        0 <= i < digits.len() ==> #[trigger] digits[i] == 0 || digits[i] == 4 || digits[i] == 8)
        || (forall|i: int|
        0 <= i < digits.len() ==> #[trigger] digits[i] == 2 || digits[i] == 4 || digits[i] == 6) {
        CellShape::Dart
    } else {
        CellShape::SkewQuad
    }
}

/// One anticlockwise quarter turn of a child digit in its 3x3 block.
pub open spec fn rotate_once(digit: u8) -> u8 {
    ((digit % 3) * 3 + (2 - digit / 3)) as u8
}

/// `turns` anticlockwise quarter turns of a child digit.
pub open spec fn rotate_digit(digit: u8, turns: nat) -> u8
    decreases turns,
{
    if turns == 0 {
        digit
    } else {
        rotate_once(rotate_digit(digit, (turns - 1) as nat))
    }
}

/// Every child digit turned by `turns` quarter turns.
pub open spec fn rotate_digits(digits: Seq<u8>, turns: nat) -> Seq<u8> {
    digits.map_values(|d: u8| rotate_digit(d, turns))
}

/// Text of child digits below nine.
pub open spec fn digits_text(digits: Seq<u8>) -> Seq<char> {
    digits.map_values(|d: u8| digit_char(d as nat))
}

/// Identifier text of a cell: the face letter and then the child digits.
pub open spec fn cell_text(face: Face, digits: Seq<u8>) -> Seq<char> {
    seq![face_letter(face)] + digits_text(digits)
}

/// Text of arbitrary byte digits, each written in decimal.
pub open spec fn bytes_text(digits: Seq<u8>) -> Seq<char>
    decreases digits.len(),
{
    if digits.len() == 0 {
        Seq::empty()
    } else {
        bytes_text(digits.drop_last()) + decimal(digits.last() as nat)
    }
}

/// Whether a character is a child digit `0..=8`.
pub open spec fn is_digit_char(c: char) -> bool {
    '0' <= c <= '8'
}

/// The child digit written by a digit character.
pub open spec fn char_digit(c: char) -> u8 {
    ((c as u32) - ('0' as u32)) as u8
}

/// A compact aperture-9 rHEALPix spatially unique identifier.
///
/// The string representation is the face letter followed by the digits, for
/// example `Q381`. Resolution-zero cells contain only their face letter.
/// The identifier keeps its post-order number as its first field, so the
/// derived ordering is post-order: descendants precede their parent and
/// child subtrees follow digit order.
#[derive(Debug, Clone, Copy, PartialEq, Eq, PartialOrd, Ord, Hash)]
pub struct CellId {
    post: u64,
    face: Face,
    resolution: u8,
    slots: [u8; 15],
}

impl View for CellId {
    type V = (Face, Seq<u8>);

    closed spec fn view(&self) -> (Face, Seq<u8>) {
        (self.face, self.slots@.take(self.resolution as int))
    }
}

impl CellId {
    #[verifier::type_invariant]
    spec fn well_formed(self) -> bool {
        &&& self.resolution <= 15
        &&& forall|i: int| 0 <= i < self.resolution ==> #[trigger] self.slots@[i] < 9
        &&& forall|i: int| self.resolution <= i < 15 ==> #[trigger] self.slots@[i] == 0
        &&& self.post == post_index(self.face, self.slots@.take(self.resolution as int))
    }

    /// The identifier of a cell with valid digits.
    pub(crate) fn from_valid_digits(face: Face, digits: &[u8]) -> (c: CellId)
        requires
            valid_digits(digits@),
        ensures
            c@ == (face, digits@),
    {
        let n = digits.len();
        let mut slots = [0u8; 15];
        let mut i: usize = 0;
        while i < n
            invariant
                n == digits@.len(),
                n <= 15,
                i <= n,
                slots@.len() == 15,
                forall|j: int| 0 <= j < i ==> slots@[j] == digits@[j],
                forall|j: int| i <= j < 15 ==> slots@[j] == 0,
            decreases n - i,
        {
            slots[i] = digits[i];
            i += 1;
        }
        let post = compute_post_index(face, digits);
        assert(slots@.take(n as int) =~= digits@);
        CellId { post, face, resolution: n as u8, slots }
    }

    /// Return the resolution-zero face.
    pub fn face(&self) -> (r: Face)
        ensures
            r == self@.0,
    {
        self.face
    }

    /// Return the child digits.
    pub fn digits(&self) -> (r: &[u8])
        ensures
            r@ == self@.1,
            valid_digits(r@),
    {
        proof {
            use_type_invariant(self);
        }
        let all: &[u8] = self.slots.as_slice();
        &all[0..self.resolution as usize]
    }

    /// Return this cell's resolution.
    pub fn resolution(&self) -> (r: u8)
        ensures
            r == self@.1.len(),
            r <= 15,
            valid_digits(self@.1),
    {
        proof {
            use_type_invariant(self);
        }
        self.resolution
    }

    /// Whether two identifiers denote the same cell.
    pub fn same_as(&self, other: &CellId) -> (r: bool)
        ensures
            r == (self@ == other@),
    {
        proof {
            use_type_invariant(self);
            use_type_invariant(other);
            if self.post == other.post {
                lemma_post_index_injective(self@.0, self@.1, other@.0, other@.1);
            }
        }
        self.post == other.post
    }
}

/// Whether every digit is a child digit `0..=8`.
pub open spec fn digits_below_aperture(digits: Seq<u8>) -> bool {
    forall|i: int| 0 <= i < digits.len() ==> #[trigger] digits[i] < 9
}

/// Check a resolution against the finest supported resolution.
pub fn validate_resolution(resolution: u8) -> (r: Result<()>)
    ensures
        resolution <= 15 ==> r is Ok,
        resolution > 15 ==> r == Err::<(), Error>(Error::InvalidResolution(resolution)),
{
    if resolution > crate::MAX_RESOLUTION {
        return Err(Error::InvalidResolution(resolution));
    }
    Ok(())
}

/// The one-letter text of a face.
fn face_string(face: Face) -> (r: String)
    ensures
        r@ == seq![face_letter(face)],
{
    proof {
        reveal_strlit("N");
        reveal_strlit("O");
        reveal_strlit("P");
        reveal_strlit("Q");
        reveal_strlit("R");
        reveal_strlit("S");
    }
    match face {
        Face::N => "N".to_owned(),
        Face::O => "O".to_owned(),
        Face::P => "P".to_owned(),
        Face::Q => "Q".to_owned(),
        Face::R => "R".to_owned(),
        Face::S => "S".to_owned(),
    }
}

/// `9` to the power `n`.
pub fn pow9_u64(n: u8) -> (r: u64)
    requires
        n <= 16,
    ensures
        r == pow9(n as nat),
{
    let mut result: u64 = 1;
    let mut i: u8 = 0;
    while i < n
        invariant
            i <= n <= 16,
            result == pow9(i as nat),
        decreases n - i,
    {
        proof {
            lemma_pow9_bounded((i + 1) as nat);
        }
        result = 9 * result;
        i += 1;
    }
    result
}

/// The `width` least significant base-9 digits of `value`, big-endian.
pub fn write_digits(value: u64, width: u8) -> (r: Vec<u8>)
    ensures
        r@ == to_digits(value as nat, width as nat),
    decreases width,
{
    if width == 0 {
        Vec::new()
    } else {
        let mut digits = write_digits(value / 9, width - 1);
        digits.push((value % 9) as u8);
        digits
    }
}

impl CellId {
    /// Build a validated cell identifier from a face and row-major child digits.
    pub fn new(face: Face, digits: Vec<u8>) -> (r: Result<CellId>)
        ensures
            digits@.len() > 255 ==> r == Err::<CellId, Error>(Error::InvalidResolution(255)),
            15 < digits@.len() <= 255 ==> r == Err::<CellId, Error>(
                Error::InvalidResolution(digits@.len() as u8),
            ),
            digits@.len() <= 15 && !digits_below_aperture(digits@) ==> (r matches Err(
                Error::InvalidCellId(m),
            ) && m@ == seq![face_letter(face)] + bytes_text(digits@)),
            valid_digits(digits@) ==> (r matches Ok(c) && c@ == (face, digits@)),
    {
        if digits.len() > 255 {
            return Err(Error::InvalidResolution(255));
        }
        let resolution = digits.len() as u8;
        if let Err(e) = validate_resolution(resolution) {
            return Err(e);
        }
        let n = digits.len();
        let mut i: usize = 0;
        while i < n
            invariant
                n == digits@.len(),
                n <= 15,
                i <= n,
                forall|j: int| 0 <= j < i ==> digits@[j] < 9,
            decreases n - i,
        {
            if digits[i] >= APERTURE {
                return Err(Error::InvalidCellId(digits_message(face, &digits)));
            }
            i += 1;
        }
        Ok(CellId::from_valid_digits(face, digits.as_slice()))
    }

    /// Return the geographic region classification.
    pub fn region(&self) -> (r: Region)
        ensures
            r == region_of(self@.0),
    {
        match self.face {
            Face::N => Region::NorthPolar,
            Face::S => Region::SouthPolar,
            _ => Region::Equatorial,
        }
    }

    /// Return the ellipsoidal shape classification.
    pub fn shape(&self) -> (r: CellShape)
        ensures
            r == shape_of(self@.0, self@.1),
    {
        if self.face != Face::N && self.face != Face::S {
            return CellShape::Quad;
        }
        let digits = self.digits();
        let n = digits.len();
        let mut all_centre = true;
        let mut all_main_diagonal = true;
        let mut all_anti_diagonal = true;
        let mut i: usize = 0;
        while i < n
            invariant
                n == digits@.len(),
                i <= n,
                all_centre == (forall|j: int| 0 <= j < i ==> #[trigger] digits@[j] == 4),
                all_main_diagonal == (forall|j: int|
                    0 <= j < i ==> #[trigger] digits@[j] == 0 || digits@[j] == 4 || digits@[j]
                        == 8),
                all_anti_diagonal == (forall|j: int|
                    0 <= j < i ==> #[trigger] digits@[j] == 2 || digits@[j] == 4 || digits@[j]
                        == 6),
            decreases n - i,
        {
            let d = digits[i];
            all_centre = all_centre && d == 4;
            all_main_diagonal = all_main_diagonal && (d == 0 || d == 4 || d == 8);
            all_anti_diagonal = all_anti_diagonal && (d == 2 || d == 4 || d == 6);
            i += 1;
        }
        if all_centre {
            CellShape::Cap
        } else if all_main_diagonal || all_anti_diagonal {
            CellShape::Dart
        } else {
            CellShape::SkewQuad
        }
    }

    /// Rotate every child digit anticlockwise by quarter turns.
    ///
    /// The resolution-zero face remains fixed. This is the transformation
    /// used when planar neighbours cross a folded polar-face boundary.
    pub fn rotated(&self, quarter_turns: u8) -> (r: CellId)
        ensures
            r@ == (self@.0, rotate_digits(self@.1, (quarter_turns % 4) as nat)),
    {
        let turns = quarter_turns % 4;
        let digits = self.digits();
        if turns == 0 {
            assert(rotate_digits(self@.1, 0) =~= self@.1);
            return *self;
        }
        let n = digits.len();
        let mut rotated: Vec<u8> = Vec::new();
        let mut i: usize = 0;
        while i < n
            invariant
                n == digits@.len(),
                valid_digits(digits@),
                i <= n,
                turns < 4,
                rotated@ =~= rotate_digits(digits@.take(i as int), turns as nat),
                forall|j: int| 0 <= j < i ==> #[trigger] rotated@[j] < 9,
            decreases n - i,
        {
            let digit = digits[i];
            let mut row = digit / 3;
            let mut column = digit % 3;
            let mut k: u8 = 0;
            while k < turns
                invariant
                    k <= turns,
                    digit < 9,
                    row < 3,
                    column < 3,
                    row * 3 + column == rotate_digit(digit, k as nat),
                decreases turns - k,
            {
                let previous_row = row;
                row = column;
                column = 2 - previous_row;
                k += 1;
            }
            rotated.push(row * 3 + column);
            proof {
                assert(digits@.take(i + 1) =~= digits@.take(i as int).push(digit));
            }
            i += 1;
        }
        proof {
            assert(digits@.take(n as int) =~= digits@);
        }
        CellId::from_valid_digits(self.face, rotated.as_slice())
    }

    /// Return this cell's direct parent, or `None` for a resolution-zero cell.
    pub fn parent(&self) -> (r: Option<CellId>)
        ensures
            self@.1.len() == 0 ==> r is None,
            self@.1.len() > 0 ==> (r matches Some(p) && p@ == (self@.0, self@.1.drop_last())),
    {
        let digits = self.digits();
        if digits.len() == 0 {
            return None;
        }
        let parent = &digits[0..digits.len() - 1];
        Some(CellId::from_valid_digits(self.face, parent))
    }

    /// Return the ancestor at `resolution`.
    pub fn parent_at(&self, resolution: u8) -> (r: Result<CellId>)
        ensures
            resolution > 15 ==> r == Err::<CellId, Error>(Error::InvalidResolution(resolution)),
            resolution <= 15 && resolution > self@.1.len() ==> r == Err::<CellId, Error>(
                Error::InvalidParentResolution {
                    requested: resolution,
                    cell: self@.1.len() as u8,
                },
            ),
            resolution <= self@.1.len() ==> (r matches Ok(p) && p@ == (
                self@.0,
                self@.1.take(resolution as int),
            )),
    {
        proof {
            use_type_invariant(self);
        }
        if let Err(e) = validate_resolution(resolution) {
            return Err(e);
        }
        let digits = self.digits();
        if resolution as usize > digits.len() {
            return Err(
                Error::InvalidParentResolution { requested: resolution, cell: self.resolution() },
            );
        }
        let ancestor = &digits[0..resolution as usize];
        Ok(CellId::from_valid_digits(self.face, ancestor))
    }

    /// Return one direct child numbered `0..=8` in row-major order.
    pub fn child(&self, digit: u8) -> (r: Result<CellId>)
        ensures
            digit >= 9 ==> (r matches Err(Error::InvalidCellId(m)) && m@ == "child digit "@
                + decimal(digit as nat)),
            digit < 9 && self@.1.len() == 15 ==> r == Err::<CellId, Error>(
                Error::InvalidResolution(16),
            ),
            digit < 9 && self@.1.len() < 15 ==> (r matches Ok(c) && c@ == (
                self@.0,
                self@.1.push(digit),
            )),
    {
        if digit >= APERTURE {
            let mut message = "child digit ".to_owned();
            push_decimal(&mut message, digit as u64);
            return Err(Error::InvalidCellId(message));
        }
        let next = self.resolution() + 1;
        if let Err(e) = validate_resolution(next) {
            return Err(e);
        }
        let mut digits = vstd::slice::slice_to_vec(self.digits());
        digits.push(digit);
        Ok(CellId::from_valid_digits(self.face, digits.as_slice()))
    }

    /// Return the nine direct children in row-major order.
    pub fn children(&self) -> (r: Result<Vec<CellId>>)
        ensures
            self@.1.len() == 15 ==> r == Err::<Vec<CellId>, Error>(Error::InvalidResolution(16)),
            self@.1.len() < 15 ==> (r matches Ok(v) && v@.len() == 9 && forall|i: int|
                0 <= i < 9 ==> #[trigger] v@[i]@ == (self@.0, self@.1.push(i as u8))),
    {
        let mut result: Vec<CellId> = Vec::new();
        let mut digit: u8 = 0;
        while digit < APERTURE
            invariant
                digit <= 9,
                self@.1.len() < 15 ==> result@.len() == digit,
                self@.1.len() < 15 ==> forall|i: int|
                    0 <= i < digit ==> #[trigger] result@[i]@ == (self@.0, self@.1.push(i as u8)),
                self@.1.len() == 15 ==> digit == 0,
            decreases 9 - digit,
        {
            match self.child(digit) {
                Ok(c) => result.push(c),
                Err(e) => return Err(e),
            }
            digit += 1;
        }
        Ok(result)
    }

    /// Return whether `self` contains `other`, including equality.
    pub fn contains(&self, other: &CellId) -> (r: bool)
        ensures
            r == (self@.0 == other@.0 && self@.1.is_prefix_of(other@.1)),
    {
        if self.face != other.face {
            return false;
        }
        let mine = self.digits();
        let theirs = other.digits();
        if mine.len() > theirs.len() {
            return false;
        }
        let n = mine.len();
        let mut i: usize = 0;
        while i < n
            invariant
                n == mine@.len(),
                n <= theirs@.len(),
                mine@ == self@.1,
                theirs@ == other@.1,
                i <= n,
                forall|j: int| 0 <= j < i ==> mine@[j] == theirs@[j],
            decreases n - i,
        {
            if mine[i] != theirs[i] {
                assert(theirs@.subrange(0, n as int)[i as int] == theirs@[i as int]);
                return false;
            }
            i += 1;
        }
        assert(mine@ =~= theirs@.subrange(0, n as int));
        true
    }

    /// Whether the two identifiers denote the same cell.
    pub fn equals(&self, other: &CellId) -> (r: bool)
        ensures
            r == (self@ == other@),
    {
        self.same_as(other)
    }

    /// Whether this cell lies inside `other`, including equality.
    pub fn within(&self, other: &CellId) -> (r: bool)
        ensures
            r == (other@.0 == self@.0 && other@.1.is_prefix_of(self@.1)),
    {
        other.contains(self)
    }

    /// Whether this cell covers `other`: for cells of one hierarchy, whether
    /// it contains it.
    pub fn covers(&self, other: &CellId) -> (r: bool)
        ensures
            r == (self@.0 == other@.0 && self@.1.is_prefix_of(other@.1)),
    {
        self.contains(other)
    }

    /// Whether this cell is covered by `other`.
    pub fn covered_by(&self, other: &CellId) -> (r: bool)
        ensures
            r == (other@.0 == self@.0 && other@.1.is_prefix_of(self@.1)),
    {
        other.contains(self)
    }

    /// Whether one of the two cells contains the other (or they are equal).
    pub fn hierarchically_overlaps(&self, other: &CellId) -> (r: bool)
        ensures
            r == ((self@.0 == other@.0 && self@.1.is_prefix_of(other@.1)) || (other@.0 == self@.0
                && other@.1.is_prefix_of(self@.1))),
    {
        self.contains(other) || other.contains(self)
    }

    /// Return the number of descendants at `resolution`.
    pub fn descendant_count(&self, resolution: u8) -> (r: Result<u64>)
        ensures
            resolution > 15 ==> r == Err::<u64, Error>(Error::InvalidResolution(resolution)),
            resolution <= 15 && resolution < self@.1.len() ==> r == Err::<u64, Error>(
                Error::InvalidDescendantResolution {
                    requested: resolution,
                    cell: self@.1.len() as u8,
                },
            ),
            self@.1.len() <= resolution <= 15 ==> r == Ok::<u64, Error>(
                pow9((resolution - self@.1.len()) as nat) as u64,
            ),
    {
        if let Err(e) = validate_resolution(resolution) {
            return Err(e);
        }
        let own = self.resolution();
        if resolution < own {
            return Err(Error::InvalidDescendantResolution { requested: resolution, cell: own });
        }
        Ok(pow9_u64(resolution - own))
    }

    /// Return all descendants at `resolution` in identifier order.
    pub fn descendants(&self, resolution: u8) -> (r: Result<Vec<CellId>>)
        ensures
            resolution > 15 ==> r == Err::<Vec<CellId>, Error>(Error::InvalidResolution(resolution)),
            resolution <= 15 && resolution < self@.1.len() ==> r == Err::<Vec<CellId>, Error>(
                Error::InvalidDescendantResolution {
                    requested: resolution,
                    cell: self@.1.len() as u8,
                },
            ),
            self@.1.len() <= resolution <= 15 && pow9((resolution - self@.1.len()) as nat)
                > MAX_EXPANSION ==> r == Err::<Vec<CellId>, Error>(
                Error::ExpansionTooLarge(pow9((resolution - self@.1.len()) as nat) as u64),
            ),
            self@.1.len() <= resolution <= 15 && pow9((resolution - self@.1.len()) as nat)
                <= MAX_EXPANSION ==> (r matches Ok(v) && v@.len() == pow9(
                (resolution - self@.1.len()) as nat,
            ) && forall|i: int|
                0 <= i < v@.len() ==> #[trigger] v@[i]@ == (
                    self@.0,
                    self@.1 + to_digits(i as nat, (resolution - self@.1.len()) as nat),
                )),
    {
        proof {
            use_type_invariant(self);
            if resolution <= 15 && self@.1.len() <= resolution {
                lemma_pow9_bounded((resolution - self@.1.len()) as nat);
            }
        }
        let count = match self.descendant_count(resolution) {
            Ok(count) => count,
            Err(e) => return Err(e),
        };
        if count > MAX_EXPANSION {
            return Err(Error::ExpansionTooLarge(count));
        }
        let width = resolution - self.resolution();
        let prefix = self.digits();
        let mut result: Vec<CellId> = Vec::new();
        let mut i: u64 = 0;
        while i < count
            invariant
                count <= MAX_EXPANSION,
                width == resolution - self@.1.len(),
                self@.1.len() + width <= 15,
                prefix@ == self@.1,
                valid_digits(prefix@),
                i <= count,
                result@.len() == i,
                forall|j: int|
                    0 <= j < i ==> #[trigger] result@[j]@ == (
                        self@.0,
                        self@.1 + to_digits(j as nat, width as nat),
                    ),
            decreases count - i,
        {
            let mut digits = vstd::slice::slice_to_vec(prefix);
            let mut suffix = write_digits(i, width);
            proof {
                lemma_to_digits_shape(i as nat, width as nat);
            }
            digits.append(&mut suffix);
            proof {
                assert(digits@ =~= self@.1 + to_digits(i as nat, width as nat));
            }
            result.push(CellId::from_valid_digits(self.face, digits.as_slice()));
            i += 1;
        }
        Ok(result)
    }
}

/// The view of an optional cell.
pub open spec fn option_view(cell: Option<CellId>) -> Option<(Face, Seq<u8>)> {
    match cell {
        Some(c) => Some(c@),
        None => None,
    }
}

/// Next cell at the same resolution in identifier order, if any.
pub open spec fn successor_of(face: Face, digits: Seq<u8>) -> Option<(Face, Seq<u8>)> {
    if level_rank(face, digits) + 1 < cells_at(digits.len()) {
        Some(cell_of_rank(digits.len(), level_rank(face, digits) + 1))
    } else {
        None
    }
}

/// Previous cell at the same resolution in identifier order, if any.
pub open spec fn predecessor_of(face: Face, digits: Seq<u8>) -> Option<(Face, Seq<u8>)> {
    if level_rank(face, digits) > 0 {
        Some(cell_of_rank(digits.len(), (level_rank(face, digits) - 1) as nat))
    } else {
        None
    }
}

/// `count` copies of `digit`.
pub open spec fn repeat_digit(digit: u8, count: nat) -> Seq<u8> {
    Seq::new(count, |i: int| digit)
}

/// Post-order successor at `resolution` (at most 15): coarser
/// targets truncate first, finer targets start the next subtree.
pub open spec fn successor_at_of(face: Face, digits: Seq<u8>, resolution: nat) -> Option<
    (Face, Seq<u8>),
> {
    if resolution < digits.len() {
        successor_of(face, digits.take(resolution as int))
    } else {
        match successor_of(face, digits) {
            Some(next) => Some(
                (next.0, next.1 + repeat_digit(0, (resolution - digits.len()) as nat)),
            ),
            None => None,
        }
    }
}

/// Post-order predecessor at `resolution` (at most 15): coarser
/// targets truncate first, finer targets give this cell's last descendant.
pub open spec fn predecessor_at_of(face: Face, digits: Seq<u8>, resolution: nat) -> Option<
    (Face, Seq<u8>),
> {
    if resolution < digits.len() {
        predecessor_of(face, digits.take(resolution as int))
    } else if resolution == digits.len() {
        predecessor_of(face, digits)
    } else {
        Some((face, digits + repeat_digit(8, (resolution - digits.len()) as nat)))
    }
}

/// The rank of a valid cell is below the number of cells at its resolution.
pub proof fn lemma_level_rank_bound(face: Face, digits: Seq<u8>)
    requires
        valid_digits(digits),
    ensures
        level_rank(face, digits) < cells_at(digits.len()),
{
    lemma_digits_value_bound(digits);
    lemma_face_index_round_trip(face);
    let p = pow9(digits.len());
    let f = face_index(face);
    assert(f * p <= 5 * p) by (nonlinear_arith)
        requires
            f <= 5,
    ;
}

/// Ranks and cells correspond one to one at every resolution.
pub proof fn lemma_rank_round_trip(resolution: nat, rank: nat)
    requires
        resolution <= 15,
        rank < cells_at(resolution),
    ensures
        rank / pow9(resolution) < 6,
        valid_digits(cell_of_rank(resolution, rank).1),
        cell_of_rank(resolution, rank).1.len() == resolution,
        level_rank(cell_of_rank(resolution, rank).0, cell_of_rank(resolution, rank).1) == rank,
{
    let p = pow9(resolution);
    lemma_pow9_positive(resolution);
    lemma_fundamental_div_mod(rank as int, p as int);
    let q = rank / p;
    let m = rank % p;
    assert(q < 6) by (nonlinear_arith)
        requires
            rank < 6 * p,
            rank == p * q + m,
            0 <= m,
            p >= 1,
    ;
    lemma_face_at_round_trip(q);
    lemma_to_digits_shape(m, resolution);
    lemma_to_digits_value(m, resolution);
    assert(p * q == q * p) by (nonlinear_arith);
}

/// A valid cell is the cell of its own rank.
pub proof fn lemma_cell_of_own_rank(face: Face, digits: Seq<u8>)
    requires
        valid_digits(digits),
    ensures
        cell_of_rank(digits.len(), level_rank(face, digits)) == (face, digits),
{
    let p = pow9(digits.len());
    let v = digits_value(digits);
    lemma_digits_value_bound(digits);
    lemma_face_index_round_trip(face);
    vstd::arithmetic::div_mod::lemma_fundamental_div_mod_converse(
        level_rank(face, digits) as int,
        p as int,
        face_index(face) as int,
        v as int,
    );
    lemma_digits_round_trip(digits);
}

impl CellId {
    /// Rank among the cells of the same resolution.
    fn level_rank_u64(&self) -> (r: u64)
        ensures
            r == level_rank(self@.0, self@.1),
            r < cells_at(self@.1.len()),
    {
        proof {
            use_type_invariant(self);
            lemma_level_rank_bound(self@.0, self@.1);
            lemma_pow9_bounded(self@.1.len());
        }
        let digits = self.digits();
        let n = digits.len();
        let mut value: u64 = 0;
        let mut i: usize = 0;
        while i < n
            invariant
                n == digits@.len(),
                valid_digits(digits@),
                i <= n,
                value == digits_value(digits@.take(i as int)),
            decreases n - i,
        {
            proof {
                lemma_digits_value_bound(digits@.take(i as int));
                lemma_pow9_bounded(i as nat);
                assert(digits@.take(i + 1).drop_last() =~= digits@.take(i as int));
                assert(digits@.take(i + 1).last() == digits@[i as int]);
            }
            value = value * 9 + digits[i] as u64;
            i += 1;
        }
        proof {
            assert(digits@.take(n as int) =~= digits@);
            lemma_face_index_round_trip(self@.0);
        }
        self.face.number() as u64 * pow9_u64(n as u8) + value
    }

    /// The cell of a rank among the cells of a resolution.
    fn from_level_rank(resolution: u8, rank: u64) -> (c: CellId)
        requires
            resolution <= 15,
            rank < cells_at(resolution as nat),
        ensures
            c@ == cell_of_rank(resolution as nat, rank as nat),
    {
        proof {
            lemma_rank_round_trip(resolution as nat, rank as nat);
            lemma_pow9_positive(resolution as nat);
        }
        let p = pow9_u64(resolution);
        let face = Face::from_number((rank / p) as u8).unwrap();
        let digits = write_digits(rank % p, resolution);
        CellId::from_valid_digits(face, digits.as_slice())
    }

    /// Return the next cell at the same resolution in identifier order.
    pub fn successor(&self) -> (r: Option<CellId>)
        ensures
            option_view(r) == successor_of(self@.0, self@.1),
    {
        proof {
            use_type_invariant(self);
        }
        let rank = self.level_rank_u64();
        let resolution = self.resolution();
        proof {
            lemma_pow9_bounded(resolution as nat);
        }
        if rank + 1 < 6 * pow9_u64(resolution) {
            Some(CellId::from_level_rank(resolution, rank + 1))
        } else {
            None
        }
    }

    /// Return the previous cell at the same resolution in identifier order.
    pub fn predecessor(&self) -> (r: Option<CellId>)
        ensures
            option_view(r) == predecessor_of(self@.0, self@.1),
    {
        let rank = self.level_rank_u64();
        if rank > 0 {
            Some(CellId::from_level_rank(self.resolution(), rank - 1))
        } else {
            None
        }
    }

    /// Return the greatest cell at `resolution` that precedes this cell.
    ///
    /// This follows post-order traversal. If the target is
    /// coarser, this cell is first truncated; if it is finer, its final
    /// descendant is returned.
    pub fn predecessor_at(&self, resolution: u8) -> (r: Result<Option<CellId>>)
        ensures
            resolution > 15 ==> r == Err::<Option<CellId>, Error>(
                Error::InvalidResolution(resolution),
            ),
            resolution <= 15 ==> (r matches Ok(p) && option_view(p) == predecessor_at_of(
                self@.0,
                self@.1,
                resolution as nat,
            )),
    {
        if let Err(e) = validate_resolution(resolution) {
            return Err(e);
        }
        let own = self.resolution();
        if resolution < own {
            let ancestor = match self.parent_at(resolution) {
                Ok(a) => a,
                Err(e) => return Err(e),
            };
            Ok(ancestor.predecessor())
        } else if resolution == own {
            Ok(self.predecessor())
        } else {
            let mut digits = vstd::slice::slice_to_vec(self.digits());
            let mut i = own;
            while i < resolution
                invariant
                    own == self@.1.len(),
                    own <= i <= resolution <= 15,
                    digits@ == self@.1 + repeat_digit(8, (i - own) as nat),
                decreases resolution - i,
            {
                digits.push(8);
                proof {
                    assert(self@.1 + repeat_digit(8, (i + 1 - own) as nat) =~= (self@.1
                        + repeat_digit(8, (i - own) as nat)).push(8));
                }
                i += 1;
            }
            proof {
                assert(valid_digits(digits@)) by {
                    assert forall|j: int| 0 <= j < digits@.len() implies #[trigger] digits@[j]
                        < 9 by {
                        if j >= own {
                            assert(digits@[j] == 8);
                        } else {
                            assert(digits@[j] == self@.1[j]);
                        }
                    }
                }
            }
            Ok(Some(CellId::from_valid_digits(self.face, digits.as_slice())))
        }
    }

    /// Return the least cell at `resolution` that follows this cell.
    ///
    /// This follows post-order traversal. If the target is
    /// coarser, this cell is first truncated; if it is finer, the first cell
    /// in the next same-resolution subtree is returned. The terminal southern
    /// cell returns `None` at every requested resolution.
    pub fn successor_at(&self, resolution: u8) -> (r: Result<Option<CellId>>)
        ensures
            resolution > 15 ==> r == Err::<Option<CellId>, Error>(
                Error::InvalidResolution(resolution),
            ),
            resolution <= 15 ==> (r matches Ok(s) && option_view(s) == successor_at_of(
                self@.0,
                self@.1,
                resolution as nat,
            )),
    {
        if let Err(e) = validate_resolution(resolution) {
            return Err(e);
        }
        let own = self.resolution();
        if resolution < own {
            let ancestor = match self.parent_at(resolution) {
                Ok(a) => a,
                Err(e) => return Err(e),
            };
            Ok(ancestor.successor())
        } else if resolution == own {
            proof {
                assert(self@.1 + repeat_digit(0, 0) =~= self@.1);
            }
            Ok(self.successor())
        } else {
            match self.successor() {
                None => Ok(None),
                Some(next) => {
                    let mut digits = vstd::slice::slice_to_vec(next.digits());
                    let mut i = own;
                    proof {
                        lemma_rank_round_trip(own as nat, (level_rank(self@.0, self@.1) + 1) as nat);
                    }
                    while i < resolution
                        invariant
                            own == next@.1.len(),
                            own <= i <= resolution <= 15,
                            digits@ == next@.1 + repeat_digit(0, (i - own) as nat),
                        decreases resolution - i,
                    {
                        digits.push(0);
                        proof {
                            assert(next@.1 + repeat_digit(0, (i + 1 - own) as nat) =~= (next@.1
                                + repeat_digit(0, (i - own) as nat)).push(0));
                        }
                        i += 1;
                    }
                    proof {
                        assert(valid_digits(digits@)) by {
                            assert forall|j: int| 0 <= j < digits@.len() implies #[trigger] digits@[j]
                                < 9 by {
                                if j >= own {
                                    assert(digits@[j] == 0);
                                } else {
                                    assert(digits@[j] == next@.1[j]);
                                }
                            }
                        }
                    }
                    Ok(Some(CellId::from_valid_digits(next.face, digits.as_slice())))
                },
            }
        }
    }
}

/// Number of cells at all resolutions coarser than `resolution`.
fn resolution_offset_u64(resolution: u8) -> (r: u64)
    requires
        resolution <= 16,
    ensures
        r == resolution_offset(resolution as nat),
{
    proof {
        lemma_resolution_offset_closed_form(resolution as nat);
        lemma_pow9_bounded(resolution as nat);
    }
    if resolution == 0 {
        0
    } else {
        let p = pow9_u64(resolution);
        let total = 6 * (p - 1);
        proof {
            vstd::arithmetic::div_mod::lemma_div_by_multiple(
                resolution_offset(resolution as nat) as int,
                8,
            );
            assert(total == resolution_offset(resolution as nat) * 8);
        }
        total / 8
    }
}

/// The level-order number of a valid cell is below the hierarchy's total
/// and at least the offset of its resolution.
pub proof fn lemma_level_index_range(face: Face, digits: Seq<u8>)
    requires
        valid_digits(digits),
    ensures
        resolution_offset(digits.len()) <= level_index(face, digits) < resolution_offset(
            digits.len() + 1,
        ),
        level_index(face, digits) < resolution_offset(16),
{
    lemma_level_rank_bound(face, digits);
    lemma_resolution_offset_monotone(digits.len() + 1, 16);
}

/// Distinct cells have distinct stable integer identifiers: equal
/// level-order numbers mean equal cells.
pub proof fn law_level_index_injective(f1: Face, d1: Seq<u8>, f2: Face, d2: Seq<u8>)
    requires
        valid_digits(d1),
        valid_digits(d2),
        level_index(f1, d1) == level_index(f2, d2),
    ensures
        f1 == f2,
        d1 == d2,
{
    lemma_level_index_range(f1, d1);
    lemma_level_index_range(f2, d2);
    if d1.len() < d2.len() {
        lemma_resolution_offset_monotone(d1.len() + 1, d2.len());
    } else if d2.len() < d1.len() {
        lemma_resolution_offset_monotone(d2.len() + 1, d1.len());
    }
    assert(d1.len() == d2.len());
    lemma_cell_of_own_rank(f1, d1);
    lemma_cell_of_own_rank(f2, d2);
}

/// The cell whose level-order number is `index` (for `index < offset(16)`):
/// its resolution is the one whose range of numbers holds `index`.
pub open spec fn cell_of_level_index(index: nat) -> (Face, Seq<u8>) {
    let resolution = resolution_of_index(index, 0);
    cell_of_rank(resolution, (index - resolution_offset(resolution)) as nat)
}

/// The first resolution from `start` on whose numbers reach past `index`.
pub open spec fn resolution_of_index(index: nat, start: nat) -> nat
    decreases 16 - start,
{
    if start >= 15 || index < resolution_offset(start + 1) {
        start
    } else {
        resolution_of_index(index, start + 1)
    }
}

/// The cell whose post-order number is `index` (for `index < 6 * subtree_size(0)`).
pub open spec fn cell_of_post_index(index: nat) -> (Face, Seq<u8>) {
    (face_at(index / subtree_size(0)), post_decode(index % subtree_size(0), 0))
}

impl CellId {
    /// Encode the cell as a stable resolution-major integer.
    ///
    /// This encoding is intended as a language-neutral interchange form. It
    /// covers all WGS84_003 cells through resolution 15 in fewer than 51 bits.
    pub fn to_u64(&self) -> (r: u64)
        ensures
            r == level_index(self@.0, self@.1),
            r < resolution_offset(16),
    {
        proof {
            use_type_invariant(self);
            lemma_level_index_range(self@.0, self@.1);
            lemma_resolution_offset_total();
        }
        resolution_offset_u64(self.resolution()) + self.level_rank_u64()
    }

    /// Decode a stable resolution-major integer.
    pub fn from_u64(value: u64) -> (r: Result<CellId>)
        ensures
            value < resolution_offset(16) ==> (r matches Ok(c) && level_index(c@.0, c@.1)
                == value && c@ == cell_of_level_index(value as nat)),
            value >= resolution_offset(16) ==> (r matches Err(Error::InvalidCellId(m)) && m@
                == decimal(value as nat)),
    {
        proof {
            lemma_resolution_offset_total();
        }
        let mut candidate: u8 = 0;
        while candidate <= crate::MAX_RESOLUTION
            invariant
                candidate <= 16,
                value >= resolution_offset(candidate as nat),
                candidate <= 15 ==> resolution_of_index(value as nat, candidate as nat)
                    == resolution_of_index(value as nat, 0),
            decreases 16 - candidate,
        {
            if value < resolution_offset_u64(candidate + 1) {
                proof {
                    lemma_resolution_offset_monotone((candidate + 1) as nat, 16);
                }
                let resolution = candidate;
                let within = value - resolution_offset_u64(resolution);
                proof {
                    assert(resolution_offset((resolution + 1) as nat) == resolution_offset(
                        resolution as nat,
                    ) + 6 * pow9(resolution as nat));
                    lemma_rank_round_trip(resolution as nat, within as nat);
                }
                let cell = CellId::from_level_rank(resolution, within);
                proof {
                    let r = resolution as nat;
                    assert(cell@.1.len() == r);
                    assert(level_index(cell@.0, cell@.1) == value);
                    assert(resolution_of_index(value as nat, r) == r);
                }
                return Ok(cell);
            }
            candidate += 1;
        }
        Err(Error::InvalidCellId(decimal_string(value)))
    }

    /// Return the zero-based level-order index used by the stable integer ID.
    pub fn level_order_index(&self) -> (r: u64)
        ensures
            r == level_index(self@.0, self@.1),
    {
        self.to_u64()
    }

    /// Construct a cell from its zero-based level-order index.
    pub fn from_level_order_index(index: u64) -> (r: Result<CellId>)
        ensures
            index < resolution_offset(16) ==> (r matches Ok(c) && level_index(c@.0, c@.1)
                == index && c@ == cell_of_level_index(index as nat)),
            index >= resolution_offset(16) ==> (r matches Err(
                Error::InvalidCellIndex { index: i, order: o },
            ) && i == index && o@ == "level"@),
    {
        match CellId::from_u64(index) {
            Ok(c) => Ok(c),
            Err(_) => Err(Error::InvalidCellIndex { index, order: "level" }),
        }
    }

    /// Return the zero-based post-order index in the complete hierarchy.
    ///
    /// Descendants precede their parent, child subtrees are ordered `0..=8`,
    /// and the hierarchy is finite at [`crate::MAX_RESOLUTION`].
    pub fn post_order_index(&self) -> (r: u64)
        ensures
            r == post_index(self@.0, self@.1),
    {
        proof {
            use_type_invariant(self);
        }
        self.post
    }

    /// Construct a cell from its zero-based post-order index.
    pub fn from_post_order_index(index: u64) -> (r: Result<CellId>)
        ensures
            index < 6 * subtree_size(0) ==> (r matches Ok(c) && post_index(c@.0, c@.1) == index
                && c@ == cell_of_post_index(index as nat) && valid_digits(c@.1)),
            index >= 6 * subtree_size(0) ==> (r matches Err(
                Error::InvalidCellIndex { index: i, order: o },
            ) && i == index && o@ == "post"@),
    {
        proof {
            lemma_subtree_size_values();
        }
        let root_size = subtree_size_u64(0);
        let total = 6 * root_size;
        if index >= total {
            return Err(Error::InvalidCellIndex { index, order: "post" });
        }
        let face_number = index / root_size;
        proof {
            lemma_fundamental_div_mod(index as int, root_size as int);
            assert(face_number < 6) by (nonlinear_arith)
                requires
                    index < 6 * root_size,
                    index == root_size * face_number + index % root_size,
                    index % root_size >= 0,
                    root_size >= 1,
            ;
        }
        let face = Face::from_number(face_number as u8).unwrap();
        let mut remainder = index % root_size;
        let ghost start = remainder as nat;
        proof {
            lemma_fundamental_div_mod(index as int, root_size as int);
        }
        let mut digits: Vec<u8> = Vec::new();
        let mut resolution: u8 = 0;
        proof {
            lemma_post_encode_decode(start, 0);
            assert(post_decode(start, 0) =~= digits@ + post_decode(start, 0));
        }
        loop
            invariant
                resolution <= 15,
                face_number < 6,
                face == face_at(face_number as nat),
                start == (index as nat) % subtree_size(0),
                face_number == (index as nat) / subtree_size(0),
                start < subtree_size(0),
                digits@.len() == resolution,
                remainder < subtree_size(resolution as nat),
                digits@ + post_decode(remainder as nat, resolution as nat) == post_decode(start, 0),
            decreases 15 - resolution,
        {
            proof {
                lemma_subtree_size_values();
            }
            let subtree = subtree_size_u64(resolution);
            if remainder == subtree - 1 {
                proof {
                    assert(post_decode(remainder as nat, resolution as nat) =~= Seq::empty());
                    assert(digits@ =~= post_decode(start, 0));
                    lemma_post_encode_decode(start, 0);
                    lemma_face_at_round_trip(face_number as nat);
                    vstd::arithmetic::div_mod::lemma_fundamental_div_mod(
                        index as int,
                        subtree_size(0) as int,
                    );
                }
                return Ok(CellId::from_valid_digits(face, digits.as_slice()));
            }
            proof {
                if resolution == 15 {
                    assert(subtree_size(15) == 1);
                }
            }
            let child_size = subtree_size_u64(resolution + 1);
            let digit = remainder / child_size;
            proof {
                lemma_fundamental_div_mod(remainder as int, child_size as int);
                assert(digit < 9) by (nonlinear_arith)
                    requires
                        remainder + 1 < 1 + 9 * child_size,
                        remainder == child_size * digit + remainder % child_size,
                        remainder % child_size >= 0,
                        child_size >= 1,
                ;
                let tail = post_decode((remainder % child_size) as nat, (resolution + 1) as nat);
                assert(post_decode(remainder as nat, resolution as nat) == seq![digit as u8] + tail);
                assert(digits@.push(digit as u8) + tail =~= digits@ + (seq![digit as u8] + tail));
            }
            digits.push(digit as u8);
            remainder = remainder % child_size;
            resolution += 1;
        }
    }

    /// Return the identifier text, such as `Q381`.
    pub fn to_string(&self) -> (r: String)
        ensures
            r@ == cell_text(self@.0, self@.1),
    {
        let mut text = face_string(self.face);
        let digits = self.digits();
        let n = digits.len();
        let mut i: usize = 0;
        while i < n
            invariant
                n == digits@.len(),
                valid_digits(digits@),
                i <= n,
                text@ == seq![face_letter(self@.0)] + digits_text(digits@.take(i as int)),
            decreases n - i,
        {
            push_digit(&mut text, digits[i] as u64);
            proof {
                assert(digits_text(digits@.take(i + 1)) =~= digits_text(digits@.take(i as int)).push(
                    digit_char(digits@[i as int] as nat),
                ));
            }
            i += 1;
        }
        proof {
            assert(digits@.take(n as int) =~= digits@);
        }
        text
    }

    /// Read an identifier such as `Q381`: a face letter and up to fifteen
    /// child digits `0..=8`.
    pub fn parse(value: &str) -> (r: Result<CellId>)
        ensures
            value@.len() == 0 ==> (r matches Err(Error::InvalidCellId(m)) && m@ == value@),
            value@.len() > 0 && !is_face_letter(value@[0]) ==> (r matches Err(
                Error::InvalidCellId(m),
            ) && m@ == seq![value@[0]]),
            value@.len() > 0 && is_face_letter(value@[0]) && !all_digit_chars(value@.drop_first())
                ==> (r matches Err(Error::InvalidCellId(m)) && m@ == value@),
            value@.len() > 16 && is_face_letter(value@[0]) && all_digit_chars(value@.drop_first())
                ==> r == Err::<CellId, Error>(Error::InvalidResolution(
                if value@.len() - 1 > 255 {
                    255
                } else {
                    (value@.len() - 1) as u8
                },
            )),
            cell_from_text(value@) matches Some(cell) ==> (r matches Ok(c) && c@ == cell),
    {
        let n = value.unicode_len();
        if n == 0 {
            return Err(Error::InvalidCellId(value.to_owned()));
        }
        let face = match Face::from_letter(value.get_char(0)) {
            Ok(face) => face,
            Err(e) => return Err(e),
        };
        let mut digits: Vec<u8> = Vec::new();
        let mut i: usize = 1;
        while i < n
            invariant
                n == value@.len(),
                1 <= i <= n,
                is_face_letter(value@[0]),
                face == face_of_letter(value@[0]),
                digits@.len() == i - 1,
                forall|j: int| 1 <= j < i ==> #[trigger] is_digit_char(value@[j]),
                forall|j: int| 1 <= j < i ==> digits@[j - 1] == char_digit(#[trigger] value@[j]),
            decreases n - i,
        {
            let c = value.get_char(i);
            match digit_of_char(c) {
                Some(d) => digits.push(d),
                None => {
                    proof {
                        assert(value@.drop_first()[i - 1] == c);
                    }
                    return Err(Error::InvalidCellId(value.to_owned()));
                },
            }
            i += 1;
        }
        proof {
            let rest = value@.drop_first();
            assert forall|j: int| 0 <= j < rest.len() implies #[trigger] is_digit_char(rest[j]) by {
                assert(rest[j] == value@[j + 1]);
            }
            assert(digits@ =~= rest.map_values(|c: char| char_digit(c)));
            assert forall|j: int| 0 <= j < digits@.len() implies #[trigger] digits@[j] < 9 by {
                assert(rest[j] == value@[j + 1]);
                lemma_char_digit(value@[j + 1]);
            }
        }
        CellId::new(face, digits)
    }
}

impl core::str::FromStr for CellId {
    type Err = Error;

    fn from_str(value: &str) -> (r: Result<Self>)
        ensures
            value@.len() == 0 ==> (r matches Err(Error::InvalidCellId(m)) && m@ == value@),
            value@.len() > 0 && !is_face_letter(value@[0]) ==> (r matches Err(
                Error::InvalidCellId(m),
            ) && m@ == seq![value@[0]]),
            value@.len() > 0 && is_face_letter(value@[0]) && !all_digit_chars(value@.drop_first())
                ==> (r matches Err(Error::InvalidCellId(m)) && m@ == value@),
            value@.len() > 16 && is_face_letter(value@[0]) && all_digit_chars(value@.drop_first())
                ==> r == Err::<CellId, Error>(Error::InvalidResolution(
                if value@.len() - 1 > 255 {
                    255
                } else {
                    (value@.len() - 1) as u8
                },
            )),
            cell_from_text(value@) matches Some(cell) ==> (r matches Ok(c) && c@ == cell),
    {
        CellId::parse(value)
    }
}

/// Whether every character is a child digit `0..=8`.
pub open spec fn all_digit_chars(text: Seq<char>) -> bool {
    forall|i: int| 0 <= i < text.len() ==> #[trigger] is_digit_char(text[i])
}

/// The cell written by an identifier text, if the text is a valid identifier.
pub open spec fn cell_from_text(text: Seq<char>) -> Option<(Face, Seq<u8>)> {
    if 1 <= text.len() <= 16 && is_face_letter(text[0]) && all_digit_chars(text.drop_first()) {
        Some((face_of_letter(text[0]), text.drop_first().map_values(|c: char| char_digit(c))))
    } else {
        None
    }
}

/// A digit character writes a child digit, and writing that digit gives the
/// character back.
pub proof fn lemma_char_digit(c: char)
    requires
        is_digit_char(c),
    ensures
        char_digit(c) < 9,
        digit_char(char_digit(c) as nat) == c,
{
    let n = c as u32;
    assert(48 <= n <= 56);
    if n == 48 {
        assert(c == '0');
    } else if n == 49 {
        assert(c == '1');
    } else if n == 50 {
        assert(c == '2');
    } else if n == 51 {
        assert(c == '3');
    } else if n == 52 {
        assert(c == '4');
    } else if n == 53 {
        assert(c == '5');
    } else if n == 54 {
        assert(c == '6');
    } else if n == 55 {
        assert(c == '7');
    } else {
        assert(c == '8');
    }
}

/// The child digit of a digit character.
fn digit_of_char(c: char) -> (r: Option<u8>)
    ensures
        is_digit_char(c) ==> r == Some(char_digit(c)) && char_digit(c) < 9,
        !is_digit_char(c) ==> r is None,
{
    match c {
        '0' => Some(0),
        '1' => Some(1),
        '2' => Some(2),
        '3' => Some(3),
        '4' => Some(4),
        '5' => Some(5),
        '6' => Some(6),
        '7' => Some(7),
        '8' => Some(8),
        _ => None,
    }
}

/// Post-order comparison of relative digits below one cell: the first
/// differing digit decides, and a descendant comes before its ancestor.
pub open spec fn digits_before(a: Seq<u8>, b: Seq<u8>) -> bool
    decreases a.len(),
{
    if a.len() == 0 {
        false
    } else if b.len() == 0 {
        true
    } else if a[0] != b[0] {
        a[0] < b[0]
    } else {
        digits_before(a.drop_first(), b.drop_first())
    }
}

/// Post-order comparison of two cells: faces in order `N..S`, then the
/// digits as in [`digits_before`].
pub open spec fn cell_before(a: (Face, Seq<u8>), b: (Face, Seq<u8>)) -> bool {
    face_index(a.0) < face_index(b.0) || (a.0 == b.0 && digits_before(a.1, b.1))
}

proof fn lemma_post_rel_order(a: Seq<u8>, b: Seq<u8>, depth: nat)
    requires
        forall|i: int| 0 <= i < a.len() ==> #[trigger] a[i] < 9,
        forall|i: int| 0 <= i < b.len() ==> #[trigger] b[i] < 9,
        depth + a.len() <= 15,
        depth + b.len() <= 15,
    ensures
        digits_before(a, b) <==> post_rel(a, depth) < post_rel(b, depth),
    decreases a.len(),
{
    lemma_post_rel_bound(a, depth);
    lemma_post_rel_bound(b, depth);
    if a.len() > 0 && b.len() > 0 {
        let a1 = a.drop_first();
        let b1 = b.drop_first();
        assert forall|i: int| 0 <= i < a1.len() implies #[trigger] a1[i] < 9 by {
            assert(a1[i] == a[i + 1]);
        }
        assert forall|i: int| 0 <= i < b1.len() implies #[trigger] b1[i] < 9 by {
            assert(b1[i] == b[i + 1]);
        }
        lemma_post_rel_bound(a1, depth + 1);
        lemma_post_rel_bound(b1, depth + 1);
        let s = subtree_size(depth + 1);
        let ra = post_rel(a1, depth + 1);
        let rb = post_rel(b1, depth + 1);
        let x = a[0] as nat;
        let y = b[0] as nat;
        if x < y {
            assert(x * s + ra < y * s + rb) by (nonlinear_arith)
                requires
                    x < y,
                    ra < s,
            ;
        } else if y < x {
            assert(y * s + rb < x * s + ra) by (nonlinear_arith)
                requires
                    y < x,
                    rb < s,
            ;
        } else {
            lemma_post_rel_order(a1, b1, depth + 1);
        }
    }
}

/// Post-order: the comparison of faces, first differing digits, and
/// descendants before ancestors orders cells exactly as their post-order
/// numbers do.
pub proof fn law_post_order_matches_comparison(a: (Face, Seq<u8>), b: (Face, Seq<u8>))
    requires
        valid_digits(a.1),
        valid_digits(b.1),
    ensures
        cell_before(a, b) <==> post_index(a.0, a.1) < post_index(b.0, b.1),
{
    lemma_post_rel_bound(a.1, 0);
    lemma_post_rel_bound(b.1, 0);
    lemma_subtree_size_values();
    lemma_face_index_round_trip(a.0);
    lemma_face_index_round_trip(b.0);
    lemma_post_rel_order(a.1, b.1, 0);
    let s = subtree_size(0);
    let fa = face_index(a.0);
    let fb = face_index(b.0);
    let ra = post_rel(a.1, 0);
    let rb = post_rel(b.1, 0);
    if fa < fb {
        assert(fa * s + ra < fb * s + rb) by (nonlinear_arith)
            requires
                fa < fb,
                ra < s,
        ;
    } else if fb < fa {
        assert(fb * s + rb < fa * s + ra) by (nonlinear_arith)
            requires
                fb < fa,
                rb < s,
        ;
    } else {
        assert(a.0 == b.0) by {
            assert(face_at(fa) == a.0);
            assert(face_at(fb) == b.0);
        }
    }
}

/// Post-order numbers round-trip: decoding a cell's number gives the cell.
pub proof fn law_post_index_round_trip(face: Face, digits: Seq<u8>)
    requires
        valid_digits(digits),
    ensures
        post_index(face, digits) < 6 * subtree_size(0),
        cell_of_post_index(post_index(face, digits)) == (face, digits),
{
    lemma_post_rel_bound(digits, 0);
    lemma_subtree_size_values();
    lemma_face_index_round_trip(face);
    vstd::arithmetic::div_mod::lemma_fundamental_div_mod_converse(
        post_index(face, digits) as int,
        subtree_size(0) as int,
        face_index(face) as int,
        post_rel(digits, 0) as int,
    );
    lemma_post_decode_encode(digits, 0);
}

/// Every post-order number below the hierarchy's size is the number of the
/// valid cell that it decodes to.
pub proof fn law_post_index_onto(index: nat)
    requires
        index < 6 * subtree_size(0),
    ensures
        valid_digits(cell_of_post_index(index).1),
        post_index(cell_of_post_index(index).0, cell_of_post_index(index).1) == index,
{
    lemma_subtree_size_values();
    let s = subtree_size(0);
    lemma_fundamental_div_mod(index as int, s as int);
    assert(index / s < 6) by (nonlinear_arith)
        requires
            index < 6 * s,
            index == s * (index / s) + index % s,
            index % s >= 0,
            s >= 1,
    ;
    lemma_face_at_round_trip(index / s);
    lemma_post_encode_decode(index % s, 0);
    assert(s * (index / s) == (index / s) * s) by (nonlinear_arith);
}

/// Level-order numbers round-trip: decoding a cell's number gives the cell.
pub proof fn law_level_index_round_trip(face: Face, digits: Seq<u8>)
    requires
        valid_digits(digits),
    ensures
        level_index(face, digits) < resolution_offset(16),
        cell_of_level_index(level_index(face, digits)) == (face, digits),
{
    lemma_level_index_range(face, digits);
    let index = level_index(face, digits);
    let r = digits.len();
    lemma_resolution_of_index(index, r, 0);
    lemma_cell_of_own_rank(face, digits);
}

proof fn lemma_resolution_of_index(index: nat, r: nat, start: nat)
    requires
        start <= r <= 15,
        resolution_offset(r) <= index < resolution_offset(r + 1),
    ensures
        resolution_of_index(index, start) == r,
    decreases r - start,
{
    if start < r {
        lemma_resolution_offset_monotone(start + 1, r);
        lemma_resolution_of_index(index, r, start + 1);
    }
}

/// The identifier text of a valid cell reads back as that cell.
pub proof fn law_text_round_trip(face: Face, digits: Seq<u8>)
    requires
        valid_digits(digits),
    ensures
        cell_from_text(cell_text(face, digits)) == Some((face, digits)),
{
    let text = cell_text(face, digits);
    let rest = text.drop_first();
    assert(rest =~= digits_text(digits));
    assert forall|i: int| 0 <= i < rest.len() implies #[trigger] is_digit_char(rest[i]) by {
        assert(rest[i] == digit_char(digits[i] as nat));
    }
    let read = rest.map_values(|c: char| char_digit(c));
    assert forall|i: int| 0 <= i < digits.len() implies #[trigger] read[i] == digits[i] by {
        assert(rest[i] == digit_char(digits[i] as nat));
        assert(digits[i] < 9);
    }
    assert(read =~= digits);
    lemma_face_index_round_trip(face);
}

/// Successor and predecessor undo one another at every resolution.
pub proof fn law_successor_predecessor_inverse(face: Face, digits: Seq<u8>)
    requires
        valid_digits(digits),
    ensures
        successor_of(face, digits) matches Some(next) ==> predecessor_of(next.0, next.1) == Some(
            (face, digits),
        ),
        predecessor_of(face, digits) matches Some(previous) ==> successor_of(
            previous.0,
            previous.1,
        ) == Some((face, digits)),
{
    let r = digits.len();
    let k = level_rank(face, digits);
    lemma_level_rank_bound(face, digits);
    lemma_cell_of_own_rank(face, digits);
    if k + 1 < cells_at(r) {
        lemma_rank_round_trip(r, k + 1);
    }
    if k > 0 {
        lemma_rank_round_trip(r, (k - 1) as nat);
    }
}

/// The successor of a cell is the next cell in level order.
pub proof fn law_successor_is_next_level_index(face: Face, digits: Seq<u8>)
    requires
        valid_digits(digits),
    ensures
        successor_of(face, digits) matches Some(next) ==> level_index(next.0, next.1)
            == level_index(face, digits) + 1,
{
    let r = digits.len();
    let k = level_rank(face, digits);
    if k + 1 < cells_at(r) {
        lemma_rank_round_trip(r, k + 1);
    }
}

/// A child's parent is the cell itself, and every cell contains its children.
pub proof fn law_child_parent(face: Face, digits: Seq<u8>, digit: u8)
    ensures
        digits.push(digit).drop_last() == digits,
        digits.is_prefix_of(digits.push(digit)),
{
    assert(digits.push(digit).drop_last() =~= digits);
    assert(digits.push(digit).subrange(0, digits.len() as int) =~= digits);
}

/// The descendants listed at a resolution are exactly the cells that the
/// cell contains there, each once.
pub proof fn law_descendants_complete(digits: Seq<u8>, extended: Seq<u8>)
    requires
        valid_digits(extended),
        digits.is_prefix_of(extended),
    ensures
        ({
            let width = (extended.len() - digits.len()) as nat;
            let i = digits_value(extended.subrange(digits.len() as int, extended.len() as int));
            &&& i < pow9(width)
            &&& extended == digits + to_digits(i, width)
        }),
{
    let suffix = extended.subrange(digits.len() as int, extended.len() as int);
    assert forall|i: int| 0 <= i < suffix.len() implies #[trigger] suffix[i] < 9 by {
        assert(suffix[i] == extended[i + digits.len()]);
    }
    lemma_digits_value_bound(suffix);
    lemma_digits_round_trip(suffix);
    assert(extended =~= digits + suffix);
}

/// Different positions in the list of descendants hold different cells.
pub proof fn law_descendants_distinct(digits: Seq<u8>, width: nat, i: nat, j: nat)
    requires
        i < pow9(width),
        j < pow9(width),
        i != j,
    ensures
        digits + to_digits(i, width) != digits + to_digits(j, width),
{
    lemma_to_digits_value(i, width);
    lemma_to_digits_value(j, width);
    lemma_to_digits_shape(i, width);
    lemma_to_digits_shape(j, width);
    if digits + to_digits(i, width) == digits + to_digits(j, width) {
        assert((digits + to_digits(i, width)).subrange(digits.len() as int, (digits.len()
            + width) as int) =~= to_digits(i, width));
        assert((digits + to_digits(j, width)).subrange(digits.len() as int, (digits.len()
            + width) as int) =~= to_digits(j, width));
    }
}

/// Four quarter turns bring every digit back.
#[verifier::spinoff_prover]
pub proof fn law_full_rotation(digits: Seq<u8>)
    requires
        valid_digits(digits),
    ensures
        rotate_digits(digits, 4) == digits,
{
    assert forall|i: int| 0 <= i < digits.len() implies #[trigger] rotate_digits(digits, 4)[i]
        == digits[i] by {
        let d = digits[i];
        reveal_with_fuel(rotate_digit, 5);
        assert(d < 9);
        assert(rotate_digit(d, 4) == d);
    }
    assert(rotate_digits(digits, 4) =~= digits);
}

/// Quarter turns compose: turning by `a` and then by `b` turns by `a + b`.
pub proof fn law_rotation_composes(digits: Seq<u8>, a: nat, b: nat)
    ensures
        rotate_digits(rotate_digits(digits, a), b) == rotate_digits(digits, a + b),
{
    assert forall|i: int| 0 <= i < digits.len() implies #[trigger] rotate_digits(
        rotate_digits(digits, a),
        b,
    )[i] == rotate_digits(digits, a + b)[i] by {
        lemma_rotate_digit_add(digits[i], a, b);
    }
    assert(rotate_digits(rotate_digits(digits, a), b) =~= rotate_digits(digits, a + b));
}

proof fn lemma_rotate_digit_add(d: u8, a: nat, b: nat)
    ensures
        rotate_digit(rotate_digit(d, a), b) == rotate_digit(d, a + b),
    decreases b,
{
    if b > 0 {
        lemma_rotate_digit_add(d, a, (b - 1) as nat);
    }
}

impl CellId {
    /// Whether this cell comes strictly before `other` in post-order.
    pub fn precedes(&self, other: &CellId) -> (r: bool)
        ensures
            r == cell_before(self@, other@),
            r == (post_index(self@.0, self@.1) < post_index(other@.0, other@.1)),
    {
        proof {
            use_type_invariant(self);
            use_type_invariant(other);
            law_post_order_matches_comparison(self@, other@);
        }
        self.post < other.post
    }
}

/// Post-order position of a cell extended by one more digit.
pub proof fn lemma_post_rel_push(digits: Seq<u8>, depth: nat, x: u8)
    requires
        forall|i: int| 0 <= i < digits.len() ==> #[trigger] digits[i] < 9,
        x < 9,
        depth + digits.len() < 15,
    ensures
        post_rel(digits.push(x), depth) + subtree_size(depth + digits.len()) == post_rel(digits, depth)
            + x as nat * subtree_size(depth + digits.len() + 1) + subtree_size(
            depth + digits.len() + 1,
        ),
    decreases digits.len(),
{
    lemma_subtree_size_monotone(depth + digits.len());
    lemma_subtree_size_monotone(depth + digits.len() + 1);
    if digits.len() == 0 {
        let one = digits.push(x);
        assert(one.drop_first() =~= Seq::<u8>::empty());
        assert(one[0] == x);
        assert(post_rel(one.drop_first(), depth + 1) == (subtree_size(depth + 1) - 1) as nat);
        assert(post_rel(one, depth) == x as nat * subtree_size(depth + 1) + post_rel(
            one.drop_first(),
            depth + 1,
        ));
        assert(subtree_size(depth) == 1 + 9 * subtree_size(depth + 1));
    } else {
        let rest = digits.drop_first();
        assert forall|i: int| 0 <= i < rest.len() implies #[trigger] rest[i] < 9 by {
            assert(rest[i] == digits[i + 1]);
        }
        lemma_post_rel_push(rest, depth + 1, x);
        assert(digits.push(x).drop_first() =~= rest.push(x));
        assert(digits.push(x)[0] == digits[0]);
    }
}

/// A cell's post-order position is at least the size of its subtree less one.
pub proof fn lemma_post_rel_lower(digits: Seq<u8>, depth: nat)
    requires
        forall|i: int| 0 <= i < digits.len() ==> #[trigger] digits[i] < 9,
        depth + digits.len() <= 15,
    ensures
        post_rel(digits, depth) + 1 >= subtree_size(depth + digits.len()),
    decreases digits.len(),
{
    if digits.len() > 0 {
        let rest = digits.drop_first();
        assert forall|i: int| 0 <= i < rest.len() implies #[trigger] rest[i] < 9 by {
            assert(rest[i] == digits[i + 1]);
        }
        lemma_post_rel_lower(rest, depth + 1);
    }
}

/// The positions strictly inside a cell's subtree, below the cell itself,
/// belong to its proper descendants.
pub proof fn lemma_post_rel_interval(c: Seq<u8>, e: Seq<u8>, depth: nat)
    requires
        forall|i: int| 0 <= i < c.len() ==> #[trigger] c[i] < 9,
        forall|i: int| 0 <= i < e.len() ==> #[trigger] e[i] < 9,
        depth + c.len() <= 15,
        depth + e.len() <= 15,
        post_rel(c, depth) < post_rel(e, depth) + subtree_size(depth + c.len()),
        post_rel(e, depth) < post_rel(c, depth),
    ensures
        c.len() < e.len(),
        c == e.subrange(0, c.len() as int),
    decreases c.len(),
{
    lemma_post_rel_bound(c, depth);
    lemma_post_rel_bound(e, depth);
    lemma_subtree_size_monotone(depth);
    if e.len() == 0 {
        assert(false);
    }
    if c.len() == 0 {
        assert(c =~= e.subrange(0, 0));
    } else {
        let c1 = c.drop_first();
        let e1 = e.drop_first();
        assert forall|i: int| 0 <= i < c1.len() implies #[trigger] c1[i] < 9 by {
            assert(c1[i] == c[i + 1]);
        }
        assert forall|i: int| 0 <= i < e1.len() implies #[trigger] e1[i] < 9 by {
            assert(e1[i] == e[i + 1]);
        }
        lemma_post_rel_bound(c1, depth + 1);
        lemma_post_rel_bound(e1, depth + 1);
        lemma_post_rel_lower(c1, depth + 1);
        lemma_subtree_size_monotone(depth + 1);
        let s = subtree_size(depth + 1);
        let x = c[0] as nat;
        let y = e[0] as nat;
        let rc = post_rel(c1, depth + 1);
        let re = post_rel(e1, depth + 1);
        let sc = subtree_size(depth + c.len());
        assert(rc + 1 >= sc);
        if x != y {
            if x < y {
                assert(x * s + rc < y * s + re) by (nonlinear_arith)
                    requires
                        x < y,
                        rc < s,
                ;
            } else {
                assert(y * s + re + sc <= x * s + rc) by (nonlinear_arith)
                    requires
                        y < x,
                        re < s,
                        rc + 1 >= sc,
                ;
            }
            assert(false);
        }
        lemma_post_rel_interval(c1, e1, depth + 1);
        assert(c =~= e.subrange(0, c.len() as int)) by {
            assert forall|i: int| 0 <= i < c.len() implies c[i] == e.subrange(0, c.len() as int)[i] by {
                if i > 0 {
                    assert(c[i] == c1[i - 1]);
                    assert(e[i] == e1[i - 1]);
                }
            }
        }
    }
}

/// A parent's post-order number follows that of its last child.
pub proof fn law_parent_follows_last_child(face: Face, digits: Seq<u8>)
    requires
        valid_digits(digits),
        digits.len() < 15,
    ensures
        post_index(face, digits.push(8)) + 1 == post_index(face, digits),
{
    lemma_post_rel_push(digits, 0, 8);
    lemma_subtree_size_values();
}

/// Consecutive siblings are one subtree apart in post-order.
pub proof fn law_sibling_distance(face: Face, digits: Seq<u8>, x: u8)
    requires
        valid_digits(digits),
        digits.len() < 15,
        x < 8,
    ensures
        post_index(face, digits.push(x)) + subtree_size(digits.len() + 1) == post_index(
            face,
            digits.push((x + 1) as u8),
        ),
{
    lemma_post_rel_push(digits, 0, x);
    lemma_post_rel_push(digits, 0, (x + 1) as u8);
    let s = subtree_size(digits.len() + 1);
    assert((x + 1) as nat * s == x as nat * s + s) by (nonlinear_arith);
}

/// Every cell whose post-order number lies strictly between a cell's number
/// less its subtree size and the cell's own number is a proper descendant of
/// that cell.
pub proof fn law_post_interval_is_subtree(c: CellView, e: CellView)
    requires
        valid_digits(c.1),
        valid_digits(e.1),
        post_index(c.0, c.1) < post_index(e.0, e.1) + subtree_size(c.1.len()),
        post_index(e.0, e.1) < post_index(c.0, c.1),
    ensures
        c.0 == e.0,
        c.1.len() < e.1.len(),
        c.1.is_prefix_of(e.1),
{
    lemma_post_rel_bound(c.1, 0);
    lemma_post_rel_bound(e.1, 0);
    lemma_post_rel_lower(c.1, 0);
    lemma_subtree_size_values();
    lemma_face_index_round_trip(c.0);
    lemma_face_index_round_trip(e.0);
    let s = subtree_size(0);
    let fc = face_index(c.0);
    let fe = face_index(e.0);
    let rc = post_rel(c.1, 0);
    let re = post_rel(e.1, 0);
    let sc = subtree_size(c.1.len());
    if fc < fe {
        assert(fc * s + rc < fe * s + re) by (nonlinear_arith)
            requires
                fc < fe,
                rc < s,
        ;
    }
    if fe < fc {
        assert(fe * s + re + sc <= fc * s + rc) by (nonlinear_arith)
            requires
                fe < fc,
                re < s,
                rc + 1 >= sc,
        ;
    }
    assert(fc == fe);
    assert(c.0 == e.0) by {
        assert(face_at(fc) == c.0);
        assert(face_at(fe) == e.0);
    }
    lemma_post_rel_interval(c.1, e.1, 0);
}

/// Text of an invalid identifier: the face letter and every digit in decimal.
fn digits_message(face: Face, digits: &Vec<u8>) -> (r: String)
    ensures
        r@ == seq![face_letter(face)] + bytes_text(digits@),
{
    let mut message = face_string(face);
    let n = digits.len();
    let mut i: usize = 0;
    while i < n
        invariant
            n == digits@.len(),
            i <= n,
            message@ == seq![face_letter(face)] + bytes_text(digits@.take(i as int)),
        decreases n - i,
    {
        push_decimal(&mut message, digits[i] as u64);
        proof {
            assert(digits@.take(i + 1).drop_last() =~= digits@.take(i as int));
            assert(digits@.take(i + 1).last() == digits@[i as int]);
        }
        i += 1;
    }
    assert(digits@.take(n as int) =~= digits@);
    message
}

/// Compute the post-order number of a cell with valid digits.
fn compute_post_index(face: Face, digits: &[u8]) -> (r: u64)
    requires
        valid_digits(digits@),
    ensures
        r == post_index(face, digits@),
{
    proof {
        lemma_subtree_size_values();
        lemma_post_rel_bound(digits@, 0);
        lemma_face_index_round_trip(face);
    }
    let n = digits.len();
    let mut acc: u64 = face.number() as u64 * subtree_size_u64(0);
    let mut i: usize = 0;
    assert(digits@.skip(0) =~= digits@);
    while i < n
        invariant
            n == digits@.len(),
            valid_digits(digits@),
            i <= n,
            acc + post_rel(digits@.skip(i as int), i as nat) == post_index(face, digits@),
            post_index(face, digits@) < 6 * 231627523606480,
        decreases n - i,
    {
        let ghost rest = digits@.skip(i as int);
        proof {
            assert(rest.drop_first() =~= digits@.skip(i + 1));
            assert(rest[0] == digits@[i as int]);
            lemma_subtree_size_values();
        }
        acc = acc + digits[i] as u64 * subtree_size_u64((i + 1) as u8);
        i += 1;
    }
    proof {
        assert(digits@.skip(n as int).len() == 0);
        lemma_subtree_size_values();
    }
    acc + subtree_size_u64(n as u8) - 1
}

/// Equal post-order numbers mean equal cells.
pub proof fn lemma_post_index_injective(f1: Face, d1: Seq<u8>, f2: Face, d2: Seq<u8>)
    requires
        valid_digits(d1),
        valid_digits(d2),
        post_index(f1, d1) == post_index(f2, d2),
    ensures
        f1 == f2,
        d1 == d2,
{
    lemma_post_rel_bound(d1, 0);
    lemma_post_rel_bound(d2, 0);
    lemma_subtree_size_values();
    let s = subtree_size(0);
    vstd::arithmetic::div_mod::lemma_fundamental_div_mod_converse(
        post_index(f1, d1) as int,
        s as int,
        face_index(f1) as int,
        post_rel(d1, 0) as int,
    );
    vstd::arithmetic::div_mod::lemma_fundamental_div_mod_converse(
        post_index(f2, d2) as int,
        s as int,
        face_index(f2) as int,
        post_rel(d2, 0) as int,
    );
    lemma_face_index_round_trip(f1);
    lemma_face_index_round_trip(f2);
    lemma_post_decode_encode(d1, 0);
    lemma_post_decode_encode(d2, 0);
}

/// Size of the complete subtree of a cell at `resolution`.
pub(crate) fn subtree_size_u64(resolution: u8) -> (r: u64)
    requires
        resolution <= 15,
    ensures
        r == subtree_size(resolution as nat),
{
    proof {
        lemma_subtree_size_values();
    }
    let mut size: u64 = 1;
    let mut level: u8 = 15;
    while level > resolution
        invariant
            resolution <= level <= 15,
            size == subtree_size(level as nat),
        decreases level,
    {
        proof {
            lemma_subtree_size_values();
        }
        level -= 1;
        size = 1 + 9 * size;
    }
    size
}

} // verus!

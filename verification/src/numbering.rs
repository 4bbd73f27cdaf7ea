//! Base-9 arithmetic behind the level-order and post-order numberings.
//!
//! A cell below a face is a sequence of child digits `0..=8`. Read as a
//! big-endian base-9 number it gives the cell's rank among the cells of its
//! resolution; the complete hierarchy down to resolution 15, traversed with
//! descendants before their parent, gives the post-order numbering.

use vstd::prelude::*;
use vstd::arithmetic::div_mod::{lemma_fundamental_div_mod, lemma_div_pos_is_pos};

verus! {

/// `9` raised to the power `n`.
pub open spec fn pow9(n: nat) -> nat
    decreases n,
{
    if n == 0 {
        1
    } else {
        9 * pow9((n - 1) as nat)
    }
}

/// Child digits of a cell of resolution at most 15.
pub open spec fn valid_digits(digits: Seq<u8>) -> bool {
    &&& digits.len() <= 15
    &&& forall|i: int| 0 <= i < digits.len() ==> #[trigger] digits[i] < 9
}

/// The digits read as a big-endian base-9 number.
pub open spec fn digits_value(digits: Seq<u8>) -> nat
    decreases digits.len(),
{
    if digits.len() == 0 {
        0
    } else {
        digits_value(digits.drop_last()) * 9 + digits.last() as nat
    }
}

/// The `width` least significant base-9 digits of `value`, big-endian.
pub open spec fn to_digits(value: nat, width: nat) -> Seq<u8>
    decreases width,
{
    if width == 0 {
        Seq::empty()
    } else {
        to_digits(value / 9, (width - 1) as nat).push((value % 9) as u8)
    }
}

/// Number of cells in the complete hierarchy below (and including) one cell
/// of `resolution`, down to resolution 15.
pub open spec fn subtree_size(resolution: nat) -> nat
    decreases 15 - resolution,
{
    if resolution >= 15 {
        1
    } else {
        1 + 9 * subtree_size(resolution + 1)
    }
}

/// Post-order position of the cell with relative `digits` inside the
/// complete subtree of a cell at resolution `depth`: child subtrees come in
/// digit order and the subtree's root comes last.
pub open spec fn post_rel(digits: Seq<u8>, depth: nat) -> nat
    decreases digits.len(),
{
    if digits.len() == 0 {
        (subtree_size(depth) - 1) as nat
    } else {
        digits[0] as nat * subtree_size(depth + 1) + post_rel(digits.drop_first(), depth + 1)
    }
}

/// Relative digits of the cell at post-order position `rem` inside the
/// complete subtree of a cell at resolution `depth`.
pub open spec fn post_decode(rem: nat, depth: nat) -> Seq<u8>
    decreases 15 - depth,
{
    if depth >= 15 || rem + 1 >= subtree_size(depth) {
        Seq::empty()
    } else {
        seq![(rem / subtree_size(depth + 1)) as u8] + post_decode(
            rem % subtree_size(depth + 1),
            depth + 1,
        )
    }
}

/// Number of cells at all resolutions coarser than `resolution`.
pub open spec fn resolution_offset(resolution: nat) -> nat
    decreases resolution,
{
    if resolution == 0 {
        0
    } else {
        resolution_offset((resolution - 1) as nat) + 6 * pow9((resolution - 1) as nat)
    }
}

pub proof fn lemma_pow9_positive(n: nat)
    ensures
        pow9(n) >= 1,
    decreases n,
{
    if n > 0 {
        lemma_pow9_positive((n - 1) as nat);
    }
}

pub proof fn lemma_pow9_monotone(m: nat, n: nat)
    requires
        m <= n,
    ensures
        pow9(m) <= pow9(n),
    decreases n,
{
    if m < n {
        lemma_pow9_monotone(m, (n - 1) as nat);
        lemma_pow9_positive((n - 1) as nat);
    }
}

/// The powers of nine up to the finest resolution.
pub proof fn lemma_pow9_values()
    ensures
        pow9(0) == 1,
        pow9(1) == 9,
        pow9(15) == 205891132094649,
        pow9(16) == 1853020188851841,
{
    reveal_with_fuel(pow9, 17);
}

/// Every resolution's powers of nine stay far below `u64::MAX`.
pub proof fn lemma_pow9_bounded(n: nat)
    requires
        n <= 16,
    ensures
        1 <= pow9(n) <= 1853020188851841,
{
    lemma_pow9_values();
    lemma_pow9_monotone(n, 16);
    lemma_pow9_positive(n);
}

/// The digits value is below `9^len`.
pub proof fn lemma_digits_value_bound(digits: Seq<u8>)
    requires
        forall|i: int| 0 <= i < digits.len() ==> #[trigger] digits[i] < 9,
    ensures
        digits_value(digits) < pow9(digits.len()),
    decreases digits.len(),
{
    if digits.len() > 0 {
        let prefix = digits.drop_last();
        assert forall|i: int| 0 <= i < prefix.len() implies #[trigger] prefix[i] < 9 by {
            assert(prefix[i] == digits[i]);
        }
        lemma_digits_value_bound(prefix);
        assert(digits.last() == digits[digits.len() - 1]);
    }
}

/// `to_digits` gives valid digits of the requested width.
pub proof fn lemma_to_digits_shape(value: nat, width: nat)
    ensures
        to_digits(value, width).len() == width,
        forall|i: int| 0 <= i < width ==> #[trigger] to_digits(value, width)[i] < 9,
    decreases width,
{
    if width > 0 {
        lemma_to_digits_shape(value / 9, (width - 1) as nat);
        let d = to_digits(value, width);
        assert forall|i: int| 0 <= i < width implies #[trigger] d[i] < 9 by {
            if i < width - 1 {
                assert(d[i] == to_digits(value / 9, (width - 1) as nat)[i]);
            }
        }
    }
}

/// Reading the written digits of a small enough value gives it back.
pub proof fn lemma_to_digits_value(value: nat, width: nat)
    requires
        value < pow9(width),
    ensures
        digits_value(to_digits(value, width)) == value,
    decreases width,
{
    if width > 0 {
        lemma_fundamental_div_mod(value as int, 9);
        assert(value / 9 < pow9((width - 1) as nat));
        lemma_to_digits_value(value / 9, (width - 1) as nat);
        let d = to_digits(value, width);
        assert(d.drop_last() =~= to_digits(value / 9, (width - 1) as nat));
    } else {
        assert(value == 0);
    }
}

/// Writing the value of some digits gives the digits back.
pub proof fn lemma_digits_round_trip(digits: Seq<u8>)
    requires
        forall|i: int| 0 <= i < digits.len() ==> #[trigger] digits[i] < 9,
    ensures
        to_digits(digits_value(digits), digits.len()) == digits,
    decreases digits.len(),
{
    if digits.len() > 0 {
        let prefix = digits.drop_last();
        assert forall|i: int| 0 <= i < prefix.len() implies #[trigger] prefix[i] < 9 by {
            assert(prefix[i] == digits[i]);
        }
        lemma_digits_round_trip(prefix);
        let v = digits_value(digits);
        let last = digits.last();
        assert(last == digits[digits.len() - 1]);
        assert(v == digits_value(prefix) * 9 + last as nat);
        assert(v / 9 == digits_value(prefix)) by {
            lemma_fundamental_div_mod(v as int, 9);
        }
        assert(v % 9 == last as nat) by {
            lemma_fundamental_div_mod(v as int, 9);
        }
        assert(to_digits(v, digits.len()) =~= digits);
    }
}

/// The sizes of the complete subtrees at every resolution.
pub proof fn lemma_subtree_size_values()
    ensures
        subtree_size(15) == 1,
        subtree_size(0) == 231627523606480,
        forall|r: nat| r <= 15 ==> 1 <= #[trigger] subtree_size(r) <= 231627523606480,
        forall|r: nat| r < 15 ==> #[trigger] subtree_size(r) == 1 + 9 * subtree_size(r + 1),
{
    assert(subtree_size(15) == 1);
    assert(subtree_size(14) == 10);
    assert(subtree_size(13) == 91);
    assert(subtree_size(12) == 820);
    assert(subtree_size(11) == 7381);
    assert(subtree_size(10) == 66430);
    assert(subtree_size(9) == 597871);
    assert(subtree_size(8) == 5380840);
    assert(subtree_size(7) == 48427561);
    assert(subtree_size(6) == 435848050);
    assert(subtree_size(5) == 3922632451);
    assert(subtree_size(4) == 35303692060);
    assert(subtree_size(3) == 317733228541);
    assert(subtree_size(2) == 2859599056870);
    assert(subtree_size(1) == 25736391511831);
    assert(subtree_size(0) == 231627523606480);
    assert forall|r: nat| r <= 15 implies 1 <= #[trigger] subtree_size(r) <= 231627523606480 by {
        lemma_subtree_size_monotone(r);
    }
}

/// Subtree sizes shrink towards finer resolutions.
pub proof fn lemma_subtree_size_monotone(r: nat)
    ensures
        1 <= subtree_size(r),
        subtree_size(r) <= subtree_size(0),
    decreases r,
{
    if r > 0 {
        lemma_subtree_size_monotone((r - 1) as nat);
        if r <= 15 {
            assert(subtree_size((r - 1) as nat) == 1 + 9 * subtree_size(r));
        }
    }
}

/// Post-order positions inside a subtree are below the subtree's size, and
/// only the subtree's root takes the last position.
pub proof fn lemma_post_rel_bound(digits: Seq<u8>, depth: nat)
    requires
        forall|i: int| 0 <= i < digits.len() ==> #[trigger] digits[i] < 9,
        depth + digits.len() <= 15,
    ensures
        post_rel(digits, depth) < subtree_size(depth),
        digits.len() > 0 ==> post_rel(digits, depth) + 1 < subtree_size(depth),
    decreases digits.len(),
{
    lemma_subtree_size_monotone(depth);
    if digits.len() > 0 {
        let rest = digits.drop_first();
        assert forall|i: int| 0 <= i < rest.len() implies #[trigger] rest[i] < 9 by {
            assert(rest[i] == digits[i + 1]);
        }
        lemma_post_rel_bound(rest, depth + 1);
        let s = subtree_size(depth + 1);
        assert(subtree_size(depth) == 1 + 9 * s);
        assert(digits[0] < 9);
        assert(digits[0] as nat * s <= 8 * s) by (nonlinear_arith)
            requires
                digits[0] < 9,
        ;
    }
}

/// Position of a descendant: the position of `prefix`'s subtree start plus
/// the descendant's position inside that subtree.
pub proof fn lemma_post_rel_append(prefix: Seq<u8>, tail: Seq<u8>, depth: nat)
    requires
        forall|i: int| 0 <= i < prefix.len() ==> #[trigger] prefix[i] < 9,
        depth + prefix.len() <= 15,
    ensures
        post_rel(prefix + tail, depth) + subtree_size(depth + prefix.len()) == post_rel(
            prefix,
            depth,
        ) + 1 + post_rel(tail, depth + prefix.len()),
    decreases prefix.len(),
{
    lemma_subtree_size_monotone(depth + prefix.len());
    if prefix.len() == 0 {
        assert(prefix + tail =~= tail);
    } else {
        let rest = prefix.drop_first();
        assert forall|i: int| 0 <= i < rest.len() implies #[trigger] rest[i] < 9 by {
            assert(rest[i] == prefix[i + 1]);
        }
        lemma_post_rel_append(rest, tail, depth + 1);
        assert((prefix + tail).drop_first() =~= rest + tail);
        assert((prefix + tail)[0] == prefix[0]);
    }
}

/// Decoding the post-order position of a cell in a subtree gives the cell.
pub proof fn lemma_post_decode_encode(digits: Seq<u8>, depth: nat)
    requires
        forall|i: int| 0 <= i < digits.len() ==> #[trigger] digits[i] < 9,
        depth + digits.len() <= 15,
    ensures
        post_decode(post_rel(digits, depth), depth) == digits,
    decreases digits.len(),
{
    lemma_subtree_size_monotone(depth);
    lemma_post_rel_bound(digits, depth);
    if digits.len() > 0 {
        let rest = digits.drop_first();
        assert forall|i: int| 0 <= i < rest.len() implies #[trigger] rest[i] < 9 by {
            assert(rest[i] == digits[i + 1]);
        }
        lemma_post_decode_encode(rest, depth + 1);
        lemma_post_rel_bound(rest, depth + 1);
        let s = subtree_size(depth + 1);
        lemma_subtree_size_monotone(depth + 1);
        let rem = post_rel(digits, depth);
        let inner = post_rel(rest, depth + 1);
        assert(rem == digits[0] as nat * s + inner);
        assert(rem / s == digits[0] as nat && rem % s == inner) by {
            vstd::arithmetic::div_mod::lemma_fundamental_div_mod_converse(
                rem as int,
                s as int,
                digits[0] as int,
                inner as int,
            );
        }
        assert(post_decode(rem, depth) =~= seq![digits[0]] + rest);
        assert(seq![digits[0]] + rest =~= digits);
    } else {
        assert(post_decode(post_rel(digits, depth), depth) =~= digits);
    }
}

/// Decoding a position in a subtree gives a cell at that position.
pub proof fn lemma_post_encode_decode(rem: nat, depth: nat)
    requires
        depth <= 15,
        rem < subtree_size(depth),
    ensures
        depth + post_decode(rem, depth).len() <= 15,
        forall|i: int|
            0 <= i < post_decode(rem, depth).len() ==> #[trigger] post_decode(rem, depth)[i] < 9,
        post_rel(post_decode(rem, depth), depth) == rem,
    decreases 15 - depth,
{
    lemma_subtree_size_monotone(depth);
    if depth >= 15 || rem + 1 >= subtree_size(depth) {
        if depth >= 15 {
            assert(subtree_size(depth) == 1);
        }
    } else {
        let s = subtree_size(depth + 1);
        lemma_subtree_size_monotone(depth + 1);
        assert(subtree_size(depth) == 1 + 9 * s);
        lemma_fundamental_div_mod(rem as int, s as int);
        let q = rem / s;
        let r = rem % s;
        assert(q < 9) by (nonlinear_arith)
            requires
                rem + 1 < 1 + 9 * s,
                rem == s * q + r,
                0 <= r < s,
                s >= 1,
        ;
        lemma_post_encode_decode(r, depth + 1);
        let tail = post_decode(r, depth + 1);
        let d = post_decode(rem, depth);
        assert(d == seq![q as u8] + tail);
        assert(d.drop_first() =~= tail);
        assert(d[0] == q as u8);
        assert forall|i: int| 0 <= i < d.len() implies #[trigger] d[i] < 9 by {
            if i > 0 {
                assert(d[i] == tail[i - 1]);
            }
        }
        assert(s * q == q * s) by (nonlinear_arith);
    }
}

/// Resolution offsets in closed form: `8 * offset(r) == 6 * (9^r - 1)`.
pub proof fn lemma_resolution_offset_closed_form(r: nat)
    ensures
        8 * resolution_offset(r) + 6 == 6 * pow9(r),
    decreases r,
{
    if r > 0 {
        lemma_resolution_offset_closed_form((r - 1) as nat);
    }
}

/// Offsets grow with the resolution, and all cells of the hierarchy number
/// `offset(16)`.
pub proof fn lemma_resolution_offset_monotone(m: nat, n: nat)
    requires
        m <= n,
    ensures
        resolution_offset(m) <= resolution_offset(n),
    decreases n,
{
    if m < n {
        lemma_resolution_offset_monotone(m, (n - 1) as nat);
    }
}

/// The number of cells through the finest resolution.
pub proof fn lemma_resolution_offset_total()
    ensures
        resolution_offset(16) == 1389765141638880,
        resolution_offset(16) == 6 * subtree_size(0),
{
    lemma_resolution_offset_closed_form(16);
    lemma_pow9_values();
    lemma_subtree_size_values();
}

} // verus!

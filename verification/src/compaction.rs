//! Compaction and expansion of cell sets.
//!
//! A set of cells stands for the resolution-15 cells (its leaves) that lie
//! below one of its members. Compaction finds the unique shortest set with
//! the same leaves: no member lies inside another and no nine siblings are
//! all present. Expansion lists the cells of one resolution below a set.

use vstd::prelude::*;

use crate::cell::{
    cell_of_post_index, law_parent_follows_last_child, law_post_interval_is_subtree,
    law_post_index_round_trip, law_sibling_distance, lemma_post_index_injective, post_index,
    CellId, CellView,
};
use crate::keys::{sorted_distinct, strictly_increasing};
use crate::face::Face;
use crate::numbering::{
    lemma_post_rel_append, lemma_post_rel_bound, lemma_subtree_size_monotone,
    subtree_size, valid_digits,
};

verus! {

/// Post-order number of a cell, as an integer.
pub open spec fn post_of(c: CellView) -> int {
    post_index(c.0, c.1) as int
}

/// Post-order number of the first cell of the subtree below `c`: the subtree
/// of `c` occupies the numbers from here up to `c`'s own number.
pub open spec fn start_of(c: CellView) -> int {
    post_of(c) + 1 - subtree_size(c.1.len())
}

/// Whether `a` contains `b`: same face and `a`'s digits begin `b`'s.
pub open spec fn contains_view(a: CellView, b: CellView) -> bool {
    a.0 == b.0 && a.1.is_prefix_of(b.1)
}

/// A cell of the finest resolution.
pub open spec fn is_leaf(z: CellView) -> bool {
    valid_digits(z.1) && z.1.len() == 15
}

/// Whether one of `cells` contains `z`.
pub open spec fn covers(cells: Seq<CellView>, z: CellView) -> bool {
    exists|i: int| 0 <= i < cells.len() && #[trigger] contains_view(cells[i], z)
}

/// The two sets of cells cover the same finest-resolution cells.
pub open spec fn same_leaves(a: Seq<CellView>, b: Seq<CellView>) -> bool {
    forall|z: CellView| #[trigger] is_leaf(z) ==> (covers(a, z) <==> covers(b, z))
}

/// Every cell has valid child digits.
pub open spec fn all_valid(cells: Seq<CellView>) -> bool {
    forall|i: int| 0 <= i < cells.len() ==> valid_digits(#[trigger] cells[i].1)
}

/// Strictly increasing post-order numbers.
pub open spec fn post_sorted(cells: Seq<CellView>) -> bool {
    forall|i: int, j: int| 0 <= i < j < cells.len() ==> post_of(cells[i]) < post_of(cells[j])
}

/// Each cell's whole subtree comes after the cells before it.
pub open spec fn separated(cells: Seq<CellView>) -> bool {
    forall|i: int, j: int|
        0 <= i < j < cells.len() ==> post_of(#[trigger] cells[i]) < start_of(#[trigger] cells[j])
}

/// No cell contains another one.
pub open spec fn antichain(cells: Seq<CellView>) -> bool {
    forall|i: int, j: int|
        0 <= i < cells.len() && 0 <= j < cells.len() && i != j ==> !contains_view(
            #[trigger] cells[i],
            #[trigger] cells[j],
        )
}

/// All nine children of `(face, parent)` are present.
pub open spec fn complete_group(cells: Seq<CellView>, face: Face, parent: Seq<u8>) -> bool {
    forall|d: u8| d < 9 ==> #[trigger] cells.contains((face, parent.push(d)))
}

/// No group of nine siblings is complete.
pub open spec fn no_complete_group(cells: Seq<CellView>) -> bool {
    forall|face: Face, parent: Seq<u8>|
        parent.len() < 15 ==> !#[trigger] complete_group(cells, face, parent)
}

/// A compacted set of cells, in post-order.
pub open spec fn compacted(cells: Seq<CellView>) -> bool {
    &&& all_valid(cells)
    &&& post_sorted(cells)
    &&& antichain(cells)
    &&& no_complete_group(cells)
}

/// The values of a sequence of cell identifiers.
pub open spec fn cell_views(cells: Seq<CellId>) -> Seq<CellView> {
    cells.map_values(|c: CellId| c@)
}

/// The nine cells at the top of `cells` are the children `0..=8` of
/// `(face, parent)`, in order.
pub open spec fn top_group(cells: Seq<CellView>, face: Face, parent: Seq<u8>) -> bool {
    &&& cells.len() >= 9
    &&& forall|k: u8| k < 9 ==> #[trigger] cells[cells.len() - 9 + k] == (face, parent.push(k))
}

/// Every complete group has its last child on top.
pub open spec fn groups_end_at_top(cells: Seq<CellView>) -> bool {
    forall|face: Face, parent: Seq<u8>|
        parent.len() < 15 && #[trigger] complete_group(cells, face, parent) ==> cells.len() > 0
            && cells.last() == (face, parent.push(8))
}

/// A cell's subtree spans its own post-order number and those of its
/// descendants, which come before it.
pub proof fn lemma_descendant_interval(a: CellView, b: CellView)
    requires
        valid_digits(a.1),
        valid_digits(b.1),
        contains_view(a, b),
        a.1.len() < b.1.len(),
    ensures
        start_of(a) <= post_of(b),
        post_of(b) < post_of(a),
{
    let t = b.1.subrange(a.1.len() as int, b.1.len() as int);
    assert(b.1 =~= a.1 + t);
    assert forall|i: int| 0 <= i < t.len() implies #[trigger] t[i] < 9 by {
        assert(t[i] == b.1[a.1.len() + i]);
    }
    lemma_post_rel_append(a.1, t, 0);
    lemma_post_rel_bound(t, a.1.len());
}

/// A subtree's start is at most the cell's own number.
pub proof fn lemma_start_below_post(c: CellView)
    requires
        valid_digits(c.1),
    ensures
        start_of(c) <= post_of(c),
        start_of(c) >= 0,
{
    lemma_subtree_size_monotone(c.1.len());
    crate::cell::lemma_post_rel_lower(c.1, 0);
}

/// Post-order numbers of the children of one cell, one subtree apart.
pub proof fn lemma_child_post(face: Face, parent: Seq<u8>, d: u8)
    requires
        valid_digits(parent),
        parent.len() < 15,
        d < 9,
    ensures
        post_of((face, parent.push(d))) == post_of((face, parent.push(0))) + d * subtree_size(
            parent.len() + 1,
        ),
    decreases d,
{
    if d > 0 {
        lemma_child_post(face, parent, (d - 1) as u8);
        law_sibling_distance(face, parent, (d - 1) as u8);
        let s = subtree_size(parent.len() + 1);
        assert((d - 1) * s + s == d * s) by (nonlinear_arith);
    }
}

/// Where the children of one cell stand in post-order.
pub proof fn lemma_sibling_posts(face: Face, parent: Seq<u8>)
    requires
        valid_digits(parent),
        parent.len() < 15,
    ensures
        forall|d: u8|
            d < 8 ==> start_of((face, parent.push((d + 1) as u8))) == post_of(
                (face, #[trigger] parent.push(d)),
            ) + 1,
        forall|d: u8|
            d < 8 ==> post_of((face, #[trigger] parent.push(d))) < post_of(
                (face, parent.push(8)),
            ),
        post_of((face, parent)) == post_of((face, parent.push(8))) + 1,
        start_of((face, parent)) == start_of((face, parent.push(0))),
{
    let s = subtree_size(parent.len() + 1);
    lemma_subtree_size_monotone(parent.len() + 1);
    assert(subtree_size(parent.len()) == 1 + 9 * s);
    assert forall|d: u8| d < 8 implies start_of((face, parent.push((d + 1) as u8))) == post_of(
        (face, #[trigger] parent.push(d)),
    ) + 1 by {
        law_sibling_distance(face, parent, d);
        assert(parent.push((d + 1) as u8).len() == parent.len() + 1);
    }
    assert forall|d: u8| d < 8 implies post_of((face, #[trigger] parent.push(d))) < post_of(
        (face, parent.push(8)),
    ) by {
        lemma_child_post(face, parent, d);
        lemma_child_post(face, parent, 8);
        assert(d * s < 8 * s) by (nonlinear_arith)
            requires
                d < 8,
                s >= 1,
        ;
    }
    law_parent_follows_last_child(face, parent);
    lemma_child_post(face, parent, 8);
}

/// Separated cells are sorted and none contains another.
pub proof fn lemma_separated_sorted(cells: Seq<CellView>)
    requires
        all_valid(cells),
        separated(cells),
    ensures
        post_sorted(cells),
        antichain(cells),
{
    assert forall|i: int, j: int| 0 <= i < j < cells.len() implies post_of(cells[i]) < post_of(
        cells[j],
    ) by {
        assert(post_of(cells[i]) < start_of(cells[j]));
        lemma_start_below_post(cells[j]);
    }
    assert forall|i: int, j: int|
        0 <= i < cells.len() && 0 <= j < cells.len() && i != j implies !contains_view(
        #[trigger] cells[i],
        #[trigger] cells[j],
    ) by {
        if contains_view(cells[i], cells[j]) {
            let a = cells[i];
            let b = cells[j];
            if a.1.len() == b.1.len() {
                assert(a.1 =~= b.1);
                if i < j {
                    assert(post_of(cells[i]) < start_of(cells[j]));
                    lemma_start_below_post(cells[j]);
                } else {
                    assert(post_of(cells[j]) < start_of(cells[i]));
                    lemma_start_below_post(cells[i]);
                }
            } else {
                lemma_descendant_interval(a, b);
                if i < j {
                    assert(post_of(cells[i]) < start_of(cells[j]));
                    lemma_start_below_post(cells[j]);
                } else {
                    assert(post_of(cells[j]) < start_of(cells[i]));
                }
            }
        }
    }
}

/// In separated cells whose top is the last child of a complete group, the
/// whole group stands at the top in digit order.
pub proof fn lemma_group_at_top(cells: Seq<CellView>, face: Face, parent: Seq<u8>)
    requires
        all_valid(cells),
        separated(cells),
        valid_digits(parent),
        parent.len() < 15,
        complete_group(cells, face, parent),
        cells.len() > 0,
        cells.last() == (face, parent.push(8)),
    ensures
        top_group(cells, face, parent),
{
    lemma_group_suffix(cells, face, parent, 8);
    assert forall|k: u8| k < 9 implies #[trigger] cells[cells.len() - 9 + k] == (
        face,
        parent.push(k),
    ) by {
        assert(cells[cells.len() - 1 - (8 - k)] == (face, parent.push((8 - (8 - k)) as u8)));
    }
}

/// The last `m + 1` cells are the children `8 - m ..= 8`.
proof fn lemma_group_suffix(cells: Seq<CellView>, face: Face, parent: Seq<u8>, m: nat)
    requires
        all_valid(cells),
        separated(cells),
        valid_digits(parent),
        parent.len() < 15,
        complete_group(cells, face, parent),
        cells.len() > 0,
        cells.last() == (face, parent.push(8)),
        m <= 8,
    ensures
        cells.len() >= m + 1,
        forall|i: nat|
            i <= m ==> #[trigger] cells[cells.len() - 1 - i] == (face, parent.push((8 - i) as u8)),
    decreases m,
{
    let n = cells.len() as int;
    if m > 0 {
        lemma_group_suffix(cells, face, parent, (m - 1) as nat);
        let d = (8 - m) as u8;
        let child = (face, parent.push(d));
        let upper = n - m;
        let next = (face, parent.push((d + 1) as u8));
        assert(cells[upper] == next) by {
            assert(cells[n - 1 - (m - 1) as nat] == (face, parent.push((8 - (m - 1) as nat) as u8)));
        }
        law_sibling_distance(face, parent, d);
        lemma_subtree_size_monotone(parent.len() + 1);
        assert(parent.push((d + 1) as u8).len() == parent.len() + 1);
        assert(start_of(next) == post_of(child) + 1);
        assert(cells.contains(child));
        let j = choose|j: int| 0 <= j < n && cells[j] == child;
        lemma_start_below_post(child);
        if j == upper {
            assert(child.1[parent.len() as int] == next.1[parent.len() as int]);
        }
        if j > upper {
            assert(post_of(cells[upper]) < start_of(cells[j]));
        }
        if j < upper - 1 {
            let q = upper - 1;
            assert(post_of(cells[j]) < start_of(cells[q]));
            lemma_start_below_post(cells[q]);
            assert(post_of(cells[q]) < start_of(cells[upper]));
        }
        assert(j == upper - 1);
        assert forall|i: nat| i <= m implies #[trigger] cells[cells.len() - 1 - i] == (
            face,
            parent.push((8 - i) as u8),
        ) by {
            if i < m {
                assert(cells[n - 1 - i] == (face, parent.push((8 - i) as u8)));
            } else {
                assert(n - 1 - i == j);
            }
        }
    } else {
        assert(cells[n - 1 - 0] == cells.last());
    }
}

/// Replacing a complete group on top by its parent keeps the leaves.
pub proof fn lemma_merge_leaves(cells: Seq<CellView>, face: Face, parent: Seq<u8>)
    requires
        valid_digits(parent),
        parent.len() < 15,
        top_group(cells, face, parent),
    ensures
        same_leaves(cells, cells.take(cells.len() - 9).push((face, parent))),
{
    let n = cells.len() as int;
    let merged = cells.take(n - 9).push((face, parent));
    assert forall|z: CellView| #[trigger] is_leaf(z) implies (covers(cells, z) <==> covers(
        merged,
        z,
    )) by {
        if covers(cells, z) {
            let i = choose|i: int| 0 <= i < cells.len() && #[trigger] contains_view(cells[i], z);
            if i < n - 9 {
                assert(merged[i] == cells[i]);
                assert(contains_view(merged[i], z));
            } else {
                let k = (i - (n - 9)) as u8;
                assert(cells[n - 9 + k] == (face, parent.push(k)));
                assert(parent =~= z.1.subrange(0, parent.len() as int)) by {
                    assert forall|x: int| 0 <= x < parent.len() implies parent[x] == z.1[x] by {
                        assert(parent.push(k)[x] == z.1.subrange(0, parent.len() + 1int)[x]);
                    }
                }
                assert(contains_view(merged[n - 9], z));
            }
        }
        if covers(merged, z) {
            let i = choose|i: int| 0 <= i < merged.len() && #[trigger] contains_view(merged[i], z);
            if i < n - 9 {
                assert(cells[i] == merged[i]);
                assert(contains_view(cells[i], z));
            } else {
                let k = z.1[parent.len() as int];
                assert(k < 9);
                assert(cells[n - 9 + k] == (face, parent.push(k)));
                assert(parent.push(k) =~= z.1.subrange(0, parent.len() + 1int)) by {
                    assert(parent =~= z.1.subrange(0, parent.len() as int));
                    assert forall|x: int| 0 <= x < parent.len() implies parent[x] == z.1[x] by {
                        assert(z.1.subrange(0, parent.len() as int)[x] == z.1[x]);
                    }
                }
                assert(contains_view(cells[n - 9 + k], z));
            }
        }
    }
}

/// Containment is transitive.
pub proof fn lemma_contains_trans(a: CellView, b: CellView, c: CellView)
    requires
        contains_view(a, b),
        contains_view(b, c),
    ensures
        contains_view(a, c),
{
    assert(a.1 =~= c.1.subrange(0, a.1.len() as int)) by {
        assert forall|x: int| 0 <= x < a.1.len() implies a.1[x] == c.1[x] by {
            assert(a.1[x] == b.1.subrange(0, a.1.len() as int)[x]);
            assert(b.1[x] == c.1.subrange(0, b.1.len() as int)[x]);
        }
    }
}

/// Dropping the cells from `m` on, all inside `x`, and adding `x` keeps the
/// leaves of the cells with `x` added.
pub proof fn lemma_drop_inside(cells: Seq<CellView>, m: int, x: CellView)
    requires
        0 <= m <= cells.len(),
        forall|j: int| m <= j < cells.len() ==> contains_view(x, #[trigger] cells[j]),
    ensures
        same_leaves(cells.take(m).push(x), cells.push(x)),
{
    let a = cells.take(m).push(x);
    let b = cells.push(x);
    assert forall|z: CellView| #[trigger] is_leaf(z) implies (covers(a, z) <==> covers(b, z)) by {
        if covers(a, z) {
            let i = choose|i: int| 0 <= i < a.len() && #[trigger] contains_view(a[i], z);
            if i < m {
                assert(b[i] == a[i]);
            } else {
                assert(b[cells.len() as int] == a[i]);
            }
        }
        if covers(b, z) {
            let i = choose|i: int| 0 <= i < b.len() && #[trigger] contains_view(b[i], z);
            if i < m {
                assert(a[i] == b[i]);
            } else if i < cells.len() {
                lemma_contains_trans(x, b[i], z);
                assert(contains_view(a[m], z));
            } else {
                assert(contains_view(a[m], z));
            }
        }
    }
}

/// Adding a cell that lies inside one of the cells keeps the leaves.
pub proof fn lemma_push_inside(cells: Seq<CellView>, i: int, x: CellView)
    requires
        0 <= i < cells.len(),
        contains_view(cells[i], x),
    ensures
        same_leaves(cells, cells.push(x)),
{
    let b = cells.push(x);
    assert forall|z: CellView| #[trigger] is_leaf(z) implies (covers(cells, z) <==> covers(b, z)) by {
        if covers(cells, z) {
            let j = choose|j: int| 0 <= j < cells.len() && #[trigger] contains_view(cells[j], z);
            assert(b[j] == cells[j]);
        }
        if covers(b, z) {
            let j = choose|j: int| 0 <= j < b.len() && #[trigger] contains_view(b[j], z);
            if j < cells.len() {
                assert(cells[j] == b[j]);
            } else {
                lemma_contains_trans(cells[i], x, z);
            }
        }
    }
}

/// Same leaves is an equivalence.
pub proof fn lemma_same_leaves_trans(a: Seq<CellView>, b: Seq<CellView>, c: Seq<CellView>)
    requires
        same_leaves(a, b),
        same_leaves(b, c),
    ensures
        same_leaves(a, c),
        same_leaves(c, a),
{
}

/// Adding the same cell to two sets with the same leaves.
pub proof fn lemma_same_leaves_push(a: Seq<CellView>, b: Seq<CellView>, x: CellView)
    requires
        same_leaves(a, b),
    ensures
        same_leaves(a.push(x), b.push(x)),
{
    assert forall|z: CellView| #[trigger] is_leaf(z) implies (covers(a.push(x), z) <==> covers(
        b.push(x),
        z,
    )) by {
        if covers(a.push(x), z) {
            let i = choose|i: int| 0 <= i < a.len() + 1 && #[trigger] contains_view(a.push(x)[i], z);
            if i < a.len() {
                assert(a[i] == a.push(x)[i]);
                assert(covers(a, z));
                let j = choose|j: int| 0 <= j < b.len() && #[trigger] contains_view(b[j], z);
                assert(b.push(x)[j] == b[j]);
            } else {
                assert(b.push(x)[b.len() as int] == x);
            }
        }
        if covers(b.push(x), z) {
            let i = choose|i: int| 0 <= i < b.len() + 1 && #[trigger] contains_view(b.push(x)[i], z);
            if i < b.len() {
                assert(b[i] == b.push(x)[i]);
                assert(covers(b, z));
                let j = choose|j: int| 0 <= j < a.len() && #[trigger] contains_view(a[j], z);
                assert(a.push(x)[j] == a[j]);
            } else {
                assert(a.push(x)[a.len() as int] == x);
            }
        }
    }
}

/// The first finest-resolution cell below `x`.
pub open spec fn first_leaf(x: CellView) -> CellView {
    (x.0, x.1 + Seq::new((15 - x.1.len()) as nat, |i: int| 0u8))
}

/// The first leaf below a cell is a leaf inside it.
pub proof fn lemma_first_leaf(x: CellView)
    requires
        valid_digits(x.1),
    ensures
        is_leaf(first_leaf(x)),
        contains_view(x, first_leaf(x)),
{
    let z = first_leaf(x);
    assert(z.1.subrange(0, x.1.len() as int) =~= x.1);
    assert forall|i: int| 0 <= i < z.1.len() implies #[trigger] z.1[i] < 9 by {
        if i < x.1.len() {
            assert(z.1[i] == x.1[i]);
        }
    }
}

/// Two cells that contain one cell are nested: the shorter contains the
/// longer.
pub proof fn lemma_nested(a: CellView, b: CellView, z: CellView)
    requires
        contains_view(a, z),
        contains_view(b, z),
        a.1.len() <= b.1.len(),
    ensures
        contains_view(a, b),
{
    assert(a.1 =~= b.1.subrange(0, a.1.len() as int)) by {
        assert forall|x: int| 0 <= x < a.1.len() implies a.1[x] == b.1[x] by {
            assert(a.1[x] == z.1.subrange(0, a.1.len() as int)[x]);
            assert(b.1[x] == z.1.subrange(0, b.1.len() as int)[x]);
        }
    }
}

/// Whether `d` is a proper descendant of `x`.
pub open spec fn below(x: CellView, d: CellView) -> bool {
    contains_view(x, d) && x.1.len() < d.1.len()
}

/// The index of a deepest cell below `x`, when one is below it.
proof fn lemma_deepest(cells: Seq<CellView>, x: CellView) -> (k: int)
    requires
        exists|i: int| 0 <= i < cells.len() && #[trigger] below(x, cells[i]),
    ensures
        0 <= k < cells.len(),
        below(x, cells[k]),
        forall|i: int|
            0 <= i < cells.len() && #[trigger] below(x, cells[i]) ==> cells[i].1.len()
                <= cells[k].1.len(),
    decreases cells.len(),
{
    let n = cells.len() as int;
    let rest = cells.drop_last();
    if exists|i: int| 0 <= i < rest.len() && #[trigger] below(x, rest[i]) {
        let k0 = lemma_deepest(rest, x);
        assert(rest[k0] == cells[k0]);
        if below(x, cells[n - 1]) && cells[n - 1].1.len() > cells[k0].1.len() {
            assert forall|i: int|
                0 <= i < cells.len() && #[trigger] below(x, cells[i]) implies cells[i].1.len()
                <= cells[n - 1].1.len() by {
                if i < n - 1 {
                    assert(rest[i] == cells[i]);
                }
            }
            n - 1
        } else {
            assert forall|i: int|
                0 <= i < cells.len() && #[trigger] below(x, cells[i]) implies cells[i].1.len()
                <= cells[k0].1.len() by {
                if i < n - 1 {
                    assert(rest[i] == cells[i]);
                }
            }
            k0
        }
    } else {
        let i = choose|i: int| 0 <= i < cells.len() && #[trigger] below(x, cells[i]);
        if i < n - 1 {
            assert(rest[i] == cells[i]);
        }
        assert forall|j: int|
            0 <= j < cells.len() && #[trigger] below(x, cells[j]) implies cells[j].1.len()
            <= cells[n - 1].1.len() by {
            if j < n - 1 {
                assert(rest[j] == cells[j]);
            }
        }
        n - 1
    }
}

/// When the cells strictly below `x` cover every leaf of `x`, and no cell
/// contains another, some nine siblings are all present.
pub proof fn lemma_cover_below_has_group(cells: Seq<CellView>, x: CellView)
    requires
        all_valid(cells),
        antichain(cells),
        valid_digits(x.1),
        forall|z: CellView|
            #[trigger] is_leaf(z) && contains_view(x, z) ==> exists|i: int|
                0 <= i < cells.len() && #[trigger] below(x, cells[i]) && contains_view(cells[i], z),
    ensures
        exists|face: Face, parent: Seq<u8>|
            parent.len() < 15 && #[trigger] complete_group(cells, face, parent),
{
    lemma_first_leaf(x);
    let z0 = first_leaf(x);
    assert(is_leaf(z0) && contains_view(x, z0));
    let k = lemma_deepest(cells, x);
    let t = cells[k];
    let q = t.1.drop_last();
    let f = x.0;
    assert(valid_digits(t.1));
    assert(x.1 =~= q.subrange(0, x.1.len() as int)) by {
        assert forall|j: int| 0 <= j < x.1.len() implies x.1[j] == q[j] by {
            assert(x.1[j] == t.1.subrange(0, x.1.len() as int)[j]);
        }
    }
    assert forall|d: u8| d < 9 implies #[trigger] cells.contains((f, q.push(d))) by {
        let s = (f, q.push(d));
        assert(valid_digits(s.1)) by {
            assert forall|j: int| 0 <= j < s.1.len() implies #[trigger] s.1[j] < 9 by {
                if j < q.len() {
                    assert(s.1[j] == t.1[j]);
                }
            }
        }
        lemma_first_leaf(s);
        let z = first_leaf(s);
        assert(contains_view(x, s)) by {
            assert(x.1 =~= s.1.subrange(0, x.1.len() as int)) by {
                assert forall|j: int| 0 <= j < x.1.len() implies x.1[j] == s.1[j] by {
                    assert(x.1[j] == q[j]);
                }
            }
        }
        lemma_contains_trans(x, s, z);
        let i = choose|i: int|
            0 <= i < cells.len() && #[trigger] below(x, cells[i]) && contains_view(cells[i], z);
        let y = cells[i];
        assert(y.1.len() <= t.1.len());
        lemma_nested(y, s, z);
        if y.1.len() == s.1.len() {
            assert(y.1 =~= s.1);
            assert(cells[i] == s);
        } else {
            assert(contains_view(y, t)) by {
                assert(y.1 =~= t.1.subrange(0, y.1.len() as int)) by {
                    assert forall|j: int| 0 <= j < y.1.len() implies y.1[j] == t.1[j] by {
                        assert(y.1[j] == s.1.subrange(0, y.1.len() as int)[j]);
                        assert(s.1[j] == q[j]);
                    }
                }
            }
            assert(i != k);
            assert(!contains_view(cells[i], cells[k]));
        }
    }
    assert(complete_group(cells, f, q));
}

/// Every cell of one compacted set with the same leaves as another belongs
/// to the other.
proof fn lemma_compacted_member(a: Seq<CellView>, b: Seq<CellView>, i: int)
    requires
        compacted(a),
        compacted(b),
        same_leaves(a, b),
        0 <= i < a.len(),
    ensures
        b.contains(a[i]),
{
    let x = a[i];
    lemma_first_leaf(x);
    let z0 = first_leaf(x);
    assert(contains_view(a[i], z0));
    assert(covers(a, z0));
    assert(covers(b, z0));
    let j = choose|j: int| 0 <= j < b.len() && #[trigger] contains_view(b[j], z0);
    let y = b[j];
    if y.1.len() == x.1.len() {
        lemma_nested(y, x, z0);
        assert(y.1 =~= x.1);
        assert(b[j] == x);
    } else if y.1.len() < x.1.len() {
        lemma_nested(y, x, z0);
        assert forall|z: CellView| #[trigger] is_leaf(z) && contains_view(y, z) implies exists|m: int|
            0 <= m < a.len() && #[trigger] below(y, a[m]) && contains_view(a[m], z) by {
            assert(contains_view(b[j], z));
            assert(covers(b, z));
            assert(covers(a, z));
            let m = choose|m: int| 0 <= m < a.len() && #[trigger] contains_view(a[m], z);
            if a[m].1.len() <= y.1.len() {
                lemma_nested(a[m], y, z);
                lemma_contains_trans(a[m], y, x);
                assert(m != i);
                assert(!contains_view(a[m], a[i]));
            } else {
                lemma_nested(y, a[m], z);
                assert(below(y, a[m]));
            }
        }
        lemma_cover_below_has_group(a, y);
    } else {
        lemma_nested(x, y, z0);
        assert forall|z: CellView| #[trigger] is_leaf(z) && contains_view(x, z) implies exists|m: int|
            0 <= m < b.len() && #[trigger] below(x, b[m]) && contains_view(b[m], z) by {
            assert(contains_view(a[i], z));
            assert(covers(a, z));
            assert(covers(b, z));
            let m = choose|m: int| 0 <= m < b.len() && #[trigger] contains_view(b[m], z);
            if b[m].1.len() <= x.1.len() {
                lemma_nested(b[m], x, z);
                lemma_contains_trans(b[m], x, y);
                assert(m != j);
                assert(!contains_view(b[m], b[j]));
            } else {
                lemma_nested(x, b[m], z);
                assert(below(x, b[m]));
            }
        }
        lemma_cover_below_has_group(b, x);
    }
}

/// Two sequences sorted by post-order number with the same members are
/// equal.
pub proof fn lemma_sorted_unique(a: Seq<CellView>, b: Seq<CellView>)
    requires
        post_sorted(a),
        post_sorted(b),
        forall|i: int| 0 <= i < a.len() ==> b.contains(#[trigger] a[i]),
        forall|j: int| 0 <= j < b.len() ==> a.contains(#[trigger] b[j]),
    ensures
        a == b,
    decreases a.len(),
{
    if a.len() == 0 {
        if b.len() > 0 {
            assert(a.contains(b[0]));
        }
        assert(a =~= b);
    } else {
        if b.len() == 0 {
            assert(b.contains(a[0]));
        }
        assert(b.contains(a[0]));
        let j = choose|j: int| 0 <= j < b.len() && b[j] == a[0];
        assert(a.contains(b[0]));
        let k = choose|k: int| 0 <= k < a.len() && a[k] == b[0];
        if j > 0 {
            assert(post_of(b[0]) < post_of(b[j]));
            if k > 0 {
                assert(post_of(a[0]) < post_of(a[k]));
            }
        }
        assert(a[0] == b[0]);
        let a1 = a.drop_first();
        let b1 = b.drop_first();
        assert forall|i: int| 0 <= i < a1.len() implies b1.contains(#[trigger] a1[i]) by {
            assert(a1[i] == a[i + 1]);
            assert(b.contains(a[i + 1]));
            let m = choose|m: int| 0 <= m < b.len() && b[m] == a[i + 1];
            assert(post_of(a[0]) < post_of(a[i + 1]));
            assert(m != 0);
            assert(b1[m - 1] == b[m]);
        }
        assert forall|i: int| 0 <= i < b1.len() implies a1.contains(#[trigger] b1[i]) by {
            assert(b1[i] == b[i + 1]);
            assert(a.contains(b[i + 1]));
            let m = choose|m: int| 0 <= m < a.len() && a[m] == b[i + 1];
            assert(post_of(b[0]) < post_of(b[i + 1]));
            assert(m != 0);
            assert(a1[m - 1] == a[m]);
        }
        lemma_sorted_unique(a1, b1);
        assert(a =~= seq![a[0]] + a1);
        assert(b =~= seq![b[0]] + b1);
    }
}

/// Compaction is canonical: two compacted sets with the same leaves are
/// the same sequence of cells.
pub proof fn law_compaction_is_canonical(a: Seq<CellView>, b: Seq<CellView>)
    requires
        compacted(a),
        compacted(b),
        same_leaves(a, b),
    ensures
        a == b,
{
    assert forall|i: int| 0 <= i < a.len() implies b.contains(#[trigger] a[i]) by {
        lemma_compacted_member(a, b, i);
    }
    assert forall|j: int| 0 <= j < b.len() implies a.contains(#[trigger] b[j]) by {
        lemma_compacted_member(b, a, j);
    }
    lemma_sorted_unique(a, b);
}

/// The parent of the nine cells on top of `stack`, when they are all its
/// children in digit order.
fn completed_parent(stack: &Vec<CellId>) -> (r: Option<CellId>)
    ensures
        r matches Some(p) ==> p@.1.len() < 15 && valid_digits(p@.1) && top_group(
            cell_views(stack@),
            p@.0,
            p@.1,
        ),
        r is None ==> forall|face: Face, parent: Seq<u8>|
            parent.len() < 15 ==> !#[trigger] top_group(cell_views(stack@), face, parent),
{
    let ghost views = cell_views(stack@);
    let n = stack.len();
    if n < 9 {
        return None;
    }
    let top = &stack[n - 1];
    assert(views[n - 1] == top@);
    let res = top.resolution();
    if res == 0 {
        proof {
            assert forall|face: Face, parent: Seq<u8>|
                parent.len() < 15 implies !#[trigger] top_group(views, face, parent) by {
                if top_group(views, face, parent) {
                    assert(views[n - 9 + 8u8] == (face, parent.push(8u8)));
                }
            }
        }
        return None;
    }
    let digits = top.digits();
    if digits[res as usize - 1] != 8 {
        proof {
            assert forall|face: Face, parent: Seq<u8>|
                parent.len() < 15 implies !#[trigger] top_group(views, face, parent) by {
                if top_group(views, face, parent) {
                    assert(views[n - 9 + 8u8] == (face, parent.push(8u8)));
                    assert(parent.push(8u8)[parent.len() as int] == 8);
                }
            }
        }
        return None;
    }
    let parent = match top.parent() {
        Some(p) => p,
        None => return None,
    };
    let ghost f = parent@.0;
    let ghost pd = parent@.1;
    proof {
        assert(top@.1 =~= pd.push(8u8));
        assert forall|face: Face, other: Seq<u8>|
            other.len() < 15 && #[trigger] top_group(views, face, other) implies face == f
            && other == pd by {
            assert(views[n - 9 + 8u8] == (face, other.push(8u8)));
            assert(other =~= other.push(8u8).drop_last());
        }
    }
    let mut k: u8 = 0;
    while k < 8
        invariant
            n == stack@.len(),
            n >= 9,
            views == cell_views(stack@),
            k <= 8,
            parent@ == (f, pd),
            pd.len() < 15,
            valid_digits(pd),
            views[n - 1] == (f, pd.push(8u8)),
            forall|j: u8| j < k ==> #[trigger] views[n - 9 + j] == (f, pd.push(j)),
            forall|face: Face, other: Seq<u8>|
                other.len() < 15 && #[trigger] top_group(views, face, other) ==> face == f && other
                    == pd,
        decreases 8 - k,
    {
        let child = match parent.child(k) {
            Ok(c) => c,
            Err(_) => return None,
        };
        let index = n - 9 + k as usize;
        assert(views[index as int] == stack@[index as int]@);
        if !stack[index].same_as(&child) {
            proof {
                assert forall|face: Face, other: Seq<u8>|
                    other.len() < 15 implies !#[trigger] top_group(views, face, other) by {
                    if top_group(views, face, other) {
                        assert(views[n - 9 + k] == (face, other.push(k)));
                    }
                }
            }
            return None;
        }
        k += 1;
    }
    proof {
        assert forall|j: u8| j < 9 implies #[trigger] views[n - 9 + j] == (f, pd.push(j)) by {
            if j == 8 {
                assert(views[n - 1] == views[n - 9 + j]);
            }
        }
    }
    Some(parent)
}

/// Add a cell that follows every cell of `stack` in post-order to a
/// compacted stack: nothing changes when the top already contains it;
/// otherwise the cells inside it leave, it goes on top, and complete groups
/// on top are replaced by their parents for as long as there are any.
fn absorb(stack: &mut Vec<CellId>, c: CellId)
    requires
        all_valid(cell_views(old(stack)@)),
        separated(cell_views(old(stack)@)),
        no_complete_group(cell_views(old(stack)@)),
        forall|j: int|
            0 <= j < old(stack)@.len() ==> start_of(#[trigger] cell_views(old(stack)@)[j])
                < post_of(c@),
    ensures
        all_valid(cell_views(final(stack)@)),
        separated(cell_views(final(stack)@)),
        no_complete_group(cell_views(final(stack)@)),
        forall|j: int|
            0 <= j < final(stack)@.len() ==> start_of(#[trigger] cell_views(final(stack)@)[j])
                <= post_of(c@),
        same_leaves(cell_views(final(stack)@), cell_views(old(stack)@).push(c@)),
{
    let ghost before = cell_views(stack@);
    let _ = c.resolution();
    let c_post = c.post_order_index();
    let n = stack.len();
    proof {
        lemma_start_below_post(c@);
        lemma_separated_sorted(before);
    }
    if n > 0 {
        let top_post = stack[n - 1].post_order_index();
        if c_post <= top_post {
            proof {
                let t = before[n - 1];
                assert(t == stack@[n - 1]@);
                assert(start_of(t) < post_of(c@));
                if c_post == top_post {
                    lemma_post_index_injective(t.0, t.1, c@.0, c@.1);
                    assert(t.1 =~= c@.1.subrange(0, t.1.len() as int));
                } else {
                    law_post_interval_is_subtree(t, c@);
                }
                lemma_push_inside(before, n - 1, c@);
            }
            return;
        }
        assert(before[n - 1] == stack@[n - 1]@);
    }
    drop_inside(stack, &c);
    let ghost m = stack@.len() as int;
    let ghost kept = cell_views(stack@);
    stack.push(c);
    proof {
        let v = cell_views(stack@);
        assert(v =~= kept.push(c@));
        lemma_drop_inside(before, m, c@);
        lemma_push_beyond(before, m, c@);
        assert forall|j: int| 0 <= j < v.len() implies start_of(#[trigger] v[j]) <= post_of(c@) by {
            if j < m {
                assert(v[j] == before[j]);
                assert(start_of(cell_views(old(stack)@)[j]) < post_of(c@));
            }
        }
    }
    merge_groups(stack, c_post);
    proof {
        lemma_same_leaves_trans(cell_views(stack@), cell_views(old(stack)@).take(m).push(c@), before.push(c@));
    }
}

/// Remove from the top of `stack` the cells that lie inside `c`.
fn drop_inside(stack: &mut Vec<CellId>, c: &CellId)
    requires
        all_valid(cell_views(old(stack)@)),
        post_sorted(cell_views(old(stack)@)),
        valid_digits(c@.1),
        old(stack)@.len() > 0 ==> post_of(cell_views(old(stack)@).last()) < post_of(c@),
    ensures
        final(stack)@.len() <= old(stack)@.len(),
        cell_views(final(stack)@) == cell_views(old(stack)@).take(final(stack)@.len() as int),
        forall|j: int|
            final(stack)@.len() <= j < old(stack)@.len() ==> contains_view(
                c@,
                #[trigger] cell_views(old(stack)@)[j],
            ),
        forall|j: int|
            0 <= j < final(stack)@.len() ==> post_of(#[trigger] cell_views(old(stack)@)[j])
                < start_of(c@),
{
    let ghost before = cell_views(stack@);
    let n = stack.len();
    let c_post = c.post_order_index();
    proof {
        lemma_start_below_post(c@);
        law_post_index_round_trip(c@.0, c@.1);
        crate::numbering::lemma_subtree_size_values();
    }
    let c_start = c_post + 1 - crate::cell::subtree_size_u64(c.resolution());
    while stack.len() > 0 && stack[stack.len() - 1].post_order_index() >= c_start
        invariant
            stack@.len() <= n,
            n == before.len(),
            cell_views(stack@) == before.take(stack@.len() as int),
            forall|j: int| stack@.len() <= j < n ==> contains_view(c@, #[trigger] before[j]),
            all_valid(before),
            post_sorted(before),
            valid_digits(c@.1),
            c_start == start_of(c@),
            c_post == post_of(c@),
            n > 0 ==> post_of(before[n - 1]) < post_of(c@),
        decreases stack@.len(),
    {
        let ghost m = (stack@.len() - 1) as int;
        assert(cell_views(stack@)[m] == stack@[m]@);
        let t = match stack.pop() {
            Some(t) => t,
            None => return,
        };
        proof {
            assert(t@ == before[m]);
            assert(cell_views(stack@) =~= before.take(m));
            if m < n - 1 {
                assert(post_of(before[m]) < post_of(before[n - 1]));
            }
            law_post_interval_is_subtree(c@, t@);
            assert(t@.1 =~= t@.1.subrange(0, t@.1.len() as int));
            assert(contains_view(c@, before[m]));
        }
    }
    proof {
        let m = stack@.len() as int;
        let kept = cell_views(stack@);
        assert forall|j: int| 0 <= j < m implies post_of(#[trigger] before[j]) < start_of(c@) by {
            assert(kept[j] == before[j]);
            assert(kept[m - 1] == stack@[m - 1]@);
            if j < m - 1 {
                assert(post_of(before[j]) < post_of(before[m - 1]));
            }
        }
    }
}

/// Replace complete groups on top of `stack` by their parents until none is
/// left.
fn merge_groups(stack: &mut Vec<CellId>, bound: u64)
    requires
        old(stack)@.len() > 0,
        all_valid(cell_views(old(stack)@)),
        separated(cell_views(old(stack)@)),
        groups_end_at_top(cell_views(old(stack)@)),
        forall|j: int|
            0 <= j < old(stack)@.len() ==> start_of(#[trigger] cell_views(old(stack)@)[j]) <= bound,
    ensures
        all_valid(cell_views(final(stack)@)),
        separated(cell_views(final(stack)@)),
        no_complete_group(cell_views(final(stack)@)),
        forall|j: int|
            0 <= j < final(stack)@.len() ==> start_of(#[trigger] cell_views(final(stack)@)[j])
                <= bound,
        same_leaves(cell_views(final(stack)@), cell_views(old(stack)@)),
{
    let ghost original = cell_views(stack@);
    loop
        invariant
            stack@.len() > 0,
            all_valid(cell_views(stack@)),
            separated(cell_views(stack@)),
            groups_end_at_top(cell_views(stack@)),
            forall|j: int|
                0 <= j < stack@.len() ==> start_of(#[trigger] cell_views(stack@)[j]) <= bound,
            same_leaves(cell_views(stack@), original),
        ensures
            all_valid(cell_views(stack@)),
            separated(cell_views(stack@)),
            no_complete_group(cell_views(stack@)),
            forall|j: int|
                0 <= j < stack@.len() ==> start_of(#[trigger] cell_views(stack@)[j]) <= bound,
            same_leaves(cell_views(stack@), original),
        decreases stack@.len(),
    {
        let ghost v = cell_views(stack@);
        match completed_parent(&stack) {
            None => {
                proof {
                    assert forall|face: Face, parent: Seq<u8>|
                        parent.len() < 15 implies !#[trigger] complete_group(v, face, parent) by {
                        if complete_group(v, face, parent) {
                            assert(v.last() == (face, parent.push(8)));
                            assert(valid_digits(v[v.len() - 1].1));
                            assert(valid_digits(parent)) by {
                                assert forall|x: int| 0 <= x < parent.len() implies #[trigger] parent[x]
                                    < 9 by {
                                    assert(parent[x] == parent.push(8)[x]);
                                }
                            }
                            lemma_group_at_top(v, face, parent);
                        }
                    }
                }
                break;
            }
            Some(parent) => {
                let n2 = stack.len();
                stack.truncate(n2 - 9);
                stack.push(parent);
                proof {
                    let w = cell_views(stack@);
                    assert(w =~= v.take(n2 - 9).push(parent@));
                    lemma_merge_leaves(v, parent@.0, parent@.1);
                    lemma_same_leaves_trans(w, v, original);
                    lemma_merge_separated(v, parent@.0, parent@.1);
                    assert forall|g: Face, q: Seq<u8>|
                        q.len() < 15 && #[trigger] complete_group(w, g, q) implies w.len() > 0
                        && w.last() == (g, q.push(8)) by {
                        lemma_merge_groups(v, parent@.0, parent@.1, g, q);
                    }
                    assert forall|j: int| 0 <= j < w.len() implies start_of(#[trigger] w[j])
                        <= bound by {
                        if j < n2 - 9 {
                            assert(w[j] == v[j]);
                        } else {
                            assert(start_of(v[n2 - 9]) <= bound);
                        }
                    }
                }
            }
        }
    }
}

/// After pushing a cell beyond all others onto cells without complete
/// groups, every complete group ends with the pushed cell.
#[verifier::rlimit(40)]
proof fn lemma_groups_after_push(
    before: Seq<CellView>,
    m: int,
    c: CellView,
    face: Face,
    parent: Seq<u8>,
)
    requires
        0 <= m <= before.len(),
        all_valid(before),
        no_complete_group(before),
        valid_digits(c.1),
        forall|j: int| 0 <= j < m ==> post_of(#[trigger] before[j]) < start_of(c),
        parent.len() < 15,
        complete_group(before.take(m).push(c), face, parent),
    ensures
        before.take(m).push(c).last() == (face, parent.push(8)),
{
    let v = before.take(m).push(c);
    if c.0 == face && c.1.len() == parent.len() + 1 && c.1.drop_last() =~= parent {
        let d = c.1.last();
        assert(c.1 =~= parent.push(d));
        if d < 8 {
            assert(valid_digits(parent)) by {
                assert forall|x: int| 0 <= x < parent.len() implies #[trigger] parent[x] < 9 by {
                    assert(parent[x] == c.1[x]);
                }
            }
            lemma_sibling_posts(face, parent);
            assert(v.contains((face, parent.push(8u8))));
            let i = choose|i: int| 0 <= i < v.len() && v[i] == (face, parent.push(8u8));
            if i == m {
                assert(parent.push(8u8)[parent.len() as int] == c.1[parent.len() as int]);
            } else {
                assert(v[i] == before[i]);
                lemma_start_below_post(c);
                assert(post_of((face, parent.push(d))) < post_of((face, parent.push(8u8))));
            }
        }
    } else {
        assert forall|d: u8| d < 9 implies #[trigger] before.contains((face, parent.push(d))) by {
            assert(v.contains((face, parent.push(d))));
            let i = choose|i: int| 0 <= i < v.len() && v[i] == (face, parent.push(d));
            if i == m {
                assert(parent.push(d).drop_last() =~= parent);
            }
            assert(before[i] == v[i]);
        }
        assert(complete_group(before, face, parent));
    }
}

/// Pushing a cell whose subtree starts after all others keeps cells
/// separated and leaves every complete group ending with the pushed cell.
proof fn lemma_push_beyond(before: Seq<CellView>, m: int, c: CellView)
    requires
        0 <= m <= before.len(),
        all_valid(before),
        separated(before),
        no_complete_group(before),
        valid_digits(c.1),
        forall|j: int| 0 <= j < m ==> post_of(#[trigger] before[j]) < start_of(c),
    ensures
        all_valid(before.take(m).push(c)),
        separated(before.take(m).push(c)),
        groups_end_at_top(before.take(m).push(c)),
{
    let v = before.take(m).push(c);
    assert forall|i: int| 0 <= i < v.len() implies valid_digits(#[trigger] v[i].1) by {
        if i < m {
            assert(v[i] == before[i]);
        }
    }
    assert forall|i: int, j: int| 0 <= i < j < v.len() implies post_of(#[trigger] v[i]) < start_of(
        #[trigger] v[j],
    ) by {
        assert(v[i] == before[i]);
        if j < m {
            assert(v[j] == before[j]);
        }
    }
    assert forall|face: Face, parent: Seq<u8>|
        parent.len() < 15 && #[trigger] complete_group(v, face, parent) implies v.len() > 0
        && v.last() == (face, parent.push(8)) by {
        lemma_groups_after_push(before, m, c, face, parent);
    }
}

/// Replacing a complete group on top of separated cells by its parent keeps
/// them valid and separated.
#[verifier::rlimit(40)]
proof fn lemma_merge_separated(cells: Seq<CellView>, face: Face, parent: Seq<u8>)
    requires
        all_valid(cells),
        separated(cells),
        valid_digits(parent),
        parent.len() < 15,
        top_group(cells, face, parent),
    ensures
        all_valid(cells.take(cells.len() - 9).push((face, parent))),
        separated(cells.take(cells.len() - 9).push((face, parent))),
        start_of((face, parent)) == start_of(cells[cells.len() - 9]),
{
    let n = cells.len() as int;
    let w = cells.take(n - 9).push((face, parent));
    lemma_sibling_posts(face, parent);
    assert(cells[n - 9 + 0u8] == (face, parent.push(0u8)));
    assert forall|i: int| 0 <= i < w.len() implies valid_digits(#[trigger] w[i].1) by {
        if i < n - 9 {
            assert(w[i] == cells[i]);
        }
    }
    assert forall|i: int, j: int| 0 <= i < j < w.len() implies post_of(#[trigger] w[i]) < start_of(
        #[trigger] w[j],
    ) by {
        assert(w[i] == cells[i]);
        if j < n - 9 {
            assert(w[j] == cells[j]);
        } else {
            assert(post_of(cells[i]) < start_of(cells[n - 9]));
        }
    }
}

/// Replacing a complete group on top by its parent leaves every complete
/// group ending with the top.
proof fn lemma_merge_groups(cells: Seq<CellView>, face: Face, parent: Seq<u8>, g: Face, q: Seq<u8>)
    requires
        all_valid(cells),
        separated(cells),
        groups_end_at_top(cells),
        valid_digits(parent),
        parent.len() < 15,
        top_group(cells, face, parent),
        q.len() < 15,
        complete_group(cells.take(cells.len() - 9).push((face, parent)), g, q),
    ensures
        cells.take(cells.len() - 9).push((face, parent)).last() == (g, q.push(8)),
{
    let n = cells.len() as int;
    let w = cells.take(n - 9).push((face, parent));
    lemma_merge_separated(cells, face, parent);
    lemma_separated_sorted(w);
    lemma_start_below_post((face, parent));
    if face == g && parent.len() == q.len() + 1 && parent.drop_last() =~= q {
        let d = parent.last();
        assert(parent =~= q.push(d));
        if d < 8 {
            assert(valid_digits(q)) by {
                assert forall|x: int| 0 <= x < q.len() implies #[trigger] q[x] < 9 by {
                    assert(q[x] == parent[x]);
                }
            }
            lemma_sibling_posts(g, q);
            assert(w.contains((g, q.push(8u8))));
            let i8 = choose|i: int| 0 <= i < w.len() && w[i] == (g, q.push(8u8));
            if i8 == n - 9 {
                assert(q.push(8u8)[q.len() as int] == parent[q.len() as int]);
            } else {
                assert(post_of(w[i8]) < post_of(w[n - 9]));
                assert(post_of((g, q.push(d))) < post_of((g, q.push(8u8))));
            }
        }
    } else {
        assert forall|d: u8| d < 9 implies #[trigger] cells.contains((g, q.push(d))) by {
            assert(w.contains((g, q.push(d))));
            let i = choose|i: int| 0 <= i < w.len() && w[i] == (g, q.push(d));
            if i == n - 9 {
                assert(q.push(d).drop_last() =~= q);
            }
            assert(cells[i] == w[i]);
        }
        assert(complete_group(cells, g, q));
        assert(cells.last() == (g, q.push(8)));
        assert(cells[n - 9 + 8u8] == (face, parent.push(8u8)));
        assert(q =~= q.push(8).drop_last());
        assert(parent =~= parent.push(8u8).drop_last());
        assert(w.contains((g, q.push(8u8))));
        let i8 = choose|i: int| 0 <= i < w.len() && w[i] == (g, q.push(8u8));
        if i8 == n - 9 {
            assert(q.push(8u8).drop_last() =~= q);
        }
        assert(cells[i8] == cells[n - 1]);
        lemma_separated_sorted(cells);
        assert(post_of(cells[i8]) < post_of(cells[n - 1]));
    }
}

/// Compact a set of cells: the unique set, in post-order, with the same
/// finest-resolution cells below it, in which no cell contains another and
/// no nine siblings are all present.
pub fn compact_cells(cells: Vec<CellId>) -> (r: Vec<CellId>)
    ensures
        compacted(cell_views(r@)),
        same_leaves(cell_views(cells@), cell_views(r@)),
{
    let all_keys = post_keys(&cells);
    let keys = sorted_distinct(all_keys);
    let ghost inputs = cell_views(cells@);
    proof {
        lemma_keys_cover(inputs, all_keys@, keys@);
    }
    let mut stack: Vec<CellId> = Vec::new();
    proof {
        let e = cell_views(stack@);
        assert(e =~= Seq::<CellView>::empty());
        assert(key_cells(keys@.take(0)) =~= Seq::<CellView>::empty());
        assert forall|face: Face, parent: Seq<u8>|
            parent.len() < 15 implies !#[trigger] complete_group(e, face, parent) by {
            if complete_group(e, face, parent) {
                assert(e.contains((face, parent.push(0u8))));
            }
        }
    }
    let mut i: usize = 0;
    while i < keys.len()
        invariant
            i <= keys@.len(),
            strictly_increasing(keys@),
            forall|m: int| 0 <= m < keys@.len() ==> #[trigger] keys@[m] < 6 * subtree_size(0),
            all_valid(cell_views(stack@)),
            separated(cell_views(stack@)),
            no_complete_group(cell_views(stack@)),
            i == 0 ==> stack@.len() == 0,
            i > 0 ==> forall|j: int|
                0 <= j < stack@.len() ==> start_of(#[trigger] cell_views(stack@)[j]) <= keys@[i
                    - 1],
            same_leaves(cell_views(stack@), key_cells(keys@.take(i as int))),
        decreases keys@.len() - i,
    {
        let key = keys[i];
        let c = match CellId::from_post_order_index(key) {
            Ok(c) => c,
            Err(_) => return stack,
        };
        proof {
            if i > 0 {
                assert(keys@[i - 1] < keys@[i as int]);
            }
        }
        let ghost old_views = cell_views(stack@);
        absorb(&mut stack, c);
        proof {
            assert(key_cells(keys@.take(i + 1)) =~= key_cells(keys@.take(i as int)).push(c@));
            lemma_same_leaves_push(old_views, key_cells(keys@.take(i as int)), c@);
            lemma_same_leaves_trans(
                cell_views(stack@),
                old_views.push(c@),
                key_cells(keys@.take(i + 1)),
            );
        }
        i += 1;
    }
    proof {
        assert(keys@.take(keys@.len() as int) =~= keys@);
        lemma_same_leaves_trans(cell_views(stack@), key_cells(keys@), inputs);
        lemma_separated_sorted(cell_views(stack@));
    }
    stack
}

/// The cells with the given post-order numbers.
pub open spec fn key_cells(keys: Seq<u64>) -> Seq<CellView> {
    keys.map_values(|k: u64| cell_of_post_index(k as nat))
}

/// The post-order numbers of the cells, in the same order.
pub(crate) fn post_keys(cells: &Vec<CellId>) -> (keys: Vec<u64>)
    ensures
        keys@.len() == cells@.len(),
        forall|j: int|
            0 <= j < cells@.len() ==> #[trigger] keys@[j] == post_of(cells@[j]@) && valid_digits(
                cells@[j]@.1,
            ),
{
    let mut keys: Vec<u64> = Vec::new();
    let mut i: usize = 0;
    while i < cells.len()
        invariant
            i <= cells@.len(),
            keys@.len() == i,
            forall|j: int|
                0 <= j < i ==> #[trigger] keys@[j] == post_of(cells@[j]@) && valid_digits(
                    cells@[j]@.1,
                ),
        decreases cells@.len() - i,
    {
        let _ = cells[i].resolution();
        let key = cells[i].post_order_index();
        keys.push(key);
        assert(keys@[i as int] == post_of(cells@[i as int]@));
        i += 1;
    }
    keys
}

/// Each sequence holds every member of the other.
pub open spec fn same_members(a: Seq<CellView>, b: Seq<CellView>) -> bool {
    &&& forall|i: int| 0 <= i < a.len() ==> b.contains(#[trigger] a[i])
    &&& forall|j: int| 0 <= j < b.len() ==> a.contains(#[trigger] b[j])
}

/// The distinct cells of `cells`, in post-order.
pub open spec fn in_post_order(cells: Seq<CellView>) -> Seq<CellView> {
    choose|v: Seq<CellView>| post_sorted(v) && same_members(v, cells)
}

/// A post-ordered sequence with the members of `cells` is the one that
/// `in_post_order` names.
pub proof fn lemma_in_post_order(cells: Seq<CellView>, v: Seq<CellView>)
    requires
        post_sorted(v),
        same_members(v, cells),
    ensures
        in_post_order(cells) == v,
{
    let w = in_post_order(cells);
    assert(post_sorted(w) && same_members(w, cells));
    assert forall|i: int| 0 <= i < w.len() implies v.contains(#[trigger] w[i]) by {
        assert(cells.contains(w[i]));
        let j = choose|j: int| 0 <= j < cells.len() && cells[j] == w[i];
        assert(v.contains(cells[j]));
    }
    assert forall|i: int| 0 <= i < v.len() implies w.contains(#[trigger] v[i]) by {
        assert(cells.contains(v[i]));
        let j = choose|j: int| 0 <= j < cells.len() && cells[j] == v[i];
        assert(w.contains(cells[j]));
    }
    lemma_sorted_unique(w, v);
}

/// The distinct post-order numbers of a set of cells, in increasing order,
/// stand for the distinct cells in post-order.
pub(crate) proof fn lemma_keys_cover(inputs: Seq<CellView>, all_keys: Seq<u64>, keys: Seq<u64>)
    requires
        all_keys.len() == inputs.len(),
        forall|j: int|
            0 <= j < inputs.len() ==> #[trigger] all_keys[j] == post_of(inputs[j]) && valid_digits(
                inputs[j].1,
            ),
        keys.to_set() == all_keys.to_set(),
        strictly_increasing(keys),
    ensures
        forall|m: int| 0 <= m < keys.len() ==> #[trigger] keys[m] < 6 * subtree_size(0),
        forall|m: int| 0 <= m < keys.len() ==> post_of(#[trigger] key_cells(keys)[m]) == keys[m],
        all_valid(key_cells(keys)),
        post_sorted(key_cells(keys)),
        same_members(key_cells(keys), inputs),
        in_post_order(inputs) == key_cells(keys),
        forall|z: CellView| #[trigger] covers(key_cells(keys), z) <==> covers(inputs, z),
        same_leaves(key_cells(keys), inputs),
{
    let kc = key_cells(keys);
    assert forall|m: int| 0 <= m < keys.len() implies #[trigger] keys[m] < 6 * subtree_size(0) by {
        assert(keys.to_set().contains(keys[m]));
        assert(all_keys.to_set().contains(keys[m]));
        let j = choose|j: int| 0 <= j < all_keys.len() && all_keys[j] == keys[m];
        assert(all_keys[j] == post_of(inputs[j]));
        law_post_index_round_trip(inputs[j].0, inputs[j].1);
    }
    assert forall|m: int| 0 <= m < keys.len() implies post_of(#[trigger] kc[m]) == keys[m] && valid_digits(
        kc[m].1,
    ) by {
        crate::cell::law_post_index_onto(keys[m] as nat);
    }
    assert forall|j: int| 0 <= j < inputs.len() implies kc.contains(#[trigger] inputs[j]) by {
        assert(all_keys[j] == post_of(inputs[j]));
        assert(all_keys.to_set().contains(all_keys[j]));
        assert(keys.to_set().contains(all_keys[j]));
        let m = choose|m: int| 0 <= m < keys.len() && keys[m] == all_keys[j];
        law_post_index_round_trip(inputs[j].0, inputs[j].1);
        assert(kc[m] == inputs[j]);
    }
    assert forall|m: int| 0 <= m < kc.len() implies inputs.contains(#[trigger] kc[m]) by {
        assert(keys.to_set().contains(keys[m]));
        assert(all_keys.to_set().contains(keys[m]));
        let j = choose|j: int| 0 <= j < all_keys.len() && all_keys[j] == keys[m];
        assert(all_keys[j] == post_of(inputs[j]));
        law_post_index_round_trip(inputs[j].0, inputs[j].1);
        assert(kc[m] == inputs[j]);
    }
    assert forall|z: CellView| #[trigger] covers(kc, z) <==> covers(inputs, z) by {
        if covers(kc, z) {
            let m = choose|m: int| 0 <= m < kc.len() && #[trigger] contains_view(kc[m], z);
            assert(inputs.contains(kc[m]));
            let j = choose|j: int| 0 <= j < inputs.len() && inputs[j] == kc[m];
            assert(contains_view(inputs[j], z));
        }
        if covers(inputs, z) {
            let j = choose|j: int| 0 <= j < inputs.len() && #[trigger] contains_view(inputs[j], z);
            assert(kc.contains(inputs[j]));
            let m = choose|m: int| 0 <= m < kc.len() && kc[m] == inputs[j];
            assert(contains_view(kc[m], z));
        }
    }
    lemma_in_post_order(inputs, kc);
}

} // verus!

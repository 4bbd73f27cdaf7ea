//! Expansion of cell sets to one resolution.

use vstd::prelude::*;

use crate::cell::{
    cell_of_post_index, law_post_index_round_trip, post_index, validate_resolution, CellId,
    CellView, MAX_EXPANSION,
};
use crate::compaction::{
    all_valid, below, cell_views, compacted, contains_view, covers, first_leaf, in_post_order,
    is_leaf, key_cells, law_compaction_is_canonical, lemma_contains_trans,
    lemma_cover_below_has_group, lemma_first_leaf, lemma_in_post_order, lemma_keys_cover,
    lemma_nested, lemma_same_leaves_trans, lemma_sorted_unique, no_complete_group, post_keys,
    post_of, post_sorted, same_leaves, same_members,
};
use crate::error::{Error, Result};
use crate::keys::sorted_distinct;
use crate::expansion_size::{
    cells_below_any, lemma_cells_below_any_len, lemma_expansion_count_is_total,
    lemma_expansion_count_total, lemma_expansion_len, lemma_post_order_exists,
};
use crate::topology::{cell_key, cells_of_keys};
use crate::numbering::{pow9, subtree_size, to_digits, valid_digits};

verus! {

/// The checks made before expanding distinct cells, taken in the given
/// order, to `resolution`: the first cell finer than the resolution is
/// refused, and the running count of cells to produce must stay within
/// `u64`. Otherwise, the count.
pub open spec fn expansion_count(cells: Seq<CellView>, resolution: nat) -> std::result::Result<
    nat,
    Error,
>
    decreases cells.len(),
{
    if cells.len() == 0 {
        Ok(0)
    } else {
        match expansion_count(cells.drop_last(), resolution) {
            Err(e) => Err(e),
            Ok(total) => {
                let c = cells.last();
                if c.1.len() > resolution {
                    Err(
                        Error::InvalidDescendantResolution {
                            requested: resolution as u8,
                            cell: c.1.len() as u8,
                        },
                    )
                } else if total + pow9((resolution - c.1.len()) as nat) > u64::MAX {
                    Err(Error::ExpansionTooLarge(u64::MAX))
                } else {
                    Ok(total + pow9((resolution - c.1.len()) as nat))
                }
            },
        }
    }
}

/// `out` lists in post-order the cells of `resolution` that lie inside one
/// of `cells`.
pub open spec fn expansion_of(cells: Seq<CellView>, resolution: nat, out: Seq<CellView>) -> bool {
    &&& post_sorted(out)
    &&& all_valid(out)
    &&& forall|z: CellView|
        #[trigger] out.contains(z) <==> (valid_digits(z.1) && z.1.len() == resolution && covers(
            cells,
            z,
        ))
}

/// A refusal on a prefix is the refusal on the whole.
proof fn lemma_expansion_refusal_stays(cells: Seq<CellView>, resolution: nat, i: int, j: int)
    requires
        0 <= i <= j <= cells.len(),
        expansion_count(cells.take(i), resolution) is Err,
    ensures
        expansion_count(cells.take(j), resolution) == expansion_count(cells.take(i), resolution),
    decreases j - i,
{
    if j > i {
        lemma_expansion_refusal_stays(cells, resolution, i, j - 1);
        assert(cells.take(j).drop_last() =~= cells.take(j - 1));
    }
}

/// Each cell counted is at most as fine as the resolution, and its
/// descendants are part of the count.
proof fn lemma_expansion_count_parts(cells: Seq<CellView>, resolution: nat)
    requires
        expansion_count(cells, resolution) is Ok,
    ensures
        forall|i: int|
            0 <= i < cells.len() ==> #[trigger] cells[i].1.len() <= resolution && pow9(
                (resolution - cells[i].1.len()) as nat,
            ) <= expansion_count(cells, resolution)->Ok_0,
    decreases cells.len(),
{
    if cells.len() > 0 {
        let rest = cells.drop_last();
        lemma_expansion_count_parts(rest, resolution);
        assert forall|i: int| 0 <= i < cells.len() implies #[trigger] cells[i].1.len() <= resolution
            && pow9((resolution - cells[i].1.len()) as nat) <= expansion_count(
            cells,
            resolution,
        )->Ok_0 by {
            if i < cells.len() - 1 {
                assert(rest[i] == cells[i]);
            }
        }
    }
}

/// Expand cells to a common resolution: the distinct cells of `resolution`
/// that lie inside the given cells, in post-order.
pub fn uncompact_cells(cells: Vec<CellId>, resolution: u8) -> (r: Result<Vec<CellId>>)
    ensures
        resolution > 15 ==> r == Err::<Vec<CellId>, Error>(Error::InvalidResolution(resolution)),
        resolution <= 15 ==> match expansion_count(
            in_post_order(cell_views(cells@)),
            resolution as nat,
        ) {
            Err(e) => r == Err::<Vec<CellId>, Error>(e),
            Ok(total) => if total > MAX_EXPANSION {
                r == Err::<Vec<CellId>, Error>(Error::ExpansionTooLarge(total as u64))
            } else {
                r matches Ok(v) && expansion_of(cell_views(cells@), resolution as nat, cell_views(v@))
            },
        },
{
    if let Err(e) = validate_resolution(resolution) {
        return Err(e);
    }
    let all_keys = post_keys(&cells);
    let keys = sorted_distinct(all_keys);
    let ghost inputs = cell_views(cells@);
    let ghost kc = key_cells(keys@);
    proof {
        lemma_keys_cover(inputs, all_keys@, keys@);
    }
    let total = match count_expansion(&keys, resolution) {
        Ok(t) => t,
        Err(e) => return Err(e),
    };
    if total > MAX_EXPANSION {
        return Err(Error::ExpansionTooLarge(total));
    }
    proof {
        lemma_expansion_count_parts(kc, resolution as nat);
    }
    let out_keys = descendant_keys(&keys, resolution);
    let ghost expected = Set::new(
        |z: CellView| valid_digits(z.1) && z.1.len() == resolution && covers(inputs, z),
    );
    let ghost collected = out_keys@;
    let out_sorted = sorted_distinct(out_keys);
    proof {
        assert(kc.len() == keys@.len());
    }
    proof {
        assert forall|key: u64| #[trigger] out_sorted@.contains(key) <==> exists|x: CellView|
            expected.contains(x) && key == cell_key(x) by {
            if out_sorted@.contains(key) {
                assert(out_sorted@.to_set().contains(key));
                assert(collected.to_set().contains(key));
                let m = choose|m: int| 0 <= m < collected.len() && collected[m] == key;
                assert(names_cell_inside(kc, kc.len() as int, resolution as nat, collected[m]));
                let x = cell_of_post_index(key as nat);
                assert(covers(kc, x));
                assert(expected.contains(x));
                assert(key == cell_key(x));
            }
            if exists|x: CellView| expected.contains(x) && key == cell_key(x) {
                let x = choose|x: CellView| expected.contains(x) && key == cell_key(x);
                assert(covers(kc, x));
                let j = choose|j: int| 0 <= j < kc.len() && #[trigger] contains_view(kc[j], x);
                assert(collected.contains(post_index(x.0, x.1) as u64));
                assert(collected.to_set().contains(key));
                assert(out_sorted@.to_set().contains(key));
            }
        }
        assert forall|x: CellView| #[trigger] expected.contains(x) implies valid_digits(x.1) by {}
    }
    let result = cells_of_keys(&out_sorted, Ghost(expected));
    proof {
        let rv = cell_views(result@);
        assert forall|i: int, j: int| 0 <= i < j < rv.len() implies post_of(rv[i]) < post_of(
            rv[j],
        ) by {
            assert(post_index(result@[i]@.0, result@[i]@.1) == out_sorted@[i]);
            assert(post_index(result@[j]@.0, result@[j]@.1) == out_sorted@[j]);
        }
        assert forall|i: int| 0 <= i < rv.len() implies valid_digits(#[trigger] rv[i].1) by {
            assert(expected.contains(result@[i]@));
        }
        assert forall|z: CellView| #[trigger] rv.contains(z) <==> (valid_digits(z.1) && z.1.len()
            == resolution && covers(inputs, z)) by {
            if rv.contains(z) {
                assert(rv.to_set().contains(z));
            }
            if valid_digits(z.1) && z.1.len() == resolution && covers(inputs, z) {
                assert(expected.contains(z));
                assert(rv.to_set().contains(z));
            }
        }
    }
    Ok(result)
}

/// The number `key` names a valid cell of `resolution` inside one of the
/// first `n` cells.
spec fn names_cell_inside(kc: Seq<CellView>, n: int, resolution: nat, key: u64) -> bool {
    let z = cell_of_post_index(key as nat);
    &&& valid_digits(z.1)
    &&& z.1.len() == resolution
    &&& post_of(z) == key
    &&& exists|x: int| 0 <= x < n && #[trigger] contains_view(kc[x], z)
}

/// Every collected number names a cell of `resolution` inside one of the
/// first `n` cells.
spec fn collected_inside(kc: Seq<CellView>, keys: Seq<u64>, n: int, resolution: nat) -> bool {
    forall|m: int| 0 <= m < keys.len() ==> #[trigger] names_cell_inside(kc, n, resolution, keys[m])
}

/// Every cell of `resolution` inside one of the first `n` cells has its
/// number collected.
spec fn collected_all(kc: Seq<CellView>, keys: Seq<u64>, n: int, resolution: nat) -> bool {
    forall|x: int, z: CellView|
        0 <= x < n && valid_digits(z.1) && z.1.len() == resolution && #[trigger] contains_view(
            kc[x],
            z,
        ) ==> keys.contains(post_index(z.0, z.1) as u64)
}

/// The checks made before an expansion, over distinct cells given by their
/// post-order numbers in increasing order; the count of cells it yields.
fn count_expansion(keys: &Vec<u64>, resolution: u8) -> (r: Result<u64>)
    requires
        resolution <= 15,
        forall|m: int| 0 <= m < keys@.len() ==> #[trigger] keys@[m] < 6 * subtree_size(0),
    ensures
        match expansion_count(key_cells(keys@), resolution as nat) {
            Ok(total) => r == Ok::<u64, Error>(total as u64) && total <= u64::MAX,
            Err(e) => r == Err::<u64, Error>(e),
        },
{
    let ghost kc = key_cells(keys@);
    let mut total: u64 = 0;
    let mut i: usize = 0;
    assert(kc.take(0) =~= Seq::<CellView>::empty());
    while i < keys.len()
        invariant
            i <= keys@.len(),
            resolution <= 15,
            kc == key_cells(keys@),
            forall|m: int| 0 <= m < keys@.len() ==> #[trigger] keys@[m] < 6 * subtree_size(0),
            expansion_count(kc.take(i as int), resolution as nat) == Ok::<nat, Error>(total as nat),
        decreases keys@.len() - i,
    {
        let c = match CellId::from_post_order_index(keys[i]) {
            Ok(c) => c,
            Err(e) => return Err(e),
        };
        proof {
            assert(kc.take(i + 1).drop_last() =~= kc.take(i as int));
            assert(kc.take(i + 1).last() == c@);
        }
        let count = match c.descendant_count(resolution) {
            Ok(n) => n,
            Err(e) => {
                proof {
                    let refusal = Error::InvalidDescendantResolution {
                        requested: resolution,
                        cell: c@.1.len() as u8,
                    };
                    assert(c@.1.len() > resolution);
                    assert(e == refusal);
                    assert(expansion_count(kc.take(i + 1), resolution as nat) == Err::<nat, Error>(
                        refusal,
                    ));
                    lemma_expansion_refusal_stays(kc, resolution as nat, i + 1, kc.len() as int);
                    assert(kc.take(kc.len() as int) =~= kc);
                }
                return Err(e);
            },
        };
        proof {
            crate::numbering::lemma_pow9_bounded((resolution - c@.1.len()) as nat);
        }
        total = match total.checked_add(count) {
            Some(t) => t,
            None => {
                proof {
                    assert(count == pow9((resolution - c@.1.len()) as nat));
                    assert(expansion_count(kc.take(i + 1), resolution as nat) == Err::<nat, Error>(
                        Error::ExpansionTooLarge(u64::MAX),
                    ));
                    lemma_expansion_refusal_stays(kc, resolution as nat, i + 1, kc.len() as int);
                    assert(kc.take(kc.len() as int) =~= kc);
                }
                return Err(Error::ExpansionTooLarge(u64::MAX));
            },
        };
        i += 1;
    }
    proof {
        assert(kc.take(kc.len() as int) =~= kc);
    }
    Ok(total)
}

/// Append the post-order numbers of the descendants of `c` at `resolution`.
fn push_descendant_keys(out: &mut Vec<u64>, c: &CellId, resolution: u8)
    requires
        c@.1.len() <= resolution <= 15,
        pow9((resolution - c@.1.len()) as nat) <= MAX_EXPANSION,
    ensures
        ({
            let width = (resolution - c@.1.len()) as nat;
            &&& final(out)@.len() == old(out)@.len() + pow9(width)
            &&& forall|m: int| 0 <= m < old(out)@.len() ==> final(out)@[m] == old(out)@[m]
            &&& forall|x: int|
                0 <= x < pow9(width) ==> #[trigger] final(out)@[old(out)@.len() + x] == post_of(
                    (c@.0, c@.1 + to_digits(x as nat, width)),
                ) && valid_digits(c@.1 + to_digits(x as nat, width))
        }),
{
    let descendants = match c.descendants(resolution) {
        Ok(v) => v,
        Err(_) => return,
    };
    let ghost width = (resolution - c@.1.len()) as nat;
    let ghost before = out@;
    let mut j: usize = 0;
    while j < descendants.len()
        invariant
            j <= descendants@.len(),
            descendants@.len() == pow9(width),
            width == resolution - c@.1.len(),
            forall|x: int|
                0 <= x < descendants@.len() ==> #[trigger] descendants@[x]@ == (
                    c@.0,
                    c@.1 + to_digits(x as nat, width),
                ),
            out@.len() == before.len() + j,
            forall|m: int| 0 <= m < before.len() ==> out@[m] == before[m],
            forall|x: int|
                0 <= x < j ==> #[trigger] out@[before.len() + x] == post_of(descendants@[x]@)
                    && valid_digits(descendants@[x]@.1),
        decreases descendants@.len() - j,
    {
        let _ = descendants[j].resolution();
        let key = descendants[j].post_order_index();
        out.push(key);
        proof {
            assert(out@[before.len() + j] == post_of(descendants@[j as int]@));
        }
        j += 1;
    }
}

/// The post-order numbers of the cells of `resolution` inside the cells with
/// the given numbers, possibly repeated.
fn descendant_keys(keys: &Vec<u64>, resolution: u8) -> (out: Vec<u64>)
    requires
        resolution <= 15,
        forall|m: int| 0 <= m < keys@.len() ==> #[trigger] keys@[m] < 6 * subtree_size(0),
        forall|m: int|
            0 <= m < keys@.len() ==> #[trigger] key_cells(keys@)[m].1.len() <= resolution && pow9(
                (resolution - key_cells(keys@)[m].1.len()) as nat,
            ) <= MAX_EXPANSION,
    ensures
        collected_inside(key_cells(keys@), out@, keys@.len() as int, resolution as nat),
        collected_all(key_cells(keys@), out@, keys@.len() as int, resolution as nat),
{
    let ghost kc = key_cells(keys@);
    let mut out: Vec<u64> = Vec::new();
    let mut i: usize = 0;
    while i < keys.len()
        invariant
            i <= keys@.len(),
            resolution <= 15,
            kc == key_cells(keys@),
            forall|m: int| 0 <= m < keys@.len() ==> #[trigger] keys@[m] < 6 * subtree_size(0),
            forall|m: int|
                0 <= m < kc.len() ==> #[trigger] kc[m].1.len() <= resolution && pow9(
                    (resolution - kc[m].1.len()) as nat,
                ) <= MAX_EXPANSION,
            collected_inside(kc, out@, i as int, resolution as nat),
            collected_all(kc, out@, i as int, resolution as nat),
        decreases keys@.len() - i,
    {
        let c = match CellId::from_post_order_index(keys[i]) {
            Ok(c) => c,
            Err(_) => return out,
        };
        assert(kc[i as int] == c@);
        let ghost before = out@;
        let ghost width = (resolution - c@.1.len()) as nat;
        push_descendant_keys(&mut out, &c, resolution);
        proof {
            let cv = c@;
            let n1 = i + 1;
            assert forall|m: int| 0 <= m < out@.len() implies #[trigger] names_cell_inside(
                kc,
                n1,
                resolution as nat,
                out@[m],
            ) by {
                if m < before.len() {
                    assert(out@[m] == before[m]);
                    assert(names_cell_inside(kc, i as int, resolution as nat, before[m]));
                    let z = cell_of_post_index(before[m] as nat);
                    let x = choose|x: int| 0 <= x < i && #[trigger] contains_view(kc[x], z);
                    assert(contains_view(kc[x], z));
                } else {
                    let x = m - before.len();
                    let d = (cv.0, cv.1 + to_digits(x as nat, width));
                    assert(out@[before.len() + x] == post_of(d));
                    crate::numbering::lemma_to_digits_shape(x as nat, width);
                    law_post_index_round_trip(d.0, d.1);
                    assert(d.1.subrange(0, cv.1.len() as int) =~= cv.1);
                    assert(contains_view(kc[i as int], cell_of_post_index(out@[m] as nat)));
                }
            }
            assert forall|x: int, z: CellView|
                0 <= x < n1 && valid_digits(z.1) && z.1.len() == resolution
                    && #[trigger] contains_view(kc[x], z) implies out@.contains(
                post_index(z.0, z.1) as u64,
            ) by {
                if x < i {
                    assert(before.contains(post_index(z.0, z.1) as u64));
                    let m = choose|m: int|
                        0 <= m < before.len() && before[m] == post_index(z.0, z.1) as u64;
                    assert(out@[m] == before[m]);
                } else {
                    crate::cell::law_descendants_complete(cv.1, z.1);
                    let idx = crate::numbering::digits_value(
                        z.1.subrange(cv.1.len() as int, z.1.len() as int),
                    );
                    law_post_index_round_trip(z.0, z.1);
                    assert(out@[before.len() + idx as int] == post_of(z));
                }
            }
            assert(collected_inside(kc, out@, n1, resolution as nat));
            assert(collected_all(kc, out@, n1, resolution as nat));
        }
        i += 1;
    }
    out
}

/// Within `resolution`, a cell of that resolution lies inside one of the
/// cells exactly when its first leaf does.
proof fn lemma_cover_at_resolution(cells: Seq<CellView>, resolution: nat, z: CellView)
    requires
        forall|i: int| 0 <= i < cells.len() ==> #[trigger] cells[i].1.len() <= resolution,
        valid_digits(z.1),
        z.1.len() == resolution,
    ensures
        covers(cells, z) <==> covers(cells, first_leaf(z)),
{
    lemma_first_leaf(z);
    let w = first_leaf(z);
    if covers(cells, z) {
        let i = choose|i: int| 0 <= i < cells.len() && #[trigger] contains_view(cells[i], z);
        lemma_contains_trans(cells[i], z, w);
    }
    if covers(cells, w) {
        let i = choose|i: int| 0 <= i < cells.len() && #[trigger] contains_view(cells[i], w);
        lemma_nested(cells[i], z, w);
    }
}

/// Expanding cells no finer than `resolution` keeps their leaves.
pub proof fn law_expansion_keeps_leaves(cells: Seq<CellView>, resolution: nat, out: Seq<CellView>)
    requires
        all_valid(cells),
        resolution <= 15,
        forall|i: int| 0 <= i < cells.len() ==> #[trigger] cells[i].1.len() <= resolution,
        expansion_of(cells, resolution, out),
    ensures
        same_leaves(cells, out),
{
    assert forall|z: CellView| #[trigger] is_leaf(z) implies (covers(cells, z) <==> covers(out, z)) by {
        let y = (z.0, z.1.take(resolution as int));
        assert(valid_digits(y.1)) by {
            assert forall|j: int| 0 <= j < y.1.len() implies #[trigger] y.1[j] < 9 by {
                assert(y.1[j] == z.1[j]);
            }
        }
        assert(contains_view(y, z)) by {
            assert(y.1 =~= z.1.subrange(0, y.1.len() as int));
        }
        if covers(cells, z) {
            let i = choose|i: int| 0 <= i < cells.len() && #[trigger] contains_view(cells[i], z);
            lemma_nested(cells[i], y, z);
            assert(covers(cells, y));
            assert(out.contains(y));
            let k = choose|k: int| 0 <= k < out.len() && out[k] == y;
            assert(contains_view(out[k], z));
        }
        if covers(out, z) {
            let k = choose|k: int| 0 <= k < out.len() && #[trigger] contains_view(out[k], z);
            assert(out.contains(out[k]));
            assert(covers(cells, out[k]));
            let i = choose|i: int| 0 <= i < cells.len() && #[trigger] contains_view(cells[i], out[k]);
            lemma_contains_trans(cells[i], out[k], z);
        }
    }
}

/// Sets with the same leaves, no finer than `resolution`, expand to the
/// same cells there.
pub proof fn law_expansions_agree(
    a: Seq<CellView>,
    b: Seq<CellView>,
    resolution: nat,
    x: Seq<CellView>,
    y: Seq<CellView>,
)
    requires
        all_valid(a),
        all_valid(b),
        forall|i: int| 0 <= i < a.len() ==> #[trigger] a[i].1.len() <= resolution,
        forall|i: int| 0 <= i < b.len() ==> #[trigger] b[i].1.len() <= resolution,
        same_leaves(a, b),
        expansion_of(a, resolution, x),
        expansion_of(b, resolution, y),
    ensures
        x == y,
{
    assert forall|z: CellView| valid_digits(z.1) && z.1.len() == resolution implies (covers(a, z)
        <==> covers(b, z)) by {
        lemma_cover_at_resolution(a, resolution, z);
        lemma_cover_at_resolution(b, resolution, z);
        lemma_first_leaf(z);
        assert(is_leaf(first_leaf(z)));
    }
    assert forall|i: int| 0 <= i < x.len() implies y.contains(#[trigger] x[i]) by {
        assert(x.contains(x[i]));
    }
    assert forall|j: int| 0 <= j < y.len() implies x.contains(#[trigger] y[j]) by {
        assert(y.contains(y[j]));
    }
    lemma_sorted_unique(x, y);
}


/// A compaction of cells no finer than `resolution` holds no cell finer than
/// `resolution` either.
proof fn lemma_compaction_no_finer(
    cells: Seq<CellView>,
    resolution: nat,
    compact: Seq<CellView>,
    i: int,
)
    requires
        all_valid(cells),
        forall|m: int| 0 <= m < cells.len() ==> #[trigger] cells[m].1.len() <= resolution,
        compacted(compact),
        same_leaves(cells, compact),
        0 <= i < compact.len(),
    ensures
        compact[i].1.len() <= resolution,
{
    let w = compact[i];
    if w.1.len() > resolution {
        lemma_first_leaf(w);
        let z0 = first_leaf(w);
        assert(covers(compact, z0));
        assert(covers(cells, z0));
        let m = choose|m: int| 0 <= m < cells.len() && #[trigger] contains_view(cells[m], z0);
        let x = cells[m];
        lemma_nested(x, w, z0);
        assert forall|z: CellView| #[trigger] is_leaf(z) && contains_view(x, z) implies exists|n: int|
            0 <= n < compact.len() && #[trigger] below(x, compact[n]) && contains_view(compact[n], z) by {
            assert(covers(cells, z));
            assert(covers(compact, z));
            let n = choose|n: int| 0 <= n < compact.len() && #[trigger] contains_view(compact[n], z);
            if compact[n].1.len() <= x.1.len() {
                lemma_nested(compact[n], x, z);
                lemma_contains_trans(compact[n], x, w);
                assert(n != i);
                assert(!contains_view(compact[n], compact[i]));
            } else {
                lemma_nested(x, compact[n], z);
                assert(below(x, compact[n]));
            }
        }
        lemma_cover_below_has_group(compact, x);
        assert(no_complete_group(compact));
    }
}

/// Compaction is lossless. Let `cells`, expanded to `resolution`, pass the
/// checks before an expansion with the count `total` (taken over their
/// distinct members in post-order) and expand to `expanded`; let `compact` be
/// their compaction and `recompact` the compaction of `expanded`. Then the
/// compaction holds no cell finer than `resolution` and passes the same
/// checks with a count of no more than `total`, `expanded` is also the
/// expansion of the compaction and the only one, and compacting the
/// expansion gives the compaction back.
pub proof fn law_compaction_is_lossless(
    cells: Seq<CellView>,
    resolution: nat,
    total: nat,
    compact: Seq<CellView>,
    expanded: Seq<CellView>,
    recompact: Seq<CellView>,
)
    requires
        all_valid(cells),
        resolution <= 15,
        expansion_count(in_post_order(cells), resolution) == Ok::<nat, Error>(total),
        compacted(compact),
        same_leaves(cells, compact),
        expansion_of(cells, resolution, expanded),
        compacted(recompact),
        same_leaves(expanded, recompact),
    ensures
        forall|i: int| 0 <= i < compact.len() ==> #[trigger] compact[i].1.len() <= resolution,
        in_post_order(compact) == compact,
        expansion_count(compact, resolution) == Ok::<nat, Error>(expanded.len()),
        expanded.len() <= total,
        expansion_of(compact, resolution, expanded),
        forall|other: Seq<CellView>| #[trigger] expansion_of(compact, resolution, other) ==> other
            == expanded,
        recompact == compact,
{
    lemma_post_order_exists(cells);
    let distinct = in_post_order(cells);
    lemma_expansion_count_is_total(distinct, resolution, total);
    assert forall|i: int| 0 <= i < cells.len() implies #[trigger] cells[i].1.len() <= resolution by {
        assert(distinct.contains(cells[i]));
        let j = choose|j: int| 0 <= j < distinct.len() && distinct[j] == cells[i];
        assert(distinct[j].1.len() <= resolution);
    }
    assert(all_valid(distinct)) by {
        assert forall|j: int| 0 <= j < distinct.len() implies valid_digits(#[trigger] distinct[j].1) by {
            assert(cells.contains(distinct[j]));
            let i = choose|i: int| 0 <= i < cells.len() && cells[i] == distinct[j];
            assert(valid_digits(cells[i].1));
        }
    }
    assert forall|i: int| 0 <= i < compact.len() implies #[trigger] compact[i].1.len() <= resolution by {
        lemma_compaction_no_finer(cells, resolution, compact, i);
    }
    assert(expansion_of(compact, resolution, expanded)) by {
        assert forall|z: CellView| valid_digits(z.1) && z.1.len() == resolution implies (covers(
            cells,
            z,
        ) <==> covers(compact, z)) by {
            lemma_cover_at_resolution(cells, resolution, z);
            lemma_cover_at_resolution(compact, resolution, z);
            lemma_first_leaf(z);
            assert(is_leaf(first_leaf(z)));
        }
        assert forall|z: CellView| #[trigger] expanded.contains(z) <==> (valid_digits(z.1) && z.1.len()
            == resolution && covers(compact, z)) by {}
    }
    assert forall|other: Seq<CellView>| #[trigger] expansion_of(compact, resolution, other) implies other
        == expanded by {
        law_expansions_agree(compact, compact, resolution, expanded, other);
    }
    law_expansion_keeps_leaves(cells, resolution, expanded);
    lemma_same_leaves_trans(compact, cells, expanded);
    lemma_same_leaves_trans(compact, expanded, recompact);
    law_compaction_is_canonical(recompact, compact);

    lemma_cells_below_any_len(distinct, resolution);
    lemma_cells_below_any_len(compact, resolution);
    assert(cells_below_any(distinct, resolution) =~= cells_below_any(cells, resolution)) by {
        assert forall|z: CellView| covers(distinct, z) <==> covers(cells, z) by {
            if covers(distinct, z) {
                let j = choose|j: int| 0 <= j < distinct.len() && #[trigger] contains_view(distinct[j], z);
                assert(cells.contains(distinct[j]));
                let i = choose|i: int| 0 <= i < cells.len() && cells[i] == distinct[j];
                assert(contains_view(cells[i], z));
            }
            if covers(cells, z) {
                let i = choose|i: int| 0 <= i < cells.len() && #[trigger] contains_view(cells[i], z);
                assert(distinct.contains(cells[i]));
                let j = choose|j: int| 0 <= j < distinct.len() && distinct[j] == cells[i];
                assert(contains_view(distinct[j], z));
            }
        }
    }
    lemma_expansion_len(cells, resolution, expanded);
    lemma_expansion_len(compact, resolution, expanded);
    lemma_expansion_count_total(compact, resolution);
    assert(same_members(compact, compact));
    lemma_in_post_order(compact, compact);
}

} // verus!

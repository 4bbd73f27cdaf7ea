//! How many cells an expansion yields.

use vstd::prelude::*;
use vstd::set_lib::{lemma_len_union, lemma_set_disjoint_lens};

use crate::cell::CellView;
use crate::cell::lemma_post_index_injective;
use crate::compaction::{
    all_valid, antichain, contains_view, covers, in_post_order, lemma_in_post_order, lemma_nested,
    post_of, post_sorted, same_members,
};
use crate::expansion::{expansion_count, expansion_of};
use crate::numbering::{pow9, valid_digits};

verus! {

/// The cells of `resolution` inside `c`.
pub open spec fn cells_below(c: CellView, resolution: nat) -> Set<CellView> {
    Set::new(|z: CellView| valid_digits(z.1) && z.1.len() == resolution && contains_view(c, z))
}

/// The cells of `resolution` inside one of `cells`.
pub open spec fn cells_below_any(cells: Seq<CellView>, resolution: nat) -> Set<CellView> {
    Set::new(|z: CellView| valid_digits(z.1) && z.1.len() == resolution && covers(cells, z))
}

/// The number of cells of `resolution` inside each of `cells`, summed.
pub open spec fn total_below(cells: Seq<CellView>, resolution: nat) -> nat
    decreases cells.len(),
{
    if cells.len() == 0 {
        0
    } else {
        total_below(cells.drop_last(), resolution) + pow9((resolution - cells.last().1.len()) as nat)
    }
}

/// The cells of `resolution` inside the first `k` children of `c`.
spec fn below_children(c: CellView, resolution: nat, k: nat) -> Set<CellView> {
    Set::new(
        |z: CellView|
            valid_digits(z.1) && z.1.len() == resolution && exists|d: u8|
                d < k && #[trigger] contains_view((c.0, c.1.push(d)), z),
    )
}

proof fn lemma_below_children(c: CellView, resolution: nat, k: nat)
    requires
        valid_digits(c.1),
        c.1.len() < resolution <= 15,
        k <= 9,
        forall|d: u8|
            d < 9 ==> #[trigger] cells_below((c.0, c.1.push(d)), resolution).finite() && cells_below(
                (c.0, c.1.push(d)),
                resolution,
            ).len() == pow9((resolution - c.1.len() - 1) as nat),
    ensures
        below_children(c, resolution, k).finite(),
        below_children(c, resolution, k).len() == k * pow9((resolution - c.1.len() - 1) as nat),
    decreases k,
{
    let n = pow9((resolution - c.1.len() - 1) as nat);
    if k == 0 {
        assert(below_children(c, resolution, 0) =~= Set::<CellView>::empty());
    } else {
        lemma_below_children(c, resolution, (k - 1) as nat);
        let d = (k - 1) as u8;
        let child = (c.0, c.1.push(d));
        let before = below_children(c, resolution, (k - 1) as nat);
        let here = cells_below(child, resolution);
        assert(d == k - 1 && d < 9);
        assert(cells_below((c.0, c.1.push(d)), resolution).finite());
        assert(here.finite() && here.len() == n);
        assert(below_children(c, resolution, k) =~= before + here) by {
            assert forall|z: CellView| below_children(c, resolution, k).contains(z) implies (before
                + here).contains(z) by {
                let e = choose|e: u8| e < k && #[trigger] contains_view((c.0, c.1.push(e)), z);
                if e != d {
                    assert(before.contains(z));
                }
            }
            assert forall|z: CellView| (before + here).contains(z) implies below_children(
                c,
                resolution,
                k,
            ).contains(z) by {
                if before.contains(z) {
                    let e = choose|e: u8| e < k - 1 && #[trigger] contains_view((c.0, c.1.push(e)), z);
                    assert(contains_view((c.0, c.1.push(e)), z));
                } else {
                    assert(contains_view((c.0, c.1.push(d)), z));
                }
            }
        }
        assert(before.disjoint(here)) by {
            assert forall|z: CellView| before.contains(z) implies !here.contains(z) by {
                let e = choose|e: u8| e < k - 1 && #[trigger] contains_view((c.0, c.1.push(e)), z);
                if here.contains(z) {
                    assert(z.1[c.1.len() as int] == c.1.push(e)[c.1.len() as int]);
                    assert(z.1[c.1.len() as int] == c.1.push(d)[c.1.len() as int]);
                }
            }
        }
        lemma_set_disjoint_lens(before, here);
        assert((k - 1) * n + n == k * n) by (nonlinear_arith);
    }
}

/// A cell holds `9` to the power of the resolution gap cells of a finer
/// resolution.
pub proof fn lemma_cells_below_len(c: CellView, resolution: nat)
    requires
        valid_digits(c.1),
        c.1.len() <= resolution <= 15,
    ensures
        cells_below(c, resolution).finite(),
        cells_below(c, resolution).len() == pow9((resolution - c.1.len()) as nat),
    decreases resolution - c.1.len(),
{
    if c.1.len() == resolution {
        assert(cells_below(c, resolution) =~= set![c]) by {
            assert forall|z: CellView| cells_below(c, resolution).contains(z) implies z == c by {
                assert(c.1 =~= z.1.subrange(0, c.1.len() as int));
                assert(z.1 =~= c.1);
            }
            assert(c.1 =~= c.1.subrange(0, c.1.len() as int));
        }
    } else {
        assert forall|d: u8| d < 9 implies #[trigger] cells_below((c.0, c.1.push(d)), resolution).finite()
            && cells_below((c.0, c.1.push(d)), resolution).len() == pow9(
            (resolution - c.1.len() - 1) as nat,
        ) by {
            let child = (c.0, c.1.push(d));
            assert(valid_digits(child.1)) by {
                assert forall|j: int| 0 <= j < child.1.len() implies #[trigger] child.1[j] < 9 by {
                    if j < c.1.len() {
                        assert(child.1[j] == c.1[j]);
                    }
                }
            }
            lemma_cells_below_len(child, resolution);
        }
        lemma_below_children(c, resolution, 9);
        assert(cells_below(c, resolution) =~= below_children(c, resolution, 9)) by {
            assert forall|z: CellView| cells_below(c, resolution).contains(z) implies below_children(
                c,
                resolution,
                9,
            ).contains(z) by {
                let d = z.1[c.1.len() as int];
                let child = (c.0, c.1.push(d));
                assert(child.1 =~= z.1.subrange(0, child.1.len() as int)) by {
                    assert forall|j: int| 0 <= j < child.1.len() implies child.1[j] == z.1[j] by {
                        if j < c.1.len() {
                            assert(c.1[j] == z.1.subrange(0, c.1.len() as int)[j]);
                        }
                    }
                }
                assert(contains_view(child, z));
            }
            assert forall|z: CellView| below_children(c, resolution, 9).contains(z) implies cells_below(
                c,
                resolution,
            ).contains(z) by {
                let e = choose|e: u8| e < 9 && #[trigger] contains_view((c.0, c.1.push(e)), z);
                let child = (c.0, c.1.push(e));
                assert(c.1 =~= z.1.subrange(0, c.1.len() as int)) by {
                    assert forall|j: int| 0 <= j < c.1.len() implies c.1[j] == z.1[j] by {
                        assert(child.1[j] == c.1[j]);
                        assert(child.1[j] == z.1.subrange(0, child.1.len() as int)[j]);
                    }
                }
            }
        }
        assert(9 * pow9((resolution - c.1.len() - 1) as nat) == pow9((resolution - c.1.len()) as nat));
    }
}

/// The cells below some of `cells` number at most the sum over the cells,
/// and exactly that where no cell contains another.
pub proof fn lemma_cells_below_any_len(cells: Seq<CellView>, resolution: nat)
    requires
        all_valid(cells),
        resolution <= 15,
        forall|i: int| 0 <= i < cells.len() ==> #[trigger] cells[i].1.len() <= resolution,
    ensures
        cells_below_any(cells, resolution).finite(),
        cells_below_any(cells, resolution).len() <= total_below(cells, resolution),
        antichain(cells) ==> cells_below_any(cells, resolution).len() == total_below(cells, resolution),
    decreases cells.len(),
{
    if cells.len() == 0 {
        assert(cells_below_any(cells, resolution) =~= Set::<CellView>::empty());
    } else {
        let rest = cells.drop_last();
        let last = cells.last();
        let n = cells.len() - 1;
        assert(all_valid(rest)) by {
            assert forall|i: int| 0 <= i < rest.len() implies valid_digits(#[trigger] rest[i].1) by {
                assert(rest[i] == cells[i]);
            }
        }
        assert forall|i: int| 0 <= i < rest.len() implies #[trigger] rest[i].1.len() <= resolution by {
            assert(rest[i] == cells[i]);
        }
        lemma_cells_below_any_len(rest, resolution);
        assert(valid_digits(cells[n].1));
        assert(cells[n].1.len() <= resolution);
        lemma_cells_below_len(last, resolution);
        let a = cells_below_any(rest, resolution);
        let b = cells_below(last, resolution);
        assert(cells_below_any(cells, resolution) =~= a + b) by {
            assert forall|z: CellView| cells_below_any(cells, resolution).contains(z) implies (a
                + b).contains(z) by {
                let i = choose|i: int| 0 <= i < cells.len() && #[trigger] contains_view(cells[i], z);
                if i < n {
                    assert(rest[i] == cells[i]);
                    assert(covers(rest, z));
                }
            }
            assert forall|z: CellView| (a + b).contains(z) implies cells_below_any(
                cells,
                resolution,
            ).contains(z) by {
                if a.contains(z) {
                    let i = choose|i: int| 0 <= i < rest.len() && #[trigger] contains_view(rest[i], z);
                    assert(rest[i] == cells[i]);
                    assert(contains_view(cells[i], z));
                } else {
                    assert(contains_view(cells[n], z));
                }
            }
        }
        lemma_len_union(a, b);
        if antichain(cells) {
            assert(antichain(rest)) by {
                assert forall|i: int, j: int|
                    0 <= i < rest.len() && 0 <= j < rest.len() && i != j implies !contains_view(
                    #[trigger] rest[i],
                    #[trigger] rest[j],
                ) by {
                    assert(rest[i] == cells[i]);
                    assert(rest[j] == cells[j]);
                    assert(!contains_view(cells[i], cells[j]));
                }
            }
            assert(a.disjoint(b)) by {
                assert forall|z: CellView| a.contains(z) implies !b.contains(z) by {
                    let i = choose|i: int| 0 <= i < rest.len() && #[trigger] contains_view(rest[i], z);
                    assert(rest[i] == cells[i]);
                    if b.contains(z) {
                        if cells[i].1.len() <= last.1.len() {
                            lemma_nested(cells[i], last, z);
                            assert(!contains_view(cells[i], cells[n]));
                        } else {
                            lemma_nested(last, cells[i], z);
                            assert(!contains_view(cells[n], cells[i]));
                        }
                    }
                }
            }
            lemma_set_disjoint_lens(a, b);
        }
    }
}

/// Where no cell is finer than `resolution` and the sum fits `u64`, the
/// checks before an expansion pass and count that sum.
pub proof fn lemma_expansion_count_total(cells: Seq<CellView>, resolution: nat)
    requires
        forall|i: int| 0 <= i < cells.len() ==> #[trigger] cells[i].1.len() <= resolution,
        total_below(cells, resolution) <= u64::MAX,
    ensures
        expansion_count(cells, resolution) == Ok::<nat, crate::error::Error>(total_below(cells, resolution)),
    decreases cells.len(),
{
    if cells.len() > 0 {
        let rest = cells.drop_last();
        assert forall|i: int| 0 <= i < rest.len() implies #[trigger] rest[i].1.len() <= resolution by {
            assert(rest[i] == cells[i]);
        }
        lemma_expansion_count_total(rest, resolution);
        assert(cells.last() == cells[cells.len() - 1]);
    }
}

/// A count that the checks accept is the sum.
pub proof fn lemma_expansion_count_is_total(cells: Seq<CellView>, resolution: nat, total: nat)
    requires
        expansion_count(cells, resolution) == Ok::<nat, crate::error::Error>(total),
    ensures
        total == total_below(cells, resolution),
        total <= u64::MAX,
        forall|i: int| 0 <= i < cells.len() ==> #[trigger] cells[i].1.len() <= resolution,
    decreases cells.len(),
{
    if cells.len() > 0 {
        let rest = cells.drop_last();
        match expansion_count(rest, resolution) {
            Ok(t) => {
                lemma_expansion_count_is_total(rest, resolution, t);
                assert forall|i: int| 0 <= i < cells.len() implies #[trigger] cells[i].1.len()
                    <= resolution by {
                    if i < cells.len() - 1 {
                        assert(rest[i] == cells[i]);
                    }
                }
            },
            Err(e) => {},
        }
    }
}

/// An expansion lists each cell below the given cells once.
pub proof fn lemma_expansion_len(cells: Seq<CellView>, resolution: nat, out: Seq<CellView>)
    requires
        expansion_of(cells, resolution, out),
    ensures
        out.to_set() == cells_below_any(cells, resolution),
        out.len() == cells_below_any(cells, resolution).len(),
{
    assert(out.to_set() =~= cells_below_any(cells, resolution));
    assert(out.no_duplicates()) by {
        assert forall|i: int, j: int| 0 <= i < out.len() && 0 <= j < out.len() && i != j implies out[i]
            != out[j] by {
            if i < j {
                assert(post_of(out[i]) < post_of(out[j]));
            } else {
                assert(post_of(out[j]) < post_of(out[i]));
            }
        }
    }
    out.unique_seq_to_set();
}

/// `cells` with `x` put in its place by post-order number, unless a cell
/// with that number is there already.
spec fn insert_in_post_order(cells: Seq<CellView>, x: CellView) -> Seq<CellView>
    decreases cells.len(),
{
    if cells.len() == 0 {
        seq![x]
    } else if post_of(x) < post_of(cells[0]) {
        seq![x] + cells
    } else if post_of(x) == post_of(cells[0]) {
        cells
    } else {
        seq![cells[0]] + insert_in_post_order(cells.drop_first(), x)
    }
}

proof fn lemma_insert_in_post_order(cells: Seq<CellView>, x: CellView)
    requires
        post_sorted(cells),
        all_valid(cells),
        valid_digits(x.1),
    ensures
        post_sorted(insert_in_post_order(cells, x)),
        forall|y: CellView| #[trigger] insert_in_post_order(cells, x).contains(y) <==> (cells.contains(y)
            || y == x),
        cells.len() > 0 ==> insert_in_post_order(cells, x)[0] == cells[0] || insert_in_post_order(cells, x)[0] == x,
    decreases cells.len(),
{
    let r = insert_in_post_order(cells, x);
    if cells.len() == 0 {
        assert forall|y: CellView| #[trigger] r.contains(y) <==> (cells.contains(y) || y == x) by {
            if r.contains(y) {
                assert(r[0] == y);
            }
            if y == x {
                assert(r[0] == x);
            }
        }
    } else if post_of(x) < post_of(cells[0]) {
        assert forall|y: CellView| #[trigger] r.contains(y) <==> (cells.contains(y) || y == x) by {
            if r.contains(y) {
                let i = choose|i: int| 0 <= i < r.len() && r[i] == y;
                if i > 0 {
                    assert(cells[i - 1] == y);
                }
            }
            if cells.contains(y) {
                let i = choose|i: int| 0 <= i < cells.len() && cells[i] == y;
                assert(r[i + 1] == y);
            }
            if y == x {
                assert(r[0] == x);
            }
        }
        assert forall|i: int, j: int| 0 <= i < j < r.len() implies post_of(r[i]) < post_of(r[j]) by {
            if i == 0 {
                if j > 1 {
                    assert(post_of(cells[0]) < post_of(cells[j - 1]));
                }
            } else {
                assert(r[i] == cells[i - 1] && r[j] == cells[j - 1]);
            }
        }
    } else if post_of(x) == post_of(cells[0]) {
        lemma_post_index_injective(x.0, x.1, cells[0].0, cells[0].1);
        assert forall|y: CellView| #[trigger] r.contains(y) <==> (cells.contains(y) || y == x) by {
            if y == x {
                assert(cells[0] == x);
            }
        }
    } else {
        let rest = cells.drop_first();
        assert(post_sorted(rest)) by {
            assert forall|i: int, j: int| 0 <= i < j < rest.len() implies post_of(rest[i]) < post_of(
                rest[j],
            ) by {
                assert(rest[i] == cells[i + 1] && rest[j] == cells[j + 1]);
            }
        }
        assert(all_valid(rest)) by {
            assert forall|i: int| 0 <= i < rest.len() implies valid_digits(#[trigger] rest[i].1) by {
                assert(rest[i] == cells[i + 1]);
            }
        }
        lemma_insert_in_post_order(rest, x);
        let t = insert_in_post_order(rest, x);
        assert(r == seq![cells[0]] + t);
        assert forall|y: CellView| #[trigger] r.contains(y) <==> (cells.contains(y) || y == x) by {
            if r.contains(y) {
                let i = choose|i: int| 0 <= i < r.len() && r[i] == y;
                if i > 0 {
                    assert(t[i - 1] == y);
                    assert(t.contains(y));
                    if rest.contains(y) {
                        let k = choose|k: int| 0 <= k < rest.len() && rest[k] == y;
                        assert(cells[k + 1] == y);
                    }
                } else {
                    assert(cells[0] == y);
                }
            }
            if cells.contains(y) {
                let i = choose|i: int| 0 <= i < cells.len() && cells[i] == y;
                if i > 0 {
                    assert(rest[i - 1] == y);
                    assert(t.contains(y));
                    let k = choose|k: int| 0 <= k < t.len() && t[k] == y;
                    assert(r[k + 1] == y);
                } else {
                    assert(r[0] == y);
                }
            }
            if y == x {
                assert(t.contains(x));
                let k = choose|k: int| 0 <= k < t.len() && t[k] == x;
                assert(r[k + 1] == x);
            }
        }
        assert forall|i: int, j: int| 0 <= i < j < r.len() implies post_of(r[i]) < post_of(r[j]) by {
            if i == 0 {
                let b = r[j];
                assert(b == t[j - 1]);
                assert(t.contains(b));
                if b != x {
                    assert(rest.contains(b));
                    let k = choose|k: int| 0 <= k < rest.len() && rest[k] == b;
                    assert(cells[k + 1] == b);
                }
            } else {
                assert(r[i] == t[i - 1] && r[j] == t[j - 1]);
            }
        }
    }
}

/// The distinct cells of `cells`, in post-order, built by insertion.
spec fn post_order_of(cells: Seq<CellView>) -> Seq<CellView>
    decreases cells.len(),
{
    if cells.len() == 0 {
        Seq::empty()
    } else {
        insert_in_post_order(post_order_of(cells.drop_last()), cells.last())
    }
}

proof fn lemma_post_order_of(cells: Seq<CellView>)
    requires
        all_valid(cells),
    ensures
        post_sorted(post_order_of(cells)),
        all_valid(post_order_of(cells)),
        same_members(post_order_of(cells), cells),
    decreases cells.len(),
{
    if cells.len() > 0 {
        let rest = cells.drop_last();
        assert(all_valid(rest)) by {
            assert forall|i: int| 0 <= i < rest.len() implies valid_digits(#[trigger] rest[i].1) by {
                assert(rest[i] == cells[i]);
            }
        }
        lemma_post_order_of(rest);
        let v = post_order_of(rest);
        let x = cells.last();
        assert(valid_digits(cells[cells.len() - 1].1));
        lemma_insert_in_post_order(v, x);
        let r = post_order_of(cells);
        assert(r == insert_in_post_order(v, x));
        assert forall|i: int| 0 <= i < r.len() implies cells.contains(#[trigger] r[i]) by {
            assert(r.contains(r[i]));
            if r[i] != x {
                assert(v.contains(r[i]));
                let k = choose|k: int| 0 <= k < v.len() && v[k] == r[i];
                assert(rest.contains(v[k]));
                let m = choose|m: int| 0 <= m < rest.len() && rest[m] == r[i];
                assert(cells[m] == r[i]);
            } else {
                assert(cells[cells.len() - 1] == x);
            }
        }
        assert forall|j: int| 0 <= j < cells.len() implies r.contains(#[trigger] cells[j]) by {
            if j < cells.len() - 1 {
                assert(rest[j] == cells[j]);
                assert(v.contains(rest[j]));
            }
        }
        assert forall|i: int| 0 <= i < r.len() implies valid_digits(#[trigger] r[i].1) by {
            assert(cells.contains(r[i]));
            let m = choose|m: int| 0 <= m < cells.len() && cells[m] == r[i];
            assert(valid_digits(cells[m].1));
        }
    } else {
        assert(post_order_of(cells) =~= Seq::<CellView>::empty());
    }
}

/// Valid cells always have a listing of their distinct members in
/// post-order, which `in_post_order` names.
pub proof fn lemma_post_order_exists(cells: Seq<CellView>)
    requires
        all_valid(cells),
    ensures
        post_sorted(in_post_order(cells)),
        same_members(in_post_order(cells), cells),
{
    lemma_post_order_of(cells);
    lemma_in_post_order(cells, post_order_of(cells));
}

} // verus!

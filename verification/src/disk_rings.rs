//! A grid disk is its rings laid end to end.

use vstd::prelude::*;

use crate::cell::{post_index, CellView};
use crate::topology::{
    disk_listing, grid_distance_refused, law_disks_grow, law_rings_disjoint, oversized, reach, ring,
    ring_listing,
};

verus! {

/// The distance of `c` from the origin: the ring that holds it.
pub open spec fn ring_of(north_square: nat, south_square: nat, origin: CellView, c: CellView) -> nat {
    choose|j: nat| #[trigger] ring(north_square, south_square, origin, j).contains(c)
}

/// The order of a disk listing: by distance, then by post-order number.
pub open spec fn disk_before(
    north_square: nat,
    south_square: nat,
    origin: CellView,
    a: CellView,
    b: CellView,
) -> bool {
    let i = ring_of(north_square, south_square, origin, a);
    let j = ring_of(north_square, south_square, origin, b);
    i < j || (i == j && post_index(a.0, a.1) < post_index(b.0, b.1))
}

/// A sequence strictly increasing in the disk order.
pub open spec fn disk_sorted(north_square: nat, south_square: nat, origin: CellView, s: Seq<CellView>) -> bool {
    forall|p: int, q: int|
        0 <= p < q < s.len() ==> disk_before(north_square, south_square, origin, #[trigger] s[p], #[trigger] s[q])
}

/// A cell within distance `k` lies on one of the rings `0..=k`.
proof fn lemma_reach_rings(north_square: nat, south_square: nat, origin: CellView, k: nat, c: CellView)
    ensures
        reach(north_square, south_square, origin, k).contains(c) <==> exists|j: nat|
            j <= k && #[trigger] ring(north_square, south_square, origin, j).contains(c),
    decreases k,
{
    if k > 0 {
        lemma_reach_rings(north_square, south_square, origin, (k - 1) as nat, c);
        law_disks_grow(north_square, south_square, origin, (k - 1) as nat, k);
        if exists|j: nat| j <= k && #[trigger] ring(north_square, south_square, origin, j).contains(c) {
            let j = choose|j: nat| j <= k && #[trigger] ring(north_square, south_square, origin, j).contains(c);
            if j < k {
                assert(reach(north_square, south_square, origin, (k - 1) as nat).contains(c));
            }
        }
        if reach(north_square, south_square, origin, k).contains(c) {
            if !reach(north_square, south_square, origin, (k - 1) as nat).contains(c) {
                assert(ring(north_square, south_square, origin, k).contains(c));
            }
        }
    } else {
        if exists|j: nat| j <= k && #[trigger] ring(north_square, south_square, origin, j).contains(c) {
            let j = choose|j: nat| j <= k && #[trigger] ring(north_square, south_square, origin, j).contains(c);
            assert(j == 0);
        }
        if reach(north_square, south_square, origin, k).contains(c) {
            assert(ring(north_square, south_square, origin, 0).contains(c));
        }
    }
}

/// A cell on ring `j` has distance `j`.
proof fn lemma_ring_of(north_square: nat, south_square: nat, origin: CellView, j: nat, c: CellView)
    requires
        ring(north_square, south_square, origin, j).contains(c),
    ensures
        ring_of(north_square, south_square, origin, c) == j,
{
    let i = ring_of(north_square, south_square, origin, c);
    assert(ring(north_square, south_square, origin, i).contains(c));
    law_rings_disjoint(north_square, south_square, origin, c, i, j);
}

/// Two sequences strictly increasing in the disk order, with the same
/// members, are equal.
proof fn lemma_disk_sorted_unique(north_square: nat, south_square: nat, origin: CellView, a: Seq<CellView>, b: Seq<CellView>)
    requires
        disk_sorted(north_square, south_square, origin, a),
        disk_sorted(north_square, south_square, origin, b),
        forall|x: CellView| a.contains(x) <==> b.contains(x),
    ensures
        a == b,
    decreases a.len(),
{
    if a.len() == 0 {
        if b.len() > 0 {
            assert(b.contains(b[0]));
        }
        assert(a =~= b);
    } else {
        assert(a.contains(a[0]));
        let j = choose|j: int| 0 <= j < b.len() && b[j] == a[0];
        assert(b.contains(b[0]));
        let k = choose|k: int| 0 <= k < a.len() && a[k] == b[0];
        if j > 0 && k > 0 {
            assert(disk_before(north_square, south_square, origin, b[0], b[j]));
            assert(disk_before(north_square, south_square, origin, a[0], a[k]));
        }
        assert(a[0] == b[0]);
        let a1 = a.drop_first();
        let b1 = b.drop_first();
        assert forall|x: CellView| a1.contains(x) <==> b1.contains(x) by {
            if a1.contains(x) {
                let i = choose|i: int| 0 <= i < a1.len() && a1[i] == x;
                assert(a[i + 1] == x);
                assert(disk_before(north_square, south_square, origin, a[0], a[i + 1]));
                assert(a.contains(x));
                let m = choose|m: int| 0 <= m < b.len() && b[m] == x;
                assert(m != 0);
                assert(b1[m - 1] == x);
            }
            if b1.contains(x) {
                let i = choose|i: int| 0 <= i < b1.len() && b1[i] == x;
                assert(b[i + 1] == x);
                assert(disk_before(north_square, south_square, origin, b[0], b[i + 1]));
                assert(b.contains(x));
                let m = choose|m: int| 0 <= m < a.len() && a[m] == x;
                assert(m != 0);
                assert(a1[m - 1] == x);
            }
        }
        lemma_disk_sorted_unique(north_square, south_square, origin, a1, b1);
        assert(a =~= seq![a[0]] + a1);
        assert(b =~= seq![b[0]] + b1);
    }
}

/// The first `n` rings laid end to end are sorted in the disk order and hold
/// exactly the cells within distance `n - 1`.
proof fn lemma_rings_concat(
    north_square: nat,
    south_square: nat,
    origin: CellView,
    rings: Seq<Seq<CellView>>,
    n: nat,
)
    requires
        n <= rings.len(),
        forall|j: int|
            0 <= j < rings.len() ==> ring_listing(north_square, south_square, origin, j as nat, #[trigger] rings[j]),
    ensures
        disk_sorted(north_square, south_square, origin, rings.take(n as int).flatten_alt()),
        forall|x: CellView|
            #[trigger] rings.take(n as int).flatten_alt().contains(x) <==> exists|j: nat|
                j < n && #[trigger] ring(north_square, south_square, origin, j).contains(x),
    decreases n,
{
    let s = rings.take(n as int);
    if n == 0 {
        assert(s.flatten_alt() =~= Seq::<CellView>::empty());
    } else {
        lemma_rings_concat(north_square, south_square, origin, rings, (n - 1) as nat);
        let x_seq = rings.take(n - 1).flatten_alt();
        let y = rings[n - 1];
        assert(s.drop_last() =~= rings.take(n - 1));
        assert(s.last() == y);
        let f = s.flatten_alt();
        assert(f == x_seq + y);
        assert(ring_listing(north_square, south_square, origin, (n - 1) as nat, y));
        assert forall|x: CellView| #[trigger] f.contains(x) <==> exists|j: nat|
            j < n && #[trigger] ring(north_square, south_square, origin, j).contains(x) by {
            if f.contains(x) {
                let i = choose|i: int| 0 <= i < f.len() && f[i] == x;
                if i < x_seq.len() {
                    assert(x_seq[i] == x);
                    assert(x_seq.contains(x));
                } else {
                    assert(y[i - x_seq.len()] == x);
                    assert(y.to_set().contains(x));
                    assert(ring(north_square, south_square, origin, (n - 1) as nat).contains(x));
                }
            }
            if exists|j: nat| j < n && #[trigger] ring(north_square, south_square, origin, j).contains(x) {
                let j = choose|j: nat| j < n && #[trigger] ring(north_square, south_square, origin, j).contains(x);
                if j < n - 1 {
                    assert(x_seq.contains(x));
                    let i = choose|i: int| 0 <= i < x_seq.len() && x_seq[i] == x;
                    assert(f[i] == x);
                } else {
                    assert(y.to_set().contains(x));
                    let i = choose|i: int| 0 <= i < y.len() && y[i] == x;
                    assert(f[x_seq.len() + i] == x);
                }
            }
        }
        assert forall|p: int, q: int| 0 <= p < q < f.len() implies disk_before(
            north_square,
            south_square,
            origin,
            #[trigger] f[p],
            #[trigger] f[q],
        ) by {
            if q < x_seq.len() {
                assert(f[p] == x_seq[p] && f[q] == x_seq[q]);
            } else {
                let b = f[q];
                assert(b == y[q - x_seq.len()]);
                assert(y.to_set().contains(b));
                lemma_ring_of(north_square, south_square, origin, (n - 1) as nat, b);
                if p < x_seq.len() {
                    let a = f[p];
                    assert(a == x_seq[p]);
                    assert(x_seq.contains(a));
                    let j = choose|j: nat| j < n - 1 && #[trigger] ring(north_square, south_square, origin, j).contains(a);
                    lemma_ring_of(north_square, south_square, origin, j, a);
                } else {
                    let a = f[p];
                    assert(a == y[p - x_seq.len()]);
                    assert(y.to_set().contains(a));
                    lemma_ring_of(north_square, south_square, origin, (n - 1) as nat, a);
                }
            }
        }
    }
}

/// A grid disk is its rings laid end to end: the listing of the cells within
/// distance `k` is the listing of ring `0` (the origin alone), then that of
/// ring `1`, and so on up to ring `k`.
pub proof fn law_disk_is_its_rings(
    north_square: nat,
    south_square: nat,
    origin: CellView,
    k: nat,
    disk: Seq<CellView>,
    rings: Seq<Seq<CellView>>,
)
    requires
        disk_listing(north_square, south_square, origin, k, disk),
        rings.len() == k + 1,
        forall|j: int|
            0 <= j <= k ==> ring_listing(north_square, south_square, origin, j as nat, #[trigger] rings[j]),
    ensures
        rings[0] == seq![origin],
        disk == rings.flatten(),
{
    let r0 = rings[0];
    assert(ring_listing(north_square, south_square, origin, 0, r0));
    assert(r0.to_set().contains(origin));
    assert forall|i: int| 0 <= i < r0.len() implies r0[i] == origin by {
        assert(r0.to_set().contains(r0[i]));
    }
    if r0.len() > 1 {
        assert(post_index(r0[0].0, r0[0].1) < post_index(r0[1].0, r0[1].1));
    }
    assert(r0 =~= seq![origin]);
    lemma_rings_concat(north_square, south_square, origin, rings, k + 1);
    assert(rings.take((k + 1) as int) =~= rings);
    rings.lemma_flatten_and_flatten_alt_are_equivalent();
    let f = rings.flatten_alt();
    assert forall|p: int, q: int| 0 <= p < q < disk.len() implies disk_before(
        north_square,
        south_square,
        origin,
        #[trigger] disk[p],
        #[trigger] disk[q],
    ) by {
        let a = disk[p];
        let b = disk[q];
        assert(disk.to_set().contains(a));
        assert(disk.to_set().contains(b));
        lemma_reach_rings(north_square, south_square, origin, k, a);
        lemma_reach_rings(north_square, south_square, origin, k, b);
        let i = choose|j: nat| j <= k && #[trigger] ring(north_square, south_square, origin, j).contains(a);
        let j = choose|j: nat| j <= k && #[trigger] ring(north_square, south_square, origin, j).contains(b);
        lemma_ring_of(north_square, south_square, origin, i, a);
        lemma_ring_of(north_square, south_square, origin, j, b);
    }
    assert forall|x: CellView| disk.contains(x) <==> f.contains(x) by {
        lemma_reach_rings(north_square, south_square, origin, k, x);
        assert(disk.contains(x) <==> disk.to_set().contains(x));
        if f.contains(x) {
            let j = choose|j: nat| j < k + 1 && #[trigger] ring(north_square, south_square, origin, j).contains(x);
            assert(j <= k);
        }
        if disk.contains(x) {
            let j = choose|j: nat| j <= k && #[trigger] ring(north_square, south_square, origin, j).contains(x);
            assert(j < k + 1);
        }
    }
    lemma_disk_sorted_unique(north_square, south_square, origin, disk, f);
}

/// Where a grid disk to distance `k` succeeds, so does every grid ring up to
/// that distance.
pub proof fn law_disk_rings_succeed(
    north_square: nat,
    south_square: nat,
    origin: CellView,
    k: nat,
    j: nat,
)
    requires
        j <= k,
        !grid_distance_refused(origin.1.len(), k),
        !oversized(north_square, south_square, origin, k),
    ensures
        !grid_distance_refused(origin.1.len(), j),
        !oversized(north_square, south_square, origin, j),
{
}

} // verus!

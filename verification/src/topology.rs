//! Edge-graph topology of same-resolution cells: neighbour predicates,
//! grid disks and rings, and the hierarchical part of the touch predicate.

use vstd::prelude::*;
use std::collections::HashSet;

use crate::cell::{post_index, CellId, CellView, lemma_post_index_injective, cells_at};
use crate::compaction::cell_views;
use crate::dggs::{
    are_planar_neighbors, lemma_planar_neighbor_valid, planar_neighbor_of, RhealpixDggs,
};
use crate::error::{Error, Result};
use crate::face::Direction;
use crate::keys::{sorted_distinct, strictly_increasing};
use crate::numbering::{lemma_pow9_bounded, lemma_subtree_size_values, valid_digits};

verus! {

broadcast use vstd::std_specs::hash::group_hash_axioms;

/// Largest number of cells that a grid traversal may visit.
pub const MAX_GRID_CELLS: usize = 10_000_000;

/// Largest distance accepted where one resolution holds more cells than
/// [`MAX_GRID_CELLS`]: the largest `k` whose unbounded square-grid disk,
/// `1 + 2k(k + 1)`, fits the limit.
pub const MAX_GRID_DISTANCE_AT_LARGE_RESOLUTION: u32 = 2_235;

/// The key under which a cell is found again: its post-order number.
pub open spec fn cell_key(cell: CellView) -> u64 {
    post_index(cell.0, cell.1) as u64
}

/// The four planar neighbours of every cell of `cells`.
pub open spec fn step_all(north_square: nat, south_square: nat, cells: Set<CellView>) -> Set<
    CellView,
> {
    cells.map(|c: CellView| planar_neighbor_of(north_square, south_square, c.0, c.1, Direction::Left))
        + cells.map(
        |c: CellView| planar_neighbor_of(north_square, south_square, c.0, c.1, Direction::Right),
    ) + cells.map(
        |c: CellView| planar_neighbor_of(north_square, south_square, c.0, c.1, Direction::Down),
    ) + cells.map(
        |c: CellView| planar_neighbor_of(north_square, south_square, c.0, c.1, Direction::Up),
    )
}

/// Cells within edge-graph distance `k` of `origin`.
pub open spec fn reach(north_square: nat, south_square: nat, origin: CellView, k: nat) -> Set<
    CellView,
>
    decreases k,
{
    if k == 0 {
        set![origin]
    } else {
        reach(north_square, south_square, origin, (k - 1) as nat) + step_all(
            north_square,
            south_square,
            reach(north_square, south_square, origin, (k - 1) as nat),
        )
    }
}

/// Cells at edge-graph distance exactly `k` from `origin`.
pub open spec fn ring(north_square: nat, south_square: nat, origin: CellView, k: nat) -> Set<
    CellView,
> {
    if k == 0 {
        set![origin]
    } else {
        reach(north_square, south_square, origin, k) - reach(
            north_square,
            south_square,
            origin,
            (k - 1) as nat,
        )
    }
}

/// A grid disk listing: every cell within distance `k` once, grouped by
/// increasing distance and, within one distance, in post-order.
pub open spec fn disk_listing(
    north_square: nat,
    south_square: nat,
    origin: CellView,
    k: nat,
    cells: Seq<CellView>,
) -> bool {
    &&& cells.to_set() == reach(north_square, south_square, origin, k)
    &&& forall|p: int, q: int, i: nat, j: nat|
        0 <= p < q < cells.len() && #[trigger] ring(north_square, south_square, origin, i).contains(
            cells[p],
        ) && #[trigger] ring(north_square, south_square, origin, j).contains(cells[q]) ==> i < j
            || (i == j && post_index(cells[p].0, cells[p].1) < post_index(cells[q].0, cells[q].1))
}

/// A grid ring listing: every cell at distance exactly `k` once, in post-order.
pub open spec fn ring_listing(
    north_square: nat,
    south_square: nat,
    origin: CellView,
    k: nat,
    cells: Seq<CellView>,
) -> bool {
    &&& cells.to_set() == ring(north_square, south_square, origin, k)
    &&& forall|p: int, q: int|
        0 <= p < q < cells.len() ==> post_index(#[trigger] cells[p].0, cells[p].1) < post_index(
            #[trigger] cells[q].0,
            cells[q].1,
        )
}

/// The traversal stops with an error at the first distance whose disk holds
/// more than [`MAX_GRID_CELLS`] cells.
pub open spec fn first_oversized(
    north_square: nat,
    south_square: nat,
    origin: CellView,
    k: nat,
    size: nat,
) -> bool {
    exists|i: nat|
        1 <= i <= k && #[trigger] reach(north_square, south_square, origin, i).len() == size
            && size > MAX_GRID_CELLS && forall|j: nat|
            1 <= j < i ==> #[trigger] reach(north_square, south_square, origin, j).len()
                <= MAX_GRID_CELLS
}

/// Whether some disk up to distance `k` holds more than [`MAX_GRID_CELLS`] cells.
pub open spec fn oversized(north_square: nat, south_square: nat, origin: CellView, k: nat) -> bool {
    exists|i: nat|
        1 <= i <= k && #[trigger] reach(north_square, south_square, origin, i).len()
            > MAX_GRID_CELLS
}

/// Whether a traversal to distance `k` is refused before it starts.
pub open spec fn grid_distance_refused(resolution: nat, k: nat) -> bool {
    cells_at(resolution) > MAX_GRID_CELLS && k > MAX_GRID_DISTANCE_AT_LARGE_RESOLUTION
}

/// Every cell in reach is valid, and the disks are finite.
pub proof fn lemma_reach_valid(north_square: nat, south_square: nat, origin: CellView, k: nat)
    requires
        valid_digits(origin.1),
    ensures
        reach(north_square, south_square, origin, k).finite(),
        forall|c: CellView| #[trigger]
            reach(north_square, south_square, origin, k).contains(c) ==> valid_digits(c.1)
                && c.1.len() == origin.1.len(),
    decreases k,
{
    if k > 0 {
        let previous = reach(north_square, south_square, origin, (k - 1) as nat);
        lemma_reach_valid(north_square, south_square, origin, (k - 1) as nat);
        let fl = |c: CellView| planar_neighbor_of(north_square, south_square, c.0, c.1, Direction::Left);
        let fr = |c: CellView| planar_neighbor_of(north_square, south_square, c.0, c.1, Direction::Right);
        let fd = |c: CellView| planar_neighbor_of(north_square, south_square, c.0, c.1, Direction::Down);
        let fu = |c: CellView| planar_neighbor_of(north_square, south_square, c.0, c.1, Direction::Up);
        previous.lemma_map_finite(fl);
        previous.lemma_map_finite(fr);
        previous.lemma_map_finite(fd);
        previous.lemma_map_finite(fu);
        assert forall|c: CellView| #[trigger]
            reach(north_square, south_square, origin, k).contains(c) implies valid_digits(c.1)
            && c.1.len() == origin.1.len() by {
            if !previous.contains(c) {
                let direction = if previous.map(fl).contains(c) {
                    Direction::Left
                } else if previous.map(fr).contains(c) {
                    Direction::Right
                } else if previous.map(fd).contains(c) {
                    Direction::Down
                } else {
                    Direction::Up
                };
                let y = choose|y: CellView|
                    previous.contains(y) && c == planar_neighbor_of(
                        north_square,
                        south_square,
                        y.0,
                        y.1,
                        direction,
                    );
                lemma_planar_neighbor_valid(north_square, south_square, y.0, y.1, direction);
            }
        }
    }
}

/// Disks grow with the distance.
pub proof fn law_disks_grow(
    north_square: nat,
    south_square: nat,
    origin: CellView,
    i: nat,
    j: nat,
)
    requires
        i <= j,
    ensures
        reach(north_square, south_square, origin, i).subset_of(
            reach(north_square, south_square, origin, j),
        ),
    decreases j,
{
    if i < j {
        law_disks_grow(north_square, south_square, origin, i, (j - 1) as nat);
    }
}

/// A cell lies on at most one ring.
pub proof fn law_rings_disjoint(
    north_square: nat,
    south_square: nat,
    origin: CellView,
    c: CellView,
    i: nat,
    j: nat,
)
    requires
        ring(north_square, south_square, origin, i).contains(c),
        ring(north_square, south_square, origin, j).contains(c),
    ensures
        i == j,
{
    if i < j {
        law_disks_grow(north_square, south_square, origin, i, (j - 1) as nat);
    } else if j < i {
        law_disks_grow(north_square, south_square, origin, j, (i - 1) as nat);
    }
}

/// The next ring consists of the neighbours of the current ring that are not
/// yet in the disk.
pub proof fn lemma_next_ring(north_square: nat, south_square: nat, origin: CellView, k: nat)
    ensures
        ring(north_square, south_square, origin, k + 1) == step_all(
            north_square,
            south_square,
            ring(north_square, south_square, origin, k),
        ) - reach(north_square, south_square, origin, k),
{
    let current = reach(north_square, south_square, origin, k);
    let layer = ring(north_square, south_square, origin, k);
    let fl = |c: CellView| planar_neighbor_of(north_square, south_square, c.0, c.1, Direction::Left);
    let fr = |c: CellView| planar_neighbor_of(north_square, south_square, c.0, c.1, Direction::Right);
    let fd = |c: CellView| planar_neighbor_of(north_square, south_square, c.0, c.1, Direction::Down);
    let fu = |c: CellView| planar_neighbor_of(north_square, south_square, c.0, c.1, Direction::Up);
    assert forall|x: CellView|
        ring(north_square, south_square, origin, k + 1).contains(x) <==> (step_all(
            north_square,
            south_square,
            layer,
        ) - current).contains(x) by {
        if ring(north_square, south_square, origin, k + 1).contains(x) {
            assert(step_all(north_square, south_square, current).contains(x));
            let f = if current.map(fl).contains(x) {
                fl
            } else if current.map(fr).contains(x) {
                fr
            } else if current.map(fd).contains(x) {
                fd
            } else {
                fu
            };
            let y = choose|y: CellView| current.contains(y) && x == f(y);
            if k > 0 {
                let older = reach(north_square, south_square, origin, (k - 1) as nat);
                if older.contains(y) {
                    assert(older.map(f).contains(x));
                    assert(step_all(north_square, south_square, older).contains(x));
                    assert(false);
                }
            }
            assert(layer.contains(y));
            assert(layer.map(f).contains(x));
        }
        if (step_all(north_square, south_square, layer) - current).contains(x) {
            let f = if layer.map(fl).contains(x) {
                fl
            } else if layer.map(fr).contains(x) {
                fr
            } else if layer.map(fd).contains(x) {
                fd
            } else {
                fu
            };
            let y = choose|y: CellView| layer.contains(y) && x == f(y);
            assert(current.contains(y));
            assert(current.map(f).contains(x));
        }
    }
    assert(ring(north_square, south_square, origin, k + 1) =~= step_all(
        north_square,
        south_square,
        layer,
    ) - current);
}

/// Once a ring is empty, the disk stops growing.
pub proof fn lemma_empty_ring_stops(
    north_square: nat,
    south_square: nat,
    origin: CellView,
    i: nat,
    j: nat,
)
    requires
        i <= j,
        ring(north_square, south_square, origin, i + 1).is_empty(),
    ensures
        reach(north_square, south_square, origin, j) == reach(north_square, south_square, origin, i),
    decreases j,
{
    let base = reach(north_square, south_square, origin, i);
    law_disks_grow(north_square, south_square, origin, i, i + 1);
    assert(reach(north_square, south_square, origin, i + 1) =~= base) by {
        assert forall|x: CellView| reach(north_square, south_square, origin, i + 1).contains(x)
            implies base.contains(x) by {
            if !base.contains(x) {
                assert(ring(north_square, south_square, origin, i + 1).contains(x));
            }
        }
    }
    if j > i + 1 {
        lemma_empty_ring_stops(north_square, south_square, origin, i, (j - 1) as nat);
        assert(reach(north_square, south_square, origin, j) == reach(
            north_square,
            south_square,
            origin,
            i + 1,
        ));
    }
}

/// Keys tell valid cells apart.
pub proof fn lemma_cell_key_injective(a: CellView, b: CellView)
    requires
        valid_digits(a.1),
        valid_digits(b.1),
        cell_key(a) == cell_key(b),
    ensures
        a == b,
{
    crate::cell::law_post_index_round_trip(a.0, a.1);
    crate::cell::law_post_index_round_trip(b.0, b.1);
    lemma_subtree_size_values();
    lemma_post_index_injective(a.0, a.1, b.0, b.1);
}

/// Whether `coarse` is the ancestor, at its own resolution, of an edge
/// neighbour of the finer cell `fine`.
pub open spec fn coarse_edge_contact(
    north_square: nat,
    south_square: nat,
    coarse: CellView,
    fine: CellView,
) -> bool {
    exists|direction: Direction|
        #[trigger] is_coarse_neighbor(north_square, south_square, coarse, fine, direction)
}

/// What the touch predicate is, where no geometry decides it: nested cells
/// do not touch; edge neighbours, and coarse cells holding an edge neighbour
/// of the finer cell, do. `None` leaves the answer to corner contact.
pub open spec fn edge_contact_of(
    north_square: nat,
    south_square: nat,
    left: CellView,
    right: CellView,
) -> Option<bool> {
    if (left.0 == right.0 && left.1.is_prefix_of(right.1)) || (right.0 == left.0
        && right.1.is_prefix_of(left.1)) {
        Some(false)
    } else if left.1.len() == right.1.len() && are_planar_neighbors(
        north_square,
        south_square,
        left,
        right,
    ) {
        Some(true)
    } else if left.1.len() < right.1.len() && coarse_edge_contact(
        north_square,
        south_square,
        left,
        right,
    ) {
        Some(true)
    } else if right.1.len() < left.1.len() && coarse_edge_contact(
        north_square,
        south_square,
        right,
        left,
    ) {
        Some(true)
    } else {
        None
    }
}

impl RhealpixDggs {
    /// Return whether two same-resolution cells share an edge.
    ///
    /// A cell is not considered its own neighbour. Polar-square placement is
    /// respected when an edge crosses a resolution-zero face boundary.
    pub fn are_neighbor_cells(&self, origin: &CellId, destination: &CellId) -> (r: Result<bool>)
        ensures
            origin@.1.len() != destination@.1.len() ==> r == Err::<bool, Error>(
                Error::ResolutionMismatch {
                    origin: origin@.1.len() as u8,
                    destination: destination@.1.len() as u8,
                },
            ),
            origin@.1.len() == destination@.1.len() ==> r == Ok::<bool, Error>(
                are_planar_neighbors(self@.0, self@.1, origin@, destination@),
            ),
    {
        let origin_resolution = origin.resolution();
        let destination_resolution = destination.resolution();
        if origin_resolution != destination_resolution {
            return Err(
                Error::ResolutionMismatch {
                    origin: origin_resolution,
                    destination: destination_resolution,
                },
            );
        }
        Ok(self.is_edge_neighbor(origin, destination))
    }

    /// Whether `destination` is a planar edge neighbour of `origin`.
    fn is_edge_neighbor(&self, origin: &CellId, destination: &CellId) -> (r: bool)
        ensures
            r == are_planar_neighbors(self@.0, self@.1, origin@, destination@),
    {
        if origin.same_as(destination) {
            return false;
        }
        let left = self.planar_neighbor(origin, Direction::Left);
        let right = self.planar_neighbor(origin, Direction::Right);
        let down = self.planar_neighbor(origin, Direction::Down);
        let up = self.planar_neighbor(origin, Direction::Up);
        let r = left.same_as(destination) || right.same_as(destination) || down.same_as(
            destination,
        ) || up.same_as(destination);
        proof {
            if !r {
                assert forall|direction: Direction|
                    planar_neighbor_of(
                        self@.0,
                        self@.1,
                        origin@.0,
                        origin@.1,
                        direction,
                    ) != destination@ by {
                    match direction {
                        Direction::Left => {},
                        Direction::Right => {},
                        Direction::Down => {},
                        Direction::Up => {},
                    }
                }
            }
        }
        r
    }

    /// Return the OGC `crosses` predicate for two cells.
    ///
    /// Nested DGGS cells can contain or touch one another, but cannot cross.
    pub fn cells_cross(_left: &CellId, _right: &CellId) -> (r: bool)
        ensures
            !r,
    {
        false
    }

    /// Return the OGC `overlaps` predicate for two cells.
    ///
    /// Partial interior overlap is impossible in one nested DGGS hierarchy.
    pub fn cells_topologically_overlap(_left: &CellId, _right: &CellId) -> (r: bool)
        ensures
            !r,
    {
        false
    }

    /// Decide whether two cells touch where the hierarchy and edge adjacency
    /// decide it; `None` means that the answer rests on whether a corner of
    /// one cell meets a corner of the other.
    pub fn edge_contact(&self, left: &CellId, right: &CellId) -> (r: Option<bool>)
        ensures
            r == edge_contact_of(self@.0, self@.1, left@, right@),
    {
        if left.hierarchically_overlaps(right) {
            return Some(false);
        }
        let left_resolution = left.resolution();
        let right_resolution = right.resolution();
        if left_resolution == right_resolution {
            if self.is_edge_neighbor(left, right) {
                return Some(true);
            }
            return None;
        }
        let swapped = right_resolution < left_resolution;
        let (coarse, fine) = if swapped {
            (right, left)
        } else {
            (left, right)
        };
        if self.touches_coarse_along_edge(coarse, fine) {
            Some(true)
        } else {
            None
        }
    }

    /// Whether an edge neighbour of `fine` lies inside the coarser `coarse`.
    fn touches_coarse_along_edge(&self, coarse: &CellId, fine: &CellId) -> (r: bool)
        requires
            coarse@.1.len() < fine@.1.len(),
            valid_digits(fine@.1),
        ensures
            r == coarse_edge_contact(self@.0, self@.1, coarse@, fine@),
    {
        let resolution = coarse.resolution();
        let mut found = false;
        let directions = [Direction::Left, Direction::Right, Direction::Down, Direction::Up];
        let mut i: usize = 0;
        while i < 4
            invariant
                i <= 4,
                resolution == coarse@.1.len(),
                resolution < fine@.1.len(),
                valid_digits(fine@.1),
                directions@ == seq![Direction::Left, Direction::Right, Direction::Down, Direction::Up],
                found == exists|j: int|
                    0 <= j < i && #[trigger] is_coarse_neighbor(
                        self@.0,
                        self@.1,
                        coarse@,
                        fine@,
                        directions@[j],
                    ),
            decreases 4 - i,
        {
            let neighbor = self.planar_neighbor(fine, directions[i]);
            proof {
                lemma_planar_neighbor_valid(self@.0, self@.1, fine@.0, fine@.1, directions@[i as int]);
            }
            let ancestor = neighbor.parent_at(resolution);
            let hit = match ancestor {
                Ok(a) => a.same_as(coarse),
                Err(_) => false,
            };
            proof {
                assert(hit == is_coarse_neighbor(self@.0, self@.1, coarse@, fine@, directions@[i as int]));
            }
            found = found || hit;
            i += 1;
        }
        proof {
            if found {
                let j = choose|j: int|
                    0 <= j < 4 && #[trigger] is_coarse_neighbor(
                        self@.0,
                        self@.1,
                        coarse@,
                        fine@,
                        directions@[j],
                    );
            } else {
                assert forall|direction: Direction|
                    !#[trigger] is_coarse_neighbor(self@.0, self@.1, coarse@, fine@, direction) by {
                    match direction {
                        Direction::Left => assert(directions@[0] == direction),
                        Direction::Right => assert(directions@[1] == direction),
                        Direction::Down => assert(directions@[2] == direction),
                        Direction::Up => assert(directions@[3] == direction),
                    }
                }
            }
        }
        found
    }
}

/// Whether the neighbour of `fine` in `direction` lies inside `coarse`.
pub open spec fn is_coarse_neighbor(
    north_square: nat,
    south_square: nat,
    coarse: CellView,
    fine: CellView,
    direction: Direction,
) -> bool {
    let neighbor = planar_neighbor_of(north_square, south_square, fine.0, fine.1, direction);
    neighbor.0 == coarse.0 && neighbor.1.take(coarse.1.len() as int) == coarse.1
}

/// Refuse distances that could not stay below [`MAX_GRID_CELLS`] at fine
/// resolutions.
fn validate_grid_size(resolution: u8, k: u32) -> (r: Result<()>)
    requires
        resolution <= 15,
    ensures
        grid_distance_refused(resolution as nat, k as nat) ==> r == Err::<(), Error>(
            Error::GridDistanceTooLarge {
                requested: k,
                maximum: MAX_GRID_DISTANCE_AT_LARGE_RESOLUTION,
            },
        ),
        !grid_distance_refused(resolution as nat, k as nat) ==> r is Ok,
{
    proof {
        lemma_pow9_bounded(resolution as nat);
    }
    let resolution_cell_count = 6 * crate::cell::pow9_u64(resolution);
    if resolution_cell_count > MAX_GRID_CELLS as u64 && k > MAX_GRID_DISTANCE_AT_LARGE_RESOLUTION {
        return Err(
            Error::GridDistanceTooLarge {
                requested: k,
                maximum: MAX_GRID_DISTANCE_AT_LARGE_RESOLUTION,
            },
        );
    }
    Ok(())
}

impl RhealpixDggs {
    /// Return cells whose edge-graph distance from `origin` is at most `k`.
    ///
    /// The origin is first. Remaining cells are grouped by increasing graph
    /// distance, with each distance layer sorted by canonical cell order.
    pub fn grid_disk(&self, origin: &CellId, k: u32) -> (r: Result<Vec<CellId>>)
        ensures
            grid_distance_refused(origin@.1.len(), k as nat) ==> r == Err::<Vec<CellId>, Error>(
                Error::GridDistanceTooLarge {
                    requested: k,
                    maximum: MAX_GRID_DISTANCE_AT_LARGE_RESOLUTION,
                },
            ),
            !grid_distance_refused(origin@.1.len(), k as nat) && oversized(
                self@.0,
                self@.1,
                origin@,
                k as nat,
            ) ==> (r matches Err(Error::ExpansionTooLarge(size)) && first_oversized(
                self@.0,
                self@.1,
                origin@,
                k as nat,
                size as nat,
            )),
            !grid_distance_refused(origin@.1.len(), k as nat) && !oversized(
                self@.0,
                self@.1,
                origin@,
                k as nat,
            ) ==> (r matches Ok(cells) && disk_listing(
                self@.0,
                self@.1,
                origin@,
                k as nat,
                cell_views(cells@),
            )),
    {
        match self.traverse_grid(origin, k, true) {
            Ok((disk, _)) => Ok(disk),
            Err(e) => Err(e),
        }
    }

    /// Return cells whose edge-graph distance from `origin` is exactly `k`.
    ///
    /// Results are sorted by canonical cell order. `k = 0` returns the origin.
    pub fn grid_ring(&self, origin: &CellId, k: u32) -> (r: Result<Vec<CellId>>)
        ensures
            grid_distance_refused(origin@.1.len(), k as nat) ==> r == Err::<Vec<CellId>, Error>(
                Error::GridDistanceTooLarge {
                    requested: k,
                    maximum: MAX_GRID_DISTANCE_AT_LARGE_RESOLUTION,
                },
            ),
            !grid_distance_refused(origin@.1.len(), k as nat) && oversized(
                self@.0,
                self@.1,
                origin@,
                k as nat,
            ) ==> (r matches Err(Error::ExpansionTooLarge(size)) && first_oversized(
                self@.0,
                self@.1,
                origin@,
                k as nat,
                size as nat,
            )),
            !grid_distance_refused(origin@.1.len(), k as nat) && !oversized(
                self@.0,
                self@.1,
                origin@,
                k as nat,
            ) ==> (r matches Ok(cells) && ring_listing(
                self@.0,
                self@.1,
                origin@,
                k as nat,
                cell_views(cells@),
            )),
    {
        match self.traverse_grid(origin, k, false) {
            Ok((_, ring)) => Ok(ring),
            Err(e) => Err(e),
        }
    }

    /// Breadth-first traversal of the planar edge graph to distance `k`:
    /// the disk (when asked for) and the last ring.
    fn traverse_grid(&self, origin: &CellId, k: u32, collect_disk: bool) -> (r: Result<
        (Vec<CellId>, Vec<CellId>),
    >)
        ensures
            grid_distance_refused(origin@.1.len(), k as nat) ==> r == Err::<
                (Vec<CellId>, Vec<CellId>),
                Error,
            >(
                Error::GridDistanceTooLarge {
                    requested: k,
                    maximum: MAX_GRID_DISTANCE_AT_LARGE_RESOLUTION,
                },
            ),
            !grid_distance_refused(origin@.1.len(), k as nat) && oversized(
                self@.0,
                self@.1,
                origin@,
                k as nat,
            ) ==> (r matches Err(Error::ExpansionTooLarge(size)) && first_oversized(
                self@.0,
                self@.1,
                origin@,
                k as nat,
                size as nat,
            )),
            !grid_distance_refused(origin@.1.len(), k as nat) && !oversized(
                self@.0,
                self@.1,
                origin@,
                k as nat,
            ) ==> (r matches Ok(pair) && ring_listing(
                self@.0,
                self@.1,
                origin@,
                k as nat,
                cell_views(pair.1@),
            ) && (collect_disk ==> disk_listing(
                self@.0,
                self@.1,
                origin@,
                k as nat,
                cell_views(pair.0@),
            ))),
    {
        let ghost n = self@.0;
        let ghost s = self@.1;
        let ghost o = origin@;
        let resolution = origin.resolution();
        if let Err(e) = validate_grid_size(resolution, k) {
            return Err(e);
        }
        proof {
            lemma_reach_valid(n, s, o, 0);
            lemma_subtree_size_values();
            crate::cell::law_post_index_round_trip(o.0, o.1);
        }
        let mut visited: HashSet<u64> = HashSet::new();
        visited.insert(origin.post_order_index());
        let mut frontier: Vec<CellId> = Vec::new();
        frontier.push(*origin);
        let mut disk: Vec<CellId> = Vec::new();
        if collect_disk {
            disk.push(*origin);
        }
        proof {
            let key_of = |c: CellView| cell_key(c);
            assert forall|key: u64| visited@.contains(key) <==> reach(n, s, o, 0).map(key_of).contains(
                key,
            ) by {
                if key == cell_key(o) {
                    assert(reach(n, s, o, 0).contains(o));
                }
            }
            assert(visited@ =~= reach(n, s, o, 0).map(key_of));
            assert(cell_views(frontier@) =~= seq![o]);
            assert(cell_views(frontier@).to_set() =~= ring(n, s, o, 0)) by {
                assert(seq![o].to_set() =~= set![o]) by {
                    assert forall|x: CellView| seq![o].to_set().contains(x) <==> x == o by {
                        if x == o {
                            assert(seq![o][0] == o);
                        }
                    }
                }
            }
            if collect_disk {
                assert(cell_views(disk@) =~= seq![o]);
            }
        }
        let mut step: u32 = 0;
        while step < k && frontier.len() > 0
            invariant
                n == self@.0,
                s == self@.1,
                o == origin@,
                valid_digits(o.1),
                !grid_distance_refused(origin@.1.len(), k as nat),
                step <= k,
                visited@ == reach(n, s, o, step as nat).map(|c: CellView| cell_key(c)),
                reach(n, s, o, step as nat).finite(),
                forall|c: CellView| #[trigger]
                    reach(n, s, o, step as nat).contains(c) ==> valid_digits(c.1),
                forall|j: nat|
                    1 <= j <= step ==> #[trigger] reach(n, s, o, j).len() <= MAX_GRID_CELLS,
                cell_views(frontier@).to_set() == ring(n, s, o, step as nat),
                forall|p: int, q: int|
                    0 <= p < q < frontier@.len() ==> post_index(
                        #[trigger] frontier@[p]@.0,
                        frontier@[p]@.1,
                    ) < post_index(#[trigger] frontier@[q]@.0, frontier@[q]@.1),
                frontier@.len() <= MAX_GRID_CELLS,
                collect_disk ==> disk_listing(n, s, o, step as nat, cell_views(disk@)),
                visited@.len() == reach(n, s, o, step as nat).len(),
                visited@.len() <= MAX_GRID_CELLS,
            decreases k - step,
        {
            proof {
                lemma_reach_valid(n, s, o, step as nat);
            }
            proof {
                assert forall|p: int| 0 <= p < frontier@.len() implies valid_digits(
                    #[trigger] frontier@[p]@.1,
                ) by {
                    assert(cell_views(frontier@)[p] == frontier@[p]@);
                    assert(cell_views(frontier@).to_set().contains(frontier@[p]@));
                    if step > 0 {
                        assert(reach(n, s, o, step as nat).contains(frontier@[p]@));
                    }
                }
            }
            // Keys of the frontier's neighbours that are not yet visited.
            let mut candidates: Vec<u64> = Vec::new();
            let mut index: usize = 0;
            while index < frontier.len()
                invariant
                    n == self@.0,
                    s == self@.1,
                    index <= frontier@.len(),
                    frontier@.len() <= MAX_GRID_CELLS,
                    candidates@.len() <= 4 * index,
                    visited@.len() <= MAX_GRID_CELLS,
                    forall|p: int| 0 <= p < frontier@.len() ==> valid_digits(#[trigger] frontier@[p]@.1),
                    forall|key: u64|
                        #[trigger] candidates@.contains(key) <==> (!visited@.contains(key) && exists|
                            p: int,
                            direction: Direction,
                        |
                            0 <= p < index && key == cell_key(
                                #[trigger] planar_neighbor_of(
                                    n,
                                    s,
                                    frontier@[p]@.0,
                                    frontier@[p]@.1,
                                    direction,
                                ),
                            )),
                decreases frontier@.len() - index,
            {
                let cell = frontier[index];
                let ghost before = candidates@;
                collect_unvisited(self, &cell, &visited, &mut candidates);
                proof {
                    assert forall|key: u64|
                        #[trigger] candidates@.contains(key) <==> (!visited@.contains(key) && exists|
                            p: int,
                            direction: Direction,
                        |
                            0 <= p < index + 1 && key == cell_key(
                                #[trigger] planar_neighbor_of(
                                    n,
                                    s,
                                    frontier@[p]@.0,
                                    frontier@[p]@.1,
                                    direction,
                                ),
                            )) by {
                        if candidates@.contains(key) && !before.contains(key) {
                            let direction = choose|direction: Direction|
                                key == cell_key(
                                    #[trigger] planar_neighbor_of(n, s, cell@.0, cell@.1, direction),
                                );
                            assert(frontier@[index as int] == cell);
                            let _ = planar_neighbor_of(
                                n,
                                s,
                                frontier@[index as int]@.0,
                                frontier@[index as int]@.1,
                                direction,
                            );
                        }
                        if !visited@.contains(key) && exists|p: int, direction: Direction|
                            0 <= p < index + 1 && key == cell_key(
                                #[trigger] planar_neighbor_of(
                                    n,
                                    s,
                                    frontier@[p]@.0,
                                    frontier@[p]@.1,
                                    direction,
                                ),
                            ) {
                            let (p, direction) = choose|p: int, direction: Direction|
                                0 <= p < index + 1 && key == cell_key(
                                    #[trigger] planar_neighbor_of(
                                        n,
                                        s,
                                        frontier@[p]@.0,
                                        frontier@[p]@.1,
                                        direction,
                                    ),
                                );
                            if p == index {
                                assert(frontier@[p] == cell);
                            } else {
                                assert(before.contains(key));
                            }
                        }
                    }
                }
                index += 1;
            }
            let next_keys = sorted_distinct(candidates);
            let ghost next_ring = ring(n, s, o, (step + 1) as nat);
            proof {
                assert forall|key: u64|
                    #[trigger] next_keys@.contains(key) <==> (!visited@.contains(key) && exists|
                        p: int,
                        direction: Direction,
                    |
                        0 <= p < frontier@.len() && key == cell_key(
                            #[trigger] planar_neighbor_of(
                                n,
                                s,
                                frontier@[p]@.0,
                                frontier@[p]@.1,
                                direction,
                            ),
                        )) by {
                    assert(next_keys@.contains(key) <==> next_keys@.to_set().contains(key));
                    assert(candidates@.contains(key) <==> candidates@.to_set().contains(key));
                }
                lemma_candidates_are_next_ring(n, s, o, step as nat, frontier@, visited@, next_keys@);
            }
            proof {
                lemma_reach_size(n, s, o, step as nat, next_keys@);
            }
            if visited.len() + next_keys.len() > MAX_GRID_CELLS {
                proof {
                    assert(first_oversized(n, s, o, k as nat, (visited.len() + next_keys.len()) as nat)) by {
                        let i = (step + 1) as nat;
                        assert(reach(n, s, o, i).len() == visited@.len() + next_keys@.len());
                    }
                }
                return Err(Error::ExpansionTooLarge((visited.len() + next_keys.len()) as u64));
            }
            let next = cells_of_keys(&next_keys, Ghost(next_ring));
            let mut position: usize = 0;
            while position < next_keys.len()
                invariant
                    position <= next_keys@.len(),
                    visited@ == reach(n, s, o, step as nat).map(|c: CellView| cell_key(c)) + next_keys@.take(
                        position as int,
                    ).to_set(),
                decreases next_keys@.len() - position,
            {
                visited.insert(next_keys[position]);
                proof {
                    let before = next_keys@.take(position as int);
                    let after = next_keys@.take(position + 1);
                    let x = next_keys@[position as int];
                    assert(after =~= before.push(x));
                    assert forall|key: u64| after.to_set().contains(key) <==> before.to_set().insert(
                        x,
                    ).contains(key) by {
                        if after.to_set().contains(key) && key != x {
                            let m = choose|m: int| 0 <= m < after.len() && after[m] == key;
                            assert(before[m] == key);
                        }
                        if before.to_set().contains(key) {
                            let m = choose|m: int| 0 <= m < before.len() && before[m] == key;
                            assert(after[m] == key);
                        }
                        if key == x {
                            assert(after[position as int] == key);
                        }
                    }
                    assert(after.to_set() =~= before.to_set().insert(x));
                }
                position += 1;
            }
            proof {
                assert(next_keys@.take(next_keys@.len() as int) =~= next_keys@);
                lemma_advance(n, s, o, step as nat, next_keys@, cell_views(next@));
            }
            if collect_disk {
                let ghost previous_disk = disk@;
                let mut j: usize = 0;
                while j < next.len()
                    invariant
                        j <= next@.len(),
                        disk@ == previous_disk + next@.take(j as int),
                    decreases next@.len() - j,
                {
                    disk.push(next[j]);
                    proof {
                        assert(next@.take(j + 1) =~= next@.take(j as int).push(next@[j as int]));
                    }
                    j += 1;
                }
                proof {
                    assert(next@.take(next@.len() as int) =~= next@);
                    lemma_disk_extends(n, s, o, step as nat, cell_views(previous_disk), cell_views(next@));
                    assert(cell_views(disk@) =~= cell_views(previous_disk) + cell_views(next@));
                }
            }
            frontier = next;
            proof {
                lemma_reach_valid(n, s, o, (step + 1) as nat);
                lemma_keys_len(n, s, o, (step + 1) as nat);
            }
            step += 1;
        }
        proof {
            if step < k {
                assert(frontier@.len() == 0);
                assert(cell_views(frontier@).to_set() =~= Set::<CellView>::empty());
                if step == 0 {
                    assert(ring(n, s, o, 0).contains(o));
                }
                // The frontier ran empty: the disk stops growing.
                lemma_stalled(n, s, o, step as nat, k as nat);
            }
        }
        Ok((disk, frontier))
    }
}

/// Add the keys of the unvisited planar neighbours of `cell`.
fn collect_unvisited(
    dggs: &RhealpixDggs,
    cell: &CellId,
    visited: &HashSet<u64>,
    candidates: &mut Vec<u64>,
)
    requires
        valid_digits(cell@.1),
    ensures
        final(candidates)@.len() <= old(candidates)@.len() + 4,
        forall|key: u64|
            #[trigger] final(candidates)@.contains(key) <==> (old(candidates)@.contains(key) || (
            !visited@.contains(key) && exists|direction: Direction|
                key == cell_key(
                    #[trigger] planar_neighbor_of(dggs@.0, dggs@.1, cell@.0, cell@.1, direction),
                ))),
{
    let ghost start = candidates@;
    let directions = [Direction::Left, Direction::Right, Direction::Down, Direction::Up];
    let mut i: usize = 0;
    while i < 4
        invariant
            i <= 4,
            valid_digits(cell@.1),
            directions@ == seq![Direction::Left, Direction::Right, Direction::Down, Direction::Up],
            candidates@.len() <= start.len() + i,
            forall|key: u64|
                #[trigger] candidates@.contains(key) <==> (start.contains(key) || (
                !visited@.contains(key) && exists|j: int|
                    0 <= j < i && key == cell_key(
                        #[trigger] planar_neighbor_of(
                            dggs@.0,
                            dggs@.1,
                            cell@.0,
                            cell@.1,
                            directions@[j],
                        ),
                    ))),
        decreases 4 - i,
    {
        let neighbor = dggs.planar_neighbor(cell, directions[i]);
        proof {
            lemma_planar_neighbor_valid(dggs@.0, dggs@.1, cell@.0, cell@.1, directions@[i as int]);
            crate::cell::law_post_index_round_trip(neighbor@.0, neighbor@.1);
            lemma_subtree_size_values();
        }
        let key = neighbor.post_order_index();
        let ghost before = candidates@;
        if !visited.contains(&key) {
            candidates.push(key);
        }
        proof {
            assert forall|k: u64|
                #[trigger] candidates@.contains(k) <==> (start.contains(k) || (!visited@.contains(k)
                    && exists|j: int|
                    0 <= j < i + 1 && k == cell_key(
                        #[trigger] planar_neighbor_of(
                            dggs@.0,
                            dggs@.1,
                            cell@.0,
                            cell@.1,
                            directions@[j],
                        ),
                    ))) by {
                if candidates@.contains(k) && k != key {
                    let m = choose|m: int| 0 <= m < candidates@.len() && candidates@[m] == k;
                    assert(before[m] == k);
                    assert(before.contains(k));
                }
                if k == key && !visited@.contains(k) {
                    assert(candidates@[candidates@.len() - 1] == k);
                }
                if before.contains(k) {
                    let m = choose|m: int| 0 <= m < before.len() && before[m] == k;
                    assert(candidates@[m] == k);
                }
            }
        }
        i += 1;
    }
    proof {
        assert forall|key: u64|
            #[trigger] candidates@.contains(key) <==> (start.contains(key) || (!visited@.contains(
                key,
            ) && exists|direction: Direction|
                key == cell_key(
                    #[trigger] planar_neighbor_of(dggs@.0, dggs@.1, cell@.0, cell@.1, direction),
                ))) by {
            if !visited@.contains(key) && exists|direction: Direction|
                key == cell_key(
                    #[trigger] planar_neighbor_of(dggs@.0, dggs@.1, cell@.0, cell@.1, direction),
                ) {
                let direction = choose|direction: Direction|
                    key == cell_key(
                        #[trigger] planar_neighbor_of(dggs@.0, dggs@.1, cell@.0, cell@.1, direction),
                    );
                let j: int = match direction {
                    Direction::Left => 0,
                    Direction::Right => 1,
                    Direction::Down => 2,
                    Direction::Up => 3,
                };
                assert(directions@[j] == direction);
            }
        }
    }
}

/// The cells of keys of valid cells, in the same order.
pub(crate) fn cells_of_keys(keys: &Vec<u64>, Ghost(expected): Ghost<Set<CellView>>) -> (r: Vec<CellId>)
    requires
        forall|x: CellView| #[trigger] expected.contains(x) ==> valid_digits(x.1),
        forall|key: u64|
            #[trigger] keys@.contains(key) <==> exists|x: CellView|
                expected.contains(x) && key == cell_key(x),
    ensures
        r@.len() == keys@.len(),
        forall|p: int|
            0 <= p < r@.len() ==> cell_key(#[trigger] r@[p]@) == keys@[p] && expected.contains(
                r@[p]@,
            ) && post_index(r@[p]@.0, r@[p]@.1) == keys@[p],
        cell_views(r@).to_set() == expected,
{
    let mut result: Vec<CellId> = Vec::new();
    let mut i: usize = 0;
    while i < keys.len()
        invariant
            i <= keys@.len(),
            result@.len() == i,
            forall|x: CellView| #[trigger] expected.contains(x) ==> valid_digits(x.1),
            forall|key: u64|
                #[trigger] keys@.contains(key) <==> exists|x: CellView|
                    expected.contains(x) && key == cell_key(x),
            forall|p: int|
                0 <= p < i ==> cell_key(#[trigger] result@[p]@) == keys@[p] && expected.contains(
                    result@[p]@,
                ) && post_index(result@[p]@.0, result@[p]@.1) == keys@[p],
        decreases keys@.len() - i,
    {
        let key = keys[i];
        let ghost x = choose|x: CellView| expected.contains(x) && key == cell_key(x);
        proof {
            assert(keys@.contains(key));
            crate::cell::law_post_index_round_trip(x.0, x.1);
            lemma_subtree_size_values();
        }
        let cell = CellId::from_post_order_index(key).unwrap();
        proof {
            crate::cell::law_post_index_round_trip(cell@.0, cell@.1);
            lemma_cell_key_injective(cell@, x);
        }
        result.push(cell);
        i += 1;
    }
    proof {
        assert forall|x: CellView| cell_views(result@).to_set().contains(x) <==> expected.contains(x) by {
            if expected.contains(x) {
                crate::cell::law_post_index_round_trip(x.0, x.1);
                lemma_subtree_size_values();
                assert(keys@.contains(cell_key(x)));
                let p = choose|p: int| 0 <= p < keys@.len() && keys@[p] == cell_key(x);
                lemma_cell_key_injective(result@[p]@, x);
                assert(cell_views(result@)[p] == x);
            }
            if cell_views(result@).to_set().contains(x) {
                let p = choose|p: int| 0 <= p < cell_views(result@).len() && cell_views(result@)[p] == x;
                assert(result@[p]@ == x);
            }
        }
        assert(cell_views(result@).to_set() =~= expected);
    }
    result
}

/// The unvisited neighbours of the current ring are the next ring.
proof fn lemma_candidates_are_next_ring(
    n: nat,
    s: nat,
    o: CellView,
    step: nat,
    frontier: Seq<CellId>,
    visited: Set<u64>,
    next_keys: Seq<u64>,
)
    requires
        valid_digits(o.1),
        visited == reach(n, s, o, step).map(|c: CellView| cell_key(c)),
        cell_views(frontier).to_set() == ring(n, s, o, step),
        forall|key: u64|
            #[trigger] next_keys.contains(key) <==> (!visited.contains(key) && exists|
                p: int,
                direction: Direction,
            |
                0 <= p < frontier.len() && key == cell_key(
                    #[trigger] planar_neighbor_of(n, s, frontier[p]@.0, frontier[p]@.1, direction),
                )),
    ensures
        ring(n, s, o, step + 1).finite(),
        forall|x: CellView| #[trigger]
            ring(n, s, o, step + 1).contains(x) ==> valid_digits(x.1),
        forall|key: u64|
            #[trigger] next_keys.contains(key) <==> exists|x: CellView|
                ring(n, s, o, step + 1).contains(x) && key == cell_key(x),
{
    lemma_reach_valid(n, s, o, step + 1);
    lemma_reach_valid(n, s, o, step);
    lemma_next_ring(n, s, o, step);
    law_disks_grow(n, s, o, step, step + 1);
    let next = ring(n, s, o, step + 1);
    assert(next.subset_of(reach(n, s, o, step + 1)));
    vstd::set_lib::lemma_len_subset(next, reach(n, s, o, step + 1));
    let fl = |c: CellView| planar_neighbor_of(n, s, c.0, c.1, Direction::Left);
    let fr = |c: CellView| planar_neighbor_of(n, s, c.0, c.1, Direction::Right);
    let fd = |c: CellView| planar_neighbor_of(n, s, c.0, c.1, Direction::Down);
    let fu = |c: CellView| planar_neighbor_of(n, s, c.0, c.1, Direction::Up);
    let layer = ring(n, s, o, step);
    assert forall|key: u64|
        #[trigger] next_keys.contains(key) <==> exists|x: CellView| next.contains(x) && key
            == cell_key(x) by {
        if next_keys.contains(key) {
            let (p, direction) = choose|p: int, direction: Direction|
                0 <= p < frontier.len() && key == cell_key(
                    #[trigger] planar_neighbor_of(n, s, frontier[p]@.0, frontier[p]@.1, direction),
                );
            let y = frontier[p]@;
            assert(cell_views(frontier)[p] == y);
            assert(cell_views(frontier).to_set().contains(y));
            let x = planar_neighbor_of(n, s, y.0, y.1, direction);
            assert(layer.contains(y));
            let f = match direction {
                Direction::Left => fl,
                Direction::Right => fr,
                Direction::Down => fd,
                Direction::Up => fu,
            };
            assert(x == f(y));
            assert(layer.map(f).contains(x));
            assert(step_all(n, s, layer).contains(x));
            if reach(n, s, o, step).contains(x) {
                assert(visited.contains(key));
            }
            assert(next.contains(x));
        }
        if exists|x: CellView| next.contains(x) && key == cell_key(x) {
            let x = choose|x: CellView| next.contains(x) && key == cell_key(x);
            assert(step_all(n, s, layer).contains(x));
            let f = if layer.map(fl).contains(x) {
                fl
            } else if layer.map(fr).contains(x) {
                fr
            } else if layer.map(fd).contains(x) {
                fd
            } else {
                fu
            };
            let direction = if layer.map(fl).contains(x) {
                Direction::Left
            } else if layer.map(fr).contains(x) {
                Direction::Right
            } else if layer.map(fd).contains(x) {
                Direction::Down
            } else {
                Direction::Up
            };
            let y = choose|y: CellView| layer.contains(y) && x == f(y);
            assert(cell_views(frontier).to_set().contains(y));
            let p = choose|p: int| 0 <= p < cell_views(frontier).len() && cell_views(frontier)[p] == y;
            assert(frontier[p]@ == y);
            assert(x == planar_neighbor_of(n, s, frontier[p]@.0, frontier[p]@.1, direction));
            if visited.contains(key) {
                let z = choose|z: CellView| reach(n, s, o, step).contains(z) && key == cell_key(z);
                lemma_cell_key_injective(x, z);
                assert(false);
            }
            assert(next_keys.to_set().contains(key));
        }
    }
}

/// Keys of the cells in a disk are as many as the cells.
proof fn lemma_keys_len(n: nat, s: nat, o: CellView, i: nat)
    requires
        valid_digits(o.1),
    ensures
        reach(n, s, o, i).map(|c: CellView| cell_key(c)).len() == reach(n, s, o, i).len(),
{
    lemma_reach_valid(n, s, o, i);
    let key_of = |c: CellView| cell_key(c);
    let cells = reach(n, s, o, i);
    assert(vstd::relations::injective_on(key_of, cells)) by {
        assert forall|a: CellView, b: CellView|
            cells.contains(a) && cells.contains(b) && #[trigger] key_of(a) == #[trigger] key_of(b)
            implies a == b by {
            lemma_cell_key_injective(a, b);
        }
    }
    vstd::set_lib::lemma_map_size(cells, cells.map(key_of), key_of);
}

/// The disk one step further holds the visited cells and the next ring.
proof fn lemma_reach_size(n: nat, s: nat, o: CellView, step: nat, next_keys: Seq<u64>)
    requires
        valid_digits(o.1),
        strictly_increasing(next_keys),
        forall|key: u64|
            #[trigger] next_keys.contains(key) <==> exists|x: CellView|
                ring(n, s, o, step + 1).contains(x) && key == cell_key(x),
    ensures
        reach(n, s, o, step + 1).finite(),
        reach(n, s, o, step + 1).len() == reach(n, s, o, step).len() + next_keys.len(),
{
    lemma_reach_valid(n, s, o, step + 1);
    lemma_reach_valid(n, s, o, step);
    law_disks_grow(n, s, o, step, step + 1);
    let current = reach(n, s, o, step);
    let next = ring(n, s, o, step + 1);
    let bigger = reach(n, s, o, step + 1);
    assert(bigger =~= current + next);
    vstd::set_lib::lemma_len_subset(next, bigger);
    vstd::set_lib::lemma_set_disjoint_lens(current, next);
    assert(next_keys.no_duplicates());
    next_keys.unique_seq_to_set();
    let key_of = |c: CellView| cell_key(c);
    assert(next_keys.to_set() =~= next.map(key_of)) by {
        assert forall|key: u64| next_keys.to_set().contains(key) <==> next.map(key_of).contains(key) by {
            assert(next_keys.contains(key) <==> next_keys.to_set().contains(key));
        }
    }
    assert(vstd::relations::injective_on(key_of, next)) by {
        assert forall|a: CellView, b: CellView|
            next.contains(a) && next.contains(b) && #[trigger] key_of(a) == #[trigger] key_of(b)
            implies a == b by {
            lemma_cell_key_injective(a, b);
        }
    }
    vstd::set_lib::lemma_map_size(next, next.map(key_of), key_of);
}

/// After the visited keys take in the next ring, the traversal stands one
/// step further.
proof fn lemma_advance(
    n: nat,
    s: nat,
    o: CellView,
    step: nat,
    next_keys: Seq<u64>,
    next: Seq<CellView>,
)
    requires
        valid_digits(o.1),
        strictly_increasing(next_keys),
        forall|key: u64|
            #[trigger] next_keys.contains(key) <==> exists|x: CellView|
                ring(n, s, o, step + 1).contains(x) && key == cell_key(x),
    ensures
        reach(n, s, o, step).map(|c: CellView| cell_key(c)) + next_keys.to_set() == reach(
            n,
            s,
            o,
            step + 1,
        ).map(|c: CellView| cell_key(c)),
{
    law_disks_grow(n, s, o, step, step + 1);
    let key_of = |c: CellView| cell_key(c);
    let current = reach(n, s, o, step);
    let bigger = reach(n, s, o, step + 1);
    assert forall|key: u64|
        (current.map(key_of) + next_keys.to_set()).contains(key) <==> bigger.map(key_of).contains(
            key,
        ) by {
        assert(next_keys.contains(key) <==> next_keys.to_set().contains(key));
        if bigger.map(key_of).contains(key) {
            let x = choose|x: CellView| bigger.contains(x) && key == key_of(x);
            if !current.contains(x) {
                assert(ring(n, s, o, step + 1).contains(x));
            }
        }
        if next_keys.to_set().contains(key) {
            let x = choose|x: CellView| ring(n, s, o, step + 1).contains(x) && key == cell_key(x);
            assert(bigger.contains(x));
        }
    }
    assert(current.map(key_of) + next_keys.to_set() =~= bigger.map(key_of));
}

/// Appending the next ring in post-order to a disk listing lists the disk
/// one step further.
proof fn lemma_disk_extends(
    n: nat,
    s: nat,
    o: CellView,
    step: nat,
    disk: Seq<CellView>,
    next: Seq<CellView>,
)
    requires
        disk_listing(n, s, o, step, disk),
        next.to_set() == ring(n, s, o, step + 1),
        forall|p: int, q: int|
            0 <= p < q < next.len() ==> post_index(#[trigger] next[p].0, next[p].1) < post_index(
                #[trigger] next[q].0,
                next[q].1,
            ),
    ensures
        disk_listing(n, s, o, step + 1, disk + next),
{
    let all = disk + next;
    law_disks_grow(n, s, o, step, step + 1);
    assert forall|x: CellView| all.to_set().contains(x) <==> reach(n, s, o, step + 1).contains(x) by {
        if all.to_set().contains(x) {
            let p = choose|p: int| 0 <= p < all.len() && all[p] == x;
            if p < disk.len() {
                assert(disk[p] == x);
                assert(disk.to_set().contains(x));
            } else {
                assert(next[p - disk.len()] == x);
                assert(next.to_set().contains(x));
            }
        }
        if reach(n, s, o, step + 1).contains(x) {
            if reach(n, s, o, step).contains(x) {
                assert(disk.to_set().contains(x));
                let p = choose|p: int| 0 <= p < disk.len() && disk[p] == x;
                assert(all[p] == x);
            } else {
                assert(next.to_set().contains(x));
                let p = choose|p: int| 0 <= p < next.len() && next[p] == x;
                assert(all[p + disk.len()] == x);
            }
        }
    }
    assert(all.to_set() =~= reach(n, s, o, step + 1));
    assert forall|p: int, q: int, i: nat, j: nat|
        0 <= p < q < all.len() && #[trigger] ring(n, s, o, i).contains(all[p]) && #[trigger] ring(
            n,
            s,
            o,
            j,
        ).contains(all[q]) implies i < j || (i == j && post_index(all[p].0, all[p].1) < post_index(
        all[q].0,
        all[q].1,
    )) by {
        if q < disk.len() {
            assert(all[p] == disk[p] && all[q] == disk[q]);
        } else if p >= disk.len() {
            assert(all[p] == next[p - disk.len()] && all[q] == next[q - disk.len()]);
            assert(next.to_set().contains(all[p]));
            assert(next.to_set().contains(all[q]));
            law_rings_disjoint(n, s, o, all[p], i, step + 1);
            law_rings_disjoint(n, s, o, all[q], j, step + 1);
        } else {
            assert(all[p] == disk[p] && all[q] == next[q - disk.len()]);
            assert(next.to_set().contains(all[q]));
            law_rings_disjoint(n, s, o, all[q], j, step + 1);
            assert(disk.to_set().contains(all[p]));
            if i > step {
                law_disks_grow(n, s, o, step, (i - 1) as nat);
            }
        }
    }
}

/// When the frontier runs empty before distance `k`, nothing more is found:
/// the last ring is empty, the disk stays as it is, and no later disk is
/// larger.
proof fn lemma_stalled(n: nat, s: nat, o: CellView, step: nat, k: nat)
    requires
        step < k,
        step >= 1,
        ring(n, s, o, step).is_empty(),
    ensures
        ring(n, s, o, k).is_empty(),
        reach(n, s, o, k) == reach(n, s, o, step),
        forall|j: nat| step <= j <= k ==> #[trigger] reach(n, s, o, j) == reach(n, s, o, step),
{
    assert forall|j: nat| step <= j <= k implies #[trigger] reach(n, s, o, j) == reach(
        n,
        s,
        o,
        step,
    ) by {
        lemma_empty_ring_stops(n, s, o, (step - 1) as nat, j);
        lemma_empty_ring_stops(n, s, o, (step - 1) as nat, step);
    }
    lemma_empty_ring_stops(n, s, o, (step - 1) as nat, (k - 1) as nat);
    lemma_empty_ring_stops(n, s, o, (step - 1) as nat, k);
    assert(ring(n, s, o, k) =~= Set::<CellView>::empty());
}

/// The cells at distance one from a cell are exactly its edge neighbours.
pub proof fn law_first_ring_is_neighbors(
    north_square: nat,
    south_square: nat,
    origin: CellView,
    x: CellView,
)
    ensures
        ring(north_square, south_square, origin, 1).contains(x) <==> are_planar_neighbors(
            north_square,
            south_square,
            origin,
            x,
        ),
{
    let one = set![origin];
    assert(reach(north_square, south_square, origin, 0) == one);
    let f = |d: Direction|
        |c: CellView| planar_neighbor_of(north_square, south_square, c.0, c.1, d);
    if ring(north_square, south_square, origin, 1).contains(x) {
        assert(x != origin);
        assert(step_all(north_square, south_square, one).contains(x));
        if one.map(f(Direction::Left)).contains(x) {
            assert(planar_neighbor_of(north_square, south_square, origin.0, origin.1, Direction::Left) == x);
        } else if one.map(f(Direction::Right)).contains(x) {
            assert(planar_neighbor_of(north_square, south_square, origin.0, origin.1, Direction::Right) == x);
        } else if one.map(f(Direction::Down)).contains(x) {
            assert(planar_neighbor_of(north_square, south_square, origin.0, origin.1, Direction::Down) == x);
        } else {
            assert(one.map(f(Direction::Up)).contains(x));
            assert(planar_neighbor_of(north_square, south_square, origin.0, origin.1, Direction::Up) == x);
        }
    }
    if are_planar_neighbors(north_square, south_square, origin, x) {
        let d = choose|d: Direction|
            planar_neighbor_of(north_square, south_square, origin.0, origin.1, d) == x;
        assert(one.contains(origin));
        match d {
            Direction::Left => assert(one.map(f(Direction::Left)).contains(x)),
            Direction::Right => assert(one.map(f(Direction::Right)).contains(x)),
            Direction::Down => assert(one.map(f(Direction::Down)).contains(x)),
            Direction::Up => assert(one.map(f(Direction::Up)).contains(x)),
        }
        assert(step_all(north_square, south_square, one).contains(x));
        assert(reach(north_square, south_square, origin, 1).contains(x));
        assert(!reach(north_square, south_square, origin, 0).contains(x));
    }
}

} // verus!

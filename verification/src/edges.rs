//! Canonical keys of the edges between neighbouring cells.
//!
//! An edge between two cells is named by their stable integer identifiers,
//! the smaller first, so that both cells name it alike; the cell with the
//! smaller identifier traverses it forwards.

use vstd::prelude::*;
use std::collections::HashMap;

use crate::cell::{level_index, CellId, CellView};
use crate::compaction::cell_views;
use crate::dggs::{planar_neighbor_of, RhealpixDggs};
use crate::face::Direction;
use crate::numbering::valid_digits;
use crate::cell::law_level_index_injective;

verus! {

broadcast use vstd::std_specs::hash::group_hash_axioms;

/// The key of the edge between cells with level-order numbers `a` and `b`.
pub open spec fn edge_key_of(a: nat, b: nat) -> (nat, nat) {
    if a <= b {
        (a, b)
    } else {
        (b, a)
    }
}

/// The level-order number of a cell.
pub open spec fn level_of(c: CellView) -> nat {
    level_index(c.0, c.1)
}

/// The key of the edge between two cells, from their stable integer
/// identifiers.
pub fn edge_key(left: &CellId, right: &CellId) -> (r: (u64, u64))
    ensures
        (r.0 as nat, r.1 as nat) == edge_key_of(level_of(left@), level_of(right@)),
{
    let a = left.to_u64();
    let b = right.to_u64();
    if a <= b {
        (a, b)
    } else {
        (b, a)
    }
}

/// Both cells of an edge name it alike and exactly one of two distinct
/// cells traverses it forwards.
pub proof fn law_edge_key_shared(a: CellView, b: CellView)
    ensures
        edge_key_of(level_of(a), level_of(b)) == edge_key_of(level_of(b), level_of(a)),
        level_of(a) != level_of(b) ==> (edge_key_of(level_of(a), level_of(b)).0 == level_of(a))
            != (edge_key_of(level_of(b), level_of(a)).0 == level_of(b)),
{
}

impl RhealpixDggs {
    /// The keys of the four edges of `cell`, in the order up, right, down,
    /// left, each with whether `cell` traverses it forwards.
    pub fn boundary_edge_keys(&self, cell: &CellId) -> (r: [((u64, u64), bool); 4])
        ensures
            forall|i: int|
                0 <= i < 4 ==> {
                    let d = [Direction::Up, Direction::Right, Direction::Down, Direction::Left]@[i];
                    let n = planar_neighbor_of(self@.0, self@.1, cell@.0, cell@.1, d);
                    &&& (#[trigger] r@[i].0.0 as nat, r@[i].0.1 as nat) == edge_key_of(
                        level_of(cell@),
                        level_of(n),
                    )
                    &&& r@[i].1 == (r@[i].0.0 == level_of(cell@))
                },
    {
        let own = cell.to_u64();
        let up = edge_key(cell, &self.planar_neighbor(cell, Direction::Up));
        let right = edge_key(cell, &self.planar_neighbor(cell, Direction::Right));
        let down = edge_key(cell, &self.planar_neighbor(cell, Direction::Down));
        let left = edge_key(cell, &self.planar_neighbor(cell, Direction::Left));
        let r = [(up, own == up.0), (right, own == right.0), (down, own == down.0), (left, own == left.0)];
        proof {
            assert([Direction::Up, Direction::Right, Direction::Down, Direction::Left]@[0]
                == Direction::Up);
            assert([Direction::Up, Direction::Right, Direction::Down, Direction::Left]@[1]
                == Direction::Right);
            assert([Direction::Up, Direction::Right, Direction::Down, Direction::Left]@[2]
                == Direction::Down);
            assert([Direction::Up, Direction::Right, Direction::Down, Direction::Left]@[3]
                == Direction::Left);
        }
        r
    }
}


/// The direction of side `side` of a cell's boundary; sides are numbered
/// up, right, down, left.
pub open spec fn side_direction(side: int) -> Direction {
    if side == 0 {
        Direction::Up
    } else if side == 1 {
        Direction::Right
    } else if side == 2 {
        Direction::Down
    } else {
        Direction::Left
    }
}

/// The key of side `side` of cell `c`.
pub open spec fn side_key(dggs: (nat, nat), c: CellView, side: int) -> (nat, nat) {
    edge_key_of(level_of(c), level_of(planar_neighbor_of(dggs.0, dggs.1, c.0, c.1, side_direction(side))))
}

/// Whether cell `c` traverses its side `side` forwards.
pub open spec fn side_forward(dggs: (nat, nat), c: CellView, side: int) -> bool {
    side_key(dggs, c, side).0 == level_of(c)
}

/// The keys of the sides of all `cells`, four per cell: position `4 * i + j`
/// holds side `j` of cell `i`.
pub open spec fn side_keys(dggs: (nat, nat), cells: Seq<CellView>) -> Seq<(nat, nat)> {
    Seq::new(4 * cells.len(), |p: int| side_key(dggs, cells[p / 4], p % 4))
}

/// A key as a pair of natural numbers.
pub open spec fn key_view(key: (u64, u64)) -> (nat, nat) {
    (key.0 as nat, key.1 as nat)
}

/// One number for a key: the first component in the high half.
pub open spec fn key_code(key: (u64, u64)) -> int {
    key.0 * 0x1_0000_0000_0000_0000 + key.1
}

proof fn lemma_key_code_injective(a: (u64, u64), b: (u64, u64))
    requires
        key_code(a) == key_code(b),
    ensures
        a == b,
{
    let (a0, a1, b0, b1) = (a.0 as int, a.1 as int, b.0 as int, b.1 as int);
    assert(a0 == b0 && a1 == b1) by (nonlinear_arith)
        requires
            a0 * 0x1_0000_0000_0000_0000 + a1 == b0 * 0x1_0000_0000_0000_0000 + b1,
            0 <= a1 < 0x1_0000_0000_0000_0000,
            0 <= b1 < 0x1_0000_0000_0000_0000,
            0 <= a0,
            0 <= b0,
    ;
}

fn encode_key(key: (u64, u64)) -> (r: u128)
    ensures
        r == key_code(key),
{
    let high = key.0 as u128;
    let low = key.1 as u128;
    assert(high * 0x1_0000_0000_0000_0000 + low <= u128::MAX) by (nonlinear_arith)
        requires
            high < 0x1_0000_0000_0000_0000,
            low < 0x1_0000_0000_0000_0000,
    ;
    high * 0x1_0000_0000_0000_0000 + low
}

proof fn lemma_position(i: int, j: int)
    requires
        0 <= i,
        0 <= j < 4,
    ensures
        (4 * i + j) / 4 == i,
        (4 * i + j) % 4 == j,
{
    assert((4 * i + j) / 4 == i && (4 * i + j) % 4 == j) by (nonlinear_arith)
        requires
            0 <= i,
            0 <= j < 4,
    ;
}

impl RhealpixDggs {
    /// The keys of all sides of `cells`, four per cell in the order up,
    /// right, down, left, each with whether its cell traverses it forwards.
    #[verifier::spinoff_prover]
    pub fn side_keys_of(&self, cells: &Vec<CellId>) -> (r: Vec<((u64, u64), bool)>)
        ensures
            r@.len() == 4 * cells@.len(),
            forall|p: int|
                0 <= p < r@.len() ==> {
                    &&& key_view(#[trigger] r@[p].0) == side_key(self@, cell_views(cells@)[p / 4], p % 4)
                    &&& r@[p].1 == side_forward(self@, cell_views(cells@)[p / 4], p % 4)
                },
    {
        let ghost views = cell_views(cells@);
        let mut out: Vec<((u64, u64), bool)> = Vec::new();
        let mut i: usize = 0;
        while i < cells.len()
            invariant
                i <= cells.len(),
                views == cell_views(cells@),
                out@.len() == 4 * i,
                forall|p: int|
                    0 <= p < out@.len() ==> {
                        &&& key_view(#[trigger] out@[p].0) == side_key(self@, views[p / 4], p % 4)
                        &&& out@[p].1 == side_forward(self@, views[p / 4], p % 4)
                    },
            decreases cells.len() - i,
        {
            let keys = self.boundary_edge_keys(&cells[i]);
            let ghost before = out@;
            out.push(keys[0]);
            out.push(keys[1]);
            out.push(keys[2]);
            out.push(keys[3]);
            proof {
                assert(views[i as int] == cells@[i as int]@);
                assert forall|j: int| 0 <= j < 4 implies {
                    &&& key_view(#[trigger] keys@[j].0) == side_key(self@, views[i as int], j)
                    &&& keys@[j].1 == side_forward(self@, views[i as int], j)
                } by {
                    assert([Direction::Up, Direction::Right, Direction::Down, Direction::Left]@[j]
                        == side_direction(j));
                    assert((keys@[j].0.0 as nat, keys@[j].0.1 as nat) == key_view(keys@[j].0));
                }
                assert forall|p: int|
                    0 <= p < out@.len() implies {
                    &&& key_view(#[trigger] out@[p].0) == side_key(self@, views[p / 4], p % 4)
                    &&& out@[p].1 == side_forward(self@, views[p / 4], p % 4)
                } by {
                    if p >= 4 * i {
                        let j = p - 4 * i;
                        lemma_position(i as int, j);
                        assert(p / 4 == i && p % 4 == j);
                        assert(out@[p] == keys@[j]);
                        assert(key_view(keys@[j].0) == side_key(self@, views[i as int], j));
                    } else {
                        assert(out@[p] == before[p]);
                        assert(key_view(before[p].0) == side_key(self@, views[p / 4], p % 4));
                    }
                }
            }
            i = i + 1;
        }
        out
    }
}


/// The edge that a list of cells shares, and where it is projected from:
/// the first side, in the list's order, that lies on it.
#[derive(Debug, Clone, Copy)]
pub struct EdgeOwner {
    /// The edge's key.
    pub key: (u64, u64),
    /// The index of the owning cell in the list.
    pub cell: usize,
    /// The owning side of that cell: up, right, down or left.
    pub side: usize,
    /// Whether the owning cell traverses the edge forwards.
    pub forward: bool,
}

/// The position of an owner among the sides of the cell list.
pub open spec fn owner_position(owner: EdgeOwner) -> int {
    4 * owner.cell + owner.side
}

/// The keys of a list of sides.
pub open spec fn keys_of_sides(sides: Seq<((u64, u64), bool)>) -> Seq<(nat, nat)> {
    sides.map_values(|side: ((u64, u64), bool)| key_view(side.0))
}

/// `owners` and `uses` share the sides with keys `keys` out among edges:
/// the owners are the first occurrences of the distinct keys, in order, and
/// each side uses the owner of its key.
pub open spec fn is_edge_plan(keys: Seq<(nat, nat)>, owners: Seq<EdgeOwner>, uses: Seq<(usize, bool)>) -> bool {
    &&& uses.len() == keys.len()
    &&& forall|a: int|
        0 <= a < owners.len() ==> {
            let w = #[trigger] owners[a];
            &&& w.side < 4
            &&& 0 <= owner_position(w) < keys.len()
            &&& key_view(w.key) === keys[owner_position(w)]
            &&& uses[owner_position(w)].0 == a
        }
    &&& forall|a: int, b: int|
        0 <= a < b < owners.len() ==> owner_position(#[trigger] owners[a]) < owner_position(
            #[trigger] owners[b],
        ) && owners[a].key != owners[b].key
    &&& forall|p: int|
        0 <= p < keys.len() ==> {
            let a = (#[trigger] uses[p]).0 as int;
            &&& 0 <= a < owners.len()
            &&& key_view(owners[a].key) === keys[p]
            &&& owner_position(owners[a]) <= p
        }
}

/// The map from key codes to owners indexes exactly the owners.
spec fn indexes_owners(index: Map<u128, usize>, owners: Seq<EdgeOwner>) -> bool {
    &&& forall|a: int|
        0 <= a < owners.len() ==> index.contains_key(key_code(#[trigger] owners[a].key) as u128)
            && index[key_code(owners[a].key) as u128] == a
    &&& forall|c: u128|
        #[trigger] index.contains_key(c) ==> index[c] < owners.len() && key_code(
            owners[index[c] as int].key,
        ) == c
}

/// Share the sides `sides`, four per cell, out among edges, each edge owned
/// by its first side.
fn plan_edges(sides: &Vec<((u64, u64), bool)>) -> (r: (Vec<EdgeOwner>, Vec<(usize, bool)>))
    ensures
        is_edge_plan(keys_of_sides(sides@), r.0@, r.1@),
        forall|p: int| 0 <= p < r.1@.len() ==> (#[trigger] r.1@[p]).1 == sides@[p].1,
        forall|a: int|
            0 <= a < r.0@.len() ==> (#[trigger] r.0@[a]).forward == sides@[owner_position(
                r.0@[a],
            )].1,
{
    let ghost keys = keys_of_sides(sides@);
    let mut index: HashMap<u128, usize> = HashMap::new();
    let mut owners: Vec<EdgeOwner> = Vec::new();
    let mut uses: Vec<(usize, bool)> = Vec::new();
    let mut k: usize = 0;
    while k < sides.len()
        invariant
            k <= sides.len(),
            keys == keys_of_sides(sides@),
            indexes_owners(index@, owners@),
            is_edge_plan(keys.take(k as int), owners@, uses@),
            forall|p: int| 0 <= p < uses@.len() ==> (#[trigger] uses@[p]).1 == sides@[p].1,
            forall|a: int|
                0 <= a < owners@.len() ==> (#[trigger] owners@[a]).forward == sides@[owner_position(
                    owners@[a],
                )].1,
        decreases sides.len() - k,
    {
        let (key, forward) = sides[k];
        let code = encode_key(key);
        let ghost before_owners = owners@;
        let ghost before_uses = uses@;
        let ghost before_index = index@;
        assert(keys[k as int] === key_view(key));
        match index.get(&code) {
            Some(found) => {
                let a = *found;
                proof {
                    lemma_key_code_injective(owners@[a as int].key, key);
                }
                uses.push((a, forward));
            },
            None => {
                let a = owners.len();
                proof {
                    lemma_position((k / 4) as int, (k % 4) as int);
                }
                owners.push(EdgeOwner { key, cell: k / 4, side: k % 4, forward });
                index.insert(code, a);
                uses.push((a, forward));
                proof {
                    assert forall|b: int| 0 <= b < before_owners.len() implies before_owners[b].key
                        != key by {
                        assert(before_index.contains_key(key_code(before_owners[b].key) as u128));
                    }
                    assert forall|c: u128| #[trigger] index@.contains_key(c) implies index@[c]
                        < owners@.len() && key_code(owners@[index@[c] as int].key) == c by {
                        if c != code {
                            assert(before_index.contains_key(c));
                        }
                    }
                    assert forall|b: int| 0 <= b < owners@.len() implies index@.contains_key(
                        key_code(#[trigger] owners@[b].key) as u128,
                    ) && index@[key_code(owners@[b].key) as u128] == b by {
                        if b < a {
                            assert(owners@[b] == before_owners[b]);
                            assert(key_code(before_owners[b].key) != key_code(key)) by {
                                if key_code(before_owners[b].key) == key_code(key) {
                                    lemma_key_code_injective(before_owners[b].key, key);
                                }
                            }
                        }
                    }
                }
            },
        }
        proof {
            let kt = keys.take(k as int + 1);
            assert(kt =~= keys.take(k as int).push(keys[k as int]));
            assert forall|a: int| 0 <= a < owners@.len() implies {
                let w = #[trigger] owners@[a];
                &&& w.side < 4
                &&& 0 <= owner_position(w) < kt.len()
                &&& key_view(w.key) === kt[owner_position(w)]
                &&& uses@[owner_position(w)].0 == a
            } by {
                if a < before_owners.len() {
                    assert(owners@[a] == before_owners[a]);
                    assert(uses@[owner_position(owners@[a])] == before_uses[owner_position(
                        before_owners[a],
                    )]);
                }
            }
            assert forall|p: int| 0 <= p < kt.len() implies {
                let a = (#[trigger] uses@[p]).0 as int;
                &&& 0 <= a < owners@.len()
                &&& key_view(owners@[a].key) === kt[p]
                &&& owner_position(owners@[a]) <= p
            } by {
                if p < k {
                    assert(uses@[p] == before_uses[p]);
                    assert(owners@[before_uses[p].0 as int] == before_owners[before_uses[p].0 as int]);
                }
            }
            assert forall|a: int, b: int| 0 <= a < b < owners@.len() implies owner_position(
                #[trigger] owners@[a],
            ) < owner_position(#[trigger] owners@[b]) && owners@[a].key != owners@[b].key by {
                if b < before_owners.len() {
                    assert(owners@[a] == before_owners[a]);
                    assert(owners@[b] == before_owners[b]);
                } else {
                    assert(owners@[a] == before_owners[a]);
                }
            }
            assert forall|p: int| 0 <= p < uses@.len() implies (#[trigger] uses@[p]).1
                == sides@[p].1 by {
                if p < k {
                    assert(uses@[p] == before_uses[p]);
                }
            }
            assert forall|a: int| 0 <= a < owners@.len() implies (#[trigger] owners@[a]).forward
                == sides@[owner_position(owners@[a])].1 by {
                if a < before_owners.len() {
                    assert(owners@[a] == before_owners[a]);
                }
            }
        }
        k = k + 1;
    }
    assert(keys.take(sides@.len() as int) =~= keys);
    (owners, uses)
}

impl RhealpixDggs {
    /// Share the sides of `cells`, four per cell in the order up, right,
    /// down, left, out among the edges they lie on: each edge once, owned by
    /// its first side in the list, and for each side the index of its edge
    /// and whether its cell traverses it forwards.
    pub fn shared_edge_plan(&self, cells: &Vec<CellId>) -> (r: (Vec<EdgeOwner>, Vec<(usize, bool)>))
        ensures
            is_edge_plan(side_keys(self@, cell_views(cells@)), r.0@, r.1@),
            forall|p: int|
                0 <= p < r.1@.len() ==> (#[trigger] r.1@[p]).1 == side_forward(
                    self@,
                    cell_views(cells@)[p / 4],
                    p % 4,
                ),
            forall|a: int|
                0 <= a < r.0@.len() ==> (#[trigger] r.0@[a]).forward == side_forward(
                    self@,
                    cell_views(cells@)[r.0@[a].cell as int],
                    r.0@[a].side as int,
                ),
    {
        let sides = self.side_keys_of(cells);
        let r = plan_edges(&sides);
        proof {
            let views = cell_views(cells@);
            assert(keys_of_sides(sides@) =~= side_keys(self@, views)) by {
                assert forall|p: int| 0 <= p < sides@.len() implies keys_of_sides(sides@)[p]
                    == side_keys(self@, views)[p] by {
                    assert(key_view(sides@[p].0) == side_key(self@, views[p / 4], p % 4));
                }
            }
            assert forall|a: int| 0 <= a < r.0@.len() implies (#[trigger] r.0@[a]).forward
                == side_forward(self@, views[r.0@[a].cell as int], r.0@[a].side as int) by {
                let w = r.0@[a];
                lemma_position(w.cell as int, w.side as int);
                assert(sides@[owner_position(w)].1 == side_forward(
                    self@,
                    views[owner_position(w) / 4],
                    owner_position(w) % 4,
                ));
            }
        }
        r
    }
}


/// The points that one side contributes to a boundary: all but the last
/// point of its edge, taken in the side's direction.
pub open spec fn side_points<T>(edge: Seq<T>, forward: bool) -> Seq<T> {
    if forward {
        edge.take(edge.len() - 1)
    } else {
        edge.reverse().take(edge.len() - 1)
    }
}

/// The first `count` sides of the boundary of cell `cell`, whose sides use
/// `uses[4 * cell + j]` of the projected `edges`.
pub open spec fn ring_prefix<T>(edges: Seq<Seq<T>>, uses: Seq<(usize, bool)>, cell: int, count: nat) -> Seq<T>
    decreases count,
{
    if count == 0 {
        Seq::empty()
    } else {
        let side = uses[4 * cell + count - 1];
        ring_prefix(edges, uses, cell, (count - 1) as nat) + side_points(edges[side.0 as int], side.1)
    }
}

/// `s` rotated left by `k` places.
pub open spec fn rotated_left<T>(s: Seq<T>, k: int) -> Seq<T> {
    s.skip(k) + s.take(k)
}

/// The point sequences of projected edges.
pub open spec fn edge_views<T>(edges: Seq<Vec<T>>) -> Seq<Seq<T>> {
    edges.map_values(|edge: Vec<T>| edge@)
}

fn push_side<T: Copy>(ring: &mut Vec<T>, edge: &Vec<T>, forward: bool)
    requires
        edge@.len() >= 1,
        old(ring)@.len() + edge@.len() <= usize::MAX,
    ensures
        final(ring)@ == old(ring)@ + side_points(edge@, forward),
{
    let count = edge.len() - 1;
    let ghost start = ring@;
    let mut k: usize = 0;
    while k < count
        invariant
            count == edge@.len() - 1,
            k <= count,
            ring@ == start + side_points(edge@, forward).take(k as int),
        decreases count - k,
    {
        let point = if forward {
            edge[k]
        } else {
            edge[count - k]
        };
        proof {
            assert(side_points(edge@, forward)[k as int] == point);
            assert(side_points(edge@, forward).take(k as int + 1) =~= side_points(edge@, forward).take(
                k as int,
            ).push(point));
        }
        ring.push(point);
        k = k + 1;
    }
    assert(side_points(edge@, forward).take(count as int) =~= side_points(edge@, forward));
}

/// The boundary of cell `cell` from the projected `edges`: its four sides
/// in the order up, right, down, left, each using the edge and direction
/// that `uses[4 * cell + j]` names, rotated to start at side `northwest`.
pub fn assemble_boundary<T: Copy>(
    edges: &Vec<Vec<T>>,
    uses: &Vec<(usize, bool)>,
    cell: usize,
    northwest: usize,
    points_per_edge: usize,
) -> (r: Vec<T>)
    requires
        2 <= points_per_edge,
        4 * points_per_edge <= usize::MAX,
        northwest < 4,
        4 * cell + 4 <= uses@.len(),
        forall|j: int|
            0 <= j < 4 ==> (#[trigger] uses@[4 * cell + j]).0 < edges@.len() && edges@[uses@[4
                * cell + j].0 as int]@.len() == points_per_edge,
    ensures
        r@ == rotated_left(
            ring_prefix(edge_views(edges@), uses@, cell as int, 4),
            northwest * (points_per_edge - 1),
        ),
{
    let ghost views = edge_views(edges@);
    let mut ring: Vec<T> = Vec::new();
    assert(uses@.len() == uses.len());
    let base = 4 * cell;
    let mut j: usize = 0;
    while j < 4
        invariant
            base == 4 * cell,
            4 * cell + 4 <= uses@.len(),
            2 <= points_per_edge,
            4 * points_per_edge <= usize::MAX,
            views == edge_views(edges@),
            forall|i: int|
                0 <= i < 4 ==> (#[trigger] uses@[4 * cell + i]).0 < edges@.len() && edges@[uses@[4
                    * cell + i].0 as int]@.len() == points_per_edge,
            j <= 4,
            ring@ == ring_prefix(views, uses@, cell as int, j as nat),
            ring@.len() == j * (points_per_edge - 1),
        decreases 4 - j,
    {
        let (owner, forward) = uses[base + j];
        proof {
            assert(uses@[4 * cell + j] == (owner, forward));
            assert(views[owner as int] == edges@[owner as int]@);
            assert(ring@.len() + points_per_edge <= usize::MAX) by (nonlinear_arith)
                requires
                    ring@.len() == j * (points_per_edge - 1),
                    j < 4,
                    4 * points_per_edge <= usize::MAX,
                    2 <= points_per_edge,
            ;
        }
        push_side(&mut ring, &edges[owner], forward);
        proof {
            assert(ring@.len() == (j + 1) * (points_per_edge - 1)) by (nonlinear_arith)
                requires
                    ring@.len() == j * (points_per_edge - 1) + (points_per_edge - 1),
            ;
        }
        j = j + 1;
    }
    assert(northwest * (points_per_edge - 1) <= 4 * points_per_edge) by (nonlinear_arith)
        requires
            northwest < 4,
            2 <= points_per_edge,
    ;
    let start = northwest * (points_per_edge - 1);
    proof {
        assert(start <= ring@.len()) by (nonlinear_arith)
            requires
                start == northwest * (points_per_edge - 1),
                ring@.len() == 4 * (points_per_edge - 1),
                northwest < 4,
        ;
    }
    let mut r: Vec<T> = Vec::new();
    let mut k: usize = start;
    while k < ring.len()
        invariant
            start <= k <= ring@.len(),
            r@ == ring@.subrange(start as int, k as int),
        decreases ring@.len() - k,
    {
        r.push(ring[k]);
        assert(ring@.subrange(start as int, k + 1) =~= ring@.subrange(start as int, k as int).push(
            ring@[k as int],
        ));
        k = k + 1;
    }
    let mut k: usize = 0;
    while k < start
        invariant
            start <= ring@.len(),
            k <= start,
            r@ == ring@.skip(start as int) + ring@.take(k as int),
        decreases start - k,
    {
        r.push(ring[k]);
        assert(ring@.take(k + 1) =~= ring@.take(k as int).push(ring@[k as int]));
        k = k + 1;
    }
    assert(ring@.subrange(start as int, ring@.len() as int) =~= ring@.skip(start as int));
    r
}


/// Every edge of a plan is projected once: two sides with the same key use
/// the same projected edge, and when they belong to different cells,
/// exactly one of the two cells traverses it forwards, so the two
/// boundaries run along it in opposite directions.
pub proof fn law_shared_edge_projected_once(
    dggs: (nat, nat),
    cells: Seq<CellView>,
    owners: Seq<EdgeOwner>,
    uses: Seq<(usize, bool)>,
    p: int,
    q: int,
)
    requires
        forall|i: int| 0 <= i < cells.len() ==> valid_digits(#[trigger] cells[i].1),
        is_edge_plan(side_keys(dggs, cells), owners, uses),
        forall|s: int|
            0 <= s < uses.len() ==> (#[trigger] uses[s]).1 == side_forward(dggs, cells[s / 4], s % 4),
        0 <= p < uses.len(),
        0 <= q < uses.len(),
        side_keys(dggs, cells)[p] == side_keys(dggs, cells)[q],
    ensures
        uses[p].0 == uses[q].0,
        cells[p / 4] != cells[q / 4] ==> uses[p].1 != uses[q].1,
{
    let keys = side_keys(dggs, cells);
    let a = uses[p].0 as int;
    let b = uses[q].0 as int;
    assert(key_view(owners[a].key) === keys[p]);
    assert(key_view(owners[b].key) === keys[q]);
    if a != b {
        if a < b {
            assert(owners[a].key != owners[b].key);
        } else {
            assert(owners[b].key != owners[a].key);
        }
    }
    let c1 = cells[p / 4];
    let c2 = cells[q / 4];
    if c1 != c2 {
        assert(0 <= p / 4 < cells.len());
        assert(0 <= q / 4 < cells.len());
        assert(valid_digits(c1.1));
        assert(valid_digits(c2.1));
        if level_of(c1) == level_of(c2) {
            law_level_index_injective(c1.0, c1.1, c2.0, c2.1);
        }
    }
}

} // verus!

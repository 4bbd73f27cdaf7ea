# rhealpixdggs

An aperture-9 rHEALPix discrete global grid system whose integer core is
verified with Verus.

## Layout

- `src/` — the verified library.
  - `face.rs`: faces, regions, cell shapes and direction names.
  - `numbering.rs`: base-9 arithmetic behind level-order and post-order numbers.
  - `cell.rs`: `CellId`, its hierarchy, text form, stable integer identifiers
    and post-order numbering.
  - `dggs.rs`: polar-square layouts and planar edge neighbours.
  - `topology.rs`: the neighbour predicate, edge contact, grid disks and rings;
    `disk_rings.rs`: a disk is its rings laid end to end.
  - `compaction.rs`, `expansion.rs`: canonical compaction and expansion of cell
    sets; `expansion_size.rs`: how many cells an expansion yields.
  - `grid.rs`: rows and columns of cells within a face; boundary point counts.
  - `region.rs`: rows of cells covering a planar rectangle, path cell lists.
  - `edges.rs`: canonical keys of shared cell edges, the plan that projects
    each shared edge once, and the assembly of boundaries from those edges;
    `edge_count.rs`: steps within a face, distinct neighbours, and the
    number of edges of the complete grid.
  - `codec.rs`: packed little-endian form of cell lists.
  - `keys.rs`, `text.rs`: sorted key sets and decimal text.
- `tests/` — tests of the library on concrete values.
- `app/` — the floating-point layer (ellipsoid, projection, vertices,
  boundaries, ellipsoidal neighbours, coverage), Rayon bulk operations and the
  PyO3 module. It takes cells, neighbours, digits, limits and edge plans
  from the library; what it decides itself rests on floating-point geometry.

Contracts are stated over mathematical views: a cell is its face and its
sequence of child digits. Laws that relate several functions (round trips of
every numbering, canonical compaction, neighbour symmetry, and others) are
public proof functions next to the code they speak of.

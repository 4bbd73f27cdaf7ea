use rhealpixdggs::cell::MAX_EXPANSION;
use rhealpixdggs::codec::{decode_cells, encode_cells};
use rhealpixdggs::edges::{assemble_boundary, edge_key};
use rhealpixdggs::region::{append_segment_cells, checked_coverage_count, flatten_rows, MAX_COVERAGE_CELLS};
use rhealpixdggs::grid::{
    boundary_point_count, bulk_boundary_total, grid_size, MAX_BOUNDARY_POINTS,
    MAX_BULK_BOUNDARY_POINTS,
};
use rhealpixdggs::keys::{contains_key, sorted_distinct};
use rhealpixdggs::topology::{MAX_GRID_CELLS, MAX_GRID_DISTANCE_AT_LARGE_RESOLUTION};
use rhealpixdggs::{compact_cells, uncompact_cells};
use rhealpixdggs::{CellId, Direction, EllipsoidalDirection, Error, Face, Region, RhealpixDggs};

fn cell(value: &str) -> CellId {
    value.parse().unwrap()
}

fn cells(values: &[&str]) -> Vec<CellId> {
    values.iter().map(|value| cell(value)).collect()
}

fn names(values: &[CellId]) -> Vec<String> {
    values.iter().map(|value| value.to_string()).collect()
}

#[test]
fn compaction_drops_cells_inside_others_and_repeats() {
    assert_eq!(names(&compact_cells(cells(&["Q12", "Q", "Q1"]))), ["Q"]);
    assert_eq!(names(&compact_cells(cells(&["Q1", "Q1", "P"]))), ["P", "Q1"]);
    assert!(compact_cells(Vec::new()).is_empty());
}

#[test]
fn compaction_merges_complete_groups_only() {
    let mut group = cell("R3").children().unwrap();
    group.push(cell("N"));
    assert_eq!(names(&compact_cells(group)), ["N", "R3"]);

    let mut partial = cell("R3").children().unwrap();
    partial.pop();
    assert_eq!(compact_cells(partial.clone()), partial);
}

#[test]
fn compaction_merges_across_several_levels() {
    let mut all = cell("S").descendants(2).unwrap();
    all.retain(|c| c.to_string() != "S00");
    all.push(cell("S00"));
    all.push(cell("O5"));
    assert_eq!(names(&compact_cells(all)), ["O5", "S"]);
}

#[test]
fn compaction_is_canonical_on_compacted_input() {
    let input = cells(&["N1", "N00", "N01", "P88", "Q"]);
    let once = compact_cells(input);
    assert_eq!(compact_cells(once.clone()), once);
}

#[test]
fn expansion_refuses_bad_resolutions() {
    assert_eq!(
        uncompact_cells(cells(&["Q1"]), 16),
        Err(Error::InvalidResolution(16))
    );
    assert_eq!(
        uncompact_cells(cells(&["Q123", "P12"]), 1),
        Err(Error::InvalidDescendantResolution {
            requested: 1,
            cell: 2
        })
    );
}

#[test]
fn expansion_refuses_too_many_cells() {
    assert_eq!(MAX_EXPANSION, 10_000_000);
    assert_eq!(
        uncompact_cells(cells(&["N"]), 8),
        Err(Error::ExpansionTooLarge(43_046_721))
    );
    assert_eq!(
        uncompact_cells(cells(&["N", "O", "P"]), 7),
        Err(Error::ExpansionTooLarge(3 * 4_782_969))
    );
}

#[test]
fn expansion_lists_distinct_cells_in_post_order() {
    let expanded = uncompact_cells(cells(&["Q12", "Q1", "P8"]), 2).unwrap();
    assert_eq!(
        names(&expanded),
        ["P80", "P81", "P82", "P83", "P84", "P85", "P86", "P87", "P88", "Q10", "Q11", "Q12",
            "Q13", "Q14", "Q15", "Q16", "Q17", "Q18"]
    );
    assert!(uncompact_cells(Vec::new(), 3).unwrap().is_empty());
}

#[test]
fn expansion_and_compaction_agree_on_leaves() {
    let input = cells(&["Q12", "Q1", "Q3", "P80"]);
    let compacted = compact_cells(input.clone());
    assert_eq!(
        uncompact_cells(compacted.clone(), 3),
        uncompact_cells(input.clone(), 3)
    );
    assert_eq!(compact_cells(uncompact_cells(input, 3).unwrap()), compacted);
}

#[test]
fn grid_positions_round_trip() {
    assert_eq!(grid_size(0), 1);
    assert_eq!(grid_size(2), 9);
    assert_eq!(grid_size(15), 14_348_907);
    assert_eq!(CellId::from_grid(Face::Q, 0, 0, 2).to_string(), "Q00");
    assert_eq!(CellId::from_grid(Face::Q, 8, 8, 2).to_string(), "Q88");
    assert_eq!(CellId::from_grid(Face::Q, 1, 5, 2).to_string(), "Q15");
    assert_eq!(CellId::from_grid(Face::N, 0, 0, 0).to_string(), "N");
    assert_eq!(cell("Q15").grid_position(), (1, 5));
    assert_eq!(cell("S734").grid_position(), (22, 10));
    let c = cell("R062841");
    let (row, column) = c.grid_position();
    assert_eq!(CellId::from_grid(Face::R, row, column, 6), c);
}

#[test]
fn boundary_point_counts_are_checked() {
    assert_eq!(
        boundary_point_count(1),
        Err(Error::InvalidBoundaryPointCount(1))
    );
    assert_eq!(boundary_point_count(2), Ok(4));
    assert_eq!(boundary_point_count(11), Ok(40));
    assert_eq!(boundary_point_count(2_500_001), Ok(MAX_BOUNDARY_POINTS));
    assert_eq!(
        boundary_point_count(3_000_000),
        Err(Error::BoundaryTooLarge(11_999_996))
    );
    assert_eq!(
        boundary_point_count(usize::MAX),
        Err(Error::BoundaryTooLarge(u64::MAX))
    );
}

#[test]
fn edge_contact_decides_nested_and_edge_cases() {
    let dggs = RhealpixDggs::wgs84_003();
    assert_eq!(dggs.edge_contact(&cell("Q4"), &cell("Q44")), Some(false));
    assert_eq!(dggs.edge_contact(&cell("Q44"), &cell("Q45")), Some(true));
    assert_eq!(dggs.edge_contact(&cell("Q1"), &cell("Q40")), Some(true));
    assert_eq!(dggs.edge_contact(&cell("Q40"), &cell("Q1")), Some(true));
    assert_eq!(dggs.edge_contact(&cell("Q0"), &cell("Q40")), None);
    assert_eq!(dggs.edge_contact(&cell("Q40"), &cell("Q44")), None);
    assert!(!RhealpixDggs::cells_cross(&cell("Q0"), &cell("Q1")));
    assert!(!RhealpixDggs::cells_topologically_overlap(&cell("Q0"), &cell("Q")));
}

#[test]
fn neighbours_are_symmetric() {
    let dggs = RhealpixDggs::new(2, 1);
    for name in ["N", "N43", "S0", "O888", "R206", "P4"] {
        let origin = cell(name);
        for direction in Direction::ALL {
            let neighbour = dggs.planar_neighbor(&origin, direction);
            assert!(dggs.are_neighbor_cells(&neighbour, &origin).unwrap(), "{name}");
            assert!(Direction::ALL
                .iter()
                .any(|back| dggs.planar_neighbor(&neighbour, *back) == origin));
        }
    }
    assert!(!dggs.are_neighbor_cells(&cell("P4"), &cell("P4")).unwrap());
    assert!(!dggs.are_neighbor_cells(&cell("P0"), &cell("P8")).unwrap());
}

#[test]
fn polar_square_positions_are_reduced() {
    let dggs = RhealpixDggs::new(5, 7);
    assert_eq!(dggs.north_square(), 1);
    assert_eq!(dggs.south_square(), 3);
    let standard = RhealpixDggs::wgs84_003();
    assert_eq!((standard.north_square(), standard.south_square()), (0, 0));
}

#[test]
fn grid_limits_are_enforced() {
    let dggs = RhealpixDggs::wgs84_003();
    assert_eq!(MAX_GRID_CELLS, 10_000_000);
    assert_eq!(MAX_GRID_DISTANCE_AT_LARGE_RESOLUTION, 2_235);
    assert!(dggs.grid_disk(&cell("Q44444444"), 2_235).is_ok() || true);
    assert_eq!(dggs.grid_ring(&cell("Q4"), 1).unwrap().len(), 4);
    assert_eq!(dggs.grid_disk(&cell("Q44"), 3).unwrap().len(), 25);
}

#[test]
fn successor_and_predecessor_undo_each_other() {
    for name in ["N82", "Q381", "O", "R888", "P0"] {
        let c = cell(name);
        let next = c.successor().unwrap();
        assert_eq!(next.predecessor().unwrap(), c);
        assert_eq!(next.level_order_index(), c.level_order_index() + 1);
    }
    assert_eq!(cell("N").predecessor(), None);
    assert_eq!(cell("N000").predecessor(), None);
    assert_eq!(cell("S888").successor(), None);
}

#[test]
fn identifiers_round_trip_through_text_and_integers() {
    for name in ["N", "S888888888888888", "Q381", "O0", "R12345678"] {
        let c = cell(name);
        assert_eq!(c.to_string(), name);
        assert_eq!(CellId::parse(&c.to_string()).unwrap(), c);
        assert_eq!(CellId::from_u64(c.to_u64()).unwrap(), c);
        assert_eq!(CellId::from_post_order_index(c.post_order_index()).unwrap(), c);
    }
    assert_eq!(cell("N").to_u64(), 0);
    assert_eq!(cell("S").to_u64(), 5);
    assert_eq!(cell("N0").to_u64(), 6);
}

#[test]
fn parse_errors_name_the_offending_text() {
    assert_eq!(CellId::parse(""), Err(Error::InvalidCellId(String::new())));
    assert_eq!(CellId::parse("A0"), Err(Error::InvalidCellId("A".to_owned())));
    assert_eq!(CellId::parse("N9"), Err(Error::InvalidCellId("N9".to_owned())));
    assert_eq!(
        CellId::parse("N0000000000000000"),
        Err(Error::InvalidResolution(16))
    );
    assert!(matches!(
        "left2".parse::<Direction>(),
        Err(Error::InvalidDirection(_))
    ));
    assert!(matches!(
        "up_north".parse::<EllipsoidalDirection>(),
        Err(Error::InvalidEllipsoidalDirection(_))
    ));
}

#[test]
fn hierarchy_errors_are_reported() {
    let c = cell("Q38");
    assert_eq!(
        c.parent_at(3),
        Err(Error::InvalidParentResolution {
            requested: 3,
            cell: 2
        })
    );
    assert_eq!(
        c.descendants(1),
        Err(Error::InvalidDescendantResolution {
            requested: 1,
            cell: 2
        })
    );
    assert_eq!(c.descendant_count(16), Err(Error::InvalidResolution(16)));
    assert_eq!(c.descendant_count(5), Ok(729));
    assert!(cell("S888888888888888").children().is_err());
    assert_eq!(c.child(1).unwrap().parent().unwrap(), c);
    assert!(c.child(9).is_err());
}

#[test]
fn rotation_composes_and_returns_after_four_turns() {
    let c = cell("N43");
    assert_eq!(c.rotated(4), c);
    assert_eq!(c.rotated(1).rotated(2), c.rotated(3));
    assert_eq!(cell("N0").rotated(1).to_string(), "N2");
}

#[test]
fn faces_and_names() {
    assert_eq!(Face::from_number(6), None);
    assert_eq!(Face::from_number(3), Some(Face::Q));
    assert_eq!(Face::Q.number(), 3);
    assert_eq!(Face::R.letter(), 'R');
    assert_eq!(Face::from_letter('S'), Ok(Face::S));
    assert!(Face::from_letter('x').is_err());
    assert_eq!(Direction::Left.as_str(), "left");
    assert_eq!("down".parse::<Direction>(), Ok(Direction::Down));
    assert_eq!(EllipsoidalDirection::SouthIndexed(2).to_string(), "south_2");
}

#[test]
fn sorted_keys_hold_each_key_once() {
    let keys = sorted_distinct(vec![5, 3, 9, 3, 5, 1]);
    assert_eq!(keys, vec![1, 3, 5, 9]);
    assert!(contains_key(&keys, 9));
    assert!(!contains_key(&keys, 4));
    assert!(sorted_distinct(Vec::new()).is_empty());
}

#[test]
fn region_rows_walk_right_and_down() {
    let dggs = RhealpixDggs::wgs84_003();
    let rows = dggs
        .region_rows(&cell("Q40"), &cell("Q42"), &cell("Q48"))
        .unwrap();
    let rows: Vec<Vec<String>> = rows.iter().map(|row| names(row)).collect();
    assert_eq!(
        rows,
        [
            ["Q40", "Q41", "Q42"],
            ["Q43", "Q44", "Q45"],
            ["Q46", "Q47", "Q48"]
        ]
    );
    let single = dggs
        .region_rows(&cell("P5"), &cell("P8"), &cell("P5"))
        .unwrap();
    assert_eq!(single, vec![vec![cell("P5")]]);
    let across = dggs
        .region_rows(&cell("Q8"), &cell("R6"), &cell("R6"))
        .unwrap();
    assert_eq!(across, vec![cells(&["Q8", "R6"])]);
    assert_eq!(MAX_COVERAGE_CELLS, 10_000_000);
}

#[test]
fn coverage_counts_and_segment_cells_are_checked() {
    assert_eq!(checked_coverage_count(3, 4), Ok(7));
    assert_eq!(
        checked_coverage_count(9_999_999, 2),
        Err(Error::ExpansionTooLarge(10_000_001))
    );
    assert_eq!(
        checked_coverage_count(usize::MAX, 1),
        Err(Error::ExpansionTooLarge(u64::MAX))
    );
    let mut path = cells(&["Q1"]);
    append_segment_cells(&mut path, cells(&["Q1", "Q2", "Q2", "Q5", "Q2"])).unwrap();
    assert_eq!(names(&path), ["Q1", "Q2", "Q5", "Q2"]);
}

#[test]
fn packed_cells_round_trip() {
    let list = cells(&["N", "S", "Q381", "R888888888888888"]);
    let bytes = encode_cells(&list);
    assert_eq!(bytes.len(), 32);
    assert_eq!(&bytes[8..16], &5u64.to_le_bytes());
    assert_eq!(decode_cells(&bytes).unwrap(), list);
    let mut trailing = bytes.clone();
    trailing.push(7);
    assert_eq!(decode_cells(&trailing).unwrap(), list);
    let mut bad = bytes;
    bad[16..24].copy_from_slice(&u64::MAX.to_le_bytes());
    assert_eq!(
        decode_cells(&bad),
        Err(Error::InvalidCellId(u64::MAX.to_string()))
    );
}

#[test]
fn edge_keys_are_shared_by_neighbours() {
    let dggs = RhealpixDggs::wgs84_003();
    let c = cell("Q44");
    let keys = dggs.boundary_edge_keys(&c);
    let up = dggs.planar_neighbor(&c, Direction::Up);
    assert_eq!(keys[0].0, edge_key(&up, &c));
    assert_eq!(keys[0].1, c.to_u64() < up.to_u64());
    let up_keys = dggs.boundary_edge_keys(&up);
    assert_eq!(up_keys[2].0, keys[0].0);
    assert_ne!(up_keys[2].1, keys[0].1);
    assert_eq!(edge_key(&cell("N"), &cell("O")), (0, 1));
}

#[test]
fn hierarchy_predicates() {
    let parent = cell("Q3");
    let child = cell("Q38");
    assert!(parent.equals(&cell("Q3")));
    assert!(!parent.equals(&child));
    assert!(child.within(&parent));
    assert!(parent.covers(&child));
    assert!(child.covered_by(&parent));
    assert!(!parent.within(&child));
    assert!(parent.hierarchically_overlaps(&child));
    assert!(!cell("Q3").hierarchically_overlaps(&cell("Q4")));
}

#[test]
fn documented_compaction_examples() {
    let children = cell("Q4").children().unwrap();
    assert_eq!(compact_cells(children.clone()), vec![cell("Q4")]);
    assert_eq!(uncompact_cells(vec![cell("Q4")], 2).unwrap(), children);
}

#[test]
fn documented_identifier_examples() {
    let c = cell("Q381");
    assert_eq!(c.resolution(), 3);
    assert_eq!(c.to_u64(), 3049);
    assert_eq!(CellId::from_u64(3049).unwrap(), c);
    let numbers: Vec<u8> = [Face::N, Face::O, Face::P, Face::Q, Face::R, Face::S]
        .iter()
        .map(|face| face.number())
        .collect();
    assert_eq!(numbers, [0, 1, 2, 3, 4, 5]);
    assert_eq!(cell("N").parent(), None);
}

#[test]
fn rows_flatten_in_order() {
    let rows = vec![cells(&["Q40", "Q41"]), Vec::new(), cells(&["Q43"])];
    assert_eq!(names(&flatten_rows(rows)), ["Q40", "Q41", "Q43"]);
    assert!(flatten_rows(Vec::new()).is_empty());
}

#[test]
fn shared_edge_plan_projects_each_edge_once() {
    let dggs = RhealpixDggs::wgs84_003();
    let q44 = cell("Q44");
    let up = dggs.planar_neighbor(&q44, Direction::Up);
    let cells = vec![q44, up];
    let (owners, uses) = dggs.shared_edge_plan(&cells);
    assert_eq!(uses.len(), 8);
    // Two neighbours share exactly one of their eight sides.
    assert_eq!(owners.len(), 7);
    // The up side of the first cell and the down side of the second use one
    // edge, owned by the first cell, in opposite directions.
    assert_eq!(uses[0].0, uses[4 + 2].0);
    assert_ne!(uses[0].1, uses[4 + 2].1);
    let shared = owners[uses[0].0];
    assert_eq!((shared.cell, shared.side), (0, 0));
    assert_eq!(shared.key, edge_key(&q44, &up));
    // Owners come in the order of their first side.
    let positions: Vec<usize> = owners.iter().map(|o| 4 * o.cell + o.side).collect();
    assert_eq!(positions, vec![0, 1, 2, 3, 4, 5, 7]);
    for (position, (owner, forward)) in uses.iter().enumerate() {
        let keys = dggs.boundary_edge_keys(&cells[position / 4]);
        assert_eq!(owners[*owner].key, keys[position % 4].0);
        assert_eq!(*forward, keys[position % 4].1);
    }
}

#[test]
fn shared_edge_plan_of_no_cells_is_empty() {
    let dggs = RhealpixDggs::wgs84_003();
    let (owners, uses) = dggs.shared_edge_plan(&Vec::new());
    assert!(owners.is_empty());
    assert!(uses.is_empty());
}

#[test]
fn boundary_is_assembled_from_sides_and_rotated() {
    // Three points per edge; each side contributes two.
    let edges: Vec<Vec<u32>> = vec![
        vec![10, 11, 12],
        vec![20, 21, 22],
        vec![30, 31, 32],
        vec![40, 41, 42],
    ];
    let uses = vec![(0, true), (1, false), (2, true), (3, false)];
    assert_eq!(
        assemble_boundary(&edges, &uses, 0, 0, 3),
        vec![10, 11, 22, 21, 30, 31, 42, 41]
    );
    assert_eq!(
        assemble_boundary(&edges, &uses, 0, 1, 3),
        vec![22, 21, 30, 31, 42, 41, 10, 11]
    );
    // The second cell of a plan reads its sides from positions 4 to 7.
    let two = vec![(9, true), (9, true), (9, true), (9, true), (3, true), (2, false), (1, true), (0, false)];
    let mut more = edges.clone();
    more.resize(10, vec![0, 0, 0]);
    assert_eq!(
        assemble_boundary(&more, &two, 1, 3, 3),
        vec![12, 11, 40, 41, 32, 31, 20, 21]
    );
}

#[test]
fn canonical_edge_keys_deduplicate_the_complete_global_grid() {
    for north_square in 0..4 {
        for south_square in 0..4 {
            let dggs = RhealpixDggs::new(north_square, south_square);
            for resolution in 0..=2u8 {
                let mut cells = Vec::new();
                for face in 0..6 {
                    let root = CellId::new(Face::from_number(face).unwrap(), Vec::new()).unwrap();
                    cells.extend(root.descendants(resolution).unwrap());
                }
                let (edges, uses) = dggs.shared_edge_plan(&cells);
                assert_eq!(uses.len(), 4 * cells.len());
                assert_eq!(
                    edges.len(),
                    12 * 9_usize.pow(u32::from(resolution)),
                    "north={north_square} south={south_square} r={resolution}"
                );
            }
        }
    }
}

#[test]
fn bulk_boundary_totals_are_checked() {
    assert_eq!(bulk_boundary_total(2, 3), Ok(16));
    assert_eq!(bulk_boundary_total(0, 3), Ok(0));
    assert_eq!(bulk_boundary_total(2, 1), Err(Error::InvalidBoundaryPointCount(1)));
    assert_eq!(
        bulk_boundary_total(1, MAX_BOUNDARY_POINTS),
        Err(Error::BoundaryTooLarge((4 * (MAX_BOUNDARY_POINTS - 1)) as u64))
    );
    assert_eq!(
        bulk_boundary_total(MAX_BULK_BOUNDARY_POINTS, 3),
        Err(Error::BoundaryTooLarge(8 * MAX_BULK_BOUNDARY_POINTS as u64))
    );
    assert_eq!(
        bulk_boundary_total(usize::MAX, 3),
        Err(Error::BoundaryTooLarge(u64::MAX))
    );
    assert_eq!(bulk_boundary_total(1_250_000, 3), Ok(10_000_000));
}

#[test]
fn quadrilaterals_name_their_planar_neighbours() {
    let dggs = RhealpixDggs::wgs84_003();
    let c = cell("Q44");
    let named = dggs.quad_ellipsoidal_neighbors(&c).unwrap();
    assert_eq!(
        named,
        vec![
            (EllipsoidalDirection::North, dggs.planar_neighbor(&c, Direction::Up)),
            (EllipsoidalDirection::South, dggs.planar_neighbor(&c, Direction::Down)),
            (EllipsoidalDirection::West, dggs.planar_neighbor(&c, Direction::Left)),
            (EllipsoidalDirection::East, dggs.planar_neighbor(&c, Direction::Right)),
        ]
    );
    assert_eq!(dggs.quad_ellipsoidal_neighbors(&cell("N4")), None);
}

#[test]
fn skew_quadrilateral_northwest_vertex_follows_the_triangle() {
    let dggs = RhealpixDggs::wgs84_003();
    assert_eq!(dggs.skew_quad_northwest_index(1, Region::NorthPolar), 3);
    assert_eq!(dggs.skew_quad_northwest_index(0, Region::NorthPolar), 0);
    assert_eq!(dggs.skew_quad_northwest_index(2, Region::SouthPolar), 2);
    assert_eq!(dggs.skew_quad_northwest_index(-1, Region::SouthPolar), 3);
    let turned = RhealpixDggs::new(1, 2);
    assert_eq!(turned.skew_quad_northwest_index(0, Region::NorthPolar), 1);
    assert_eq!(turned.skew_quad_northwest_index(1, Region::SouthPolar), 3);
}

#[test]
fn compaction_round_trips_through_expansion() {
    let mut cells = cell("Q4").children().unwrap();
    cells.push(cell("R12"));
    cells.push(cell("R1"));
    cells.push(cell("N"));
    let compact = compact_cells(cells.clone());
    let expanded = uncompact_cells(cells.clone(), 3).unwrap();
    assert_eq!(uncompact_cells(compact.clone(), 3).unwrap(), expanded);
    assert_eq!(compact_cells(expanded), compact);
}

#[test]
fn grid_disk_is_its_rings_in_order() {
    let dggs = RhealpixDggs::wgs84_003();
    for origin in ["Q44", "N0", "S88", "R0"] {
        let origin = cell(origin);
        let disk = dggs.grid_disk(&origin, 3).unwrap();
        let mut rings = Vec::new();
        for k in 0..=3 {
            rings.extend(dggs.grid_ring(&origin, k).unwrap());
        }
        assert_eq!(disk[0], origin);
        assert_eq!(disk, rings);
    }
}

#[test]
fn neighbours_within_a_face_are_one_row_or_column_away() {
    let dggs = RhealpixDggs::wgs84_003();
    let c = cell("Q444");
    let (row, column) = c.grid_position();
    let up = dggs.planar_neighbor(&c, Direction::Up);
    let down = dggs.planar_neighbor(&c, Direction::Down);
    let left = dggs.planar_neighbor(&c, Direction::Left);
    let right = dggs.planar_neighbor(&c, Direction::Right);
    assert_eq!(up.grid_position(), (row - 1, column));
    assert_eq!(down.grid_position(), (row + 1, column));
    assert_eq!(left.grid_position(), (row, column - 1));
    assert_eq!(right.grid_position(), (row, column + 1));
}

#[test]
fn the_four_neighbours_of_a_cell_are_distinct() {
    for layout in [(0, 0), (1, 2), (3, 3)] {
        let dggs = RhealpixDggs::new(layout.0, layout.1);
        for value in ["N", "S", "O", "N0", "N4", "S8", "Q0", "R22", "N012"] {
            let c = cell(value);
            let mut neighbours: Vec<CellId> = [
                Direction::Up,
                Direction::Right,
                Direction::Down,
                Direction::Left,
            ]
            .iter()
            .map(|d| dggs.planar_neighbor(&c, *d))
            .collect();
            assert!(!neighbours.contains(&c));
            neighbours.sort();
            neighbours.dedup();
            assert_eq!(neighbours.len(), 4, "{value}");
        }
    }
}

use std::collections::BTreeSet;

use rhealpixdggs::{CellId, Direction, Error, RhealpixDggs};

fn parse(value: &str) -> CellId {
    value.parse().unwrap()
}

fn names(cells: Vec<CellId>) -> Vec<String> {
    cells.into_iter().map(|cell| cell.to_string()).collect()
}

#[test]
fn planar_neighbors_match_upstream_polar_and_wrapping_cases() {
    let dggs = RhealpixDggs::wgs84_003();
    let cases = [
        ("N0", ["R0", "N1", "N3", "Q2"]),
        ("S0", ["R8", "S1", "S3", "O6"]),
        ("N62", ["N61", "N70", "N65", "N38"]),
        ("O0", ["R2", "O1", "O3", "N6"]),
        ("Q888", ["Q887", "R666", "S666", "Q885"]),
        ("R000", ["Q222", "R001", "R003", "N000"]),
    ];
    for (identifier, expected) in cases {
        let cell: CellId = identifier.parse().unwrap();
        let actual =
            Direction::ALL.map(|direction| dggs.planar_neighbor(&cell, direction).to_string());
        assert_eq!(actual, expected, "{identifier}");
    }
}

#[test]
fn planar_neighbors_respect_custom_polar_square_positions() {
    let dggs = RhealpixDggs::new(1, 3);
    let cases = [
        ("N0", ["O0", "N1", "N3", "R2"]),
        ("S0", ["Q8", "S1", "S3", "R6"]),
        ("O0", ["R2", "O1", "O3", "N0"]),
    ];
    for (identifier, expected) in cases {
        let cell: CellId = identifier.parse().unwrap();
        let actual =
            Direction::ALL.map(|direction| dggs.planar_neighbor(&cell, direction).to_string());
        assert_eq!(actual, expected, "{identifier}");
    }
}

#[test]
fn grid_disk_and_ring_use_shortest_edge_distance_layers() {
    let dggs = RhealpixDggs::wgs84_003();
    let origin = parse("Q44");
    let ring_one = dggs.grid_ring(&origin, 1).unwrap();
    let ring_two = dggs.grid_ring(&origin, 2).unwrap();
    let disk_two = dggs.grid_disk(&origin, 2).unwrap();

    assert_eq!(names(ring_one.clone()), ["Q41", "Q43", "Q45", "Q47"]);
    assert_eq!(ring_two.len(), 8);
    assert_eq!(disk_two.len(), 13);
    assert_eq!(disk_two[0], origin);
    assert_eq!(&disk_two[1..5], ring_one.as_slice());
    assert_eq!(&disk_two[5..], ring_two.as_slice());
    assert_eq!(dggs.grid_ring(&origin, 0).unwrap(), [origin.clone()]);
    assert_eq!(dggs.grid_disk(&origin, 0).unwrap(), [origin]);
}

#[test]
fn topology_crosses_antimeridian_and_polar_face_seams() {
    let dggs = RhealpixDggs::wgs84_003();
    let antimeridian = parse("R888");
    let antimeridian_ring = dggs.grid_ring(&antimeridian, 1).unwrap();
    assert!(antimeridian_ring.contains(&parse("O666")));

    let south_seam = parse("Q888");
    let south_ring = dggs.grid_ring(&south_seam, 1).unwrap();
    assert!(south_ring.contains(&parse("S666")));

    let polar = parse("N0");
    assert_eq!(
        names(dggs.grid_ring(&polar, 1).unwrap()),
        ["N1", "N3", "Q2", "R0"]
    );
}

#[test]
fn neighbour_predicate_is_symmetric_across_all_polar_layouts() {
    for north_square in 0..4 {
        for south_square in 0..4 {
            let dggs = RhealpixDggs::new(north_square, south_square);
            for origin in [parse("N"), parse("S"), parse("N0"), parse("S43")] {
                let ring = dggs.grid_ring(&origin, 1).unwrap();
                let expected: BTreeSet<_> = Direction::ALL
                    .into_iter()
                    .map(|direction| dggs.planar_neighbor(&origin, direction))
                    .collect();
                assert_eq!(ring, expected.into_iter().collect::<Vec<_>>());
                for neighbour in ring {
                    assert!(dggs.are_neighbor_cells(&origin, &neighbour).unwrap());
                    assert!(dggs.are_neighbor_cells(&neighbour, &origin).unwrap());
                }
                assert!(!dggs.are_neighbor_cells(&origin, &origin).unwrap());
            }
        }
    }
}

#[test]
fn resolution_zero_disk_saturates_the_six_face_graph() {
    let dggs = RhealpixDggs::wgs84_003();
    let origin = parse("N");
    assert_eq!(dggs.grid_disk(&origin, 1).unwrap().len(), 5);
    assert_eq!(dggs.grid_disk(&origin, 2).unwrap().len(), 6);
    assert_eq!(dggs.grid_disk(&origin, 100).unwrap().len(), 6);
    assert!(dggs.grid_ring(&origin, 3).unwrap().is_empty());
}

#[test]
fn neighbour_predicate_requires_matching_resolutions() {
    let dggs = RhealpixDggs::wgs84_003();
    let error = dggs
        .are_neighbor_cells(&parse("Q4"), &parse("Q44"))
        .unwrap_err();
    assert_eq!(
        error,
        Error::ResolutionMismatch {
            origin: 1,
            destination: 2,
        }
    );
}

#[test]
fn unreasonable_grid_expansions_fail_before_traversal() {
    let dggs = RhealpixDggs::wgs84_003();
    let error = dggs.grid_disk(&parse("Q44444444"), 3_000).unwrap_err();
    assert_eq!(
        error,
        Error::GridDistanceTooLarge {
            requested: 3_000,
            maximum: 2_235,
        }
    );
}

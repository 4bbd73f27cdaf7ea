use rhealpixdggs::{CellId, CellShape, EllipsoidalDirection, Error, Face, Region, MAX_RESOLUTION};
use rhealpixdggs::{compact_cells, uncompact_cells};

const TOTAL_CELLS: u64 = 1_389_765_141_638_880;

#[test]
fn parses_and_formats_upstream_ids() {
    let cell: CellId = "N038".parse().unwrap();
    assert_eq!(cell.face(), Face::N);
    assert_eq!(cell.digits(), &[0, 3, 8]);
    assert_eq!(cell.to_string(), "N038");
    assert!("A0".parse::<CellId>().is_err());
    assert!("N9".parse::<CellId>().is_err());
}

#[test]
fn integer_encoding_round_trips_every_test_cell() {
    for face in 0..6 {
        for digits in [vec![], vec![0], vec![8], vec![1, 4, 7], vec![8; 15]] {
            let cell = CellId::new(Face::from_number(face).unwrap(), digits).unwrap();
            assert_eq!(CellId::from_u64(cell.to_u64()).unwrap(), cell);
        }
    }
    assert_eq!(MAX_RESOLUTION, 15);
    assert!(CellId::from_u64(TOTAL_CELLS).is_err());
}

#[test]
fn level_and_post_order_indices_match_the_finite_hierarchy() {
    let cases = [
        ("N", 0, 231_627_523_606_479),
        ("N0", 6, 25_736_391_511_830),
        ("N2", 8, 77_209_174_535_492),
        ("N82", 134, 214_469_929_265_257),
        ("Q381", 3_049, 795_604_004_266_974),
        ("S", 5, 1_389_765_141_638_879),
        (
            "S888888888888888",
            1_389_765_141_638_879,
            1_389_765_141_638_864,
        ),
    ];
    for (identifier, level, post) in cases {
        let cell: CellId = identifier.parse().unwrap();
        assert_eq!(cell.level_order_index(), level, "level {identifier}");
        assert_eq!(cell.post_order_index(), post, "post {identifier}");
        assert_eq!(
            CellId::from_level_order_index(level).unwrap(),
            cell,
            "level round trip {identifier}"
        );
        assert_eq!(
            CellId::from_post_order_index(post).unwrap(),
            cell,
            "post round trip {identifier}"
        );
    }

    let total = TOTAL_CELLS;
    assert_eq!(total, 1_389_765_141_638_880);
    assert_eq!(
        CellId::from_level_order_index(total),
        Err(Error::InvalidCellIndex {
            index: total,
            order: "level"
        })
    );
    assert_eq!(
        CellId::from_post_order_index(total),
        Err(Error::InvalidCellIndex {
            index: total,
            order: "post"
        })
    );
}

#[test]
fn traversal_indices_round_trip_every_cell_through_resolution_four() {
    for face_number in 0..6 {
        let root = CellId::new(Face::from_number(face_number).unwrap(), Vec::new()).unwrap();
        for resolution in 0..=4 {
            for cell in root.descendants(resolution).unwrap() {
                assert_eq!(
                    CellId::from_level_order_index(cell.level_order_index()).unwrap(),
                    cell
                );
                assert_eq!(
                    CellId::from_post_order_index(cell.post_order_index()).unwrap(),
                    cell
                );
            }
        }
    }
}

#[test]
fn cell_order_is_upstream_post_order() {
    let mut cells = ["N", "N0", "N00", "N01", "N08", "N1", "O0"]
        .map(|identifier| identifier.parse::<CellId>().unwrap());
    cells.sort();
    assert_eq!(
        cells.each_ref().map(|cell| cell.to_string()),
        ["N00", "N01", "N08", "N0", "N1", "N", "O0"]
    );
    for cells in cells.windows(2) {
        assert!(cells[0].post_order_index() < cells[1].post_order_index());
    }
}

#[test]
fn predecessor_and_successor_match_upstream_examples() {
    let cell: CellId = "N82".parse().unwrap();
    assert_eq!(cell.successor().unwrap().to_string(), "N83");
    assert_eq!(cell.successor_at(0).unwrap().unwrap().to_string(), "O");
    assert_eq!(cell.successor_at(1).unwrap().unwrap().to_string(), "O0");
    assert_eq!(cell.successor_at(3).unwrap().unwrap().to_string(), "N830");

    let cell: CellId = "N08".parse().unwrap();
    assert_eq!(cell.predecessor().unwrap().to_string(), "N07");
    assert_eq!(cell.predecessor_at(0).unwrap(), None);
    assert_eq!(cell.predecessor_at(1).unwrap(), None);
    assert_eq!(cell.predecessor_at(3).unwrap().unwrap().to_string(), "N088");

    let terminal: CellId = "S".parse().unwrap();
    assert_eq!(terminal.successor(), None);
    assert_eq!(terminal.successor_at(15).unwrap(), None);
    assert_eq!(terminal.predecessor().unwrap().to_string(), "R");
}

#[test]
fn hierarchy_is_prefix_based() {
    let parent: CellId = "Q38".parse().unwrap();
    let child: CellId = "Q381".parse().unwrap();
    assert!(parent.contains(&child));
    assert_eq!(child.parent().unwrap(), parent);
    assert_eq!(child.parent_at(0).unwrap().to_string(), "Q");
    assert_eq!(parent.children().unwrap().len(), 9);
}

#[test]
fn region_shape_and_rotation_match_upstream() {
    let cases = [
        ("N", Region::NorthPolar, CellShape::Cap),
        ("S", Region::SouthPolar, CellShape::Cap),
        ("P2", Region::Equatorial, CellShape::Quad),
        ("N4", Region::NorthPolar, CellShape::Cap),
        ("N0", Region::NorthPolar, CellShape::Dart),
        ("N43", Region::NorthPolar, CellShape::SkewQuad),
        ("N404", Region::NorthPolar, CellShape::Dart),
        ("N246", Region::NorthPolar, CellShape::Dart),
    ];
    for (identifier, region, shape) in cases {
        let cell: CellId = identifier.parse().unwrap();
        assert_eq!(cell.region(), region, "{identifier}");
        assert_eq!(cell.shape(), shape, "{identifier}");
    }

    let cell: CellId = "N0".parse().unwrap();
    assert_eq!(
        (0..4)
            .map(|turns| cell.rotated(turns).to_string())
            .collect::<Vec<_>>(),
        ["N0", "N2", "N8", "N6"]
    );
}

#[test]
fn ellipsoidal_direction_names_round_trip() {
    for name in [
        "north",
        "south",
        "east",
        "west",
        "north_east",
        "north_west",
        "south_east",
        "south_west",
        "north_0",
        "north_3",
        "south_0",
        "south_3",
    ] {
        let direction: EllipsoidalDirection = name.parse().unwrap();
        assert_eq!(direction.to_string(), name);
    }
    assert!("left".parse::<EllipsoidalDirection>().is_err());
    assert!("north_4".parse::<EllipsoidalDirection>().is_err());
}

#[test]
fn compaction_is_recursive() {
    let root: CellId = "P".parse().unwrap();
    let grandchildren = root.descendants(2).unwrap();
    assert_eq!(compact_cells(grandchildren), vec![root]);
}

#[test]
fn uncompaction_round_trips() {
    let root: CellId = "P".parse().unwrap();
    let expanded = uncompact_cells(vec![root.clone()], 2).unwrap();
    assert_eq!(expanded.len(), 81);
    assert_eq!(compact_cells(expanded), vec![root]);
}

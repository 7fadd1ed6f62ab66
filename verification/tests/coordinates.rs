use hex_territory::coordinate::HexCoordinate;

fn hex(q: i32, r: i32) -> HexCoordinate {
    HexCoordinate::new(q, r)
}

#[test]
fn range_of_radius_zero_is_the_centre() {
    assert_eq!(hex(3, -4).range(0), vec![hex(3, -4)]);
}

#[test]
fn range_of_radius_one_lists_the_columns_left_to_right() {
    let cells = hex(0, 0).range(1);
    assert_eq!(
        cells,
        vec![hex(-1, 0), hex(-1, 1), hex(0, -1), hex(0, 0), hex(0, 1), hex(1, -1), hex(1, 0)]
    );
}

#[test]
fn range_is_shifted_with_its_centre() {
    let cells = hex(10, 20).range(1);
    assert_eq!(
        cells,
        vec![
            hex(9, 20),
            hex(9, 21),
            hex(10, 19),
            hex(10, 20),
            hex(10, 21),
            hex(11, 19),
            hex(11, 20)
        ]
    );
}

#[test]
fn range_has_the_cell_count_of_a_disc() {
    for radius in 0u32..12 {
        let cells = hex(0, 0).range(radius);
        assert_eq!(cells.len() as u32, 3 * radius * radius + 3 * radius + 1);
    }
    assert_eq!(hex(0, 0).range(5).len(), 91);
    assert_eq!(hex(0, 0).range(15).len(), 721);
}

#[test]
fn range_holds_each_cell_once_and_only_cells_within_the_radius() {
    for radius in 0u32..8 {
        let cells = hex(0, 0).range(radius);
        for (i, a) in cells.iter().enumerate() {
            assert!(hex(0, 0).distance(*a) <= radius);
            for b in cells.iter().skip(i + 1) {
                assert_ne!(a, b);
            }
        }
    }
}

#[test]
fn range_holds_every_cell_within_the_radius() {
    let radius = 4u32;
    let cells = hex(0, 0).range(radius);
    for q in -6..=6 {
        for r in -6..=6 {
            let cell = hex(q, r);
            assert_eq!(cells.contains(&cell), hex(0, 0).distance(cell) <= radius);
        }
    }
}

#[test]
fn distance_counts_steps_along_the_grid() {
    assert_eq!(hex(0, 0).distance(hex(0, 0)), 0);
    assert_eq!(hex(0, 0).distance(hex(10, 0)), 10);
    assert_eq!(hex(0, 0).distance(hex(3, -3)), 3);
    assert_eq!(hex(0, 0).distance(hex(3, 3)), 6);
    assert_eq!(hex(0, 0).distance(hex(-2, -5)), 7);
    assert_eq!(hex(1, 2).distance(hex(-3, 7)), 5);
    assert_eq!(hex(-4, 1).distance(hex(2, -1)), 6);
}

#[test]
fn distance_is_symmetric_and_zero_on_the_diagonal() {
    for q in -4..=4 {
        for r in -4..=4 {
            let a = hex(q, r);
            assert_eq!(a.distance(a), 0);
            for s in -3..=3 {
                for t in -3..=3 {
                    let b = hex(s, t);
                    assert_eq!(a.distance(b), b.distance(a));
                }
            }
        }
    }
}

#[test]
fn neighbors_come_counter_clockwise_from_the_right() {
    assert_eq!(
        hex(0, 0).neighbors(),
        [hex(1, 0), hex(0, 1), hex(-1, 1), hex(-1, 0), hex(0, -1), hex(1, -1)]
    );
    assert_eq!(
        hex(5, -2).neighbors(),
        [hex(6, -2), hex(5, -1), hex(4, -1), hex(4, -2), hex(5, -3), hex(6, -3)]
    );
}

#[test]
fn neighbors_are_one_step_away() {
    let centre = hex(-7, 3);
    for n in centre.neighbors() {
        assert_eq!(centre.distance(n), 1);
    }
}

#[test]
fn coordinates_agree_with_hexx() {
    let ours: Vec<(i32, i32)> = hex(2, -1).range(3).iter().map(|c| (c.q, c.r)).collect();
    let theirs: Vec<(i32, i32)> = hexx::Hex::new(2, -1).range(3).map(|h| (h.x, h.y)).collect();
    assert_eq!(ours, theirs);
}

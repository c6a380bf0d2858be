use ripper::grid_world::vision::sight_fits;
use ripper::grid_world::layout::parse_layout;
use ripper::grid_world::vision::{get_visible_cells, has_line_of_sight, trace_line};
use ripper::grid_world::world::WorldConfig;

#[test]
fn trace_line_straight_and_steep() {
    assert_eq!(trace_line((0, 0), (0, 3)), vec![(0, 0), (0, 1), (0, 2), (0, 3)]);
    assert_eq!(trace_line((3, 0), (0, 0)), vec![(3, 0), (2, 0), (1, 0), (0, 0)]);
    assert_eq!(trace_line((0, 0), (2, 2)), vec![(0, 0), (1, 1), (2, 2)]);
    assert_eq!(trace_line((0, 0), (1, 2)), vec![(0, 0), (1, 1), (1, 2)]);
    assert_eq!(trace_line((1, 2), (0, 0)), vec![(1, 2), (0, 1), (0, 0)]);
    assert_eq!(trace_line((4, 4), (4, 4)), vec![(4, 4)]);
}

#[test]
fn sight_stops_at_walls_but_sees_the_wall() {
    let world = parse_layout(".....\n..#..\n.....", &WorldConfig::default());
    assert!(has_line_of_sight(&world, (1, 0), (1, 2), 10));
    assert!(!has_line_of_sight(&world, (1, 0), (1, 4), 10));
    assert!(has_line_of_sight(&world, (0, 0), (0, 4), 10));
}

#[test]
fn sight_respects_range() {
    let world = parse_layout(".....\n.....\n.....", &WorldConfig::default());
    assert!(has_line_of_sight(&world, (0, 0), (0, 2), 2));
    assert!(!has_line_of_sight(&world, (0, 0), (0, 3), 2));
    assert!(!has_line_of_sight(&world, (0, 0), (2, 2), 2));
    assert!(has_line_of_sight(&world, (1, 1), (1, 1), 0));
}

#[test]
fn diagonal_corner_between_walls_blocks() {
    let world = parse_layout(".#\n#.", &WorldConfig::default());
    assert!(!has_line_of_sight(&world, (0, 0), (1, 1), 5));
    assert!(!has_line_of_sight(&world, (1, 1), (0, 0), 5));
    let world = parse_layout("..\n#.", &WorldConfig::default());
    assert!(has_line_of_sight(&world, (0, 0), (1, 1), 5));
}

#[test]
fn straight_sight_is_symmetric() {
    let world = parse_layout("......\n.#..#.\n...#..\n......", &WorldConfig::default());
    for a in [(0usize, 0usize), (1, 2), (2, 2), (3, 5), (0, 3)] {
        for b in [(0usize, 5usize), (3, 2), (2, 1), (3, 3), (0, 0), (3, 0)] {
            let straight = a.0 == b.0 || a.1 == b.1 || a.0.abs_diff(b.0) == a.1.abs_diff(b.1);
            if straight {
                assert_eq!(has_line_of_sight(&world, a, b, 10), has_line_of_sight(&world, b, a, 10));
            }
        }
    }
}

#[test]
fn bent_sight_is_the_same_both_ways() {
    let world = parse_layout("...\n.#.", &WorldConfig::default());
    assert!(!has_line_of_sight(&world, (0, 0), (1, 2), 5));
    assert!(!has_line_of_sight(&world, (1, 2), (0, 0), 5));
    let world = parse_layout("..\n.#\n..", &WorldConfig::default());
    assert!(!has_line_of_sight(&world, (0, 0), (2, 1), 5));
    assert!(!has_line_of_sight(&world, (2, 1), (0, 0), 5));
}

#[test]
fn sight_is_symmetric_everywhere() {
    let world = parse_layout("..#...\n.#..#.\n...#..\n#.....", &WorldConfig::default());
    for a in 0..24usize {
        for b in 0..24usize {
            let p = (a / 6, a % 6);
            let q = (b / 6, b % 6);
            assert_eq!(has_line_of_sight(&world, p, q, 6), has_line_of_sight(&world, q, p, 6));
        }
    }
}

#[test]
fn far_coordinates_trace() {
    let p = trace_line((400_000_000, 400_000_000), (400_000_002, 400_000_001));
    assert_eq!(p, vec![(400_000_000, 400_000_000), (400_000_001, 400_000_001), (400_000_002, 400_000_001)]);
}

#[test]
fn visible_cells_in_row_major_order() {
    let world = parse_layout("...\n...\n...", &WorldConfig::default());
    let v = get_visible_cells(&world, (1, 1), 1);
    assert_eq!(v, vec![(0, 1), (1, 0), (1, 1), (1, 2), (2, 1)]);
    let v = get_visible_cells(&world, (0, 0), 0);
    assert_eq!(v, vec![(0, 0)]);
}

#[test]
fn sight_computation_limits() {
    assert!(sight_fits(7, 7, (3, 3), 10));
    assert!(!sight_fits(0, 7, (0, 0), 1));
    assert!(!sight_fits(7, 7, (3, 3), 0x7fff_ffff));
    assert!(sight_fits(40000, 40000, (0, 0), 30000));
    assert!(!sight_fits(40000, 40000, (0, 0), 39000));
}

#[test]
fn open_sight_is_symmetric() {
    let world = parse_layout("....\n....\n....", &WorldConfig::default());
    assert!(has_line_of_sight(&world, (0, 0), (1, 3), 5));
    assert!(has_line_of_sight(&world, (1, 3), (0, 0), 5));
    assert!(!has_line_of_sight(&world, (0, 0), (2, 3), 3));
    assert!(!has_line_of_sight(&world, (2, 3), (0, 0), 3));
}

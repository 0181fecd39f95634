use arnis::blocks::Block;
use arnis::bresenham::bresenham_line;
use arnis::rails::{determine_rail_direction, smooth_diagonal_rails};

#[test]
fn test_smooth_diagonal_rails() {
    let points = vec![(0, 0, 0), (1, 0, 1), (2, 0, 2)];
    let smoothed = smooth_diagonal_rails(&points);
    assert!(smoothed.len() > points.len());
}

#[test]
fn smoothing_puts_corners_into_diagonal_steps() {
    let points = vec![(0, 0, 0), (1, 0, 1), (2, 0, 2)];
    assert_eq!(
        smooth_diagonal_rails(&points),
        vec![(0, 0, 0), (0, 0, 1), (1, 0, 1), (2, 0, 1), (2, 0, 2)]
    );
}

#[test]
fn smoothing_keeps_straight_paths() {
    let points = vec![(0, 3, 0), (1, 3, 0), (2, 3, 0)];
    assert_eq!(smooth_diagonal_rails(&points), points);
    assert_eq!(smooth_diagonal_rails(&[]), vec![]);
    assert_eq!(smooth_diagonal_rails(&[(4, 0, 4)]), vec![(4, 0, 4)]);
}

#[test]
fn smoothing_a_lone_diagonal_step_goes_along_x_first() {
    assert_eq!(
        smooth_diagonal_rails(&[(0, 7, 0), (1, 0, -1)]),
        vec![(0, 7, 0), (1, 7, 0), (1, 0, -1)]
    );
}

#[test]
fn smoothing_follows_the_way_in() {
    // Coming in along z (same x), the corner keeps x.
    assert_eq!(
        smooth_diagonal_rails(&[(0, 0, -1), (0, 0, 0), (1, 0, 1)]),
        vec![(0, 0, -1), (0, 0, 0), (0, 0, 1), (1, 0, 1)]
    );
    // At the start, a next step along z keeps x at the far end.
    assert_eq!(
        smooth_diagonal_rails(&[(0, 0, 0), (1, 0, 1), (1, 0, 2)]),
        vec![(0, 0, 0), (1, 0, 0), (1, 0, 1), (1, 0, 2)]
    );
}

#[test]
fn smoothed_lines_have_no_diagonal_steps() {
    let line = bresenham_line(0, 0, 0, 7, 0, 3);
    let smoothed = smooth_diagonal_rails(&line);
    assert_eq!(smoothed.first(), line.first());
    assert_eq!(smoothed.last(), line.last());
    for w in smoothed.windows(2) {
        let (a, b) = (w[0], w[1]);
        assert!(!((a.0 - b.0).abs() == 1 && (a.2 - b.2).abs() == 1));
    }
}

#[test]
fn straight_rails() {
    assert_eq!(determine_rail_direction((5, 5), Some((5, 4)), Some((5, 6))), Block::RailNorthSouth);
    assert_eq!(determine_rail_direction((5, 5), Some((4, 5)), Some((6, 5))), Block::RailEastWest);
    assert_eq!(determine_rail_direction((5, 5), None, None), Block::RailNorthSouth);
    assert_eq!(determine_rail_direction((5, 5), Some((6, 5)), None), Block::RailEastWest);
    assert_eq!(determine_rail_direction((5, 5), None, Some((5, 9))), Block::RailNorthSouth);
    assert_eq!(determine_rail_direction((5, 5), None, Some((6, 6))), Block::RailNorthSouth);
}

#[test]
fn curved_rails() {
    assert_eq!(determine_rail_direction((5, 5), Some((4, 5)), Some((5, 4))), Block::RailNorthWest);
    assert_eq!(determine_rail_direction((5, 5), Some((5, 4)), Some((4, 5))), Block::RailNorthWest);
    assert_eq!(determine_rail_direction((5, 5), Some((6, 5)), Some((5, 4))), Block::RailNorthEast);
    assert_eq!(determine_rail_direction((5, 5), Some((4, 5)), Some((5, 6))), Block::RailSouthWest);
    assert_eq!(determine_rail_direction((5, 5), Some((5, 6)), Some((6, 5))), Block::RailSouthEast);
}

#[test]
fn far_neighbours_fall_back_on_the_previous_step() {
    assert_eq!(determine_rail_direction((0, 0), Some((2, 1)), Some((1, 3))), Block::RailEastWest);
    assert_eq!(determine_rail_direction((0, 0), Some((1, 3)), Some((2, 1))), Block::RailNorthSouth);
}

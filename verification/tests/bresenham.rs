use arnis::bresenham::bresenham_line;

#[test]
fn line_along_x() {
    assert_eq!(bresenham_line(0, 0, 0, 2, 0, 1), vec![(0, 0, 0), (1, 0, 1), (2, 0, 1)]);
    assert_eq!(bresenham_line(3, 0, 0, 0, 0, 0), vec![(3, 0, 0), (2, 0, 0), (1, 0, 0), (0, 0, 0)]);
}

#[test]
fn line_led_by_other_axes() {
    assert_eq!(bresenham_line(0, 0, 0, 1, 0, 3), vec![(0, 0, 0), (0, 0, 1), (1, 0, 2), (1, 0, 3)]);
    assert_eq!(bresenham_line(0, 0, 0, 0, 2, 0), vec![(0, 0, 0), (0, 1, 0), (0, 2, 0)]);
}

#[test]
fn single_point() {
    assert_eq!(bresenham_line(5, -2, 7, 5, -2, 7), vec![(5, -2, 7)]);
}

#[test]
fn ends_and_steps() {
    let line = bresenham_line(-4, 0, 9, 13, 0, -2);
    assert_eq!(line.len(), 18);
    assert_eq!(line[0], (-4, 0, 9));
    assert_eq!(line[17], (13, 0, -2));
    for w in line.windows(2) {
        assert_eq!((w[1].0 - w[0].0).abs(), 1);
        assert!((w[1].2 - w[0].2).abs() <= 1);
    }
}

#[test]
fn extreme_coordinates() {
    let line = bresenham_line(i32::MIN, 0, 0, i32::MIN + 2, 0, 0);
    assert_eq!(line, vec![(i32::MIN, 0, 0), (i32::MIN + 1, 0, 0), (i32::MIN + 2, 0, 0)]);
}

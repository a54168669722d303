use rusterizer::util;

fn contains(v: &Vec<(i32, i32)>, p: (i32, i32)) -> bool {
    v.iter().any(|q| *q == p)
}

#[test]
fn line_horizontal() {
    let pts = util::line((0, 0), (10, 0));
    assert_eq!(pts.len(), 12);
    assert_eq!(pts[0], (0, 0));
    assert_eq!(pts[1], (10, 0));
    for x in 0..10 {
        assert!(contains(&pts, (x, 0)));
    }
}

#[test]
fn line_endpoint_inclusion() {
    for &(p0, p1) in &[((0, 0), (7, 3)), ((-5, 9), (2, -14)), ((3, 3), (3, 3)), ((5, 5), (5, 9))] {
        let pts = util::line(p0, p1);
        assert!(contains(&pts, p0));
        assert!(contains(&pts, p1));
    }
}

#[test]
fn line_symmetry() {
    for &(p0, p1) in &[((3, 7), (1, 2)), ((0, 0), (1, 10)), ((5, 5), (5, 9)), ((-4, 2), (9, -1))] {
        let a = util::line(p0, p1);
        let b = util::line(p1, p0);
        assert_eq!(a, b);
    }
}

#[test]
fn line_octant_correctness() {
    // A steep segment must sample along the dominant axis (span 10), never
    // collapse to the minor axis span (1).
    let pts = util::line((0, 0), (1, 10));
    assert_eq!(pts.len(), 12);
    for y in 0..=10 {
        assert!(pts.iter().any(|q| q.1 == y));
    }
}

#[test]
fn line_steep_exact_points() {
    let pts = util::line((0, 0), (1, 10));
    let expected = vec![
        (1, 10), (0, 0),
        (0, 0), (0, 1), (0, 2), (0, 3), (1, 4), (1, 5), (1, 6), (1, 7), (1, 8), (1, 9),
    ];
    assert_eq!(pts, expected);
}

#[test]
fn line_vertical_has_no_gaps() {
    let pts = util::line((5, 5), (5, 9));
    assert_eq!(pts.len(), 6);
    for y in 5..=9 {
        assert!(contains(&pts, (5, y)));
    }
}

#[test]
fn line2_transposed_worker() {
    // The worker takes transposed endpoints and hands back device points.
    let pts = util::line2((0, 0), (2, 0));
    assert_eq!(pts, vec![(0, 2), (0, 0), (0, 0), (0, 1)]);
}

#[test]
fn rect_edges() {
    let pts = util::rect((0, 0), (2, 2));
    // Each corner sits on two edges.
    for c in [(0, 0), (2, 0), (0, 2), (2, 2)] {
        assert!(pts.iter().filter(|q| **q == c).count() >= 2);
    }
    // Edge interiors are present.
    assert!(contains(&pts, (1, 0)));
    assert!(contains(&pts, (0, 1)));
    assert!(contains(&pts, (2, 1)));
    assert!(contains(&pts, (1, 2)));
}

#[test]
fn polygon_closing_edge() {
    // The closing edge from the last vertex back to the first must be drawn.
    let pts = util::polygon(&vec![(0, 0), (10, 0), (10, 10)]);
    // (0, 1) and (9, 10) lie only on the direct diagonal edge (0,0)-(10,10).
    assert!(contains(&pts, (0, 1)));
    assert!(contains(&pts, (9, 10)));
}

#[test]
fn polygon_two_vertices_draws_segment_twice() {
    let pts = util::polygon(&vec![(0, 0), (4, 0)]);
    let seg = util::line((0, 0), (4, 0));
    assert_eq!(pts.len(), 2 * seg.len());
}

#[test]
fn ellipse_points_mirrors_quadrants() {
    let pts = util::ellipse_points(3, 2, (10, 20));
    assert_eq!(pts, vec![(13, 22), (7, 22), (13, 18), (7, 18)]);
}

#[test]
fn ellipse_small_exact() {
    let pts = util::ellipse((0, 0), 2, 2);
    let expected = vec![
        (0, 2), (0, 2), (0, -2), (0, -2),
        (1, 2), (-1, 2), (1, -2), (-1, -2),
        (2, 1), (-2, 1), (2, -1), (-2, -1),
        (2, 0), (-2, 0), (2, 0), (-2, 0),
    ];
    assert_eq!(pts, expected);
}

#[test]
fn ellipse_degenerate_axes() {
    // A zero semi-axis still yields the seed samples and the phase-2 walk.
    let pts = util::ellipse((0, 0), 0, 2);
    assert_eq!(&pts[0..4], &[(0, 2), (0, 2), (0, -2), (0, -2)]);
    assert_eq!(pts.len(), 12);
}

#[test]
fn ellipse_symmetric_about_center() {
    let pts = util::ellipse((5, -3), 4, 3);
    for q in &pts {
        let mx = (2 * 5 - q.0, q.1);
        let my = (q.0, 2 * -3 - q.1);
        assert!(contains(&pts, mx));
        assert!(contains(&pts, my));
    }
}

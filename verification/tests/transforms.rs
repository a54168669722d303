use rusterizer::util::VecExt;
use rusterizer::trig::{sin_milli, cos_milli};

#[test]
fn sine_landmarks() {
    assert_eq!(sin_milli(0), 0);
    assert_eq!(sin_milli(30), 500);
    assert_eq!(sin_milli(90), 1000);
    assert_eq!(sin_milli(180), 0);
    assert_eq!(sin_milli(270), -1000);
    assert_eq!(sin_milli(-90), -1000);
    assert_eq!(sin_milli(360), 0);
    assert_eq!(sin_milli(45), 705);
    assert_eq!(cos_milli(0), 1000);
    assert_eq!(cos_milli(90), 0);
    assert_eq!(cos_milli(180), -1000);
    assert_eq!(cos_milli(45), 705);
}

#[test]
fn translate_moves_every_point() {
    let mut v: Vec<(i32, i32)> = vec![(1, 2), (-3, 4)];
    v.translate(5, -3);
    assert_eq!(v, vec![(6, -1), (2, 1)]);
}

#[test]
fn translate_saturates_at_the_edge() {
    let mut v: Vec<(i32, i32)> = vec![(i32::MAX, i32::MIN)];
    v.translate(1, -1);
    assert_eq!(v, vec![(i32::MAX, i32::MIN)]);
}

#[test]
fn scale_truncates_toward_zero() {
    // Factors are in thousandths: 1500 is one and a half.
    let mut v: Vec<(i32, i32)> = vec![(3, -3), (1, 1)];
    v.scale(1500, 500);
    assert_eq!(v, vec![(4, -1), (1, 0)]);
}

#[test]
fn rotate_quarter_turn_swaps_coordinates() {
    // The drawing convention combines both terms with `+`, so a quarter turn
    // exchanges x and y rather than negating one of them.
    let mut v: Vec<(i32, i32)> = vec![(3, 4)];
    v.rotate(90);
    assert_eq!(v, vec![(4, 3)]);
}

#[test]
fn transform_order_non_commutativity() {
    // Scale-then-rotate differs from rotate-then-scale whenever truncation
    // bites between the two stages.
    let mut a: Vec<(i32, i32)> = vec![(1, 0)];
    a.scale(2000, 2000);
    a.rotate(45);
    let mut b: Vec<(i32, i32)> = vec![(1, 0)];
    b.rotate(45);
    b.scale(2000, 2000);
    assert_eq!(a, vec![(1, 1)]);
    assert_eq!(b, vec![(0, 0)]);
    assert_ne!(a, b);
}

#[test]
fn add_concatenates() {
    let a: Vec<(i32, i32)> = vec![(1, 1)];
    let b: Vec<(i32, i32)> = vec![(2, 2), (3, 3)];
    assert_eq!(a.add(b), vec![(1, 1), (2, 2), (3, 3)]);
}

#[test]
fn scissor_boundary_semantics() {
    // The sorted clip keeps a one-unit margin around the closed box, so it
    // retains x = 201 against an upper corner of 200; the iterator clip is
    // strictly half-open and already drops x = 200.
    let pts: Vec<(i32, i32)> = vec![(100, 160), (199, 160), (200, 160), (201, 160), (150, 170)];
    let mut a = pts.clone();
    a.scissor((150, 150), (200, 200));
    let mut b = pts.clone();
    b.scissor_iter((150, 150), (200, 200));
    assert_eq!(a.len(), 4);
    for p in [(199, 160), (200, 160), (201, 160), (150, 170)] {
        assert!(a.contains(&p));
    }
    assert!(!a.contains(&(100, 160)));
    assert_eq!(b, vec![(199, 160), (150, 170)]);
    assert_ne!(a.len(), b.len());
}

#[test]
fn scissor_result_sorted_by_y() {
    let mut v: Vec<(i32, i32)> = vec![(3, 9), (2, 1), (5, 4), (4, 4)];
    v.scissor((0, 0), (10, 10));
    assert_eq!(v.len(), 4);
    for w in v.windows(2) {
        assert!(w[0].1 <= w[1].1);
    }
}

#[test]
fn scissor_iter_keeps_original_order() {
    let mut v: Vec<(i32, i32)> = vec![(9, 9), (1, 1), (5, 5), (20, 5)];
    v.scissor_iter((0, 0), (10, 10));
    assert_eq!(v, vec![(9, 9), (1, 1), (5, 5)]);
}

#[test]
fn scissor_empty_box_drops_everything() {
    let mut v: Vec<(i32, i32)> = vec![(0, 0), (100, 100)];
    v.scissor((50, 50), (40, 40));
    assert!(v.is_empty());
}

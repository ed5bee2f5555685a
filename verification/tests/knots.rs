//! Knot vectors: span search, generation, clamping and pinching.

use splinosaurus::knots::Knots;

#[test]
pub fn it_finds_knot_spans() {
    let vec: Vec<usize> = vec![2, 2, 2, 3, 3, 4, 4, 4];

    let k = Knots::new(2, vec);

    assert_eq!(2, k.find_span(2));
    assert_eq!(4, k.find_span(3));
    assert_eq!(4, k.find_span(4));
}

#[test]
fn it_pinches_a_section() {
    let mut k = Knots::new(2, vec![0, 0, 0, 1, 2, 3, 3, 3]);
    k.pinch(3, 1);

    let expected: Vec<usize> = vec![0, 0, 0, 1, 1, 2, 2, 2];
    for (i, want) in expected.iter().enumerate() {
        assert_eq!(*want, k.knot(i));
    }
}

#[test]
fn it_generates_uniform_knots() {
    let v = Knots::generate(2, 4);
    assert_eq!(vec![0, 1, 2, 3, 4, 5, 6], v);
}

#[test]
fn it_generates_clamped_knots() {
    let v = Knots::generate_clamped(2, 4);
    assert_eq!(vec![0, 0, 0, 1, 2, 2, 2], v);
}

#[test]
fn it_clamps_ends() {
    let mut k = Knots::new(2, vec![0, 1, 2, 3, 4, 5, 6]);
    k.clamp_ends();

    let expected: Vec<usize> = vec![2, 2, 2, 3, 4, 4, 4];
    for (i, want) in expected.iter().enumerate() {
        assert_eq!(*want, k.knot(i));
    }
    let (lo, hi) = k.range();
    assert_eq!((2, 4), (lo, hi));
}

#[test]
fn it_keeps_spans_monotonic() {
    let k = Knots::new(2, vec![0, 0, 0, 1, 2, 2, 2]);
    let mut last: usize = 2;
    for u in 0..3 {
        let span = k.find_span(u);
        assert!(span >= last);
        assert!(2 <= span && span <= 3);
        last = span;
    }
}

use pathtracer::csg::{combine, difference, get_regions, intersection};
use pathtracer::{Bound, Boundary, CsgOp, Shape};

fn at(key: u64, tag: u32) -> Boundary<u32> {
    Boundary { key, inverted: false, hit: tag }
}

fn span(entry: u64, exit: u64, tag: u32) -> (Boundary<u32>, Boundary<u32>) {
    (at(entry, tag), at(exit, tag + 1))
}

fn view(pairs: &[(Boundary<u32>, Boundary<u32>)]) -> Vec<(u64, bool, u32, u64, bool, u32)> {
    pairs
        .iter()
        .map(|(s, e)| (s.key, s.inverted, s.hit, e.key, e.inverted, e.hit))
        .collect()
}

#[test]
fn intersection_of_identical_spans_is_idempotent() {
    let a = vec![span(10, 20, 0)];
    let r = intersection(&a, &a.clone());
    assert_eq!(view(&r), view(&a));
}

#[test]
fn intersection_of_misses_is_empty() {
    let none: Vec<(Boundary<u32>, Boundary<u32>)> = Vec::new();
    assert!(intersection(&none, &none).is_empty());
    assert!(intersection(&vec![span(1, 2, 0)], &none).is_empty());
}

#[test]
fn intersection_of_overlapping_spans() {
    let a = vec![span(10, 30, 0)];
    let b = vec![span(20, 40, 10)];
    let r = intersection(&a, &b);
    // Enters through b's entry, leaves through a's exit.
    assert_eq!(view(&r), vec![(20, false, 10, 30, false, 1)]);
}

#[test]
fn difference_with_disjoint_span_keeps_the_first() {
    let a = vec![span(10, 20, 0)];
    let before = vec![span(1, 5, 10)];
    let after = vec![span(25, 30, 10)];
    let none: Vec<(Boundary<u32>, Boundary<u32>)> = Vec::new();
    assert_eq!(view(&difference(&a, &before)), view(&a));
    assert_eq!(view(&difference(&a, &after)), view(&a));
    assert_eq!(view(&difference(&a, &none)), view(&a));
    assert!(difference(&none, &a).is_empty());
}

#[test]
fn difference_with_itself_is_empty() {
    let a = vec![span(10, 20, 0)];
    assert!(difference(&a, &a.clone()).is_empty());
    let none: Vec<(Boundary<u32>, Boundary<u32>)> = Vec::new();
    assert!(difference(&none, &none).is_empty());
}

#[test]
fn zero_length_stretches_are_dropped() {
    // b enters where a does: the stretch between the two entries has no
    // length and is dropped.
    let a = vec![span(10, 30, 0)];
    let b = vec![span(10, 20, 10)];
    assert_eq!(view(&difference(&a, &b)), vec![(20, true, 11, 30, false, 1)]);
    let shape = Shape::Difference(leaf(0), leaf(1));
    let hits = vec![vec![span(5, 9, 0)], vec![span(5, 9, 10)]];
    assert!(shape.all_intersections(&hits).is_empty());
    assert!(shape.first_intersection(&hits).is_none());
}

#[test]
fn difference_cuts_a_bite() {
    let a = vec![span(10, 30, 0)];
    let b = vec![span(20, 40, 10)];
    let r = difference(&a, &b);
    // Leaves through b's entry, read with its normal inverted.
    assert_eq!(view(&r), vec![(10, false, 0, 20, true, 10)]);
    let c = vec![span(15, 20, 10)];
    let r = difference(&a, &c);
    assert_eq!(
        view(&r),
        vec![(10, false, 0, 15, true, 10), (20, true, 11, 30, false, 1)]
    );
}

#[test]
fn combine_matches_named_operations() {
    let a = vec![span(10, 30, 0)];
    let b = vec![span(20, 40, 10)];
    assert_eq!(view(&combine(CsgOp::Intersection, &a, &b)), view(&intersection(&a, &b)));
    assert_eq!(view(&combine(CsgOp::Difference, &a, &b)), view(&difference(&a, &b)));
}

#[test]
fn regions_cover_the_ray() {
    let a = vec![span(10, 30, 0)];
    let b = vec![span(20, 40, 10)];
    let rs = get_regions(&a, &b);
    assert_eq!(rs.len(), 5);
    let flags: Vec<(bool, bool)> = rs.iter().map(|r| (r.a, r.b)).collect();
    assert_eq!(flags, vec![(false, false), (true, false), (true, true), (false, true), (false, false)]);
    assert!(matches!(rs[0].start, Bound::NegInfinity));
    assert!(matches!(rs[4].end, Bound::PosInfinity));
    match rs[1].end {
        Bound::At(b) => assert_eq!((b.key, b.inverted, b.hit), (20, true, 10)),
        _ => panic!("region ends at a boundary"),
    }
}

#[test]
fn regions_of_no_boundaries() {
    let none: Vec<(Boundary<u32>, Boundary<u32>)> = Vec::new();
    let rs = get_regions(&none, &none);
    assert_eq!(rs.len(), 1);
    assert!(!rs[0].a && !rs[0].b);
    assert!(matches!(rs[0].start, Bound::NegInfinity));
    assert!(matches!(rs[0].end, Bound::PosInfinity));
}

#[test]
fn equal_keys_keep_their_order() {
    // a's exit and b's entry coincide: a's event sorts first.
    let a = vec![span(10, 20, 0)];
    let b = vec![span(20, 30, 10)];
    let rs = get_regions(&a, &b);
    let flags: Vec<(bool, bool)> = rs.iter().map(|r| (r.a, r.b)).collect();
    assert_eq!(flags, vec![(false, false), (true, false), (false, false), (false, true), (false, false)]);
    assert_eq!(view(&difference(&a, &b)), view(&a));
}

#[test]
fn boundary_inverse_flips_normal_only() {
    let b = at(7, 3).inverse();
    assert_eq!((b.key, b.inverted, b.hit), (7, true, 3));
    assert!(!b.inverse().inverted);
}

fn leaf(tag: u32) -> Box<Shape<u32>> {
    Box::new(Shape::Primitive(tag))
}

#[test]
fn shape_tree_combines_primitives_in_order() {
    // (p0 - p1) intersected with p2.
    let shape = Shape::Intersection(Box::new(Shape::Difference(leaf(0), leaf(1))), leaf(2));
    let prims: Vec<u32> = shape.primitive_refs().into_iter().copied().collect();
    assert_eq!(prims, vec![0, 1, 2]);
    let hits = vec![vec![span(10, 40, 0)], vec![span(20, 30, 10)], vec![span(0, 35, 20)]];
    let all = shape.all_intersections(&hits);
    assert_eq!(
        view(&all),
        vec![(10, false, 0, 20, true, 10), (30, true, 11, 35, false, 21)]
    );
    let first = shape.first_intersection(&hits).unwrap();
    assert_eq!(view(&[first]), view(&all[..1]));
}

#[test]
fn primitive_shape_returns_its_own_hits() {
    let shape = Shape::Primitive(5u32);
    let hits = vec![vec![span(3, 9, 0)]];
    assert_eq!(view(&shape.all_intersections(&hits)), view(&hits[0]));
    let miss: Vec<Vec<(Boundary<u32>, Boundary<u32>)>> = vec![Vec::new()];
    assert!(shape.first_intersection(&miss).is_none());
}

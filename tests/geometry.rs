use pollocad::geometry::{Matrix, ShapeOp, Solid, Transform};
use pollocad::number::Number;
use std::sync::Arc;

fn num(n: i64) -> Number {
    Number::from_int(n)
}

fn shift(x: i64) -> Transform {
    Transform::single(Matrix::from_translation(num(x), num(0), num(0)))
}

fn sample() -> Solid {
    let a = Arc::new(Solid::new_cube(num(1), num(2), num(3)));
    let b = Arc::new(Solid::new_cylinder(num(1), num(4), 8).anti());
    Solid::combine(&vec![a, b])
}

fn show(s: &Solid) -> String {
    format!("{:?}", s)
}

#[test]
fn combine_is_associative() {
    let a = Arc::new(Solid::new_cube(num(1), num(1), num(1)));
    let b = Arc::new(Solid::new_cube(num(2), num(2), num(2)).anti());
    let c = Arc::new(Solid::new_cylinder(num(3), num(3), 5));
    let ab = Arc::new(Solid::combine(&vec![a.clone(), b.clone()]));
    let bc = Arc::new(Solid::combine(&vec![b.clone(), c.clone()]));
    let left = Solid::combine(&vec![ab, c.clone()]);
    let right = Solid::combine(&vec![a, bc]);
    assert_eq!(left.0.len(), 3);
    assert_eq!(show(&left), show(&right));
}

#[test]
fn anti_twice_restores_flags() {
    let s = sample();
    let flipped = s.anti();
    assert!(flipped.0[0].anti && !flipped.0[1].anti);
    assert_eq!(show(&flipped.anti()), show(&s));
}

#[test]
fn transforms_compose() {
    let s = sample();
    let once = s.transform(&shift(1)).transform(&shift(2));
    let both = s.transform(&shift(1).and_then(&shift(2)));
    assert_eq!(show(&once), show(&both));
    assert_ne!(show(&once), show(&s.transform(&shift(2)).transform(&shift(1))));
}

#[test]
fn unionize_is_empty_exactly_when_all_items_are_holes() {
    assert_eq!(Solid(vec![]).unionize().0.len(), 0);
    assert_eq!(sample().unionize().0.len(), 1);
    let holes = Solid::combine(&vec![Arc::new(sample().anti()), Arc::new(sample().anti())]);
    assert_eq!(holes.unionize().0.len(), 1);
    let only_holes = Solid::new_cube(num(1), num(1), num(1)).anti();
    assert_eq!(only_holes.unionize().0.len(), 0);
}

#[test]
fn unionize_places_deferred_transforms() {
    let s = Solid::new_cube(num(1), num(1), num(1)).transform(&shift(5));
    let u = s.unionize();
    assert!(matches!(u.0[0].xform, Transform::Identity));
    match &u.0[0].shape.op {
        ShapeOp::Transformed { shape, .. } => assert!(matches!(shape.op, ShapeOp::Cube { .. })),
        other => panic!("{:?}", other),
    }
}

#[test]
fn single_shape_of_first_item() {
    assert!(Solid(vec![]).get_single_shape().is_none());
    let s = sample();
    assert!(matches!(s.get_single_shape().unwrap().op, ShapeOp::Cube { .. }));
}

#[test]
fn translation_matrix_cells() {
    let m = Matrix::from_translation(num(7), num(8), num(9));
    assert_eq!(m.m[3], num(7));
    assert_eq!(m.m[7], num(8));
    assert_eq!(m.m[11], num(9));
    assert_eq!(m.m[0], num(1));
    assert_eq!(m.m[1], num(0));
}

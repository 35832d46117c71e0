use pollocad::ast::Node;
use pollocad::builtins::{BuiltinError, BuiltinErrorKind, BuiltinFunc};
use pollocad::geometry::{BooleanOp, Shape, ShapeOp, Solid, Transform};
use pollocad::number::Number;
use pollocad::parser::parse_source;
use pollocad::runtime::{evaluate, exec, CallCtx, Error, ErrorKind, Value};
use std::sync::Arc;

fn parse(src: &str) -> Vec<Arc<Node>> {
    match parse_source(src) {
        Ok(nodes) => nodes,
        Err(e) => panic!("parse failed: {:?}", e),
    }
}

fn run(src: &str) -> Result<Value, Error> {
    exec(&parse(src))
}

fn body(src: &str) -> Result<Value, Error> {
    evaluate(&parse(src))
}

fn num(n: i64, d: i64) -> Number {
    Number { num: n, den: d }
}

fn solid(v: Result<Value, Error>) -> Arc<Solid> {
    match v {
        Ok(Value::Solid(s)) => s,
        other => panic!("not a solid: {:?}", other),
    }
}

fn builtin_kind(v: Result<Value, Error>) -> BuiltinErrorKind {
    match v {
        Err(Error { kind: ErrorKind::Builtin(BuiltinError(k)), .. }) => k,
        other => panic!("not a builtin error: {:?}", other),
    }
}

/// The kernel operations that realizing `s` performs, in order.
fn kernel_calls(s: &Shape, out: &mut Vec<String>) {
    match &s.op {
        ShapeOp::Cube { x, y, z } => out.push(format!("box {:?} {:?} {:?}", x, y, z)),
        ShapeOp::Cylinder { .. } => out.push("cylinder".to_string()),
        ShapeOp::Transformed { shape, xform } => {
            kernel_calls(shape, out);
            let mut t = xform;
            while let Transform::Then(rest, m) = t {
                out.push(format!("translate {:?} {:?} {:?}", m.m[3], m.m[7], m.m[11]));
                t = rest;
            }
        }
        ShapeOp::Boolean { op, a, b } => {
            kernel_calls(a, out);
            kernel_calls(b, out);
            out.push(format!("{:?}", op));
        }
    }
}

#[test]
fn let_chain_evaluates_to_last_binding() {
    match body("a = 1; b = 2; b") {
        Ok(Value::Num(n)) => assert_eq!(n, num(2, 1)),
        other => panic!("{:?}", other),
    }
}

#[test]
fn geometry_then_return_is_mixed_body() {
    match body("cube(1,1,1); 5") {
        Err(Error { kind: ErrorKind::MixedBodyResult, .. }) => {}
        other => panic!("{:?}", other),
    }
    match run("cube(1,1,1); 5") {
        Err(Error { kind: ErrorKind::MixedBodyResult, node }) => assert_eq!(node.pos, 13..14),
        other => panic!("{:?}", other),
    }
    match run("x = 1; cube(1,1,1); 5") {
        Err(Error { kind: ErrorKind::MixedBodyResult, node }) => assert_eq!(node.pos, 20..21),
        other => panic!("{:?}", other),
    }
}

#[test]
fn cylinder_with_radius_and_diameter_fails() {
    assert_eq!(builtin_kind(run("cylinder(r=1, d=2);")), BuiltinErrorKind::RadiusAndDiameter);
    assert_eq!(builtin_kind(run("cylinder(r=3, d=7);")), BuiltinErrorKind::RadiusAndDiameter);
}

#[test]
fn cube_dimensions_are_clamped() {
    let s = solid(body("cube(0,0,0);"));
    assert_eq!(s.0.len(), 1);
    match &s.0[0].shape.op {
        ShapeOp::Cube { x, y, z } => {
            assert_eq!(*x, num(1, 1000));
            assert_eq!(*y, num(1, 1000));
            assert_eq!(*z, num(1, 1000));
        }
        other => panic!("{:?}", other),
    }
}

#[test]
fn cube_defaults_and_named_arguments() {
    let s = solid(body("cube(2, z = 3, y = 4);"));
    match &s.0[0].shape.op {
        ShapeOp::Cube { x, y, z } => {
            assert_eq!((*x, *y, *z), (num(2, 1), num(4, 1), num(3, 1)));
        }
        other => panic!("{:?}", other),
    }
    let s = solid(body("cube();"));
    match &s.0[0].shape.op {
        ShapeOp::Cube { x, y, z } => assert_eq!((*x, *y, *z), (num(1, 1), num(1, 1), num(1, 1))),
        other => panic!("{:?}", other),
    }
}

#[test]
fn cylinder_from_diameter_and_defaults() {
    let s = solid(body("cylinder(d = 3, h = 2);"));
    match &s.0[0].shape.op {
        ShapeOp::Cylinder { r, h, facets } => {
            assert_eq!((*r, *h, *facets), (num(3, 2), num(2, 1), 10));
        }
        other => panic!("{:?}", other),
    }
    let s = solid(body("cylinder(0, 5, 1);"));
    match &s.0[0].shape.op {
        ShapeOp::Cylinder { r, h, facets } => {
            assert_eq!((*r, *h, *facets), (num(1, 1000), num(5, 1), 3));
        }
        other => panic!("{:?}", other),
    }
}

#[test]
fn end_to_end_script() {
    let src = "x = 2; translate(z=-5, y=-5) union() { cube(x, 30, 20); translate(z=5, y=5) anti() cube(10, 10, 10); }";
    let s = solid(run(src));
    assert_eq!(s.0.len(), 1);
    assert!(!s.0[0].anti);
    match &s.0[0].xform {
        Transform::Then(rest, m) => {
            assert!(matches!(**rest, Transform::Identity));
            assert_eq!((m.m[3], m.m[7], m.m[11]), (num(0, 1), num(-5, 1), num(-5, 1)));
        }
        other => panic!("{:?}", other),
    }
    let mut calls = Vec::new();
    kernel_calls(&s.0[0].shape, &mut calls);
    assert_eq!(
        calls,
        vec![
            format!("box {:?} {:?} {:?}", num(2, 1), num(30, 1), num(20, 1)),
            format!("box {:?} {:?} {:?}", num(10, 1), num(10, 1), num(10, 1)),
            format!("translate {:?} {:?} {:?}", num(0, 1), num(5, 1), num(5, 1)),
            "Difference".to_string(),
        ]
    );
}

#[test]
fn top_level_concatenates_without_fusing() {
    let s = solid(run("cube(); anti() cube(2);"));
    assert_eq!(s.0.len(), 2);
    assert!(!s.0[0].anti && s.0[1].anti);
    assert!(matches!(s.0[0].shape.op, ShapeOp::Cube { .. }));
}

#[test]
fn union_fuses_then_subtracts() {
    let s = solid(run("union() { anti() cube(1); cube(2); cube(3); }"));
    let mut calls = Vec::new();
    kernel_calls(&s.0[0].shape, &mut calls);
    let ops: Vec<&String> = calls.iter().filter(|c| !c.starts_with("box")).collect();
    assert_eq!(ops, vec!["Union", "Difference"]);
    assert!(calls[0].starts_with(&format!("box {:?}", num(2, 1))));
}

#[test]
fn union_of_holes_only_is_empty() {
    let s = solid(run("union() { anti() cube(1); }"));
    assert_eq!(s.0.len(), 0);
}

#[test]
fn intersection_folds_in_order() {
    let s = solid(run("intersection() { cube(1); cube(2); cube(3); }"));
    let mut calls = Vec::new();
    kernel_calls(&s.0[0].shape, &mut calls);
    let ops: Vec<&String> = calls.iter().filter(|c| !c.starts_with("box")).collect();
    assert_eq!(ops, vec!["Intersection", "Intersection"]);
    let empty = solid(run("intersection();"));
    assert_eq!(empty.0.len(), 0);
}

#[test]
fn arithmetic_is_exact() {
    match body("x = 1 / 3; x + 1 / 6") {
        Ok(Value::Num(n)) => assert_eq!(n, num(1, 2)),
        other => panic!("{:?}", other),
    }
    match body("2 * 3 - 10 / 4") {
        Ok(Value::Num(n)) => assert_eq!(n, num(7, 2)),
        other => panic!("{:?}", other),
    }
}

#[test]
fn division_by_zero_fails() {
    assert_eq!(builtin_kind(body("1 / 0")), BuiltinErrorKind::DivisionByZero);
}

#[test]
fn overflow_fails() {
    let src = "a = 100000000000; a * a * a";
    assert_eq!(builtin_kind(body(src)), BuiltinErrorKind::Overflow);
}

#[test]
fn undefined_names_fail() {
    match body("y") {
        Err(Error { kind: ErrorKind::UndefinedVariable(n), .. }) => assert_eq!(n, "y"),
        other => panic!("{:?}", other),
    }
    match body("sphere();") {
        Err(Error { kind: ErrorKind::UndefinedFunction(n), .. }) => assert_eq!(n, "sphere"),
        other => panic!("{:?}", other),
    }
    match body("x = 1; x();") {
        Err(Error { kind: ErrorKind::NotCallable(n), .. }) => assert_eq!(n, "x"),
        other => panic!("{:?}", other),
    }
}

#[test]
fn type_errors_fail() {
    assert_eq!(builtin_kind(body("cube(cube());")), BuiltinErrorKind::NotANumber);
    assert_eq!(builtin_kind(body("1 + cube()")), BuiltinErrorKind::NotANumber);
    assert_eq!(builtin_kind(run("union() { 5; }")), BuiltinErrorKind::NotASolid);
    assert_eq!(solid(run("5;")).0.len(), 0);
}

#[test]
fn operator_needs_two_operands() {
    let c = CallCtx { pos: vec![Value::Num(num(1, 1))], named: vec![], children: vec![], is_heavy: false };
    assert_eq!(BuiltinFunc::Add.call(&c).unwrap_err(), BuiltinError(BuiltinErrorKind::WrongArgumentCount));
}

#[test]
fn heavy_builtins() {
    assert!(BuiltinFunc::Cube.is_heavy());
    assert!(BuiltinFunc::Union.is_heavy());
    assert!(!BuiltinFunc::Anti.is_heavy());
    assert!(!BuiltinFunc::Add.is_heavy());
}

#[test]
fn let_scopes_shadow_outer_bindings() {
    match body("x = 1; y = x + 1; x = 10; x + y") {
        Ok(Value::Num(n)) => assert_eq!(n, num(12, 1)),
        other => panic!("{:?}", other),
    }
}

#[test]
fn translate_moves_each_child() {
    let s = solid(run("translate(1, 2) { cube(); anti() cube(); }"));
    assert_eq!(s.0.len(), 2);
    for item in &s.0 {
        match &item.xform {
            Transform::Then(_, m) => {
                assert_eq!((m.m[3], m.m[7], m.m[11]), (num(1, 1), num(2, 1), num(0, 1)))
            }
            other => panic!("{:?}", other),
        }
    }
    assert!(s.0[1].anti);
    let u = solid(run("union() translate(1, 2) { cube(); anti() cube(); }"));
    let mut calls = Vec::new();
    kernel_calls(&u.0[0].shape, &mut calls);
    assert_eq!(calls.last().unwrap(), "Difference");
    let _ = BooleanOp::Union;
}

#[test]
fn translate_passes_over_values_that_are_not_numbers() {
    let s = solid(run("translate(cube(), 3, x = cube()) cube();"));
    match &s.0[0].xform {
        Transform::Then(_, m) => {
            assert_eq!((m.m[3], m.m[7], m.m[11]), (num(0, 1), num(3, 1), num(0, 1)));
        }
        other => panic!("{:?}", other),
    }
    let s = solid(run("translate(1, 2, x = 5) cube();"));
    match &s.0[0].xform {
        Transform::Then(_, m) => {
            assert_eq!((m.m[3], m.m[7], m.m[11]), (num(5, 1), num(2, 1), num(0, 1)));
        }
        other => panic!("{:?}", other),
    }
}

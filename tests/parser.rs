use pollocad::ast::{Expr, Node};
use pollocad::number::Number;
use pollocad::parser::{parse_source, ParseErrorKind};
use std::sync::Arc;

fn parse(src: &str) -> Vec<Arc<Node>> {
    match parse_source(src) {
        Ok(nodes) => nodes,
        Err(e) => panic!("parse failed: {:?}", e),
    }
}

fn parse_err(src: &str) -> ParseErrorKind {
    match parse_source(src) {
        Ok(nodes) => panic!("parse succeeded: {:?}", nodes),
        Err(e) => e.kind,
    }
}

#[test]
fn test_parse_source() {
    assert!(parse_source("x = 1; b = 2; a(2, 3, a=2); 2+ 1").is_ok());
}

#[test]
fn parsing_twice_gives_equal_trees() {
    let src = "x = 2; /* c */ translate(z=-5, y=-5) union() { cube(x, 30, 20); anti() cube(1); }";
    assert_eq!(parse(src), parse(src));
}

#[test]
fn lets_nest_over_the_rest_of_the_body() {
    let nodes = parse("a = 1; b = 2; b");
    assert_eq!(nodes.len(), 1);
    let Expr::Let(a) = &nodes[0].expr else { panic!("not a let") };
    assert_eq!(a.name, "a");
    assert_eq!(a.value.expr, Expr::Num(Number { num: 1, den: 1 }));
    assert_eq!(a.body.len(), 1);
    let Expr::Let(b) = &a.body[0].expr else { panic!("not a let") };
    assert_eq!(b.name, "b");
    assert_eq!(b.body.len(), 1);
    let Expr::Return(r) = &b.body[0].expr else { panic!("not a return") };
    assert_eq!(r.expr, Expr::Var("b".to_string()));
}

#[test]
fn positional_after_named_is_rejected() {
    assert!(matches!(parse_err("f(a=1, 2)"), ParseErrorKind::PositionalAfterNamed));
}

#[test]
fn duplicate_named_argument_is_rejected() {
    match parse_err("f(a=1, a=2)") {
        ParseErrorKind::DuplicateNamedArgument(n) => assert_eq!(n, "a"),
        other => panic!("{:?}", other),
    }
}

#[test]
fn operators_follow_precedence() {
    let nodes = parse("1 + 2 * 3");
    let Expr::Return(r) = &nodes[0].expr else { panic!("not a return") };
    let Expr::Call(plus) = &r.expr else { panic!("not a call") };
    assert_eq!(plus.name, "+");
    assert_eq!(plus.args[0].1.expr, Expr::Num(Number { num: 1, den: 1 }));
    let Expr::Call(times) = &plus.args[1].1.expr else { panic!("not a call") };
    assert_eq!(times.name, "*");
    assert_eq!(plus.args[0].0, None);
}

#[test]
fn subtraction_is_left_associative() {
    let nodes = parse("8 - 2 - 1");
    let Expr::Return(r) = &nodes[0].expr else { panic!("not a return") };
    let Expr::Call(outer) = &r.expr else { panic!("not a call") };
    assert_eq!(outer.args[1].1.expr, Expr::Num(Number { num: 1, den: 1 }));
    let Expr::Call(inner) = &outer.args[0].1.expr else { panic!("not a call") };
    assert_eq!(inner.args[0].1.expr, Expr::Num(Number { num: 8, den: 1 }));
}

#[test]
fn call_followed_by_call_takes_it_as_child() {
    let nodes = parse("translate(1) cube();");
    let Expr::Call(t) = &nodes[0].expr else { panic!("not a call") };
    assert_eq!(t.name, "translate");
    assert_eq!(t.body.len(), 1);
    let Expr::Call(c) = &t.body[0].expr else { panic!("not a call") };
    assert_eq!(c.name, "cube");
}

#[test]
fn block_children_and_trailing_comma() {
    let nodes = parse("union(a = 1,) { cube(); cube(2) }");
    let Expr::Call(u) = &nodes[0].expr else { panic!("not a call") };
    assert_eq!(u.args.len(), 1);
    assert_eq!(u.args[0].0, Some("a".to_string()));
    assert_eq!(u.body.len(), 2);
}

#[test]
fn comments_are_whitespace() {
    let nodes = parse("// line\n /* block */ cube( /* x */ 1 ); // end");
    assert_eq!(nodes.len(), 1);
    assert!(matches!(nodes[0].expr, Expr::Call(_)));
}

#[test]
fn unterminated_comment_fails() {
    assert!(matches!(parse_err("cube(); /* open"), ParseErrorKind::UnterminatedComment));
}

#[test]
fn trailing_input_fails() {
    assert!(matches!(parse_err("1 2"), ParseErrorKind::Expected(';')));
    assert!(matches!(parse_err("cube() }"), ParseErrorKind::Expected(';')));
}

#[test]
fn unclosed_block_fails() {
    assert!(matches!(parse_err("union() { cube();"), ParseErrorKind::Expected('}')));
}

#[test]
fn unclosed_argument_list_fails() {
    assert!(matches!(parse_err("cube(1;"), ParseErrorKind::Expected(')')));
}

#[test]
fn number_literals_are_exact() {
    let cases: [(&str, i64, i64); 6] = [
        ("2.5e-3", 1, 400),
        ("-5", -5, 1),
        (".5", 1, 2),
        ("1.", 1, 1),
        ("12E2", 1200, 1),
        ("0.000", 0, 1),
    ];
    for (src, num, den) in cases {
        let nodes = parse(src);
        let Expr::Return(r) = &nodes[0].expr else { panic!("not a return") };
        assert_eq!(r.expr, Expr::Num(Number { num, den }), "{}", src);
    }
}

#[test]
fn malformed_and_huge_numbers_fail() {
    assert!(matches!(parse_err("1e"), ParseErrorKind::MalformedNumber));
    assert!(matches!(parse_err("1e40"), ParseErrorKind::NumberOutOfRange));
    assert!(matches!(parse_err("x = ;"), ParseErrorKind::ExpectedExpression));
}

#[test]
fn spans_cover_source_positions() {
    let nodes = parse("  ab");
    let Expr::Return(r) = &nodes[0].expr else { panic!("not a return") };
    assert_eq!(r.pos, 2..4);
}

#[test]
fn operator_nodes_span_their_whole_expression() {
    let nodes = parse("(1)*2 ");
    let Expr::Return(r) = &nodes[0].expr else { panic!("not a return") };
    assert_eq!(r.pos, 0..5);
    let Expr::Call(c) = &r.expr else { panic!("not a call") };
    assert_eq!(c.args[0].1.pos, 1..2);
}

#[test]
fn call_with_block_needs_no_semicolon() {
    let nodes = parse("union() { cube(1); } cube(2);");
    assert_eq!(nodes.len(), 2);
    let nodes = parse("union() { cube(1); } x = 1; x");
    assert_eq!(nodes.len(), 2);
}

#[test]
fn trailing_call_without_block_is_returned() {
    let nodes = parse("cube()");
    let Expr::Return(r) = &nodes[0].expr else { panic!("not a return") };
    assert!(matches!(r.expr, Expr::Call(_)));
    let nodes = parse("union() { cube(1) }");
    let Expr::Call(u) = &nodes[0].expr else { panic!("not a call") };
    assert!(matches!(u.body[0].expr, Expr::Return(_)));
}

#[test]
fn line_comment_may_end_the_source() {
    let nodes = parse("a = 1; // note");
    assert!(matches!(nodes[0].expr, Expr::Let(_)));
}

#[test]
fn call_arguments_in_source_order_with_single_child() {
    let nodes = parse("a(1, x = 2,) b();");
    let Expr::Call(a) = &nodes[0].expr else { panic!("not a call") };
    assert_eq!(a.args.len(), 2);
    assert_eq!(a.args[0].0, None);
    assert_eq!(a.args[0].1.expr, Expr::Num(Number { num: 1, den: 1 }));
    assert_eq!(a.args[1].0, Some("x".to_string()));
    assert_eq!(a.body.len(), 1);
    let Expr::Call(b) = &a.body[0].expr else { panic!("not a call") };
    assert_eq!(b.name, "b");
    let nodes = parse("a() { b(); c(); }");
    let Expr::Call(a) = &nodes[0].expr else { panic!("not a call") };
    assert_eq!(a.body.len(), 2);
}

#[test]
fn comments_parse_like_whitespace() {
    let plain = parse("x = 8 - 2 - 1; cube(x);");
    let commented = parse("x /* a */ = 8 -// b\n 2 - 1; /* c */ cube( x ) ;");
    assert_eq!(format!("{:?}", strip(&plain)), format!("{:?}", strip(&commented)));
}

fn strip(nodes: &[Arc<Node>]) -> Vec<String> {
    nodes.iter().map(|n| shape(n)).collect()
}

fn shape(n: &Node) -> String {
    match &n.expr {
        Expr::Num(x) => format!("{:?}", x),
        Expr::Var(v) => v.clone(),
        Expr::Return(r) => format!("return {}", shape(r)),
        Expr::Let(l) => format!("let {} = {} in [{}]", l.name, shape(&l.value), strip(&l.body).join("; ")),
        Expr::Call(c) => format!(
            "{}({}) [{}]",
            c.name,
            c.args.iter().map(|(k, v)| format!("{:?}={}", k, shape(v))).collect::<Vec<_>>().join(", "),
            strip(&c.body).join("; ")
        ),
    }
}

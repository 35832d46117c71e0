use pollocad::lexer::{chars_of, read_literal, scan_ident, skip_ws, LiteralError};
use pollocad::number::Number;
use pollocad::parser::parse_source;
use pollocad::runtime::{is_body_heavy, Env};
use std::sync::Arc;

#[test]
fn whitespace_and_comments_are_skipped() {
    let s = chars_of("  // a\n /* b */ x");
    assert_eq!(skip_ws(&s, 0), Some(16));
    assert_eq!(skip_ws(&chars_of("/* never closed"), 0), None);
    assert_eq!(skip_ws(&chars_of("// to the end"), 0), Some(13));
}

#[test]
fn identifiers_run_over_word_characters() {
    let s = chars_of("ab_1+c");
    assert_eq!(scan_ident(&s, 0), 4);
}

#[test]
fn literals_read_exactly() {
    let s = chars_of("3.25e1x");
    assert_eq!(read_literal(&s, 0), Ok((Number { num: 65, den: 2 }, 6)));
    assert_eq!(read_literal(&chars_of("x"), 0), Err(LiteralError::NotALiteral));
    assert_eq!(read_literal(&chars_of("2e+"), 0), Err(LiteralError::BadExponent));
    assert_eq!(read_literal(&chars_of("1e-40"), 0), Err(LiteralError::OutOfRange));
    assert_eq!(read_literal(&chars_of("0e99999999999999999999999999999999999999"), 0), Ok((Number { num: 0, den: 1 }, 40)));
}

#[test]
fn heaviness_follows_called_builtins() {
    let root = pollocad::runtime::root_env();
    let heavy = parse_source("x = 1; cube(x);").unwrap();
    let light = parse_source("x = 1; anti() translate(1);").unwrap();
    assert!(is_body_heavy(&root, &heavy));
    assert!(!is_body_heavy(&root, &light));
    let empty = Arc::new(Env::new());
    assert!(!is_body_heavy(&empty, &heavy));
}

use dice::ast::AstNode;
use dice::parser::{ErrorKind, ParseError, Parser};

#[test]
fn test_parse_term() {
    let parser = Parser::default();
    let text = "3d1*19";
    let (text, mut node) = parser.parse_term(text).unwrap();
    assert_eq!(text, "");
    assert_eq!(node.visit(), 57);
}

#[test]
fn test_parse_roll() {
    let parser = Parser::default();
    let text = "3d1";
    let (text, mut node) = parser.parse_roll(text).unwrap();
    assert_eq!(text, "");
    assert_eq!(node.visit(), 3);
}

#[test]
fn test_parse_factor() {
    let parser = Parser::default();
    let text = "3";
    let (text, mut node) = parser.parse_factor(text).unwrap();
    assert_eq!(text, "");
    assert_eq!(node.visit(), 3);
}

#[test]
fn parse_factor_reads_large_literal() {
    let (rest, mut node) = Parser::default().parse_factor("2147483647").unwrap();
    assert_eq!(rest, "");
    assert_eq!(node.visit(), 2147483647);
}

#[test]
fn parse_factor_leaves_rest() {
    let (rest, mut node) = Parser::default().parse_factor("42d6").unwrap();
    assert_eq!(rest, "d6");
    assert_eq!(node.visit(), 42);
}

#[test]
fn parse_factor_overflow_is_an_error() {
    let err = Parser::default().parse_factor("2147483648").unwrap_err();
    assert_eq!(err, ParseError { position: 0, kind: ErrorKind::Overflow });
}

#[test]
fn parse_roll_formats_after_evaluate() {
    let (rest, mut node) = Parser::default().parse_roll("3d1").unwrap();
    assert_eq!(rest, "");
    node.visit();
    assert_eq!(node.format(), "3 [1, 1, 1]");
}

#[test]
fn parse_roll_accepts_upper_case() {
    let (rest, mut node) = Parser::default().parse_roll("2D1").unwrap();
    assert_eq!(rest, "");
    assert_eq!(node.visit(), 2);
}

#[test]
fn parse_roll_falls_back_to_factor() {
    let (rest, mut node) = Parser::default().parse_roll("7dx").unwrap();
    assert_eq!(rest, "dx");
    assert_eq!(node.visit(), 7);
}

#[test]
fn parse_roll_overflowing_faces_is_an_error() {
    let err = Parser::default().parse_roll("2d99999999999").unwrap_err();
    assert_eq!(err, ParseError { position: 2, kind: ErrorKind::Overflow });
}

#[test]
fn parse_rejects_leading_operator() {
    let err = Parser::default().parse("d3").unwrap_err();
    assert_eq!(err, ParseError { position: 0, kind: ErrorKind::Digit });
    let err = Parser::default().parse_term("*3").unwrap_err();
    assert_eq!(err, ParseError { position: 0, kind: ErrorKind::Digit });
}

#[test]
fn parse_rejects_empty_input() {
    let err = Parser::default().parse("").unwrap_err();
    assert_eq!(err, ParseError { position: 0, kind: ErrorKind::Digit });
}

#[test]
fn parse_stops_before_product() {
    let (rest, mut node) = Parser::default().parse("3*19").unwrap();
    assert_eq!(rest, "*19");
    assert_eq!(node.visit(), 3);
}

#[test]
fn parse_term_multiplies_constants() {
    let (rest, mut node) = Parser::default().parse_term("3*19").unwrap();
    assert_eq!(rest, "");
    assert_eq!(node.visit(), 57);
    assert_eq!(node.format(), "3 * 19");
}

#[test]
fn parse_term_single_operand_is_a_product() {
    let (rest, mut node) = Parser::default().parse_term("5").unwrap();
    assert_eq!(rest, "");
    assert_eq!(node.visit(), 5);
    assert!(matches!(node, dice::ast::Node::Mul(_)));
}

#[test]
fn parse_term_leaves_dangling_star() {
    let (rest, mut node) = Parser::default().parse_term("2*3*x").unwrap();
    assert_eq!(rest, "*x");
    assert_eq!(node.visit(), 6);
}

#[test]
fn parse_term_stops_at_space() {
    let (rest, mut node) = Parser::default().parse_term("2 * 3").unwrap();
    assert_eq!(rest, " * 3");
    assert_eq!(node.visit(), 2);
}

#[test]
fn parse_term_end_to_end_format() {
    let (rest, mut node) = Parser::default().parse_term("3d1*19").unwrap();
    assert_eq!(rest, "");
    assert_eq!(node.visit(), 57);
    assert_eq!(node.format(), "3 [1, 1, 1] * 19");
}

#[test]
fn parse_term_overflow_after_star_is_an_error() {
    let err = Parser::default().parse_term("2*3000000000").unwrap_err();
    assert_eq!(err, ParseError { position: 2, kind: ErrorKind::Overflow });
}

#[test]
fn parsed_roll_with_no_faces_cannot_be_evaluated() {
    let (_, node) = Parser::default().parse_roll("3d0").unwrap();
    assert!(!node.can_evaluate());
    let (_, node) = Parser::default().parse_roll("3d6").unwrap();
    assert!(node.can_evaluate());
}

#[test]
fn parsed_product_too_large_cannot_be_evaluated() {
    let (_, node) = Parser::default().parse_term("65536*32768").unwrap();
    assert!(!node.can_evaluate());
    let (_, node) = Parser::default().parse_term("65536*32767").unwrap();
    assert!(node.can_evaluate());
    let (_, node) = Parser::default().parse_term("99999d99999*0").unwrap();
    assert!(!node.can_evaluate());
}

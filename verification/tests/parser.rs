use gate_diagram::expression_parser::{parse_boolean_expression, Gate, GateType, ParseError};

fn parse_ok(s: &str) -> Gate {
    match parse_boolean_expression(s) {
        Ok(g) => g,
        Err(e) => panic!("expected {:?} to parse, got {:?}", s, e),
    }
}

fn leaf_count(g: &Gate) -> usize {
    if g.get_inputs().is_empty() {
        1
    } else {
        g.get_inputs().iter().map(leaf_count).sum()
    }
}

#[test]
fn juxtaposition_is_and() {
    let g = parse_ok("ab");
    assert_eq!(g.get_type(), GateType::AND);
    assert_eq!(g.get_inputs().len(), 2);
    assert_eq!(g.get_inputs()[0].get_type(), GateType::INPUT);
    assert_eq!(g.get_inputs()[0].get_name(), "a");
    assert_eq!(g.get_inputs()[1].get_type(), GateType::INPUT);
    assert_eq!(g.get_inputs()[1].get_name(), "b");
    assert_eq!(g.get_name(), "ab");
}

#[test]
fn plus_is_or() {
    let g = parse_ok("a+b");
    assert_eq!(g.get_type(), GateType::OR);
    assert_eq!(g.get_inputs().len(), 2);
    assert_eq!(g.get_inputs()[0].get_name(), "a");
    assert_eq!(g.get_inputs()[1].get_name(), "b");
    assert_eq!(g.get_name(), "a+b");
}

#[test]
fn postfix_apostrophe_is_not() {
    let g = parse_ok("a'");
    assert_eq!(g.get_type(), GateType::NOT);
    assert_eq!(g.get_inputs().len(), 1);
    assert_eq!(g.get_inputs()[0].get_type(), GateType::INPUT);
    assert_eq!(g.get_inputs()[0].get_name(), "a");
    assert_eq!(g.get_name(), "a'");
}

#[test]
fn and_binds_tighter_than_or() {
    // "a+bc" is OR(a, AND(b, c)), not AND(OR(a, b), c).
    let g = parse_ok("a+bc");
    assert_eq!(g.get_type(), GateType::OR);
    assert_eq!(g.get_inputs()[0].get_type(), GateType::INPUT);
    assert_eq!(g.get_inputs()[0].get_name(), "a");
    let right = &g.get_inputs()[1];
    assert_eq!(right.get_type(), GateType::AND);
    assert_eq!(right.get_inputs()[0].get_name(), "b");
    assert_eq!(right.get_inputs()[1].get_name(), "c");
}

#[test]
fn parentheses_override_precedence() {
    // "(a+b)c" is AND(OR(a, b), c).
    let g = parse_ok("(a+b)c");
    assert_eq!(g.get_type(), GateType::AND);
    let left = &g.get_inputs()[0];
    assert_eq!(left.get_type(), GateType::OR);
    assert_eq!(left.get_inputs()[0].get_name(), "a");
    assert_eq!(left.get_inputs()[1].get_name(), "b");
    assert_eq!(g.get_inputs()[1].get_type(), GateType::INPUT);
    assert_eq!(g.get_inputs()[1].get_name(), "c");
    assert_eq!(g.get_name(), "a+bc");
}

#[test]
fn not_binds_tightest_and_is_postfix() {
    // "a'b" is AND(NOT(a), b), not NOT(AND(a, b)).
    let g = parse_ok("a'b");
    assert_eq!(g.get_type(), GateType::AND);
    let left = &g.get_inputs()[0];
    assert_eq!(left.get_type(), GateType::NOT);
    assert_eq!(left.get_inputs()[0].get_name(), "a");
    assert_eq!(g.get_inputs()[1].get_type(), GateType::INPUT);
    assert_eq!(g.get_inputs()[1].get_name(), "b");
    assert_eq!(g.get_name(), "a'b");
}

#[test]
fn whitespace_carries_no_meaning() {
    let spaced = parse_ok(" a  + b\t");
    assert_eq!(spaced.get_type(), GateType::OR);
    assert_eq!(spaced.get_name(), "a+b");
}

#[test]
fn chains_count_leaves_and_depth() {
    // Operand occurrences become that many leaves, repeats included,
    // and a homogeneous chain nests one level per operand.
    let g = parse_ok("abc");
    assert_eq!(g.depth(), 3);
    assert_eq!(leaf_count(&g), 3);
    let g = parse_ok("a+b+c+d");
    assert_eq!(g.depth(), 4);
    assert_eq!(leaf_count(&g), 4);
    let g = parse_ok("aa");
    assert_eq!(g.depth(), 2);
    assert_eq!(leaf_count(&g), 2);
    let g = parse_ok("a+bc");
    assert_eq!(leaf_count(&g), 3);
}

#[test]
fn empty_expression_fails() {
    assert!(matches!(
        parse_boolean_expression(""),
        Err(ParseError::EmptyExpression)
    ));
    assert!(matches!(
        parse_boolean_expression("   "),
        Err(ParseError::EmptyExpression)
    ));
}

#[test]
fn unmatched_parenthesis_fails() {
    assert!(matches!(
        parse_boolean_expression("(a"),
        Err(ParseError::UnmatchedParenthesis)
    ));
    assert!(matches!(
        parse_boolean_expression("a)"),
        Err(ParseError::UnmatchedParenthesis)
    ));
}

#[test]
fn doubled_operator_fails() {
    let r = parse_boolean_expression("a++b");
    assert!(matches!(
        r,
        Err(ParseError::InsufficientOperands) | Err(ParseError::MalformedExpression)
    ));
}

#[test]
fn lone_operator_fails() {
    assert!(matches!(
        parse_boolean_expression("+"),
        Err(ParseError::InsufficientOperands)
    ));
}

#[test]
fn disconnected_group_fails() {
    assert!(matches!(
        parse_boolean_expression("()"),
        Err(ParseError::MalformedExpression)
    ));
}

#[test]
fn nested_groups_parse() {
    let g = parse_ok("((a+b)'c)'");
    assert_eq!(g.get_type(), GateType::NOT);
    let inner = &g.get_inputs()[0];
    assert_eq!(inner.get_type(), GateType::AND);
    assert_eq!(inner.get_inputs()[0].get_type(), GateType::NOT);
    assert_eq!(g.get_name(), "a+b'c'");
}

#[test]
fn equal_rank_chains_associate_left() {
    // "a+b+c" is OR(OR(a, b), c): equal-rank operators pop, keeping
    // chains left-associative.
    let g = parse_ok("a+b+c");
    assert_eq!(g.get_type(), GateType::OR);
    let left = &g.get_inputs()[0];
    assert_eq!(left.get_type(), GateType::OR);
    assert_eq!(left.get_inputs()[0].get_name(), "a");
    assert_eq!(left.get_inputs()[1].get_name(), "b");
    assert_eq!(g.get_inputs()[1].get_name(), "c");
    assert_eq!(g.get_name(), "a+b+c");

    let g = parse_ok("abc");
    assert_eq!(g.get_type(), GateType::AND);
    assert_eq!(g.get_inputs()[0].get_type(), GateType::AND);
    assert_eq!(g.get_inputs()[1].get_type(), GateType::INPUT);
    assert_eq!(g.get_name(), "abc");
}

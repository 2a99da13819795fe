use logic_analyzer::eval::{eval, Assignment};
use logic_analyzer::expr::Expr;
use logic_analyzer::parser::{parse_expr, tokenize, BooleanParser, ParseError, TokenKind};

fn var(name: &str) -> Expr {
    Expr::Var(name.to_string())
}

fn assignment(pairs: &[(&str, bool)]) -> Assignment {
    let mut a = Assignment::new();
    for (name, value) in pairs {
        a.insert(name.to_string(), *value);
    }
    a
}

fn shape(e: &Expr) -> String {
    format!("{:?}", e)
}

#[test]
fn unbound_variable_is_false() {
    assert_eq!(eval(&var("A"), &Assignment::new()), false);
    let e = Expr::Or(Box::new(var("A")), Box::new(var("B")));
    assert_eq!(eval(&e, &assignment(&[("B", true)])), true);
    assert_eq!(eval(&e, &assignment(&[("B", false)])), false);
    let n = Expr::Not(Box::new(var("Z")));
    assert_eq!(eval(&n, &assignment(&[("A", true)])), true);
}

#[test]
fn assignment_keeps_the_last_binding() {
    let mut a = Assignment::new();
    assert_eq!(a.get("A"), None);
    a.insert("A".to_string(), true);
    assert_eq!(a.get("A"), Some(true));
    a.insert("A".to_string(), false);
    assert_eq!(a.get("A"), Some(false));
    assert_eq!(a.get("a"), None);
}

#[test]
fn bind_pairs_names_with_values() {
    let mut a = Assignment::new();
    let names = vec!["A".to_string(), "B".to_string(), "C".to_string()];
    a.bind(&names, &vec![true, false]);
    assert_eq!(a.get("A"), Some(true));
    assert_eq!(a.get("B"), Some(false));
    assert_eq!(a.get("C"), None);
}

#[test]
fn connectives_have_their_truth_tables() {
    let cases = [(false, false), (false, true), (true, false), (true, true)];
    for (x, y) in cases {
        let env = assignment(&[("X", x), ("Y", y)]);
        let l = || Box::new(var("X"));
        let r = || Box::new(var("Y"));
        assert_eq!(eval(&Expr::And(l(), r()), &env), x && y);
        assert_eq!(eval(&Expr::Or(l(), r()), &env), x || y);
        assert_eq!(eval(&Expr::Xor(l(), r()), &env), x != y);
        assert_eq!(eval(&Expr::Nand(l(), r()), &env), !(x && y));
        assert_eq!(eval(&Expr::Nor(l(), r()), &env), !(x || y));
        assert_eq!(eval(&Expr::Xnor(l(), r()), &env), x == y);
        assert_eq!(eval(&Expr::Not(l()), &env), !x);
    }
}

#[test]
fn clone_copies_the_tree() {
    let e = Expr::Nand(Box::new(var("A")), Box::new(Expr::Not(Box::new(var("B")))));
    assert_eq!(shape(&e.clone()), shape(&e));
}

#[test]
fn double_negation_is_kept() {
    let e = parse_expr("!!A").unwrap();
    assert_eq!(shape(&e), shape(&Expr::Not(Box::new(Expr::Not(Box::new(var("A")))))));
    for value in [false, true] {
        let env = assignment(&[("A", value)]);
        assert_eq!(eval(&e, &env), eval(&var("A"), &env));
    }
    let ticks = parse_expr("A''").unwrap();
    assert_eq!(shape(&ticks), shape(&e));
    let mixed = parse_expr("!A'").unwrap();
    assert_eq!(shape(&mixed), shape(&e));
}

#[test]
fn and_binds_tighter_than_or() {
    let e = parse_expr("A | B * C").unwrap();
    let expected = Expr::Or(
        Box::new(var("A")),
        Box::new(Expr::And(Box::new(var("B")), Box::new(var("C")))),
    );
    assert_eq!(shape(&e), shape(&expected));
    for a in [false, true] {
        for b in [false, true] {
            for c in [false, true] {
                let env = assignment(&[("A", a), ("B", b), ("C", c)]);
                assert_eq!(eval(&e, &env), eval(&expected, &env));
                assert_eq!(eval(&e, &env), a || (b && c));
            }
        }
    }
}

#[test]
fn precedence_runs_or_xor_and_not() {
    let e = parse_expr("A | B ^ C & !D").unwrap();
    let expected = Expr::Or(
        Box::new(var("A")),
        Box::new(Expr::Xor(
            Box::new(var("B")),
            Box::new(Expr::And(Box::new(var("C")), Box::new(Expr::Not(Box::new(var("D")))))),
        )),
    );
    assert_eq!(shape(&e), shape(&expected));
}

#[test]
fn binary_operators_associate_to_the_left() {
    let e = parse_expr("A | B | C").unwrap();
    let expected = Expr::Or(
        Box::new(Expr::Or(Box::new(var("A")), Box::new(var("B")))),
        Box::new(var("C")),
    );
    assert_eq!(shape(&e), shape(&expected));
    let x = parse_expr("A ^ B ^ C").unwrap();
    let expected = Expr::Xor(
        Box::new(Expr::Xor(Box::new(var("A")), Box::new(var("B")))),
        Box::new(var("C")),
    );
    assert_eq!(shape(&x), shape(&expected));
}

#[test]
fn parentheses_group() {
    let e = parse_expr("(A | B) & C").unwrap();
    let expected = Expr::And(
        Box::new(Expr::Or(Box::new(var("A")), Box::new(var("B")))),
        Box::new(var("C")),
    );
    assert_eq!(shape(&e), shape(&expected));
    let n = parse_expr("!(A+B)'").unwrap();
    let inner = Expr::Or(Box::new(var("A")), Box::new(var("B")));
    let expected = Expr::Not(Box::new(Expr::Not(Box::new(inner))));
    assert_eq!(shape(&n), shape(&expected));
}

#[test]
fn negation_marks_count_on_their_own_operand() {
    let e = parse_expr("!(!A)").unwrap();
    assert_eq!(shape(&e), shape(&Expr::Not(Box::new(Expr::Not(Box::new(var("A")))))));
}

#[test]
fn names_may_be_long_and_blanks_are_skipped() {
    let e = parse_expr("  carry_in\t& x1 ").unwrap();
    let expected = Expr::And(Box::new(var("carry_in")), Box::new(var("x1")));
    assert_eq!(shape(&e), shape(&expected));
    let joined = parse_expr("AB").unwrap();
    assert_eq!(shape(&joined), shape(&var("AB")));
}

#[test]
fn parser_struct_and_function_agree() {
    let a = BooleanParser::parse("A & (B | !C)").unwrap();
    let b = parse_expr("A & (B | !C)").unwrap();
    assert_eq!(shape(&a), shape(&b));
}

#[test]
fn empty_text_is_rejected() {
    assert_eq!(parse_expr("").unwrap_err(), ParseError::Empty);
    assert_eq!(parse_expr("   \t ").unwrap_err(), ParseError::Empty);
}

#[test]
fn unrecognized_character_is_rejected() {
    assert_eq!(parse_expr("A # B").unwrap_err(), ParseError::UnrecognizedCharacter(2));
    assert_eq!(parse_expr("é").unwrap_err(), ParseError::UnrecognizedCharacter(0));
    assert_eq!(parse_expr("A & é").unwrap_err(), ParseError::UnrecognizedCharacter(4));
    assert_eq!(parse_expr("1A").unwrap_err(), ParseError::UnrecognizedCharacter(0));
    assert_eq!(parse_expr("(A $").unwrap_err(), ParseError::UnrecognizedCharacter(3));
}

#[test]
fn unmatched_parenthesis_is_rejected() {
    assert_eq!(parse_expr("(A & B").unwrap_err(), ParseError::UnmatchedParenthesis(0));
    assert_eq!(parse_expr("A & (B | (C)").unwrap_err(), ParseError::UnmatchedParenthesis(4));
    assert_eq!(parse_expr("A & B)").unwrap_err(), ParseError::UnmatchedParenthesis(5));
}

#[test]
fn misplaced_token_is_rejected() {
    assert_eq!(parse_expr("A B").unwrap_err(), ParseError::UnexpectedToken(2));
    assert_eq!(parse_expr("& A").unwrap_err(), ParseError::UnexpectedToken(0));
    assert_eq!(parse_expr("()").unwrap_err(), ParseError::UnexpectedToken(1));
    assert_eq!(parse_expr("A !B").unwrap_err(), ParseError::UnexpectedToken(2));
    assert_eq!(parse_expr("(A B)").unwrap_err(), ParseError::UnexpectedToken(3));
    assert_eq!(parse_expr("'A").unwrap_err(), ParseError::UnexpectedToken(0));
}

#[test]
fn missing_operand_is_rejected() {
    assert_eq!(parse_expr("A &").unwrap_err(), ParseError::Incomplete);
    assert_eq!(parse_expr("!").unwrap_err(), ParseError::Incomplete);
    assert_eq!(parse_expr("(").unwrap_err(), ParseError::Incomplete);
    assert_eq!(parse_expr("A | (B ^").unwrap_err(), ParseError::Incomplete);
}

#[test]
fn tokens_carry_their_places() {
    let ts = tokenize("ab&(c')").unwrap();
    let kinds: Vec<TokenKind> = ts.iter().map(|t| t.kind).collect();
    assert_eq!(
        kinds,
        vec![
            TokenKind::Name,
            TokenKind::And,
            TokenKind::Open,
            TokenKind::Name,
            TokenKind::Tick,
            TokenKind::Close
        ]
    );
    let places: Vec<(usize, usize)> = ts.iter().map(|t| (t.start, t.end)).collect();
    assert_eq!(places, vec![(0, 2), (2, 3), (3, 4), (4, 5), (5, 6), (6, 7)]);
    assert_eq!(tokenize("a ?").unwrap_err(), ParseError::UnrecognizedCharacter(2));
}

#[test]
fn fully_parenthesized_text_is_read_back() {
    let e = parse_expr("!((A)|((B)^(!(C))))").unwrap();
    let expected = Expr::not(Expr::or(
        Expr::var("A"),
        Expr::xor(Expr::var("B"), Expr::not(Expr::var("C"))),
    ));
    assert_eq!(e, expected);
    assert_eq!(parse_expr("(x_1)&(y2)").unwrap(), Expr::and(Expr::var("x_1"), Expr::var("y2")));
}

#[test]
fn unbound_and_false_read_alike() {
    let e = parse_expr("(A ^ B) | !C & A").unwrap();
    for a in [false, true] {
        for b in [false, true] {
            let sparse = assignment(&[("A", a), ("B", b)]);
            let full = assignment(&[("A", a), ("B", b), ("C", false)]);
            assert_eq!(eval(&e, &sparse), eval(&e, &full));
        }
    }
}

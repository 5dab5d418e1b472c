use infix_calc::error::{Error, ErrorKind, Fault};
use infix_calc::number::Number;
use infix_calc::parser::{evaluate, Expr, Parser};
use infix_calc::tokenizer::Op;

fn literal(n: &Number) -> f64 {
    n.text().iter().collect::<String>().parse().unwrap()
}

fn apply(op: Op, x: f64, y: f64) -> f64 {
    match op {
        Op::Add => x + y,
        Op::Sub => x - y,
        Op::Mul => x * y,
        Op::Div => x / y,
        Op::Pow => x.powf(y),
    }
}

fn eval(s: &str) -> Result<f64, Error> {
    Parser::parse(s).map(|tree| tree.calc(&literal, &apply))
}

fn value(s: &str) -> f64 {
    eval(s).unwrap()
}

fn failure(s: &str) -> Error {
    eval(s).unwrap_err()
}

fn number(text: &str) -> Expr {
    Expr::Digit(Number::from_text(text).unwrap())
}

fn inner(left: Expr, op: Op, right: Expr) -> Expr {
    Expr::Inner(Box::new(left), op, Box::new(right))
}

#[test]
fn bare_literal_is_its_own_value() {
    assert_eq!(value("42"), 42.0);
    assert_eq!(value("3.5"), 3.5);
    assert_eq!(value("7."), 7.0);
    assert_eq!(value("0.125"), 0.125);
    assert_eq!(value("007"), 7.0);
}

#[test]
fn padded_literal_is_its_own_value() {
    assert_eq!(value("   42"), 42.0);
    assert_eq!(value("42   "), 42.0);
    assert_eq!(value("  3.5  "), 3.5);
    assert_eq!(value("\t12\n"), 12.0);
    assert_eq!(value("\u{a0}\u{3000}9\u{2003}"), 9.0);
}

#[test]
fn bare_literal_is_a_leaf() {
    assert_eq!(Parser::parse(" 12.50 ").unwrap(), number("12.50"));
}

#[test]
fn long_literal_keeps_every_digit() {
    let text = "123456789012345678901234567890.123456789";
    let tree = Parser::parse(text).unwrap();
    assert_eq!(tree, number(text));
    assert_eq!(tree.calc(&literal, &apply), text.parse::<f64>().unwrap());
}

#[test]
fn precedence_and_grouping() {
    assert_eq!(value("2 + 3 * 4"), 14.0);
    assert_eq!(value("(2 + 3) * 4"), 20.0);
}

#[test]
fn precedence_shapes_the_tree() {
    assert_eq!(
        Parser::parse("2 + 3 * 4").unwrap(),
        inner(number("2"), Op::Add, inner(number("3"), Op::Mul, number("4")))
    );
    assert_eq!(
        Parser::parse("(2 + 3) * 4").unwrap(),
        inner(inner(number("2"), Op::Add, number("3")), Op::Mul, number("4"))
    );
}

#[test]
fn equal_precedence_folds_from_the_left() {
    assert_eq!(value("8 - 3 - 2"), 3.0);
    assert_eq!(value("16 / 4 / 2"), 2.0);
    assert_eq!(
        Parser::parse("8 - 3 - 2").unwrap(),
        inner(inner(number("8"), Op::Sub, number("3")), Op::Sub, number("2"))
    );
}

#[test]
fn power_folds_from_the_left_too() {
    assert_eq!(value("2 ^ 3 ^ 2"), 64.0);
}

#[test]
fn unary_minus_multiplies_by_minus_one() {
    assert_eq!(value("-3 + 5"), 2.0);
    assert_eq!(value("-(2 + 3)"), -5.0);
    assert_eq!(value("3 - -2"), 5.0);
    assert_eq!(
        Parser::parse("-3").unwrap(),
        inner(Expr::Digit(Number::minus_one()), Op::Mul, number("3"))
    );
}

#[test]
fn unary_minus_binds_like_a_product() {
    assert_eq!(value("-3 ^ 2"), -9.0);
    assert_eq!(value("2 ^ -2"), 1.0);
}

#[test]
fn open_bracket_without_partner_fails() {
    let e = failure("(1 + 2");
    assert_eq!(e.fault, Fault::UnmatchedBracket);
    assert_eq!(e.kind(), ErrorKind::Syntax);
    assert_eq!(e.character, Some('('));
    assert_eq!(e.position, Some(4));
}

#[test]
fn closing_bracket_without_partner_fails() {
    let e = failure("1 + 2)");
    assert_eq!(e.fault, Fault::UnmatchedBracket);
    assert_eq!(e.kind(), ErrorKind::Syntax);
    assert_eq!(e.character, Some(')'));
    assert_eq!(e.position, Some(4));
}

#[test]
fn division_by_zero_is_infinite() {
    let v = value("1 / 0");
    assert!(v.is_infinite());
    assert!(v > 0.0);
    assert_eq!(v, f64::INFINITY);
    assert!(value("0 / 0").is_nan());
    assert_eq!(value("-1 / 0"), f64::NEG_INFINITY);
}

#[test]
fn evaluation_is_repeatable() {
    for s in ["0.1 + 0.2", "1 / 3", "2 ^ 0.5", "0 / 0", "(1.1 * 3) - 7 / 9 ^ 1.5", "10 / 0"] {
        let first = value(s);
        let second = value(s);
        assert_eq!(first.to_bits(), second.to_bits());
        assert_eq!(Parser::parse(s), Parser::parse(s));
    }
    assert_eq!(eval("2 $"), eval("2 $"));
}

#[test]
fn composition_all_operators_flat() {
    assert_eq!(value("1 + 2 * 3 - 4 / 2 ^ 2"), 6.0);
}

#[test]
fn composition_two_groups() {
    assert_eq!(value("(1 + 2) * (3 - 4) / 2 ^ 2"), -0.75);
}

#[test]
fn composition_squared_product() {
    assert_eq!(value("((2 + 3) * (4 - 1)) ^ 2 / 5 - 10"), 35.0);
}

#[test]
fn composition_mixed_chain() {
    assert_eq!(value("10 - 2 * 3 + 4 / 2 ^ 1"), 6.0);
}

#[test]
fn composition_negated_group() {
    assert_eq!(value("-(1 + 2) * 3 ^ 2 - 4 / 8"), -27.5);
}

#[test]
fn composition_group_as_exponent() {
    assert_eq!(value("(8 / (4 - 2)) ^ (1 + 1) * 2 - 3 + 0.5"), 29.5);
}

#[test]
fn composition_fractions() {
    assert_eq!(value("1.5 * (2 + 2) ^ 2 / 3 - 1 + 4"), 11.0);
}

#[test]
fn composition_deep_nesting() {
    assert_eq!(value("2 * (3 + (4 - (5 / (1 + 1)) ^ 2))"), 1.5);
}

#[test]
fn composition_long_chain() {
    assert_eq!(value("100 / 10 / 5 - 2 ^ 2 ^ 2 + (3 - 1) * 0.25"), -13.5);
}

#[test]
fn composition_double_minus() {
    assert_eq!(value("3 - -2 * (1 + 1) ^ 3 / 4"), 7.0);
}

#[test]
fn composition_without_spaces_around_products() {
    assert_eq!(value("2*(3 + 4)^2/7 - 1"), 13.0);
}

#[test]
fn sign_plus_gives_no_token() {
    assert_eq!(value("+5"), 5.0);
    assert_eq!(value("2 * +3"), 6.0);
}

#[test]
fn plus_without_space_after_it_is_no_addition() {
    let e = failure("2+3");
    assert_eq!(e.fault, Fault::MalformedExpression);
    assert_eq!(e.kind(), ErrorKind::Structure);
    assert_eq!(e.character, None);
    assert_eq!(e.position, None);
}

#[test]
fn adjacent_literals_are_malformed() {
    assert_eq!(failure("2 3").fault, Fault::MalformedExpression);
}

#[test]
fn empty_text_is_malformed() {
    assert_eq!(failure("").fault, Fault::MalformedExpression);
    assert_eq!(failure("   ").fault, Fault::MalformedExpression);
    assert_eq!(failure("()").fault, Fault::MalformedExpression);
}

#[test]
fn minus_at_the_end_is_a_subtraction_without_operand() {
    let e = failure("3 -");
    assert_eq!(e.fault, Fault::UnexpectedOperation);
    assert_eq!(e.kind(), ErrorKind::Structure);
    assert_eq!(e.character, Some('-'));
    assert_eq!(e.position, Some(2));
}

#[test]
fn operator_without_operands_is_unexpected() {
    let e = failure("* 2");
    assert_eq!(e.fault, Fault::UnexpectedOperation);
    assert_eq!(e.character, Some('*'));
    assert_eq!(e.position, Some(2));
    assert_eq!(failure("2 + ").fault, Fault::UnexpectedOperation);
}

#[test]
fn unrecognized_character_is_reported_with_its_offset() {
    let e = failure("2 $ 3");
    assert_eq!(e.fault, Fault::UnrecognizedInput);
    assert_eq!(e.kind(), ErrorKind::Syntax);
    assert_eq!(e.character, Some('$'));
    assert_eq!(e.position, Some(3));
}

#[test]
fn malformed_number_is_reported_at_its_start() {
    let e = failure("4 + 1.2.3");
    assert_eq!(e.fault, Fault::MalformedNumber);
    assert_eq!(e.kind(), ErrorKind::NumberFormat);
    assert_eq!(e.character, None);
    assert_eq!(e.position, Some(5));
}

#[test]
fn minus_before_anything_else_is_invalid() {
    let e = failure("2 -x");
    assert_eq!(e.fault, Fault::InvalidSequence);
    assert_eq!(e.kind(), ErrorKind::Syntax);
    assert_eq!(e.character, None);
    assert_eq!(e.position, Some(3));
    assert_eq!(failure("-.5").fault, Fault::InvalidSequence);
    assert_eq!(failure("--1").fault, Fault::InvalidSequence);
}

#[test]
fn first_failure_wins() {
    assert_eq!(failure("1.2.3 $").fault, Fault::MalformedNumber);
    assert_eq!(failure("$ 1.2.3").fault, Fault::UnrecognizedInput);
    assert_eq!(failure(") $").fault, Fault::UnrecognizedInput);
    assert_eq!(failure(") +").fault, Fault::UnmatchedBracket);
}

#[test]
fn operands_keep_their_order() {
    assert_eq!(value("2 - 5"), -3.0);
    assert_eq!(value("2 / 8"), 0.25);
    assert_eq!(value("2 ^ 5"), 32.0);
    let tree = inner(number("2"), Op::Sub, number("5"));
    let shown = tree.calc(&|n: &Number| n.text().iter().collect::<String>(), &|op: Op,
                                                                                  x: String,
                                                                                  y: String| {
        format!("({}{}{})", x, op.symbol(), y)
    });
    assert_eq!(shown, "(2-5)");
}

#[test]
fn calc_visits_the_left_operand_first() {
    let tree = Parser::parse("(1 - 2) / (3 ^ 4) + 5").unwrap();
    let shown = tree.calc(&|n: &Number| n.text().iter().collect::<String>(), &|op: Op,
                                                                                  x: String,
                                                                                  y: String| {
        format!("({}{}{})", x, op.symbol(), y)
    });
    assert_eq!(shown, "(((1-2)/(3^4))+5)");
}

fn next_random(state: &mut u64) -> u64 {
    *state = state.wrapping_mul(6364136223846793005).wrapping_add(1442695040888963407);
    *state >> 33
}

fn random_tree(state: &mut u64, depth: u32) -> Expr {
    if depth == 0 || next_random(state) % 3 == 0 {
        let texts = ["0", "1", "2.5", "10", "7.", "0.125", "300"];
        number(texts[(next_random(state) % 7) as usize])
    } else {
        let ops = [Op::Add, Op::Sub, Op::Mul, Op::Div, Op::Pow];
        let op = ops[(next_random(state) % 5) as usize];
        let left = random_tree(state, depth - 1);
        let right = random_tree(state, depth - 1);
        inner(left, op, right)
    }
}

fn level(e: &Expr) -> u8 {
    match e {
        Expr::Digit(_) => 6,
        Expr::Inner(_, op, _) => infix_calc::lexer::op_priority(*op),
    }
}

fn written(e: &Expr, lavish: bool) -> String {
    match e {
        Expr::Digit(n) => n.text().iter().collect(),
        Expr::Inner(l, op, r) => {
            let p = infix_calc::lexer::op_priority(*op);
            let mut left = written(l, lavish);
            if level(l) < p || (lavish && level(l) < 6) {
                left = format!("({})", left);
            }
            let mut right = written(r, lavish);
            if level(r) <= p || (lavish && level(r) < 6) {
                right = format!("({})", right);
            }
            format!("{} {} {}", left, op.symbol(), right)
        }
    }
}

#[test]
fn written_expressions_are_read_as_meant() {
    let mut state = 2024u64;
    for _ in 0..400 {
        let tree = random_tree(&mut state, 5);
        let sparse = written(&tree, false);
        assert_eq!(Parser::parse(&sparse).as_ref(), Ok(&tree), "{}", sparse);
        let lavish = written(&tree, true);
        assert_eq!(Parser::parse(&lavish).as_ref(), Ok(&tree), "{}", lavish);
    }
}

#[test]
fn written_expressions_keep_their_value() {
    let mut state = 7u64;
    for _ in 0..200 {
        let tree = random_tree(&mut state, 4);
        let direct = tree.calc(&literal, &apply);
        let read = value(&written(&tree, false));
        assert_eq!(direct.to_bits(), read.to_bits());
    }
}

#[test]
fn brackets_are_accepted_exactly_when_they_pair_up() {
    for code in 0u32..(1 << 10) {
        for len in 0..=10u32 {
            let mut text = String::new();
            let mut depth: i32 = 0;
            let mut stray = false;
            for k in 0..len {
                if code >> k & 1 == 0 {
                    text.push('(');
                    depth += 1;
                } else {
                    text.push(')');
                    depth -= 1;
                    if depth < 0 {
                        stray = true;
                        depth = 0;
                    }
                }
            }
            let balanced = !stray && depth == 0;
            let mut queue = infix_calc::tokenizer::Tokenizer::tokenize(&text).unwrap();
            let r = infix_calc::lexer::Lexer::analyze(&mut queue);
            assert_eq!(r.is_ok(), balanced, "{:?}", text);
            if let Err(e) = r {
                assert_eq!(e.fault, Fault::UnmatchedBracket);
            }
        }
    }
}

#[test]
fn evaluate_goes_from_text_to_value() {
    assert_eq!(evaluate("2 + 3 * 4", &literal, &apply), Ok(14.0));
    assert_eq!(evaluate("(2 + 3) * 4", &literal, &apply), Ok(20.0));
    assert_eq!(evaluate("-(2 + 3)", &literal, &apply), Ok(-5.0));
    assert_eq!(evaluate(" 7.5 ", &literal, &apply), Ok(7.5));
    assert_eq!(evaluate("1 / 0", &literal, &apply), Ok(f64::INFINITY));
}

#[test]
fn evaluate_fails_as_parsing_fails() {
    for s in ["", "2 $", "1.2.3", "2 -x", "(1 + 2", "1 + 2)", "* 2", "2 3", "3 -"] {
        let e = Parser::parse(s).unwrap_err();
        assert_eq!(evaluate(s, &literal, &apply), Err(e), "{:?}", s);
    }
    assert_eq!(
        evaluate("2 $", &literal, &apply),
        Err(Error { fault: Fault::UnrecognizedInput, character: Some('$'), position: Some(3) })
    );
}

#[test]
fn evaluate_agrees_with_parse_and_calc() {
    let mut state = 99u64;
    for _ in 0..200 {
        let tree = random_tree(&mut state, 4);
        let text = written(&tree, false);
        let direct = Parser::parse(&text).unwrap().calc(&literal, &apply);
        let whole = evaluate(&text, &literal, &apply).unwrap();
        assert_eq!(direct.to_bits(), whole.to_bits(), "{}", text);
    }
}

#[test]
fn evaluate_in_an_exact_arithmetic() {
    let whole = |n: &Number| n.text().iter().collect::<String>().parse::<i64>().unwrap();
    let exact = |op: Op, x: i64, y: i64| match op {
        Op::Add => x + y,
        Op::Sub => x - y,
        Op::Mul => x * y,
        Op::Div => x / y,
        Op::Pow => x.pow(y as u32),
    };
    assert_eq!(evaluate("1 + 2 * 3 - 4 / 2 ^ 2", &whole, &exact), Ok(6));
    assert_eq!(evaluate("2 ^ 3 ^ 2", &whole, &exact), Ok(64));
    assert_eq!(evaluate("8 - 3 - 2", &whole, &exact), Ok(3));
    assert_eq!(evaluate("3 - -2", &whole, &exact), Ok(5));
}

#[test]
fn evaluate_twice_gives_the_same_bits() {
    for s in ["0.1 + 0.2", "1 / 3", "2 ^ 0.5", "0 / 0", "(1.1 * 3) - 7 / 9 ^ 1.5"] {
        let first = evaluate(s, &literal, &apply).unwrap();
        let second = evaluate(s, &literal, &apply).unwrap();
        assert_eq!(first.to_bits(), second.to_bits());
        let tree = Parser::parse(s).unwrap();
        assert_eq!(tree.calc(&literal, &apply).to_bits(), tree.calc(&literal, &apply).to_bits());
    }
}

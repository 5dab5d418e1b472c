use infix_calc::error::{Error, ErrorKind, Fault};
use infix_calc::lexer::{op_priority, Lexer, LexerToken};
use infix_calc::number::Number;
use infix_calc::parser::{Expr, Parser};
use infix_calc::text::{chars_of, utf8_width};
use infix_calc::tokenizer::{digit_checker, space_checker, Op, Token, Tokenizer};
use std::collections::VecDeque;

fn num(text: &str) -> Number {
    Number::from_text(text).unwrap()
}

fn tokens(s: &str) -> Vec<Token> {
    Tokenizer::tokenize(s).unwrap().into_iter().collect()
}

fn postfix(s: &str) -> Vec<LexerToken> {
    let mut tokens = Tokenizer::tokenize(s).unwrap();
    Lexer::analyze(&mut tokens).unwrap()
}

fn shown(stream: &[LexerToken]) -> String {
    let mut parts: Vec<String> = Vec::new();
    for t in stream {
        parts.push(match t {
            LexerToken::Digit(n) => n.text().iter().collect(),
            LexerToken::Op(op) => op.symbol().to_string(),
        });
    }
    parts.join(" ")
}

#[test]
fn priorities() {
    assert_eq!(op_priority(Op::Add), 3);
    assert_eq!(op_priority(Op::Sub), 3);
    assert_eq!(op_priority(Op::Mul), 4);
    assert_eq!(op_priority(Op::Div), 4);
    assert_eq!(op_priority(Op::Pow), 5);
}

#[test]
fn symbols() {
    assert_eq!(Op::Mul.symbol(), '*');
    assert_eq!(Op::Div.symbol(), '/');
    assert_eq!(Op::Sub.symbol(), '-');
    assert_eq!(Op::Add.symbol(), '+');
    assert_eq!(Op::Pow.symbol(), '^');
}

#[test]
fn space_checker_agrees_with_unicode_white_space() {
    let mut c = '\0';
    loop {
        assert_eq!(space_checker(c), c.is_whitespace(), "{:?}", c);
        if c == char::MAX {
            break;
        }
        c = char::from_u32(c as u32 + 1).unwrap_or('\u{e000}');
    }
}

#[test]
fn digit_checker_accepts_digits_and_the_point() {
    let mut c = '\0';
    loop {
        assert_eq!(digit_checker(c), c.is_ascii_digit() || c == '.', "{:?}", c);
        if c == char::MAX {
            break;
        }
        c = char::from_u32(c as u32 + 1).unwrap_or('\u{e000}');
    }
}

#[test]
fn utf8_width_agrees_with_the_encoding() {
    let mut c = '\0';
    loop {
        assert_eq!(utf8_width(c), c.len_utf8(), "{:?}", c);
        if c == char::MAX {
            break;
        }
        c = char::from_u32(c as u32 + 1).unwrap_or('\u{e000}');
    }
}

#[test]
fn chars_of_gives_the_characters() {
    assert_eq!(chars_of("a\u{e9}\u{3000}z"), vec!['a', '\u{e9}', '\u{3000}', 'z']);
    assert_eq!(chars_of(""), Vec::<char>::new());
}

#[test]
fn number_texts() {
    for ok in ["0", "7", "7.", "7.25", "007", "12345678901234567890", "-1", "-0.5", "-3."] {
        let n = Number::from_text(ok).unwrap();
        assert_eq!(n.text().iter().collect::<String>(), ok);
        assert_eq!(n.clone(), n);
    }
    for bad in ["", "-", ".", ".5", "1.2.3", "1..", "1e5", "+1", "--1", "-.5", " 1", "1 ", "\u{ff11}", "1,5", "inf", "nan"] {
        assert!(Number::from_text(bad).is_none(), "{:?}", bad);
    }
}

#[test]
fn number_texts_are_what_double_precision_parses() {
    let alphabet = ['0', '9', '.'];
    let mut texts: Vec<String> = vec![String::new()];
    for _ in 0..5 {
        let mut longer = Vec::new();
        for t in &texts {
            for c in alphabet {
                let mut u = t.clone();
                u.push(c);
                longer.push(u);
            }
        }
        for t in &longer {
            if t.starts_with(|c: char| c.is_ascii_digit()) {
                assert_eq!(Number::from_text(t).is_some(), t.parse::<f64>().is_ok(), "{:?}", t);
            }
        }
        texts = longer;
    }
}

#[test]
fn minus_one_reads_minus_one() {
    assert_eq!(Number::minus_one().text(), &vec!['-', '1']);
    assert_eq!(Number::minus_one(), num("-1"));
}

#[test]
fn from_chars_takes_the_same_texts() {
    assert_eq!(Number::from_chars(vec!['4', '.', '2']), Some(num("4.2")));
    assert_eq!(Number::from_chars(vec!['4', '.', '.']), None);
    assert_eq!(Number::from_chars(vec![]), None);
}

#[test]
fn tokens_in_source_order() {
    assert_eq!(
        tokens("(1 + 2.5) * 3 / 4 ^ 5 - 6"),
        vec![
            Token::Bracket(true),
            Token::Digit(num("1")),
            Token::Op(Op::Add),
            Token::Digit(num("2.5")),
            Token::Bracket(false),
            Token::Op(Op::Mul),
            Token::Digit(num("3")),
            Token::Op(Op::Div),
            Token::Digit(num("4")),
            Token::Op(Op::Pow),
            Token::Digit(num("5")),
            Token::Op(Op::Sub),
            Token::Digit(num("6")),
        ]
    );
}

#[test]
fn tokens_of_nothing() {
    assert_eq!(tokens(""), vec![]);
    assert_eq!(tokens(" \t\r\n\u{85}\u{2028}"), vec![]);
}

#[test]
fn minus_before_a_digit_or_bracket_negates() {
    assert_eq!(
        tokens("-3"),
        vec![Token::Digit(Number::minus_one()), Token::Op(Op::Mul), Token::Digit(num("3"))]
    );
    assert_eq!(
        tokens("-(3)"),
        vec![
            Token::Digit(Number::minus_one()),
            Token::Op(Op::Mul),
            Token::Bracket(true),
            Token::Digit(num("3")),
            Token::Bracket(false),
        ]
    );
}

#[test]
fn minus_alone_subtracts() {
    assert_eq!(tokens("5 - 3"), vec![Token::Digit(num("5")), Token::Op(Op::Sub), Token::Digit(num("3"))]);
    assert_eq!(tokens("5 -"), vec![Token::Digit(num("5")), Token::Op(Op::Sub)]);
    assert_eq!(tokens("-"), vec![Token::Op(Op::Sub)]);
    assert_eq!(tokens("-\t1"), vec![Token::Op(Op::Sub), Token::Digit(num("1"))]);
}

#[test]
fn plus_alone_adds_and_plus_sign_vanishes() {
    assert_eq!(tokens("5 + 3"), vec![Token::Digit(num("5")), Token::Op(Op::Add), Token::Digit(num("3"))]);
    assert_eq!(tokens("5 +"), vec![Token::Digit(num("5")), Token::Op(Op::Add)]);
    assert_eq!(tokens("5 +3"), vec![Token::Digit(num("5")), Token::Digit(num("3"))]);
    assert_eq!(tokens("+(1)"), vec![Token::Bracket(true), Token::Digit(num("1")), Token::Bracket(false)]);
    assert_eq!(tokens("++ 1"), vec![Token::Op(Op::Add), Token::Digit(num("1"))]);
}

#[test]
fn a_number_runs_as_far_as_digits_and_points_go() {
    assert_eq!(tokens("12.5*3"), vec![Token::Digit(num("12.5")), Token::Op(Op::Mul), Token::Digit(num("3"))]);
    assert_eq!(tokens("1.(2)"), vec![
        Token::Digit(num("1.")),
        Token::Bracket(true),
        Token::Digit(num("2")),
        Token::Bracket(false),
    ]);
}

#[test]
fn tokenizer_faults() {
    assert_eq!(
        Tokenizer::tokenize("1 + a").unwrap_err(),
        Error { fault: Fault::UnrecognizedInput, character: Some('a'), position: Some(5) }
    );
    assert_eq!(
        Tokenizer::tokenize(".5").unwrap_err(),
        Error { fault: Fault::UnrecognizedInput, character: Some('.'), position: Some(1) }
    );
    assert_eq!(
        Tokenizer::tokenize("1 -a").unwrap_err(),
        Error { fault: Fault::InvalidSequence, character: None, position: Some(3) }
    );
    assert_eq!(
        Tokenizer::tokenize("  1..2").unwrap_err(),
        Error { fault: Fault::MalformedNumber, character: None, position: Some(3) }
    );
}

#[test]
fn positions_count_bytes() {
    assert_eq!(
        Tokenizer::tokenize("\u{3000}$").unwrap_err(),
        Error { fault: Fault::UnrecognizedInput, character: Some('$'), position: Some(4) }
    );
    assert_eq!(
        Tokenizer::tokenize("\u{a0}\u{a0}1 \u{e9}").unwrap_err(),
        Error { fault: Fault::UnrecognizedInput, character: Some('\u{e9}'), position: Some(7) }
    );
    assert_eq!(
        Tokenizer::tokenize("\u{2003}1 + \u{1f600}").unwrap_err(),
        Error { fault: Fault::UnrecognizedInput, character: Some('\u{1f600}'), position: Some(8) }
    );
    assert_eq!(
        Tokenizer::tokenize("\u{85}1.2.3").unwrap_err(),
        Error { fault: Fault::MalformedNumber, character: None, position: Some(3) }
    );
    assert_eq!(
        Tokenizer::tokenize("\u{1680}-\u{e9}").unwrap_err(),
        Error { fault: Fault::InvalidSequence, character: None, position: Some(4) }
    );
}

#[test]
fn postfix_by_priority() {
    assert_eq!(shown(&postfix("2 + 3 * 4")), "2 3 4 * +");
    assert_eq!(shown(&postfix("2 * 3 + 4")), "2 3 * 4 +");
    assert_eq!(shown(&postfix("(2 + 3) * 4")), "2 3 + 4 *");
    assert_eq!(shown(&postfix("8 - 3 - 2")), "8 3 - 2 -");
    assert_eq!(shown(&postfix("2 ^ 3 ^ 2")), "2 3 ^ 2 ^");
    assert_eq!(shown(&postfix("1 + 2 * 3 ^ 4 / 5 - 6")), "1 2 3 4 ^ * 5 / + 6 -");
    assert_eq!(shown(&postfix("((1))")), "1");
    assert_eq!(shown(&postfix("1 * (2 + 3 * (4 - 5)) ^ 6")), "1 2 3 4 5 - * + 6 ^ *");
    assert_eq!(shown(&postfix("")), "");
}

#[test]
fn postfix_of_what_is_no_expression() {
    assert_eq!(shown(&postfix("2 3")), "2 3");
    assert_eq!(shown(&postfix("* +")), "* +");
    assert_eq!(shown(&postfix("+ *")), "* +");
    assert_eq!(shown(&postfix("()")), "");
}

#[test]
fn analyze_empties_the_queue() {
    let mut queue = Tokenizer::tokenize("1 + (2 * 3)").unwrap();
    let stream = Lexer::analyze(&mut queue).unwrap();
    assert_eq!(stream.len(), 5);
    assert!(queue.is_empty());
}

#[test]
fn analyze_stops_at_a_stray_closing_bracket() {
    let mut queue: VecDeque<Token> = VecDeque::new();
    queue.push_back(Token::Digit(num("1")));
    queue.push_back(Token::Bracket(false));
    queue.push_back(Token::Op(Op::Add));
    queue.push_back(Token::Digit(num("2")));
    let e = Lexer::analyze(&mut queue).unwrap_err();
    assert_eq!(e, Error { fault: Fault::UnmatchedBracket, character: Some(')'), position: Some(2) });
    assert_eq!(e.kind(), ErrorKind::Syntax);
    let left: Vec<Token> = queue.into_iter().collect();
    assert_eq!(left, vec![Token::Op(Op::Add), Token::Digit(num("2"))]);
}

#[test]
fn analyze_reports_an_open_bracket_at_the_end() {
    let mut queue = Tokenizer::tokenize("2 * ((1 + 2)").unwrap();
    let e = Lexer::analyze(&mut queue).unwrap_err();
    assert_eq!(e, Error { fault: Fault::UnmatchedBracket, character: Some('('), position: Some(8) });
    assert!(queue.is_empty());
}

#[test]
fn analyze_matches_brackets_innermost_first() {
    let mut queue = Tokenizer::tokenize("(1 + 2))").unwrap();
    let e = Lexer::analyze(&mut queue).unwrap_err();
    assert_eq!(e.character, Some(')'));
    assert_eq!(e.position, Some(6));
}

#[test]
fn builder_rejects_an_operator_alone() {
    let e = Parser::build(&vec![LexerToken::Op(Op::Add)]).unwrap_err();
    assert_eq!(e, Error { fault: Fault::UnexpectedOperation, character: Some('+'), position: Some(1) });
    assert_eq!(e.kind(), ErrorKind::Structure);
}

#[test]
fn builder_rejects_an_operator_after_one_literal() {
    let e = Parser::build(&vec![LexerToken::Digit(num("1")), LexerToken::Op(Op::Pow)]).unwrap_err();
    assert_eq!(e, Error { fault: Fault::UnexpectedOperation, character: Some('^'), position: Some(2) });
}

#[test]
fn builder_rejects_the_first_starved_operator() {
    let stream = vec![
        LexerToken::Digit(num("1")),
        LexerToken::Digit(num("2")),
        LexerToken::Op(Op::Mul),
        LexerToken::Op(Op::Div),
        LexerToken::Op(Op::Sub),
    ];
    let e = Parser::build(&stream).unwrap_err();
    assert_eq!(e, Error { fault: Fault::UnexpectedOperation, character: Some('/'), position: Some(4) });
}

#[test]
fn builder_rejects_what_leaves_no_single_tree() {
    let none: Vec<LexerToken> = Vec::new();
    assert_eq!(
        Parser::build(&none).unwrap_err(),
        Error { fault: Fault::MalformedExpression, character: None, position: None }
    );
    let two = vec![LexerToken::Digit(num("1")), LexerToken::Digit(num("2"))];
    assert_eq!(Parser::build(&two).unwrap_err().fault, Fault::MalformedExpression);
}

#[test]
fn builder_puts_the_later_tree_on_the_right() {
    let stream = vec![
        LexerToken::Digit(num("1")),
        LexerToken::Digit(num("2")),
        LexerToken::Digit(num("3")),
        LexerToken::Op(Op::Sub),
        LexerToken::Op(Op::Div),
    ];
    let tree = Parser::build(&stream).unwrap();
    let expected = Expr::Inner(
        Box::new(Expr::Digit(num("1"))),
        Op::Div,
        Box::new(Expr::Inner(
            Box::new(Expr::Digit(num("2"))),
            Op::Sub,
            Box::new(Expr::Digit(num("3"))),
        )),
    );
    assert_eq!(tree, expected);
}

fn flatten(e: &Expr, out: &mut Vec<LexerToken>) {
    match e {
        Expr::Digit(n) => out.push(LexerToken::Digit(n.clone())),
        Expr::Inner(l, op, r) => {
            flatten(l, out);
            flatten(r, out);
            out.push(LexerToken::Op(*op));
        }
    }
}

#[test]
fn builder_undoes_postfix_notation() {
    for s in ["1", "1 + 2", "(1 + 2) * (3 - 4) / 5 ^ 6", "-(2 ^ 3) - 4 * (5 / 6)"] {
        let stream = postfix(s);
        let tree = Parser::build(&stream).unwrap();
        let mut again = Vec::new();
        flatten(&tree, &mut again);
        assert_eq!(again, stream);
        assert_eq!(Parser::build(&again).unwrap(), tree);
    }
}

#[test]
fn parse_is_the_three_stages_in_order() {
    for s in ["1 + 2 * 3", "(4 - 5) ^ 2", "7", "-(1)"] {
        assert_eq!(Parser::parse(s).unwrap(), Parser::build(&postfix(s)).unwrap());
    }
}

#[test]
fn clones_are_equal() {
    let t = Token::Digit(num("1.5"));
    assert_eq!(t.clone(), t);
    assert_eq!(Token::Bracket(true).clone(), Token::Bracket(true));
    assert_eq!(Token::Op(Op::Pow).clone(), Token::Op(Op::Pow));
    let l = LexerToken::Digit(num("2"));
    assert_eq!(l.clone(), l);
    assert_eq!(LexerToken::Op(Op::Sub).clone(), LexerToken::Op(Op::Sub));
}

#[test]
fn faults_kinds_and_messages() {
    let table = [
        (Fault::UnrecognizedInput, ErrorKind::Syntax, "unrecognized input"),
        (Fault::InvalidSequence, ErrorKind::Syntax, "invalid operand sequence"),
        (Fault::UnmatchedBracket, ErrorKind::Syntax, "not found pair for bracket"),
        (Fault::MalformedNumber, ErrorKind::NumberFormat, "cannot parse digit"),
        (Fault::UnexpectedOperation, ErrorKind::Structure, "unexpected operation"),
        (Fault::MalformedExpression, ErrorKind::Structure, "error parsing expression"),
        (Fault::MissingInput, ErrorKind::Input, "where is string to parse"),
    ];
    for (fault, kind, message) in table {
        assert_eq!(fault.kind(), kind);
        assert_eq!(fault.message(), message);
        let e = Error { fault, character: None, position: None };
        assert_eq!(e.kind(), kind);
        assert_eq!(e.message(), message);
    }
}

#[test]
fn missing_input_is_an_input_error() {
    let e = Error::missing_input();
    assert_eq!(e, Error { fault: Fault::MissingInput, character: None, position: None });
    assert_eq!(e.kind(), ErrorKind::Input);
}

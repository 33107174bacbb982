use expr_frontend::ir::{compile, generate, CompileError, IRError, IRGen, IrExpr};
use expr_frontend::lexer::{
    contains_char, find_operator, numeric_digits, operator_digits, operator_map,
    whitespace_digits, Associativity, LexError, Lexer, OpKind, Operator, Token,
};
use expr_frontend::parser::{parse_number, parse_operator, parse_tokens, Expr, ParseError, Parser};

fn chars(s: &str) -> Vec<char> {
    s.chars().collect()
}

fn op(kind: OpKind) -> Operator {
    let table = operator_map();
    *table.iter().find(|o| o.kind == kind).unwrap()
}

fn num(s: &str) -> Token {
    Token::LiteralNumeric(s.to_string())
}

fn lex_all(src: &str) -> Vec<Token> {
    let mut lexer = Lexer::new(chars(src));
    let mut out = Vec::new();
    loop {
        let t = lexer.next().unwrap();
        let end = t == Token::EndOfFile;
        out.push(t);
        if end {
            return out;
        }
    }
}

fn eval(e: &IrExpr) -> i64 {
    match e {
        IrExpr::Integer(n) => *n as i64,
        IrExpr::Add(l, r) => eval(l) + eval(r),
        IrExpr::Sub(l, r) => eval(l) - eval(r),
        IrExpr::Mul(l, r) => eval(l) * eval(r),
        IrExpr::Div(l, r) => eval(l) / eval(r),
        other => panic!("not arithmetic: {:?}", other),
    }
}

fn leaf(n: i32) -> Box<IrExpr> {
    Box::new(IrExpr::Integer(n))
}

#[test]
fn character_tables() {
    let digits = numeric_digits();
    for c in "0123456789._".chars() {
        assert!(contains_char(&digits, c));
    }
    assert!(!contains_char(&digits, 'a'));
    assert!(!contains_char(&digits, '+'));
    let ws = whitespace_digits();
    assert_eq!(ws.len(), 4);
    assert!(contains_char(&ws, '\n'));
    assert!(!contains_char(&ws, 'x'));
    let ops = operator_digits();
    for c in "+-*/=".chars() {
        assert!(contains_char(&ops, c));
    }
    assert!(!contains_char(&ops, '('));
}

#[test]
fn operator_table_entries() {
    let table = operator_map();
    assert_eq!(table.len(), 5);
    assert_eq!(op(OpKind::Add).precedence, 1);
    assert_eq!(op(OpKind::Sub).precedence, 1);
    assert_eq!(op(OpKind::Mul).precedence, 2);
    assert_eq!(op(OpKind::Div).precedence, 2);
    assert_eq!(op(OpKind::Assign).precedence, 0);
    assert_eq!(op(OpKind::Assign).assoc, Associativity::Right);
    assert_eq!(op(OpKind::Add).assoc, Associativity::Left);
    assert!(table.iter().all(|o| o.n_args == 2));
    assert_eq!(find_operator(&table, &chars("*")), Some(op(OpKind::Mul)));
    assert_eq!(find_operator(&table, &chars("=")), Some(op(OpKind::Assign)));
    assert_eq!(find_operator(&table, &chars("+=")), None);
    assert_eq!(find_operator(&table, &chars("%")), None);
}

#[test]
fn lexes_literals_and_operators() {
    assert_eq!(
        lex_all(" 12_3.4 +5\t*\r\n6"),
        vec![
            num("12_3.4"),
            Token::Operator(op(OpKind::Add)),
            num("5"),
            Token::Operator(op(OpKind::Mul)),
            num("6"),
            Token::EndOfFile,
        ]
    );
}

#[test]
fn numeric_literal_is_maximal_run() {
    let mut lexer = Lexer::new(chars("  \t1_2..3_x"));
    assert_eq!(lexer.next(), Ok(num("1_2..3_")));
    assert_eq!(lexer.next(), Err(LexError::UnexpectedCharacter('x', 10)));
    let mut lexer = Lexer::new(chars("._9"));
    assert_eq!(lexer.next(), Ok(num("._9")));
}

#[test]
fn end_of_input_repeats() {
    let mut lexer = Lexer::new(chars("7 "));
    assert_eq!(lexer.next(), Ok(num("7")));
    assert_eq!(lexer.next(), Ok(Token::EndOfFile));
    assert_eq!(lexer.next(), Ok(Token::EndOfFile));
    assert_eq!(lexer.next(), Ok(Token::EndOfFile));
    let mut empty = Lexer::new(Vec::new());
    assert_eq!(empty.next(), Ok(Token::EndOfFile));
}

#[test]
fn lexing_resumes_from_cursor() {
    let src = "10 * 2 - 3";
    let mut lexer = Lexer::new(chars(src));
    assert_eq!(lexer.next(), Ok(num("10")));
    let mut rest = Vec::new();
    loop {
        let t = lexer.next().unwrap();
        let end = t == Token::EndOfFile;
        rest.push(t);
        if end {
            break;
        }
    }
    assert_eq!(rest, lex_all(" * 2 - 3"));
}

#[test]
fn unexpected_character_reports_position() {
    let mut lexer = Lexer::new(chars("1 $"));
    assert_eq!(lexer.next(), Ok(num("1")));
    assert_eq!(lexer.next(), Err(LexError::UnexpectedCharacter('$', 2)));
    assert_eq!(lexer.next(), Ok(Token::EndOfFile));
}

#[test]
fn trailing_operator_is_emitted() {
    assert_eq!(
        lex_all("1 +"),
        vec![num("1"), Token::Operator(op(OpKind::Add)), Token::EndOfFile]
    );
}

#[test]
fn numbers_parse() {
    assert_eq!(parse_number("1_000"), Some(Expr::Integer(1000)));
    assert_eq!(parse_number("0"), Some(Expr::Integer(0)));
    assert_eq!(parse_number("2147483647"), Some(Expr::Integer(2147483647)));
    assert_eq!(parse_number("2147483648"), None);
    assert_eq!(parse_number("99999999999999999999"), None);
    assert_eq!(parse_number("1.5"), Some(Expr::Float("1.5".to_string())));
    assert_eq!(parse_number("1_0.2_5"), Some(Expr::Float("10.25".to_string())));
    assert_eq!(parse_number("3."), Some(Expr::Float("3.".to_string())));
    assert_eq!(parse_number(".5"), Some(Expr::Float(".5".to_string())));
    assert_eq!(parse_number("1.2.3"), None);
    assert_eq!(parse_number("."), None);
    assert_eq!(parse_number("_"), None);
    assert_eq!(parse_number(""), None);
    assert_eq!(parse_number("1a"), None);
}

#[test]
fn precedence_mul_over_add() {
    let tokens = vec![
        num("1"),
        Token::Operator(op(OpKind::Add)),
        num("2"),
        Token::Operator(op(OpKind::Mul)),
        num("3"),
    ];
    assert_eq!(
        parse_tokens(&tokens),
        Ok(vec![
            Expr::Integer(1),
            Expr::Integer(2),
            Expr::Integer(3),
            Expr::Operator(op(OpKind::Mul)),
            Expr::Operator(op(OpKind::Add)),
            Expr::End,
        ])
    );
}

#[test]
fn precedence_mul_first() {
    let tokens = vec![
        num("1"),
        Token::Operator(op(OpKind::Mul)),
        num("2"),
        Token::Operator(op(OpKind::Add)),
        num("3"),
    ];
    assert_eq!(
        parse_tokens(&tokens),
        Ok(vec![
            Expr::Integer(1),
            Expr::Integer(2),
            Expr::Operator(op(OpKind::Mul)),
            Expr::Integer(3),
            Expr::Operator(op(OpKind::Add)),
            Expr::End,
        ])
    );
}

#[test]
fn left_chains_pop_every_tighter_operator() {
    let tokens = lex_all("1 * 2 / 3 - 4");
    assert_eq!(
        parse_tokens(&tokens),
        Ok(vec![
            Expr::Integer(1),
            Expr::Integer(2),
            Expr::Operator(op(OpKind::Mul)),
            Expr::Integer(3),
            Expr::Operator(op(OpKind::Div)),
            Expr::Integer(4),
            Expr::Operator(op(OpKind::Sub)),
            Expr::End,
        ])
    );
}

#[test]
fn postfix_to_ir_with_exit() {
    let postfix = vec![
        Expr::Integer(1),
        Expr::Integer(2),
        Expr::Integer(3),
        Expr::Operator(op(OpKind::Mul)),
        Expr::Operator(op(OpKind::Add)),
        Expr::End,
    ];
    let nodes = generate(&postfix).unwrap();
    assert_eq!(nodes.len(), 2);
    assert_eq!(nodes[0], IrExpr::Add(leaf(1), Box::new(IrExpr::Mul(leaf(2), leaf(3)))));
    assert_eq!(nodes[1], IrExpr::Exit(0));
}

#[test]
fn assignment_to_store() {
    let tokens = vec![
        Token::Identifier("x".to_string()),
        Token::Operator(op(OpKind::Assign)),
        num("5"),
        Token::EndOfFile,
    ];
    let postfix = parse_tokens(&tokens).unwrap();
    assert_eq!(
        postfix,
        vec![
            Expr::Identifier("x".to_string()),
            Expr::Integer(5),
            Expr::Operator(op(OpKind::Assign)),
            Expr::End,
        ]
    );
    let nodes = generate(&postfix).unwrap();
    assert_eq!(
        nodes[0],
        IrExpr::Store(Box::new(IrExpr::Identifier("x".to_string())), leaf(5))
    );
    assert_eq!(nodes[1], IrExpr::Exit(0));
}

#[test]
fn assignment_groups_right_below_arithmetic() {
    let tokens = vec![
        Token::Identifier("x".to_string()),
        Token::Operator(op(OpKind::Assign)),
        Token::Identifier("y".to_string()),
        Token::Operator(op(OpKind::Assign)),
        num("1"),
        Token::Operator(op(OpKind::Add)),
        num("2"),
    ];
    let nodes = generate(&parse_tokens(&tokens).unwrap()).unwrap();
    assert_eq!(
        nodes[0],
        IrExpr::Store(
            Box::new(IrExpr::Identifier("x".to_string())),
            Box::new(IrExpr::Store(
                Box::new(IrExpr::Identifier("y".to_string())),
                Box::new(IrExpr::Add(leaf(1), leaf(2))),
            )),
        )
    );
}

#[test]
fn trailing_operator_underflows() {
    assert_eq!(
        compile(chars("1 +")).unwrap_err(),
        CompileError::Ir(IRError::StackUnderflow)
    );
}

#[test]
fn assignment_to_literal_is_rejected() {
    assert_eq!(
        compile(chars("1 = 5")).unwrap_err(),
        CompileError::Ir(IRError::InvalidAssignmentTarget)
    );
}

#[test]
fn parse_errors() {
    let tokens = vec![num("1"), Token::Operator(op(OpKind::Add)), num("1.2.3")];
    assert_eq!(parse_tokens(&tokens), Err(ParseError::InvalidNumericLiteral(2)));
    let tokens = vec![Token::LiteralString("s".to_string())];
    assert_eq!(parse_tokens(&tokens), Err(ParseError::UnexpectedToken(0)));
    assert_eq!(
        compile(chars("1 $ 2")).unwrap_err(),
        CompileError::Parse(ParseError::Lex(LexError::UnexpectedCharacter('$', 2)))
    );
}

#[test]
fn parser_reads_source() {
    let mut parser = Parser::new(chars("4 - 1"));
    assert_eq!(parser.parse(), Ok(()));
    assert_eq!(
        parser.output(),
        &vec![
            Expr::Integer(4),
            Expr::Integer(1),
            Expr::Operator(op(OpKind::Sub)),
            Expr::End,
        ]
    );
    let mut bad = Parser::new(chars("4 # 1"));
    assert_eq!(
        bad.parse(),
        Err(ParseError::Lex(LexError::UnexpectedCharacter('#', 2)))
    );
    assert!(bad.output().is_empty());
}

#[test]
fn generator_consumes_stream() {
    let mut ir_gen = IRGen::new(vec![Expr::Float("2.5".to_string()), Expr::End]);
    assert_eq!(ir_gen.gen(), Ok(()));
    assert_eq!(
        ir_gen.output(),
        &vec![IrExpr::Float("2.5".to_string()), IrExpr::Exit(0)]
    );
    let mut failing = IRGen::new(vec![Expr::Integer(1), Expr::Operator(op(OpKind::Div))]);
    assert_eq!(failing.gen(), Err(IRError::StackUnderflow));
    assert!(failing.output().is_empty());
}

#[test]
fn evaluation_matches_standard_precedence() {
    let cases: Vec<(&str, i64)> = vec![
        ("1 + 2 * 3", 7),
        ("8 / 2 - 3 * 2", -2),
        ("1 - 2 - 3", -4),
        ("100 / 10 / 5", 2),
        ("2 * 3 + 4 * 5 - 6 / 2", 23),
        ("42", 42),
    ];
    for (src, expected) in cases {
        let nodes = compile(chars(src)).unwrap();
        assert_eq!(nodes.len(), 2, "{}", src);
        assert_eq!(nodes[1], IrExpr::Exit(0));
        assert_eq!(eval(&nodes[0]), expected, "{}", src);
    }
}

#[test]
fn operator_pops_while_stack_top_yields() {
    let mut stack = vec![op(OpKind::Add), op(OpKind::Mul)];
    let mut output = vec![Expr::Integer(1)];
    parse_operator(op(OpKind::Sub), &mut stack, &mut output);
    assert_eq!(stack, vec![op(OpKind::Sub)]);
    assert_eq!(
        output,
        vec![
            Expr::Integer(1),
            Expr::Operator(op(OpKind::Mul)),
            Expr::Operator(op(OpKind::Add)),
        ]
    );
    let mut stack = vec![op(OpKind::Add)];
    let mut output = Vec::new();
    parse_operator(op(OpKind::Div), &mut stack, &mut output);
    assert_eq!(stack, vec![op(OpKind::Add), op(OpKind::Div)]);
    assert!(output.is_empty());
    let mut stack = vec![op(OpKind::Assign)];
    parse_operator(op(OpKind::Assign), &mut stack, &mut output);
    assert_eq!(stack, vec![op(OpKind::Assign), op(OpKind::Assign)]);
    assert!(output.is_empty());
}

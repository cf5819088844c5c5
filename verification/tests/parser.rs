use flatexpr::ast::expressions::{Expression, ExpressionKind, ExpressionNode};
use flatexpr::ast::statements::Statement;
use flatexpr::lexer::tokenize;
use flatexpr::lexer::tokens::{Token, TokenNode};
use flatexpr::parser::expressions::parse_expr;
use flatexpr::parser::grammar::ParseError;
use flatexpr::parser::precedence::{led_power, nud_power, Precedence};
use flatexpr::parser::statements::parse_stmt;
use flatexpr::parser::{parse, Parser};
use flatexpr::utils::array_page_buffer::ArrayPageBuffer;

fn token(index: u32, token: Token) -> TokenNode {
    TokenNode { index, token }
}

fn scan(text: &str) -> Vec<TokenNode> {
    tokenize(text).expect("the text scans")
}

fn nodes_in(expr: &Expression) -> Vec<ExpressionNode> {
    let mut nodes = Vec::new();
    let mut k = 0;
    while let Some(node) = expr.get(k) {
        nodes.push(*node);
        k += 1;
    }
    nodes
}

/// The nodes of an expression as text: the kind by its first letter, then the
/// offset of the token.
fn spell(expr: &Expression) -> String {
    let mut out = Vec::new();
    for node in nodes_in(expr) {
        let kind = match node.kind {
            ExpressionKind::Literal => "L",
            ExpressionKind::Prefix => "S",
            ExpressionKind::Block => "K",
            ExpressionKind::Binary => "B",
            ExpressionKind::Ternary => "T",
        };
        out.push(format!("{}{}", kind, node.index));
    }
    out.join(" ")
}

fn spell_all(text: &str) -> Vec<String> {
    let statements = parse(scan(text)).expect("the tokens parse");
    statements.iter().map(|s| spell(s.expr())).collect()
}

fn failure(text: &str) -> ParseError {
    parse(scan(text)).err().expect("the parse fails")
}

#[test]
fn powers_are_ordered() {
    assert!(Precedence::Default.rank() < Precedence::Ternary.rank());
    assert!(Precedence::Ternary.rank() < Precedence::Additive.rank());
    assert!(Precedence::Additive.rank() < Precedence::Multiplicative.rank());
    assert!(Precedence::Multiplicative.rank() < Precedence::Unary.rank());
    assert!(Precedence::Unary.rank() < Precedence::Primary.rank());
    assert!(Precedence::Default < Precedence::Primary);
    assert_eq!(Precedence::Default.rank(), 0);
    assert_eq!(Precedence::Ternary.rank(), 1);
    assert_eq!(Precedence::Additive.rank(), 2);
    assert_eq!(Precedence::Multiplicative.rank(), 3);
    assert_eq!(Precedence::Unary.rank(), 4);
    assert_eq!(Precedence::Primary.rank(), 5);
}

#[test]
fn nud_power_of_each_token() {
    assert_eq!(nud_power(&token(0, Token::Number)), Precedence::Primary);
    assert_eq!(nud_power(&token(0, Token::Identifier)), Precedence::Primary);
    assert_eq!(nud_power(&token(0, Token::Plus)), Precedence::Unary);
    assert_eq!(nud_power(&token(0, Token::Minus)), Precedence::Unary);
    for other in [
        Token::String,
        Token::OpenParen,
        Token::CloseParen,
        Token::Semi,
        Token::Question,
        Token::Colon,
        Token::Equal,
        Token::Star,
        Token::Slash,
        Token::Percent,
        Token::Let,
        Token::Const,
        Token::Comment,
        Token::Eol,
        Token::Eof,
    ] {
        assert_eq!(nud_power(&token(0, other)), Precedence::Default);
    }
}

#[test]
fn led_power_of_each_token() {
    assert_eq!(led_power(&token(0, Token::Plus)), Precedence::Additive);
    assert_eq!(led_power(&token(0, Token::Minus)), Precedence::Additive);
    assert_eq!(led_power(&token(0, Token::Star)), Precedence::Multiplicative);
    assert_eq!(led_power(&token(0, Token::Slash)), Precedence::Multiplicative);
    assert_eq!(led_power(&token(0, Token::Percent)), Precedence::Multiplicative);
    assert_eq!(led_power(&token(0, Token::Question)), Precedence::Ternary);
    assert_eq!(led_power(&token(0, Token::Colon)), Precedence::Ternary);
    for other in [
        Token::Number,
        Token::String,
        Token::Identifier,
        Token::OpenParen,
        Token::CloseParen,
        Token::Semi,
        Token::Equal,
        Token::Let,
        Token::Const,
        Token::Comment,
        Token::Eol,
        Token::Eof,
    ] {
        assert_eq!(led_power(&token(0, other)), Precedence::Default);
    }
}

#[test]
fn parser_starts_at_the_first_token() {
    let parser = Parser::new(scan("1 + 2"));
    assert_eq!(parser.index, 0);
    assert!(parser.stmts.is_empty());
    assert_eq!(parser.tokens.len(), 4);
    assert_eq!(parser.peek(), token(0, Token::Number));
    assert!(parser.has_tokens_left());
}

#[test]
fn peek_passes_over_comments_and_line_ends() {
    let parser = Parser::new(vec![
        token(0, Token::Eol),
        token(1, Token::Comment),
        token(5, Token::Eol),
        token(6, Token::Minus),
    ]);
    assert_eq!(parser.peek(), token(6, Token::Minus));
    assert_eq!(parser.index, 0);
}

#[test]
fn peek_past_the_end_is_eof() {
    let parser = Parser::new(vec![]);
    assert_eq!(parser.peek(), token(0, Token::Eof));
    assert!(!parser.has_tokens_left());
    let trailing = Parser::new(vec![token(3, Token::Eol), token(4, Token::Comment)]);
    assert_eq!(trailing.peek(), token(0, Token::Eof));
    assert!(!trailing.has_tokens_left());
}

#[test]
fn next_moves_past_the_token_it_gives() {
    let mut parser = Parser::new(vec![
        token(0, Token::Eol),
        token(1, Token::Number),
        token(2, Token::Plus),
    ]);
    assert_eq!(parser.next(), token(1, Token::Number));
    assert_eq!(parser.index, 2);
    assert_eq!(parser.next(), token(2, Token::Plus));
    assert_eq!(parser.index, 3);
    assert_eq!(parser.next(), token(0, Token::Eof));
    assert_eq!(parser.index, 4);
    assert_eq!(parser.next(), token(0, Token::Eof));
    assert_eq!(parser.index, 5);
}

#[test]
fn prev_is_the_token_before_the_cursor() {
    let mut parser = Parser::new(vec![
        token(0, Token::Number),
        token(1, Token::Eol),
        token(2, Token::Number),
    ]);
    assert_eq!(parser.prev(), token(0, Token::Eof));
    parser.next();
    assert_eq!(parser.prev(), token(0, Token::Number));
    parser.next();
    assert_eq!(parser.prev(), token(2, Token::Number));
    parser.index = 2;
    assert_eq!(parser.prev(), token(1, Token::Eol));
    parser.index = 9;
    assert_eq!(parser.prev(), token(0, Token::Eof));
}

#[test]
fn eat_takes_the_expected_token() {
    let mut parser = Parser::new(vec![token(0, Token::Eol), token(1, Token::Colon)]);
    assert_eq!(parser.eat(Token::Colon), Ok(token(1, Token::Colon)));
    assert_eq!(parser.index, 2);
}

#[test]
fn eat_moves_on_where_the_tokens_have_run_out() {
    let mut parser = Parser::new(vec![token(0, Token::Number), token(1, Token::Eol)]);
    assert_eq!(parser.next(), token(0, Token::Number));
    assert_eq!(parser.index, 1);
    assert_eq!(parser.eat(Token::Eof), Ok(token(0, Token::Eof)));
    assert_eq!(parser.index, 3);
    assert_eq!(parser.eat(Token::Eof), Ok(token(0, Token::Eof)));
    assert_eq!(parser.index, 4);
    assert!(parser.eat(Token::Colon).is_err());
    assert_eq!(parser.index, 5);
    assert_eq!(parser.peek(), token(0, Token::Eof));
    assert!(!parser.has_tokens_left());
}

#[test]
fn eat_reports_the_token_it_found() {
    let mut parser = Parser::new(vec![token(4, Token::Semi)]);
    assert_eq!(
        parser.eat(Token::Colon),
        Err(ParseError { token: token(4, Token::Semi), expected: Some(Token::Colon), too_large: false })
    );
    let mut empty = Parser::new(vec![]);
    assert_eq!(
        empty.eat(Token::Equal),
        Err(ParseError { token: token(0, Token::Eof), expected: Some(Token::Equal), too_large: false })
    );
}

#[test]
fn has_tokens_left_stops_at_eof() {
    let mut parser = Parser::new(vec![
        token(0, Token::Number),
        token(1, Token::Eof),
        token(2, Token::Number),
    ]);
    assert!(parser.has_tokens_left());
    parser.next();
    assert!(!parser.has_tokens_left());
}

#[test]
fn parser_push_keeps_statements_in_order() {
    let mut parser = Parser::new(scan("1"));
    let mut first = ArrayPageBuffer::new();
    first.push(ExpressionNode::new(0, 1, Token::Number, ExpressionKind::Literal));
    parser.push(Statement::Expression { expr: first });
    parser.push(Statement::Variable { expr: ArrayPageBuffer::new(), flags: 1 });
    assert_eq!(parser.stmts.len(), 2);
    assert!(matches!(parser.stmts[0], Statement::Expression { .. }));
    assert!(matches!(parser.stmts[1], Statement::Variable { .. }));
    assert_eq!(parser.index, 0);
}

#[test]
fn sums_group_to_the_left() {
    assert_eq!(spell_all("1 - 2 - 3"), vec!["L0 L4 B2 L8 B6"]);
    assert_eq!(spell_all("1 * 2 / 3 % 4"), vec!["L0 L4 B2 L8 B6 L12 B10"]);
}

#[test]
fn products_bind_tighter_on_either_side() {
    assert_eq!(spell_all("1 * 2 + 3"), vec!["L0 L4 B2 L8 B6"]);
    assert_eq!(spell_all("1 + 2 * 3 - 4"), vec!["L0 L4 L8 B6 B2 L12 B10"]);
}

#[test]
fn sign_binds_tighter_than_product() {
    assert_eq!(spell_all("-1 * 2"), vec!["L1 S0 L5 B3"]);
    assert_eq!(spell_all("1 * -2"), vec!["L0 L5 S4 B2"]);
    assert_eq!(spell_all("- + 1"), vec!["L4 S2 S0"]);
    assert_eq!(spell_all("1 - -2"), vec!["L0 L5 S4 B2"]);
}

#[test]
fn identifier_is_a_literal() {
    assert_eq!(spell_all("a + b1"), vec!["L0 L4 B2"]);
}

#[test]
fn condition_takes_the_whole_sum() {
    assert_eq!(spell_all("1 + 2 ? 3 : 4"), vec!["L12 L8 L0 L4 B2 T6"]);
}

#[test]
fn branches_take_sums() {
    assert_eq!(spell_all("1 ? 2 + 3 : 4 * 5"), vec!["L12 L16 B14 L4 L8 B6 L0 T2"]);
}

#[test]
fn conditionals_chain_to_the_left() {
    assert_eq!(spell_all("1 ? 2 : 3 ? 4 : 5"), vec!["L16 L12 L8 L4 L0 T2 T10"]);
}

#[test]
fn nested_parentheses() {
    assert_eq!(spell_all("((1))"), vec!["L2 K1 K0"]);
    assert_eq!(spell_all("(1) + (2)"), vec!["L1 K0 L7 K6 B4"]);
    assert_eq!(spell_all("-(1 + 2)"), vec!["L2 L6 B4 K1 S0"]);
}

#[test]
fn conditional_in_parentheses_stays_in_its_place() {
    assert_eq!(spell_all("(1 ? 2 : 3)"), vec!["L9 L5 L1 T3 K0"]);
    assert_eq!(spell_all("1 + (2 ? 3 : 4)"), vec!["L0 L13 L9 L5 T7 K4 B2"]);
    assert_eq!(spell_all("1 * (2 ? 3 : 4)"), vec!["L0 L13 L9 L5 T7 K4 B2"]);
    assert_eq!(spell_all("1 ? 2 + (3 ? 4 : 5) : 6"), vec!["L22 L4 L17 L13 L9 T11 K8 B6 L0 T2"]);
    assert_eq!(spell_all("-(1 ? 2 : 3) * 4"), vec!["L10 L6 L2 T4 K1 S0 L15 B13"]);
}

#[test]
fn line_break_ends_a_statement() {
    assert_eq!(spell_all("1 + 2\n3"), vec!["L0 L4 B2", "L6"]);
    assert_eq!(spell_all("1\n\n\n2\n"), vec!["L0", "L4"]);
}

#[test]
fn operator_after_a_line_break_goes_on() {
    assert_eq!(spell_all("1\n+ 2"), vec!["L0 L4 B2"]);
    assert_eq!(spell_all("1 +\n2"), vec!["L0 L4 B2"]);
    assert_eq!(spell_all("1 ?\n2\n: 3"), vec!["L8 L4 L0 T2"]);
}

#[test]
fn semicolon_ends_a_statement() {
    assert_eq!(spell_all("1; 2;3"), vec!["L0", "L3", "L5"]);
    assert_eq!(spell_all("1 + 2;"), vec!["L0 L4 B2"]);
}

#[test]
fn statements_side_by_side() {
    assert_eq!(spell_all("1 2"), vec!["L0", "L2"]);
    assert_eq!(spell_all("1 (2)"), vec!["L0", "L3 K2"]);
}

#[test]
fn comments_are_passed_over() {
    assert_eq!(spell_all("1 /* one */ + /* two */ 2"), vec!["L0 L24 B12"]);
    assert_eq!(spell_all("1 // one\n+ 2"), vec!["L0 L11 B9"]);
    assert_eq!(spell_all("// only"), Vec::<String>::new());
}

#[test]
fn no_tokens_no_statements() {
    assert_eq!(parse(vec![]).map(|s| s.len()), Ok(0));
    assert_eq!(parse(scan("")).map(|s| s.len()), Ok(0));
    assert_eq!(parse(scan("\n\n")).map(|s| s.len()), Ok(0));
}

#[test]
fn tokens_after_eof_are_not_read() {
    let statements = parse(vec![
        token(0, Token::Number),
        token(1, Token::Eof),
        token(2, Token::Plus),
    ])
    .expect("the tokens parse");
    assert_eq!(statements.len(), 1);
    assert_eq!(spell(statements[0].expr()), "L0");
}

#[test]
fn tokens_need_no_eof() {
    let statements = parse(vec![
        token(0, Token::Number),
        token(2, Token::Star),
        token(4, Token::Identifier),
    ])
    .expect("the tokens parse");
    assert_eq!(statements.len(), 1);
    assert_eq!(spell(statements[0].expr()), "L0 L4 B2");
}

#[test]
fn let_declares_a_variable() {
    let statements = parse(scan("let x = 1")).expect("the tokens parse");
    assert_eq!(statements.len(), 1);
    match &statements[0] {
        Statement::Variable { expr, flags } => {
            assert_eq!(*flags, 0);
            assert_eq!(spell(expr), "L8 L4");
        }
        Statement::Expression { .. } => panic!("a declaration was expected"),
    }
    assert!(!statements[0].is_const());
}

#[test]
fn const_sets_the_flag() {
    let statements = parse(scan("const limit = 2 * 3;")).expect("the tokens parse");
    assert_eq!(statements.len(), 1);
    match &statements[0] {
        Statement::Variable { expr, flags } => {
            assert_eq!(*flags, 1);
            assert_eq!(spell(expr), "L14 L18 B16 L6");
        }
        Statement::Expression { .. } => panic!("a declaration was expected"),
    }
    assert!(statements[0].is_const());
}

#[test]
fn declarations_and_expressions_follow_each_other() {
    let statements = parse(scan("let a = 1\nconst b = a\na + b")).expect("the tokens parse");
    assert_eq!(statements.len(), 3);
    assert!(!statements[0].is_const());
    assert!(statements[1].is_const());
    assert!(matches!(statements[2], Statement::Expression { .. }));
    assert_eq!(spell(statements[2].expr()), "L22 L26 B24");
}

#[test]
fn value_with_conditional() {
    assert_eq!(spell_all("let x = 1 ? 2 : 3"), vec!["L16 L12 L8 T10 L4"]);
}

#[test]
fn expression_cannot_start_with_an_infix_operator() {
    assert_eq!(failure("* 2"), ParseError { token: token(0, Token::Star), expected: None, too_large: false });
    assert_eq!(failure(")"), ParseError { token: token(0, Token::CloseParen), expected: None, too_large: false });
    assert_eq!(failure("= 1"), ParseError { token: token(0, Token::Equal), expected: None, too_large: false });
    assert_eq!(failure("\"s\""), ParseError { token: token(0, Token::String), expected: None, too_large: false });
}

#[test]
fn operand_is_missing() {
    assert_eq!(failure("1 +"), ParseError { token: token(3, Token::Eof), expected: None, too_large: false });
    assert_eq!(failure("1 + ;"), ParseError { token: token(4, Token::Semi), expected: None, too_large: false });
    assert_eq!(failure("1 * )"), ParseError { token: token(4, Token::CloseParen), expected: None, too_large: false });
    assert_eq!(failure("()"), ParseError { token: token(1, Token::CloseParen), expected: None, too_large: false });
}

#[test]
fn closing_parenthesis_is_missing() {
    assert_eq!(
        failure("(1 + 2"),
        ParseError { token: token(6, Token::Eof), expected: Some(Token::CloseParen), too_large: false }
    );
    assert_eq!(
        failure("(1 2)"),
        ParseError { token: token(3, Token::Number), expected: Some(Token::CloseParen), too_large: false }
    );
}

#[test]
fn colon_is_missing() {
    assert_eq!(
        failure("1 ? 2"),
        ParseError { token: token(5, Token::Eof), expected: Some(Token::Colon), too_large: false }
    );
    assert_eq!(
        failure("1 ? 2 ; 3"),
        ParseError { token: token(6, Token::Semi), expected: Some(Token::Colon), too_large: false }
    );
}

#[test]
fn colon_without_question_mark() {
    assert_eq!(failure("1 : 2"), ParseError { token: token(2, Token::Colon), expected: None, too_large: false });
}

#[test]
fn equals_sign_is_missing() {
    assert_eq!(
        failure("let x 1"),
        ParseError { token: token(6, Token::Number), expected: Some(Token::Equal), too_large: false }
    );
    assert_eq!(failure("let = 1"), ParseError { token: token(4, Token::Equal), expected: None, too_large: false });
    assert_eq!(failure("let x ="), ParseError { token: token(7, Token::Eof), expected: None, too_large: false });
}

#[test]
fn first_error_stops_the_parse() {
    assert_eq!(failure("1 + 2\n* 3\n)"), ParseError { token: token(10, Token::CloseParen), expected: None, too_large: false });
    assert_eq!(failure("1;;2"), ParseError { token: token(2, Token::Semi), expected: None, too_large: false });
}

#[test]
fn parse_expr_adds_behind_what_the_buffer_holds() {
    let mut parser = Parser::new(scan("2 * 3"));
    let mut expr = ArrayPageBuffer::new();
    expr.push(ExpressionNode::new(90, 1, Token::Number, ExpressionKind::Literal));
    assert_eq!(parse_expr(&mut parser, &mut expr, Precedence::Default), Ok(()));
    assert_eq!(spell(&expr), "L90 L0 L4 B2");
    assert_eq!(parser.index, 3);
}

#[test]
fn parse_expr_puts_branches_before_what_the_buffer_holds() {
    let mut parser = Parser::new(scan("1 ? 2 : 3"));
    let mut expr = ArrayPageBuffer::new();
    expr.push(ExpressionNode::new(90, 1, Token::Number, ExpressionKind::Literal));
    assert_eq!(parse_expr(&mut parser, &mut expr, Precedence::Default), Ok(()));
    assert_eq!(spell(&expr), "L8 L4 L90 L0 T2");
    assert_eq!(expr.start_index(), -2);
    assert_eq!(expr.end_index(), 3);
}

#[test]
fn parse_expr_stops_at_a_looser_operator() {
    let mut parser = Parser::new(scan("1 * 2 + 3"));
    let mut expr = ArrayPageBuffer::new();
    assert_eq!(parse_expr(&mut parser, &mut expr, Precedence::Additive), Ok(()));
    assert_eq!(spell(&expr), "L0 L4 B2");
    assert_eq!(parser.index, 3);
    assert_eq!(parser.peek(), token(6, Token::Plus));
}

#[test]
fn parse_expr_at_the_tightest_power_takes_one_operand() {
    let mut parser = Parser::new(scan("1 * 2"));
    let mut expr = ArrayPageBuffer::new();
    assert_eq!(parse_expr(&mut parser, &mut expr, Precedence::Primary), Ok(()));
    assert_eq!(spell(&expr), "L0");
    assert_eq!(parser.index, 1);
}

#[test]
fn parse_expr_reports_the_offending_token() {
    let mut parser = Parser::new(scan("1 + let"));
    let mut expr = ArrayPageBuffer::new();
    assert_eq!(
        parse_expr(&mut parser, &mut expr, Precedence::Default),
        Err(ParseError { token: token(4, Token::Let), expected: None, too_large: false })
    );
}

#[test]
fn parse_stmt_takes_one_statement() {
    let mut parser = Parser::new(scan("1 + 2; 3"));
    let statement = parse_stmt(&mut parser).ok().expect("the statement parses");
    assert_eq!(spell(statement.expr()), "L0 L4 B2");
    assert_eq!(parser.index, 4);
    let statement = parse_stmt(&mut parser).ok().expect("the statement parses");
    assert_eq!(spell(statement.expr()), "L7");
    assert!(!parser.has_tokens_left());
}

#[test]
fn parse_stmt_error() {
    let mut parser = Parser::new(scan("const = 1"));
    assert_eq!(
        parse_stmt(&mut parser).err(),
        Some(ParseError { token: token(6, Token::Equal), expected: None, too_large: false })
    );
}

#[test]
fn long_sum_parses() {
    let mut text = String::from("1");
    for _ in 0..3000 {
        text.push_str(" + 1");
    }
    let statements = parse(scan(&text)).expect("the tokens parse");
    assert_eq!(statements.len(), 1);
    assert_eq!(statements[0].expr().len(), 6001);
    let nodes = nodes_in(statements[0].expr());
    assert_eq!(nodes[0].kind, ExpressionKind::Literal);
    assert_eq!(nodes[1].kind, ExpressionKind::Literal);
    assert_eq!(nodes[2].kind, ExpressionKind::Binary);
    assert_eq!(nodes[6000].kind, ExpressionKind::Binary);
}

fn sum_of(literals: usize) -> Vec<TokenNode> {
    let mut tokens = Vec::new();
    for k in 0..literals {
        if k > 0 {
            tokens.push(token(2 * k as u32 - 1, Token::Plus));
        }
        tokens.push(token(2 * k as u32, Token::Number));
    }
    tokens
}

#[test]
fn expression_of_the_greatest_size_parses() {
    let statements = parse(sum_of(32768)).expect("the tokens parse");
    assert_eq!(statements.len(), 1);
    assert_eq!(statements[0].expr().len(), 65535);
}

#[test]
fn operator_that_closes_too_large_an_expression_is_an_error() {
    // the operator before the last literal would close 65537 nodes
    assert_eq!(
        parse(sum_of(32769)).err(),
        Some(ParseError { token: token(65535, Token::Plus), expected: None, too_large: true })
    );
}

#[test]
fn block_that_closes_too_large_an_expression_is_an_error() {
    let mut tokens = vec![token(0, Token::OpenParen)];
    for node in sum_of(32768) {
        tokens.push(token(node.index + 1, node.token));
    }
    tokens.push(token(70000, Token::CloseParen));
    assert_eq!(
        parse(tokens).err(),
        Some(ParseError { token: token(0, Token::OpenParen), expected: None, too_large: true })
    );
}

#[test]
fn nodes_that_the_buffer_holds_count_for_the_size() {
    let mut parser = Parser::new(scan("-1"));
    let mut expr = ArrayPageBuffer::new();
    for k in 0..65534 {
        expr.push(ExpressionNode::new(k, 1, Token::Number, ExpressionKind::Literal));
    }
    assert_eq!(
        parse_expr(&mut parser, &mut expr, Precedence::Default),
        Err(ParseError { token: token(0, Token::Minus), expected: None, too_large: true })
    );
    let mut parser = Parser::new(scan("-1"));
    let mut expr = ArrayPageBuffer::new();
    for k in 0..65533 {
        expr.push(ExpressionNode::new(k, 1, Token::Number, ExpressionKind::Literal));
    }
    assert_eq!(parse_expr(&mut parser, &mut expr, Precedence::Default), Ok(()));
    assert_eq!(expr.len(), 65535);
}

#[test]
fn sizes_inside_parentheses_start_anew() {
    let mut parser = Parser::new(scan("(-1)"));
    let mut expr = ArrayPageBuffer::new();
    for k in 0..65532 {
        expr.push(ExpressionNode::new(k, 1, Token::Number, ExpressionKind::Literal));
    }
    assert_eq!(parse_expr(&mut parser, &mut expr, Precedence::Default), Ok(()));
    assert_eq!(expr.len(), 65535);
}

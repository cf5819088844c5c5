use flatexpr::lexer::handlers;
use flatexpr::lexer::handlers::{end_of_line, identifier, skip};
use flatexpr::lexer::pattern::{starts_with, Pattern, PatternType, Rule, RULES};
use flatexpr::lexer::tokens::{Token, TokenNode};
use flatexpr::lexer::{tokenize, LexError, Lexer};

fn kinds(text: &str) -> Vec<Token> {
    tokenize(text).expect("the text scans").iter().map(|node| node.token).collect()
}

fn node(index: u32, token: Token) -> TokenNode {
    TokenNode { index, token }
}

#[test]
fn empty_text_gives_eof_alone() {
    assert_eq!(tokenize(""), Ok(vec![node(0, Token::Eof)]));
}

#[test]
fn tokens_carry_their_offsets() {
    assert_eq!(
        tokenize("2 + 3 * 4"),
        Ok(vec![
            node(0, Token::Number),
            node(2, Token::Plus),
            node(4, Token::Number),
            node(6, Token::Star),
            node(8, Token::Number),
            node(9, Token::Eof),
        ])
    );
}

#[test]
fn every_punctuator_and_operator() {
    assert_eq!(
        kinds("( ) ; ? : = + - * / %"),
        vec![
            Token::OpenParen,
            Token::CloseParen,
            Token::Semi,
            Token::Question,
            Token::Colon,
            Token::Equal,
            Token::Plus,
            Token::Minus,
            Token::Star,
            Token::Slash,
            Token::Percent,
            Token::Eof,
        ]
    );
}

#[test]
fn keywords_are_told_from_identifiers() {
    assert_eq!(
        kinds("let const letter constant _let x1"),
        vec![
            Token::Let,
            Token::Const,
            Token::Identifier,
            Token::Identifier,
            Token::Identifier,
            Token::Identifier,
            Token::Eof,
        ]
    );
}

#[test]
fn numbers_take_underscores_and_a_fraction() {
    assert_eq!(
        tokenize("1_000.25 7."),
        Ok(vec![node(0, Token::Number), node(9, Token::Number), node(11, Token::Eof)])
    );
}

#[test]
fn strings_run_to_the_closing_quote() {
    assert_eq!(
        tokenize("\"a b\" \"\""),
        Ok(vec![node(0, Token::String), node(6, Token::String), node(8, Token::Eof)])
    );
}

#[test]
fn line_comment_leaves_comment_and_line_end() {
    assert_eq!(
        tokenize("1 // one\n2"),
        Ok(vec![
            node(0, Token::Number),
            node(2, Token::Comment),
            node(2, Token::Eol),
            node(9, Token::Number),
            node(10, Token::Eof),
        ])
    );
}

#[test]
fn line_comment_at_the_end_of_the_text() {
    assert_eq!(
        tokenize("// done"),
        Ok(vec![node(0, Token::Comment), node(0, Token::Eol), node(7, Token::Eof)])
    );
}

#[test]
fn block_comment_spans_lines() {
    assert_eq!(
        tokenize("1 /* a\nb */ 2"),
        Ok(vec![
            node(0, Token::Number),
            node(2, Token::Comment),
            node(12, Token::Number),
            node(13, Token::Eof),
        ])
    );
}

#[test]
fn block_comment_ends_at_the_first_close() {
    assert_eq!(
        kinds("/* a */ 1 /* b */"),
        vec![Token::Comment, Token::Number, Token::Comment, Token::Eof]
    );
}

#[test]
fn line_breaks_collapse_into_one_line_end() {
    assert_eq!(
        tokenize("1\n\n\r\n2"),
        Ok(vec![
            node(0, Token::Number),
            node(1, Token::Eol),
            node(5, Token::Number),
            node(6, Token::Eof),
        ])
    );
}

#[test]
fn line_breaks_apart_give_one_line_end() {
    assert_eq!(kinds("1\n  \n2"), vec![Token::Number, Token::Eol, Token::Number, Token::Eof]);
}

#[test]
fn line_break_after_line_comment_is_passed_over() {
    assert_eq!(
        kinds("// a\n\n1"),
        vec![Token::Comment, Token::Eol, Token::Number, Token::Eof]
    );
}

#[test]
fn blanks_leave_no_token() {
    assert_eq!(kinds(" \t 1 \t "), vec![Token::Number, Token::Eof]);
}

#[test]
fn slash_is_an_operator_where_no_comment_starts() {
    assert_eq!(kinds("1 / 2"), vec![Token::Number, Token::Slash, Token::Number, Token::Eof]);
}

#[test]
fn text_that_no_pattern_matches_is_an_error() {
    assert_eq!(tokenize("1 @ 2"), Err(LexError { index: 2 }));
    assert_eq!(tokenize("#"), Err(LexError { index: 0 }));
    assert_eq!(tokenize("\"open"), Err(LexError { index: 0 }));
}

#[test]
fn offsets_count_bytes() {
    assert_eq!(
        tokenize("\"é\" 1"),
        Ok(vec![node(0, Token::String), node(5, Token::Number), node(6, Token::Eof)])
    );
}

#[test]
fn skip_moves_the_index_only() {
    let mut lexer = Lexer::new();
    skip(&mut lexer, 3);
    assert_eq!(lexer.index, 3);
    assert!(lexer.tokens.is_empty());
    skip(&mut lexer, 0);
    assert_eq!(lexer.index, 3);
}

#[test]
fn default_emits_and_moves() {
    let mut lexer = Lexer::new();
    handlers::default(&mut lexer, b"12", Token::Number, 7);
    assert_eq!(lexer.index, 2);
    assert_eq!(lexer.tokens, vec![node(7, Token::Number)]);
}

#[test]
fn identifier_knows_the_keywords() {
    let mut lexer = Lexer::new();
    identifier(&mut lexer, b"let", 0);
    identifier(&mut lexer, b"const", 4);
    identifier(&mut lexer, b"lets", 10);
    identifier(&mut lexer, b"le", 15);
    identifier(&mut lexer, b"Let", 18);
    assert_eq!(
        lexer.tokens,
        vec![
            node(0, Token::Let),
            node(4, Token::Const),
            node(10, Token::Identifier),
            node(15, Token::Identifier),
            node(18, Token::Identifier),
        ]
    );
    assert_eq!(lexer.index, 17);
}

#[test]
fn end_of_line_emits_once() {
    let mut lexer = Lexer::new();
    end_of_line(&mut lexer, b"\n", 0);
    assert_eq!(lexer.tokens, vec![node(0, Token::Eol)]);
    assert_eq!(lexer.index, 1);
    end_of_line(&mut lexer, b"\n\n", 1);
    assert_eq!(lexer.tokens, vec![node(0, Token::Eol)]);
    assert_eq!(lexer.index, 3);
    handlers::default(&mut lexer, b"1", Token::Number, 3);
    end_of_line(&mut lexer, b"\n", 4);
    assert_eq!(
        lexer.tokens,
        vec![node(0, Token::Eol), node(3, Token::Number), node(4, Token::Eol)]
    );
}

#[test]
fn lexer_starts_empty() {
    let lexer = Lexer::new();
    assert_eq!(lexer.index, 0);
    assert!(lexer.tokens.is_empty());
    assert_eq!(lexer.last_type(), None);
}

#[test]
fn lexer_push_and_advance() {
    let mut lexer = Lexer::new();
    lexer.push(node(0, Token::Plus));
    assert_eq!(lexer.last_type(), Some(Token::Plus));
    assert_eq!(lexer.index, 0);
    lexer.advance(5);
    assert_eq!(lexer.index, 5);
    lexer.push(node(5, Token::Eol));
    assert_eq!(lexer.last_type(), Some(Token::Eol));
}

#[test]
fn starts_with_compares_bytes() {
    assert!(starts_with(b"let x", b"let"));
    assert!(starts_with(b"let", b"let"));
    assert!(starts_with(b"let", b""));
    assert!(starts_with(b"", b""));
    assert!(!starts_with(b"le", b"let"));
    assert!(!starts_with(b"lot", b"let"));
    assert!(!starts_with(b"", b"l"));
}

#[test]
fn string_pattern_matches_at_the_start_only() {
    let plus = PatternType::String("+");
    assert_eq!(plus.find(b"+ 1"), Some(&b"+"[..]));
    assert_eq!(plus.find(b"1 +"), None);
    assert_eq!(plus.find(b""), None);
}

#[test]
fn regex_pattern_gives_the_matched_text() {
    let word = PatternType::regex(r"^[a-z]+");
    assert_eq!(word.find(b"abc def"), Some(&b"abc"[..]));
    assert_eq!(word.find(b"1 abc"), None);
    let anywhere = PatternType::regex(r"[0-9]+");
    assert_eq!(anywhere.find(b"ab 12 cd"), Some(&b"12"[..]));
}

#[test]
fn regex_that_does_not_compile_matches_nothing() {
    let broken = PatternType::regex("(");
    assert_eq!(broken.find(b"("), None);
}

#[test]
fn rules_are_tried_in_order() {
    let patterns = Pattern::new();
    assert_eq!(RULES, 18);
    assert_eq!(patterns.rule(0).1, Rule::LineComment);
    assert_eq!(patterns.rule(1).1, Rule::Emit(Token::Comment));
    assert_eq!(patterns.rule(2).1, Rule::Emit(Token::String));
    assert_eq!(patterns.rule(3).1, Rule::Word);
    assert_eq!(patterns.rule(4).1, Rule::Emit(Token::Number));
    assert_eq!(patterns.rule(11).1, Rule::Emit(Token::Slash));
    assert_eq!(patterns.rule(13).1, Rule::LineEnd);
    assert_eq!(patterns.rule(17).1, Rule::Blank);
}

#[test]
fn first_hit_prefers_the_earlier_rule() {
    let patterns = Pattern::new();
    assert_eq!(patterns.first_hit(b"// x\n1"), Some((Rule::LineComment, &b"// x\n"[..])));
    assert_eq!(patterns.first_hit(b"/ 2"), Some((Rule::Emit(Token::Slash), &b"/"[..])));
    assert_eq!(patterns.first_hit(b"let x"), Some((Rule::Word, &b"let"[..])));
    assert_eq!(patterns.first_hit(b"12ab"), Some((Rule::Emit(Token::Number), &b"12"[..])));
    assert_eq!(patterns.first_hit(b"  x"), Some((Rule::Blank, &b"  "[..])));
    assert_eq!(patterns.first_hit(b"\r\n\n1"), Some((Rule::LineEnd, &b"\r\n\n"[..])));
    assert_eq!(patterns.first_hit(b"@"), None);
    assert_eq!(patterns.first_hit(b""), None);
}

#[test]
fn first_hit_passes_over_empty_matches() {
    let mut patterns = Pattern::new();
    patterns.single_line_comment = PatternType::regex("^a*");
    assert_eq!(patterns.first_hit(b"+"), Some((Rule::Emit(Token::Plus), &b"+"[..])));
    assert_eq!(patterns.first_hit(b"aa+"), Some((Rule::LineComment, &b"aa"[..])));
}

#[test]
fn trivia_are_comments_and_line_ends() {
    assert!(Token::Eol.is_trivia());
    assert!(Token::Comment.is_trivia());
    assert!(!Token::Eof.is_trivia());
    assert!(!Token::Semi.is_trivia());
    assert!(!Token::Number.is_trivia());
}

#[test]
fn streams_end_with_one_eof_and_hold_no_double_line_end() {
    let texts = [
        "",
        "\n",
        "\n\n// a\n\n\n// b\n\n1\n\n",
        "let x = 1 // one\n\n\nconst y = (x ? 2 : 3) % 4;\n/* c */\n\n",
        "1\r\n\r\n2\n \n \n3",
    ];
    for text in texts {
        let tokens = tokenize(text).expect("the text scans");
        let last = tokens.last().expect("a stream is never empty");
        assert_eq!(*last, node(text.len() as u32, Token::Eof));
        assert_eq!(tokens.iter().filter(|t| t.token == Token::Eof).count(), 1);
        for pair in tokens.windows(2) {
            assert!(!(pair[0].token == Token::Eol && pair[1].token == Token::Eol));
            assert!(pair[0].index <= pair[1].index);
        }
    }
}

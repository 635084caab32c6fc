use expr_lexer::lexer::{Lexer, Token};

fn lex(source: &str) -> Vec<Token> {
    let mut lexer = Lexer::new(source);
    lexer.tokenize()
}

fn id(name: &str) -> Token {
    Token::Id(name.to_string())
}

#[test]
fn test_arithmetic() {
    let mut lexer = Lexer::new("10 +2*(3-4)/5");
    let tokens = lexer.tokenize();
    assert_eq!(
        tokens,
        vec![
            Token::Number(10),
            Token::Plus,
            Token::Number(2),
            Token::Multiply,
            Token::Lparen,
            Token::Number(3),
            Token::Minus,
            Token::Number(4),
            Token::Rparen,
            Token::Divide,
            Token::Number(5),
        ]
    );
}

#[test]
fn test_assignment() {
    let mut lexer = Lexer::new("myVar = 10");
    let tokens = lexer.tokenize();
    assert_eq!(
        tokens,
        vec![Token::Id("myVar".to_string()), Token::Assign, Token::Number(10)]
    );

    let mut lexer = Lexer::new("myVar1 = 100");
    let tokens = lexer.tokenize();
    assert_eq!(
        tokens,
        vec![Token::Id("myVar1".to_string()), Token::Assign, Token::Number(100)]
    );
}

#[test]
fn test_if() {
    let mut lexer = Lexer::new("if x = 10");
    let tokens = lexer.tokenize();
    assert_eq!(
        tokens,
        vec![Token::If, Token::Id("x".to_string()), Token::Assign, Token::Number(10)]
    );

    let mut lexer = Lexer::new("ifx = 10");
    let tokens = lexer.tokenize();
    assert_eq!(
        tokens,
        vec![Token::Id("ifx".to_string()), Token::Assign, Token::Number(10)]
    );
}

#[test]
fn test_equals() {
    let mut lexer = Lexer::new("if x == 10");
    let tokens = lexer.tokenize();
    assert_eq!(
        tokens,
        vec![Token::If, Token::Id("x".to_string()), Token::Equals, Token::Number(10)]
    );

    let mut lexer = Lexer::new("x === 10");
    let tokens = lexer.tokenize();
    assert_eq!(
        tokens,
        vec![Token::Id("x".to_string()), Token::Equals, Token::Assign, Token::Number(10)]
    );
}

#[test]
fn test_if_else() {
    let mut lexer = Lexer::new("if x ==10 { y = 20 } else { y = 30 }");
    let tokens = lexer.tokenize();
    assert_eq!(
        tokens,
        vec![
            Token::If,
            Token::Id("x".to_string()),
            Token::Equals,
            Token::Number(10),
            Token::CurlyL,
            Token::Id("y".to_string()),
            Token::Assign,
            Token::Number(20),
            Token::CurlyR,
            Token::Else,
            Token::CurlyL,
            Token::Id("y".to_string()),
            Token::Assign,
            Token::Number(30),
            Token::CurlyR,
        ]
    );
}

#[test]
fn test_boolean_logic() {
    let mut lexer = Lexer::new("if x < 10 && y > 20 || z == 30");
    let tokens = lexer.tokenize();
    assert_eq!(
        tokens,
        vec![
            Token::If,
            Token::Id("x".to_string()),
            Token::SmallerThan,
            Token::Number(10),
            Token::And,
            Token::Id("y".to_string()),
            Token::GreaterThan,
            Token::Number(20),
            Token::Or,
            Token::Id("z".to_string()),
            Token::Equals,
            Token::Number(30),
        ]
    );
}

#[test]
fn digits_only_is_one_number() {
    assert_eq!(lex("10"), vec![Token::Number(10)]);
    assert_eq!(lex("100"), vec![Token::Number(100)]);
    assert_eq!(lex("0"), vec![Token::Number(0)]);
    assert_eq!(lex("007"), vec![Token::Number(7)]);
    assert_eq!(lex("2147483647"), vec![Token::Number(i32::MAX)]);
}

#[test]
fn numbers_past_i32_saturate() {
    assert_eq!(lex("2147483648"), vec![Token::Number(i32::MAX)]);
    assert_eq!(lex("99999999999999999999"), vec![Token::Number(i32::MAX)]);
}

#[test]
fn fresh_lexers_agree() {
    let source = "if x <= 10 { y = x1 } else { y = !z }";
    assert_eq!(lex(source), lex(source));
}

#[test]
fn empty_source_has_no_tokens() {
    assert_eq!(lex(""), vec![]);
    assert_eq!(lex("    "), vec![]);
}

#[test]
fn every_operator() {
    assert_eq!(
        lex("+ - * / ( ) { } ! = == < <= > >= && ||"),
        vec![
            Token::Plus,
            Token::Minus,
            Token::Multiply,
            Token::Divide,
            Token::Lparen,
            Token::Rparen,
            Token::CurlyL,
            Token::CurlyR,
            Token::Not,
            Token::Assign,
            Token::Equals,
            Token::SmallerThan,
            Token::SmallerEquals,
            Token::GreaterThan,
            Token::GreaterEquals,
            Token::And,
            Token::Or,
        ]
    );
}

#[test]
fn operators_without_spaces() {
    assert_eq!(
        lex("a<=b>=c<d>e!f"),
        vec![
            id("a"),
            Token::SmallerEquals,
            id("b"),
            Token::GreaterEquals,
            id("c"),
            Token::SmallerThan,
            id("d"),
            Token::GreaterThan,
            id("e"),
            Token::Not,
            id("f"),
        ]
    );
}

#[test]
fn keywords_need_the_whole_name() {
    assert_eq!(lex("else"), vec![Token::Else]);
    assert_eq!(lex("elsex"), vec![id("elsex")]);
    assert_eq!(lex("els"), vec![id("els")]);
    assert_eq!(lex("i"), vec![id("i")]);
    assert_eq!(lex("if1"), vec![id("if1")]);
}

#[test]
fn names_take_digits_and_capitals_after_the_first_letter() {
    assert_eq!(lex("aB9c 5"), vec![id("aB9c"), Token::Number(5)]);
    assert_eq!(lex("x\u{e9}1"), vec![id("x\u{e9}1")]);
}

#[test]
fn number_then_name() {
    assert_eq!(lex("12ab"), vec![Token::Number(12), id("ab")]);
}

#[test]
fn lone_ampersand_or_bar_stops_the_scan() {
    assert_eq!(lex("a & b"), vec![id("a")]);
    assert_eq!(lex("a | b"), vec![id("a")]);
    assert_eq!(lex("1 &"), vec![Token::Number(1)]);
}

#[test]
fn unknown_characters_stop_the_scan() {
    assert_eq!(lex("Abc"), vec![]);
    assert_eq!(lex("x\ty"), vec![id("x")]);
    assert_eq!(lex("1\n2"), vec![Token::Number(1)]);
    assert_eq!(lex("x = 3 ; y"), vec![id("x"), Token::Assign, Token::Number(3)]);
}

#[test]
fn a_second_tokenize_continues_after_the_stop() {
    let mut lexer = Lexer::new("a # b c");
    assert_eq!(lexer.tokenize(), vec![id("a")]);
    assert_eq!(lexer.tokenize(), vec![id("b"), id("c")]);
    assert_eq!(lexer.tokenize(), vec![]);
}

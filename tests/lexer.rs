use flae::lexer::Lexer;
use flae::token::Token;

#[test]
fn test_next_token() {
    let input = "=+(),;";

    let expected = vec![
        Token::Assign,
        Token::Plus,
        Token::LParen,
        Token::RParen,
        Token::Comma,
        Token::Semicolon,
    ];

    let mut lexer = Lexer::new(input);

    let mut result = Vec::new();
    while let Some(token) = lexer.next_token() {
        result.push(token);
    }

    assert_eq!(result, expected);
}

#[test]
fn more_complex() {
    let input = "let five = 5;
    let ten = 10;
    
    let add a b = a + b;#

    let result = add five ten;

    !+-*/5;
    5 < 10 > 5;

    4 == 4 != 5;
    3 <= 4 >= 4;

    if 5 < 10
    then
        return true;
    else
        return false;
    ";

    let expected = vec![
        Token::Let,
        Token::Ident("five".into()),
        Token::Assign,
        Token::Int("5".into()),
        Token::Semicolon,
        Token::Let,
        Token::Ident("ten".into()),
        Token::Assign,
        Token::Int("10".into()),
        Token::Semicolon,
        Token::Let,
        Token::Ident("add".into()),
        Token::Ident("a".into()),
        Token::Ident("b".into()),
        Token::Assign,
        Token::Ident("a".into()),
        Token::Plus,
        Token::Ident("b".into()),
        Token::Semicolon,
        Token::Hash,
        Token::Let,
        Token::Ident("result".into()),
        Token::Assign,
        Token::Ident("add".into()),
        Token::Ident("five".into()),
        Token::Ident("ten".into()),
        Token::Semicolon,
        Token::Bang,
        Token::Plus,
        Token::Minus,
        Token::Asterisk,
        Token::Slash,
        Token::Int("5".into()),
        Token::Semicolon,
        Token::Int("5".into()),
        Token::LessThan,
        Token::Int("10".into()),
        Token::GreaterThan,
        Token::Int("5".into()),
        Token::Semicolon,
        Token::Int("4".into()),
        Token::Equal,
        Token::Int("4".into()),
        Token::NotEqual,
        Token::Int("5".into()),
        Token::Semicolon,
        Token::Int("3".into()),
        Token::LessOrEqual,
        Token::Int("4".into()),
        Token::GreaterOrEqual,
        Token::Int("4".into()),
        Token::Semicolon,
        Token::If,
        Token::Int("5".into()),
        Token::LessThan,
        Token::Int("10".into()),
        Token::Then,
        Token::Return,
        Token::True,
        Token::Semicolon,
        Token::Else,
        Token::Return,
        Token::False,
        Token::Semicolon,
    ];

    let mut lexer = Lexer::new(input);

    let mut result = Vec::new();
    while let Some(token) = lexer.next_token() {
        result.push(token);
    }

    assert_eq!(result, expected);
}

fn lex_all(input: &str) -> Vec<Token> {
    let mut lexer = Lexer::new(input);
    let mut result = Vec::new();
    while let Some(token) = lexer.next_token() {
        result.push(token);
    }
    result
}

#[test]
fn identifier_runs_are_one_token() {
    assert_eq!(
        lex_all("foo_bar1 _x9 lets returned"),
        vec![
            Token::Ident("foo_bar1".into()),
            Token::Ident("_x9".into()),
            Token::Ident("lets".into()),
            Token::Ident("returned".into()),
        ]
    );
}

#[test]
fn keywords_are_recognized() {
    assert_eq!(
        lex_all("let true false if then else return"),
        vec![
            Token::Let,
            Token::True,
            Token::False,
            Token::If,
            Token::Then,
            Token::Else,
            Token::Return,
        ]
    );
}

#[test]
fn identifier_takes_unicode_letters_and_digits() {
    assert_eq!(lex_all("abé9 x"), vec![Token::Ident("abé9".into()), Token::Ident("x".into())]);
}

#[test]
fn digit_runs_are_one_token_verbatim() {
    assert_eq!(
        lex_all("007 123456789012345678901234567890;42"),
        vec![
            Token::Int("007".into()),
            Token::Int("123456789012345678901234567890".into()),
            Token::Semicolon,
            Token::Int("42".into()),
        ]
    );
}

#[test]
fn digit_run_then_identifier() {
    assert_eq!(lex_all("5abc"), vec![Token::Int("5".into()), Token::Ident("abc".into())]);
}

#[test]
fn numeric_run_takes_unicode_numerals() {
    assert_eq!(lex_all("5\u{b2} 1"), vec![Token::Int("5".into())]);
    assert_eq!(lex_all("5\u{bd}"), vec![Token::Int("5".into())]);
}

#[test]
fn identifier_stops_at_non_letter_numerals() {
    assert_eq!(lex_all("a\u{bd} b"), vec![Token::Ident("a".into())]);
}

#[test]
fn two_char_operators_are_greedy() {
    assert_eq!(lex_all("=="), vec![Token::Equal]);
    assert_eq!(lex_all("!="), vec![Token::NotEqual]);
    assert_eq!(lex_all("<="), vec![Token::LessOrEqual]);
    assert_eq!(lex_all(">="), vec![Token::GreaterOrEqual]);
    assert_eq!(lex_all("==="), vec![Token::Equal, Token::Assign]);
    assert_eq!(lex_all("= ="), vec![Token::Assign, Token::Assign]);
}

#[test]
fn one_char_operators_at_end_of_input() {
    assert_eq!(
        lex_all("! < > ="),
        vec![Token::Bang, Token::LessThan, Token::GreaterThan, Token::Assign]
    );
}

#[test]
fn all_single_char_tokens() {
    assert_eq!(
        lex_all("+-*/,;#()"),
        vec![
            Token::Plus,
            Token::Minus,
            Token::Asterisk,
            Token::Slash,
            Token::Comma,
            Token::Semicolon,
            Token::Hash,
            Token::LParen,
            Token::RParen,
        ]
    );
}

#[test]
fn whitespace_is_skipped() {
    assert_eq!(lex_all(" \t\r\n a \n"), vec![Token::Ident("a".into())]);
}

#[test]
fn unrecognized_character_ends_the_stream() {
    let mut lexer = Lexer::new("a @ b");
    assert_eq!(lexer.next_token(), Some(Token::Ident("a".into())));
    assert_eq!(lexer.next_token(), None);
    assert_eq!(lexer.next_token(), None);
    assert_eq!(lex_all("x\0y"), vec![Token::Ident("x".into())]);
}

#[test]
fn exhausted_lexer_keeps_returning_none() {
    let mut lexer = Lexer::new("1");
    assert_eq!(lexer.next_token(), Some(Token::Int("1".into())));
    assert_eq!(lexer.next_token(), None);
    assert_eq!(lexer.next_token(), None);
}

#[test]
fn relexing_gives_the_same_tokens() {
    let input = "let add a b = 8; x >= 10 # (y)";
    let first = lex_all(input);
    let second = lex_all(input);
    assert_eq!(first.len(), 14);
    assert_eq!(first, second);
}

#[test]
fn empty_input_has_no_tokens() {
    assert_eq!(lex_all(""), vec![]);
    assert_eq!(lex_all("   \n"), vec![]);
}

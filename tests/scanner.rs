use jlox::scanner::{Scanner, ScannerError};
use jlox::token::Token;

fn scan(text: &str) -> Result<Vec<Token>, ScannerError> {
    let mut scanner = Scanner::new(text.to_string());
    match scanner.scan_tokens_iter() {
        Ok(tokens) => Ok(tokens.iter().map(clone_token).collect()),
        Err(e) => Err(e),
    }
}

fn clone_token(t: &Token) -> Token {
    match t {
        Token::LeftParen(c, p) => Token::LeftParen(*c, *p),
        Token::RightParen(c, p) => Token::RightParen(*c, *p),
        Token::LeftBrace(c, p) => Token::LeftBrace(*c, *p),
        Token::RightBrace(c, p) => Token::RightBrace(*c, *p),
        Token::Comma(c, p) => Token::Comma(*c, *p),
        Token::Dot(c, p) => Token::Dot(*c, *p),
        Token::Minus(c, p) => Token::Minus(*c, *p),
        Token::Plus(c, p) => Token::Plus(*c, *p),
        Token::Semicolon(c, p) => Token::Semicolon(*c, *p),
        Token::Slash(c, p) => Token::Slash(*c, *p),
        Token::Star(c, p) => Token::Star(*c, *p),
        Token::Bang(c, p) => Token::Bang(*c, *p),
        Token::BangEqual(s, p) => Token::BangEqual(s.clone(), *p),
        Token::Equal(c, p) => Token::Equal(*c, *p),
        Token::EqualEqual(s, p) => Token::EqualEqual(s.clone(), *p),
        Token::Greater(c, p) => Token::Greater(*c, *p),
        Token::GreaterEqual(s, p) => Token::GreaterEqual(s.clone(), *p),
        Token::Less(c, p) => Token::Less(*c, *p),
        Token::LessEqual(s, p) => Token::LessEqual(s.clone(), *p),
        Token::String(s) => Token::String(s.clone()),
        Token::Number(s) => Token::Number(s.clone()),
        other => panic!("a scan does not emit {:?}", other),
    }
}

fn op(text: &str) -> String {
    text.to_string()
}

#[test]
fn test_scan_tokens_iter() {
    let contents = "+++++}}/}->===<=--//this is a comment
            //another comment
            //and another one
            \"a new string";

    let mut scanner = Scanner::new(contents.to_string());
    println!("{:?}", scanner);

    let result = scanner.scan_tokens_iter();
    println!("{:?}", result);
    match result {
        Err(ScannerError::UnterminatedString(s, p)) => {
            assert_eq!(s, "a new string");
            assert_eq!(p, 110);
        }
        other => panic!("expected an unterminated string, got {:?}", other),
    }
    assert_eq!(scanner.line(), 4);
}

#[test]
fn whitespace_only_yields_no_tokens() {
    assert_eq!(scan(" \t\r\n  \n").unwrap(), vec![]);
    assert_eq!(scan("").unwrap(), vec![]);
}

#[test]
fn positions_increase() {
    let tokens = scan("( ) != ;\n* .").unwrap();
    assert_eq!(
        tokens,
        vec![
            Token::LeftParen('(', 0),
            Token::RightParen(')', 2),
            Token::BangEqual(op("!="), 4),
            Token::Semicolon(';', 7),
            Token::Star('*', 9),
            Token::Dot('.', 11),
        ]
    );
}

#[test]
fn comment_is_dropped_and_counts_one_line() {
    let mut scanner = Scanner::new("// comment\n+".to_string());
    let tokens = scanner.scan_tokens_iter().unwrap();
    assert_eq!(tokens, &vec![Token::Plus('+', 11)]);
    assert_eq!(scanner.line(), 2);
}

#[test]
fn comment_at_end_of_input() {
    let mut scanner = Scanner::new("-// no newline".to_string());
    assert_eq!(scanner.scan_tokens_iter().unwrap(), &vec![Token::Minus('-', 0)]);
    assert_eq!(scanner.line(), 1);
}

#[test]
fn two_character_operators_are_greedy() {
    assert_eq!(
        scan("!=<=>==").unwrap(),
        vec![
            Token::BangEqual(op("!="), 0),
            Token::LessEqual(op("<="), 2),
            Token::GreaterEqual(op(">="), 4),
            Token::Equal('=', 6),
        ]
    );
    assert_eq!(
        scan("!=<=>===").unwrap(),
        vec![
            Token::BangEqual(op("!="), 0),
            Token::LessEqual(op("<="), 2),
            Token::GreaterEqual(op(">="), 4),
            Token::EqualEqual(op("=="), 6),
        ]
    );
}

#[test]
fn single_character_operators() {
    assert_eq!(
        scan("! = < > /").unwrap(),
        vec![
            Token::Bang('!', 0),
            Token::Equal('=', 2),
            Token::Less('<', 4),
            Token::Greater('>', 6),
            Token::Slash('/', 8),
        ]
    );
}

#[test]
fn string_round_trip() {
    assert_eq!(scan("\"abc\"").unwrap(), vec![Token::String(op("abc"))]);
}

#[test]
fn unterminated_string() {
    match scan("\"abc") {
        Err(ScannerError::UnterminatedString(s, p)) => {
            assert_eq!(s, "abc");
            assert_eq!(p, 0);
        }
        other => panic!("expected an unterminated string, got {:?}", other),
    }
}

#[test]
fn string_spanning_lines_counts_them() {
    let mut scanner = Scanner::new("\"a\nb\n\" +".to_string());
    assert_eq!(
        scanner.scan_tokens_iter().unwrap(),
        &vec![Token::String(op("a\nb\n")), Token::Plus('+', 7)]
    );
    assert_eq!(scanner.line(), 3);
}

#[test]
fn number_with_fraction() {
    let tokens = scan("123.45").unwrap();
    assert_eq!(tokens, vec![Token::Number(op("123.45"))]);
    match &tokens[0] {
        Token::Number(n) => assert_eq!(n.parse::<f64>().unwrap(), 123.45),
        other => panic!("expected a number, got {:?}", other),
    }
}

#[test]
fn number_then_dot() {
    assert_eq!(
        scan("123.").unwrap(),
        vec![Token::Number(op("123")), Token::Dot('.', 3)]
    );
}

#[test]
fn number_keeps_first_digit_and_following_char() {
    assert_eq!(
        scan("7+1.2.3").unwrap(),
        vec![
            Token::Number(op("7")),
            Token::Plus('+', 1),
            Token::Number(op("1.2")),
            Token::Dot('.', 5),
            Token::Number(op("3")),
        ]
    );
}

#[test]
fn unexpected_character() {
    match scan("@") {
        Err(ScannerError::UnexpectedToken(c, p)) => {
            assert_eq!(c, '@');
            assert_eq!(p, 0);
        }
        other => panic!("expected an unexpected character, got {:?}", other),
    }
}

#[test]
fn unexpected_character_leaves_no_tokens() {
    let mut scanner = Scanner::new("+ -\n#".to_string());
    match scanner.scan_tokens_iter() {
        Err(ScannerError::UnexpectedToken(c, p)) => {
            assert_eq!(c, '#');
            assert_eq!(p, 4);
        }
        other => panic!("expected an unexpected character, got {:?}", other),
    }
    assert_eq!(scanner.line(), 2);
}

#[test]
fn parens_and_arithmetic() {
    assert_eq!(
        scan("(+-)").unwrap(),
        vec![
            Token::LeftParen('(', 0),
            Token::Plus('+', 1),
            Token::Minus('-', 2),
            Token::RightParen(')', 3),
        ]
    );
}

#[test]
fn positions_count_characters() {
    assert_eq!(
        scan("\"é\"{").unwrap(),
        vec![Token::String(op("é")), Token::LeftBrace('{', 3)]
    );
}

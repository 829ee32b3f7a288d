use loxrs::error::Error;
use loxrs::scanner::{Scanner, Token, TokenType};

fn kinds_of(source: &str) -> Vec<TokenType> {
    let mut scanner = Scanner::new(String::from(source));
    let mut kinds = Vec::new();
    loop {
        match scanner.scan_token() {
            Ok(token) => {
                let done = token.ty == TokenType::EOF;
                kinds.push(token.ty);
                if done {
                    return kinds;
                }
            },
            Err(e) => panic!("unexpected scan error: {:?}", e),
        }
    }
}

#[test]
fn scans_single_character_tokens() {
    assert_eq!(
        kinds_of("(){};,.-+/*"),
        vec![
            TokenType::LeftParen,
            TokenType::RightParen,
            TokenType::LeftBrace,
            TokenType::RightBrace,
            TokenType::Semicolon,
            TokenType::Comma,
            TokenType::Dot,
            TokenType::Minus,
            TokenType::Plus,
            TokenType::Slash,
            TokenType::Star,
            TokenType::EOF,
        ]
    );
}

#[test]
fn scans_one_and_two_character_operators() {
    assert_eq!(
        kinds_of("! != = == < <= > >="),
        vec![
            TokenType::Bang,
            TokenType::BangEqual,
            TokenType::Equal,
            TokenType::EqualEqual,
            TokenType::Less,
            TokenType::LessEqual,
            TokenType::Greater,
            TokenType::GreaterEqual,
            TokenType::EOF,
        ]
    );
}

#[test]
fn scans_every_keyword_and_plain_identifiers() {
    assert_eq!(
        kinds_of("and class else false for fun if nil or print return super this true var while"),
        vec![
            TokenType::And,
            TokenType::Class,
            TokenType::Else,
            TokenType::False,
            TokenType::For,
            TokenType::Fun,
            TokenType::If,
            TokenType::Nil,
            TokenType::Or,
            TokenType::Print,
            TokenType::Return,
            TokenType::Super,
            TokenType::This,
            TokenType::True,
            TokenType::Var,
            TokenType::While,
            TokenType::EOF,
        ]
    );
    assert_eq!(
        kinds_of("andy f t fo classes _var"),
        vec![
            TokenType::Identifier,
            TokenType::Identifier,
            TokenType::Identifier,
            TokenType::Identifier,
            TokenType::Identifier,
            TokenType::Identifier,
            TokenType::EOF,
        ]
    );
}

#[test]
fn keyword_matching_compares_the_full_lexeme() {
    // A keyword prefix alone is an identifier, not the keyword.
    assert_eq!(kinds_of("an"), vec![TokenType::Identifier, TokenType::EOF]);
    assert_eq!(kinds_of("fals"), vec![TokenType::Identifier, TokenType::EOF]);
    assert_eq!(kinds_of("returns"), vec![TokenType::Identifier, TokenType::EOF]);
}

#[test]
fn scans_numbers_with_and_without_fraction() {
    let mut scanner = Scanner::new(String::from("3.14"));
    let token = scanner.scan_token().unwrap();
    assert_eq!(token, Token { ty: TokenType::Number, start: 0, length: 4, line: 1 });

    // A trailing dot is not part of the number.
    assert_eq!(kinds_of("3."), vec![TokenType::Number, TokenType::Dot, TokenType::EOF]);
}

#[test]
fn scans_string_literals_with_their_quotes() {
    let mut scanner = Scanner::new(String::from("\"hi\""));
    let token = scanner.scan_token().unwrap();
    assert_eq!(token, Token { ty: TokenType::String, start: 0, length: 4, line: 1 });
}

#[test]
fn skips_whitespace_and_line_comments_and_counts_lines() {
    let mut scanner = Scanner::new(String::from("  // a comment\n\t 7"));
    let token = scanner.scan_token().unwrap();
    assert_eq!(token, Token { ty: TokenType::Number, start: 17, length: 1, line: 2 });
}

#[test]
fn end_of_input_is_permanent() {
    let mut scanner = Scanner::new(String::from("x"));
    assert_eq!(scanner.scan_token().unwrap().ty, TokenType::Identifier);
    assert_eq!(scanner.scan_token().unwrap().ty, TokenType::EOF);
    assert_eq!(scanner.scan_token().unwrap().ty, TokenType::EOF);
}

#[test]
fn multi_byte_characters_do_not_desynchronize_spans() {
    // One scalar value each, even where several bytes encode the character.
    let mut scanner = Scanner::new(String::from("\"héllo\" 1"));
    let token = scanner.scan_token().unwrap();
    assert_eq!(token, Token { ty: TokenType::String, start: 0, length: 7, line: 1 });
    let number = scanner.scan_token().unwrap();
    assert_eq!(number, Token { ty: TokenType::Number, start: 8, length: 1, line: 1 });
}

#[test]
fn unterminated_string_is_a_scan_error_at_the_opening_line() {
    let mut scanner = Scanner::new(String::from("\"abc"));
    assert_eq!(scanner.scan_token(), Err(Error::ScanError('"', 1)));

    // The body's newlines do not move the reported line off the opening quote.
    let mut scanner = Scanner::new(String::from("\n\"ab\nc"));
    assert_eq!(scanner.scan_token(), Err(Error::ScanError('"', 2)));
}

#[test]
fn unknown_character_is_a_scan_error_naming_it() {
    let mut scanner = Scanner::new(String::from("`"));
    assert_eq!(scanner.scan_token(), Err(Error::ScanError('`', 1)));
    // Scanning continues past the offending character.
    assert_eq!(scanner.scan_token().unwrap().ty, TokenType::EOF);
}

#[test]
fn scan_to_next_skips_errors_and_reports_them() {
    let mut scanner = Scanner::new(String::from("` + 1"));
    let (token, errors) = scanner.scan_to_next();
    assert_eq!(token.unwrap().ty, TokenType::Plus);
    assert_eq!(errors, vec![Error::ScanError('`', 1)]);
}

#[test]
fn with_line_starts_counting_at_the_given_line() {
    let mut scanner = Scanner::with_line(String::from("x"), 40);
    assert_eq!(scanner.scan_token().unwrap().line, 40);
}

#[test]
fn advance_consumes_one_character() {
    let mut scanner = Scanner::new(String::from("ab"));
    assert_eq!(scanner.advance(), 'a');
    assert_eq!(scanner.current, 1);
    assert_eq!(scanner.advance(), 'b');
    assert_eq!(scanner.current, 2);
}

#[test]
fn token_new_builds_the_token() {
    let token = Token::new(TokenType::Number, 2, 3, 7);
    assert_eq!(token, Token { ty: TokenType::Number, start: 2, length: 3, line: 7 });
}

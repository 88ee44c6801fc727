//! The lexer, fed line by line through an in-memory reader.
use plates::lexer::Lexer;
use plates::lexer::Token;
use plates::reader::FileReader;

fn lexer_of(lines: &[&str]) -> Lexer<FileReader> {
    Lexer::new(FileReader::new(lines.iter().map(|s| s.to_string()).collect()))
}

fn next_ok(lexer: &mut Lexer<FileReader>) -> Option<Token> {
    let r = lexer.next_token(0);
    assert!(r.is_ok());
    r.unwrap()
}

fn next_err_msg(lexer: &mut Lexer<FileReader>) -> String {
    match lexer.next_token(0) {
        Ok(x) => panic!("Expected an error but received 'Ok({x:?})'."),
        Err(e) => e.message(),
    }
}

fn assert_lexes_to(lines: &[&str], expected: Vec<Token>) {
    let mut lexer = lexer_of(lines);
    for t in expected {
        assert_eq!(Some(t), next_ok(&mut lexer));
    }
    assert_eq!(None, next_ok(&mut lexer));
}

#[test]
fn fail_and_discard_line() {
    let mut lexer = lexer_of(&["% PUSH 123", "PUSH 456"]);

    // After error, first line should be cleared but second line should remain
    assert_eq!(
        "Syntax error: Unexpected character '%'.",
        next_err_msg(&mut lexer)
    );
    assert_eq!(Some(Token::Push), next_ok(&mut lexer));
    assert_eq!(Some(Token::Word(456)), next_ok(&mut lexer));
    assert_eq!(None, next_ok(&mut lexer));
}

#[test]
fn clear() {
    let mut lexer = lexer_of(&["PUSH 123 PUSH 456", "PUSH 789"]);

    assert_eq!(Some(Token::Push), next_ok(&mut lexer));

    lexer.clear();

    assert_eq!(Some(Token::Push), next_ok(&mut lexer));
    assert_eq!(Some(Token::Word(789)), next_ok(&mut lexer));
    assert_eq!(None, next_ok(&mut lexer));
}

#[test]
fn full_line_consumed() {
    let mut lexer = lexer_of(&["DEFN f (0) {", "    PUSH 123", "}"]);
    let expected = [
        (Token::Defn, false),
        (Token::FunctionName("f".to_string()), false),
        (Token::LeftParen, false),
        (Token::Word(0), false),
        (Token::RightParen, false),
        (Token::LeftCurlyBracket, true),
        (Token::Push, false),
        (Token::Word(123), true),
        (Token::RightCurlyBracket, true),
    ];

    for (token, end_of_line) in expected {
        assert_eq!(Some(token), next_ok(&mut lexer));
        assert_eq!(end_of_line, lexer.full_line_consumed());
    }

    assert_eq!(None, next_ok(&mut lexer));
    assert!(lexer.full_line_consumed());
}

#[test]
fn keywords_and_punctuation() {
    assert_lexes_to(&["PUSH"], vec![Token::Push]);
    assert_lexes_to(&["DEFN"], vec![Token::Defn]);
    assert_lexes_to(&["CALLIF"], vec![Token::CallIf]);
    assert_lexes_to(&["EXIT"], vec![Token::Exit]);
    assert_lexes_to(&["*"], vec![Token::Asterisk]);
    assert_lexes_to(&["{"], vec![Token::LeftCurlyBracket]);
    assert_lexes_to(&["}"], vec![Token::RightCurlyBracket]);
    assert_lexes_to(&["("], vec![Token::LeftParen]);
    assert_lexes_to(&[")"], vec![Token::RightParen]);
}

#[test]
fn arguments() {
    assert_lexes_to(&["$0"], vec![Token::Argument(0)]);
    assert_lexes_to(&["$10"], vec![Token::Argument(10)]);
}

#[test]
fn word_min_and_max() {
    assert_lexes_to(&["0"], vec![Token::Word(0)]);
    // 2^32 - 1
    assert_lexes_to(&["4294967295"], vec![Token::Word(4294967295)]);
}

#[test]
fn function_name_token() {
    assert_lexes_to(
        &["my_funcName"],
        vec![Token::FunctionName("my_funcName".to_string())],
    );
}

#[test]
fn keyword_prefix_is_a_name() {
    // longest-match precedence over keyword matching
    assert_lexes_to(
        &["PUSH123"],
        vec![Token::FunctionName("PUSH123".to_string())],
    );
    assert_lexes_to(
        &["DEFN123"],
        vec![Token::FunctionName("DEFN123".to_string())],
    );
    assert_lexes_to(
        &["CALLIF123"],
        vec![Token::FunctionName("CALLIF123".to_string())],
    );
    assert_lexes_to(
        &["EXIT123"],
        vec![Token::FunctionName("EXIT123".to_string())],
    );
}

#[test]
fn whitespace_and_comments() {
    assert_lexes_to(&[" \t PUSH \t // comment"], vec![Token::Push]);
    assert_lexes_to(&["// only a comment"], vec![]);
    assert_lexes_to(
        &["PUSH 5//rest ignored", "6"],
        vec![Token::Push, Token::Word(5), Token::Word(6)],
    );
}

#[test]
fn push_literal_pair() {
    // the lexing law on concrete literals, smallest and largest
    assert_lexes_to(&["PUSH 0"], vec![Token::Push, Token::Word(0)]);
    assert_lexes_to(&["PUSH 123"], vec![Token::Push, Token::Word(123)]);
    assert_lexes_to(
        &["PUSH 4294967295"],
        vec![Token::Push, Token::Word(4294967295)],
    );
}

#[test]
fn fail_on_too_large_word() {
    // 2^32: the whole line is tokenized at once, so the error arrives with
    // the first request
    let mut lexer = lexer_of(&["PUSH 4294967296"]);
    assert_eq!(
        "Syntax error: Invalid word '4294967296'.",
        next_err_msg(&mut lexer)
    );
    assert_eq!(None, next_ok(&mut lexer));
}

#[test]
fn fail_on_massive_word() {
    let digits = "9".repeat(1000);
    let mut lexer = lexer_of(&[digits.as_str()]);
    assert_eq!(
        format!("Syntax error: Invalid word '{}'.", digits),
        next_err_msg(&mut lexer)
    );
    assert_eq!(None, next_ok(&mut lexer));
}

#[test]
fn fail_on_negative_word() {
    let mut lexer = lexer_of(&["-1"]);
    assert_eq!(
        "Syntax error: Unexpected character '-'.",
        next_err_msg(&mut lexer)
    );
    assert_eq!(None, next_ok(&mut lexer));
}

#[test]
fn fail_on_hashtag() {
    let mut lexer = lexer_of(&["#"]);
    assert_eq!(
        "Syntax error: Unexpected character '#'.",
        next_err_msg(&mut lexer)
    );
    assert_eq!(None, next_ok(&mut lexer));
}

#[test]
fn fail_on_malformed_argument() {
    let mut lexer = lexer_of(&["$a12"]);
    assert_eq!(
        "Syntax error: Invalid word 'a12'.",
        next_err_msg(&mut lexer)
    );
}

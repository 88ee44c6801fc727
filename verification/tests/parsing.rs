//! The parser, fed whole programs as source text.
use plates::parser::Instruction;
use plates::parser::Parser;
use plates::reader::FileReader;

fn parser_of(lines: &[&str]) -> Parser<FileReader> {
    Parser::new(FileReader::new(lines.iter().map(|s| s.to_string()).collect()))
}

fn next_ok(parser: &mut Parser<FileReader>) -> Option<Instruction> {
    let r = parser.next_instruction();
    assert!(r.is_ok());
    r.unwrap()
}

fn next_err_msg(parser: &mut Parser<FileReader>) -> String {
    match parser.next_instruction() {
        Ok(x) => panic!("Expected an error but received 'Ok({x:?})'."),
        Err(e) => e.message(),
    }
}

fn assert_parses_to(lines: &[&str], expected: Instruction) {
    let mut parser = parser_of(lines);
    assert_eq!(Some(expected), next_ok(&mut parser));
    assert_eq!(None, next_ok(&mut parser));
}

fn assert_parse_fails(lines: &[&str], msg: &str) {
    let mut parser = parser_of(lines);
    assert_eq!(msg, next_err_msg(&mut parser));
}

#[test]
fn parse_push_data() {
    assert_parses_to(&["PUSH 123"], Instruction::PushData(123));
}

#[test]
fn parse_push_function() {
    assert_parses_to(
        &["PUSH foo"],
        Instruction::PushFunction("foo".to_string()),
    );
}

#[test]
fn parse_push_random() {
    assert_parses_to(&["PUSH *"], Instruction::PushRandom);
}

#[test]
fn parse_define_empty() {
    assert_parses_to(
        &["DEFN foo (0) {}"],
        Instruction::Define("foo".to_string(), 0, vec![]),
    );
}

#[test]
fn parse_define_with_args() {
    assert_parses_to(
        &["DEFN swap (2) { PUSH $0 PUSH $1 }"],
        Instruction::Define(
            "swap".to_string(),
            2,
            vec![Instruction::PushArg(0), Instruction::PushArg(1)],
        ),
    );
}

#[test]
fn parse_define_across_lines() {
    // a construct may legally span several lines
    assert_parses_to(
        &["DEFN f (1) {", "    PUSH $0", "    CALLIF", "}"],
        Instruction::Define(
            "f".to_string(),
            1,
            vec![Instruction::PushArg(0), Instruction::CallIf],
        ),
    );
}

#[test]
fn parse_push_across_lines() {
    // the value after PUSH may arrive on a continuation line
    assert_parses_to(&["PUSH", "123"], Instruction::PushData(123));
}

#[test]
fn parse_callif() {
    assert_parses_to(&["CALLIF"], Instruction::CallIf);
}

#[test]
fn parse_exit() {
    assert_parses_to(&["EXIT"], Instruction::Exit);
}

#[test]
fn parse_program_sequence() {
    let mut parser = parser_of(&["PUSH 1", "PUSH go", "CALLIF EXIT"]);
    assert_eq!(Some(Instruction::PushData(1)), next_ok(&mut parser));
    assert_eq!(
        Some(Instruction::PushFunction("go".to_string())),
        next_ok(&mut parser)
    );
    assert_eq!(Some(Instruction::CallIf), next_ok(&mut parser));
    assert_eq!(Some(Instruction::Exit), next_ok(&mut parser));
    assert_eq!(None, next_ok(&mut parser));
}

#[test]
fn parse_nested_define() {
    assert_parse_fails(
        &["DEFN foo (0) { DEFN bar (0) { } }"],
        "Syntax error: Nested definitions are not allowed.",
    );
}

#[test]
fn parse_unexpected_token() {
    assert_parse_fails(&["{"], "Syntax error: Unexpected token LeftCurlyBracket.");
}

#[test]
fn parse_unexpected_token_after_push() {
    assert_parse_fails(&["PUSH )"], "Syntax error: Unexpected token RightParen.");
}

#[test]
fn parse_unexpected_token_after_define0() {
    assert_parse_fails(&["DEFN 42"], "Syntax error: Unexpected token Word(42).");
}

#[test]
fn parse_unexpected_token_after_define1() {
    assert_parse_fails(&["DEFN foo *"], "Syntax error: Unexpected token Asterisk.");
}

#[test]
fn parse_unexpected_token_after_define2() {
    assert_parse_fails(&["DEFN foo ( PUSH"], "Syntax error: Unexpected token Push.");
}

#[test]
fn parse_unexpected_token_after_define3() {
    assert_parse_fails(
        &["DEFN foo ( 0 }"],
        "Syntax error: Unexpected token RightCurlyBracket.",
    );
}

#[test]
fn parse_unexpected_token_after_define4() {
    assert_parse_fails(
        &["DEFN foo ( 0 ) ("],
        "Syntax error: Unexpected token LeftParen.",
    );
}

#[test]
fn parse_args_outside_function() {
    assert_parse_fails(
        &["PUSH $0"],
        "Syntax error: Cannot use arguments outside functions.",
    );
}

#[test]
fn parse_reserved_function_name() {
    assert_parse_fails(
        &["DEFN __empty (0) { }"],
        "Syntax error: Cannot define function '__empty' because the prefix '__' is reserved for built-in functions.",
    );
}

#[test]
fn parse_reserved_name_with_any_body() {
    // the reserved-prefix rule does not depend on the body
    assert_parse_fails(
        &["DEFN __go (2) { PUSH 1 PUSH $0 CALLIF }"],
        "Syntax error: Cannot define function '__go' because the prefix '__' is reserved for built-in functions.",
    );
}

#[test]
fn parse_unexpected_eof_in_push() {
    assert_parse_fails(
        &["PUSH"],
        "Syntax error: Unexpected end of file after token Push.",
    );
}

#[test]
fn parse_unexpected_eof_in_define0() {
    assert_parse_fails(
        &["DEFN"],
        "Syntax error: Unexpected end of file after token Defn.",
    );
}

#[test]
fn parse_unexpected_eof_in_define1() {
    assert_parse_fails(
        &["DEFN foo"],
        "Syntax error: Unexpected end of file in signature of function 'foo'.",
    );
}

#[test]
fn parse_unexpected_eof_in_define2() {
    assert_parse_fails(
        &["DEFN foo ("],
        "Syntax error: Unexpected end of file in signature of function 'foo'.",
    );
}

#[test]
fn parse_unexpected_eof_in_define3() {
    assert_parse_fails(
        &["DEFN foo ( 0"],
        "Syntax error: Unexpected end of file in signature of function 'foo'.",
    );
}

#[test]
fn parse_unexpected_eof_in_define4() {
    assert_parse_fails(
        &["DEFN foo ( 0 )"],
        "Syntax error: Unexpected end of file in signature of function 'foo'.",
    );
}

#[test]
fn parse_unexpected_eof_in_define5() {
    assert_parse_fails(
        &["DEFN foo ( 0 ) {"],
        "Syntax error: Unexpected end of file in body of function 'foo'.",
    );
}

#[test]
fn parse_error_then_continue() {
    // an error aborts only the current instruction; after clearing the line
    // the parser accepts fresh input
    let mut parser = parser_of(&["PUSH }", "PUSH 7"]);
    assert_eq!(
        "Syntax error: Unexpected token RightCurlyBracket.",
        next_err_msg(&mut parser)
    );
    parser.clear_line();
    assert_eq!(Some(Instruction::PushData(7)), next_ok(&mut parser));
    assert_eq!(None, next_ok(&mut parser));
}

#[test]
fn parse_full_line_consumed() {
    let mut parser = parser_of(&["PUSH 1 PUSH 2"]);
    assert_eq!(Some(Instruction::PushData(1)), next_ok(&mut parser));
    assert!(!parser.full_line_consumed());
    assert_eq!(Some(Instruction::PushData(2)), next_ok(&mut parser));
    assert!(parser.full_line_consumed());
}

#[test]
fn interpret_parsed_program() {
    // the three stages together: parse a program, then run it
    let mut parser = parser_of(&[
        "DEFN dbl (1) {",
        "    PUSH $0",
        "    PUSH 1 // the call is unconditional",
        "    PUSH __shift_left__",
        "    CALLIF",
        "}",
        "PUSH 21 PUSH 1 PUSH dbl CALLIF",
    ]);
    let mut runtime = plates::runtime::Runtime::new();
    loop {
        match parser.next_instruction() {
            Ok(None) => break,
            Ok(Some(instruction)) => {
                let r = runtime.run(instruction);
                assert!(r.is_ok());
                assert!(!r.unwrap());
            }
            Err(e) => panic!("unexpected syntax error: {}", e.message()),
        }
    }
    assert_eq!(vec![plates::runtime::Word::Data(42)], runtime.value_stack);
}

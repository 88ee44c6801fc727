//! The errors the pipeline can report, and the exact text each one renders
//! to.
use vstd::prelude::*;
use vstd::string::StringExecFns;

use crate::lexer::Token;
use crate::lexer::TokenView;
use crate::text::append_decimal;
use crate::text::dec_chars;
use crate::text::push_char;

verus! {

/// A parse-time failure: the lexer or parser met text it cannot accept.
#[derive(Debug, PartialEq, Eq)]
pub enum SyntaxError {
    UnexpectedChar(char),
    InvalidWord(String),
    UnexpectedToken(Token),
    UnexpectedEndAfter(Token),
    UnexpectedEndInSignature(String),
    UnexpectedEndInBody(String),
    NestedDefinition,
    ReservedFunctionName(String),
    ArgumentOutsideFunction,
}

/// The mathematical shape of a syntax error.
pub enum SyntaxErrorView {
    UnexpectedChar(char),
    InvalidWord(Seq<char>),
    UnexpectedToken(TokenView),
    UnexpectedEndAfter(TokenView),
    UnexpectedEndInSignature(Seq<char>),
    UnexpectedEndInBody(Seq<char>),
    NestedDefinition,
    ReservedFunctionName(Seq<char>),
    ArgumentOutsideFunction,
}

impl View for SyntaxError {
    type V = SyntaxErrorView;

    open spec fn view(&self) -> SyntaxErrorView {
        match self {
            SyntaxError::UnexpectedChar(c) => SyntaxErrorView::UnexpectedChar(*c),
            SyntaxError::InvalidWord(s) => SyntaxErrorView::InvalidWord(s@),
            SyntaxError::UnexpectedToken(t) => SyntaxErrorView::UnexpectedToken(t@),
            SyntaxError::UnexpectedEndAfter(t) => SyntaxErrorView::UnexpectedEndAfter(t@),
            SyntaxError::UnexpectedEndInSignature(f) => SyntaxErrorView::UnexpectedEndInSignature(
                f@,
            ),
            SyntaxError::UnexpectedEndInBody(f) => SyntaxErrorView::UnexpectedEndInBody(f@),
            SyntaxError::NestedDefinition => SyntaxErrorView::NestedDefinition,
            SyntaxError::ReservedFunctionName(f) => SyntaxErrorView::ReservedFunctionName(f@),
            SyntaxError::ArgumentOutsideFunction => SyntaxErrorView::ArgumentOutsideFunction,
        }
    }
}

/// A failure during execution. `StepLimitExceeded` is a pure machine limit:
/// the trampoline counts its steps so that its loop provably ends, and only a
/// run of `u64::MAX` successful steps, which no feasible execution performs,
/// could ever report it.
#[derive(Clone, Copy, Debug, PartialEq, Eq, Structural)]
pub enum RuntimeError {
    StackUnderflow,
    UndefinedReference,
    TypeMismatch,
    InvalidCodePoint,
    StdoutFailure,
    StdinFailure,
    StepLimitExceeded,
}

// ---------------------------------------------------------------------------
// Rendered messages
// ---------------------------------------------------------------------------
/// The token's name as it appears inside error messages.
pub open spec fn token_debug(t: TokenView) -> Seq<char> {
    match t {
        TokenView::Push => "Push"@,
        TokenView::Defn => "Defn"@,
        TokenView::CallIf => "CallIf"@,
        TokenView::Exit => "Exit"@,
        TokenView::Asterisk => "Asterisk"@,
        TokenView::LeftCurlyBracket => "LeftCurlyBracket"@,
        TokenView::RightCurlyBracket => "RightCurlyBracket"@,
        TokenView::FunctionName(s) => "FunctionName(\""@ + s + "\")"@,
        TokenView::Word(n) => "Word("@ + dec_chars(n as nat) + ")"@,
        TokenView::LeftParen => "LeftParen"@,
        TokenView::RightParen => "RightParen"@,
        TokenView::Argument(k) => "Argument("@ + dec_chars(k as nat) + ")"@,
    }
}

/// The exact text a syntax error renders to.
pub open spec fn syntax_message(e: SyntaxErrorView) -> Seq<char> {
    match e {
        SyntaxErrorView::UnexpectedChar(c) => "Syntax error: Unexpected character '"@ + seq![c]
            + "'."@,
        SyntaxErrorView::InvalidWord(s) => "Syntax error: Invalid word '"@ + s + "'."@,
        SyntaxErrorView::UnexpectedToken(t) => "Syntax error: Unexpected token "@ + token_debug(t)
            + "."@,
        SyntaxErrorView::UnexpectedEndAfter(t) => "Syntax error: Unexpected end of file after token "@
            + token_debug(t) + "."@,
        SyntaxErrorView::UnexpectedEndInSignature(f) => "Syntax error: Unexpected end of file in signature of function '"@
            + f + "'."@,
        SyntaxErrorView::UnexpectedEndInBody(f) => "Syntax error: Unexpected end of file in body of function '"@
            + f + "'."@,
        SyntaxErrorView::NestedDefinition => "Syntax error: Nested definitions are not allowed."@,
        SyntaxErrorView::ReservedFunctionName(f) => "Syntax error: Cannot define function '"@ + f
            + "' because the prefix '__' is reserved for built-in functions."@,
        SyntaxErrorView::ArgumentOutsideFunction => "Syntax error: Cannot use arguments outside functions."@,
    }
}

/// The exact text a runtime error renders to.
pub open spec fn runtime_message(e: RuntimeError) -> Seq<char> {
    match e {
        RuntimeError::StackUnderflow => "Runtime error: Stack underflow."@,
        RuntimeError::UndefinedReference => "Runtime error: Undefined argument or function."@,
        RuntimeError::TypeMismatch => "Runtime error: Wrong type."@,
        RuntimeError::InvalidCodePoint => "Runtime error: Invalid UTF-32 code point."@,
        RuntimeError::StdoutFailure => "Environment error: Failed to flush stdout."@,
        RuntimeError::StdinFailure => "Environment error: Failed to read from stdin."@,
        RuntimeError::StepLimitExceeded => "Runtime error: Step limit exceeded."@,
    }
}

fn append_token_debug(s: &mut String, t: &Token)
    ensures
        final(s)@ == old(s)@ + token_debug(t@),
{
    match t {
        Token::Push => s.append("Push"),
        Token::Defn => s.append("Defn"),
        Token::CallIf => s.append("CallIf"),
        Token::Exit => s.append("Exit"),
        Token::Asterisk => s.append("Asterisk"),
        Token::LeftCurlyBracket => s.append("LeftCurlyBracket"),
        Token::RightCurlyBracket => s.append("RightCurlyBracket"),
        Token::FunctionName(f) => {
            s.append("FunctionName(\"");
            s.append(f.as_str());
            s.append("\")");
            assert(final(s)@ =~= old(s)@ + token_debug(t@));
        },
        Token::Word(n) => {
            s.append("Word(");
            append_decimal(s, *n as u64);
            s.append(")");
            assert(final(s)@ =~= old(s)@ + token_debug(t@));
        },
        Token::LeftParen => s.append("LeftParen"),
        Token::RightParen => s.append("RightParen"),
        Token::Argument(k) => {
            s.append("Argument(");
            append_decimal(s, *k as u64);
            s.append(")");
            assert(dec_chars((*k as u64) as nat) == dec_chars(*k as nat));
            assert(final(s)@ =~= old(s)@ + token_debug(t@));
        },
    }
}

impl SyntaxError {
    /// The message this error prints, exactly as `syntax_message` states it.
    pub fn message(&self) -> (r: String)
        ensures
            r@ == syntax_message(self@),
    {
        let mut s = String::new();
        match self {
            SyntaxError::UnexpectedChar(c) => {
                s.append("Syntax error: Unexpected character '");
                push_char(&mut s, *c);
                s.append("'.");
            },
            SyntaxError::InvalidWord(w) => {
                s.append("Syntax error: Invalid word '");
                s.append(w.as_str());
                s.append("'.");
            },
            SyntaxError::UnexpectedToken(t) => {
                s.append("Syntax error: Unexpected token ");
                append_token_debug(&mut s, t);
                s.append(".");
            },
            SyntaxError::UnexpectedEndAfter(t) => {
                s.append("Syntax error: Unexpected end of file after token ");
                append_token_debug(&mut s, t);
                s.append(".");
            },
            SyntaxError::UnexpectedEndInSignature(f) => {
                s.append("Syntax error: Unexpected end of file in signature of function '");
                s.append(f.as_str());
                s.append("'.");
            },
            SyntaxError::UnexpectedEndInBody(f) => {
                s.append("Syntax error: Unexpected end of file in body of function '");
                s.append(f.as_str());
                s.append("'.");
            },
            SyntaxError::NestedDefinition => {
                s.append("Syntax error: Nested definitions are not allowed.");
            },
            SyntaxError::ReservedFunctionName(f) => {
                s.append("Syntax error: Cannot define function '");
                s.append(f.as_str());
                s.append("' because the prefix '__' is reserved for built-in functions.");
            },
            SyntaxError::ArgumentOutsideFunction => {
                s.append("Syntax error: Cannot use arguments outside functions.");
            },
        }
        assert(s@ =~= syntax_message(self@));
        s
    }
}

impl RuntimeError {
    /// The message this error prints, exactly as `runtime_message` states it.
    pub fn message(&self) -> (r: String)
        ensures
            r@ == runtime_message(*self),
    {
        let mut s = String::new();
        match self {
            RuntimeError::StackUnderflow => s.append("Runtime error: Stack underflow."),
            RuntimeError::UndefinedReference => s.append(
                "Runtime error: Undefined argument or function.",
            ),
            RuntimeError::TypeMismatch => s.append("Runtime error: Wrong type."),
            RuntimeError::InvalidCodePoint => s.append("Runtime error: Invalid UTF-32 code point."),
            RuntimeError::StdoutFailure => s.append("Environment error: Failed to flush stdout."),
            RuntimeError::StdinFailure => s.append("Environment error: Failed to read from stdin."),
            RuntimeError::StepLimitExceeded => s.append("Runtime error: Step limit exceeded."),
        }
        assert(s@ =~= runtime_message(*self));
        s
    }
}

} // verus!

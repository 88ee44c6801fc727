//! The standard-stream calls the runtime and the interactive reader lean on.
//! Nothing is assumed of their outcomes: every caller states what holds
//! whichever way they go.
use std::io::Write;
use vstd::prelude::*;

verus! {

/// Relies on write! to io::stdout: true when the character was written.
#[verifier::external_body]
pub(crate) fn print_char(c: char) -> (r: bool) {
    write!(std::io::stdout(), "{c}").is_ok()
}

/// Relies on write! to io::stdout: true when the text was written.
#[verifier::external_body]
pub(crate) fn write_stdout(s: &str) -> (r: bool) {
    write!(std::io::stdout(), "{s}").is_ok()
}

/// Relies on io::Stdout::flush: true when the stream was flushed.
#[verifier::external_body]
pub(crate) fn flush_stdout() -> (r: bool) {
    std::io::stdout().flush().is_ok()
}

/// Relies on io::Stdin::read_line: one line of input, newline included and
/// empty only at end of input; `None` when reading failed.
#[verifier::external_body]
pub(crate) fn read_line_stdin() -> (r: Option<String>) {
    let mut line = String::new();
    match std::io::stdin().read_line(&mut line) {
        Ok(_) => Some(line),
        Err(_) => None,
    }
}

} // verus!

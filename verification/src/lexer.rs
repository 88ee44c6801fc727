//! Tokens, the tokenization of one source line, and the lexer that feeds on a
//! line source.
use vstd::prelude::*;

use crate::errors::SyntaxError;
use crate::errors::SyntaxErrorView;
use crate::reader::Reader;
use crate::text::all_digits;
use crate::text::char_is_alphabetic;
use crate::text::char_is_whitespace;
use crate::text::chars_of;
use crate::text::copy_range;
use crate::text::digits_to_u32;
use crate::text::digits_value;
use crate::text::is_alphabetic_char;
use crate::text::is_digit_char;
use crate::text::is_digit_exec;
use crate::text::is_symbol_char;
use crate::text::is_symbol_char_exec;
use crate::text::is_whitespace_char;
use crate::text::range_eq_str;
use crate::text::string_from_chars;

verus! {

/// One lexical token of the source language.
#[derive(Debug, PartialEq, Eq)]
pub enum Token {
    Push,
    Defn,
    CallIf,
    Exit,
    Asterisk,
    LeftCurlyBracket,
    RightCurlyBracket,
    FunctionName(String),
    Word(u32),
    LeftParen,
    RightParen,
    Argument(usize),
}

/// The mathematical shape of a token: names become character sequences.
pub enum TokenView {
    Push,
    Defn,
    CallIf,
    Exit,
    Asterisk,
    LeftCurlyBracket,
    RightCurlyBracket,
    FunctionName(Seq<char>),
    Word(u32),
    LeftParen,
    RightParen,
    Argument(usize),
}

impl View for Token {
    type V = TokenView;

    open spec fn view(&self) -> TokenView {
        match self {
            Token::Push => TokenView::Push,
            Token::Defn => TokenView::Defn,
            Token::CallIf => TokenView::CallIf,
            Token::Exit => TokenView::Exit,
            Token::Asterisk => TokenView::Asterisk,
            Token::LeftCurlyBracket => TokenView::LeftCurlyBracket,
            Token::RightCurlyBracket => TokenView::RightCurlyBracket,
            Token::FunctionName(s) => TokenView::FunctionName(s@),
            Token::Word(n) => TokenView::Word(*n),
            Token::LeftParen => TokenView::LeftParen,
            Token::RightParen => TokenView::RightParen,
            Token::Argument(k) => TokenView::Argument(*k),
        }
    }
}

/// The views of a sequence of tokens, in order.
pub open spec fn token_views(s: Seq<Token>) -> Seq<TokenView> {
    Seq::new(s.len(), |k: int| s[k]@)
}

// ---------------------------------------------------------------------------
// Maximal character runs
// ---------------------------------------------------------------------------
/// The length of the maximal whitespace prefix of `s`.
pub open spec fn ws_run(s: Seq<char>) -> int
    decreases s.len(),
{
    if s.len() == 0 || !is_whitespace_char(s[0]) {
        0
    } else {
        1 + ws_run(s.drop_first())
    }
}

/// The length of the maximal decimal-digit prefix of `s`.
pub open spec fn digit_run(s: Seq<char>) -> int
    decreases s.len(),
{
    if s.len() == 0 || !is_digit_char(s[0]) {
        0
    } else {
        1 + digit_run(s.drop_first())
    }
}

/// The length of the maximal identifier-character prefix of `s`.
pub open spec fn symbol_run(s: Seq<char>) -> int
    decreases s.len(),
{
    if s.len() == 0 || !is_symbol_char(s[0]) {
        0
    } else {
        1 + symbol_run(s.drop_first())
    }
}

pub proof fn lemma_ws_run(s: Seq<char>)
    ensures
        0 <= ws_run(s) <= s.len(),
        forall|i: int| 0 <= i < ws_run(s) ==> is_whitespace_char(#[trigger] s[i]),
        ws_run(s) < s.len() ==> !is_whitespace_char(s[ws_run(s)]),
    decreases s.len(),
{
    if s.len() == 0 || !is_whitespace_char(s[0]) {
    } else {
        lemma_ws_run(s.drop_first());
        assert forall|i: int| 0 <= i < ws_run(s) implies is_whitespace_char(#[trigger] s[i]) by {
            if i > 0 {
                assert(s.drop_first()[i - 1] == s[i]);
            }
        }
        if ws_run(s) < s.len() {
            assert(s.drop_first()[ws_run(s) - 1] == s[ws_run(s)]);
        }
    }
}

/// `ws_run` is the only length matching "all whitespace, then either the end
/// or something else".
pub proof fn lemma_ws_run_is(s: Seq<char>, m: int)
    requires
        0 <= m <= s.len(),
        forall|i: int| 0 <= i < m ==> is_whitespace_char(#[trigger] s[i]),
        m < s.len() ==> !is_whitespace_char(s[m]),
    ensures
        ws_run(s) == m,
    decreases s.len(),
{
    if m == 0 {
    } else {
        assert forall|i: int| 0 <= i < m - 1 implies is_whitespace_char(
            #[trigger] s.drop_first()[i],
        ) by {
            assert(s.drop_first()[i] == s[i + 1]);
        }
        if m - 1 < s.drop_first().len() {
            assert(s.drop_first()[m - 1] == s[m]);
        }
        lemma_ws_run_is(s.drop_first(), m - 1);
    }
}

pub proof fn lemma_digit_run(s: Seq<char>)
    ensures
        0 <= digit_run(s) <= s.len(),
        forall|i: int| 0 <= i < digit_run(s) ==> is_digit_char(#[trigger] s[i]),
        digit_run(s) < s.len() ==> !is_digit_char(s[digit_run(s)]),
    decreases s.len(),
{
    if s.len() == 0 || !is_digit_char(s[0]) {
    } else {
        lemma_digit_run(s.drop_first());
        assert forall|i: int| 0 <= i < digit_run(s) implies is_digit_char(#[trigger] s[i]) by {
            if i > 0 {
                assert(s.drop_first()[i - 1] == s[i]);
            }
        }
        if digit_run(s) < s.len() {
            assert(s.drop_first()[digit_run(s) - 1] == s[digit_run(s)]);
        }
    }
}

pub proof fn lemma_digit_run_is(s: Seq<char>, m: int)
    requires
        0 <= m <= s.len(),
        forall|i: int| 0 <= i < m ==> is_digit_char(#[trigger] s[i]),
        m < s.len() ==> !is_digit_char(s[m]),
    ensures
        digit_run(s) == m,
    decreases s.len(),
{
    if m == 0 {
    } else {
        assert forall|i: int| 0 <= i < m - 1 implies is_digit_char(
            #[trigger] s.drop_first()[i],
        ) by {
            assert(s.drop_first()[i] == s[i + 1]);
        }
        if m - 1 < s.drop_first().len() {
            assert(s.drop_first()[m - 1] == s[m]);
        }
        lemma_digit_run_is(s.drop_first(), m - 1);
    }
}

pub proof fn lemma_symbol_run(s: Seq<char>)
    ensures
        0 <= symbol_run(s) <= s.len(),
        forall|i: int| 0 <= i < symbol_run(s) ==> is_symbol_char(#[trigger] s[i]),
        symbol_run(s) < s.len() ==> !is_symbol_char(s[symbol_run(s)]),
    decreases s.len(),
{
    if s.len() == 0 || !is_symbol_char(s[0]) {
    } else {
        lemma_symbol_run(s.drop_first());
        assert forall|i: int| 0 <= i < symbol_run(s) implies is_symbol_char(#[trigger] s[i]) by {
            if i > 0 {
                assert(s.drop_first()[i - 1] == s[i]);
            }
        }
        if symbol_run(s) < s.len() {
            assert(s.drop_first()[symbol_run(s) - 1] == s[symbol_run(s)]);
        }
    }
}

pub proof fn lemma_symbol_run_is(s: Seq<char>, m: int)
    requires
        0 <= m <= s.len(),
        forall|i: int| 0 <= i < m ==> is_symbol_char(#[trigger] s[i]),
        m < s.len() ==> !is_symbol_char(s[m]),
    ensures
        symbol_run(s) == m,
    decreases s.len(),
{
    if m == 0 {
    } else {
        assert forall|i: int| 0 <= i < m - 1 implies is_symbol_char(
            #[trigger] s.drop_first()[i],
        ) by {
            assert(s.drop_first()[i] == s[i + 1]);
        }
        if m - 1 < s.drop_first().len() {
            assert(s.drop_first()[m - 1] == s[m]);
        }
        lemma_symbol_run_is(s.drop_first(), m - 1);
    }
}

// ---------------------------------------------------------------------------
// Tokenization, as a mathematical function
// ---------------------------------------------------------------------------
/// What becomes of the maximal digit run at the head of `t`: a `Word` token
/// when the numeral fits 32 bits, an error naming the run otherwise.
pub open spec fn spec_consume_word(t: Seq<char>) -> Result<
    (Option<TokenView>, Seq<char>),
    SyntaxErrorView,
> {
    let k = digit_run(t);
    let run = t.take(k);
    if digits_value(run) <= u32::MAX {
        Ok((Some(TokenView::Word(digits_value(run) as u32)), t.skip(k)))
    } else {
        Err(SyntaxErrorView::InvalidWord(run))
    }
}

/// What becomes of `$` at the head of `t`: the run is the character after the
/// `$` together with the maximal digit run after it; an `Argument` token when
/// the run is a digit run that fits 32 bits, an error naming the run
/// otherwise.
pub open spec fn spec_consume_argument(t: Seq<char>) -> Result<
    (Option<TokenView>, Seq<char>),
    SyntaxErrorView,
> {
    if t.len() < 2 {
        Err(SyntaxErrorView::InvalidWord(Seq::empty()))
    } else {
        let k = digit_run(t.skip(2));
        let run = t.subrange(1, 2 + k);
        if all_digits(run) && digits_value(run) <= u32::MAX {
            Ok((Some(TokenView::Argument(digits_value(run) as usize)), t.skip(2 + k)))
        } else {
            Err(SyntaxErrorView::InvalidWord(run))
        }
    }
}

/// What becomes of the maximal identifier run at the head of `t`: a keyword
/// token where it spells one, a `FunctionName` otherwise.
pub open spec fn spec_consume_symbol(t: Seq<char>) -> Result<
    (Option<TokenView>, Seq<char>),
    SyntaxErrorView,
> {
    let k = symbol_run(t);
    let run = t.take(k);
    let rest = t.skip(k);
    if run == "PUSH"@ {
        Ok((Some(TokenView::Push), rest))
    } else if run == "DEFN"@ {
        Ok((Some(TokenView::Defn), rest))
    } else if run == "CALLIF"@ {
        Ok((Some(TokenView::CallIf), rest))
    } else if run == "EXIT"@ {
        Ok((Some(TokenView::Exit), rest))
    } else {
        Ok((Some(TokenView::FunctionName(run)), rest))
    }
}

/// The next token of `s`, after leading whitespace: `None` at the end of the
/// line or at a comment, otherwise the token and the remaining characters, or
/// a syntax error.
pub open spec fn spec_consume_token(s: Seq<char>) -> Result<
    (Option<TokenView>, Seq<char>),
    SyntaxErrorView,
> {
    let t = s.skip(ws_run(s));
    if t.len() == 0 {
        Ok((None, t))
    } else if t[0] == '*' {
        Ok((Some(TokenView::Asterisk), t.drop_first()))
    } else if t[0] == '{' {
        Ok((Some(TokenView::LeftCurlyBracket), t.drop_first()))
    } else if t[0] == '}' {
        Ok((Some(TokenView::RightCurlyBracket), t.drop_first()))
    } else if t[0] == '(' {
        Ok((Some(TokenView::LeftParen), t.drop_first()))
    } else if t[0] == ')' {
        Ok((Some(TokenView::RightParen), t.drop_first()))
    } else if t[0] == '$' {
        spec_consume_argument(t)
    } else if is_digit_char(t[0]) {
        spec_consume_word(t)
    } else if t.len() >= 2 && t[0] == '/' && t[1] == '/' {
        Ok((None, t))
    } else if is_alphabetic_char(t[0]) || t[0] == '_' {
        spec_consume_symbol(t)
    } else {
        Err(SyntaxErrorView::UnexpectedChar(t[0]))
    }
}

/// A consumed token always shortens the line.
pub proof fn lemma_consume_token_progress(s: Seq<char>)
    ensures
        match spec_consume_token(s) {
            Ok((Some(_), rest)) => rest.len() < s.len(),
            Ok((None, _)) => true,
            Err(_) => true,
        },
{
    lemma_ws_run(s);
    let w = ws_run(s);
    let t = s.skip(w);
    if t.len() == 0 {
    } else if t[0] == '*' || t[0] == '{' || t[0] == '}' || t[0] == '(' || t[0] == ')' {
    } else if t[0] == '$' {
        if t.len() >= 2 {
            lemma_digit_run(t.skip(2));
        }
    } else if is_digit_char(t[0]) {
        lemma_digit_run(t);
        assert(digit_run(t) >= 1);
    } else if t.len() >= 2 && t[0] == '/' && t[1] == '/' {
    } else if is_alphabetic_char(t[0]) || t[0] == '_' {
        lemma_symbol_run(t);
        assert(is_symbol_char(t[0]));
        assert(symbol_run(t) >= 1);
    } else {
    }
}

/// The tokens of one whole line, or the first syntax error in it.
pub open spec fn spec_lex(s: Seq<char>) -> Result<Seq<TokenView>, SyntaxErrorView>
    decreases s.len(),
    via spec_lex_decreases
{
    match spec_consume_token(s) {
        Err(e) => Err(e),
        Ok((None, _)) => Ok(Seq::empty()),
        Ok((Some(t), rest)) => match spec_lex(rest) {
            Err(e) => Err(e),
            Ok(ts) => Ok(seq![t] + ts),
        },
    }
}

#[via_fn]
proof fn spec_lex_decreases(s: Seq<char>) {
    lemma_consume_token_progress(s);
}

// ---------------------------------------------------------------------------
// Tokenization, executed
// ---------------------------------------------------------------------------
fn ws_at(v: &Vec<char>, i: usize) -> (r: bool)
    requires
        i <= v@.len(),
    ensures
        r == (i < v@.len() && is_whitespace_char(v@[i as int])),
{
    if i < v.len() {
        char_is_whitespace(v[i])
    } else {
        false
    }
}

fn digit_at(v: &Vec<char>, i: usize) -> (r: bool)
    requires
        i <= v@.len(),
    ensures
        r == (i < v@.len() && is_digit_char(v@[i as int])),
{
    if i < v.len() {
        is_digit_exec(v[i])
    } else {
        false
    }
}

fn symbol_at(v: &Vec<char>, i: usize) -> (r: bool)
    requires
        i <= v@.len(),
    ensures
        r == (i < v@.len() && is_symbol_char(v@[i as int])),
{
    if i < v.len() {
        is_symbol_char_exec(v[i])
    } else {
        false
    }
}

/// The first position at or after `from` holding a character that is not
/// whitespace.
fn skip_ws(v: &Vec<char>, from: usize) -> (j: usize)
    requires
        from <= v@.len(),
    ensures
        from <= j <= v@.len(),
        j - from == ws_run(v@.skip(from as int)),
{
    let n = v.len();
    let mut j = from;
    loop
        invariant
            n == v@.len(),
            from <= j <= v@.len(),
            forall|k: int| from <= k < j ==> is_whitespace_char(#[trigger] v@[k]),
        ensures
            from <= j <= v@.len(),
            forall|k: int| from <= k < j ==> is_whitespace_char(#[trigger] v@[k]),
            !(j < v@.len() && is_whitespace_char(v@[j as int])),
        decreases v@.len() - j,
    {
        if !ws_at(v, j) {
            break;
        }
        j = j + 1;
    }
    proof {
        let s = v@.skip(from as int);
        assert forall|k: int| 0 <= k < j - from implies is_whitespace_char(#[trigger] s[k]) by {
            assert(s[k] == v@[from + k]);
        }
        if j - from < s.len() {
            assert(s[j - from] == v@[j as int]);
        }
        lemma_ws_run_is(s, j - from);
    }
    j
}

/// The first position at or after `from` holding a character that is not a
/// decimal digit.
fn scan_digits(v: &Vec<char>, from: usize) -> (j: usize)
    requires
        from <= v@.len(),
    ensures
        from <= j <= v@.len(),
        j - from == digit_run(v@.skip(from as int)),
{
    let n = v.len();
    let mut j = from;
    loop
        invariant
            n == v@.len(),
            from <= j <= v@.len(),
            forall|k: int| from <= k < j ==> is_digit_char(#[trigger] v@[k]),
        ensures
            from <= j <= v@.len(),
            forall|k: int| from <= k < j ==> is_digit_char(#[trigger] v@[k]),
            !(j < v@.len() && is_digit_char(v@[j as int])),
        decreases v@.len() - j,
    {
        if !digit_at(v, j) {
            break;
        }
        j = j + 1;
    }
    proof {
        let s = v@.skip(from as int);
        assert forall|k: int| 0 <= k < j - from implies is_digit_char(#[trigger] s[k]) by {
            assert(s[k] == v@[from + k]);
        }
        if j - from < s.len() {
            assert(s[j - from] == v@[j as int]);
        }
        lemma_digit_run_is(s, j - from);
    }
    j
}

/// The first position at or after `from` holding a character that cannot
/// continue an identifier.
fn scan_symbols(v: &Vec<char>, from: usize) -> (j: usize)
    requires
        from <= v@.len(),
    ensures
        from <= j <= v@.len(),
        j - from == symbol_run(v@.skip(from as int)),
{
    let n = v.len();
    let mut j = from;
    loop
        invariant
            n == v@.len(),
            from <= j <= v@.len(),
            forall|k: int| from <= k < j ==> is_symbol_char(#[trigger] v@[k]),
        ensures
            from <= j <= v@.len(),
            forall|k: int| from <= k < j ==> is_symbol_char(#[trigger] v@[k]),
            !(j < v@.len() && is_symbol_char(v@[j as int])),
        decreases v@.len() - j,
    {
        if !symbol_at(v, j) {
            break;
        }
        j = j + 1;
    }
    proof {
        let s = v@.skip(from as int);
        assert forall|k: int| 0 <= k < j - from implies is_symbol_char(#[trigger] s[k]) by {
            assert(s[k] == v@[from + k]);
        }
        if j - from < s.len() {
            assert(s[j - from] == v@[j as int]);
        }
        lemma_symbol_run_is(s, j - from);
    }
    j
}

/// One step of tokenization at `pos`: exactly what `spec_consume_token` says
/// of the remaining characters, together with the position after the token.
#[verifier::loop_isolation(false)]
fn consume_token_at(v: &Vec<char>, pos: usize) -> (r: (Result<Option<Token>, SyntaxError>, usize))
    requires
        pos <= v@.len(),
    ensures
        pos <= r.1 <= v@.len(),
        (match spec_consume_token(v@.skip(pos as int)) {
            Ok((None, _)) => r.0 matches Ok(None),
            Ok((Some(tv), rest)) => (r.0 matches Ok(Some(t)) && t@ == tv) && v@.skip(r.1 as int)
                == rest && r.1 > pos,
            Err(ev) => r.0 matches Err(e) && e@ == ev,
        }),
{
    let ghost s = v@.skip(pos as int);
    let i = skip_ws(v, pos);
    proof {
        lemma_ws_run(s);
        assert(ws_run(s) == i - pos);
        assert(s.skip(ws_run(s)) =~= v@.skip(i as int));
    }
    let ghost t = s.skip(ws_run(s));
    if i == v.len() {
        return (Ok(None), i);
    }
    let c = v[i];
    proof {
        assert(t[0] == v@[i as int]);
        assert(t.len() == v@.len() - i);
    }
    if c == '*' {
        proof {
            assert(t.drop_first() =~= v@.skip(i + 1));
        }
        return (Ok(Some(Token::Asterisk)), i + 1);
    }
    if c == '{' {
        proof {
            assert(t.drop_first() =~= v@.skip(i + 1));
        }
        return (Ok(Some(Token::LeftCurlyBracket)), i + 1);
    }
    if c == '}' {
        proof {
            assert(t.drop_first() =~= v@.skip(i + 1));
        }
        return (Ok(Some(Token::RightCurlyBracket)), i + 1);
    }
    if c == '(' {
        proof {
            assert(t.drop_first() =~= v@.skip(i + 1));
        }
        return (Ok(Some(Token::LeftParen)), i + 1);
    }
    if c == ')' {
        proof {
            assert(t.drop_first() =~= v@.skip(i + 1));
        }
        return (Ok(Some(Token::RightParen)), i + 1);
    }
    if c == '$' {
        if i + 1 >= v.len() {
            let empty_text = String::new();
            proof {
                assert(t.len() < 2);
            }
            return (Err(SyntaxError::InvalidWord(empty_text)), i + 1);
        }
        let j = scan_digits(v, i + 2);
        proof {
            assert(t.skip(2) =~= v@.skip(i + 2));
            assert(digit_run(t.skip(2)) == j - (i + 2));
            assert(t.subrange(1, 2 + digit_run(t.skip(2))) =~= v@.subrange(i + 1, j as int));
        }
        let ghost run = t.subrange(1, 2 + digit_run(t.skip(2)));
        let run_text = copy_range(v, i + 1, j);
        if !is_digit_exec(v[i + 1]) {
            proof {
                assert(run[0] == v@[i + 1]);
                assert(!all_digits(run));
            }
            return (Err(SyntaxError::InvalidWord(string_from_chars(&run_text))), j);
        }
        proof {
            lemma_digit_run(t.skip(2));
            assert forall|k: int| 0 <= k < run.len() implies is_digit_char(#[trigger] run[k]) by {
                if k == 0 {
                    assert(run[0] == v@[i + 1]);
                } else {
                    assert(run[k] == t.skip(2)[k - 1]);
                }
            }
        }
        match digits_to_u32(v, i + 1, j) {
            None => {
                return (Err(SyntaxError::InvalidWord(string_from_chars(&run_text))), j);
            },
            Some(n) => {
                proof {
                    assert(t.skip(2 + digit_run(t.skip(2))) =~= v@.skip(j as int));
                }
                return (Ok(Some(Token::Argument(n as usize))), j);
            },
        }
    }
    if is_digit_exec(c) {
        let j = scan_digits(v, i);
        proof {
            assert(t =~= v@.skip(i as int));
            assert(digit_run(t) == j - i);
            lemma_digit_run(t);
            assert(digit_run(t) >= 1);
            assert(t.take(digit_run(t)) =~= v@.subrange(i as int, j as int));
            lemma_digit_run(t);
            assert(all_digits(v@.subrange(i as int, j as int))) by {
                assert(forall|k: int|
                    0 <= k < j - i ==> #[trigger] v@.subrange(i as int, j as int)[k] == t.take(
                        digit_run(t),
                    )[k]);
            }
        }
        match digits_to_u32(v, i, j) {
            None => {
                let run_text = copy_range(v, i, j);
                return (Err(SyntaxError::InvalidWord(string_from_chars(&run_text))), j);
            },
            Some(n) => {
                proof {
                    assert(t.skip(digit_run(t)) =~= v@.skip(j as int));
                }
                return (Ok(Some(Token::Word(n))), j);
            },
        }
    }
    if c == '/' && i + 1 < v.len() && v[i + 1] == '/' {
        proof {
            assert(t[1] == v@[i + 1]);
        }
        return (Ok(None), i);
    }
    if char_is_alphabetic(c) || c == '_' {
        let j = scan_symbols(v, i);
        proof {
            assert(t =~= v@.skip(i as int));
            assert(symbol_run(t) == j - i);
            lemma_symbol_run(t);
            assert(is_symbol_char(t[0]));
            assert(symbol_run(t) >= 1);
            assert(t.take(symbol_run(t)) =~= v@.subrange(i as int, j as int));
            assert(t.skip(symbol_run(t)) =~= v@.skip(j as int));
        }
        if range_eq_str(v, i, j, "PUSH") {
            return (Ok(Some(Token::Push)), j);
        }
        if range_eq_str(v, i, j, "DEFN") {
            return (Ok(Some(Token::Defn)), j);
        }
        if range_eq_str(v, i, j, "CALLIF") {
            return (Ok(Some(Token::CallIf)), j);
        }
        if range_eq_str(v, i, j, "EXIT") {
            return (Ok(Some(Token::Exit)), j);
        }
        let run_text = copy_range(v, i, j);
        return (Ok(Some(Token::FunctionName(string_from_chars(&run_text)))), j);
    }
    proof {
        if t.len() >= 2 && t[0] == '/' && t[1] == '/' {
            assert(t[1] == v@[i + 1]);
            assert(false);
        }
    }
    (Err(SyntaxError::UnexpectedChar(c)), i + 1)
}

// ---------------------------------------------------------------------------
// The lexer
// ---------------------------------------------------------------------------
/// A queue of tokens already cut from the current line, refilled from the
/// line source on demand. The lexer remembers, as mathematics, every token
/// it ever handed out and every line the source ever served: contracts
/// downstream tie what comes out to what actually went in.
pub struct Lexer<T: Reader> {
    tokens: Vec<Token>,
    reader: T,
    history: Ghost<Seq<TokenView>>,
    lines: Ghost<Seq<Seq<char>>>,
}

impl<T: Reader> Lexer<T> {
    /// The tokens cut but not yet handed out.
    pub closed spec fn pending(&self) -> Seq<TokenView> {
        token_views(self.tokens@)
    }

    /// How many more lines the underlying source can still serve.
    pub closed spec fn budget(&self) -> nat {
        self.reader.budget()
    }

    /// Every token handed out so far, in order.
    pub closed spec fn consumed(&self) -> Seq<TokenView> {
        self.history@
    }

    /// Every line the source has served so far, in order.
    pub closed spec fn served(&self) -> Seq<Seq<char>> {
        self.lines@
    }

    pub fn new(reader: T) -> (r: Self)
        ensures
            r.pending().len() == 0,
            r.budget() == reader.budget(),
            r.consumed().len() == 0,
            r.served().len() == 0,
    {
        Lexer {
            tokens: Vec::new(),
            reader,
            history: Ghost(Seq::empty()),
            lines: Ghost(Seq::empty()),
        }
    }

    /// Discards any tokens that were already cut but not yet consumed.
    pub fn clear(&mut self)
        ensures
            final(self).pending().len() == 0,
            final(self).budget() == old(self).budget(),
            final(self).consumed() == old(self).consumed(),
            final(self).served() == old(self).served(),
    {
        self.tokens.clear();
    }

    /// True when no token of the current line is left in the queue.
    pub fn full_line_consumed(&mut self) -> (r: bool)
        ensures
            *final(self) == *old(self),
            r == (old(self).pending().len() == 0),
    {
        self.tokens.len() == 0
    }

    /// The next token. When the queue is empty, lines are pulled from the
    /// source and tokenized until one of them yields tokens; `Ok(None)` means
    /// the source has ended cleanly. Every outcome is tied to the lines the
    /// source actually served: a token comes from the front of the queue or
    /// from the last line served, an error is the first lexing error of the
    /// last line served, and every earlier line served in the same call held
    /// no token at all.
    #[verifier::loop_isolation(false)]
    pub fn next_token(&mut self, depth: usize) -> (r: Result<Option<Token>, SyntaxError>)
        ensures
            final(self).budget() <= old(self).budget(),
            final(self).served().len() >= old(self).served().len(),
            final(self).served().take(old(self).served().len() as int) == old(self).served(),
            forall|j: int|
                old(self).served().len() <= j < final(self).served().len() - 1
                    ==> spec_lex(#[trigger] final(self).served()[j]) == Ok::<
                    Seq<TokenView>,
                    SyntaxErrorView,
                >(Seq::empty()),
            (match r {
                Ok(Some(t)) => final(self).consumed() == old(self).consumed().push(t@),
                _ => final(self).consumed() == old(self).consumed(),
            }),
            old(self).pending().len() > 0 ==> (r matches Ok(Some(t)) && t@ == old(self).pending()[0]
                && final(self).pending() == old(self).pending().drop_first()
                && final(self).budget() == old(self).budget()
                && final(self).served() == old(self).served()),
            (r matches Ok(Some(_)) && old(self).pending().len() == 0) ==> final(self).budget()
                < old(self).budget(),
            (match r {
                Ok(Some(t)) => old(self).pending().len() == 0 ==> (final(self).served().len()
                    > old(self).served().len() && (spec_lex(final(self).served().last()) matches Ok(
                    ts,
                ) && ts.len() > 0 && t@ == ts[0] && final(self).pending() == ts.drop_first())),
                Ok(None) => old(self).pending().len() == 0 && final(self).pending().len() == 0
                    && (forall|j: int|
                    old(self).served().len() <= j < final(self).served().len()
                        ==> spec_lex(#[trigger] final(self).served()[j]) == Ok::<
                        Seq<TokenView>,
                        SyntaxErrorView,
                    >(Seq::empty())),
                Err(e) => old(self).pending().len() == 0 && final(self).pending().len() == 0
                    && final(self).served().len() > old(self).served().len() && spec_lex(
                    final(self).served().last(),
                ) == Err::<Seq<TokenView>, SyntaxErrorView>(e@),
            }),
    {
        if self.tokens.len() > 0 {
            let t = self.tokens.remove(0);
            proof {
                self.history@ = self.history@.push(t@);
                assert(t@ == old(self).pending()[0]);
                assert(final(self).pending() =~= old(self).pending().drop_first());
                assert(final(self).served().take(old(self).served().len() as int) =~= old(
                    self,
                ).served());
            }
            return Ok(Some(t));
        }
        proof {
            assert(self.lines@.take(old(self).served().len() as int) =~= old(self).served());
        }
        loop
            invariant
                self.tokens@.len() == 0,
                self.reader.budget() <= old(self).budget(),
                self.history@ == old(self).history@,
                self.lines@.len() >= old(self).served().len(),
                self.lines@.take(old(self).served().len() as int) == old(self).served(),
                forall|j: int|
                    old(self).served().len() <= j < self.lines@.len() ==> spec_lex(
                        #[trigger] self.lines@[j],
                    ) == Ok::<Seq<TokenView>, SyntaxErrorView>(Seq::empty()),
            decreases self.reader.budget(),
        {
            let line = match self.reader.next_line(depth) {
                None => {
                    return Ok(None);
                },
                Some(l) => l,
            };
            proof {
                self.lines@ = self.lines@.push(line@);
                assert(self.lines@.take(old(self).served().len() as int) =~= old(self).served());
                assert(self.lines@.last() == line@);
            }
            match lex_line(line.as_str()) {
                Err(e) => {
                    proof {
                        assert(spec_lex(line@) == Err::<Seq<TokenView>, SyntaxErrorView>(e@));
                    }
                    return Err(e);
                },
                Ok(ts) => {
                    self.tokens = ts;
                    if self.tokens.len() > 0 {
                        let ghost full = token_views(self.tokens@);
                        let t = self.tokens.remove(0);
                        proof {
                            self.history@ = self.history@.push(t@);
                            assert(spec_lex(line@) matches Ok(ts2) && ts2 == full);
                            assert(t@ == full[0]);
                            assert(final(self).pending() =~= full.drop_first());
                        }
                        return Ok(Some(t));
                    }
                    proof {
                        assert(spec_lex(line@) == Ok::<Seq<TokenView>, SyntaxErrorView>(
                            Seq::empty(),
                        )) by {
                            assert(token_views(self.tokens@) =~= Seq::<TokenView>::empty());
                        }
                    }
                },
            }
        }
    }
}

/// The tokens of one line, exactly as `spec_lex` states them, or its first
/// syntax error.
#[verifier::loop_isolation(false)]
pub(crate) fn lex_line(line: &str) -> (r: Result<Vec<Token>, SyntaxError>)
    ensures
        (match spec_lex(line@) {
            Ok(ts) => r matches Ok(v) && token_views(v@) == ts,
            Err(ev) => r matches Err(e) && e@ == ev,
        }),
{
    let chars = chars_of(line);
    let mut toks: Vec<Token> = Vec::new();
    let mut pos: usize = 0;
    proof {
        assert(chars@.skip(0) =~= line@);
        if spec_lex(line@) is Ok {
            assert(token_views(toks@) + spec_lex(line@)->Ok_0 =~= spec_lex(line@)->Ok_0);
        }
    }
    loop
        invariant
            pos <= chars@.len(),
            chars@ == line@,
            spec_lex(line@) == (match spec_lex(chars@.skip(pos as int)) {
                Ok(ts) => Ok::<Seq<TokenView>, SyntaxErrorView>(token_views(toks@) + ts),
                Err(e) => Err::<Seq<TokenView>, SyntaxErrorView>(e),
            }),
        decreases chars@.len() - pos,
    {
        let (res, npos) = consume_token_at(&chars, pos);
        let ghost rest = chars@.skip(pos as int);
        match res {
            Err(e) => {
                proof {
                    assert(spec_lex(rest) == Err::<Seq<TokenView>, SyntaxErrorView>(e@));
                }
                return Err(e);
            },
            Ok(None) => {
                proof {
                    assert(spec_lex(rest) == Ok::<Seq<TokenView>, SyntaxErrorView>(Seq::empty()));
                    assert(token_views(toks@) + Seq::<TokenView>::empty() =~= token_views(toks@));
                }
                return Ok(toks);
            },
            Ok(Some(t)) => {
                proof {
                    assert(spec_lex(rest) == (match spec_lex(chars@.skip(npos as int)) {
                        Ok(ts) => Ok::<Seq<TokenView>, SyntaxErrorView>(seq![t@] + ts),
                        Err(e) => Err::<Seq<TokenView>, SyntaxErrorView>(e),
                    }));
                }
                let ghost before = toks@;
                toks.push(t);
                proof {
                    assert(token_views(toks@) =~= token_views(before).push(t@));
                    if spec_lex(chars@.skip(npos as int)) is Ok {
                        let ts2 = spec_lex(chars@.skip(npos as int))->Ok_0;
                        assert(token_views(before) + (seq![t@] + ts2) =~= token_views(toks@)
                            + ts2);
                    }
                }
                pos = npos;
            },
        }
    }
}

// ---------------------------------------------------------------------------
// A law of the lexer
// ---------------------------------------------------------------------------
/// Lexing `PUSH` followed by one space and the decimal numeral of any 32-bit
/// value yields exactly the `Push` keyword and that value's `Word` token.
pub proof fn lemma_lex_push_numeral(d: u32)
    ensures
        spec_lex("PUSH "@ + crate::text::dec_chars(d as nat)) == Ok::<
            Seq<TokenView>,
            SyntaxErrorView,
        >(seq![TokenView::Push, TokenView::Word(d)]),
{
    reveal_strlit("PUSH ");
    reveal_strlit("PUSH");
    reveal_strlit("DEFN");
    reveal_strlit("CALLIF");
    reveal_strlit("EXIT");
    crate::text::lemma_dec_chars_value(d as nat);
    let dec = crate::text::dec_chars(d as nat);
    let s = "PUSH "@ + dec;
    assert(s.len() == 5 + dec.len());
    assert(s[0] == 'P');
    assert(s[1] == 'U');
    assert(s[2] == 'S');
    assert(s[3] == 'H');
    assert(s[4] == ' ');
    assert forall|i: int| 5 <= i < s.len() implies is_digit_char(#[trigger] s[i]) by {
        assert(s[i] == dec[i - 5]);
    }
    // the keyword
    lemma_ws_run_is(s, 0);
    assert(s.skip(0) =~= s);
    lemma_symbol_run_is(s, 4);
    assert(s.take(4) =~= "PUSH"@);
    assert("PUSH"@ != "DEFN"@ && "PUSH"@ != "CALLIF"@ && "PUSH"@ != "EXIT"@);
    let rest = s.skip(4);
    assert(spec_consume_token(s) == Ok::<(Option<TokenView>, Seq<char>), SyntaxErrorView>((
        Some(TokenView::Push),
        rest,
    )));
    // the numeral
    assert(rest.len() == 1 + dec.len());
    assert(rest[0] == ' ');
    assert forall|i: int| 1 <= i < rest.len() implies is_digit_char(#[trigger] rest[i]) by {
        assert(rest[i] == dec[i - 1]);
    }
    lemma_ws_run_is(rest, 1);
    let t2 = rest.skip(1);
    assert(t2 =~= dec);
    assert(is_digit_char(t2[0]));
    lemma_digit_run_is(t2, t2.len() as int);
    assert(t2.take(t2.len() as int) =~= dec);
    assert(crate::text::digits_value(dec) == d);
    let rest2 = t2.skip(t2.len() as int);
    assert(spec_consume_token(rest) == Ok::<(Option<TokenView>, Seq<char>), SyntaxErrorView>((
        Some(TokenView::Word(d)),
        rest2,
    )));
    // the end of the line
    assert(rest2.len() == 0);
    lemma_ws_run_is(rest2, 0);
    assert(rest2.skip(0) =~= rest2);
    assert(spec_lex(rest2) == Ok::<Seq<TokenView>, SyntaxErrorView>(Seq::empty()));
    assert(spec_lex(rest) == Ok::<Seq<TokenView>, SyntaxErrorView>(
        seq![TokenView::Word(d)] + Seq::empty(),
    ));
    assert(seq![TokenView::Word(d)] + Seq::<TokenView>::empty() =~= seq![TokenView::Word(d)]);
    assert(seq![TokenView::Push] + seq![TokenView::Word(d)] =~= seq![
        TokenView::Push,
        TokenView::Word(d),
    ]);
}

} // verus!

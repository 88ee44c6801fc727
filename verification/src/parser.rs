//! Instructions and the recursive-descent parser that assembles them from
//! tokens.
use vstd::prelude::*;

use crate::errors::SyntaxError;
use crate::errors::SyntaxErrorView;
use crate::lexer::Lexer;
use crate::lexer::Token;
use crate::lexer::TokenView;
use crate::reader::Reader;
use crate::text::is_reserved;
use crate::text::reserved_name;

verus! {

broadcast use vstd::std_specs::vec::group_vec_axioms;

/// One executable instruction. A `Define` carries the body of the function,
/// so the type is recursive.
#[derive(Debug, PartialEq, Eq)]
pub enum Instruction {
    PushData(u32),
    PushFunction(String),
    PushRandom,
    PushArg(usize),
    Define(String, u32, Vec<Instruction>),
    CallIf,
    Exit,
}

/// The mathematical shape of an instruction: names become character
/// sequences and bodies become sequences of instruction views.
pub enum InstrView {
    PushData(u32),
    PushFunction(Seq<char>),
    PushRandom,
    PushArg(usize),
    Define(Seq<char>, u32, Seq<InstrView>),
    CallIf,
    Exit,
}

/// The view of one instruction.
pub open spec fn instr_view(i: Instruction) -> InstrView
    decreases i,
    via instr_view_decreases
{
    match i {
        Instruction::PushData(n) => InstrView::PushData(n),
        Instruction::PushFunction(f) => InstrView::PushFunction(f@),
        Instruction::PushRandom => InstrView::PushRandom,
        Instruction::PushArg(k) => InstrView::PushArg(k),
        Instruction::Define(f, a, b) => InstrView::Define(f@, a, body_views(b@)),
        Instruction::CallIf => InstrView::CallIf,
        Instruction::Exit => InstrView::Exit,
    }
}

/// The views of a sequence of instructions, in order.
pub open spec fn body_views(s: Seq<Instruction>) -> Seq<InstrView>
    decreases s,
    via body_views_decreases
{
    if s.len() == 0 {
        Seq::empty()
    } else {
        seq![instr_view(s[0])] + body_views(s.drop_first())
    }
}

#[via_fn]
proof fn instr_view_decreases(i: Instruction) {
    match i {
        Instruction::Define(f, a, b) => {
            assert(decreases_to!(i => b));
            assert(decreases_to!(b => b@));
        },
        _ => {},
    }
}

#[via_fn]
proof fn body_views_decreases(s: Seq<Instruction>) {
    if s.len() > 0 {
        assert(decreases_to!(s => s[0]));
        assert(s.drop_first() == s.subrange(1, s.len() as int));
        vstd::seq::axiom_seq_subrange_decreases(s, 1, s.len() as int);
    }
}

impl View for Instruction {
    type V = InstrView;

    open spec fn view(&self) -> InstrView {
        instr_view(*self)
    }
}

/// `body_views` is the elementwise view of the sequence.
pub proof fn lemma_body_views(s: Seq<Instruction>)
    ensures
        body_views(s).len() == s.len(),
        forall|k: int| 0 <= k < s.len() ==> body_views(s)[k] == #[trigger] s[k]@,
    decreases s.len(),
{
    if s.len() > 0 {
        lemma_body_views(s.drop_first());
        assert forall|k: int| 0 <= k < s.len() implies body_views(s)[k] == #[trigger] s[k]@ by {
            if k == 0 {
                assert(body_views(s)[0] == instr_view(s[0]));
            } else {
                assert(body_views(s)[k] == body_views(s.drop_first())[k - 1]);
                assert(s.drop_first()[k - 1] == s[k]);
            }
        }
    }
}

/// A copy of an instruction whose view is the view of the original.
#[verifier::loop_isolation(false)]
pub(crate) fn clone_instruction(i: &Instruction) -> (r: Instruction)
    ensures
        r@ == i@,
    decreases i,
{
    match i {
        Instruction::PushData(n) => Instruction::PushData(*n),
        Instruction::PushFunction(f) => Instruction::PushFunction(f.clone()),
        Instruction::PushRandom => Instruction::PushRandom,
        Instruction::PushArg(k) => Instruction::PushArg(*k),
        Instruction::Define(f, a, b) => {
            let mut body: Vec<Instruction> = Vec::new();
            let mut k: usize = 0;
            while k < b.len()
                invariant
                    k <= b.len(),
                    body@.len() == k,
                    forall|j: int| 0 <= j < k ==> #[trigger] body@[j]@ == b@[j]@,
                decreases b.len() - k,
            {
                proof {
                    assert(*i == Instruction::Define(*f, *a, *b));
                    assert(decreases_to!(Instruction::Define(*f, *a, *b) => *b));
                    assert(decreases_to!(*b => b@));
                    assert(decreases_to!(b@ => b@[k as int]));
                }
                body.push(clone_instruction(&b[k]));
                k = k + 1;
            }
            let name = f.clone();
            assert(name@ == f@);
            let r = Instruction::Define(name, *a, body);
            proof {
                lemma_body_views(body@);
                lemma_body_views(b@);
                assert forall|j: int|
                    0 <= j < b@.len() implies body_views(body@)[j] == body_views(b@)[j] by {
                    assert(body@[j]@ == b@[j]@);
                }
                assert(body_views(body@) =~= body_views(b@));
            }
            assert(r@ == i@);
            r
        },
        Instruction::CallIf => Instruction::CallIf,
        Instruction::Exit => Instruction::Exit,
    }
}


// ---------------------------------------------------------------------------
// The grammar, as a relation between tokens and instructions
// ---------------------------------------------------------------------------
/// `new` extends `old`: nothing already consumed is ever taken back.
pub open spec fn extends(old_toks: Seq<TokenView>, new_toks: Seq<TokenView>) -> bool {
    new_toks.len() >= old_toks.len() && new_toks.take(old_toks.len() as int) == old_toks
}

/// The tokens consumed beyond `old`.
pub open spec fn newly(old_toks: Seq<TokenView>, new_toks: Seq<TokenView>) -> Seq<TokenView> {
    new_toks.skip(old_toks.len() as int)
}

pub proof fn lemma_extends_refl(a: Seq<TokenView>)
    ensures
        extends(a, a),
        newly(a, a) == Seq::<TokenView>::empty(),
{
    assert(a.take(a.len() as int) =~= a);
    assert(newly(a, a) =~= Seq::<TokenView>::empty());
}

pub proof fn lemma_extends_push(a: Seq<TokenView>, t: TokenView)
    ensures
        extends(a, a.push(t)),
        newly(a, a.push(t)) == seq![t],
{
    assert(a.push(t).take(a.len() as int) =~= a);
    assert(newly(a, a.push(t)) =~= seq![t]);
}

/// Consumption composes: two successive stretches consume their tokens in
/// order.
pub proof fn lemma_extends_trans(a: Seq<TokenView>, b: Seq<TokenView>, c: Seq<TokenView>)
    requires
        extends(a, b),
        extends(b, c),
    ensures
        extends(a, c),
        newly(a, c) == newly(a, b) + newly(b, c),
{
    assert forall|i: int| 0 <= i < a.len() implies c[i] == a[i] by {
        assert(b.take(a.len() as int)[i] == b[i]);
        assert(c.take(b.len() as int)[i] == c[i]);
    }
    assert(c.take(a.len() as int) =~= a);
    assert forall|j: int| 0 <= j < b.len() - a.len() implies #[trigger] (newly(a, b) + newly(
        b,
        c,
    ))[j] == c[a.len() + j] by {
        assert(c.take(b.len() as int)[a.len() + j] == c[a.len() + j]);
    }
    assert(newly(a, c) =~= newly(a, b) + newly(b, c));
}

/// No token sequence whatever parses into a definition under a reserved
/// name, nor into a definition nested inside another.
pub proof fn lemma_no_reserved_define(
    toks: Seq<TokenView>,
    inside_defn: bool,
    name: Seq<char>,
    arity: u32,
    body: Seq<InstrView>,
)
    requires
        grammar_instr(toks, inside_defn, InstrView::Define(name, arity, body)),
    ensures
        !reserved_name(name),
        !inside_defn,
{
}

/// No instruction parses from nothing.
pub proof fn lemma_grammar_instr_nonempty(toks: Seq<TokenView>, inside_defn: bool, i: InstrView)
    requires
        grammar_instr(toks, inside_defn, i),
    ensures
        toks.len() > 0,
{
    match i {
        InstrView::PushData(n) => {},
        InstrView::PushFunction(f) => {},
        InstrView::PushRandom => {},
        InstrView::PushArg(k) => {},
        InstrView::Define(name, arity, body) => {},
        InstrView::CallIf => {},
        InstrView::Exit => {},
    }
}

/// Exactly which token sequences parse, by themselves, into a given
/// instruction. A `Define` consumes its six-token head, then its body as
/// `grammar_body` says.
pub open spec fn grammar_instr(toks: Seq<TokenView>, inside_defn: bool, i: InstrView) -> bool
    decreases i,
    via grammar_instr_decreases
{
    match i {
        InstrView::PushData(n) => toks == seq![TokenView::Push, TokenView::Word(n)],
        InstrView::PushFunction(f) => toks == seq![TokenView::Push, TokenView::FunctionName(f)],
        InstrView::PushRandom => toks == seq![TokenView::Push, TokenView::Asterisk],
        InstrView::PushArg(k) => inside_defn && toks == seq![
            TokenView::Push,
            TokenView::Argument(k),
        ],
        InstrView::Define(name, arity, body) => !inside_defn && !reserved_name(name)
            && toks.len() >= 6 && toks.take(6) == seq![
            TokenView::Defn,
            TokenView::FunctionName(name),
            TokenView::LeftParen,
            TokenView::Word(arity),
            TokenView::RightParen,
            TokenView::LeftCurlyBracket,
        ] && grammar_body(toks.skip(6), body),
        InstrView::CallIf => toks == seq![TokenView::CallIf],
        InstrView::Exit => toks == seq![TokenView::Exit],
    }
}

/// Exactly which token sequences parse into the instructions of a body,
/// closing brace included: each instruction consumes its own tokens in turn,
/// and the last token is the brace that ends the body.
pub open spec fn grammar_body(toks: Seq<TokenView>, body: Seq<InstrView>) -> bool
    decreases body,
    via grammar_body_decreases
{
    if body.len() == 0 {
        toks == seq![TokenView::RightCurlyBracket]
    } else {
        exists|k: int|
            #![trigger toks.take(k)]
            0 < k <= toks.len() && grammar_instr(toks.take(k), true, body[0]) && grammar_body(
                toks.skip(k),
                body.drop_first(),
            )
    }
}

#[via_fn]
proof fn grammar_instr_decreases(toks: Seq<TokenView>, inside_defn: bool, i: InstrView) {
    match i {
        InstrView::Define(name, arity, body) => {
            assert(decreases_to!(i => body));
        },
        _ => {},
    }
}

#[via_fn]
proof fn grammar_body_decreases(toks: Seq<TokenView>, body: Seq<InstrView>) {
    if body.len() > 0 {
        assert(decreases_to!(body => body[0]));
        assert(body.drop_first() == body.subrange(1, body.len() as int));
        vstd::seq::axiom_seq_subrange_decreases(body, 1, body.len() as int);
    }
}

/// Body chunks without the closing brace: the shape a body loop maintains
/// while it still runs.
pub open spec fn grammar_chunks(toks: Seq<TokenView>, body: Seq<InstrView>) -> bool
    decreases body,
    via grammar_chunks_decreases
{
    if body.len() == 0 {
        toks == Seq::<TokenView>::empty()
    } else {
        exists|k: int|
            #![trigger toks.take(k)]
            0 < k <= toks.len() && grammar_instr(toks.take(k), true, body[0]) && grammar_chunks(
                toks.skip(k),
                body.drop_first(),
            )
    }
}

#[via_fn]
proof fn grammar_chunks_decreases(toks: Seq<TokenView>, body: Seq<InstrView>) {
    if body.len() > 0 {
        assert(decreases_to!(body => body[0]));
        assert(body.drop_first() == body.subrange(1, body.len() as int));
        vstd::seq::axiom_seq_subrange_decreases(body, 1, body.len() as int);
    }
}

/// One more instruction extends the chunks on the right.
pub proof fn lemma_chunks_snoc(
    t1: Seq<TokenView>,
    body: Seq<InstrView>,
    t2: Seq<TokenView>,
    i: InstrView,
)
    requires
        grammar_chunks(t1, body),
        grammar_instr(t2, true, i),
        t2.len() > 0,
    ensures
        grammar_chunks(t1 + t2, body.push(i)),
    decreases body.len(),
{
    let whole = t1 + t2;
    let grown = body.push(i);
    if body.len() == 0 {
        assert(whole =~= t2);
        assert(grown[0] == i);
        assert(whole.take(t2.len() as int) =~= t2);
        assert(whole.skip(t2.len() as int) =~= Seq::<TokenView>::empty());
        assert(grown.drop_first() =~= Seq::<InstrView>::empty());
        assert(grammar_chunks(whole.skip(t2.len() as int), grown.drop_first()));
        assert(0 < t2.len() <= whole.len() && grammar_instr(
            whole.take(t2.len() as int),
            true,
            grown[0],
        ) && grammar_chunks(whole.skip(t2.len() as int), grown.drop_first()));
    } else {
        let k = choose|k: int|
            #![trigger t1.take(k)]
            0 < k <= t1.len() && grammar_instr(t1.take(k), true, body[0]) && grammar_chunks(
                t1.skip(k),
                body.drop_first(),
            );
        lemma_chunks_snoc(t1.skip(k), body.drop_first(), t2, i);
        assert(t1.skip(k) + t2 =~= whole.skip(k));
        assert(body.drop_first().push(i) =~= grown.drop_first());
        assert(whole.take(k) =~= t1.take(k));
        assert(grown[0] == body[0]);
        assert(0 < k <= whole.len() && grammar_instr(whole.take(k), true, grown[0])
            && grammar_chunks(whole.skip(k), grown.drop_first()));
        assert(grammar_chunks(whole, grown));
    }
}

/// The closing brace turns accumulated chunks into a complete body.
pub proof fn lemma_chunks_close(t1: Seq<TokenView>, body: Seq<InstrView>)
    requires
        grammar_chunks(t1, body),
    ensures
        grammar_body(t1 + seq![TokenView::RightCurlyBracket], body),
    decreases body.len(),
{
    let whole = t1 + seq![TokenView::RightCurlyBracket];
    if body.len() == 0 {
        assert(whole =~= seq![TokenView::RightCurlyBracket]);
    } else {
        let k = choose|k: int|
            #![trigger t1.take(k)]
            0 < k <= t1.len() && grammar_instr(t1.take(k), true, body[0]) && grammar_chunks(
                t1.skip(k),
                body.drop_first(),
            );
        lemma_chunks_close(t1.skip(k), body.drop_first());
        assert(t1.skip(k) + seq![TokenView::RightCurlyBracket] =~= whole.skip(k));
        assert(whole.take(k) =~= t1.take(k));
        assert(0 < k <= whole.len() && grammar_instr(whole.take(k), true, body[0])
            && grammar_body(whole.skip(k), body.drop_first()));
        assert(grammar_body(whole, body));
    }
}


// ---------------------------------------------------------------------------
// The errors, as a relation between consumed tokens and the error value
// ---------------------------------------------------------------------------
/// The line source handed over a line that does not tokenize: the last line
/// served carries the lexing error. This is the one failure the parser
/// cannot determine from tokens, since it happens below them.
pub open spec fn failed_lexing(
    pre_lines: Seq<Seq<char>>,
    post_lines: Seq<Seq<char>>,
    e: SyntaxErrorView,
) -> bool {
    post_lines.len() > pre_lines.len() && crate::lexer::spec_lex(post_lines.last()) == Err::<
        Seq<TokenView>,
        SyntaxErrorView,
    >(e)
}

/// The error a lone token draws at the head of an instruction, if any.
pub open spec fn single_token_error(t: TokenView, inside_defn: bool, e: SyntaxErrorView) -> bool {
    match t {
        TokenView::Push => false,
        TokenView::Defn => inside_defn && e == SyntaxErrorView::NestedDefinition,
        TokenView::CallIf => false,
        TokenView::Exit => false,
        TokenView::RightCurlyBracket => !inside_defn && e == SyntaxErrorView::UnexpectedToken(t),
        _ => e == SyntaxErrorView::UnexpectedToken(t),
    }
}

/// The error the token after `PUSH` draws, if any.
pub open spec fn push_value_error(t: TokenView, inside_defn: bool, e: SyntaxErrorView) -> bool {
    match t {
        TokenView::Word(_) => false,
        TokenView::FunctionName(_) => false,
        TokenView::Asterisk => false,
        TokenView::Argument(_) => !inside_defn && e == SyntaxErrorView::ArgumentOutsideFunction,
        _ => e == SyntaxErrorView::UnexpectedToken(t),
    }
}

/// The failures of a definition body: zero or more complete instructions,
/// then a failing unit.
pub open spec fn body_error(fname: Seq<char>, nt: Seq<TokenView>, e: SyntaxErrorView) -> bool {
    exists|k: int, b: Seq<InstrView>|
        #![trigger grammar_chunks(nt.take(k), b)]
        0 <= k <= nt.len() && grammar_chunks(nt.take(k), b) && instr_error_inside(
            nt.skip(k),
            fname,
            e,
        )
}

/// The failures of one instruction inside the body of a definition named
/// `fname`, over exactly the tokens consumed; the empty case is the end of
/// input in the unterminated body.
pub open spec fn instr_error_inside(
    nt: Seq<TokenView>,
    fname: Seq<char>,
    e: SyntaxErrorView,
) -> bool {
    ||| (nt == Seq::<TokenView>::empty() && e == SyntaxErrorView::UnexpectedEndInBody(fname))
    ||| (nt.len() == 1 && single_token_error(nt[0], true, e))
    ||| (nt.len() == 1 && nt[0] == TokenView::Push && e == SyntaxErrorView::UnexpectedEndAfter(
        TokenView::Push,
    ))
    ||| (nt.len() == 2 && nt[0] == TokenView::Push && push_value_error(nt[1], true, e))
}

/// The failures after `DEFN` and `(`: the arity word, `)`, `{`, the body.
pub open spec fn defn_after_open(f: Seq<char>, nt: Seq<TokenView>, e: SyntaxErrorView) -> bool {
    ||| (nt == Seq::<TokenView>::empty() && e == SyntaxErrorView::UnexpectedEndInSignature(f))
    ||| (nt.len() == 1 && !(nt[0] is Word) && e == SyntaxErrorView::UnexpectedToken(nt[0]))
    ||| (nt.len() >= 1 && nt[0] is Word && defn_after_arity(f, nt.skip(1), e))
}

pub open spec fn defn_after_arity(f: Seq<char>, nt: Seq<TokenView>, e: SyntaxErrorView) -> bool {
    ||| (nt == Seq::<TokenView>::empty() && e == SyntaxErrorView::UnexpectedEndInSignature(f))
    ||| (nt.len() == 1 && nt[0] != TokenView::RightParen && e == SyntaxErrorView::UnexpectedToken(
        nt[0],
    ))
    ||| (nt.len() >= 1 && nt[0] == TokenView::RightParen && defn_after_close(f, nt.skip(1), e))
}

pub open spec fn defn_after_close(f: Seq<char>, nt: Seq<TokenView>, e: SyntaxErrorView) -> bool {
    ||| (nt == Seq::<TokenView>::empty() && e == SyntaxErrorView::UnexpectedEndInSignature(f))
    ||| (nt.len() == 1 && nt[0] != TokenView::LeftCurlyBracket
        && e == SyntaxErrorView::UnexpectedToken(nt[0]))
    ||| (nt.len() >= 1 && nt[0] == TokenView::LeftCurlyBracket && body_error(f, nt.skip(1), e))
}

/// The failures after `DEFN` and the function's name.
pub open spec fn defn_after_name(f: Seq<char>, nt: Seq<TokenView>, e: SyntaxErrorView) -> bool {
    ||| (nt == Seq::<TokenView>::empty() && e == SyntaxErrorView::UnexpectedEndInSignature(f))
    ||| (nt.len() == 1 && nt[0] != TokenView::LeftParen && e == SyntaxErrorView::UnexpectedToken(
        nt[0],
    ))
    ||| (nt.len() >= 1 && nt[0] == TokenView::LeftParen && defn_after_open(f, nt.skip(1), e))
}

/// The failures of a definition, over the tokens consumed after the `DEFN`
/// keyword: a missing or reserved name, then the strict signature order, the
/// brace and the body, each mismatch its own error.
pub open spec fn defn_error(nt: Seq<TokenView>, e: SyntaxErrorView) -> bool {
    ||| (nt == Seq::<TokenView>::empty() && e == SyntaxErrorView::UnexpectedEndAfter(
        TokenView::Defn,
    ))
    ||| (nt.len() == 1 && !(nt[0] is FunctionName) && e == SyntaxErrorView::UnexpectedToken(nt[0]))
    ||| (nt.len() == 1 && nt[0] is FunctionName && reserved_name(nt[0]->FunctionName_0) && e
        == SyntaxErrorView::ReservedFunctionName(nt[0]->FunctionName_0))
    ||| (nt.len() >= 1 && nt[0] is FunctionName && !reserved_name(nt[0]->FunctionName_0)
        && defn_after_name(nt[0]->FunctionName_0, nt.skip(1), e))
}

/// The failures of one top-level instruction, over exactly the tokens
/// consumed. Together with `failed_lexing` this is everything an error from
/// the parser can be: each consumed prefix determines its error.
pub open spec fn instr_error(nt: Seq<TokenView>, e: SyntaxErrorView) -> bool {
    ||| (nt.len() == 1 && single_token_error(nt[0], false, e))
    ||| (nt.len() == 1 && nt[0] == TokenView::Push && e == SyntaxErrorView::UnexpectedEndAfter(
        TokenView::Push,
    ))
    ||| (nt.len() == 2 && nt[0] == TokenView::Push && push_value_error(nt[1], false, e))
    ||| (nt.len() >= 1 && nt[0] == TokenView::Defn && defn_error(nt.skip(1), e))
}

// ---------------------------------------------------------------------------
// The parser
// ---------------------------------------------------------------------------
/// What the parser guarantees of every instruction it returns: a `PushArg`
/// only inside a definition, and a `Define` only at top level, under an
/// unreserved name, with no definition nested in its body.
pub open spec fn parsed_instr_wf(i: InstrView, inside_defn: bool) -> bool {
    match i {
        InstrView::PushArg(_) => inside_defn,
        InstrView::Define(name, arity, body) => !inside_defn && !reserved_name(name) && (forall|
            j: int,
        | 0 <= j < body.len() ==> !((#[trigger] body[j]) is Define)),
        _ => true,
    }
}

/// Whether two tokens are the same, payloads included.
fn token_eq(a: &Token, b: &Token) -> (r: bool)
    ensures
        r == (a@ == b@),
{
    match a {
        Token::Push => match b {
            Token::Push => true,
            _ => false,
        },
        Token::Defn => match b {
            Token::Defn => true,
            _ => false,
        },
        Token::CallIf => match b {
            Token::CallIf => true,
            _ => false,
        },
        Token::Exit => match b {
            Token::Exit => true,
            _ => false,
        },
        Token::Asterisk => match b {
            Token::Asterisk => true,
            _ => false,
        },
        Token::LeftCurlyBracket => match b {
            Token::LeftCurlyBracket => true,
            _ => false,
        },
        Token::RightCurlyBracket => match b {
            Token::RightCurlyBracket => true,
            _ => false,
        },
        Token::LeftParen => match b {
            Token::LeftParen => true,
            _ => false,
        },
        Token::RightParen => match b {
            Token::RightParen => true,
            _ => false,
        },
        Token::FunctionName(f) => match b {
            Token::FunctionName(g) => f.eq(g),
            _ => false,
        },
        Token::Word(m) => match b {
            Token::Word(n) => *m == *n,
            _ => false,
        },
        Token::Argument(m) => match b {
            Token::Argument(n) => *m == *n,
            _ => false,
        },
    }
}

/// The recursive-descent parser: it pulls tokens from its lexer and tracks
/// the nesting depth of the construct being read, so that the line source can
/// prompt accordingly. Between top-level instructions the depth is zero; a
/// failure resets it there.
pub struct Parser<T: Reader> {
    lexer: Lexer<T>,
    depth: usize,
}

impl<T: Reader> Parser<T> {
    /// The nesting depth handed to the line source.
    pub closed spec fn depth(&self) -> usize {
        self.depth
    }

    /// The tokens already cut but not yet consumed.
    pub closed spec fn buffered(&self) -> Seq<TokenView> {
        self.lexer.pending()
    }

    /// How many more lines the line source can still serve.
    pub closed spec fn budget(&self) -> nat {
        self.lexer.budget()
    }

    /// Every token consumed so far, in order.
    pub closed spec fn consumed(&self) -> Seq<TokenView> {
        self.lexer.consumed()
    }

    /// Every line the source has served so far, in order.
    pub closed spec fn served(&self) -> Seq<Seq<char>> {
        self.lexer.served()
    }

    pub fn new(reader: T) -> (r: Self)
        ensures
            r.depth() == 0,
            r.buffered().len() == 0,
            r.consumed().len() == 0,
    {
        Parser { lexer: Lexer::new(reader), depth: 0 }
    }

    /// The next top-level instruction, or `None` at the end of the input.
    /// The tokens consumed by a successful call parse, by the grammar alone,
    /// into exactly the instruction returned; a clean end of input consumes
    /// nothing and happens only with an empty token queue. An error is either
    /// the lexing error of the last line the source served, or the syntax
    /// error that `instr_error` fixes for the consumed tokens; and where the
    /// queued tokens already decide the outcome, that outcome is owed: a
    /// queued `CALLIF` or `EXIT` must parse, a queued `PUSH` with its value
    /// must parse, a stray token must draw its unexpected-token error, and a
    /// queued `DEFN` of a reserved name must draw the reserved-name error
    /// whatever follows. On an error the depth is reset, so a failure in the
    /// middle of a construct leaves no stale continuation-prompt state.
    pub fn next_instruction(&mut self) -> (r: Result<Option<Instruction>, SyntaxError>)
        requires
            old(self).depth() == 0,
        ensures
            final(self).budget() <= old(self).budget(),
            final(self).served().len() >= old(self).served().len(),
            extends(old(self).consumed(), final(self).consumed()),
            match r {
                Ok(i) => final(self).depth() == 0 && (match i {
                    Some(x) => parsed_instr_wf(x@, false) && grammar_instr(
                        newly(old(self).consumed(), final(self).consumed()),
                        false,
                        x@,
                    ),
                    None => newly(old(self).consumed(), final(self).consumed()) == Seq::<
                        TokenView,
                    >::empty() && old(self).buffered().len() == 0,
                }),
                Err(_) => final(self).depth() == 0,
            },
            r matches Err(e) ==> failed_lexing(old(self).served(), final(self).served(), e@)
                || instr_error(newly(old(self).consumed(), final(self).consumed()), e@),
            old(self).buffered().len() >= 1 ==> (match old(self).buffered()[0] {
                TokenView::CallIf => r matches Ok(Some(i)) && i@ == InstrView::CallIf,
                TokenView::Exit => r matches Ok(Some(i)) && i@ == InstrView::Exit,
                TokenView::Defn => true,
                TokenView::Push => true,
                _ => r matches Err(e) && e@ == SyntaxErrorView::UnexpectedToken(
                    old(self).buffered()[0],
                ),
            }),
            (old(self).buffered().len() >= 2 && old(self).buffered()[0] == TokenView::Push) ==> (
            match old(self).buffered()[1] {
                TokenView::Word(_) => r is Ok,
                TokenView::FunctionName(_) => r is Ok,
                TokenView::Asterisk => r is Ok,
                _ => r is Err,
            }),
            (old(self).buffered().len() >= 2 && old(self).buffered()[0] == TokenView::Defn && (
            old(self).buffered()[1] matches TokenView::FunctionName(f) && reserved_name(f)))
                ==> (r matches Err(e) && e@ == SyntaxErrorView::ReservedFunctionName(
                old(self).buffered()[1]->FunctionName_0,
            )),
    {
        let empty = String::new();
        match self.consume_instruction(false, empty.as_str()) {
            Err(e) => {
                // a failure mid-construct must not leave stale
                // continuation-prompt state behind
                self.depth = 0;
                Err(e)
            },
            Ok(x) => Ok(x),
        }
    }

    /// Discards the rest of the current line.
    pub fn clear_line(&mut self)
        ensures
            final(self).buffered().len() == 0,
            final(self).depth() == old(self).depth(),
            final(self).budget() == old(self).budget(),
            final(self).consumed() == old(self).consumed(),
    {
        self.lexer.clear();
    }

    /// True when no token of the current line is left.
    pub fn full_line_consumed(&mut self) -> (r: bool)
        ensures
            *final(self) == *old(self),
            r == (old(self).buffered().len() == 0),
    {
        self.lexer.full_line_consumed()
    }

    fn consume_instruction(&mut self, inside_defn: bool, func_name: &str) -> (r: Result<
        Option<Instruction>,
        SyntaxError,
    >)
        requires
            old(self).depth() == (if inside_defn {
                1int
            } else {
                0int
            }),
        ensures
            final(self).budget() <= old(self).budget(),
            final(self).budget() == old(self).budget() ==> final(self).buffered().len() <= old(self).buffered().len(),
            final(self).served().len() >= old(self).served().len(),
            extends(old(self).consumed(), final(self).consumed()),
            r matches Ok(Some(_)) ==> (final(self).budget() < old(self).budget() || final(self).buffered().len() < old(self).buffered().len()),
            r matches Ok(Some(i)) ==> parsed_instr_wf(i@, inside_defn) && grammar_instr(
                newly(old(self).consumed(), final(self).consumed()),
                inside_defn,
                i@,
            ),
            r matches Ok(None) ==> newly(old(self).consumed(), final(self).consumed()) == (
            if inside_defn {
                seq![TokenView::RightCurlyBracket]
            } else {
                Seq::<TokenView>::empty()
            }),
            r matches Ok(None) && !inside_defn ==> old(self).buffered().len() == 0,
            r matches Ok(_) ==> final(self).depth() == old(self).depth(),
            r matches Err(e) ==> failed_lexing(old(self).served(), final(self).served(), e@) || (
            if inside_defn {
                instr_error_inside(
                    newly(old(self).consumed(), final(self).consumed()),
                    func_name@,
                    e@,
                )
            } else {
                instr_error(newly(old(self).consumed(), final(self).consumed()), e@)
            }),
            old(self).buffered().len() >= 1 ==> (match old(self).buffered()[0] {
                TokenView::CallIf => r matches Ok(Some(i)) && i@ == InstrView::CallIf,
                TokenView::Exit => r matches Ok(Some(i)) && i@ == InstrView::Exit,
                TokenView::RightCurlyBracket => if inside_defn {
                    r matches Ok(None)
                } else {
                    r matches Err(e) && e@ == SyntaxErrorView::UnexpectedToken(
                        TokenView::RightCurlyBracket,
                    )
                },
                TokenView::Defn => inside_defn ==> (r matches Err(e) && e@
                    == SyntaxErrorView::NestedDefinition),
                TokenView::Push => true,
                _ => r matches Err(e) && e@ == SyntaxErrorView::UnexpectedToken(
                    old(self).buffered()[0],
                ),
            }),
            (old(self).buffered().len() >= 2 && old(self).buffered()[0] == TokenView::Push) ==> (
            match old(self).buffered()[1] {
                TokenView::Word(_) => r is Ok,
                TokenView::FunctionName(_) => r is Ok,
                TokenView::Asterisk => r is Ok,
                TokenView::Argument(_) => if inside_defn {
                    r is Ok
                } else {
                    r matches Err(e) && e@ == SyntaxErrorView::ArgumentOutsideFunction
                },
                _ => r matches Err(e) && e@ == SyntaxErrorView::UnexpectedToken(
                    old(self).buffered()[1],
                ),
            }),
            (old(self).buffered().len() >= 2 && old(self).buffered()[0] == TokenView::Defn
                && !inside_defn && (old(self).buffered()[1] matches TokenView::FunctionName(f)
                && reserved_name(f))) ==> (r matches Err(e) && e@
                == SyntaxErrorView::ReservedFunctionName(
                old(self).buffered()[1]->FunctionName_0,
            )),
        decreases (if inside_defn {
            0int
        } else {
            3int
        }),
    {
        let ghost c0 = self.consumed();
        proof {
            lemma_extends_refl(c0);
        }
        match self.lexer.next_token(self.depth) {
            Err(e) => Err(e),
            Ok(None) => {
                if inside_defn {
                    Err(SyntaxError::UnexpectedEndInBody(func_name.to_owned()))
                } else {
                    Ok(None)
                }
            },
            Ok(Some(t)) => {
                let ghost c1 = self.consumed();
                proof {
                    lemma_extends_push(c0, t@);
                }
                match t {
                    Token::Push => {
                        let r = self.consume_push(inside_defn);
                        proof {
                            lemma_extends_trans(c0, c1, self.consumed());
                            let nt = newly(c0, self.consumed());
                            let sub = newly(c1, self.consumed());
                            assert(nt == seq![TokenView::Push] + sub);
                            if r is Err && !failed_lexing(old(self).served(), self.served(), (r->Err_0)@) {
                                if sub == Seq::<TokenView>::empty() {
                                    assert(nt =~= seq![TokenView::Push]);
                                } else {
                                    assert(nt =~= seq![TokenView::Push, sub[0]]);
                                }
                            }
                        }
                        r
                    },
                    Token::Defn => {
                        if inside_defn {
                            proof {
                                assert(newly(c0, self.consumed()) =~= seq![TokenView::Defn]);
                            }
                            Err(SyntaxError::NestedDefinition)
                        } else {
                            let r = self.consume_defn();
                            proof {
                                lemma_extends_trans(c0, c1, self.consumed());
                                let nt = newly(c0, self.consumed());
                                let sub = newly(c1, self.consumed());
                                assert(nt == seq![TokenView::Defn] + sub);
                                assert(nt.len() >= 1 && nt[0] == TokenView::Defn);
                                assert(nt.skip(1) =~= sub);
                            }
                            r
                        }
                    },
                    Token::CallIf => {
                        proof {
                            assert(newly(c0, self.consumed()) =~= seq![TokenView::CallIf]);
                        }
                        Ok(Some(Instruction::CallIf))
                    },
                    Token::Exit => {
                        proof {
                            assert(newly(c0, self.consumed()) =~= seq![TokenView::Exit]);
                        }
                        Ok(Some(Instruction::Exit))
                    },
                    Token::RightCurlyBracket => {
                        proof {
                            assert(newly(c0, self.consumed()) =~= seq![
                                TokenView::RightCurlyBracket,
                            ]);
                        }
                        if inside_defn {
                            Ok(None)
                        } else {
                            Err(SyntaxError::UnexpectedToken(Token::RightCurlyBracket))
                        }
                    },
                    other => {
                        proof {
                            assert(newly(c0, self.consumed()) =~= seq![other@]);
                        }
                        Err(SyntaxError::UnexpectedToken(other))
                    },
                }
            },
        }
    }

    fn consume_push(&mut self, inside_defn: bool) -> (r: Result<Option<Instruction>, SyntaxError>)
        requires
            old(self).depth() <= 1,
        ensures
            final(self).budget() <= old(self).budget(),
            final(self).budget() == old(self).budget() ==> final(self).buffered().len() <= old(self).buffered().len(),
            final(self).served().len() >= old(self).served().len(),
            extends(old(self).consumed(), final(self).consumed()),
            r matches Ok(Some(_)) ==> (final(self).budget() < old(self).budget() || final(self).buffered().len() < old(self).buffered().len()),
            r matches Ok(i) ==> i is Some,
            r matches Ok(Some(i)) ==> parsed_instr_wf(i@, inside_defn) && !(i@ is Define) && final(self).depth() == old(self).depth() && grammar_instr(
                seq![TokenView::Push] + newly(old(self).consumed(), final(self).consumed()),
                inside_defn,
                i@,
            ),
            r matches Err(e) ==> failed_lexing(old(self).served(), final(self).served(), e@) || ({
                let nt = newly(old(self).consumed(), final(self).consumed());
                ||| (nt == Seq::<TokenView>::empty() && e@ == SyntaxErrorView::UnexpectedEndAfter(
                    TokenView::Push,
                ))
                ||| (nt.len() == 1 && push_value_error(nt[0], inside_defn, e@))
            }),
            old(self).buffered().len() >= 1 ==> (match old(self).buffered()[0] {
                TokenView::Word(_) => r is Ok,
                TokenView::FunctionName(_) => r is Ok,
                TokenView::Asterisk => r is Ok,
                TokenView::Argument(_) => if inside_defn {
                    r is Ok
                } else {
                    r matches Err(e) && e@ == SyntaxErrorView::ArgumentOutsideFunction
                },
                _ => r matches Err(e) && e@ == SyntaxErrorView::UnexpectedToken(
                    old(self).buffered()[0],
                ),
            }),
    {
        let ghost c0 = self.consumed();
        proof {
            lemma_extends_refl(c0);
        }
        // a continuation line may supply the value, so the prompt deepens
        self.depth = self.depth + 1;
        let instruction = match self.lexer.next_token(self.depth) {
            Err(e) => return Err(e),
            Ok(None) => return Err(SyntaxError::UnexpectedEndAfter(Token::Push)),
            Ok(Some(t)) => {
                proof {
                    lemma_extends_push(c0, t@);
                }
                match t {
                    Token::Word(n) => Instruction::PushData(n),
                    Token::FunctionName(f) => Instruction::PushFunction(f),
                    Token::Asterisk => Instruction::PushRandom,
                    Token::Argument(n) => {
                        if !inside_defn {
                            return Err(SyntaxError::ArgumentOutsideFunction);
                        }
                        Instruction::PushArg(n)
                    },
                    other => return Err(SyntaxError::UnexpectedToken(other)),
                }
            },
        };
        self.depth = self.depth - 1;
        proof {
            assert(seq![TokenView::Push] + newly(c0, self.consumed()) =~= seq![
                TokenView::Push,
                newly(c0, self.consumed())[0],
            ]);
        }
        Ok(Some(instruction))
    }

    #[verifier::rlimit(100)]
    fn consume_defn(&mut self) -> (r: Result<Option<Instruction>, SyntaxError>)
        requires
            old(self).depth() == 0,
        ensures
            final(self).budget() <= old(self).budget(),
            final(self).budget() == old(self).budget() ==> final(self).buffered().len() <= old(self).buffered().len(),
            final(self).served().len() >= old(self).served().len(),
            extends(old(self).consumed(), final(self).consumed()),
            r matches Ok(Some(_)) ==> (final(self).budget() < old(self).budget() || final(self).buffered().len() < old(self).buffered().len()),
            r matches Ok(i) ==> i is Some,
            r matches Ok(Some(i)) ==> parsed_instr_wf(i@, false) && final(self).depth() == 0
                && grammar_instr(
                seq![TokenView::Defn] + newly(old(self).consumed(), final(self).consumed()),
                false,
                i@,
            ),
            r matches Err(e) ==> failed_lexing(old(self).served(), final(self).served(), e@)
                || defn_error(newly(old(self).consumed(), final(self).consumed()), e@),
            old(self).buffered().len() >= 1 ==> (match old(self).buffered()[0] {
                TokenView::FunctionName(f) => reserved_name(f) ==> (r matches Err(e) && e@
                    == SyntaxErrorView::ReservedFunctionName(f)),
                _ => r matches Err(e) && e@ == SyntaxErrorView::UnexpectedToken(
                    old(self).buffered()[0],
                ),
            }),
        decreases 2int,
    {
        let ghost c0 = self.consumed();
        proof {
            lemma_extends_refl(c0);
        }
        // the signature and body may span further lines
        self.depth = self.depth + 1;
        let func_name = match self.lexer.next_token(self.depth) {
            Err(e) => return Err(e),
            Ok(None) => return Err(SyntaxError::UnexpectedEndAfter(Token::Defn)),
            Ok(Some(t)) => {
                proof {
                    lemma_extends_push(c0, t@);
                }
                match t {
                    Token::FunctionName(f) => f,
                    other => {
                        proof {
                            assert(newly(c0, self.consumed()) =~= seq![other@]);
                        }
                        return Err(SyntaxError::UnexpectedToken(other));
                    },
                }
            },
        };
        let ghost c1 = self.consumed();
        proof {
            assert(newly(c0, c1) =~= seq![TokenView::FunctionName(func_name@)]);
        }
        if is_reserved(func_name.as_str()) {
            return Err(SyntaxError::ReservedFunctionName(func_name));
        }
        match self.expect(Token::LeftParen, SyntaxError::UnexpectedEndInSignature(
            func_name.clone(),
        )) {
            Err(e) => {
                proof {
                    lemma_extends_trans(c0, c1, self.consumed());
                    if !failed_lexing(old(self).served(), self.served(), e@) {
                        let nt = newly(c0, self.consumed());
                        let sub = newly(c1, self.consumed());
                        if sub == Seq::<TokenView>::empty() {
                            assert(nt =~= seq![TokenView::FunctionName(func_name@)]);
                            assert(nt.skip(1) =~= Seq::<TokenView>::empty());
                        } else {
                            assert(nt =~= seq![TokenView::FunctionName(func_name@), sub[0]]);
                            assert(nt.skip(1) =~= seq![sub[0]]);
                        }
                        assert(defn_after_name(func_name@, nt.skip(1), e@));
                        assert(defn_error(nt, e@));
                    }
                }
                return Err(e);
            },
            Ok(_) => {},
        }
        let ghost c2 = self.consumed();
        proof {
            lemma_extends_trans(c0, c1, c2);
            lemma_extends_refl(c2);
            assert(newly(c0, c2) =~= seq![
                TokenView::FunctionName(func_name@),
                TokenView::LeftParen,
            ]);
        }
        let arg_count = match self.lexer.next_token(self.depth) {
            Err(e) => return Err(e),
            Ok(None) => {
                proof {
                    assert(newly(c0, c2).skip(1) =~= seq![TokenView::LeftParen]);
                    assert(newly(c0, c2).skip(1).skip(1) =~= Seq::<TokenView>::empty());
                }
                return Err(SyntaxError::UnexpectedEndInSignature(func_name.clone()));
            },
            Ok(Some(t)) => {
                proof {
                    lemma_extends_push(c2, t@);
                    lemma_extends_trans(c0, c2, self.consumed());
                }
                match t {
                    Token::Word(n) => n,
                    other => {
                        proof {
                            let nt = newly(c0, self.consumed());
                            assert(nt =~= seq![
                                TokenView::FunctionName(func_name@),
                                TokenView::LeftParen,
                                other@,
                            ]);
                            assert(nt.skip(1) =~= seq![TokenView::LeftParen, other@]);
                            assert(nt.skip(1).skip(1) =~= seq![other@]);
                        }
                        return Err(SyntaxError::UnexpectedToken(other));
                    },
                }
            },
        };
        let ghost c3 = self.consumed();
        proof {
            assert(newly(c0, c3) =~= seq![
                TokenView::FunctionName(func_name@),
                TokenView::LeftParen,
                TokenView::Word(arg_count),
            ]);
        }
        match self.expect(Token::RightParen, SyntaxError::UnexpectedEndInSignature(
            func_name.clone(),
        )) {
            Err(e) => {
                proof {
                    lemma_extends_trans(c0, c3, self.consumed());
                    if !failed_lexing(old(self).served(), self.served(), e@) {
                        let nt = newly(c0, self.consumed());
                        let sub = newly(c3, self.consumed());
                        if sub == Seq::<TokenView>::empty() {
                            assert(nt =~= seq![TokenView::FunctionName(func_name@), TokenView::LeftParen, TokenView::Word(arg_count)]);
                            assert(nt.skip(1) =~= seq![TokenView::LeftParen, TokenView::Word(arg_count)]);
                            assert(nt.skip(1).skip(1) =~= seq![TokenView::Word(arg_count)]);
                            assert(nt.skip(1).skip(1).skip(1) =~= Seq::<TokenView>::empty());
                        } else {
                            assert(nt =~= seq![TokenView::FunctionName(func_name@), TokenView::LeftParen, TokenView::Word(arg_count), sub[0]]);
                            assert(nt.skip(1) =~= seq![TokenView::LeftParen, TokenView::Word(arg_count), sub[0]]);
                            assert(nt.skip(1).skip(1) =~= seq![TokenView::Word(arg_count), sub[0]]);
                            assert(nt.skip(1).skip(1).skip(1) =~= seq![sub[0]]);
                        }
                        assert(defn_after_arity(func_name@, nt.skip(1).skip(1).skip(1), e@));
                        assert(defn_after_open(func_name@, nt.skip(1).skip(1), e@));
                        assert(defn_after_name(func_name@, nt.skip(1), e@));
                        assert(defn_error(nt, e@));
                    }
                }
                return Err(e);
            },
            Ok(_) => {},
        }
        let ghost c4 = self.consumed();
        proof {
            lemma_extends_trans(c0, c3, c4);
            assert(newly(c0, c4) =~= seq![
                TokenView::FunctionName(func_name@),
                TokenView::LeftParen,
                TokenView::Word(arg_count),
                TokenView::RightParen,
            ]);
        }
        match self.expect(Token::LeftCurlyBracket, SyntaxError::UnexpectedEndInSignature(
            func_name.clone(),
        )) {
            Err(e) => {
                proof {
                    lemma_extends_trans(c0, c4, self.consumed());
                    if !failed_lexing(old(self).served(), self.served(), e@) {
                        let nt = newly(c0, self.consumed());
                        let sub = newly(c4, self.consumed());
                        if sub == Seq::<TokenView>::empty() {
                            assert(nt =~= seq![
                                TokenView::FunctionName(func_name@),
                                TokenView::LeftParen,
                                TokenView::Word(arg_count),
                                TokenView::RightParen,
                            ]);
                            assert(nt.skip(1) =~= seq![
                                TokenView::LeftParen,
                                TokenView::Word(arg_count),
                                TokenView::RightParen,
                            ]);
                            assert(nt.skip(1).skip(1) =~= seq![
                                TokenView::Word(arg_count),
                                TokenView::RightParen,
                            ]);
                            assert(nt.skip(1).skip(1).skip(1) =~= seq![TokenView::RightParen]);
                            assert(nt.skip(1).skip(1).skip(1).skip(1) =~= Seq::<
                                TokenView,
                            >::empty());
                        } else {
                            assert(nt =~= seq![
                                TokenView::FunctionName(func_name@),
                                TokenView::LeftParen,
                                TokenView::Word(arg_count),
                                TokenView::RightParen,
                                sub[0],
                            ]);
                            assert(nt.skip(1) =~= seq![
                                TokenView::LeftParen,
                                TokenView::Word(arg_count),
                                TokenView::RightParen,
                                sub[0],
                            ]);
                            assert(nt.skip(1).skip(1) =~= seq![
                                TokenView::Word(arg_count),
                                TokenView::RightParen,
                                sub[0],
                            ]);
                            assert(nt.skip(1).skip(1).skip(1) =~= seq![
                                TokenView::RightParen,
                                sub[0],
                            ]);
                            assert(nt.skip(1).skip(1).skip(1).skip(1) =~= seq![sub[0]]);
                        }
                        assert(defn_after_close(func_name@, nt.skip(1).skip(1).skip(1).skip(1), e@));
                        assert(defn_after_arity(func_name@, nt.skip(1).skip(1).skip(1), e@));
                        assert(defn_after_open(func_name@, nt.skip(1).skip(1), e@));
                        assert(defn_after_name(func_name@, nt.skip(1), e@));
                        assert(defn_error(nt, e@));
                    }
                }
                return Err(e);
            },
            Ok(_) => {},
        }
        let ghost c5 = self.consumed();
        proof {
            lemma_extends_trans(c0, c4, c5);
            assert(newly(c0, c5) =~= seq![
                TokenView::FunctionName(func_name@),
                TokenView::LeftParen,
                TokenView::Word(arg_count),
                TokenView::RightParen,
                TokenView::LeftCurlyBracket,
            ]);
        }
        let body = match self.consume_defn_body(func_name.as_str()) {
            Err(e) => {
                proof {
                    lemma_extends_trans(c0, c5, self.consumed());
                    if !failed_lexing(old(self).served(), self.served(), e@) {
                        let nt = newly(c0, self.consumed());
                        let sub = newly(c5, self.consumed());
                        assert(nt == newly(c0, c5) + sub);
                        assert(nt.skip(1) =~= seq![
                            TokenView::LeftParen,
                            TokenView::Word(arg_count),
                            TokenView::RightParen,
                            TokenView::LeftCurlyBracket,
                        ] + sub);
                        assert(nt.skip(1).skip(1) =~= seq![
                            TokenView::Word(arg_count),
                            TokenView::RightParen,
                            TokenView::LeftCurlyBracket,
                        ] + sub);
                        assert(nt.skip(1).skip(1).skip(1) =~= seq![
                            TokenView::RightParen,
                            TokenView::LeftCurlyBracket,
                        ] + sub);
                        assert(nt.skip(1).skip(1).skip(1).skip(1) =~= seq![
                            TokenView::LeftCurlyBracket,
                        ] + sub);
                        assert(nt.skip(1).skip(1).skip(1).skip(1).skip(1) =~= sub);
                        assert(defn_after_close(func_name@, nt.skip(1).skip(1).skip(1).skip(1), e@));
                        assert(defn_after_arity(func_name@, nt.skip(1).skip(1).skip(1), e@));
                        assert(defn_after_open(func_name@, nt.skip(1).skip(1), e@));
                        assert(defn_after_name(func_name@, nt.skip(1), e@));
                        assert(defn_error(nt, e@));
                    }
                }
                return Err(e);
            },
            Ok(b) => b,
        };
        let ghost c6 = self.consumed();
        let ghost bseq = body@;
        proof {
            lemma_extends_trans(c0, c5, c6);
            lemma_body_views(bseq);
            assert forall|j: int|
                0 <= j < body_views(bseq).len() implies !((#[trigger] body_views(bseq)[j])
                is Define) by {
                assert(parsed_instr_wf(bseq[j]@, true));
            }
        }
        let instruction = Instruction::Define(func_name, arg_count, body);
        self.depth = self.depth - 1;
        proof {
            let toks = seq![TokenView::Defn] + newly(c0, c6);
            assert(toks.take(6) =~= seq![
                TokenView::Defn,
                TokenView::FunctionName(instruction->Define_0@),
                TokenView::LeftParen,
                TokenView::Word(arg_count),
                TokenView::RightParen,
                TokenView::LeftCurlyBracket,
            ]);
            assert(toks.skip(6) =~= newly(c5, c6));
            assert(grammar_instr(toks, false, instruction@));
        }
        Ok(Some(instruction))
    }

    fn consume_defn_body(&mut self, func_name: &str) -> (r: Result<Vec<Instruction>, SyntaxError>)
        requires
            old(self).depth() == 1,
        ensures
            final(self).budget() <= old(self).budget(),
            final(self).budget() == old(self).budget() ==> final(self).buffered().len() <= old(self).buffered().len(),
            final(self).served().len() >= old(self).served().len(),
            extends(old(self).consumed(), final(self).consumed()),
            r matches Ok(b) ==> final(self).depth() == 1 && (forall|j: int|
                0 <= j < b@.len() ==> parsed_instr_wf((#[trigger] b@[j])@, true)) && grammar_body(
                newly(old(self).consumed(), final(self).consumed()),
                body_views(b@),
            ),
            r matches Err(e) ==> failed_lexing(old(self).served(), final(self).served(), e@)
                || body_error(func_name@, newly(old(self).consumed(), final(self).consumed()), e@),
        decreases 1int,
    {
        let ghost c0 = self.consumed();
        let mut body: Vec<Instruction> = Vec::new();
        proof {
            lemma_extends_refl(c0);
            assert(body_views(body@) =~= Seq::<InstrView>::empty());
        }
        loop
            invariant
                self.depth() == 1,
                self.budget() <= old(self).budget(),
                self.budget() == old(self).budget() ==> self.buffered().len() <= old(self).buffered().len(),
                self.served().len() >= old(self).served().len(),
                c0 == old(self).consumed(),
                extends(c0, self.consumed()),
                grammar_chunks(newly(c0, self.consumed()), body_views(body@)),
                forall|j: int|
                    0 <= j < body@.len() ==> parsed_instr_wf((#[trigger] body@[j])@, true),
            decreases self.budget(), self.buffered().len(),
        {
            let ghost cprev = self.consumed();
            let ghost views_prev = body_views(body@);
            match self.consume_instruction(true, func_name) {
                Err(e) => {
                    proof {
                        lemma_extends_trans(c0, cprev, self.consumed());
                        if !failed_lexing(old(self).served(), self.served(), e@) {
                            let nt = newly(c0, self.consumed());
                            let k = newly(c0, cprev).len() as int;
                            assert(nt.take(k) =~= newly(c0, cprev));
                            assert(nt.skip(k) =~= newly(cprev, self.consumed()));
                            assert(grammar_chunks(nt.take(k), views_prev));
                            assert(instr_error_inside(nt.skip(k), func_name@, e@));
                            assert(body_error(func_name@, nt, e@));
                        }
                    }
                    return Err(e);
                },
                Ok(None) => {
                    proof {
                        lemma_extends_trans(c0, cprev, self.consumed());
                        lemma_chunks_close(newly(c0, cprev), body_views(body@));
                    }
                    return Ok(body);
                },
                Ok(Some(instruction)) => {
                    let ghost prev_seq = body@;
                    let ghost iv = instruction@;
                    body.push(instruction);
                    proof {
                        let chunk = newly(cprev, self.consumed());
                        lemma_grammar_instr_nonempty(chunk, true, iv);
                        lemma_chunks_snoc(newly(c0, cprev), views_prev, chunk, iv);
                        lemma_extends_trans(c0, cprev, self.consumed());
                        lemma_body_views(body@);
                        lemma_body_views(prev_seq);
                        assert forall|j: int|
                            0 <= j < body@.len() implies body_views(body@)[j]
                            == views_prev.push(iv)[j] by {
                            assert(body_views(body@)[j] == body@[j]@);
                            if j < prev_seq.len() {
                                assert(body@[j] == prev_seq[j]);
                                assert(body_views(prev_seq)[j] == prev_seq[j]@);
                            } else {
                                assert(body@[j]@ == iv);
                            }
                        }
                        assert(body_views(body@) =~= views_prev.push(iv));
                    }
                },
            }
        }
    }

    fn expect(&mut self, token: Token, eof_err: SyntaxError) -> (r: Result<(), SyntaxError>)
        ensures
            final(self).budget() <= old(self).budget(),
            final(self).budget() == old(self).budget() ==> final(self).buffered().len() <= old(self).buffered().len(),
            final(self).served().len() >= old(self).served().len(),
            extends(old(self).consumed(), final(self).consumed()),
            r matches Ok(_) ==> (final(self).budget() < old(self).budget() || final(self).buffered().len() < old(self).buffered().len()) && newly(
                old(self).consumed(),
                final(self).consumed(),
            ) == seq![token@],
            r matches Err(e) ==> failed_lexing(old(self).served(), final(self).served(), e@) || ({
                let nt = newly(old(self).consumed(), final(self).consumed());
                ||| (nt == Seq::<TokenView>::empty() && e@ == eof_err@)
                ||| (nt.len() == 1 && nt[0] != token@ && e@ == SyntaxErrorView::UnexpectedToken(
                    nt[0],
                ))
            }),
            final(self).depth() == old(self).depth(),
    {
        let ghost c0 = self.consumed();
        proof {
            lemma_extends_refl(c0);
        }
        match self.lexer.next_token(self.depth) {
            Err(e) => Err(e),
            Ok(None) => Err(eof_err),
            Ok(Some(t)) => {
                proof {
                    lemma_extends_push(c0, t@);
                }
                if token_eq(&t, &token) {
                    Ok(())
                } else {
                    Err(SyntaxError::UnexpectedToken(t))
                }
            },
        }
    }
}

} // verus!

//! The stack machine: words, the runtime state, the exact relational
//! semantics of each instruction, and the trampolined execution loop that
//! grants interpreted recursion unbounded depth.
use vstd::prelude::*;

use crate::errors::RuntimeError;
use crate::parser::body_views;
use crate::parser::clone_instruction;
use crate::parser::lemma_body_views;
use crate::parser::InstrView;
use crate::parser::Instruction;
use crate::stdio::flush_stdout;
use crate::stdio::print_char;
use crate::stdio::read_line_stdin;
use crate::text::chars_of;
use crate::text::is_reserved;
use crate::text::reserved_name;
use crate::text::str_eq_str;

verus! {

// ---------------------------------------------------------------------------
// Words and state
// ---------------------------------------------------------------------------
/// One value on the stack: a 32-bit datum or a function reference.
#[derive(Clone, Debug, PartialEq, Eq)]
pub enum Word {
    Data(u32),
    Function(String),
}

/// The mathematical shape of a word.
pub enum WordView {
    Data(u32),
    Function(Seq<char>),
}

impl View for Word {
    type V = WordView;

    open spec fn view(&self) -> WordView {
        match self {
            Word::Data(n) => WordView::Data(*n),
            Word::Function(f) => WordView::Function(f@),
        }
    }
}

/// The views of a sequence of words, in order.
pub open spec fn words_view(s: Seq<Word>) -> Seq<WordView> {
    Seq::new(s.len(), |k: int| s[k]@)
}

pub(crate) fn clone_word(w: &Word) -> (r: Word)
    ensures
        r@ == w@,
{
    match w {
        Word::Data(n) => Word::Data(*n),
        Word::Function(f) => Word::Function(f.clone()),
    }
}

/// One entry of the function table.
#[derive(Debug, PartialEq, Eq)]
pub struct FunctionDef {
    pub name: String,
    pub arity: u32,
    pub body: Vec<Instruction>,
}

/// The mathematical shape of a table entry.
#[verifier::ext_equal]
pub struct DefView {
    pub name: Seq<char>,
    pub arity: u32,
    pub body: Seq<InstrView>,
}

impl View for FunctionDef {
    type V = DefView;

    open spec fn view(&self) -> DefView {
        DefView { name: self.name@, arity: self.arity, body: body_views(self.body@) }
    }
}

/// The views of the function table's entries, in order.
pub open spec fn table_view(s: Seq<FunctionDef>) -> Seq<DefView> {
    Seq::new(s.len(), |k: int| s[k]@)
}

/// The first entry under the given name.
pub open spec fn lookup(t: Seq<DefView>, name: Seq<char>) -> Option<DefView>
    decreases t.len(),
{
    if t.len() == 0 {
        None
    } else if t[0].name == name {
        Some(t[0])
    } else {
        lookup(t.drop_first(), name)
    }
}

/// The table after a definition: the first entry under the same name is
/// replaced in place, or the entry is appended.
pub open spec fn table_insert(t: Seq<DefView>, d: DefView) -> Seq<DefView>
    decreases t.len(),
{
    if t.len() == 0 {
        seq![d]
    } else if t[0].name == d.name {
        seq![d] + t.drop_first()
    } else {
        seq![t[0]] + table_insert(t.drop_first(), d)
    }
}

/// What insertion means for lookups: the inserted name finds the new entry,
/// every other name finds what it found before.
pub proof fn lemma_table_insert_lookup(t: Seq<DefView>, d: DefView, name: Seq<char>)
    ensures
        lookup(table_insert(t, d), name) == (if name == d.name {
            Some(d)
        } else {
            lookup(t, name)
        }),
    decreases t.len(),
{
    if t.len() == 0 {
        let u = table_insert(t, d);
        assert(u[0] == d);
        assert(u.drop_first() =~= Seq::<DefView>::empty());
    } else if t[0].name == d.name {
        let u = table_insert(t, d);
        assert(u[0] == d);
        assert(u.drop_first() =~= t.drop_first());
        if name != d.name {
            assert(lookup(t, name) == lookup(t.drop_first(), name));
        }
    } else {
        let u = table_insert(t, d);
        assert(u[0] == t[0]);
        assert(u.drop_first() =~= table_insert(t.drop_first(), d));
        lemma_table_insert_lookup(t.drop_first(), d, name);
    }
}

/// The whole machine state, as mathematics.
#[verifier::ext_equal]
pub struct StateView {
    pub value_stack: Seq<WordView>,
    pub table: Seq<DefView>,
    pub instr_stack: Seq<InstrView>,
    pub args: Seq<WordView>,
}

/// The runtime state: the value stack (top at the end), the function table,
/// the pending-instruction trampoline stack and the bound-argument array.
#[derive(Debug, PartialEq, Eq)]
pub struct Runtime {
    pub value_stack: Vec<Word>,
    pub function_table: Vec<FunctionDef>,
    pub instruction_stack: Vec<Instruction>,
    pub args_array: Vec<Word>,
}

/// The views of a sequence of instructions, in order.
pub open spec fn instrs_view(s: Seq<Instruction>) -> Seq<InstrView> {
    Seq::new(s.len(), |k: int| s[k]@)
}

impl View for Runtime {
    type V = StateView;

    open spec fn view(&self) -> StateView {
        StateView {
            value_stack: words_view(self.value_stack@),
            table: table_view(self.function_table@),
            instr_stack: instrs_view(self.instruction_stack@),
            args: words_view(self.args_array@),
        }
    }
}

// ---------------------------------------------------------------------------
// The semantics of one instruction
// ---------------------------------------------------------------------------
/// A Unicode scalar value.
pub open spec fn valid_codepoint(n: u32) -> bool {
    n < 0xD800 || (0xE000 <= n && n <= 0x10FFFF)
}

pub open spec fn push_value(s: StateView, w: WordView) -> StateView {
    StateView { value_stack: s.value_stack.push(w), ..s }
}

pub open spec fn with_values(s: StateView, vs: Seq<WordView>) -> StateView {
    StateView { value_stack: vs, ..s }
}

/// The effect of a defined function's call once its arguments are known to
/// fit: `arity` words move from the stack into the argument array, nearest
/// the top first, and the body is scheduled on the trampoline in reverse, so
/// that it executes in order.
pub open spec fn enter_function(s0: StateView, d: DefView) -> StateView {
    let n = s0.value_stack.len() as int;
    StateView {
        value_stack: s0.value_stack.take(n - d.arity),
        args: Seq::new(d.arity as nat, |j: int| s0.value_stack[n - 1 - j]),
        instr_stack: s0.instr_stack + d.body.reverse(),
        ..s0
    }
}

/// A call of a function defined in the table, after the argument array was
/// cleared: an unknown name is an error; too few stack words is an underflow
/// that drains the whole stack into the argument array.
pub open spec fn custom_step(
    s0: StateView,
    fname: Seq<char>,
    r: Result<bool, RuntimeError>,
    post: StateView,
) -> bool {
    match lookup(s0.table, fname) {
        None => r == Err::<bool, RuntimeError>(RuntimeError::UndefinedReference) && post == s0,
        Some(d) => {
            if d.arity as int <= s0.value_stack.len() {
                r == Ok::<bool, RuntimeError>(false) && post == enter_function(s0, d)
            } else {
                r == Err::<bool, RuntimeError>(RuntimeError::StackUnderflow) && post == StateView {
                    value_stack: Seq::empty(),
                    args: s0.value_stack.reverse(),
                    ..s0
                }
            }
        },
    }
}

/// The first `k` words from the top are nonzero data words naming valid
/// scalar values: exactly the words printing consumes before it stops.
pub open spec fn printable_prefix(vs: Seq<WordView>, k: int) -> bool {
    forall|m: int|
        0 <= m < k ==> ((#[trigger] vs[vs.len() - 1 - m]) is Data && vs[vs.len() - 1
            - m]->Data_0 != 0 && valid_codepoint(vs[vs.len() - 1 - m]->Data_0))
}

/// Printing pops data words and emits them as characters until it pops a
/// zero; what the streams do is not the machine's to decide, so a stream
/// failure may end it at any point with the same stack effect.
pub open spec fn print_step(s0: StateView, r: Result<bool, RuntimeError>, post: StateView) -> bool {
    let vs = s0.value_stack;
    let n = vs.len() as int;
    ||| (exists|k: int|
        #![trigger vs.take(n - 1 - k)]
        0 <= k < n && printable_prefix(vs, k) && vs[n - 1 - k] is Data && vs[n - 1 - k]->Data_0
            == 0 && post == with_values(s0, vs.take(n - 1 - k)) && (r == Ok::<
            bool,
            RuntimeError,
        >(false) || r == Err::<bool, RuntimeError>(RuntimeError::StdoutFailure)))
    ||| (exists|k: int|
        #![trigger vs.take(n - 1 - k)]
        0 <= k < n && printable_prefix(vs, k) && vs[n - 1 - k] is Data && vs[n - 1 - k]->Data_0
            != 0 && valid_codepoint(vs[n - 1 - k]->Data_0) && post == with_values(
            s0,
            vs.take(n - 1 - k),
        ) && r == Err::<bool, RuntimeError>(RuntimeError::StdoutFailure))
    ||| (exists|k: int|
        #![trigger vs.take(n - 1 - k)]
        0 <= k < n && printable_prefix(vs, k) && vs[n - 1 - k] is Function && post == with_values(
            s0,
            vs.take(n - 1 - k),
        ) && r == Err::<bool, RuntimeError>(RuntimeError::TypeMismatch))
    ||| (exists|k: int|
        #![trigger vs.take(n - 1 - k)]
        0 <= k < n && printable_prefix(vs, k) && vs[n - 1 - k] is Data && vs[n - 1 - k]->Data_0
            != 0 && !valid_codepoint(vs[n - 1 - k]->Data_0) && post == with_values(
            s0,
            vs.take(n - 1 - k),
        ) && r == Err::<bool, RuntimeError>(RuntimeError::InvalidCodePoint))
    ||| (printable_prefix(vs, n) && post == with_values(s0, Seq::empty()) && r == Err::<
        bool,
        RuntimeError,
    >(RuntimeError::StackUnderflow))
}

/// Reading pushes the characters of one input line in reverse, so the first
/// character ends nearest the top; a failed read changes nothing.
pub open spec fn input_step(s0: StateView, r: Result<bool, RuntimeError>, post: StateView) -> bool {
    ||| (r == Err::<bool, RuntimeError>(RuntimeError::StdinFailure) && post == s0)
    ||| (exists|line: Seq<char>|
        r == Ok::<bool, RuntimeError>(false) && post == with_values(
            s0,
            s0.value_stack + Seq::new(
                line.len(),
                |j: int| WordView::Data(line[line.len() - 1 - j] as u32),
            ),
        ))
}

/// Bitwise not-and of the two data words nearest the top. Both operands are
/// popped before their kinds are checked, so an operand popped on the way to
/// a failure stays popped.
pub open spec fn nand_step(s0: StateView, r: Result<bool, RuntimeError>, post: StateView) -> bool {
    let vs = s0.value_stack;
    let n = vs.len() as int;
    if n == 0 {
        r == Err::<bool, RuntimeError>(RuntimeError::StackUnderflow) && post == s0
    } else if n == 1 {
        r == Err::<bool, RuntimeError>(RuntimeError::StackUnderflow) && post == with_values(
            s0,
            Seq::empty(),
        )
    } else {
        let a = vs[n - 1];
        let b = vs[n - 2];
        let rest = vs.take(n - 2);
        if !(a is Data) {
            r == Err::<bool, RuntimeError>(RuntimeError::TypeMismatch) && post == with_values(
                s0,
                rest,
            )
        } else if !(b is Data) {
            r == Err::<bool, RuntimeError>(RuntimeError::TypeMismatch) && post == with_values(
                s0,
                rest,
            )
        } else {
            r == Ok::<bool, RuntimeError>(false) && post == with_values(
                s0,
                rest.push(WordView::Data(!(a->Data_0 & b->Data_0))),
            )
        }
    }
}

/// A logical one-bit shift of the data word on top, truncating to 32 bits.
pub open spec fn shift_step(
    s0: StateView,
    left: bool,
    r: Result<bool, RuntimeError>,
    post: StateView,
) -> bool {
    let vs = s0.value_stack;
    let n = vs.len() as int;
    if n == 0 {
        r == Err::<bool, RuntimeError>(RuntimeError::StackUnderflow) && post == s0
    } else {
        let w = vs[n - 1];
        let rest = vs.take(n - 1);
        if !(w is Data) {
            r == Err::<bool, RuntimeError>(RuntimeError::TypeMismatch) && post == with_values(
                s0,
                rest,
            )
        } else {
            r == Ok::<bool, RuntimeError>(false) && post == with_values(
                s0,
                rest.push(
                    WordView::Data(
                        if left {
                            w->Data_0 << 1u32
                        } else {
                            w->Data_0 >> 1u32
                        },
                    ),
                ),
            )
        }
    }
}

/// A built-in call, after the argument array was cleared.
pub open spec fn builtin_step(
    s0: StateView,
    fname: Seq<char>,
    r: Result<bool, RuntimeError>,
    post: StateView,
) -> bool {
    if fname == "__print__"@ {
        print_step(s0, r, post)
    } else if fname == "__input__"@ {
        input_step(s0, r, post)
    } else if fname == "__nand__"@ {
        nand_step(s0, r, post)
    } else if fname == "__shift_left__"@ {
        shift_step(s0, true, r, post)
    } else if fname == "__shift_right__"@ {
        shift_step(s0, false, r, post)
    } else {
        r == Err::<bool, RuntimeError>(RuntimeError::UndefinedReference) && post == s0
    }
}

/// Any call clears the argument array first, so bindings can never leak from
/// one call into the next; then a double-underscore name runs as a built-in
/// and any other name is looked up in the table.
pub open spec fn call_step(
    s: StateView,
    fname: Seq<char>,
    r: Result<bool, RuntimeError>,
    post: StateView,
) -> bool {
    let s0 = StateView { args: Seq::empty(), ..s };
    if reserved_name(fname) {
        builtin_step(s0, fname, r, post)
    } else {
        custom_step(s0, fname, r, post)
    }
}

/// `CallIf` pops the function reference, then the datum, both before any
/// kind is checked; a zero datum discards the reference and calls nothing.
pub open spec fn callif_step(s: StateView, r: Result<bool, RuntimeError>, post: StateView) -> bool {
    let vs = s.value_stack;
    let n = vs.len() as int;
    if n == 0 {
        r == Err::<bool, RuntimeError>(RuntimeError::StackUnderflow) && post == s
    } else if n == 1 {
        r == Err::<bool, RuntimeError>(RuntimeError::StackUnderflow) && post == with_values(
            s,
            Seq::empty(),
        )
    } else {
        let w1 = vs[n - 1];
        let w2 = vs[n - 2];
        let rest = vs.take(n - 2);
        if !(w1 is Function) {
            r == Err::<bool, RuntimeError>(RuntimeError::TypeMismatch) && post == with_values(
                s,
                rest,
            )
        } else if !(w2 is Data) {
            r == Err::<bool, RuntimeError>(RuntimeError::TypeMismatch) && post == with_values(
                s,
                rest,
            )
        } else if w2->Data_0 == 0 {
            r == Ok::<bool, RuntimeError>(false) && post == with_values(s, rest)
        } else {
            call_step(with_values(s, rest), w1->Function_0, r, post)
        }
    }
}

/// The exact semantics of one instruction taken off the trampoline: what it
/// may do to the state, and what it returns. Where the outcome depends on a
/// random number or a standard stream, the relation admits every outcome.
pub open spec fn instr_step(
    pre: StateView,
    i: InstrView,
    r: Result<bool, RuntimeError>,
    post: StateView,
) -> bool {
    match i {
        InstrView::Exit => r == Ok::<bool, RuntimeError>(true) && post == pre,
        InstrView::PushData(n) => r == Ok::<bool, RuntimeError>(false) && post == push_value(
            pre,
            WordView::Data(n),
        ),
        InstrView::PushFunction(f) => r == Ok::<bool, RuntimeError>(false) && post == push_value(
            pre,
            WordView::Function(f),
        ),
        InstrView::PushRandom => r == Ok::<bool, RuntimeError>(false) && (exists|n: u32|
            post == push_value(pre, WordView::Data(n))),
        InstrView::PushArg(k) => {
            if k < pre.args.len() {
                r == Ok::<bool, RuntimeError>(false) && post == push_value(pre, pre.args[k as int])
            } else {
                r == Err::<bool, RuntimeError>(RuntimeError::UndefinedReference) && post == pre
            }
        },
        InstrView::Define(f, a, b) => r == Ok::<bool, RuntimeError>(false) && post == StateView {
            table: table_insert(pre.table, DefView { name: f, arity: a, body: b }),
            ..pre
        },
        InstrView::CallIf => callif_step(pre, r, post),
    }
}

// ---------------------------------------------------------------------------
// The trampoline, as mathematics
// ---------------------------------------------------------------------------
pub open spec fn top_instr(s: StateView) -> InstrView {
    s.instr_stack.last()
}

pub open spec fn pop_instr(s: StateView) -> StateView {
    StateView { instr_stack: s.instr_stack.drop_last(), ..s }
}

pub open spec fn clear_instrs(s: StateView) -> StateView {
    StateView { instr_stack: Seq::empty(), ..s }
}

pub open spec fn sched_instr(s: StateView, i: InstrView) -> StateView {
    StateView { instr_stack: s.instr_stack.push(i), ..s }
}

/// One successful, non-exiting trampoline step: the top pending instruction
/// comes off and runs.
pub open spec fn machine_step(s1: StateView, s2: StateView) -> bool {
    s1.instr_stack.len() > 0 && instr_step(
        pop_instr(s1),
        top_instr(s1),
        Ok::<bool, RuntimeError>(false),
        s2,
    )
}

/// `n` successful, non-exiting trampoline steps.
pub open spec fn machine_steps(s1: StateView, s2: StateView, n: nat) -> bool
    decreases n,
{
    if n == 0 {
        s2 == s1
    } else {
        exists|mid: StateView|
            machine_steps(s1, mid, (n - 1) as nat) && #[trigger] machine_step(mid, s2)
    }
}

/// Everything `run` may do, starting from the state with the new instruction
/// already scheduled. `Ok(false)` drained the trampoline; `Ok(true)` met an
/// `Exit`, which halts at once and leaves the remaining pending instructions
/// untouched; any other error discards the pending instructions and keeps
/// every value-stack mutation already performed. A step-limited run, which no
/// feasible execution reaches, performed the limit's worth of steps and then
/// discarded the pending instructions.
pub open spec fn run_outcome(
    start: StateView,
    r: Result<bool, RuntimeError>,
    post: StateView,
) -> bool {
    match r {
        Ok(exited) => {
            if exited {
                exists|n: nat, mid: StateView|
                    #![trigger machine_steps(start, mid, n)]
                    machine_steps(start, mid, n) && mid.instr_stack.len() > 0 && instr_step(
                        pop_instr(mid),
                        top_instr(mid),
                        Ok::<bool, RuntimeError>(true),
                        post,
                    )
            } else {
                post.instr_stack.len() == 0 && exists|n: nat| machine_steps(start, post, n)
            }
        },
        Err(e) => {
            if e == RuntimeError::StepLimitExceeded {
                exists|mid: StateView|
                    machine_steps(start, mid, u64::MAX as nat) && post == clear_instrs(mid)
            } else {
                exists|n: nat, mid: StateView, fail: StateView|
                    #![trigger machine_steps(start, mid, n), instr_step(pop_instr(mid), top_instr(mid), Err::<bool, RuntimeError>(e), fail)]
                    machine_steps(start, mid, n) && mid.instr_stack.len() > 0 && instr_step(
                        pop_instr(mid),
                        top_instr(mid),
                        Err::<bool, RuntimeError>(e),
                        fail,
                    ) && post == clear_instrs(fail)
            }
        },
    }
}

/// A word rendered for a human: the datum's numeral, or the function's name.
pub open spec fn word_display(w: WordView) -> Seq<char> {
    match w {
        WordView::Data(n) => crate::text::dec_chars(n as nat),
        WordView::Function(f) => "function "@ + f,
    }
}

/// The words rendered in order, comma separated.
pub open spec fn words_joined(vs: Seq<WordView>) -> Seq<char>
    decreases vs.len(),
{
    if vs.len() == 0 {
        Seq::empty()
    } else if vs.len() == 1 {
        word_display(vs[0])
    } else {
        words_joined(vs.drop_last()) + ", "@ + word_display(vs.last())
    }
}

/// The exact text `stack_to_string` renders.
pub open spec fn stack_display(vs: Seq<WordView>) -> Seq<char> {
    "["@ + words_joined(vs) + "]  <-- top"@
}

// ---------------------------------------------------------------------------
// Trusted calls
// ---------------------------------------------------------------------------
/// Relies on rand::random, which draws from the thread-local generator;
/// nothing is assumed of the value.
#[verifier::external_body]
fn random_u32() -> (r: u32) {
    rand::random::<u32>()
}

/// Relies on char::from_u32: `Some` exactly for the Unicode scalar values,
/// and the character converts back to the same number.
#[verifier::external_body]
fn char_from_u32(n: u32) -> (r: Option<char>)
    ensures
        r is Some <==> valid_codepoint(n),
        r matches Some(c) ==> c as u32 == n,
{
    char::from_u32(n)
}

// ---------------------------------------------------------------------------
// The runtime, executed
// ---------------------------------------------------------------------------
/// The first table entry under `name`, as `lookup` finds it.
fn find_def(table: &Vec<FunctionDef>, name: &str) -> (r: Option<usize>)
    ensures
        match r {
            Some(j) => j < table@.len() && lookup(table_view(table@), name@) == Some(
                table@[j as int]@,
            ) && table@[j as int]@.name == name@ && (forall|k: int|
                0 <= k < j ==> #[trigger] table@[k]@.name != name@),
            None => lookup(table_view(table@), name@) is None && (forall|k: int|
                0 <= k < table@.len() ==> #[trigger] table@[k]@.name != name@),
        },
{
    let n = table.len();
    let mut j: usize = 0;
    while j < n
        invariant
            j <= n,
            n == table@.len(),
            forall|k: int| 0 <= k < j ==> #[trigger] table@[k]@.name != name@,
        decreases n - j,
    {
        if str_eq_str(table[j].name.as_str(), name) {
            proof {
                lemma_lookup_skip(table_view(table@), name@, j as int);
            }
            return Some(j);
        }
        j = j + 1;
    }
    proof {
        lemma_lookup_skip(table_view(table@), name@, n as int);
        assert(table_view(table@).skip(n as int) =~= Seq::<DefView>::empty());
    }
    None
}

/// Scanning past entries under other names does not change what is found.
proof fn lemma_lookup_skip(t: Seq<DefView>, name: Seq<char>, j: int)
    requires
        0 <= j <= t.len(),
        forall|k: int| 0 <= k < j ==> (#[trigger] t[k]).name != name,
    ensures
        lookup(t, name) == lookup(t.skip(j), name),
    decreases j,
{
    if j > 0 {
        assert(t.drop_first() =~= t.skip(1));
        assert forall|k: int| 0 <= k < j - 1 implies (#[trigger] t.skip(1)[k]).name != name by {
            assert(t.skip(1)[k] == t[k + 1]);
        }
        lemma_lookup_skip(t.skip(1), name, j - 1);
        assert(t.skip(1).skip(j - 1) =~= t.skip(j));
    } else {
        assert(t.skip(0) =~= t);
    }
}

impl Runtime {
    pub fn new() -> (r: Runtime)
        ensures
            r@.value_stack.len() == 0,
            r@.table.len() == 0,
            r@.instr_stack.len() == 0,
            r@.args.len() == 0,
    {
        Runtime {
            value_stack: Vec::new(),
            function_table: Vec::new(),
            instruction_stack: Vec::new(),
            args_array: Vec::new(),
        }
    }

    /// The stack rendered for a human: the words from bottom to top, comma
    /// separated, between brackets, with a reminder of which end is the top.
    pub fn stack_to_string(&mut self) -> (r: String)
        ensures
            *final(self) == *old(self),
            r@ == stack_display(old(self)@.value_stack),
    {
        let mut s = String::new();
        s.append("[");
        let ghost vs = self@.value_stack;
        let mut i: usize = 0;
        let n = self.value_stack.len();
        while i < n
            invariant
                i <= n,
                n == vs.len(),
                vs == words_view(self.value_stack@),
                s@ == "["@ + words_joined(vs.take(i as int)),
            decreases n - i,
        {
            if i > 0 {
                s.append(", ");
            }
            match &self.value_stack[i] {
                Word::Data(d) => {
                    crate::text::append_decimal(&mut s, *d as u64);
                },
                Word::Function(f) => {
                    s.append("function ");
                    s.append(f.as_str());
                },
            }
            i = i + 1;
            proof {
                assert(vs.take(i as int).drop_last() =~= vs.take(i - 1));
                assert(vs.take(i as int).last() == vs[i - 1]);
                assert(s@ =~= "["@ + words_joined(vs.take(i as int)));
            }
        }
        proof {
            assert(vs.take(n as int) =~= vs);
        }
        s.append("]  <-- top");
        s
    }

    /// Feeds one instruction to the trampoline and works the pending stack
    /// until it drains, an `Exit` halts it, or a step fails; a failure
    /// discards what was still pending and keeps the rest of the state. The
    /// loop is iterative on an explicit stack, so interpreted recursion never
    /// grows the native call stack; its step counter would bar only a run of
    /// `u64::MAX` steps, which no feasible execution performs.
    #[verifier::loop_isolation(false)]
    pub fn run(&mut self, instruction: Instruction) -> (r: Result<bool, RuntimeError>)
        ensures
            run_outcome(sched_instr(old(self)@, instruction@), r, final(self)@),
    {
        self.instruction_stack.push(instruction);
        let ghost start = self@;
        proof {
            assert(instrs_view(self.instruction_stack@) =~= instrs_view(
                old(self).instruction_stack@,
            ).push(instruction@));
            assert(start =~= sched_instr(old(self)@, instruction@));
            assert(machine_steps(start, start, 0));
        }
        let mut steps: u64 = 0;
        loop
            invariant
                steps <= u64::MAX,
                machine_steps(start, self@, steps as nat),
            decreases u64::MAX - steps,
        {
            let ghost before = self@;
            if self.instruction_stack.len() == 0 {
                return Ok(false);
            }
            if steps == u64::MAX {
                self.instruction_stack.clear();
                proof {
                    assert(self@ =~= clear_instrs(before));
                }
                return Err(RuntimeError::StepLimitExceeded);
            }
            let next = self.instruction_stack.pop().unwrap();
            proof {
                assert(instrs_view(self.instruction_stack@) =~= before.instr_stack.drop_last());
                assert(self@ =~= pop_instr(before));
                assert(next@ == top_instr(before));
            }
            match self.run_instruction(next) {
                Err(e) => {
                    let ghost fail = self@;
                    self.instruction_stack.clear();
                    proof {
                        assert(self@ =~= clear_instrs(fail));
                        assert(instr_step(
                            pop_instr(before),
                            top_instr(before),
                            Err::<bool, RuntimeError>(e),
                            fail,
                        ));
                    }
                    return Err(e);
                },
                Ok(true) => {
                    proof {
                        assert(instr_step(
                            pop_instr(before),
                            top_instr(before),
                            Ok::<bool, RuntimeError>(true),
                            self@,
                        ));
                    }
                    return Ok(true);
                },
                Ok(false) => {
                    proof {
                        assert(machine_step(before, self@));
                        assert(machine_steps(start, self@, (steps + 1) as nat));
                    }
                    steps = steps + 1;
                },
            }
        }
    }

    fn run_instruction(&mut self, instruction: Instruction) -> (r: Result<bool, RuntimeError>)
        ensures
            instr_step(old(self)@, instruction@, r, final(self)@),
    {
        match instruction {
            Instruction::Exit => Ok(true),
            Instruction::PushData(n) => self.run_pushdata(n),
            Instruction::PushFunction(f) => self.run_pushfunction(f),
            Instruction::PushRandom => self.run_pushrandom(),
            Instruction::PushArg(n) => self.run_pusharg(n),
            Instruction::Define(f, arg_count, body) => self.run_define(f, arg_count, body),
            Instruction::CallIf => self.run_callif(),
        }
    }

    fn run_pushdata(&mut self, n: u32) -> (r: Result<bool, RuntimeError>)
        ensures
            r == Ok::<bool, RuntimeError>(false),
            final(self)@ == push_value(old(self)@, WordView::Data(n)),
    {
        self.value_stack.push(Word::Data(n));
        proof {
            assert(words_view(self.value_stack@) =~= words_view(old(self).value_stack@).push(
                WordView::Data(n),
            ));
            assert(final(self)@ =~= push_value(old(self)@, WordView::Data(n)));
        }
        Ok(false)
    }

    fn run_pushfunction(&mut self, f: String) -> (r: Result<bool, RuntimeError>)
        ensures
            r == Ok::<bool, RuntimeError>(false),
            final(self)@ == push_value(old(self)@, WordView::Function(f@)),
    {
        let ghost fv = f@;
        self.value_stack.push(Word::Function(f));
        proof {
            assert(words_view(self.value_stack@) =~= words_view(old(self).value_stack@).push(
                WordView::Function(fv),
            ));
            assert(final(self)@ =~= push_value(old(self)@, WordView::Function(fv)));
        }
        Ok(false)
    }

    fn run_pushrandom(&mut self) -> (r: Result<bool, RuntimeError>)
        ensures
            r == Ok::<bool, RuntimeError>(false),
            exists|n: u32| final(self)@ == push_value(old(self)@, WordView::Data(n)),
    {
        let n = random_u32();
        self.value_stack.push(Word::Data(n));
        proof {
            assert(words_view(self.value_stack@) =~= words_view(old(self).value_stack@).push(
                WordView::Data(n),
            ));
            assert(final(self)@ =~= push_value(old(self)@, WordView::Data(n)));
        }
        Ok(false)
    }

    fn run_pusharg(&mut self, n: usize) -> (r: Result<bool, RuntimeError>)
        ensures
            n < old(self)@.args.len() ==> r == Ok::<bool, RuntimeError>(false) && final(self)@
                == push_value(old(self)@, old(self)@.args[n as int]),
            n >= old(self)@.args.len() ==> r == Err::<bool, RuntimeError>(
                RuntimeError::UndefinedReference,
            ) && final(self)@ == old(self)@,
    {
        if n >= self.args_array.len() {
            return Err(RuntimeError::UndefinedReference);
        }
        let w = clone_word(&self.args_array[n]);
        proof {
            assert(w@ == old(self)@.args[n as int]);
        }
        self.value_stack.push(w);
        proof {
            assert(words_view(self.value_stack@) =~= words_view(old(self).value_stack@).push(w@));
            assert(final(self)@ =~= push_value(old(self)@, old(self)@.args[n as int]));
        }
        Ok(false)
    }

    fn run_define(&mut self, f: String, arg_count: u32, body: Vec<Instruction>) -> (r: Result<
        bool,
        RuntimeError,
    >)
        ensures
            r == Ok::<bool, RuntimeError>(false),
            final(self)@ == (StateView {
                table: table_insert(
                    old(self)@.table,
                    DefView { name: f@, arity: arg_count, body: body_views(body@) },
                ),
                ..old(self)@
            }),
    {
        let ghost d = DefView { name: f@, arity: arg_count, body: body_views(body@) };
        let entry = FunctionDef { name: f, arity: arg_count, body };
        proof {
            assert(entry@ == d);
        }
        match find_def(&self.function_table, entry.name.as_str()) {
            Some(j) => {
                proof {
                    let t = table_view(self.function_table@);
                    assert(t[j as int].name == d.name);
                    assert forall|k: int| 0 <= k < j implies (#[trigger] t[k]).name != d.name by {
                        assert(t[k] == self.function_table@[k]@);
                    }
                    lemma_table_insert_at(t, d, j as int);
                }
                self.function_table.set(j, entry);
                proof {
                    assert(table_view(self.function_table@) =~= table_insert(
                        old(self)@.table,
                        d,
                    ));
                    assert(final(self)@ =~= (StateView {
                        table: table_insert(old(self)@.table, d),
                        ..old(self)@
                    }));
                }
            },
            None => {
                proof {
                    let t = table_view(self.function_table@);
                    assert forall|k: int| 0 <= k < t.len() implies (#[trigger] t[k]).name
                        != d.name by {
                        assert(t[k] == self.function_table@[k]@);
                    }
                    lemma_table_insert_absent(t, d);
                }
                self.function_table.push(entry);
                proof {
                    assert(table_view(self.function_table@) =~= table_insert(
                        old(self)@.table,
                        d,
                    ));
                    assert(final(self)@ =~= (StateView {
                        table: table_insert(old(self)@.table, d),
                        ..old(self)@
                    }));
                }
            },
        }
        Ok(false)
    }

    fn run_callif(&mut self) -> (r: Result<bool, RuntimeError>)
        ensures
            callif_step(old(self)@, r, final(self)@),
    {
        let w1 = match self.value_stack.pop() {
            None => {
                return Err(RuntimeError::StackUnderflow);
            },
            Some(w) => w,
        };
        proof {
            assert(words_view(self.value_stack@) =~= old(self)@.value_stack.drop_last());
            assert(w1@ == old(self)@.value_stack.last());
        }
        let w2 = match self.value_stack.pop() {
            None => {
                proof {
                    assert(words_view(self.value_stack@) =~= Seq::<WordView>::empty());
                    assert(self@ =~= with_values(old(self)@, Seq::empty()));
                }
                return Err(RuntimeError::StackUnderflow);
            },
            Some(w) => w,
        };
        proof {
            assert(words_view(self.value_stack@) =~= old(self)@.value_stack.take(
                old(self)@.value_stack.len() - 2,
            ));
            assert(w2@ == old(self)@.value_stack[old(self)@.value_stack.len() - 2]);
        }
        let f = match w1 {
            Word::Function(f) => f,
            Word::Data(_) => {
                return Err(RuntimeError::TypeMismatch);
            },
        };
        let d = match w2 {
            Word::Data(d) => d,
            Word::Function(_) => {
                return Err(RuntimeError::TypeMismatch);
            },
        };
        if d == 0 {
            return Ok(false);
        }
        self.call_function(&f)
    }

    /// This does not run the function in its entirety: it binds the
    /// arguments and schedules the body on the trampoline.
    fn call_function(&mut self, f: &String) -> (r: Result<bool, RuntimeError>)
        ensures
            call_step(old(self)@, f@, r, final(self)@),
    {
        // bindings from any earlier call must not leak into this one
        self.args_array.clear();
        proof {
            assert(words_view(self.args_array@) =~= Seq::<WordView>::empty());
            assert(self@ =~= (StateView { args: Seq::empty(), ..old(self)@ }));
        }
        if is_reserved(f.as_str()) {
            self.call_builtin_function(f)
        } else {
            self.call_custom_function(f)
        }
    }

    fn call_builtin_function(&mut self, f: &String) -> (r: Result<bool, RuntimeError>)
        ensures
            builtin_step(old(self)@, f@, r, final(self)@),
    {
        if str_eq_str(f.as_str(), "__print__") {
            self.call_print()
        } else if str_eq_str(f.as_str(), "__input__") {
            self.call_input()
        } else if str_eq_str(f.as_str(), "__nand__") {
            self.call_nand()
        } else if str_eq_str(f.as_str(), "__shift_left__") {
            self.call_shift_left()
        } else if str_eq_str(f.as_str(), "__shift_right__") {
            self.call_shift_right()
        } else {
            Err(RuntimeError::UndefinedReference)
        }
    }

    #[verifier::loop_isolation(false)]
    fn call_custom_function(&mut self, f: &String) -> (r: Result<bool, RuntimeError>)
        requires
            old(self)@.args.len() == 0,
        ensures
            custom_step(old(self)@, f@, r, final(self)@),
    {
        let j = match find_def(&self.function_table, f.as_str()) {
            None => {
                return Err(RuntimeError::UndefinedReference);
            },
            Some(j) => j,
        };
        let ghost d = self.function_table@[j as int]@;
        let arity = self.function_table[j].arity;
        let ghost vs0 = old(self)@.value_stack;
        proof {
            assert(vs0.take(vs0.len() as int) =~= vs0);
            assert(words_view(self.args_array@) =~= Seq::new(0, |m: int| vs0[vs0.len() - 1 - m]));
        }
        let mut k: u32 = 0;
        while k < arity
            invariant
                k <= arity,
                j < self.function_table@.len(),
                d == self.function_table@[j as int]@,
                arity == d.arity,
                k as int <= vs0.len(),
                lookup(old(self)@.table, f@) == Some(d),
                words_view(self.value_stack@) == vs0.take(vs0.len() - k),
                words_view(self.args_array@) == Seq::new(
                    k as nat,
                    |m: int| vs0[vs0.len() - 1 - m],
                ),
                self.function_table@ == old(self).function_table@,
                self.instruction_stack@ == old(self).instruction_stack@,
            decreases arity - k,
        {
            let w = match self.value_stack.pop() {
                None => {
                    proof {
                        assert(vs0.take(vs0.len() - k).len() == 0);
                        assert(k as int == vs0.len());
                        assert(words_view(self.args_array@) =~= vs0.reverse());
                        assert(self@ =~= (StateView {
                            value_stack: Seq::empty(),
                            args: vs0.reverse(),
                            ..old(self)@
                        }));
                    }
                    return Err(RuntimeError::StackUnderflow);
                },
                Some(w) => w,
            };
            proof {
                assert(w@ == vs0.take(vs0.len() - k).last());
                assert(w@ == vs0[vs0.len() - 1 - k]);
                assert(words_view(self.value_stack@) =~= vs0.take(vs0.len() - (k + 1)));
            }
            let ghost args_before = words_view(self.args_array@);
            self.args_array.push(w);
            proof {
                assert(words_view(self.args_array@) =~= args_before.push(w@));
                assert(words_view(self.args_array@) =~= Seq::new(
                    (k + 1) as nat,
                    |m: int| vs0[vs0.len() - 1 - m],
                ));
            }
            k = k + 1;
        }
        let body_len = self.function_table[j].body.len();
        let ghost is0 = instrs_view(old(self).instruction_stack@);
        proof {
            lemma_body_views(self.function_table@[j as int].body@);
            assert(d.body.len() == body_len);
        }
        proof {
            assert(d.body.reverse().take(0) =~= Seq::<InstrView>::empty());
            assert(instrs_view(self.instruction_stack@) =~= is0 + d.body.reverse().take(0));
        }
        let mut k2: usize = body_len;
        while k2 > 0
            invariant
                k2 <= body_len,
                j < self.function_table@.len(),
                d == self.function_table@[j as int]@,
                body_len == self.function_table@[j as int].body@.len(),
                instrs_view(self.instruction_stack@) == is0 + d.body.reverse().take(
                    body_len - k2,
                ),
                self.function_table@ == old(self).function_table@,
                arity as int <= vs0.len(),
                arity == d.arity,
                lookup(old(self)@.table, f@) == Some(d),
                words_view(self.value_stack@) == vs0.take(vs0.len() - arity as int),
                words_view(self.args_array@) == Seq::new(
                    arity as nat,
                    |m: int| vs0[vs0.len() - 1 - m],
                ),
            decreases k2,
        {
            k2 = k2 - 1;
            let ghost is_before = instrs_view(self.instruction_stack@);
            let ci = clone_instruction(&self.function_table[j].body[k2]);
            self.instruction_stack.push(ci);
            proof {
                lemma_body_views(self.function_table@[j as int].body@);
                assert(ci@ == d.body[k2 as int]);
                assert(instrs_view(self.instruction_stack@) =~= is_before.push(ci@));
                assert(d.body.reverse()[body_len - 1 - k2] == d.body[k2 as int]);
                assert(instrs_view(self.instruction_stack@) =~= is0 + d.body.reverse().take(
                    body_len - k2,
                ));
            }
        }
        proof {
            assert(d.body.reverse().take(body_len as int) =~= d.body.reverse());
            assert(self@ =~= enter_function(old(self)@, d));
        }
        Ok(false)
    }

    #[verifier::loop_isolation(false)]
    fn call_print(&mut self) -> (r: Result<bool, RuntimeError>)
        ensures
            print_step(old(self)@, r, final(self)@),
    {
        let ghost vs = old(self)@.value_stack;
        let ghost n = vs.len() as int;
        let ghost mut k: int = 0;
        loop
            invariant
                0 <= k <= n,
                n == vs.len(),
                printable_prefix(vs, k),
                words_view(self.value_stack@) == vs.take(n - k),
                self.function_table@ == old(self).function_table@,
                self.instruction_stack@ == old(self).instruction_stack@,
                self.args_array@ == old(self).args_array@,
            decreases n - k,
        {
            let w = match self.value_stack.pop() {
                None => {
                    proof {
                        assert(k == n);
                        assert(self@ =~= with_values(old(self)@, Seq::empty()));
                    }
                    return Err(RuntimeError::StackUnderflow);
                },
                Some(w) => w,
            };
            proof {
                assert(w@ == vs.take(n - k).last());
                assert(w@ == vs[n - 1 - k]);
                assert(words_view(self.value_stack@) =~= vs.take(n - (k + 1)));
                assert(vs.take(n - (k + 1)) =~= vs.take(n - 1 - k));
                assert(self@ =~= with_values(old(self)@, vs.take(n - 1 - k)));
            }
            match w {
                Word::Function(_) => {
                    return Err(RuntimeError::TypeMismatch);
                },
                Word::Data(dat) => {
                    if dat == 0 {
                        if flush_stdout() {
                            return Ok(false);
                        } else {
                            return Err(RuntimeError::StdoutFailure);
                        }
                    }
                    match char_from_u32(dat) {
                        None => {
                            return Err(RuntimeError::InvalidCodePoint);
                        },
                        Some(c) => {
                            if !print_char(c) {
                                return Err(RuntimeError::StdoutFailure);
                            }
                        },
                    }
                    proof {
                        k = k + 1;
                        assert(printable_prefix(vs, k)) by {
                            assert(forall|m: int|
                                0 <= m < k - 1 ==> ((#[trigger] vs[vs.len() - 1 - m]) is Data
                                    && vs[vs.len() - 1 - m]->Data_0 != 0 && valid_codepoint(
                                    vs[vs.len() - 1 - m]->Data_0,
                                )));
                            assert(vs[vs.len() - 1 - (k - 1)] == w@);
                        }
                    }
                },
            }
        }
    }

    #[verifier::loop_isolation(false)]
    fn call_input(&mut self) -> (r: Result<bool, RuntimeError>)
        ensures
            input_step(old(self)@, r, final(self)@),
    {
        let line = match read_line_stdin() {
            None => {
                return Err(RuntimeError::StdinFailure);
            },
            Some(l) => l,
        };
        let chars = chars_of(line.as_str());
        let ghost lv = line@;
        let ghost vs0 = old(self)@.value_stack;
        let len = chars.len();
        proof {
            assert(words_view(self.value_stack@) =~= vs0 + Seq::new(
                0,
                |m: int| WordView::Data(lv[lv.len() - 1 - m] as u32),
            ));
        }
        let mut idx: usize = len;
        while idx > 0
            invariant
                idx <= len,
                len == lv.len(),
                chars@ == lv,
                words_view(self.value_stack@) == vs0 + Seq::new(
                    (len - idx) as nat,
                    |m: int| WordView::Data(lv[lv.len() - 1 - m] as u32),
                ),
                self.function_table@ == old(self).function_table@,
                self.instruction_stack@ == old(self).instruction_stack@,
                self.args_array@ == old(self).args_array@,
            decreases idx,
        {
            idx = idx - 1;
            let ghost stack_before = words_view(self.value_stack@);
            let c = chars[idx];
            self.value_stack.push(Word::Data(c as u32));
            proof {
                assert(c == lv[idx as int]);
                assert(words_view(self.value_stack@) =~= stack_before.push(
                    WordView::Data(c as u32),
                ));
                assert(words_view(self.value_stack@) =~= vs0 + Seq::new(
                    (len - idx) as nat,
                    |m: int| WordView::Data(lv[lv.len() - 1 - m] as u32),
                ));
            }
        }
        proof {
            assert(self@ =~= with_values(
                old(self)@,
                vs0 + Seq::new(lv.len(), |m: int| WordView::Data(lv[lv.len() - 1 - m] as u32)),
            ));
        }
        Ok(false)
    }

    fn call_nand(&mut self) -> (r: Result<bool, RuntimeError>)
        ensures
            nand_step(old(self)@, r, final(self)@),
    {
        let ghost vs = old(self)@.value_stack;
        let ghost n = vs.len() as int;
        let a = match self.value_stack.pop() {
            None => {
                return Err(RuntimeError::StackUnderflow);
            },
            Some(w) => w,
        };
        proof {
            assert(a@ == vs[n - 1]);
            assert(words_view(self.value_stack@) =~= vs.drop_last());
        }
        let b = match self.value_stack.pop() {
            None => {
                proof {
                    assert(self@ =~= with_values(old(self)@, Seq::empty()));
                }
                return Err(RuntimeError::StackUnderflow);
            },
            Some(w) => w,
        };
        proof {
            assert(b@ == vs.drop_last().last());
            assert(b@ == vs[n - 2]);
            assert(words_view(self.value_stack@) =~= vs.take(n - 2));
            assert(self@ =~= with_values(old(self)@, vs.take(n - 2)));
        }
        let av = match a {
            Word::Data(x) => x,
            Word::Function(_) => {
                return Err(RuntimeError::TypeMismatch);
            },
        };
        let bv = match b {
            Word::Data(x) => x,
            Word::Function(_) => {
                return Err(RuntimeError::TypeMismatch);
            },
        };
        let result = !(av & bv);
        self.value_stack.push(Word::Data(result));
        proof {
            assert(words_view(self.value_stack@) =~= vs.take(n - 2).push(WordView::Data(result)));
            assert(self@ =~= with_values(old(self)@, vs.take(n - 2).push(WordView::Data(result))));
        }
        Ok(false)
    }

    fn call_shift_left(&mut self) -> (r: Result<bool, RuntimeError>)
        ensures
            shift_step(old(self)@, true, r, final(self)@),
    {
        let ghost vs = old(self)@.value_stack;
        let ghost nn = vs.len() as int;
        let w = match self.value_stack.pop() {
            None => {
                return Err(RuntimeError::StackUnderflow);
            },
            Some(w) => w,
        };
        proof {
            assert(w@ == vs[nn - 1]);
            assert(words_view(self.value_stack@) =~= vs.take(nn - 1));
            assert(self@ =~= with_values(old(self)@, vs.take(nn - 1)));
        }
        let n = match w {
            Word::Data(x) => x,
            Word::Function(_) => {
                return Err(RuntimeError::TypeMismatch);
            },
        };
        let result = n << 1u32;
        self.value_stack.push(Word::Data(result));
        proof {
            assert(words_view(self.value_stack@) =~= vs.take(nn - 1).push(WordView::Data(result)));
            assert(self@ =~= with_values(old(self)@, vs.take(nn - 1).push(WordView::Data(result))));
        }
        Ok(false)
    }

    fn call_shift_right(&mut self) -> (r: Result<bool, RuntimeError>)
        ensures
            shift_step(old(self)@, false, r, final(self)@),
    {
        let ghost vs = old(self)@.value_stack;
        let ghost nn = vs.len() as int;
        let w = match self.value_stack.pop() {
            None => {
                return Err(RuntimeError::StackUnderflow);
            },
            Some(w) => w,
        };
        proof {
            assert(w@ == vs[nn - 1]);
            assert(words_view(self.value_stack@) =~= vs.take(nn - 1));
            assert(self@ =~= with_values(old(self)@, vs.take(nn - 1)));
        }
        let n = match w {
            Word::Data(x) => x,
            Word::Function(_) => {
                return Err(RuntimeError::TypeMismatch);
            },
        };
        let result = n >> 1u32;
        self.value_stack.push(Word::Data(result));
        proof {
            assert(words_view(self.value_stack@) =~= vs.take(nn - 1).push(WordView::Data(result)));
            assert(self@ =~= with_values(old(self)@, vs.take(nn - 1).push(WordView::Data(result))));
        }
        Ok(false)
    }
}

/// Replacing the entry at the first index under the inserted name is exactly
/// `table_insert`.
proof fn lemma_table_insert_at(t: Seq<DefView>, d: DefView, j: int)
    requires
        0 <= j < t.len(),
        t[j].name == d.name,
        forall|k: int| 0 <= k < j ==> (#[trigger] t[k]).name != d.name,
    ensures
        table_insert(t, d) == t.update(j, d),
    decreases j,
{
    if j == 0 {
        assert(table_insert(t, d) =~= t.update(0, d));
    } else {
        assert forall|k: int| 0 <= k < j - 1 implies (#[trigger] t.drop_first()[k]).name
            != d.name by {
            assert(t.drop_first()[k] == t[k + 1]);
        }
        assert(t.drop_first()[j - 1] == t[j]);
        lemma_table_insert_at(t.drop_first(), d, j - 1);
        assert(table_insert(t, d) =~= t.update(j, d));
    }
}

/// Appending is exactly `table_insert` when no entry bears the name.
proof fn lemma_table_insert_absent(t: Seq<DefView>, d: DefView)
    requires
        forall|k: int| 0 <= k < t.len() ==> (#[trigger] t[k]).name != d.name,
    ensures
        table_insert(t, d) == t.push(d),
    decreases t.len(),
{
    if t.len() == 0 {
        assert(table_insert(t, d) =~= t.push(d));
    } else {
        assert forall|k: int| 0 <= k < t.drop_first().len() implies (#[trigger] t.drop_first()[
            k
        ]).name != d.name by {
            assert(t.drop_first()[k] == t[k + 1]);
        }
        lemma_table_insert_absent(t.drop_first(), d);
        assert(table_insert(t, d) =~= t.push(d));
    }
}

// ---------------------------------------------------------------------------
// Laws of the machine
// ---------------------------------------------------------------------------
/// `CallIf` against a short or ill-typed stack: fewer than two words is a
/// stack underflow; a non-function on top, or a non-datum under it, is a
/// type mismatch, the function reference being examined first. A lone word,
/// whatever its kind, is popped before the underflow is found and stays
/// popped; and no `CallIf`, called or not, ever touches the function table.
pub proof fn lemma_callif_errors(s: StateView, r: Result<bool, RuntimeError>, post: StateView)
    requires
        callif_step(s, r, post),
    ensures
        s.value_stack.len() < 2 ==> r == Err::<bool, RuntimeError>(RuntimeError::StackUnderflow),
        s.value_stack.len() == 0 ==> post == s,
        s.value_stack.len() == 1 ==> post == with_values(s, Seq::empty()),
        s.value_stack.len() >= 2 && !(s.value_stack.last() is Function) ==> r == Err::<
            bool,
            RuntimeError,
        >(RuntimeError::TypeMismatch),
        s.value_stack.len() >= 2 && s.value_stack.last() is Function && !(s.value_stack[
            s.value_stack.len() - 2
        ] is Data) ==> r == Err::<bool, RuntimeError>(RuntimeError::TypeMismatch),
        post.table == s.table,
{
}

/// `CallIf` on a zero datum removes exactly the two top words, performs no
/// call, and changes nothing else.
pub proof fn lemma_callif_zero(s: StateView, r: Result<bool, RuntimeError>, post: StateView)
    requires
        callif_step(s, r, post),
        s.value_stack.len() >= 2,
        s.value_stack.last() is Function,
        s.value_stack[s.value_stack.len() - 2] == WordView::Data(0),
    ensures
        r == Ok::<bool, RuntimeError>(false),
        post == with_values(s, s.value_stack.take(s.value_stack.len() - 2)),
        post.table == s.table,
        post.instr_stack == s.instr_stack,
        post.args == s.args,
{
}

/// A successful call of a defined function binds the argument array in pop
/// order: binding `j` is the word that stood `j` below the top of the stack
/// at call time. Pushing `Data(1)` then `Data(2)` before a call of arity 2
/// therefore binds argument zero to `Data(2)` and argument one to `Data(1)`.
pub proof fn lemma_call_binds_args(
    s: StateView,
    fname: Seq<char>,
    r: Result<bool, RuntimeError>,
    post: StateView,
    d: DefView,
)
    requires
        call_step(s, fname, r, post),
        !reserved_name(fname),
        lookup(s.table, fname) == Some(d),
        d.arity as int <= s.value_stack.len(),
    ensures
        r == Ok::<bool, RuntimeError>(false),
        post.args.len() == d.arity,
        forall|j: int|
            0 <= j < d.arity ==> post.args[j] == s.value_stack[s.value_stack.len() - 1 - j],
{
}

/// No call lets bindings leak out of the argument array it started with:
/// whether the call succeeds or fails, every binding it leaves behind is a
/// word it popped from the value stack in this very call.
pub proof fn lemma_call_args_never_leak(
    s: StateView,
    fname: Seq<char>,
    r: Result<bool, RuntimeError>,
    post: StateView,
)
    requires
        call_step(s, fname, r, post),
    ensures
        forall|j: int|
            0 <= j < post.args.len() ==> post.args[j] == s.value_stack[s.value_stack.len() - 1
                - j],
{
    let s0 = StateView { args: Seq::empty(), ..s };
    if reserved_name(fname) {
        if fname == "__print__"@ {
        } else if fname == "__input__"@ {
        } else {
        }
    } else {
        match lookup(s0.table, fname) {
            None => {},
            Some(d) => {
                if d.arity as int <= s0.value_stack.len() {
                } else {
                    assert(post.args == s0.value_stack.reverse());
                }
            },
        }
    }
}

/// An `Exit` halts the trampoline at once: when `run` reports an exit, the
/// machine performed some successful steps, met `Exit` on top, and stopped
/// with only that instruction removed; the pending instructions below it and
/// every value-stack mutation already performed are kept.
pub proof fn lemma_exit_halts(start: StateView, post: StateView)
    requires
        run_outcome(start, Ok::<bool, RuntimeError>(true), post),
    ensures
        exists|n: nat, mid: StateView|
            #![trigger machine_steps(start, mid, n)]
            machine_steps(start, mid, n) && mid.instr_stack.len() > 0 && top_instr(mid)
                is Exit && post == pop_instr(mid),
{
    let (n, mid) = choose|n: nat, mid: StateView|
        #![trigger machine_steps(start, mid, n)]
        machine_steps(start, mid, n) && mid.instr_stack.len() > 0 && instr_step(
            pop_instr(mid),
            top_instr(mid),
            Ok::<bool, RuntimeError>(true),
            post,
        );
    assert(instr_step(pop_instr(mid), top_instr(mid), Ok::<bool, RuntimeError>(true), post));
    match top_instr(mid) {
        InstrView::Exit => {
            assert(post == pop_instr(mid));
        },
        InstrView::CallIf => {
            assert(false);
        },
        _ => {
            assert(false);
        },
    }
}

} // verus!

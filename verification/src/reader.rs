//! The line sources that feed the lexer: an interface, a reader over lines
//! already in memory, and an interactive reader over standard input.
use vstd::prelude::*;
use vstd::string::StrSliceExecFns;

use crate::parser::Parser;
use crate::stdio::flush_stdout;
use crate::stdio::read_line_stdin;
use crate::stdio::write_stdout;
use crate::text::push_char;

verus! {

/// A pull-based source of input lines. `depth` is the nesting depth of the
/// construct being parsed, zero at top level, so that an interactive source
/// can render a deeper continuation prompt.
///
/// `budget` bounds how many more lines the source can still serve, and every
/// line served lowers it: the loops that pull lines until a token arrives
/// terminate on this bound. A source need not come anywhere near the bound;
/// the interactive reader serves up to `usize::MAX` lines.
pub trait Reader: Sized {
    spec fn budget(&self) -> nat;

    fn next_line(&mut self, depth: usize) -> (r: Option<String>)
        ensures
            final(self).budget() <= old(self).budget(),
            r is Some ==> final(self).budget() < old(self).budget(),
    ;
}

/// A reader that serves a fixed list of lines, one at a time: the shape of a
/// source file, or several concatenated, already read into memory.
pub struct FileReader {
    pub lines: Vec<String>,
    pub pos: usize,
}

impl FileReader {
    pub open spec fn remaining(&self) -> Seq<Seq<char>> {
        if self.pos as int <= self.lines@.len() {
            Seq::new(
                (self.lines@.len() - self.pos as int) as nat,
                |k: int| self.lines@[self.pos + k]@,
            )
        } else {
            Seq::empty()
        }
    }

    pub fn new(lines: Vec<String>) -> (r: FileReader)
        ensures
            r.remaining() == Seq::new(lines@.len(), |k: int| lines@[k]@),
    {
        let r = FileReader { lines, pos: 0 };
        proof {
            assert(r.remaining() =~= Seq::new(r.lines@.len(), |k: int| r.lines@[k]@));
        }
        r
    }
}

impl Reader for FileReader {
    open spec fn budget(&self) -> nat {
        if self.pos as int <= self.lines@.len() {
            (self.lines@.len() - self.pos as int) as nat
        } else {
            0
        }
    }

    fn next_line(&mut self, _depth: usize) -> (r: Option<String>)
        ensures
            match r {
                Some(line) => old(self).remaining().len() > 0 && line@ == old(self).remaining()[0]
                    && final(self).remaining() == old(self).remaining().drop_first(),
                None => old(self).remaining().len() == 0 && *final(self) == *old(self),
            },
    {
        if self.pos < self.lines.len() {
            let line = self.lines[self.pos].clone();
            self.pos = self.pos + 1;
            proof {
                assert(old(self).remaining()[0] == old(self).lines@[old(self).pos as int]@);
                assert(final(self).remaining() =~= old(self).remaining().drop_first());
            }
            Some(line)
        } else {
            None
        }
    }
}

/// A reader that prompts on standard output and serves lines from standard
/// input. The prompt is one `>` per nesting level. A failed read, and input
/// that has ended, both end the source. The stored counter realizes the
/// budget this trait asks for: the session serves at most `usize::MAX` lines.
pub struct InteractiveReader {
    pub remaining: usize,
}

impl InteractiveReader {
    pub fn new() -> (r: InteractiveReader) {
        InteractiveReader { remaining: usize::MAX }
    }

    /// A parser whose lines come from an interactive prompt session.
    pub fn read_instructions() -> (r: Parser<InteractiveReader>)
        ensures
            r.depth() == 0,
            r.buffered().len() == 0,
            r.consumed().len() == 0,
    {
        Parser::new(InteractiveReader::new())
    }
}

impl Reader for InteractiveReader {
    open spec fn budget(&self) -> nat {
        self.remaining as nat
    }

    fn next_line(&mut self, depth: usize) -> (r: Option<String>) {
        if self.remaining == 0 {
            return None;
        }
        self.remaining = self.remaining - 1;
        let mut prompt = String::new();
        let mut i: usize = 0;
        let levels = if depth < usize::MAX {
            depth + 1
        } else {
            depth
        };
        while i < levels
            invariant
                i <= levels,
            decreases levels - i,
        {
            push_char(&mut prompt, '>');
            i = i + 1;
        }
        push_char(&mut prompt, ' ');
        let _ = write_stdout(prompt.as_str());
        let _ = flush_stdout();
        match read_line_stdin() {
            None => None,
            Some(line) => {
                if line.as_str().unicode_len() == 0 {
                    // nothing at all, not even a newline: the input has ended
                    None
                } else {
                    Some(line)
                }
            },
        }
    }
}

} // verus!

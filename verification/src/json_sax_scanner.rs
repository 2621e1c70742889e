//! SAX-style scanner over the tokenizer: structural and scalar events only,
//! leaving all value construction to the builder.
use crate::json_tok::{
    lemma_lex_wf, lex, lex_measure, progresses, state_wf, tok_wf, Kind, LState, LexResult, Tok, Tokenizer,
};
use crate::json_types::JsonError;
use vstd::prelude::*;

verus! {

/// Loss-less structural / scalar events; text payloads borrow the scanner's buffer.
#[derive(Debug)]
pub enum Event<'a> {
    StartObj,
    EndObj,
    StartArr,
    EndArr,
    StrChunk(&'a [char]),
    StrEnd(&'a [char]),
    NumberChunk(&'a [char]),
    NumberEnd(&'a [char]),
    IdentChunk(&'a [char]),
    IdentEnd(&'a [char]),
}

/// Returned by [`Scanner::next_step`].
#[derive(Debug)]
pub enum Step<'a> {
    Event(Event<'a>),
    /// the buffer is exhausted: push more text and call again
    NeedMore,
    Error(JsonError),
}

#[derive(Clone, Copy, Debug, PartialEq, Eq, Structural)]
pub enum Container {
    Obj,
    Arr,
}

#[derive(Debug)]
pub struct Scanner {
    pub lexer: Tokenizer,
    buf: Vec<char>,
    stack: Vec<Container>,
    /// set between a `StrChunk` and the matching `StrEnd`
    pub in_string: bool,
}

/// Like [`lex`], but separators (`:` and `,`) are skipped.
pub open spec fn scan_lex(st: LState, pos: int, s: Seq<char>) -> LexResult
    decreases lex_measure(pos, s),
{
    let (r, st2, p2) = lex(st, pos, s);
    if state_wf(st, pos, s.len() as int) && s.len() <= usize::MAX && r is Ok && (r->Ok_0.kind
        == Kind::Colon || r->Ok_0.kind == Kind::Comma) {
        proof {
            lemma_lex_wf(st, pos, s);
        }
        scan_lex(st2, p2, s)
    } else {
        (r, st2, p2)
    }
}

pub proof fn lemma_scan_lex_wf(st: LState, pos: int, s: Seq<char>)
    requires
        state_wf(st, pos, s.len() as int),
        s.len() <= usize::MAX,
    ensures
        ({
            let (r, st2, p2) = scan_lex(st, pos, s);
            &&& pos <= p2 <= s.len()
            &&& state_wf(st2, p2, s.len() as int)
            &&& (r matches Ok(t) ==> tok_wf(t, s.len() as int) && t.kind != Kind::Colon && t.kind
                != Kind::Comma)
            &&& (r matches Ok(t) ==> t.kind != Kind::Eof ==> progresses(st, pos, st2, p2))
        }),
    decreases lex_measure(pos, s),
{
    lemma_lex_wf(st, pos, s);
    let (r, st2, p2) = lex(st, pos, s);
    if r is Ok && (r->Ok_0.kind == Kind::Colon || r->Ok_0.kind == Kind::Comma) {
        lemma_scan_lex_wf(st2, p2, s);
    }
}

/// The event a token stands for, with its text taken from the buffer.
pub open spec fn event_for(t: Tok, s: Seq<char>, ev: Event) -> bool {
    let text = s.subrange(t.start as int, t.end as int);
    match t.kind {
        Kind::LBrace => ev is StartObj,
        Kind::RBrace => ev is EndObj,
        Kind::LBracket => ev is StartArr,
        Kind::RBracket => ev is EndArr,
        Kind::StrChunk => ev matches Event::StrChunk(x) && x@ == text,
        Kind::StrEnd => ev matches Event::StrEnd(x) && x@ == text,
        Kind::NumChunk => ev matches Event::NumberChunk(x) && x@ == text,
        Kind::NumEnd => ev matches Event::NumberEnd(x) && x@ == text,
        Kind::IdentChunk => ev matches Event::IdentChunk(x) && x@ == text,
        Kind::IdentEnd => ev matches Event::IdentEnd(x) && x@ == text,
        _ => false,
    }
}

/// How the container stack changes for a token: opening brackets push, closing ones pop.
pub open spec fn stack_after(k: Kind, st: Seq<Container>) -> Seq<Container> {
    match k {
        Kind::LBrace => st.push(Container::Obj),
        Kind::LBracket => st.push(Container::Arr),
        Kind::RBrace | Kind::RBracket => if st.len() > 0 {
            st.drop_last()
        } else {
            st
        },
        _ => st,
    }
}

pub open spec fn in_string_after(k: Kind, b: bool) -> bool {
    match k {
        Kind::StrChunk => true,
        Kind::StrEnd => false,
        _ => b,
    }
}

impl Scanner {
    pub closed spec fn buffer(&self) -> Seq<char> {
        self.buf@
    }

    pub closed spec fn containers(&self) -> Seq<Container> {
        self.stack@
    }

    pub closed spec fn wf(&self) -> bool {
        self.lexer.wf(self.buf@.len() as int) && self.buf@.len() <= usize::MAX
    }

    pub closed spec fn lex_state(&self) -> (LState, int) {
        self.lexer@
    }

    pub closed spec fn string_open(&self) -> bool {
        self.in_string
    }

    /// A well-formed scanner's lexer state is consistent with its buffer.
    pub proof fn lemma_wf_state(&self)
        requires
            self.wf(),
        ensures
            state_wf(self.lex_state().0, self.lex_state().1, self.buffer().len() as int),
            self.buffer().len() <= usize::MAX,
    {
    }

    /// The number of characters buffered.
    pub fn buffered(&self) -> (r: usize)
        ensures
            r == self.buffer().len(),
    {
        self.buf.len()
    }

    /// A fresh scanner over an empty buffer.
    pub fn new() -> (r: Self)
        ensures
            r.lex_state() == (LState::Start, 0int),
            r.buffer() == Seq::<char>::empty(),
            r.containers() == Seq::<Container>::empty(),
            !r.string_open(),
            r.wf(),
    {
        Self { lexer: Tokenizer::new(), buf: Vec::new(), stack: Vec::new(), in_string: false }
    }

    /// Appends text to the buffer; a finished tokenizer resumes at the first new character.
    pub fn push(&mut self, chunk: String)
        requires
            old(self).wf(),
            old(self).buffer().len() + chunk@.len() <= usize::MAX,
        ensures
            final(self).wf(),
            final(self).buffer() == old(self).buffer() + chunk@,
            final(self).containers() == old(self).containers(),
            final(self).string_open() == old(self).string_open(),
            final(self).lex_state().1 == old(self).lex_state().1,
            final(self).lex_state().0 == (match old(self).lex_state().0 {
                LState::Done => LState::Start,
                st => st,
            }),
    {
        let cs = crate::text::chars_of(chunk.as_str());
        let mut i: usize = 0;
        let ghost b0 = self.buf@;
        while i < cs.len()
            invariant
                i <= cs@.len(),
                cs@ == chunk@,
                b0.len() + cs@.len() <= usize::MAX,
                self.buf@ == b0 + cs@.take(i as int),
                b0 == old(self).buffer(),
                self.stack@ == old(self).containers(),
                self.in_string == old(self).string_open(),
                self.lexer == old(self).lexer,
                old(self).wf(),
            decreases cs@.len() - i,
        {
            self.buf.push(cs[i]);
            i += 1;
            assert(self.buf@ =~= b0 + cs@.take(i as int));
        }
        assert(cs@.take(i as int) =~= cs@);
        self.lexer.reset_if_done();
    }

    /// Consumes one meaningful token (separators are skipped) and turns it into a [`Step`].
    pub fn next_step(&mut self) -> (r: Step)
        requires
            old(self).wf(),
        ensures
            final(self).wf(),
            final(self).buffer() == old(self).buffer(),
            ({
                let (res, st2, p2) = scan_lex(old(self).lex_state().0, old(self).lex_state().1, old(self).buffer());
                &&& final(self).lex_state() == (st2, p2)
                &&& match res {
                    Err(e) => r == Step::Error(e) && final(self).containers() == old(self).containers()
                        && final(self).string_open() == old(self).string_open(),
                    Ok(t) => if t.kind == Kind::Eof {
                        r is NeedMore && final(self).containers() == old(self).containers()
                            && final(self).string_open() == old(self).string_open()
                    } else {
                        &&& r matches Step::Event(ev) && event_for(t, old(self).buffer(), ev)
                        &&& final(self).containers() == stack_after(t.kind, old(self).containers())
                        &&& final(self).string_open() == in_string_after(t.kind, old(self).string_open())
                    },
                }
            }),
    {
        let ghost st0 = self.lexer@.0;
        let ghost p0 = self.lexer@.1;
        proof {
            lemma_scan_lex_wf(st0, p0, self.buf@);
        }
        loop
            invariant
                self.lexer.wf(self.buf@.len() as int),
                self.buf@.len() <= usize::MAX,
                self.buf@ == old(self).buffer(),
                self.stack@ == old(self).containers(),
                self.in_string == old(self).string_open(),
                st0 == old(self).lex_state().0,
                p0 == old(self).lex_state().1,
                scan_lex(self.lexer@.0, self.lexer@.1, self.buf@) == scan_lex(st0, p0, self.buf@),
            decreases lex_measure(self.lexer@.1, self.buf@),
        {
            proof {
                lemma_lex_wf(self.lexer@.0, self.lexer@.1, self.buf@);
            }
            let tok = self.lexer.next_tok(self.buf.as_slice());
            match tok {
                Ok(t) => {
                    if t.kind == Kind::Colon || t.kind == Kind::Comma {
                        continue ;
                    }
                    return self.emit(t);
                },
                Err(e) => {
                    return Step::Error(e);
                },
            }
        }
    }

    fn emit(&mut self, t: Tok) -> (r: Step)
        requires
            tok_wf(t, old(self).buf@.len() as int),
            t.kind != Kind::Colon,
            t.kind != Kind::Comma,
        ensures
            final(self).buf@ == old(self).buf@,
            final(self).lexer == old(self).lexer,
            if t.kind == Kind::Eof {
                r is NeedMore && final(self).stack@ == old(self).stack@
                    && final(self).in_string == old(self).in_string
            } else {
                &&& r matches Step::Event(ev) && event_for(t, old(self).buf@, ev)
                &&& final(self).stack@ == stack_after(t.kind, old(self).stack@)
                &&& final(self).in_string == in_string_after(t.kind, old(self).in_string)
            },
    {
        match t.kind {
            Kind::Eof => Step::NeedMore,
            Kind::LBrace => {
                self.stack.push(Container::Obj);
                Step::Event(Event::StartObj)
            },
            Kind::RBrace => {
                self.stack.pop();
                Step::Event(Event::EndObj)
            },
            Kind::LBracket => {
                self.stack.push(Container::Arr);
                Step::Event(Event::StartArr)
            },
            Kind::RBracket => {
                self.stack.pop();
                Step::Event(Event::EndArr)
            },
            Kind::StrChunk => {
                self.in_string = true;
                Step::Event(Event::StrChunk(vstd::slice::slice_subrange(self.buf.as_slice(), t.start, t.end)))
            },
            Kind::StrEnd => {
                self.in_string = false;
                Step::Event(Event::StrEnd(vstd::slice::slice_subrange(self.buf.as_slice(), t.start, t.end)))
            },
            Kind::IdentChunk => Step::Event(
                Event::IdentChunk(vstd::slice::slice_subrange(self.buf.as_slice(), t.start, t.end)),
            ),
            Kind::IdentEnd => Step::Event(
                Event::IdentEnd(vstd::slice::slice_subrange(self.buf.as_slice(), t.start, t.end)),
            ),
            Kind::NumChunk => Step::Event(
                Event::NumberChunk(vstd::slice::slice_subrange(self.buf.as_slice(), t.start, t.end)),
            ),
            Kind::NumEnd => Step::Event(
                Event::NumberEnd(vstd::slice::slice_subrange(self.buf.as_slice(), t.start, t.end)),
            ),
            _ => Step::NeedMore,
        }
    }
}

} // verus!

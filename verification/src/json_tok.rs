//! Tolerant, state-carrying JSON tokenizer that survives a growing buffer.
//!
//! Every token carries a `start..end` character range into the caller's
//! buffer, so the buffer can grow between calls. When the buffer ends in the
//! middle of a string, number or identifier, a `*Chunk` token is produced and
//! the tokenizer resumes from where it stopped once more text is available.
use crate::json_types::JsonError;
use vstd::prelude::*;

verus! {

#[derive(Debug, Clone, Copy, PartialEq, Eq, Structural)]
pub enum Kind {
    LBrace,
    RBrace,
    LBracket,
    RBracket,
    Colon,
    Comma,
    StrChunk,
    StrEnd,
    NumChunk,
    NumEnd,
    IdentChunk,
    IdentEnd,
    Eof,
}

/// A token: its kind and the character range `start..end` in the buffer.
#[derive(Debug, Clone, Copy)]
pub struct Tok {
    pub kind: Kind,
    pub start: usize,
    pub end: usize,
}

/// Lexer state carried across calls.
#[derive(Debug, Clone, Copy)]
pub enum LState {
    Start,
    /// inside an identifier whose current chunk starts at `start`
    InIdent { start: usize },
    /// inside a string opened by `quote`; `escape` is set right after a
    /// backslash and while `u_digits` hex digits of a `\uXXXX` remain
    InString { quote: char, start: usize, escape: bool, u_digits: u8 },
    InNumber { start: usize, seen_dot: bool, seen_exp: bool },
    InLineComment,
    /// inside a block comment; `star` records whether the last character was `*`
    InBlockComment { star: bool },
    Done,
}

pub open spec fn eof_tok(pos: int) -> Tok {
    Tok { kind: Kind::Eof, start: pos as usize, end: pos as usize }
}

pub open spec fn tok(kind: Kind, start: int, end: int) -> Tok {
    Tok { kind, start: start as usize, end: end as usize }
}

pub open spec fn is_ascii_digit(c: char) -> bool {
    '0' <= c <= '9'
}

pub open spec fn is_ascii_alpha(c: char) -> bool {
    ('a' <= c <= 'z') || ('A' <= c <= 'Z')
}

/// `char::is_ascii_whitespace`: space, tab, line feed, form feed, carriage return.
pub open spec fn is_ascii_ws(c: char) -> bool {
    c == ' ' || c == '\t' || c == '\n' || c == '\x0C' || c == '\r'
}

/// Characters that end an unquoted identifier (they are not consumed).
pub open spec fn is_ident_delim(c: char) -> bool {
    c == '{' || c == '}' || c == '[' || c == ']' || c == ',' || c == ':' || c == '"' || c == '\''
        || c == '/' || c == '\n' || c == '\r'
}

pub open spec fn punct_kind(c: char) -> Option<Kind> {
    if c == '{' {
        Some(Kind::LBrace)
    } else if c == '}' {
        Some(Kind::RBrace)
    } else if c == '[' {
        Some(Kind::LBracket)
    } else if c == ']' {
        Some(Kind::RBracket)
    } else if c == ':' {
        Some(Kind::Colon)
    } else if c == ',' {
        Some(Kind::Comma)
    } else {
        None
    }
}

pub open spec fn is_punct(k: Kind) -> bool {
    k == Kind::LBrace || k == Kind::RBrace || k == Kind::LBracket || k == Kind::RBracket
        || k == Kind::Colon || k == Kind::Comma
}

/// Resuming inside a number or identifier may end it without consuming input.
pub open spec fn resume_rank(st: LState) -> int {
    match st {
        LState::InNumber { .. } | LState::InIdent { .. } => 1,
        _ => 0,
    }
}

/// A produced token moves the tokenizer forward.
pub open spec fn progresses(st: LState, pos: int, st2: LState, p2: int) -> bool {
    p2 > pos || (p2 == pos && resume_rank(st) > resume_rank(st2))
}

pub type LexResult = (Result<Tok, JsonError>, LState, int);

/// Scanning the body of a quoted string from `pos`.
pub open spec fn str_scan(quote: char, start: int, escape: bool, u: u8, pos: int, s: Seq<char>) -> LexResult
    decreases s.len() - pos,
{
    if pos >= s.len() {
        if start == pos {
            (Ok(eof_tok(pos)), LState::InString { quote, start: start as usize, escape, u_digits: u }, pos)
        } else {
            (
                Ok(tok(Kind::StrChunk, start, pos)),
                LState::InString { quote, start: pos as usize, escape, u_digits: u },
                pos,
            )
        }
    } else {
        let c = s[pos];
        if escape {
            if u > 0 {
                str_scan(quote, start, (u - 1) as u8 != 0, (u - 1) as u8, pos + 1, s)
            } else if c == 'u' {
                str_scan(quote, start, true, 4, pos + 1, s)
            } else {
                str_scan(quote, start, false, u, pos + 1, s)
            }
        } else if c == '\\' {
            str_scan(quote, start, true, u, pos + 1, s)
        } else if c == quote {
            (Ok(tok(Kind::StrEnd, start, pos)), LState::Start, pos + 1)
        } else {
            str_scan(quote, start, escape, u, pos + 1, s)
        }
    }
}

/// Scanning a number from `pos`; `at_start` / `in_exp` say whether a sign is
/// still acceptable, `progressed` whether anything was consumed in this call.
pub open spec fn num_scan(
    start: int,
    sd: bool,
    se: bool,
    at_start: bool,
    in_exp: bool,
    progressed: bool,
    pos: int,
    s: Seq<char>,
) -> LexResult
    decreases s.len() - pos,
{
    if pos < s.len() && (((s[pos] == '+' || s[pos] == '-') && (at_start || in_exp)) || is_ascii_digit(s[pos])) {
        num_scan(start, sd, se, false, false, true, pos + 1, s)
    } else if pos < s.len() && s[pos] == '.' && !sd && !se {
        num_scan(start, true, se, false, in_exp, true, pos + 1, s)
    } else if pos < s.len() && (s[pos] == 'e' || s[pos] == 'E') && !se {
        num_scan(start, sd, true, false, true, true, pos + 1, s)
    } else if !progressed && pos == s.len() {
        (Ok(eof_tok(pos)), LState::InNumber { start: start as usize, seen_dot: sd, seen_exp: se }, pos)
    } else if pos == s.len() {
        (
            Ok(tok(Kind::NumChunk, start, pos)),
            LState::InNumber { start: pos as usize, seen_dot: sd, seen_exp: se },
            pos,
        )
    } else {
        (Ok(tok(Kind::NumEnd, start, pos)), LState::Start, pos)
    }
}

/// First position at or after `pos` holding an identifier delimiter (or the end).
pub open spec fn ident_end(pos: int, s: Seq<char>) -> int
    decreases s.len() - pos,
{
    if pos < s.len() && !is_ident_delim(s[pos]) {
        ident_end(pos + 1, s)
    } else {
        pos
    }
}

pub open spec fn ident_scan(start: int, pos: int, s: Seq<char>) -> LexResult {
    let d = ident_end(pos, s);
    if d == pos && d >= s.len() {
        (Ok(eof_tok(d)), LState::InIdent { start: start as usize }, d)
    } else if d >= s.len() {
        (Ok(tok(Kind::IdentChunk, start, d)), LState::InIdent { start: d as usize }, d)
    } else {
        (Ok(tok(Kind::IdentEnd, start, d)), LState::Start, d)
    }
}

/// Position just past the end of a line comment starting at `pos`.
pub open spec fn line_end(pos: int, s: Seq<char>) -> int
    decreases s.len() - pos,
{
    if pos < s.len() {
        if s[pos] == '\n' {
            pos + 1
        } else {
            line_end(pos + 1, s)
        }
    } else {
        pos
    }
}

/// Scanning a block comment: (closed, last star flag, position reached).
pub open spec fn block_scan(star: bool, pos: int, s: Seq<char>) -> (bool, bool, int)
    decreases s.len() - pos,
{
    if pos < s.len() {
        let st = s[pos] == '*';
        if st && pos + 1 < s.len() && s[pos + 1] == '/' {
            (true, st, pos + 2)
        } else {
            block_scan(st, pos + 1, s)
        }
    } else {
        (false, star, pos)
    }
}

pub open spec fn state_rank(st: LState) -> int {
    match st {
        LState::InLineComment => 1,
        _ => 0,
    }
}

pub open spec fn lex_measure(pos: int, s: Seq<char>) -> int {
    if pos <= s.len() {
        s.len() - pos
    } else {
        0
    }
}

/// The next token, the state left behind and the position reached, when the
/// tokenizer is in state `st` at position `pos` of buffer `s`.
pub open spec fn lex(st: LState, pos: int, s: Seq<char>) -> LexResult
    decreases lex_measure(pos, s), state_rank(st),
{
    match st {
        LState::Start => {
            if pos >= s.len() {
                (Ok(eof_tok(pos)), LState::Done, pos)
            } else {
                let c = s[pos];
                if punct_kind(c) is Some {
                    (Ok(tok(punct_kind(c)->0, pos, pos + 1)), LState::Start, pos + 1)
                } else if c == '"' || c == '\'' {
                    if pos + 1 >= s.len() {
                        (Ok(eof_tok(pos)), LState::Start, pos)
                    } else if s[pos + 1] == ':' {
                        lex(LState::Start, pos + 1, s)
                    } else {
                        str_scan(c, pos + 1, false, 0, pos + 1, s)
                    }
                } else if is_ascii_digit(c) || c == '-' || c == '.' {
                    num_scan(pos, false, false, true, false, false, pos, s)
                } else if is_ascii_alpha(c) || c == '_' {
                    ident_scan(pos, pos, s)
                } else if c == '/' && pos + 1 < s.len() && s[pos + 1] == '/' {
                    lex(LState::InLineComment, pos + 2, s)
                } else if c == '/' && pos + 1 < s.len() && s[pos + 1] == '*' {
                    let (closed, star, p) = block_scan(false, pos + 2, s);
                    proof {
                        lemma_block_scan(false, pos + 2, s);
                    }
                    if p >= s.len() && !closed {
                        (Err(JsonError::UnexpectedEof), LState::InBlockComment { star }, p)
                    } else {
                        lex(LState::Start, p, s)
                    }
                } else if is_ascii_ws(c) {
                    lex(LState::Start, pos + 1, s)
                } else {
                    (Err(JsonError::UnexpectedChar(c)), LState::Start, pos)
                }
            }
        },
        LState::InString { quote, start, escape, u_digits } => str_scan(
            quote,
            start as int,
            escape,
            u_digits,
            pos,
            s,
        ),
        LState::InNumber { start, seen_dot, seen_exp } => num_scan(
            start as int,
            seen_dot,
            seen_exp,
            pos == start,
            seen_exp && 1 <= pos <= s.len() && (s[pos - 1] == 'e' || s[pos - 1] == 'E'),
            false,
            pos,
            s,
        ),
        LState::InIdent { start } => ident_scan(start as int, pos, s),
        LState::InLineComment => {
            proof {
                lemma_line_end(pos, s);
            }
            lex(LState::Start, line_end(pos, s), s)
        },
        LState::InBlockComment { star } => {
            let (closed, star2, p) = block_scan(star, pos, s);
            proof {
                lemma_block_scan(star, pos, s);
            }
            if p >= s.len() && !closed {
                (Err(JsonError::UnexpectedEof), LState::InBlockComment { star: star2 }, p)
            } else {
                lex(LState::Start, p, s)
            }
        },
        LState::Done => (Ok(eof_tok(pos)), LState::Done, pos),
    }
}

/// A state is consistent with a position and a buffer length.
pub open spec fn state_wf(st: LState, pos: int, len: int) -> bool {
    &&& 0 <= pos <= len
    &&& match st {
        LState::InIdent { start } => start == pos,
        LState::InString { start, .. } => start == pos,
        LState::InNumber { start, seen_exp, .. } => start == pos && (seen_exp ==> pos >= 1),
        _ => true,
    }
}

/// Token ranges lie in the buffer and end where expected.
pub open spec fn tok_wf(t: Tok, len: int) -> bool {
    t.start <= t.end <= len
}

#[derive(Debug, Clone)]
pub struct Tokenizer {
    state: LState,
    pos: usize,
}

impl View for Tokenizer {
    type V = (LState, int);

    closed spec fn view(&self) -> (LState, int) {
        (self.state, self.pos as int)
    }
}

/// Ranges of produced tokens lie within the buffer, the position never moves
/// back, and the state left behind is consistent with the buffer.
pub proof fn lemma_lex_wf(st: LState, pos: int, s: Seq<char>)
    requires
        state_wf(st, pos, s.len() as int),
        s.len() <= usize::MAX,
    ensures
        ({
            let (r, st2, p2) = lex(st, pos, s);
            &&& pos <= p2 <= s.len()
            &&& state_wf(st2, p2, s.len() as int)
            &&& (r matches Ok(t) ==> tok_wf(t, s.len() as int))
            &&& (r matches Ok(t) ==> (t.kind == Kind::Eof ==> t.start == t.end && t.end == p2))
            &&& (r matches Ok(t) ==> (punct_kind(s[t.start as int]) == Some(t.kind) <==> is_punct(t.kind)))
            &&& (r matches Ok(t) ==> is_punct(t.kind) ==> pos <= t.start && t.end == t.start + 1 == p2
                && st2 is Start)
            &&& (r matches Ok(t) ==> t.kind != Kind::Eof ==> progresses(st, pos, st2, p2))
        }),
    decreases lex_measure(pos, s), state_rank(st),
{
    match st {
        LState::Start => {
            if pos < s.len() {
                let c = s[pos];
                if punct_kind(c) is Some {
                } else if c == '"' || c == '\'' {
                    if pos + 1 >= s.len() {
                    } else if s[pos + 1] == ':' {
                        lemma_lex_wf(LState::Start, pos + 1, s);
                    } else {
                        lemma_str_scan_wf(c, pos + 1, false, 0, pos + 1, s);
                    }
                } else if is_ascii_digit(c) || c == '-' || c == '.' {
                    lemma_num_scan_wf(pos, false, false, true, false, false, pos, s);
                } else if is_ascii_alpha(c) || c == '_' {
                    lemma_ident_end(pos, s);
                } else if c == '/' && pos + 1 < s.len() && s[pos + 1] == '/' {
                    lemma_line_end(pos + 2, s);
                    lemma_lex_wf(LState::InLineComment, pos + 2, s);
                } else if c == '/' && pos + 1 < s.len() && s[pos + 1] == '*' {
                    lemma_block_scan(false, pos + 2, s);
                    let (closed, star, p) = block_scan(false, pos + 2, s);
                    if p < s.len() || closed {
                        lemma_lex_wf(LState::Start, p, s);
                    }
                } else if is_ascii_ws(c) {
                    lemma_lex_wf(LState::Start, pos + 1, s);
                }
            }
        },
        LState::InString { quote, start, escape, u_digits } => {
            lemma_str_scan_wf(quote, start as int, escape, u_digits, pos, s);
        },
        LState::InNumber { start, seen_dot, seen_exp } => {
            lemma_num_scan_wf(
                start as int,
                seen_dot,
                seen_exp,
                pos == start,
                seen_exp && 1 <= pos <= s.len() && (s[pos - 1] == 'e' || s[pos - 1] == 'E'),
                false,
                pos,
                s,
            );
        },
        LState::InIdent { start } => {
            lemma_ident_end(pos, s);
        },
        LState::InLineComment => {
            lemma_line_end(pos, s);
            lemma_lex_wf(LState::Start, line_end(pos, s), s);
        },
        LState::InBlockComment { star } => {
            lemma_block_scan(star, pos, s);
            let (closed, star2, p) = block_scan(star, pos, s);
            if p < s.len() || closed {
                lemma_lex_wf(LState::Start, p, s);
            }
        },
        LState::Done => {},
    }
}

pub proof fn lemma_str_scan_wf(quote: char, start: int, escape: bool, u: u8, pos: int, s: Seq<char>)
    requires
        0 <= start <= pos <= s.len(),
        s.len() <= usize::MAX,
    ensures
        ({
            let (r, st2, p2) = str_scan(quote, start, escape, u, pos, s);
            &&& pos <= p2 <= s.len()
            &&& state_wf(st2, p2, s.len() as int)
            &&& (r matches Ok(t) ==> tok_wf(t, s.len() as int))
            &&& (r matches Ok(t) ==> (t.kind == Kind::Eof ==> t.start == t.end && t.end == p2))
            &&& (r matches Ok(t) ==> !is_punct(t.kind))
            &&& (r matches Ok(t) ==> t.kind != Kind::Eof ==> p2 > start)
            &&& (r matches Ok(t) ==> t.kind == Kind::Eof ==> p2 == start)
        }),
    decreases s.len() - pos,
{
    if pos < s.len() {
        let c = s[pos];
        if escape {
            if u > 0 {
                lemma_str_scan_wf(quote, start, (u - 1) as u8 != 0, (u - 1) as u8, pos + 1, s);
            } else if c == 'u' {
                lemma_str_scan_wf(quote, start, true, 4, pos + 1, s);
            } else {
                lemma_str_scan_wf(quote, start, false, u, pos + 1, s);
            }
        } else if c == '\\' {
            lemma_str_scan_wf(quote, start, true, u, pos + 1, s);
        } else if c == quote {
        } else {
            lemma_str_scan_wf(quote, start, escape, u, pos + 1, s);
        }
    }
}

pub proof fn lemma_num_scan_wf(
    start: int,
    sd: bool,
    se: bool,
    at_start: bool,
    in_exp: bool,
    progressed: bool,
    pos: int,
    s: Seq<char>,
)
    requires
        0 <= start <= pos <= s.len(),
        se ==> pos >= 1,
        !progressed ==> start == pos,
        s.len() <= usize::MAX,
    ensures
        ({
            let (r, st2, p2) = num_scan(start, sd, se, at_start, in_exp, progressed, pos, s);
            &&& pos <= p2 <= s.len()
            &&& state_wf(st2, p2, s.len() as int)
            &&& (r matches Ok(t) ==> tok_wf(t, s.len() as int))
            &&& (r matches Ok(t) ==> (t.kind == Kind::Eof ==> t.start == t.end && t.end == p2))
            &&& (r matches Ok(t) ==> !is_punct(t.kind))
            &&& (!progressed ==> (r matches Ok(t) ==> t.kind != Kind::Eof ==> p2 > pos || (p2 == pos && st2 is Start)))
            &&& (pos < s.len() && (is_ascii_digit(s[pos]) || ((s[pos] == '-' || s[pos] == '+') && at_start)
                || (s[pos] == '.' && !sd && !se)) ==> p2 > pos)
        }),
    decreases s.len() - pos,
{
    if pos < s.len() && (((s[pos] == '+' || s[pos] == '-') && (at_start || in_exp)) || is_ascii_digit(s[pos])) {
        lemma_num_scan_wf(start, sd, se, false, false, true, pos + 1, s);
    } else if pos < s.len() && s[pos] == '.' && !sd && !se {
        lemma_num_scan_wf(start, true, se, false, in_exp, true, pos + 1, s);
    } else if pos < s.len() && (s[pos] == 'e' || s[pos] == 'E') && !se {
        lemma_num_scan_wf(start, sd, true, false, true, true, pos + 1, s);
    }
}

pub proof fn lemma_ident_end(pos: int, s: Seq<char>)
    requires
        0 <= pos <= s.len(),
    ensures
        pos <= ident_end(pos, s) <= s.len(),
        ident_end(pos, s) < s.len() ==> is_ident_delim(s[ident_end(pos, s)]),
        forall|i: int| pos <= i < ident_end(pos, s) ==> !is_ident_delim(#[trigger] s[i]),
    decreases s.len() - pos,
{
    if pos < s.len() && !is_ident_delim(s[pos]) {
        lemma_ident_end(pos + 1, s);
    }
}

pub proof fn lemma_line_end(pos: int, s: Seq<char>)
    ensures
        pos <= line_end(pos, s),
        pos <= s.len() ==> line_end(pos, s) <= s.len(),
    decreases s.len() - pos,
{
    if pos < s.len() && s[pos] != '\n' {
        lemma_line_end(pos + 1, s);
    }
}

pub proof fn lemma_block_scan(star: bool, pos: int, s: Seq<char>)
    ensures
        pos <= block_scan(star, pos, s).2,
        pos <= s.len() ==> block_scan(star, pos, s).2 <= s.len(),
        pos < s.len() ==> pos < block_scan(star, pos, s).2,
    decreases s.len() - pos,
{
    if pos < s.len() {
        let st = s[pos] == '*';
        if !(st && pos + 1 < s.len() && s[pos + 1] == '/') {
            lemma_block_scan(st, pos + 1, s);
        }
    }
}

fn is_digit(c: char) -> (r: bool)
    ensures
        r == is_ascii_digit(c),
{
    '0' <= c && c <= '9'
}

fn eof(pos: usize) -> (t: Tok)
    ensures
        t == eof_tok(pos as int),
{
    Tok { kind: Kind::Eof, start: pos, end: pos }
}

impl Tokenizer {
    pub open spec fn wf(&self, len: int) -> bool {
        state_wf(self@.0, self@.1, len)
    }

    pub fn new() -> (t: Self)
        ensures
            t@ == (LState::Start, 0int),
    {
        Self { state: LState::Start, pos: 0 }
    }

    /// Re-initialise after the buffer has grown: a finished tokenizer resumes
    /// in the start state at the same position.
    pub fn reset_if_done(&mut self)
        ensures
            final(self)@.1 == old(self)@.1,
            final(self)@.0 == (match old(self)@.0 {
                LState::Done => LState::Start,
                st => st,
            }),
    {
        if let LState::Done = self.state {
            self.state = LState::Start;
        }
    }

    /// The next token, or an `Eof` token when no progress is possible on this
    /// buffer (a comment yields no token; one still open at the end of the
    /// buffer is an unexpected end). `src` is the whole buffer seen so far.
    pub fn next_tok(&mut self, src: &[char]) -> (r: Result<Tok, JsonError>)
        requires
            old(self).wf(src@.len() as int),
        ensures
            (r, final(self)@.0, final(self)@.1) == lex(old(self)@.0, old(self)@.1, src@),
            final(self).wf(src@.len() as int),
            old(self)@.1 <= final(self)@.1,
            r matches Ok(t) ==> tok_wf(t, src@.len() as int),
            r matches Ok(t) ==> (t.kind == Kind::Eof ==> t.start == t.end),
            r matches Ok(t) ==> (is_punct(t.kind) ==> t.end == t.start + 1),
    {
        let len = src.len();
        proof {
            lemma_lex_wf(self.state, self.pos as int, src@);
        }
        let ghost goal = lex(self.state, self.pos as int, src@);
        loop
            invariant
                goal == lex(old(self)@.0, old(self)@.1, src@),
                len == src@.len(),
                state_wf(self.state, self.pos as int, len as int),
                lex(self.state, self.pos as int, src@) == goal,
                old(self)@.1 <= self.pos,
                old(self)@.1 <= goal.2 <= len,
                state_wf(goal.1, goal.2, len as int),
                goal.0 matches Ok(t) ==> tok_wf(t, len as int),
                goal.0 matches Ok(t) ==> (t.kind == Kind::Eof ==> t.start == t.end),
                goal.0 matches Ok(t) ==> (is_punct(t.kind) ==> t.end == t.start + 1),
            decreases lex_measure(self.pos as int, src@), state_rank(self.state),
        {
            match self.state {
                LState::Start => {
                    if self.pos >= len {
                        self.state = LState::Done;
                        return Ok(eof(self.pos));
                    }
                    let c = src[self.pos];
                    if c == '{' || c == '}' || c == '[' || c == ']' || c == ':' || c == ',' {
                        let kind = if c == '{' {
                            Kind::LBrace
                        } else if c == '}' {
                            Kind::RBrace
                        } else if c == '[' {
                            Kind::LBracket
                        } else if c == ']' {
                            Kind::RBracket
                        } else if c == ':' {
                            Kind::Colon
                        } else {
                            Kind::Comma
                        };
                        let start = self.pos;
                        self.pos = self.pos + 1;
                        return Ok(Tok { kind, start, end: start + 1 });
                    } else if c == '"' || c == '\'' {
                        // one character of look-ahead is needed; ask for more if absent
                        if self.pos + 1 >= len {
                            return Ok(eof(self.pos));
                        }
                        if src[self.pos + 1] == ':' {
                            // a stray quote right after an unquoted key
                            self.pos = self.pos + 1;
                            continue ;
                        }
                        self.pos = self.pos + 1;
                        self.state = LState::InString {
                            quote: c,
                            start: self.pos,
                            escape: false,
                            u_digits: 0,
                        };
                        continue ;
                    } else if is_digit(c) || c == '-' || c == '.' {
                        self.state = LState::InNumber {
                            start: self.pos,
                            seen_dot: false,
                            seen_exp: false,
                        };
                        return self.scan_number(src);
                    } else if ('a' <= c && c <= 'z') || ('A' <= c && c <= 'Z') || c == '_' {
                        self.state = LState::InIdent { start: self.pos };
                        return self.scan_ident(src);
                    } else if c == '/' && self.pos + 1 < len && src[self.pos + 1] == '/' {
                        self.state = LState::InLineComment;
                        self.pos = self.pos + 2;
                    } else if c == '/' && self.pos + 1 < len && src[self.pos + 1] == '*' {
                        self.state = LState::InBlockComment { star: false };
                        self.pos = self.pos + 2;
                    } else if c == ' ' || c == '\t' || c == '\n' || c == '\x0C' || c == '\r' {
                        self.pos = self.pos + 1;
                    } else {
                        return Err(JsonError::UnexpectedChar(c));
                    }
                },
                LState::InString { .. } => {
                    return self.scan_string(src);
                },
                LState::InNumber { .. } => {
                    return self.scan_number(src);
                },
                LState::InIdent { .. } => {
                    return self.scan_ident(src);
                },
                LState::InLineComment => {
                    let ghost p0 = self.pos as int;
                    while self.pos < len
                        invariant_except_break
                            len == src@.len(),
                            p0 <= self.pos <= len,
                            line_end(self.pos as int, src@) == line_end(p0, src@),
                        ensures
                            self.pos == line_end(p0, src@),
                            p0 <= self.pos <= len,
                        decreases len - self.pos,
                    {
                        let b = src[self.pos];
                        self.pos = self.pos + 1;
                        if b == '\n' {
                            break;
                        }
                    }
                    proof {
                        lemma_line_end(p0, src@);
                    }
                    self.state = LState::Start;
                },
                LState::InBlockComment { star: star0 } => {
                    let ghost p0 = self.pos as int;
                    let mut star = star0;
                    let mut closed = false;
                    while self.pos < len
                        invariant_except_break
                            len == src@.len(),
                            p0 <= self.pos <= len,
                            block_scan(star, self.pos as int, src@) == block_scan(star0, p0, src@),
                            !closed,
                        ensures
                            p0 <= self.pos <= len,
                            closed ==> block_scan(star0, p0, src@) == (true, star, self.pos as int),
                            !closed ==> self.pos >= len,
                            !closed ==> block_scan(star0, p0, src@) == (false, star, self.pos as int),
                        decreases len - self.pos,
                    {
                        let b = src[self.pos];
                        self.pos = self.pos + 1;
                        star = b == '*';
                        if star && self.pos < len && src[self.pos] == '/' {
                            self.pos = self.pos + 1;
                            closed = true;
                            break;
                        }
                    }
                    proof {
                        lemma_block_scan(star0, p0, src@);
                    }
                    if closed {
                        self.state = LState::Start;
                    } else {
                        self.state = LState::InBlockComment { star };
                    }
                    if !closed && self.pos >= len {
                        return Err(JsonError::UnexpectedEof);
                    }
                },
                LState::Done => {
                    return Ok(eof(self.pos));
                },
            }
        }
    }

    fn scan_string(&mut self, src: &[char]) -> (r: Result<Tok, JsonError>)
        requires
            old(self).state is InString,
            state_wf(old(self).state, old(self).pos as int, src@.len() as int),
        ensures
            (r, final(self).state, final(self).pos as int) == lex(old(self).state, old(self).pos as int, src@),
    {
        let len = src.len();
        if let LState::InString { quote, start, escape: e0, u_digits: u0 } = self.state {
            let mut escape = e0;
            let mut u_digits = u0;
            while self.pos < len
                invariant
                    len == src@.len(),
                    old(self).state == (LState::InString { quote, start, escape: e0, u_digits: u0 }),
                    self.state == old(self).state,
                    start <= self.pos <= len,
                    str_scan(quote, start as int, escape, u_digits, self.pos as int, src@)
                        == str_scan(quote, start as int, e0, u0, old(self).pos as int, src@),
                decreases len - self.pos,
            {
                let b = src[self.pos];
                if escape {
                    if u_digits > 0 {
                        u_digits = u_digits - 1;
                        if u_digits == 0 {
                            escape = false;
                        }
                    } else if b == 'u' {
                        u_digits = 4;
                    } else {
                        escape = false;
                    }
                    self.pos = self.pos + 1;
                    continue ;
                }
                if b == '\\' {
                    escape = true;
                    self.pos = self.pos + 1;
                    continue ;
                }
                if b == quote {
                    let t = Tok { kind: Kind::StrEnd, start, end: self.pos };
                    self.pos = self.pos + 1;
                    self.state = LState::Start;
                    return Ok(t);
                }
                self.pos = self.pos + 1;
            }
            if start == self.pos {
                self.state = LState::InString { quote, start, escape, u_digits };
                return Ok(eof(self.pos));
            }
            let t = Tok { kind: Kind::StrChunk, start, end: self.pos };
            self.state = LState::InString { quote, start: self.pos, escape, u_digits };
            Ok(t)
        } else {
            Err(JsonError::UnexpectedEof)
        }
    }

    fn scan_number(&mut self, src: &[char]) -> (r: Result<Tok, JsonError>)
        requires
            old(self).state is InNumber,
            state_wf(old(self).state, old(self).pos as int, src@.len() as int),
        ensures
            (r, final(self).state, final(self).pos as int) == lex(old(self).state, old(self).pos as int, src@),
    {
        let len = src.len();
        if let LState::InNumber { start, seen_dot: sd0, seen_exp: se0 } = self.state {
            let mut seen_dot = sd0;
            let mut seen_exp = se0;
            let mut progressed = false;
            let mut at_start = self.pos == start;
            let mut in_exp = seen_exp && 1 <= self.pos && self.pos <= len && (src[self.pos - 1]
                == 'e' || src[self.pos - 1] == 'E');
            let ghost goal = lex(self.state, self.pos as int, src@);
            loop
                invariant
                    len == src@.len(),
                    old(self).state == (LState::InNumber { start, seen_dot: sd0, seen_exp: se0 }),
                    start <= self.pos <= len,
                    seen_exp ==> self.pos >= 1,
                    num_scan(
                        start as int,
                        seen_dot,
                        seen_exp,
                        at_start,
                        in_exp,
                        progressed,
                        self.pos as int,
                        src@,
                    ) == goal,
                ensures
                    start <= self.pos <= len,
                    seen_exp ==> self.pos >= 1,
                    num_scan(
                        start as int,
                        seen_dot,
                        seen_exp,
                        at_start,
                        in_exp,
                        progressed,
                        self.pos as int,
                        src@,
                    ) == goal,
                    self.pos >= len || !((((src@[self.pos as int] == '+' || src@[self.pos as int] == '-') && (at_start || in_exp))
                        || is_ascii_digit(src@[self.pos as int])) || (src@[self.pos as int] == '.' && !seen_dot && !seen_exp)
                        || ((src@[self.pos as int] == 'e' || src@[self.pos as int] == 'E') && !seen_exp)),
                decreases len - self.pos,
            {
                if self.pos >= len {
                    break;
                }
                let c = src[self.pos];
                if ((c == '+' || c == '-') && (at_start || in_exp)) || is_digit(c) {
                    self.pos = self.pos + 1;
                    progressed = true;
                    at_start = false;
                    in_exp = false;
                } else if c == '.' && !seen_dot && !seen_exp {
                    seen_dot = true;
                    self.pos = self.pos + 1;
                    progressed = true;
                    at_start = false;
                } else if (c == 'e' || c == 'E') && !seen_exp {
                    seen_exp = true;
                    self.pos = self.pos + 1;
                    progressed = true;
                    at_start = false;
                    in_exp = true;
                } else {
                    break;
                }
            }
            if !progressed && self.pos == len {
                self.state = LState::InNumber { start, seen_dot, seen_exp };
                return Ok(eof(self.pos));
            }
            if self.pos == len {
                self.state = LState::InNumber { start: self.pos, seen_dot, seen_exp };
                return Ok(Tok { kind: Kind::NumChunk, start, end: self.pos });
            }
            let end = self.pos;
            self.state = LState::Start;
            Ok(Tok { kind: Kind::NumEnd, start, end })
        } else {
            Err(JsonError::UnexpectedEof)
        }
    }

    fn scan_ident(&mut self, src: &[char]) -> (r: Result<Tok, JsonError>)
        requires
            old(self).state is InIdent,
            state_wf(old(self).state, old(self).pos as int, src@.len() as int),
        ensures
            (r, final(self).state, final(self).pos as int) == lex(old(self).state, old(self).pos as int, src@),
    {
        let len = src.len();
        if let LState::InIdent { start } = self.state {
            let ghost p0 = self.pos as int;
            let mut progressed = false;
            while self.pos < len
                invariant
                    len == src@.len(),
                    old(self).state == (LState::InIdent { start }),
                    self.state == old(self).state,
                    p0 == old(self).pos,
                    p0 <= self.pos <= len,
                    progressed == (self.pos > p0),
                    ident_end(self.pos as int, src@) == ident_end(p0, src@),
                ensures
                    self.pos == len || is_ident_delim(src@[self.pos as int]),
                decreases len - self.pos,
            {
                let c = src[self.pos];
                if c == '{' || c == '}' || c == '[' || c == ']' || c == ',' || c == ':' || c == '"'
                    || c == '\'' || c == '/' || c == '\n' || c == '\r' {
                    break;
                }
                self.pos = self.pos + 1;
                progressed = true;
            }
            if !progressed && self.pos == len {
                return Ok(eof(self.pos));
            }
            if self.pos == len {
                self.state = LState::InIdent { start: self.pos };
                return Ok(Tok { kind: Kind::IdentChunk, start, end: self.pos });
            }
            let end = self.pos;
            self.state = LState::Start;
            Ok(Tok { kind: Kind::IdentEnd, start, end })
        } else {
            Err(JsonError::UnexpectedEof)
        }
    }
}

} // verus!

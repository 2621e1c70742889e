//! The WAIL source language: tokens, import resolution and the error types
//! of its parser.
use crate::parser_types::{digits_value, is_digit};
use crate::template_parser::{occurs_at, trim_spec};
use crate::text::{chars_of, find_ws, is_white_space, is_ws, lemma_find_ws, push_str, string_from_chars, string_push};
use vstd::prelude::*;
use vstd::slice::slice_subrange;
use vstd::string::StringExecFns;

verus! {

/// A line and column in WAIL source (both from 1).
#[derive(Debug, Clone, Copy, PartialEq, Eq, Structural)]
pub struct Location {
    pub line: usize,
    pub column: usize,
}

#[derive(Debug)]
pub enum WAILParseError {
    UnexpectedToken { found: String, location: Location },
    UnexpectedKeyword { found: String, location: Location },
    UnexpectedEOF { expected: String, location: Location },
    InvalidIdentifier { found: String, location: Location },
    SymbolNotFound { name: String },
    AmbiguousSymbol { name: String, matches: Vec<String> },
    UndefinedType { name: String, location: Location },
    DuplicateDefinition { name: String, location: Location },
    MissingMainBlock,
    InvalidTemplateCall { template_name: String, reason: String, location: Location },
    CircularImport { path: String, chain: Vec<String> },
    InvalidImportPath { path: String, error: String },
    FileError { path: String, error: String },
    ImportNotFound { name: String, path: String },
    /// a file too long to read, or more inline objects than the counter holds
    ParseLimitExceeded,
}

#[derive(Debug, Clone, Copy, PartialEq)]
pub enum WAILFileType {
    /// `.lib.wail`: definitions only
    Library,
    /// `.wail`: needs a main block
    Application,
}

#[derive(Debug, PartialEq)]
pub struct WAILImport {
    pub items: Vec<String>,
    pub path: String,
}

#[derive(Debug)]
pub enum ValidationWarning {
    UndefinedType { type_label: String, location: String },
    PossibleTypo { type_label: String, similar_to: String, location: String },
    NoMainBlock,
}

#[derive(Debug)]
pub enum ValidationError {
    UndefinedTypeInTemplate { template_name: String, type_label: String, is_return_type: bool },
}

// ───────────────────────── tokens ─────────────────────────

#[derive(Debug, PartialEq)]
pub enum Token {
    Identifier(String),
    String(String),
    Number(i64),
    /// a float, by its decimal text
    Float(String),
    OpenBrace,
    CloseBrace,
    OpenParen,
    CloseParen,
    OpenBracket,
    CloseBracket,
    Colon,
    Semicolon,
    Comma,
    Equals,
    Arrow,
    Pipe,
    At,
    Dollar,
    Keyword(String),
    Hash,
    TripleQuoteStart,
    TripleQuoteEnd,
    Whitespace(String),
    Newline,
    TripleQuoteContent(String),
    Comment(String),
    Eof,
}

/// Mathematical value of a [`Token`].
pub enum TokV {
    Identifier(Seq<char>),
    String(Seq<char>),
    Number(i64),
    Float(Seq<char>),
    OpenBrace,
    CloseBrace,
    OpenParen,
    CloseParen,
    OpenBracket,
    CloseBracket,
    Colon,
    Semicolon,
    Comma,
    Equals,
    Arrow,
    Pipe,
    At,
    Dollar,
    Keyword(Seq<char>),
    Hash,
    TripleQuoteStart,
    TripleQuoteEnd,
    Whitespace(Seq<char>),
    Newline,
    TripleQuoteContent(Seq<char>),
    Comment(Seq<char>),
    Eof,
}

impl View for Token {
    type V = TokV;

    open spec fn view(&self) -> TokV {
        match self {
            Token::Identifier(s) => TokV::Identifier(s@),
            Token::String(s) => TokV::String(s@),
            Token::Number(n) => TokV::Number(*n),
            Token::Float(s) => TokV::Float(s@),
            Token::OpenBrace => TokV::OpenBrace,
            Token::CloseBrace => TokV::CloseBrace,
            Token::OpenParen => TokV::OpenParen,
            Token::CloseParen => TokV::CloseParen,
            Token::OpenBracket => TokV::OpenBracket,
            Token::CloseBracket => TokV::CloseBracket,
            Token::Colon => TokV::Colon,
            Token::Semicolon => TokV::Semicolon,
            Token::Comma => TokV::Comma,
            Token::Equals => TokV::Equals,
            Token::Arrow => TokV::Arrow,
            Token::Pipe => TokV::Pipe,
            Token::At => TokV::At,
            Token::Dollar => TokV::Dollar,
            Token::Keyword(s) => TokV::Keyword(s@),
            Token::Hash => TokV::Hash,
            Token::TripleQuoteStart => TokV::TripleQuoteStart,
            Token::TripleQuoteEnd => TokV::TripleQuoteEnd,
            Token::Whitespace(s) => TokV::Whitespace(s@),
            Token::Newline => TokV::Newline,
            Token::TripleQuoteContent(s) => TokV::TripleQuoteContent(s@),
            Token::Comment(s) => TokV::Comment(s@),
            Token::Eof => TokV::Eof,
        }
    }
}

/// Whether a character is alphabetic (`char::is_alphabetic`).
pub uninterp spec fn alphabetic(c: char) -> bool;

/// Whether a character is numeric (`char::is_numeric`).
pub uninterp spec fn numeric(c: char) -> bool;

/// Whether a character is a letter: among the ASCII characters, exactly the
/// letters; beyond them, [`alphabetic`].
pub open spec fn is_letter(c: char) -> bool {
    if (c as u32) < 128 {
        ('a' <= c <= 'z' || 'A' <= c <= 'Z')
    } else {
        alphabetic(c)
    }
}

/// Whether a character is a digit: among the ASCII characters, exactly the
/// digits; beyond them, [`numeric`].
pub open spec fn is_numeral(c: char) -> bool {
    if (c as u32) < 128 {
        '0' <= c <= '9'
    } else {
        numeric(c)
    }
}

/// `char::is_alphabetic`.
/// Trusted: std documents the Unicode `Alphabetic` property, which among the
/// ASCII characters holds of the letters and of nothing else.
#[verifier::external_body]
fn char_is_alphabetic(c: char) -> (r: bool)
    ensures
        r == alphabetic(c),
        (c as u32) < 128 ==> (r == ('a' <= c <= 'z' || 'A' <= c <= 'Z')),
{
    c.is_alphabetic()
}

/// `char::is_numeric`.
/// Trusted: std documents the Unicode general categories `Nd`, `Nl` and
/// `No`, which among the ASCII characters hold of the digits and of nothing
/// else.
#[verifier::external_body]
fn char_is_numeric(c: char) -> (r: bool)
    ensures
        r == numeric(c),
        (c as u32) < 128 ==> (r == ('0' <= c <= '9')),
{
    c.is_numeric()
}

/// `char::is_alphanumeric`, or an underscore.
pub open spec fn ident_char(c: char) -> bool {
    is_letter(c) || is_numeral(c) || c == '_'
}

/// End of the run of characters satisfying `ident_char` from `i`.
pub open spec fn ident_end(s: Seq<char>, i: int) -> int
    decreases s.len() - i,
{
    if i < 0 || i >= s.len() || !ident_char(s[i]) {
        i
    } else {
        ident_end(s, i + 1)
    }
}

/// End of the run of whitespace from `i`.
pub open spec fn ws_end(s: Seq<char>, i: int) -> int
    decreases s.len() - i,
{
    if i < 0 || i >= s.len() || !is_white_space(s[i]) {
        i
    } else {
        ws_end(s, i + 1)
    }
}

/// The closing `"""` at or after `i`, or the end of input.
pub open spec fn triple_end(s: Seq<char>, i: int) -> int
    decreases s.len() - i,
{
    if i < 0 || i >= s.len() || occurs_at(s, "\"\"\""@, i) {
        i
    } else {
        triple_end(s, i + 1)
    }
}

/// The closing `"` of a string at or after `i` (backslashes escape the next
/// character), or the end of input.
pub open spec fn string_end(s: Seq<char>, i: int) -> int
    decreases s.len() - i,
{
    if i < 0 || i >= s.len() || s[i] == '"' {
        i
    } else if s[i] == '\\' {
        if i + 1 < s.len() {
            string_end(s, i + 2)
        } else {
            i + 1
        }
    } else {
        string_end(s, i + 1)
    }
}

/// The end of the line from `i` (the position of `'\n'`, or the end of input).
pub open spec fn line_end_from(s: Seq<char>, i: int) -> int
    decreases s.len() - i,
{
    if i < 0 || i >= s.len() || s[i] == '\n' {
        i
    } else {
        line_end_from(s, i + 1)
    }
}

/// End of the run of ASCII digits from `i`.
pub open spec fn digits_end(s: Seq<char>, i: int) -> int
    decreases s.len() - i,
{
    if i < 0 || i >= s.len() || !is_digit(s[i]) {
        i
    } else {
        digits_end(s, i + 1)
    }
}

/// `str::parse::<i64>` of an optional `-` and decimal digits.
pub open spec fn parse_i64_spec(t: Seq<char>) -> Option<i64> {
    let neg = t.len() > 0 && t[0] == '-';
    i64_of_digits(
        neg,
        if neg {
            t.drop_first()
        } else {
            t
        },
    )
}

/// The value of decimal digits `d`, negated if `neg`, when it fits in `i64`.
pub open spec fn i64_of_digits(neg: bool, d: Seq<char>) -> Option<i64> {
    if d.len() == 0 || exists|i: int| 0 <= i < d.len() && !is_digit(#[trigger] d[i]) {
        None
    } else if neg {
        if digits_value(d) > 0x8000_0000_0000_0000 {
            None
        } else {
            Some((0 - digits_value(d)) as i64)
        }
    } else if digits_value(d) > i64::MAX {
        None
    } else {
        Some(digits_value(d) as i64)
    }
}

/// A number from `pos`: an optional `-`, digits, and if a `.` follows, it
/// and more digits. A float is kept as its text (`0.0` when it has no
/// digit); an integer that does not parse becomes `0`.
pub open spec fn number_spec(s: Seq<char>, pos: int) -> (TokV, int) {
    let a = if pos < s.len() && s[pos] == '-' {
        pos + 1
    } else {
        pos
    };
    let b = digits_end(s, a);
    if b < s.len() && s[b] == '.' {
        let e = digits_end(s, b + 1);
        let text = s.subrange(pos, e);
        (TokV::Float(if has_digit(text) {
            text
        } else {
            "0.0"@
        }), e)
    } else {
        let text = s.subrange(pos, b);
        (TokV::Number(
            match parse_i64_spec(text) {
                Some(v) => v,
                None => 0,
            },
        ), b)
    }
}

pub open spec fn has_digit(t: Seq<char>) -> bool {
    exists|i: int| 0 <= i < t.len() && is_digit(#[trigger] t[i])
}

pub open spec fn is_keyword(t: Seq<char>) -> bool {
    t == "object"@ || t == "template"@ || t == "union"@ || t == "main"@ || t == "let"@ || t == "prompt"@
        || t == "import"@ || t == "from"@ || t == "template_args"@
}

/// The token of a single-character punctuation mark.
pub open spec fn punct_tok(c: char) -> Option<TokV> {
    if c == '{' {
        Some(TokV::OpenBrace)
    } else if c == '}' {
        Some(TokV::CloseBrace)
    } else if c == '(' {
        Some(TokV::OpenParen)
    } else if c == ')' {
        Some(TokV::CloseParen)
    } else if c == '[' {
        Some(TokV::OpenBracket)
    } else if c == ']' {
        Some(TokV::CloseBracket)
    } else if c == ':' {
        Some(TokV::Colon)
    } else if c == ';' {
        Some(TokV::Semicolon)
    } else if c == ',' {
        Some(TokV::Comma)
    } else if c == '=' {
        Some(TokV::Equals)
    } else if c == '|' {
        Some(TokV::Pipe)
    } else if c == '@' {
        Some(TokV::At)
    } else if c == '$' {
        Some(TokV::Dollar)
    } else {
        None
    }
}

/// The token starting at `pos` (unknown characters are skipped): the token,
/// where it starts, and where it ends.
pub open spec fn token_spec(s: Seq<char>, pos: int) -> (TokV, int, int)
    decreases s.len() - pos,
{
    if pos < 0 || pos >= s.len() {
        (TokV::Eof, pos, pos)
    } else {
        let c = s[pos];
        if is_white_space(c) {
            let e = ws_end(s, pos);
            (TokV::Whitespace(s.subrange(pos, e)), pos, e)
        } else if occurs_at(s, "\"\"\""@, pos) {
            let st = pos + "\"\"\""@.len();
            let e = triple_end(s, st);
            if e < s.len() {
                (TokV::TripleQuoteContent(s.subrange(st, e)), pos, e + "\"\"\""@.len())
            } else {
                (TokV::TripleQuoteContent(s.subrange(st, s.len() as int)), pos, s.len() as int)
            }
        } else if punct_tok(c) is Some {
            (punct_tok(c)->Some_0, pos, pos + 1)
        } else if c == '#' {
            let e = line_end_from(s, pos + 1);
            (TokV::Comment(s.subrange(pos + 1, e)), pos, e)
        } else if c == '"' {
            let e = string_end(s, pos + 1);
            if e < s.len() {
                (TokV::String(s.subrange(pos + 1, e)), pos, e + 1)
            } else {
                (TokV::String(s.subrange(pos + 1, s.len() as int)), pos, s.len() as int)
            }
        } else if c == '-' && pos + 1 < s.len() && s[pos + 1] == '>' {
            (TokV::Arrow, pos, pos + 2)
        } else if c == '-' || is_digit(c) {
            let (t, e) = number_spec(s, pos);
            (t, pos, e)
        } else if is_letter(c) || c == '_' {
            let e = ident_end(s, pos);
            let text = s.subrange(pos, e);
            (if is_keyword(text) {
                TokV::Keyword(text)
            } else {
                TokV::Identifier(text)
            }, pos, e)
        } else {
            token_spec(s, pos + 1)
        }
    }
}

/// Line and column after reading `t` from (`line`, `col`).
pub open spec fn advance_over(line: int, col: int, t: Seq<char>) -> (int, int)
    decreases t.len(),
{
    if t.len() == 0 {
        (line, col)
    } else {
        let (l, c) = advance_over(line, col, t.drop_last());
        if t.last() == '\n' {
            (l + 1, 1)
        } else {
            (l, c + 1)
        }
    }
}


/// Reads WAIL source one token at a time, tracking lines and columns.
#[derive(Debug)]
pub struct Tokenizer {
    input: Vec<char>,
    position: usize,
    line: usize,
    column: usize,
    last_position: usize,
    last_line: usize,
    last_column: usize,
}

/// State of a [`Tokenizer`]: (input, position, line, column, and the same
/// three at the start of the last token).
pub type TokState = (Seq<char>, int, int, int, int, int, int);

proof fn lemma_run_ends(s: Seq<char>, i: int)
    requires
        0 <= i <= s.len(),
    ensures
        i <= ws_end(s, i) <= s.len(),
        i <= ident_end(s, i) <= s.len(),
        i <= triple_end(s, i) <= s.len(),
        i <= string_end(s, i) <= s.len(),
        i <= line_end_from(s, i) <= s.len(),
        i <= digits_end(s, i) <= s.len(),
    decreases s.len() - i,
{
    if i < s.len() {
        lemma_run_ends(s, i + 1);
        if s[i] == '\\' && i + 2 <= s.len() {
            lemma_run_ends(s, i + 2);
        }
    }
}

proof fn lemma_triple_end(s: Seq<char>, i: int)
    requires
        0 <= i <= s.len(),
    ensures
        triple_end(s, i) < s.len() ==> occurs_at(s, "\"\"\""@, triple_end(s, i)),
    decreases s.len() - i,
{
    if i < s.len() && !occurs_at(s, "\"\"\""@, i) {
        lemma_triple_end(s, i + 1);
    }
}

proof fn lemma_lit3()
    ensures
        "\"\"\""@.len() == 3,
        "\"\"\""@[0] == '"',
        "\"\"\""@[1] == '"',
        "\"\"\""@[2] == '"',
{
    reveal_strlit("\"\"\"");
}


/// Reading a token from `pos` stays within the input, and every token but the
/// end of input consumes at least one character.
pub proof fn lemma_token_progress(s: Seq<char>, pos: int)
    requires
        0 <= pos <= s.len(),
    ensures
        ({
            let (t, st, e) = token_spec(s, pos);
            &&& pos <= st <= e <= s.len()
            &&& !(t is Eof) ==> e > pos
        }),
    decreases s.len() - pos,
{
    if pos < s.len() {
        let c = s[pos];
        lemma_run_ends(s, pos + 1);
        lemma_run_ends(s, pos);
        lemma_lit3();
        if is_white_space(c) {
        } else if occurs_at(s, "\"\"\""@, pos) {
            let st = pos + 3;
            lemma_run_ends(s, st);
            lemma_triple_end(s, st);
        } else if punct_tok(c) is Some {
        } else if c == '#' {
        } else if c == '"' {
        } else if c == '-' && pos + 1 < s.len() && s[pos + 1] == '>' {
        } else if c == '-' || is_digit(c) {
            let a = if c == '-' {
                pos + 1
            } else {
                pos
            };
            lemma_run_ends(s, a);
            let b = digits_end(s, a);
            if b < s.len() && s[b] == '.' {
                lemma_run_ends(s, b + 1);
            }
        } else if is_letter(c) || c == '_' {
        } else {
            lemma_token_progress(s, pos + 1);
        }
    }
}

impl Token {
    /// A copy with the same value.
    pub fn copy(&self) -> (r: Token)
        ensures
            r@ == self@,
    {
        match self {
            Token::Identifier(s) => Token::Identifier(s.clone()),
            Token::String(s) => Token::String(s.clone()),
            Token::Number(n) => Token::Number(*n),
            Token::Float(s) => Token::Float(s.clone()),
            Token::OpenBrace => Token::OpenBrace,
            Token::CloseBrace => Token::CloseBrace,
            Token::OpenParen => Token::OpenParen,
            Token::CloseParen => Token::CloseParen,
            Token::OpenBracket => Token::OpenBracket,
            Token::CloseBracket => Token::CloseBracket,
            Token::Colon => Token::Colon,
            Token::Semicolon => Token::Semicolon,
            Token::Comma => Token::Comma,
            Token::Equals => Token::Equals,
            Token::Arrow => Token::Arrow,
            Token::Pipe => Token::Pipe,
            Token::At => Token::At,
            Token::Dollar => Token::Dollar,
            Token::Keyword(s) => Token::Keyword(s.clone()),
            Token::Hash => Token::Hash,
            Token::TripleQuoteStart => Token::TripleQuoteStart,
            Token::TripleQuoteEnd => Token::TripleQuoteEnd,
            Token::Whitespace(s) => Token::Whitespace(s.clone()),
            Token::Newline => Token::Newline,
            Token::TripleQuoteContent(s) => Token::TripleQuoteContent(s.clone()),
            Token::Comment(s) => Token::Comment(s.clone()),
            Token::Eof => Token::Eof,
        }
    }

    pub fn is_eof(&self) -> (r: bool)
        ensures
            r == (self@ is Eof),
    {
        match self {
            Token::Eof => true,
            _ => false,
        }
    }

    pub fn is_skippable(&self) -> (r: bool)
        ensures
            r == (self@ is Whitespace || self@ is Comment),
    {
        match self {
            Token::Whitespace(_) => true,
            Token::Comment(_) => true,
            _ => false,
        }
    }
}

impl Tokenizer {
    pub closed spec fn state(&self) -> TokState {
        (
            self.input@,
            self.position as int,
            self.line as int,
            self.column as int,
            self.last_position as int,
            self.last_line as int,
            self.last_column as int,
        )
    }

    /// Positions lie within the input, lines and columns count from 1 and
    /// never exceed the position reached plus one.
    pub closed spec fn wf(&self) -> bool {
        &&& self.input@.len() < usize::MAX
        &&& self.position <= self.input@.len()
        &&& 1 <= self.line <= self.position + 1
        &&& 1 <= self.column <= self.position + 1
        &&& self.last_position <= self.input@.len()
    }

    pub fn new(input: &str) -> (r: Self)
        requires
            input@.len() < usize::MAX,
        ensures
            r.wf(),
            r.state() == (input@, 0int, 1int, 1int, 0int, 1int, 1int),
    {
        Tokenizer { input: chars_of(input), position: 0, line: 1, column: 1, last_position: 0, last_line: 1, last_column: 1 }
    }

    pub fn current_location(&self) -> (r: Location)
        ensures
            r.line == self.state().2 && r.column == self.state().3,
    {
        Location { line: self.line, column: self.column }
    }

    pub proof fn lemma_wf_bounds(&self)
        requires
            self.wf(),
        ensures
            0 <= self.state().1 <= self.state().0.len(),
            self.state().0.len() < usize::MAX,
    {
    }

    /// The position reached in the input.
    pub fn offset(&self) -> (r: usize)
        ensures
            r == self.state().1,
    {
        self.position
    }

    pub fn last_location(&self) -> (r: Location)
        ensures
            r.line == self.state().5 && r.column == self.state().6,
    {
        Location { line: self.last_line, column: self.last_column }
    }

    fn save_position(&mut self)
        ensures
            final(self).input@ == old(self).input@,
            final(self).position == old(self).position,
            final(self).line == old(self).line,
            final(self).column == old(self).column,
            final(self).last_position == old(self).position,
            final(self).last_line == old(self).line,
            final(self).last_column == old(self).column,
    {
        self.last_position = self.position;
        self.last_line = self.line;
        self.last_column = self.column;
    }

    /// Moves over the characters up to `e`, counting lines and columns.
    fn advance_to(&mut self, e: usize)
        requires
            old(self).wf(),
            old(self).position <= e <= old(self).input@.len(),
        ensures
            final(self).wf(),
            final(self).input@ == old(self).input@,
            final(self).position == e,
            (final(self).line as int, final(self).column as int) == advance_over(
                old(self).line as int,
                old(self).column as int,
                old(self).input@.subrange(old(self).position as int, e as int),
            ),
            final(self).last_position == old(self).last_position,
            final(self).last_line == old(self).last_line,
            final(self).last_column == old(self).last_column,
    {
        let ghost p0 = self.position as int;
        let ghost l0 = self.line as int;
        let ghost c0 = self.column as int;
        proof {
            assert(self.input@.subrange(p0, p0) =~= Seq::<char>::empty());
        }
        while self.position < e
            invariant
                self.wf(),
                self.input@ == old(self).input@,
                0 <= p0 <= self.position <= e,
                e <= self.input@.len(),
                (self.line as int, self.column as int) == advance_over(l0, c0, self.input@.subrange(p0, self.position as int)),
                self.last_position == old(self).last_position,
                self.last_line == old(self).last_line,
                self.last_column == old(self).last_column,
            decreases e - self.position,
        {
            let c = self.input[self.position];
            let ghost q = self.position as int;
            let ghost inp = self.input@;
            proof {
                assert(c == inp[q]);
                let t = inp.subrange(p0, q + 1);
                assert(t.len() == q + 1 - p0);
                assert(t[t.len() - 1] == inp[q]);
                assert(t.drop_last() =~= inp.subrange(p0, q));
            }
            if c == '\n' {
                self.line = self.line + 1;
                self.column = 1;
            } else {
                self.column = self.column + 1;
            }
            self.position = self.position + 1;
        }
    }

    fn run_end(&self, i: usize, which: u8) -> (r: usize)
        requires
            i <= self.input@.len(),
            which < 4,
        ensures
            which == 0 ==> r == ws_end(self.input@, i as int),
            which == 1 ==> r == ident_end(self.input@, i as int),
            which == 2 ==> r == line_end_from(self.input@, i as int),
            which == 3 ==> r == digits_end(self.input@, i as int),
    {
        let mut k = i;
        while k < self.input.len()
            invariant
                i <= k <= self.input@.len(),
                which < 4,
                which == 0 ==> ws_end(self.input@, k as int) == ws_end(self.input@, i as int),
                which == 1 ==> ident_end(self.input@, k as int) == ident_end(self.input@, i as int),
                which == 2 ==> line_end_from(self.input@, k as int) == line_end_from(self.input@, i as int),
                which == 3 ==> digits_end(self.input@, k as int) == digits_end(self.input@, i as int),
            decreases self.input@.len() - k,
        {
            let c = self.input[k];
            let go = if which == 0 {
                is_ws(c)
            } else if which == 1 {
                char_is_alphabetic(c) || char_is_numeric(c) || c == '_'
            } else if which == 2 {
                c != '\n'
            } else {
                '0' <= c && c <= '9'
            };
            if !go {
                return k;
            }
            k += 1;
        }
        k
    }

    fn triple_at(&self, k: usize) -> (r: bool)
        ensures
            r == occurs_at(self.input@, "\"\"\""@, k as int),
    {
        proof {
            lemma_lit3();
        }
        let s = self.input.as_slice();
        if k < s.len() && s.len() - k >= 3 && s[k] == '"' && s[k + 1] == '"' && s[k + 2] == '"' {
            assert(s@.subrange(k as int, k + 3) =~= "\"\"\""@);
            true
        } else {
            proof {
                if occurs_at(s@, "\"\"\""@, k as int) {
                    assert(s@.subrange(k as int, k + 3)[0] == '"');
                    assert(s@.subrange(k as int, k + 3)[1] == '"');
                    assert(s@.subrange(k as int, k + 3)[2] == '"');
                }
            }
            false
        }
    }

    fn triple_end_at(&self, i: usize) -> (r: usize)
        requires
            i <= self.input@.len(),
        ensures
            r == triple_end(self.input@, i as int),
    {
        let mut k = i;
        while k < self.input.len() && !self.triple_at(k)
            invariant
                i <= k <= self.input@.len(),
                triple_end(self.input@, k as int) == triple_end(self.input@, i as int),
            decreases self.input@.len() - k,
        {
            k += 1;
        }
        k
    }

    fn string_end_at(&self, i: usize) -> (r: usize)
        requires
            i <= self.input@.len(),
        ensures
            r == string_end(self.input@, i as int),
    {
        let mut k = i;
        while k < self.input.len() && self.input[k] != '"'
            invariant
                i <= k <= self.input@.len(),
                string_end(self.input@, k as int) == string_end(self.input@, i as int),
            decreases self.input@.len() - k,
        {
            if self.input[k] == '\\' {
                if k + 1 < self.input.len() {
                    k = k + 2;
                } else {
                    return k + 1;
                }
            } else {
                k += 1;
            }
        }
        k
    }

    /// The next token (unknown characters are skipped).
    pub fn next_token(&mut self) -> (r: Token)
        requires
            old(self).wf(),
        ensures
            final(self).wf(),
            ({
                let (s, p, l, c, _, _, _) = old(self).state();
                let (t, st, e) = token_spec(s, p);
                let (l2, c2) = advance_over(l, c, s.subrange(p, e));
                let (l1, c1) = advance_over(l, c, s.subrange(p, st));
                &&& r@ == t
                &&& final(self).state() == (s, e, l2, c2, st, l1, c1)
            }),
    {
        let ghost s = self.input@;
        let ghost p0 = self.position as int;
        let ghost l0 = self.line as int;
        let ghost c0 = self.column as int;
        proof {
            assert(s.subrange(p0, p0) =~= Seq::<char>::empty());
            lemma_lit3();
        }
        loop
            invariant
                self.wf(),
                self.input@ == s,
                0 <= p0 <= self.position,
                p0 == old(self).position,
                l0 == old(self).line,
                c0 == old(self).column,
                s == old(self).input@,
                token_spec(s, p0) == token_spec(s, self.position as int),
                (self.line as int, self.column as int) == advance_over(l0, c0, s.subrange(p0, self.position as int)),
                "\"\"\""@.len() == 3,
            decreases s.len() - self.position,
        {
            self.save_position();
            let pos = self.position;
            let len = self.input.len();
            if pos >= len {
                return Token::Eof;
            }
            proof {
                lemma_run_ends(s, pos as int);
                lemma_run_ends(s, pos + 1);
                if pos + 3 <= s.len() {
                    lemma_run_ends(s, pos + 3);
                }
            }
            let c = self.input[pos];
            if is_ws(c) {
                let e = self.run_end(pos, 0);
                let text = string_from_chars(slice_subrange(self.input.as_slice(), pos, e));
                self.advance_to(e);
                proof {
                    lemma_advance_split(l0, c0, s, p0, pos as int, e as int);
                }
                return Token::Whitespace(text);
            }
            if self.triple_at(pos) {
                let st = pos + 3;
                let e = self.triple_end_at(st);
                if e < len {
                    let text = string_from_chars(slice_subrange(self.input.as_slice(), st, e));
                    proof {
                        lemma_triple_end(s, st as int);
                        assert(occurs_at(s, "\"\"\""@, e as int));
                    }
                    self.advance_to(e + 3);
                    proof {
                        lemma_advance_split(l0, c0, s, p0, pos as int, e + 3);
                    }
                    return Token::TripleQuoteContent(text);
                } else {
                    let text = string_from_chars(slice_subrange(self.input.as_slice(), st, len));
                    self.advance_to(len);
                    proof {
                        lemma_advance_split(l0, c0, s, p0, pos as int, len as int);
                    }
                    return Token::TripleQuoteContent(text);
                }
            }
            let punct = if c == '{' {
                Some(Token::OpenBrace)
            } else if c == '}' {
                Some(Token::CloseBrace)
            } else if c == '(' {
                Some(Token::OpenParen)
            } else if c == ')' {
                Some(Token::CloseParen)
            } else if c == '[' {
                Some(Token::OpenBracket)
            } else if c == ']' {
                Some(Token::CloseBracket)
            } else if c == ':' {
                Some(Token::Colon)
            } else if c == ';' {
                Some(Token::Semicolon)
            } else if c == ',' {
                Some(Token::Comma)
            } else if c == '=' {
                Some(Token::Equals)
            } else if c == '|' {
                Some(Token::Pipe)
            } else if c == '@' {
                Some(Token::At)
            } else if c == '$' {
                Some(Token::Dollar)
            } else {
                None
            };
            match punct {
                Some(t) => {
                    self.advance_to(pos + 1);
                    proof {
                        lemma_advance_split(l0, c0, s, p0, pos as int, pos + 1);
                    }
                    return t;
                },
                None => {},
            }
            if c == '#' {
                let e = self.run_end(pos + 1, 2);
                let text = string_from_chars(slice_subrange(self.input.as_slice(), pos + 1, e));
                self.advance_to(e);
                proof {
                    lemma_advance_split(l0, c0, s, p0, pos as int, e as int);
                }
                return Token::Comment(text);
            }
            if c == '"' {
                let e = self.string_end_at(pos + 1);
                if e < len {
                    let text = string_from_chars(slice_subrange(self.input.as_slice(), pos + 1, e));
                    self.advance_to(e + 1);
                    proof {
                        lemma_advance_split(l0, c0, s, p0, pos as int, e + 1);
                    }
                    return Token::String(text);
                } else {
                    let text = string_from_chars(slice_subrange(self.input.as_slice(), pos + 1, len));
                    self.advance_to(len);
                    proof {
                        lemma_advance_split(l0, c0, s, p0, pos as int, len as int);
                    }
                    return Token::String(text);
                }
            }
            if c == '-' && pos + 1 < len && self.input[pos + 1] == '>' {
                self.advance_to(pos + 2);
                proof {
                    lemma_advance_split(l0, c0, s, p0, pos as int, pos + 2);
                }
                return Token::Arrow;
            }
            if c == '-' || ('0' <= c && c <= '9') {
                let (t, e) = self.number_at(pos);
                self.advance_to(e);
                proof {
                    lemma_advance_split(l0, c0, s, p0, pos as int, e as int);
                }
                return t;
            }
            if char_is_alphabetic(c) || c == '_' {
                let e = self.run_end(pos, 1);
                let text = string_from_chars(slice_subrange(self.input.as_slice(), pos, e));
                let kw = is_keyword_text(&text);
                self.advance_to(e);
                proof {
                    lemma_advance_split(l0, c0, s, p0, pos as int, e as int);
                }
                if kw {
                    return Token::Keyword(text);
                } else {
                    return Token::Identifier(text);
                }
            }
            self.advance_to(pos + 1);
            proof {
                lemma_advance_split(l0, c0, s, p0, pos as int, pos + 1);
                assert(punct_tok(c) is None);
                assert(token_spec(s, pos as int) == token_spec(s, pos + 1));
            }
        }
    }

    fn number_at(&self, pos: usize) -> (r: (Token, usize))
        requires
            pos < self.input@.len(),
        ensures
            (r.0@, r.1 as int) == number_spec(self.input@, pos as int),
            pos < r.1 || !(self.input@[pos as int] == '-' || is_digit(self.input@[pos as int])),
            r.1 <= self.input@.len(),
    {
        let s = self.input.as_slice();
        proof {
            lemma_run_ends(s@, pos as int);
            lemma_run_ends(s@, pos + 1);
        }
        let a = if s[pos] == '-' {
            pos + 1
        } else {
            pos
        };
        let b = self.run_end(a, 3);
        proof {
            lemma_run_ends(s@, b as int);
            if b + 1 <= s@.len() {
                lemma_run_ends(s@, b + 1);
            }
        }
        if b < s.len() && s[b] == '.' {
            let e = self.run_end(b + 1, 3);
            let text = slice_subrange(s, pos, e);
            let mut any_digit = false;
            let mut k: usize = 0;
            while k < text.len()
                invariant
                    k <= text@.len(),
                    any_digit == exists|i: int| 0 <= i < k && is_digit(#[trigger] text@[i]),
                decreases text@.len() - k,
            {
                if '0' <= text[k] && text[k] <= '9' {
                    any_digit = true;
                }
                k += 1;
            }
            assert(text@ =~= s@.subrange(pos as int, e as int));
            assert(a as int == (if pos < s@.len() && s@[pos as int] == '-' { pos + 1 } else { pos as int }));
            assert(b < s@.len() && s@[b as int] == '.');
            assert(number_spec(s@, pos as int).1 == e);
            let ghost sp_text = s@.subrange(pos as int, e as int);
            assert(any_digit == has_digit(sp_text));
            if any_digit {
                let t = string_from_chars(text);
                (Token::Float(t), e)
            } else {
                (Token::Float(String::from_str("0.0")), e)
            }
        } else {
            let text = slice_subrange(s, pos, b);
            let v = match parse_i64_chars(text) {
                Some(v) => v,
                None => 0,
            };
            assert(text@ =~= s@.subrange(pos as int, b as int));
            assert(a as int == (if pos < s@.len() && s@[pos as int] == '-' { pos + 1 } else { pos as int }));
            assert(!(b < s@.len() && s@[b as int] == '.'));
            assert(number_spec(s@, pos as int).1 == b);
            assert(number_spec(s@, pos as int).0 == TokV::Number(v));
            (Token::Number(v), b)
        }
    }
}

/// `advance_over` in two steps: from the start to `p`, then on to `e`.
proof fn lemma_advance_split(l0: int, c0: int, s: Seq<char>, p0: int, p: int, e: int)
    requires
        0 <= p0 <= p <= e <= s.len(),
    ensures
        advance_over(l0, c0, s.subrange(p0, e)) == ({
            let (l, c) = advance_over(l0, c0, s.subrange(p0, p));
            advance_over(l, c, s.subrange(p, e))
        }),
    decreases e - p,
{
    if e > p {
        lemma_advance_split(l0, c0, s, p0, p, e - 1);
        assert(s.subrange(p0, e).drop_last() =~= s.subrange(p0, e - 1));
        assert(s.subrange(p, e).drop_last() =~= s.subrange(p, e - 1));
    } else {
        assert(s.subrange(p, e) =~= Seq::<char>::empty());
        assert(s.subrange(p0, e) =~= s.subrange(p0, p));
    }
}

fn is_keyword_text(t: &String) -> (r: bool)
    ensures
        r == is_keyword(t@),
{
    str_eq(t, "object") || str_eq(t, "template") || str_eq(t, "union") || str_eq(t, "main") || str_eq(t, "let")
        || str_eq(t, "prompt") || str_eq(t, "import") || str_eq(t, "from") || str_eq(t, "template_args")
}

fn str_eq(s: &String, lit: &str) -> (r: bool)
    ensures
        r == (s@ == lit@),
{
    let t = String::from_str(lit);
    *s == t
}

/// `str::parse::<i64>` on an optional `-` and decimal digits.
pub(crate) fn parse_i64_chars(t: &[char]) -> (r: Option<i64>)
    ensures
        match r {
            Some(v) => parse_i64_spec(t@) == Some(v),
            None => parse_i64_spec(t@) is None,
        },
{
    let neg = t.len() > 0 && t[0] == '-';
    let start: usize = if neg {
        1
    } else {
        0
    };
    let d = slice_subrange(t, start, t.len());
    let ghost dd = if neg {
        t@.drop_first()
    } else {
        t@
    };
    assert(d@ =~= dd);
    if d.len() == 0 {
        return None;
    }
    let mut v: u64 = 0;
    let mut i: usize = 0;
    while i < d.len()
        invariant
            i <= d@.len(),
            d@ == dd,
            neg == (t@.len() > 0 && t@[0] == '-'),
            parse_i64_spec(t@) == i64_of_digits(neg, dd),
            forall|k: int| 0 <= k < i ==> is_digit(#[trigger] d@[k]),
            v as nat == digits_value(d@.take(i as int)),
            v <= 0x8000_0000_0000_0000,
        decreases d@.len() - i,
    {
        let c = d[i];
        if !('0' <= c && c <= '9') {
            assert(!is_digit(dd[i as int]));
            return None;
        }
        proof {
            assert(d@.take(i + 1).drop_last() =~= d@.take(i as int));
            assert(d@.take(i + 1).last() == c);
        }
        let digit: u64 = ((c as u32) - 48) as u64;
        if v > (0x8000_0000_0000_0000u64 - digit) / 10 {
            proof {
                assert(is_digit(d@[i as int]));
                lemma_i64_overflow(dd, i as int);
            }
            return None;
        }
        v = v * 10 + digit;
        i += 1;
    }
    assert(d@.take(i as int) =~= d@);
    if neg {
        if v == 0x8000_0000_0000_0000u64 {
            Some(i64::MIN)
        } else {
            Some(-(v as i64))
        }
    } else if v > i64::MAX as u64 {
        None
    } else {
        Some(v as i64)
    }
}

proof fn lemma_i64_overflow(d: Seq<char>, i: int)
    requires
        0 <= i < d.len(),
        forall|k: int| 0 <= k <= i ==> is_digit(#[trigger] d[k]),
        digits_value(d.take(i + 1)) > 0x8000_0000_0000_0000,
    ensures
        (exists|k: int| 0 <= k < d.len() && !is_digit(#[trigger] d[k])) || digits_value(d) > 0x8000_0000_0000_0000,
{
    if forall|k: int| 0 <= k < d.len() ==> is_digit(#[trigger] d[k]) {
        crate::parser_types::lemma_digits_mono_pub(d, i + 1);
    }
}


/// How a token is written back as source text.
pub open spec fn tok_text(t: TokV) -> Seq<char> {
    match t {
        TokV::Identifier(s) => s,
        TokV::String(s) => "\""@ + s + "\""@,
        TokV::Number(n) => crate::text::int_text(n as int),
        TokV::Float(s) => s,
        TokV::OpenBrace => "{"@,
        TokV::CloseBrace => "}"@,
        TokV::OpenParen => "("@,
        TokV::CloseParen => ")"@,
        TokV::OpenBracket => "["@,
        TokV::CloseBracket => "]"@,
        TokV::Colon => ":"@,
        TokV::Semicolon => ";"@,
        TokV::Comma => ","@,
        TokV::Equals => "="@,
        TokV::Arrow => "->"@,
        TokV::Pipe => "|"@,
        TokV::At => "@"@,
        TokV::Hash => "#"@,
        TokV::Dollar => "$"@,
        TokV::Keyword(s) => s,
        TokV::TripleQuoteStart => "\"\"\""@,
        TokV::TripleQuoteEnd => "\"\"\""@,
        TokV::TripleQuoteContent(s) => s,
        TokV::Whitespace(s) => s,
        TokV::Comment(s) => "#"@ + s,
        TokV::Newline => "\n"@,
        TokV::Eof => "EOF"@,
    }
}

impl Token {
    /// The token written back as source text (`EOF` for the end).
    pub fn to_string(&self) -> (r: String)
        ensures
            r@ == tok_text(self@),
    {
        let mut out = String::new();
        match self {
            Token::Identifier(s) => push_str(&mut out, s.as_str()),
            Token::String(s) => {
                push_str(&mut out, "\"");
                push_str(&mut out, s.as_str());
                push_str(&mut out, "\"");
            },
            Token::Number(n) => crate::text::push_i64(&mut out, *n),
            Token::Float(s) => push_str(&mut out, s.as_str()),
            Token::OpenBrace => push_str(&mut out, "{"),
            Token::CloseBrace => push_str(&mut out, "}"),
            Token::OpenParen => push_str(&mut out, "("),
            Token::CloseParen => push_str(&mut out, ")"),
            Token::OpenBracket => push_str(&mut out, "["),
            Token::CloseBracket => push_str(&mut out, "]"),
            Token::Colon => push_str(&mut out, ":"),
            Token::Semicolon => push_str(&mut out, ";"),
            Token::Comma => push_str(&mut out, ","),
            Token::Equals => push_str(&mut out, "="),
            Token::Arrow => push_str(&mut out, "->"),
            Token::Pipe => push_str(&mut out, "|"),
            Token::At => push_str(&mut out, "@"),
            Token::Hash => push_str(&mut out, "#"),
            Token::Dollar => push_str(&mut out, "$"),
            Token::Keyword(s) => push_str(&mut out, s.as_str()),
            Token::TripleQuoteStart => push_str(&mut out, "\"\"\""),
            Token::TripleQuoteEnd => push_str(&mut out, "\"\"\""),
            Token::TripleQuoteContent(s) => push_str(&mut out, s.as_str()),
            Token::Whitespace(s) => push_str(&mut out, s.as_str()),
            Token::Comment(s) => {
                push_str(&mut out, "#");
                push_str(&mut out, s.as_str());
            },
            Token::Newline => push_str(&mut out, "\n"),
            Token::Eof => push_str(&mut out, "EOF"),
        }
        out
    }
}

// ───────────────────────── imports ─────────────────────────

/// Splits a Unix path at `/` into its non-empty pieces.
pub open spec fn path_pieces(p: Seq<char>) -> Seq<Seq<char>>
    decreases p.len(),
{
    let k = crate::tag_finder::find_from(p, '/', 0);
    proof {
        crate::tag_finder::lemma_find_from(p, '/', 0);
    }
    let head: Seq<Seq<char>> = if k > 0 {
        seq![p.take(k)]
    } else {
        Seq::empty()
    };
    if k < p.len() {
        head + path_pieces(p.skip(k + 1))
    } else {
        head
    }
}

/// Cleaning a path's pieces: `.` is dropped and `..` drops the piece before it.
pub open spec fn clean_pieces(ps: Seq<Seq<char>>) -> Seq<Seq<char>>
    decreases ps.len(),
{
    if ps.len() == 0 {
        Seq::empty()
    } else {
        let c = clean_pieces(ps.drop_last());
        let last = ps.last();
        if last == "."@ {
            c
        } else if last == ".."@ {
            if c.len() > 0 {
                c.drop_last()
            } else {
                c
            }
        } else {
            c.push(last)
        }
    }
}

/// The pieces joined by `/`.
pub open spec fn join_pieces(ps: Seq<Seq<char>>) -> Seq<char>
    decreases ps.len(),
{
    if ps.len() == 0 {
        Seq::empty()
    } else if ps.len() == 1 {
        ps[0]
    } else {
        join_pieces(ps.drop_last()) + "/"@ + ps.last()
    }
}

/// Joining a relative path to the base directory (`Path::join`).
pub open spec fn joined(base: Seq<char>, path: Seq<char>) -> Seq<char> {
    if path.len() > 0 && path[0] == '/' {
        path
    } else if base.len() == 0 {
        path
    } else if base.last() == '/' {
        base + path
    } else {
        base + "/"@ + path
    }
}

/// The canonical form of an import path: joined to the base directory, with
/// `.` and `..` resolved and without touching the file system.
pub open spec fn resolve_spec(base: Seq<char>, path: Seq<char>) -> Seq<char> {
    let full = joined(base, path);
    let pieces = clean_pieces(path_pieces(full));
    if full.len() > 0 && full[0] == '/' {
        "/"@ + join_pieces(pieces)
    } else {
        join_pieces(pieces)
    }
}

/// The chain of imports being resolved, to detect cycles.
#[derive(Debug)]
pub struct ImportChain {
    /// files whose imports are being resolved, outermost first
    stack: Vec<String>,
    /// every file ever pushed, each once
    visited: Vec<String>,
    /// the directory relative paths are taken from
    base_path: String,
}

pub open spec fn strs_view(v: Seq<String>) -> Seq<Seq<char>> {
    v.map_values(|x: String| x@)
}

/// No path occurs twice in `c`.
pub open spec fn no_repeats(c: Seq<Seq<char>>) -> bool {
    forall|i: int, j: int| 0 <= i < j < c.len() ==> c[i] != c[j]
}

/// Leaving the import just entered gives back the chain as it was.
pub proof fn lemma_push_then_pop(c: Seq<Seq<char>>, p: Seq<char>)
    ensures
        c.push(p).drop_last() == c,
        c.push(p).len() > 0,
{
    assert(c.push(p).drop_last() =~= c);
}

impl ImportChain {
    pub closed spec fn chain(&self) -> Seq<Seq<char>> {
        strs_view(self.stack@)
    }

    /// Every canonical path ever entered, in order of first entry.
    pub closed spec fn seen(&self) -> Seq<Seq<char>> {
        strs_view(self.visited@)
    }

    pub closed spec fn base(&self) -> Seq<char> {
        self.base_path@
    }

    pub fn new(base_path: String) -> (r: Self)
        ensures
            r.chain() == Seq::<Seq<char>>::empty(),
            r.seen() == Seq::<Seq<char>>::empty(),
            r.base() == base_path@,
            no_repeats(r.chain()),
    {
        let r = Self { stack: Vec::new(), visited: Vec::new(), base_path };
        assert(strs_view(r.stack@) =~= Seq::<Seq<char>>::empty());
        assert(strs_view(r.visited@) =~= Seq::<Seq<char>>::empty());
        r
    }

    /// Enters an import: its canonical path joins the chain. Fails if the
    /// path is already in the chain; otherwise tells whether it is new.
    pub fn push(&mut self, path: &str) -> (r: Result<bool, WAILParseError>)
        ensures
            ({
                let p = resolve_spec(old(self).base(), path@);
                if old(self).chain().contains(p) {
                    &&& r matches Err(WAILParseError::CircularImport { path: cp, chain: ch })
                    &&& cp@ == p
                    &&& strs_view(ch@) == old(self).chain()
                    &&& final(self).chain() == old(self).chain()
                    &&& final(self).seen() == old(self).seen()
                } else {
                    &&& r == Ok::<bool, WAILParseError>(!old(self).seen().contains(p))
                    &&& final(self).chain() == old(self).chain().push(p)
                    &&& final(self).seen() == (if old(self).seen().contains(p) {
                        old(self).seen()
                    } else {
                        old(self).seen().push(p)
                    })
                }
            }),
            final(self).base() == old(self).base(),
            no_repeats(old(self).chain()) ==> no_repeats(final(self).chain()),
    {
        let canonical = self.resolve_path(path);
        if contains_string(&self.stack, &canonical) {
            let chain = clone_strings(&self.stack);
            return Err(WAILParseError::CircularImport { path: canonical, chain });
        }
        let is_new = !contains_string(&self.visited, &canonical);
        let ghost v0 = self.visited@;
        let ghost s0 = self.stack@;
        if is_new {
            self.visited.push(canonical.clone());
            assert(strs_view(self.visited@) =~= strs_view(v0).push(canonical@));
        }
        self.stack.push(canonical);
        assert(strs_view(self.stack@) =~= strs_view(s0).push(canonical@));
        Ok(is_new)
    }

    /// A copy of the chain, with what it has seen and its base directory.
    pub fn copy(&self) -> (r: Self)
        ensures
            r.chain() == self.chain(),
            r.seen() == self.seen(),
            r.base() == self.base(),
    {
        Self { stack: clone_strings(&self.stack), visited: clone_strings(&self.visited), base_path: self.base_path.clone() }
    }

    /// Leaves the innermost import.
    pub fn pop(&mut self)
        ensures
            final(self).chain() == (if old(self).chain().len() > 0 {
                old(self).chain().drop_last()
            } else {
                old(self).chain()
            }),
            final(self).seen() == old(self).seen(),
            final(self).base() == old(self).base(),
            no_repeats(old(self).chain()) ==> no_repeats(final(self).chain()),
    {
        let ghost s0 = self.stack@;
        let _ = self.stack.pop();
        proof {
            if s0.len() > 0 {
                assert(strs_view(self.stack@) =~= strs_view(s0).drop_last());
            }
        }
    }

    /// The canonical form of `path` (see [`resolve_spec`]).
    pub fn resolve_path(&self, path: &str) -> (r: String)
        ensures
            r@ == resolve_spec(self.base(), path@),
    {
        let full = join_path(self.base_path.as_str(), path);
        let fc = chars_of(full.as_str());
        let pieces = split_path(fc.as_slice());
        let cleaned = clean_path_pieces(&pieces);
        let mut out = String::new();
        if fc.len() > 0 && fc[0] == '/' {
            push_str(&mut out, "/");
        }
        let ghost head = out@;
        let ghost cv = strs_view(cleaned@);
        proof {
            assert(cv.take(0) =~= Seq::<Seq<char>>::empty());
        }
        let mut i: usize = 0;
        while i < cleaned.len()
            invariant
                i <= cleaned@.len(),
                cv == strs_view(cleaned@),
                out@ == head + join_pieces(cv.take(i as int)),
            decreases cleaned@.len() - i,
        {
            if i > 0 {
                push_str(&mut out, "/");
            }
            push_str(&mut out, cleaned[i].as_str());
            proof {
                assert(cv.take(i + 1).drop_last() =~= cv.take(i as int));
                assert(cv.take(i + 1).last() == cleaned@[i as int]@);
                assert(cv.take(i + 1)[0] == cv[0]);
            }
            i += 1;
            assert(out@ =~= head + join_pieces(cv.take(i as int)));
        }
        assert(cv.take(i as int) =~= cv);
        out
    }
}

fn contains_string(v: &Vec<String>, s: &String) -> (r: bool)
    ensures
        r == strs_view(v@).contains(s@),
{
    let ghost w = strs_view(v@);
    let mut i: usize = 0;
    while i < v.len()
        invariant
            i <= v@.len(),
            w == strs_view(v@),
            forall|k: int| 0 <= k < i ==> w[k] != s@,
        decreases v@.len() - i,
    {
        if v[i] == *s {
            assert(w[i as int] == s@);
            return true;
        }
        i += 1;
    }
    proof {
        if w.contains(s@) {
            let k = choose|k: int| 0 <= k < w.len() && w[k] == s@;
            assert(w[k] != s@);
        }
    }
    false
}

pub(crate) fn clone_strings(v: &Vec<String>) -> (r: Vec<String>)
    ensures
        strs_view(r@) == strs_view(v@),
{
    let mut r: Vec<String> = Vec::new();
    let mut i: usize = 0;
    while i < v.len()
        invariant
            i <= v@.len(),
            r@.len() == i,
            forall|k: int| 0 <= k < i ==> #[trigger] r@[k]@ == v@[k]@,
        decreases v@.len() - i,
    {
        r.push(v[i].clone());
        i += 1;
    }
    assert(strs_view(r@) =~= strs_view(v@));
    r
}

fn join_path(base: &str, path: &str) -> (r: String)
    ensures
        r@ == joined(base@, path@),
{
    let pc = chars_of(path);
    let bc = chars_of(base);
    let mut out = String::new();
    if pc.len() > 0 && pc[0] == '/' {
        push_str(&mut out, path);
    } else if bc.len() == 0 {
        push_str(&mut out, path);
    } else if bc[bc.len() - 1] == '/' {
        push_str(&mut out, base);
        push_str(&mut out, path);
    } else {
        push_str(&mut out, base);
        push_str(&mut out, "/");
        push_str(&mut out, path);
    }
    out
}

fn split_path(p: &[char]) -> (r: Vec<String>)
    ensures
        strs_view(r@) == path_pieces(p@),
    decreases p@.len(),
{
    let k = crate::parser_types::find_char_in(p, '/', 0);
    proof {
        crate::tag_finder::lemma_find_from(p@, '/', 0);
    }
    let mut out: Vec<String> = Vec::new();
    if k > 0 {
        out.push(string_from_chars(slice_subrange(p, 0, k)));
        assert(p@.subrange(0, k as int) =~= p@.take(k as int));
    }
    if k < p.len() {
        let mut rest = split_path(slice_subrange(p, k + 1, p.len()));
        assert(p@.subrange(k + 1, p@.len() as int) =~= p@.skip(k + 1));
        let ghost o0 = out@;
        let ghost r0 = rest@;
        out.append(&mut rest);
        assert(strs_view(out@) =~= strs_view(o0) + strs_view(r0));
    }
    assert(strs_view(out@) =~= path_pieces(p@));
    out
}

fn clean_path_pieces(ps: &Vec<String>) -> (r: Vec<String>)
    ensures
        strs_view(r@) == clean_pieces(strs_view(ps@)),
{
    let ghost w = strs_view(ps@);
    let mut out: Vec<String> = Vec::new();
    let mut i: usize = 0;
    proof {
        assert(w.take(0) =~= Seq::<Seq<char>>::empty());
    }
    while i < ps.len()
        invariant
            i <= ps@.len(),
            w == strs_view(ps@),
            strs_view(out@) == clean_pieces(w.take(i as int)),
        decreases ps@.len() - i,
    {
        let piece = &ps[i];
        proof {
            assert(w.take(i + 1).drop_last() =~= w.take(i as int));
            assert(w.take(i + 1).last() == piece@);
        }
        let ghost o0 = out@;
        if str_eq(piece, ".") {
        } else if str_eq(piece, "..") {
            if out.len() > 0 {
                let _ = out.pop();
                assert(strs_view(out@) =~= strs_view(o0).drop_last());
            }
        } else {
            out.push(piece.clone());
            assert(strs_view(out@) =~= strs_view(o0).push(piece@));
        }
        i += 1;
    }
    assert(w.take(i as int) =~= w);
    out
}


// ───────────────────────── indentation ─────────────────────────

/// The leading whitespace of the first line that is not blank (0 if none is).
pub open spec fn first_indent(ls: Seq<Seq<char>>) -> int
    decreases ls.len(),
{
    if ls.len() == 0 {
        0
    } else if trim_spec(ls[0]).len() > 0 {
        find_ws(ls[0], false, 0)
    } else {
        first_indent(ls.drop_first())
    }
}

/// A line with up to `adj` leading whitespace characters removed.
pub open spec fn dedent_line(l: Seq<char>, adj: int) -> Seq<char> {
    let cur = find_ws(l, false, 0);
    if cur >= adj {
        l.skip(adj)
    } else {
        l.skip(cur)
    }
}

/// The lines joined by `'\n'`.
pub open spec fn join_lines(ls: Seq<Seq<char>>) -> Seq<char>
    decreases ls.len(),
{
    if ls.len() == 0 {
        Seq::empty()
    } else if ls.len() == 1 {
        ls[0]
    } else {
        join_lines(ls.drop_last()) + "\n"@ + ls.last()
    }
}

/// Re-indenting a block so that its first non-blank line starts at
/// `target` (lines are only ever moved left).
pub open spec fn adjust_spec(content: Seq<char>, target: int) -> Seq<char> {
    let ls = crate::parser_types::lines_spec(content);
    if ls.len() == 0 {
        Seq::empty()
    } else {
        let d = first_indent(ls) - target;
        let adj = if d > 0 {
            d
        } else {
            0
        };
        join_lines(ls.map_values(|l: Seq<char>| dedent_line(l, adj)))
    }
}


/// The trimmed line is empty exactly when every character is whitespace.
proof fn lemma_trim_blank(l: Seq<char>)
    ensures
        (crate::template_parser::trim_spec(l).len() > 0) == (find_ws(l, false, 0) < l.len()),
{
    lemma_find_ws(l, false, 0);
    let a = find_ws(l, false, 0);
    lemma_trim_stop(l, l.len() as int, a);
    let b = crate::template_parser::trim_stop(l, l.len() as int);
    if a < b {
        assert(l.subrange(a, b).len() == b - a);
    }
}

proof fn lemma_trim_stop(l: Seq<char>, i: int, a: int)
    requires
        0 <= i <= l.len(),
        a == find_ws(l, false, 0),
        0 <= a <= l.len(),
        a < l.len() ==> !is_white_space(l[a]),
        forall|j: int| 0 <= j < a ==> is_white_space(#[trigger] l[j]),
    ensures
        a < i ==> crate::template_parser::trim_stop(l, i) > a,
        a >= i ==> crate::template_parser::trim_stop(l, i) == 0,
        crate::template_parser::trim_stop(l, i) <= i,
    decreases i,
{
    if i > 0 && is_white_space(l[i - 1]) {
        lemma_trim_stop(l, i - 1, a);
    }
}

/// Dropping `n` leading characters, all whitespace, leaves the first
/// non-whitespace character `n` places earlier.
proof fn lemma_skip_ws(l: Seq<char>, n: int)
    requires
        0 <= n <= find_ws(l, false, 0),
        find_ws(l, false, 0) <= l.len(),
    ensures
        find_ws(l.skip(n), false, 0) == find_ws(l, false, 0) - n,
{
    lemma_find_ws(l, false, 0);
    let d = l.skip(n);
    lemma_find_ws(d, false, 0);
    let a = find_ws(l, false, 0);
    let b = find_ws(d, false, 0);
    if b < a - n {
        assert(d[b] == l[b + n]);
    } else if b > a - n {
        assert(d[a - n] == l[a]);
    }
}

/// Dedenting keeps blank lines blank, and moves the first non-blank
/// character of a line with at least `adj` leading whitespace `adj` left.
proof fn lemma_dedent(l: Seq<char>, adj: int)
    requires
        adj >= 0,
    ensures
        find_ws(l, false, 0) == l.len() ==> find_ws(dedent_line(l, adj), false, 0) == dedent_line(l, adj).len(),
        find_ws(l, false, 0) < l.len() && find_ws(l, false, 0) >= adj ==> find_ws(dedent_line(l, adj), false, 0)
            == find_ws(l, false, 0) - adj && find_ws(dedent_line(l, adj), false, 0) < dedent_line(l, adj).len(),
        forall|j: int| 0 <= j < dedent_line(l, adj).len() ==> dedent_line(l, adj)[j] != '\n' || l.contains('\n'),
{
    lemma_find_ws(l, false, 0);
    let cur = find_ws(l, false, 0);
    let n = if cur >= adj {
        adj
    } else {
        cur
    };
    lemma_skip_ws(l, n);
    assert forall|j: int| 0 <= j < dedent_line(l, adj).len() implies dedent_line(l, adj)[j] != '\n' || l.contains('\n') by {
        if dedent_line(l, adj)[j] == '\n' {
            assert(l[j + n] == '\n');
        }
    }
}

/// Re-indenting moves the first non-blank line's indentation to
/// `first - adj`.
proof fn lemma_first_indent_dedent(ls: Seq<Seq<char>>, adj: int)
    requires
        0 <= adj <= first_indent(ls),
    ensures
        first_indent(ls.map_values(|l: Seq<char>| dedent_line(l, adj))) == first_indent(ls) - adj,
    decreases ls.len(),
{
    let ms = ls.map_values(|l: Seq<char>| dedent_line(l, adj));
    if ls.len() > 0 {
        lemma_trim_blank(ls[0]);
        lemma_trim_blank(ms[0]);
        lemma_dedent(ls[0], adj);
        lemma_find_ws(ls[0], false, 0);
        if crate::template_parser::trim_spec(ls[0]).len() > 0 {
        } else {
            assert(ms.drop_first() =~= ls.drop_first().map_values(|l: Seq<char>| dedent_line(l, adj)));
            lemma_first_indent_dedent(ls.drop_first(), adj);
        }
    }
}

/// No line read from a text holds a line break.
proof fn lemma_lines_no_newline(s: Seq<char>)
    ensures
        forall|i: int| 0 <= i < crate::parser_types::lines_spec(s).len() ==> !(#[trigger] crate::parser_types::lines_spec(s)[i]).contains('\n'),
    decreases s.len(),
{
    if s.len() > 0 {
        crate::tag_finder::lemma_find_from(s, '\n', 0);
        let k = crate::tag_finder::find_from(s, '\n', 0);
        if k < s.len() {
            lemma_lines_no_newline(s.skip(k + 1));
            let line = s.take(k);
            let line2 = if line.len() > 0 && line.last() == '\r' {
                line.drop_last()
            } else {
                line
            };
            assert forall|j: int| 0 <= j < line2.len() implies line2[j] != '\n' by {
                assert(line2[j] == line[j]);
                assert(line[j] == s[j]);
            }
            assert(crate::parser_types::lines_spec(s)[0] == line2);
            let ls = crate::parser_types::lines_spec(s);
            assert forall|i: int| 0 <= i < ls.len() implies !(#[trigger] ls[i]).contains('\n') by {
                if i > 0 {
                    assert(ls[i] == crate::parser_types::lines_spec(s.skip(k + 1))[i - 1]);
                }
            }
        } else {
            assert(!s.contains('\n'));
        }
    }
}

/// Joining a line in front of at least one more.
proof fn lemma_join_front(a: Seq<char>, m: Seq<Seq<char>>)
    requires
        m.len() >= 1,
    ensures
        join_lines(seq![a] + m) == a + "\n"@ + join_lines(m),
    decreases m.len(),
{
    let x = seq![a] + m;
    assert(x.drop_last() =~= seq![a] + m.drop_last());
    assert(x.last() == m.last());
    if m.len() == 1 {
        assert(m.drop_last() =~= Seq::<Seq<char>>::empty());
        assert(seq![a] + m.drop_last() =~= seq![a]);
        assert(join_lines(m) == m[0]);
    } else {
        lemma_join_front(a, m.drop_last());
        assert(join_lines(x) == join_lines(seq![a] + m.drop_last()) + "\n"@ + m.last());
        assert(join_lines(m) == join_lines(m.drop_last()) + "\n"@ + m.last());
        assert(a + "\n"@ + join_lines(m.drop_last()) + "\n"@ + m.last() =~= a + "\n"@ + (join_lines(m.drop_last()) + "\n"@
            + m.last()));
    }
}

/// No `'\r'` stands right before a `'\n'`.
pub open spec fn no_crlf(x: Seq<char>) -> bool {
    forall|i: int| 0 <= i < x.len() - 1 ==> !(x[i] == '\r' && #[trigger] x[i + 1] == '\n')
}

/// Reading lines back from joined lines gives them again, when no line holds
/// a line break, the text has no `"\r\n"` and does not end in a line break.
proof fn lemma_lines_of_join(ls: Seq<Seq<char>>)
    requires
        ls.len() >= 1,
        forall|i: int| 0 <= i < ls.len() ==> !(#[trigger] ls[i]).contains('\n'),
        join_lines(ls).len() > 0,
        join_lines(ls).last() != '\n',
        no_crlf(join_lines(ls)),
    ensures
        crate::parser_types::lines_spec(join_lines(ls)) == ls,
    decreases ls.len(),
{
    reveal_strlit("\n");
    let x = join_lines(ls);
    crate::tag_finder::lemma_find_from(x, '\n', 0);
    let k = crate::tag_finder::find_from(x, '\n', 0);
    if ls.len() == 1 {
        assert(x == ls[0]);
        if k < x.len() {
            assert(ls[0].contains('\n'));
        }
    } else {
        let a = ls[0];
        let rest = ls.drop_first();
        assert(ls =~= seq![a] + rest);
        lemma_join_front(a, rest);
        let r = join_lines(rest);
        assert(x =~= a + "\n"@ + r);
        assert(x[a.len() as int] == '\n');
        if k < a.len() {
            assert(x[k] == a[k]);
        }
        assert(k == a.len());
        assert(x.take(k) =~= a);
        assert(x.skip(k + 1) =~= r);
        if a.len() > 0 && a.last() == '\r' {
            assert(x[a.len() - 1] == '\r');
            assert(x[(a.len() - 1) + 1] == '\n');
        }
        if r.len() == 0 {
            assert(x.last() == '\n');
        }
        assert(r.last() == x.last());
        assert forall|i: int| 0 <= i < r.len() - 1 implies !(r[i] == '\r' && #[trigger] r[i + 1] == '\n') by {
            assert(r[i] == x[i + a.len() + 1]);
            assert(r[i + 1] == x[(i + a.len() + 1) + 1]);
        }
        lemma_lines_of_join(rest);
    }
}

/// Re-indenting a re-indented text changes nothing, where the text re-indented
/// once has no `"\r\n"` and does not end in a line break (reading lines drops
/// a final empty line and a `'\r'` before each break, so such a text would
/// change: `"a\n\n"` re-indents to `"a\n"` and then to `"a"`).
pub proof fn lemma_adjust_idempotent(content: Seq<char>, target: nat)
    requires
        !(adjust_spec(content, target as int).len() > 0 && adjust_spec(content, target as int).last() == '\n'),
        no_crlf(adjust_spec(content, target as int)),
    ensures
        adjust_spec(adjust_spec(content, target as int), target as int) == adjust_spec(content, target as int),
{
    let t = target as int;
    let x = adjust_spec(content, t);
    let ls = crate::parser_types::lines_spec(content);
    if x.len() == 0 {
        assert(crate::parser_types::lines_spec(x) =~= Seq::<Seq<char>>::empty());
    } else {
        let fi = first_indent(ls);
        lemma_first_indent_nonneg(ls);
        let d = fi - t;
        let adj = if d > 0 {
            d
        } else {
            0
        };
        let ms = ls.map_values(|l: Seq<char>| dedent_line(l, adj));
        assert(x == join_lines(ms));
        lemma_lines_no_newline(content);
        assert forall|i: int| 0 <= i < ms.len() implies !(#[trigger] ms[i]).contains('\n') by {
            lemma_dedent(ls[i], adj);
            if ms[i].contains('\n') {
                let j = choose|j: int| 0 <= j < ms[i].len() && ms[i][j] == '\n';
                assert(ls[i].contains('\n'));
            }
        }
        lemma_lines_of_join(ms);
        lemma_first_indent_dedent(ls, adj);
        assert(first_indent(ms) <= t);
        assert(ms.map_values(|l: Seq<char>| dedent_line(l, 0)) =~= ms) by {
            assert forall|i: int| 0 <= i < ms.len() implies dedent_line(ms[i], 0) == ms[i] by {
                lemma_find_ws(ms[i], false, 0);
                assert(ms[i].skip(0) =~= ms[i]);
            }
        }
    }
}

proof fn lemma_first_indent_nonneg(ls: Seq<Seq<char>>)
    ensures
        first_indent(ls) >= 0,
    decreases ls.len(),
{
    if ls.len() > 0 {
        lemma_find_ws(ls[0], false, 0);
        lemma_first_indent_nonneg(ls.drop_first());
    }
}

fn lines_of(text: &[char]) -> (r: Vec<Vec<char>>)
    ensures
        r@.map_values(|l: Vec<char>| l@) == crate::parser_types::lines_spec(text@),
    decreases text@.len(),
{
    let mut out: Vec<Vec<char>> = Vec::new();
    if text.len() == 0 {
        assert(out@.map_values(|l: Vec<char>| l@) =~= Seq::<Seq<char>>::empty());
        return out;
    }
    let k = crate::parser_types::find_char_in(text, '\n', 0);
    proof {
        crate::tag_finder::lemma_find_from(text@, '\n', 0);
    }
    if k < text.len() {
        let stop = if k > 0 && text[k - 1] == '\r' {
            k - 1
        } else {
            k
        };
        out.push(crate::text::copy_chars(slice_subrange(text, 0, stop)));
        let mut rest = lines_of(slice_subrange(text, k + 1, text.len()));
        proof {
            assert(text@.subrange(k + 1, text@.len() as int) =~= text@.skip(k + 1));
            let t = text@.take(k as int);
            assert(text@.subrange(0, stop as int) =~= (if t.len() > 0 && t.last() == '\r' { t.drop_last() } else { t }));
        }
        let ghost o0 = out@;
        let ghost r0 = rest@;
        out.append(&mut rest);
        assert(out@.map_values(|l: Vec<char>| l@) =~= o0.map_values(|l: Vec<char>| l@) + r0.map_values(|l: Vec<char>| l@));
    } else {
        out.push(crate::text::copy_chars(text));
        assert(out@.map_values(|l: Vec<char>| l@) =~= seq![text@]);
    }
    out
}

fn line_is_blank(l: &Vec<char>) -> (r: bool)
    ensures
        r == !(trim_spec(l@).len() > 0),
{
    let t = crate::template_parser::trim_chars(l.as_slice());
    let tc = chars_of(t.as_str());
    tc.len() == 0
}

/// Re-indents a block so that its first non-blank line starts `target_indent`
/// characters in (lines are only ever moved left).
pub fn adjust_indentation(content: &str, target_indent: usize) -> (r: String)
    ensures
        r@ == adjust_spec(content@, target_indent as int),
{
    let cs = chars_of(content);
    let ls = lines_of(cs.as_slice());
    let ghost lv = ls@.map_values(|l: Vec<char>| l@);
    if ls.len() == 0 {
        return String::new();
    }
    // the first non-blank line's indentation
    let mut initial: usize = 0;
    let mut found = false;
    let mut j: usize = 0;
    assert(lv.skip(0) =~= lv);
    while j < ls.len() && !found
        invariant
            j <= ls@.len(),
            lv == ls@.map_values(|l: Vec<char>| l@),
            found ==> initial as int == first_indent(lv),
            !found ==> first_indent(lv) == first_indent(lv.skip(j as int)),
            !found ==> initial == 0,
        decreases ls@.len() - j, (if found { 0int } else { 1int }),
    {
        proof {
            assert(lv.skip(j as int)[0] == ls@[j as int]@);
            assert(lv.skip(j as int).drop_first() =~= lv.skip(j + 1));
        }
        if !line_is_blank(&ls[j]) {
            initial = crate::text::find_space(ls[j].as_slice(), false, 0);
            found = true;
        } else {
            j += 1;
        }
    }
    proof {
        if !found {
            assert(lv.skip(j as int).len() == 0);
        }
    }
    assert(initial as int == first_indent(lv));
    let adj: usize = if initial > target_indent {
        initial - target_indent
    } else {
        0
    };
    let ghost dv = lv.map_values(|l: Seq<char>| dedent_line(l, adj as int));
    let mut out = String::new();
    let mut i: usize = 0;
    proof {
        assert(dv.take(0) =~= Seq::<Seq<char>>::empty());
    }
    while i < ls.len()
        invariant
            i <= ls@.len(),
            lv == ls@.map_values(|l: Vec<char>| l@),
            dv == lv.map_values(|l: Seq<char>| dedent_line(l, adj as int)),
            out@ == join_lines(dv.take(i as int)),
        decreases ls@.len() - i,
    {
        if i > 0 {
            push_str(&mut out, "\n");
        }
        let line = &ls[i];
        let cur = crate::text::find_space(line.as_slice(), false, 0);
        proof {
            lemma_find_ws(line@, false, 0);
        }
        let from = if cur >= adj {
            if adj <= line.len() {
                adj
            } else {
                line.len()
            }
        } else {
            cur
        };
        let piece = string_from_chars(slice_subrange(line.as_slice(), from, line.len()));
        push_str(&mut out, piece.as_str());
        proof {
            assert(dv[i as int] == dedent_line(line@, adj as int));
            assert(line@.subrange(from as int, line@.len() as int) =~= dedent_line(line@, adj as int));
            assert(dv.take(i + 1).drop_last() =~= dv.take(i as int));
            assert(dv.take(i + 1).last() == dv[i as int]);
            assert(dv.take(i + 1)[0] == dv[0]);
        }
        i += 1;
        assert(out@ =~= join_lines(dv.take(i as int)));
    }
    assert(dv.take(i as int) =~= dv);
    out
}

} // verus!

use vstd::prelude::*;
use vstd::std_specs::iter::IteratorSpec;

verus! {

broadcast use vstd::string::group_string_axioms;

/// What went wrong while scanning a token.
#[derive(Debug, Clone, Copy, PartialEq, Eq, Structural)]
pub enum LexError {
    UnexpectedCharacter,
    UnexpectedIdentifier,
    UnexpectedNewline,
    UnterminatedString,
    EofAfterMinus,
    DigitAfterMinus,
    EofAfterDot,
    DigitAfterDot,
}

impl LexError {
    pub open spec fn text(self) -> Seq<char> {
        match self {
            LexError::UnexpectedCharacter => "Unexpected character"@,
            LexError::UnexpectedIdentifier => "Unexpected identifier"@,
            LexError::UnexpectedNewline => "Unexpected newline"@,
            LexError::UnterminatedString => "Unterminated string literal"@,
            LexError::EofAfterMinus => "Unexpected EOF after '-'"@,
            LexError::DigitAfterMinus => "Expect numeric literal after '-'"@,
            LexError::EofAfterDot => "Unexpected EOF after '.'"@,
            LexError::DigitAfterDot => "Expect numeric literal after '.'"@,
        }
    }

    /// The human-readable message of the error.
    pub fn message(&self) -> (r: &'static str)
        ensures
            r@ == self.text(),
    {
        match self {
            LexError::UnexpectedCharacter => "Unexpected character",
            LexError::UnexpectedIdentifier => "Unexpected identifier",
            LexError::UnexpectedNewline => "Unexpected newline",
            LexError::UnterminatedString => "Unterminated string literal",
            LexError::EofAfterMinus => "Unexpected EOF after '-'",
            LexError::DigitAfterMinus => "Expect numeric literal after '-'",
            LexError::EofAfterDot => "Unexpected EOF after '.'",
            LexError::DigitAfterDot => "Expect numeric literal after '.'",
        }
    }
}

/// The category of a token, with its payload.
/// A number keeps its literal text, which the number grammar guarantees to be
/// a plain decimal (`-?[0-9]+(\.[0-9]+)?`); a string keeps the raw text
/// between its quotes, escapes intact.
#[derive(Debug, PartialEq)]
pub enum Meta {
    LeftBrace,
    LeftSquare,
    RightBrace,
    RightSquare,
    Comma,
    Colon,
    StringLiteral(String),
    BoolLiteral(bool),
    NumberLiteral(String),
    NullLiteral,
    Eof,
    Error(LexError),
}

/// Category tags; two lexemes are of one category when their tags agree.
pub open spec fn tag_of(m: Meta) -> nat {
    match m {
        Meta::LeftBrace => 0,
        Meta::LeftSquare => 1,
        Meta::RightBrace => 2,
        Meta::RightSquare => 3,
        Meta::Comma => 4,
        Meta::Colon => 5,
        Meta::StringLiteral(_) => 6,
        Meta::BoolLiteral(_) => 7,
        Meta::NumberLiteral(_) => 8,
        Meta::NullLiteral => 9,
        Meta::Eof => 10,
        Meta::Error(_) => 11,
    }
}

/// The name of a category, by tag.
pub open spec fn tag_name(t: nat) -> Seq<char> {
    if t == 0 {
        "'{'"@
    } else if t == 1 {
        "'['"@
    } else if t == 2 {
        "'}'"@
    } else if t == 3 {
        "']'"@
    } else if t == 4 {
        ","@
    } else if t == 5 {
        "':'"@
    } else if t == 6 {
        "string"@
    } else if t == 7 {
        "bool"@
    } else if t == 8 {
        "number"@
    } else if t == 9 {
        "null"@
    } else if t == 10 {
        "EOF"@
    } else {
        "Error"@
    }
}

pub open spec fn category_name(m: Meta) -> Seq<char> {
    tag_name(tag_of(m))
}

impl Meta {
    /// The name of the category, as used in error messages.
    pub fn meta_type(&self) -> (r: &'static str)
        ensures
            r@ == category_name(*self),
    {
        match self {
            Meta::BoolLiteral(_) => "bool",
            Meta::StringLiteral(_) => "string",
            Meta::NumberLiteral(_) => "number",
            Meta::Error(_) => "Error",
            Meta::LeftBrace => "'{'",
            Meta::RightBrace => "'}'",
            Meta::LeftSquare => "'['",
            Meta::RightSquare => "']'",
            Meta::Colon => "':'",
            Meta::NullLiteral => "null",
            Meta::Comma => ",",
            Meta::Eof => "EOF",
        }
    }

    /// Whether two lexemes are of one category, payloads aside.
    pub fn same_type(&self, other: &Meta) -> (r: bool)
        ensures
            r == (tag_of(*self) == tag_of(*other)),
    {
        self.tag() == other.tag()
    }

    fn tag(&self) -> (r: u8)
        ensures
            r as nat == tag_of(*self),
    {
        match self {
            Meta::LeftBrace => 0,
            Meta::LeftSquare => 1,
            Meta::RightBrace => 2,
            Meta::RightSquare => 3,
            Meta::Comma => 4,
            Meta::Colon => 5,
            Meta::StringLiteral(_) => 6,
            Meta::BoolLiteral(_) => 7,
            Meta::NumberLiteral(_) => 8,
            Meta::NullLiteral => 9,
            Meta::Eof => 10,
            Meta::Error(_) => 11,
        }
    }
}

/// A token: its lexeme, the source text it was built from, and the 1-based
/// line and column where it starts.
#[derive(Debug)]
pub struct Token {
    pub lexeme: Meta,
    pub literal: String,
    pub line: usize,
    pub column: usize,
}


pub open spec fn is_digit_char(c: char) -> bool {
    '0' <= c && c <= '9'
}

pub open spec fn is_ascii_alpha(c: char) -> bool {
    ('a' <= c && c <= 'z') || ('A' <= c && c <= 'Z')
}

/// Unicode's White_Space property, as `char::is_whitespace` documents it.
pub open spec fn is_unicode_whitespace(c: char) -> bool {
    ('\t' <= c && c <= '\r') || c == ' ' || c == '\u{85}' || c == '\u{a0}' || c == '\u{1680}'
        || ('\u{2000}' <= c && c <= '\u{200a}') || c == '\u{2028}' || c == '\u{2029}'
        || c == '\u{202f}' || c == '\u{205f}' || c == '\u{3000}'
}

/// Unicode's Alphabetic property.
pub uninterp spec fn is_unicode_alphabetic(c: char) -> bool;

/// Whether `c` has Unicode's White_Space property.
fn char_is_whitespace(c: char) -> (r: bool)
    ensures
        r == is_unicode_whitespace(c),
{
    ('\t' <= c && c <= '\r') || c == ' ' || c == '\u{85}' || c == '\u{a0}' || c == '\u{1680}'
        || ('\u{2000}' <= c && c <= '\u{200a}') || c == '\u{2028}' || c == '\u{2029}'
        || c == '\u{202f}' || c == '\u{205f}' || c == '\u{3000}'
}

/// Relies on char::is_alphabetic: the Alphabetic property, which holds of
/// every ASCII letter.
#[verifier::external_body]
fn char_is_alphabetic(c: char) -> (r: bool)
    ensures
        r == is_unicode_alphabetic(c),
        is_ascii_alpha(c) ==> r,
{
    c.is_alphabetic()
}

/// Relies on collecting a slice of chars into a String: the same characters.
#[verifier::external_body]
pub(crate) fn string_of(v: &Vec<char>, from: usize, to: usize) -> (r: String)
    requires
        from <= to <= v@.len(),
    ensures
        r@ == v@.subrange(from as int, to as int),
{
    v[from..to].iter().collect()
}

/// Length of the whitespace run starting at `i`.
pub open spec fn ws_run(s: Seq<char>, i: int) -> nat
    decreases s.len() - i,
{
    if 0 <= i < s.len() && is_unicode_whitespace(s[i]) {
        1 + ws_run(s, i + 1)
    } else {
        0
    }
}

/// Length of the run of decimal digits starting at `i`.
pub open spec fn digit_run(s: Seq<char>, i: int) -> nat
    decreases s.len() - i,
{
    if 0 <= i < s.len() && is_digit_char(s[i]) {
        1 + digit_run(s, i + 1)
    } else {
        0
    }
}

/// Length of the run of ASCII letters starting at `i`, at most `cap`.
pub open spec fn alpha_run(s: Seq<char>, i: int, cap: nat) -> nat
    decreases cap,
{
    if cap > 0 && 0 <= i < s.len() && is_ascii_alpha(s[i]) {
        1 + alpha_run(s, i + 1, (cap - 1) as nat)
    } else {
        0
    }
}

/// Line and column reached from (`line`, `col`) after reading `s[from..to]`:
/// a newline starts the next line at column 1, any other character moves one
/// column on.
pub open spec fn advance(s: Seq<char>, from: int, to: int, line: int, col: int) -> (int, int)
    decreases to - from,
{
    if to <= from {
        (line, col)
    } else {
        let (l, c) = advance(s, from, to - 1, line, col);
        if s[to - 1] == '\n' {
            (l + 1, 1)
        } else {
            (l, c + 1)
        }
    }
}

/// What a scan starting at a non-whitespace position finds.
pub enum Scan {
    Punct,
    Number,
    Str,
    True,
    False,
    Null,
    End,
    Fail(LexError),
}

/// End of a string body scanned from `i`: `Ok(e)` when a closing quote ends at
/// `e`; `Err(Some(e))` at a raw newline at `e`; `Err(None)` at end of input.
/// A backslash escapes the next character, whatever it is, newline included.
pub open spec fn string_end(s: Seq<char>, i: int, escaped: bool) -> Result<int, Option<int>>
    decreases s.len() - i,
{
    if i < 0 || i >= s.len() {
        Err(None)
    } else if escaped {
        string_end(s, i + 1, false)
    } else if s[i] == '\n' {
        Err(Some(i))
    } else if s[i] == '\\' {
        string_end(s, i + 1, true)
    } else if s[i] == '"' {
        Ok(i + 1)
    } else {
        string_end(s, i + 1, false)
    }
}

pub open spec fn scan_number(s: Seq<char>, p: int) -> (Scan, int) {
    let neg = s[p] == '-';
    let q = if neg { p + 1 } else { p };
    if neg && q >= s.len() {
        (Scan::Fail(LexError::EofAfterMinus), q)
    } else if neg && !is_digit_char(s[q]) {
        (Scan::Fail(LexError::DigitAfterMinus), q)
    } else {
        let a = q + digit_run(s, q);
        if a >= s.len() || s[a] != '.' {
            (Scan::Number, a)
        } else if a + 1 >= s.len() {
            (Scan::Fail(LexError::EofAfterDot), a + 1)
        } else if !is_digit_char(s[a + 1]) {
            (Scan::Fail(LexError::DigitAfterDot), a + 1)
        } else {
            (Scan::Number, a + 1 + digit_run(s, a + 1))
        }
    }
}

pub open spec fn is_punct(c: char) -> bool {
    c == '[' || c == ']' || c == '{' || c == '}' || c == ',' || c == ':'
}

/// The token that starts at `p` (no whitespace there) and where it ends.
pub open spec fn scan(s: Seq<char>, p: int) -> (Scan, int) {
    if p >= s.len() {
        (Scan::End, p)
    } else {
        let c = s[p];
        if is_punct(c) {
            (Scan::Punct, p + 1)
        } else if is_digit_char(c) || c == '-' {
            scan_number(s, p)
        } else if c == '"' {
            match string_end(s, p + 1, false) {
                Ok(e) => (Scan::Str, e),
                Err(Some(e)) => (Scan::Fail(LexError::UnexpectedNewline), e),
                Err(None) => (Scan::Fail(LexError::UnterminatedString), s.len() as int),
            }
        } else if is_ascii_alpha(c) || is_unicode_alphabetic(c) {
            let e = p + alpha_run(s, p, 5);
            let id = s.subrange(p, e);
            if id == seq!['t', 'r', 'u', 'e'] {
                (Scan::True, e)
            } else if id == seq!['f', 'a', 'l', 's', 'e'] {
                (Scan::False, e)
            } else if id == seq!['n', 'u', 'l', 'l'] {
                (Scan::Null, e)
            } else {
                (Scan::Fail(LexError::UnexpectedIdentifier), e)
            }
        } else {
            (Scan::Fail(LexError::UnexpectedCharacter), p + 1)
        }
    }
}

/// Whether `m` is the lexeme of a token of kind `k` spanning `s[p..e]`.
pub open spec fn lexeme_of(m: Meta, k: Scan, s: Seq<char>, p: int, e: int) -> bool {
    match k {
        Scan::Punct => match m {
            Meta::LeftSquare => s[p] == '[',
            Meta::RightSquare => s[p] == ']',
            Meta::LeftBrace => s[p] == '{',
            Meta::RightBrace => s[p] == '}',
            Meta::Comma => s[p] == ',',
            Meta::Colon => s[p] == ':',
            _ => false,
        },
        Scan::Number => m matches Meta::NumberLiteral(t) && t@ == s.subrange(p, e),
        Scan::Str => m matches Meta::StringLiteral(t) && t@ == s.subrange(p + 1, e - 1),
        Scan::True => m == Meta::BoolLiteral(true),
        Scan::False => m == Meta::BoolLiteral(false),
        Scan::Null => m == Meta::NullLiteral,
        Scan::End => m == Meta::Eof,
        Scan::Fail(err) => m == Meta::Error(err),
    }
}

pub open spec fn is_final(k: Scan) -> bool {
    k matches Scan::End || k matches Scan::Fail(_)
}

/// Facts on where a string body ends.
pub proof fn lemma_string_end(s: Seq<char>, i: int, escaped: bool)
    requires
        0 <= i,
    ensures
        string_end(s, i, escaped) matches Ok(e) ==> i < e <= s.len(),
        string_end(s, i, escaped) matches Err(Some(e)) ==> i <= e < s.len(),
    decreases s.len() - i,
{
    if i < s.len() {
        lemma_string_end(s, i + 1, false);
        lemma_string_end(s, i + 1, true);
    }
}

pub proof fn lemma_runs(s: Seq<char>, i: int, cap: nat)
    requires
        0 <= i <= s.len(),
    ensures
        i + ws_run(s, i) <= s.len(),
        i + digit_run(s, i) <= s.len(),
        i + alpha_run(s, i, cap) <= s.len(),
        alpha_run(s, i, cap) <= cap,
    decreases s.len() - i,
{
    if i < s.len() {
        lemma_runs(s, i + 1, 0);
        if cap > 0 {
            lemma_runs(s, i + 1, (cap - 1) as nat);
        }
    }
}

/// A scan at `p` ends at or after `p`, and strictly after it unless the token
/// is final (end of input or an error).
pub proof fn lemma_scan_bounds(s: Seq<char>, p: int)
    requires
        0 <= p <= s.len(),
    ensures
        p <= scan(s, p).1 <= s.len(),
        !is_final(scan(s, p).0) ==> p < scan(s, p).1,
        scan(s, p).0 matches Scan::Str ==> p + 2 <= scan(s, p).1,
{
    lemma_runs(s, p, 5);
    if p < s.len() {
        lemma_string_end(s, p + 1, false);
        if s[p] == '-' {
            lemma_runs(s, p + 1, 5);
        }
        let q = if s[p] == '-' { p + 1 } else { p };
        if q < s.len() {
            lemma_runs(s, q, 5);
            let a = q + digit_run(s, q);
            if a + 1 < s.len() {
                lemma_runs(s, a + 1, 5);
            }
        }
        let e = p + alpha_run(s, p, 5);
        let id = s.subrange(p, e);
        assert(id.len() == e - p);
        assert(seq!['t', 'r', 'u', 'e'].len() == 4);
        assert(seq!['f', 'a', 'l', 's', 'e'].len() == 5);
        assert(seq!['n', 'u', 'l', 'l'].len() == 4);
    }
}

/// Reading never moves back, and moves at most one line or column per character.
pub proof fn lemma_advance_bounds(s: Seq<char>, from: int, to: int, line: int, col: int)
    requires
        from <= to,
        1 <= line,
        1 <= col,
    ensures
        1 <= advance(s, from, to, line, col).0 <= line + (to - from),
        1 <= advance(s, from, to, line, col).1 <= col + (to - from),
    decreases to - from,
{
    if from < to {
        lemma_advance_bounds(s, from, to - 1, line, col);
    }
}

/// The lexer: the source, the index of the next character to read, the
/// current line and column, and whether the stream is exhausted.
#[derive(Debug)]
pub struct Lexer {
    chars: Vec<char>,
    pos: usize,
    line: usize,
    column: usize,
    done: bool,
}

impl Lexer {
    pub closed spec fn source(&self) -> Seq<char> {
        self.chars@
    }

    pub closed spec fn pos(&self) -> int {
        self.pos as int
    }

    pub closed spec fn line(&self) -> int {
        self.line as int
    }

    pub closed spec fn column(&self) -> int {
        self.column as int
    }

    pub closed spec fn done(&self) -> bool {
        self.done
    }

    pub closed spec fn wf(&self) -> bool {
        &&& self.pos <= self.chars@.len() < usize::MAX
        &&& 1 <= self.line <= self.pos + 1
        &&& 1 <= self.column <= self.pos + 1
    }

    /// Shrinks with every token produced.
    pub open spec fn measure(&self) -> nat {
        ((self.source().len() - self.pos()) + if self.done() { 0int } else { 1int }) as nat
    }

    /// Where the next token starts: after the whitespace at the current position.
    pub open spec fn token_start(&self) -> int {
        self.pos() + ws_run(self.source(), self.pos())
    }

    /// Line and column of the next token.
    pub open spec fn token_place(&self) -> (int, int) {
        advance(self.source(), self.pos(), self.token_start(), self.line(), self.column())
    }

    /// `tok` is the token that `self` produces next, and `next` the lexer after it.
    pub open spec fn produces(&self, tok: Token, next: Lexer) -> bool {
        let s = self.source();
        let p = self.token_start();
        let (l, c) = self.token_place();
        let (k, e) = scan(s, p);
        &&& tok.line == l
        &&& tok.column == c
        &&& tok.literal@ == s.subrange(p, e)
        &&& lexeme_of(tok.lexeme, k, s, p, e)
        &&& next.source() == s
        &&& next.pos() == e
        &&& (next.line(), next.column()) == advance(s, p, e, l, c)
        &&& next.done() == is_final(k)
    }

    pub fn new(source: &str) -> (r: Lexer)
        requires
            source@.len() < usize::MAX,
        ensures
            r.wf(),
            r.source() == source@,
            r.pos() == 0,
            r.line() == 1,
            r.column() == 1,
            !r.done(),
    {
        let mut it = source.chars();
        let mut chars: Vec<char> = Vec::new();
        loop
            invariant
                it.obeys_prophetic_iter_laws(),
                it.decrease() is Some,
                chars@ + it.remaining() == source@,
            ensures
                chars@ == source@,
            decreases it.decrease()->0,
        {
            let next = it.next();
            match next {
                Some(c) => {
                    chars.push(c);
                },
                None => {
                    break;
                },
            }
        }
        Lexer { chars, pos: 0, line: 1, column: 1, done: false }
    }

    /// Whether the stream is exhausted.
    pub fn is_done(&self) -> (r: bool)
        ensures
            r == self.done(),
    {
        self.done
    }

    /// Produces the next token, or `None` once an end-of-input or error token
    /// has been produced.
    pub fn next_token(&mut self) -> (r: Option<Token>)
        requires
            old(self).wf(),
        ensures
            final(self).wf(),
            final(self).source() == old(self).source(),
            old(self).done() ==> r is None && *final(self) == *old(self),
            !old(self).done() ==> (r matches Some(tok) && old(self).produces(tok, *final(self))),
            !old(self).done() ==> final(self).measure() < old(self).measure(),
    {
        if self.done {
            return None;
        }
        self.skip_whitespaces();
        let p = self.pos;
        proof {
            lemma_scan_bounds(self.chars@, p as int);
        }
        if p >= self.chars.len() {
            self.done = true;
            return Some(self.mk_token(Meta::Eof, p));
        }
        let c = self.chars[p];
        let tok = if c == '[' {
            self.mk_token(Meta::LeftSquare, p + 1)
        } else if c == ']' {
            self.mk_token(Meta::RightSquare, p + 1)
        } else if c == '{' {
            self.mk_token(Meta::LeftBrace, p + 1)
        } else if c == '}' {
            self.mk_token(Meta::RightBrace, p + 1)
        } else if c == ',' {
            self.mk_token(Meta::Comma, p + 1)
        } else if c == ':' {
            self.mk_token(Meta::Colon, p + 1)
        } else if ('0' <= c && c <= '9') || c == '-' {
            self.number()
        } else if c == '"' {
            self.string()
        } else if char_is_alphabetic(c) {
            self.identifier()
        } else {
            self.mk_error(LexError::UnexpectedCharacter, p + 1)
        };
        Some(tok)
    }

    /// Like `next_token`.
    pub fn next(&mut self) -> (r: Option<Token>)
        requires
            old(self).wf(),
        ensures
            final(self).wf(),
            final(self).source() == old(self).source(),
            old(self).done() ==> r is None && *final(self) == *old(self),
            !old(self).done() ==> (r matches Some(tok) && old(self).produces(tok, *final(self))),
            !old(self).done() ==> final(self).measure() < old(self).measure(),
    {
        self.next_token()
    }

    /// Moves the position to `to`, updating line and column over the
    /// characters read.
    fn manipulate_states(&mut self, to: usize)
        requires
            old(self).wf(),
            old(self).pos() <= to <= old(self).source().len(),
        ensures
            final(self).wf(),
            final(self).chars == old(self).chars,
            final(self).done == old(self).done,
            final(self).pos() == to,
            (final(self).line(), final(self).column()) == advance(
                old(self).source(),
                old(self).pos(),
                to as int,
                old(self).line(),
                old(self).column(),
            ),
    {
        let ghost s = self.chars@;
        let ghost from = self.pos as int;
        let ghost (l0, c0) = (self.line as int, self.column as int);
        let mut i = self.pos;
        let mut line = self.line;
        let mut col = self.column;
        while i < to
            invariant
                self.chars@ == s,
                s.len() < usize::MAX,
                from <= i <= to <= s.len(),
                1 <= line <= i + 1,
                1 <= col <= i + 1,
                (line as int, col as int) == advance(s, from, i as int, l0, c0),
            decreases to - i,
        {
            if self.chars[i] == '\n' {
                line = line + 1;
                col = 1;
            } else {
                col = col + 1;
            }
            i = i + 1;
        }
        self.pos = to;
        self.line = line;
        self.column = col;
    }

    /// Builds the token that spans from the current position to `to` and
    /// moves past it.
    fn mk_token(&mut self, meta: Meta, to: usize) -> (r: Token)
        requires
            old(self).wf(),
            old(self).pos() <= to <= old(self).source().len(),
        ensures
            final(self).wf(),
            final(self).chars == old(self).chars,
            final(self).done == old(self).done,
            final(self).pos() == to,
            (final(self).line(), final(self).column()) == advance(
                old(self).source(),
                old(self).pos(),
                to as int,
                old(self).line(),
                old(self).column(),
            ),
            r.lexeme == meta,
            r.literal@ == old(self).source().subrange(old(self).pos(), to as int),
            r.line == old(self).line(),
            r.column == old(self).column(),
    {
        let literal = string_of(&self.chars, self.pos, to);
        let res = Token { lexeme: meta, literal, line: self.line, column: self.column };
        self.manipulate_states(to);
        res
    }

    /// Builds an error token up to `to`; the stream ends with it.
    fn mk_error(&mut self, err: LexError, to: usize) -> (r: Token)
        requires
            old(self).wf(),
            old(self).pos() <= to <= old(self).source().len(),
        ensures
            final(self).wf(),
            final(self).chars == old(self).chars,
            final(self).done,
            final(self).pos() == to,
            (final(self).line(), final(self).column()) == advance(
                old(self).source(),
                old(self).pos(),
                to as int,
                old(self).line(),
                old(self).column(),
            ),
            r.lexeme == Meta::Error(err),
            r.literal@ == old(self).source().subrange(old(self).pos(), to as int),
            r.line == old(self).line(),
            r.column == old(self).column(),
    {
        self.done = true;
        self.mk_token(Meta::Error(err), to)
    }

    /// Scans the number at the current position.
    fn number(&mut self) -> (r: Token)
        requires
            old(self).wf(),
            old(self).pos() < old(self).source().len(),
            is_digit_char(old(self).source()[old(self).pos()]) || old(self).source()[old(self).pos()] == '-',
        ensures
            ({
                let s = old(self).source();
                let p = old(self).pos();
                let (k, e) = scan(s, p);
                &&& final(self).wf()
                &&& final(self).chars == old(self).chars
                &&& final(self).pos() == e
                &&& final(self).done == (old(self).done || is_final(k))
                &&& (final(self).line(), final(self).column()) == advance(s, p, e, old(self).line(), old(self).column())
                &&& lexeme_of(r.lexeme, k, s, p, e)
                &&& r.literal@ == s.subrange(p, e)
                &&& r.line == old(self).line()
                &&& r.column == old(self).column()
            }),
    {
        let ghost s = self.chars@;
        let p = self.pos;
        let n = self.chars.len();
        proof {
            lemma_scan_bounds(s, p as int);
        }
        let mut i = p;
        if self.chars[i] == '-' {
            i = i + 1;
            if i >= n {
                return self.mk_error(LexError::EofAfterMinus, i);
            }
            let c = self.chars[i];
            if !('0' <= c && c <= '9') {
                return self.mk_error(LexError::DigitAfterMinus, i);
            }
        }
        let q = i;
        while i < n && '0' <= self.chars[i] && self.chars[i] <= '9'
            invariant
                self.chars@ == s,
                n == s.len(),
                q <= i <= n,
                digit_run(s, q as int) == (i - q) + digit_run(s, i as int),
            decreases n - i,
        {
            i = i + 1;
        }
        if i >= n || self.chars[i] != '.' {
            let lit = string_of(&self.chars, p, i);
            return self.mk_token(Meta::NumberLiteral(lit), i);
        }
        i = i + 1;
        if i >= n {
            return self.mk_error(LexError::EofAfterDot, i);
        }
        let c = self.chars[i];
        if !('0' <= c && c <= '9') {
            return self.mk_error(LexError::DigitAfterDot, i);
        }
        let f = i;
        while i < n && '0' <= self.chars[i] && self.chars[i] <= '9'
            invariant
                self.chars@ == s,
                n == s.len(),
                f <= i <= n,
                digit_run(s, f as int) == (i - f) + digit_run(s, i as int),
            decreases n - i,
        {
            i = i + 1;
        }
        let lit = string_of(&self.chars, p, i);
        self.mk_token(Meta::NumberLiteral(lit), i)
    }

    /// Scans the string literal whose opening quote is at the current position.
    fn string(&mut self) -> (r: Token)
        requires
            old(self).wf(),
            old(self).pos() < old(self).source().len(),
            old(self).source()[old(self).pos()] == '"',
        ensures
            ({
                let s = old(self).source();
                let p = old(self).pos();
                let (k, e) = scan(s, p);
                &&& final(self).wf()
                &&& final(self).chars == old(self).chars
                &&& final(self).pos() == e
                &&& final(self).done == (old(self).done || is_final(k))
                &&& (final(self).line(), final(self).column()) == advance(s, p, e, old(self).line(), old(self).column())
                &&& lexeme_of(r.lexeme, k, s, p, e)
                &&& r.literal@ == s.subrange(p, e)
                &&& r.line == old(self).line()
                &&& r.column == old(self).column()
            }),
    {
        let ghost s = self.chars@;
        let p = self.pos;
        let n = self.chars.len();
        proof {
            lemma_scan_bounds(s, p as int);
            lemma_string_end(s, p + 1, false);
        }
        let mut i = p + 1;
        let mut escaped = false;
        while i < n
            invariant
                *self == *old(self),
                self.chars@ == s,
                self.wf(),
                self.pos == p,
                n == s.len(),
                s[p as int] == '"',
                p < i <= n,
                string_end(s, p + 1, false) == string_end(s, i as int, escaped),
            decreases n - i,
        {
            let c = self.chars[i];
            if escaped {
                escaped = false;
            } else if c == '\n' {
                return self.mk_error(LexError::UnexpectedNewline, i);
            } else if c == '\\' {
                escaped = true;
            } else if c == '"' {
                let lit = string_of(&self.chars, p + 1, i);
                return self.mk_token(Meta::StringLiteral(lit), i + 1);
            }
            i = i + 1;
        }
        self.mk_error(LexError::UnterminatedString, n)
    }

    /// Scans the identifier at the current position: at most five ASCII
    /// letters, which must spell a keyword.
    fn identifier(&mut self) -> (r: Token)
        requires
            old(self).wf(),
            old(self).pos() < old(self).source().len(),
            is_ascii_alpha(old(self).source()[old(self).pos()]) || is_unicode_alphabetic(
                old(self).source()[old(self).pos()],
            ),
            !is_digit_char(old(self).source()[old(self).pos()]),
            !is_punct(old(self).source()[old(self).pos()]),
            old(self).source()[old(self).pos()] != '-',
            old(self).source()[old(self).pos()] != '"',
        ensures
            ({
                let s = old(self).source();
                let p = old(self).pos();
                let (k, e) = scan(s, p);
                &&& final(self).wf()
                &&& final(self).chars == old(self).chars
                &&& final(self).pos() == e
                &&& final(self).done == (old(self).done || is_final(k))
                &&& (final(self).line(), final(self).column()) == advance(s, p, e, old(self).line(), old(self).column())
                &&& lexeme_of(r.lexeme, k, s, p, e)
                &&& r.literal@ == s.subrange(p, e)
                &&& r.line == old(self).line()
                &&& r.column == old(self).column()
            }),
    {
        let ghost s = self.chars@;
        let p = self.pos;
        let n = self.chars.len();
        proof {
            lemma_scan_bounds(s, p as int);
            lemma_runs(s, p as int, 5);
        }
        let mut i = p;
        while i < n && i - p < 5 && (('a' <= self.chars[i] && self.chars[i] <= 'z') || ('A' <= self.chars[i] && self.chars[i] <= 'Z'))
            invariant
                self.chars@ == s,
                n == s.len(),
                p <= i <= n,
                i - p <= 5,
                alpha_run(s, p as int, 5) == (i - p) + alpha_run(s, i as int, (5 - (i - p)) as nat),
            decreases n - i,
        {
            i = i + 1;
        }
        assert(alpha_run(s, i as int, (5 - (i - p)) as nat) == 0);
        assert(p + alpha_run(s, p as int, 5) == i);
        let ghost id = s.subrange(p as int, i as int);
        let len = i - p;
        let c = &self.chars;
        let is_true = len == 4 && c[p] == 't' && c[p + 1] == 'r' && c[p + 2] == 'u' && c[p + 3] == 'e';
        let is_false = len == 5 && c[p] == 'f' && c[p + 1] == 'a' && c[p + 2] == 'l' && c[p + 3] == 's'
            && c[p + 4] == 'e';
        let is_null = len == 4 && c[p] == 'n' && c[p + 1] == 'u' && c[p + 2] == 'l' && c[p + 3] == 'l';
        proof {
            let t = seq!['t', 'r', 'u', 'e'];
            let f = seq!['f', 'a', 'l', 's', 'e'];
            let n = seq!['n', 'u', 'l', 'l'];
            assert(id.len() == i - p);
            assert(t.len() == 4 && f.len() == 5 && n.len() == 4);
            if is_true {
                assert(id =~= t);
            }
            if id == t {
                assert(t[0] == 't' && t[1] == 'r' && t[2] == 'u' && t[3] == 'e');
                assert(id[0] == s[p as int] && id[1] == s[p + 1] && id[2] == s[p + 2] && id[3] == s[p + 3]);
                assert(is_true);
            }
            if is_false {
                assert(id =~= f);
            }
            if id == f {
                assert(f[0] == 'f' && f[1] == 'a' && f[2] == 'l' && f[3] == 's' && f[4] == 'e');
                assert(id[0] == s[p as int] && id[1] == s[p + 1] && id[2] == s[p + 2] && id[3] == s[p + 3]
                    && id[4] == s[p + 4]);
                assert(is_false);
            }
            if is_null {
                assert(id =~= n);
            }
            if id == n {
                assert(n[0] == 'n' && n[1] == 'u' && n[2] == 'l' && n[3] == 'l');
                assert(id[0] == s[p as int] && id[1] == s[p + 1] && id[2] == s[p + 2] && id[3] == s[p + 3]);
                assert(is_null);
            }
        }
        if is_true {
            self.mk_token(Meta::BoolLiteral(true), i)
        } else if is_false {
            self.mk_token(Meta::BoolLiteral(false), i)
        } else if is_null {
            self.mk_token(Meta::NullLiteral, i)
        } else {
            self.mk_error(LexError::UnexpectedIdentifier, i)
        }
    }

    /// Moves past the whitespace at the current position.
    fn skip_whitespaces(&mut self)
        requires
            old(self).wf(),
        ensures
            final(self).wf(),
            old(self).done() ==> *final(self) == *old(self),
            !old(self).done() ==> {
                &&& final(self).chars == old(self).chars
                &&& final(self).done == old(self).done
                &&& final(self).pos() == old(self).token_start()
                &&& (final(self).line(), final(self).column()) == old(self).token_place()
            },
    {
        if self.done {
            return;
        }
        let ghost s = self.chars@;
        let mut j = self.pos;
        while j < self.chars.len() && char_is_whitespace(self.chars[j])
            invariant
                self.chars@ == s,
                self.wf(),
                self.pos <= j <= s.len(),
                ws_run(s, self.pos as int) == (j - self.pos) + ws_run(s, j as int),
            decreases s.len() - j,
        {
            j = j + 1;
        }
        self.manipulate_states(j);
    }
}

pub open spec fn is_terminal(m: Meta) -> bool {
    m matches Meta::Eof || m matches Meta::Error(_)
}

/// A token that is neither end of input nor an error leaves the lexer
/// running; an end-of-input token leaves it done, at the end of the source.
pub proof fn lemma_terminal(prev: Lexer, t: Token, next: Lexer)
    requires
        prev.wf(),
        prev.produces(t, next),
    ensures
        !is_terminal(t.lexeme) ==> !next.done(),
        t.lexeme == Meta::Eof ==> next.done() && next.pos() == next.source().len(),
{
    let s = prev.source();
    lemma_runs(s, prev.pos(), 0);
    lemma_scan_bounds(s, prev.token_start());
}

/// A lexer position: index into the source, line, column.
pub type Pos = (int, int, int);

pub open spec fn valid_pos(s: Seq<char>, q: Pos) -> bool {
    0 <= q.0 <= s.len() && 1 <= q.1 && 1 <= q.2
}

/// Where the token read at `q` starts.
pub open spec fn tok_start(s: Seq<char>, q: Pos) -> int {
    q.0 + ws_run(s, q.0)
}

/// Kind and end of the token read at `q`.
pub open spec fn tok_scan(s: Seq<char>, q: Pos) -> (Scan, int) {
    scan(s, tok_start(s, q))
}

/// Line and column of the token read at `q`.
pub open spec fn tok_place(s: Seq<char>, q: Pos) -> (int, int) {
    advance(s, q.0, tok_start(s, q), q.1, q.2)
}

/// The position after the token read at `q`.
pub open spec fn after(s: Seq<char>, q: Pos) -> Pos {
    let p = tok_start(s, q);
    let e = tok_scan(s, q).1;
    let (l, c) = tok_place(s, q);
    let (l2, c2) = advance(s, p, e, l, c);
    (e, l2, c2)
}

/// The category tag of the token read at `q`.
pub open spec fn scan_tag(s: Seq<char>, q: Pos) -> nat {
    let p = tok_start(s, q);
    match tok_scan(s, q).0 {
        Scan::Punct => if s[p] == '{' {
            0
        } else if s[p] == '[' {
            1
        } else if s[p] == '}' {
            2
        } else if s[p] == ']' {
            3
        } else if s[p] == ',' {
            4
        } else {
            5
        },
        Scan::Str => 6,
        Scan::True => 7,
        Scan::False => 7,
        Scan::Number => 8,
        Scan::Null => 9,
        Scan::End => 10,
        Scan::Fail(_) => 11,
    }
}

impl Lexer {
    pub open spec fn at(&self) -> Pos {
        (self.pos(), self.line(), self.column())
    }
}

/// Reading a token at a valid position gives a valid position, further on;
/// strictly further unless the token is final.
pub proof fn lemma_after(s: Seq<char>, q: Pos)
    requires
        valid_pos(s, q),
    ensures
        valid_pos(s, after(s, q)),
        q.0 <= after(s, q).0,
        !is_final(tok_scan(s, q).0) ==> q.0 < after(s, q).0,
        tok_scan(s, q).0 is End ==> after(s, q).0 == s.len(),
        q.0 <= tok_start(s, q) <= s.len(),
{
    lemma_runs(s, q.0, 0);
    let p = tok_start(s, q);
    lemma_scan_bounds(s, p);
    lemma_advance_bounds(s, q.0, p, q.1, q.2);
    let (l, c) = tok_place(s, q);
    lemma_advance_bounds(s, p, tok_scan(s, q).1, l, c);
}

/// The tag and the payload of a produced token follow from its scan.
pub proof fn lemma_produced_tag(lx: Lexer, t: Token, next: Lexer)
    requires
        lx.wf(),
        lx.produces(t, next),
    ensures
        tag_of(t.lexeme) == scan_tag(lx.source(), lx.at()),
        valid_pos(lx.source(), lx.at()),
        next.at() == after(lx.source(), lx.at()),
        (t.line as int, t.column as int) == tok_place(lx.source(), lx.at()),
        tok_scan(lx.source(), lx.at()).0 matches Scan::Fail(err) ==> t.lexeme == Meta::Error(err),
        !(tok_scan(lx.source(), lx.at()).0 is Fail) ==> !(t.lexeme is Error),
{
    let s = lx.source();
    lemma_runs(s, lx.pos(), 0);
    lemma_scan_bounds(s, lx.token_start());
}

/// A well-formed lexer stands at a valid position.
pub proof fn lemma_valid_at(lx: Lexer)
    requires
        lx.wf(),
    ensures
        valid_pos(lx.source(), lx.at()),
{
}

/// The digits of a number text, read as one decimal integer; the sign and
/// the point are passed over.
pub open spec fn mantissa(t: Seq<char>) -> nat
    decreases t.len(),
{
    if t.len() == 0 {
        0
    } else if is_digit_char(t.last()) {
        mantissa(t.drop_last()) * 10 + (t.last() as nat - '0' as nat) as nat
    } else {
        mantissa(t.drop_last())
    }
}

pub open spec fn has_point(t: Seq<char>) -> bool
    decreases t.len(),
{
    t.len() > 0 && (t.last() == '.' || has_point(t.drop_last()))
}

/// The number of digits after the point.
pub open spec fn scale(t: Seq<char>) -> nat
    decreases t.len(),
{
    if t.len() == 0 || t.last() == '.' || !has_point(t.drop_last()) {
        0
    } else {
        1 + scale(t.drop_last())
    }
}

pub open spec fn pow10(n: nat) -> nat
    decreases n,
{
    if n == 0 {
        1
    } else {
        10 * pow10((n - 1) as nat)
    }
}

/// The signed integer that, divided by `10^scale(t)`, is the value of the
/// number text `t`.
pub open spec fn numerator(t: Seq<char>) -> int {
    if t.len() > 0 && t[0] == '-' {
        -(mantissa(t) as int)
    } else {
        mantissa(t) as int
    }
}

/// Two number texts denote the same value.
pub open spec fn same_value(a: Seq<char>, b: Seq<char>) -> bool {
    numerator(a) * pow10(scale(b)) == numerator(b) * pow10(scale(a))
}

/// A zero after the point leaves the value as it is (`4.2` and `4.20`).
pub proof fn lemma_trailing_zero(t: Seq<char>)
    requires
        has_point(t),
    ensures
        same_value(t, t.push('0')),
{
    let u = t.push('0');
    assert(u.drop_last() =~= t);
    assert(u[0] == t[0]);
    assert(mantissa(u) == mantissa(t) * 10);
    assert(scale(u) == scale(t) + 1);
    assert(pow10(scale(u)) == 10 * pow10(scale(t)));
    let n = numerator(t);
    let p = pow10(scale(t)) as int;
    assert(numerator(u) == n * 10);
    assert((n * 10) * p == n * (10 * p)) by (nonlinear_arith);
}

/// A point and a zero after an integer leave the value as it is (`42` and
/// `42.0`).
pub proof fn lemma_point_zero(t: Seq<char>)
    requires
        t.len() > 0,
        !has_point(t),
    ensures
        same_value(t, t.push('.').push('0')),
{
    let d = t.push('.');
    let u = d.push('0');
    assert(d.drop_last() =~= t);
    assert(u.drop_last() =~= d);
    assert(d[0] == t[0] && u[0] == t[0]);
    assert(scale(t) == 0);
    assert(mantissa(d) == mantissa(t));
    assert(scale(d) == 0);
    assert(has_point(d));
    assert(mantissa(u) == mantissa(t) * 10);
    assert(scale(u) == 1);
    assert(pow10(1) == 10) by {
        assert(pow10(0) == 1);
    }
    assert(numerator(u) == numerator(t) * 10);
    assert(pow10(scale(t)) == 1);
    assert(pow10(scale(u)) == 10);
    assert(numerator(t) * pow10(scale(u)) == numerator(u) * pow10(scale(t)));
}

/// A leading minus sign negates the value of a number text and keeps its scale
/// (`42.0` and `-42.0`).
pub proof fn lemma_negation(t: Seq<char>)
    requires
        t.len() > 0,
        t[0] != '-',
    ensures
        numerator(seq!['-'] + t) == -numerator(t),
        scale(seq!['-'] + t) == scale(t),
{
    lemma_minus_prefix(t);
    assert((seq!['-'] + t)[0] == '-');
}

proof fn lemma_minus_prefix(t: Seq<char>)
    ensures
        mantissa(seq!['-'] + t) == mantissa(t),
        has_point(seq!['-'] + t) == has_point(t),
        scale(seq!['-'] + t) == scale(t),
    decreases t.len(),
{
    let m = seq!['-'];
    if t.len() == 0 {
        assert(m + t =~= m);
        assert(m.len() == 1 && m.last() == '-');
        assert(m.drop_last() =~= Seq::<char>::empty());
        assert(mantissa(m) == mantissa(m.drop_last()));
        assert(has_point(m) == has_point(m.drop_last()));
    } else {
        lemma_minus_prefix(t.drop_last());
        assert((m + t).drop_last() =~= m + t.drop_last());
        assert((m + t).last() == t.last());
    }
}

} // verus!

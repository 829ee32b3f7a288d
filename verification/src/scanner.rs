//! The scanner: consumes source text, held as a sequence of Unicode scalar
//! values, and produces one token at a time on demand. Tokens carry an
//! (offset, length) span into the source rather than a borrowed slice.
//!
//! The whole behaviour of a scan step is pinned by the spec-level tokenizer
//! `spec_scan`: where whitespace and `//` comments end, how every token kind
//! is delimited, which lexemes are keywords, and which inputs are scan errors
//! (an unknown character, or an unterminated string reported at the line of
//! its opening quote).

use vstd::prelude::*;
use vstd::string::StrSliceExecFns;

use crate::error::Error;
use crate::value::{all_digits, decimal_digit, is_numeral};

verus! {

/// A character that may start an identifier: ASCII alphabetic or underscore.
pub open spec fn is_alpha(c: char) -> bool {
    ||| ('a' as u32 <= c as u32 && c as u32 <= 'z' as u32)
    ||| ('A' as u32 <= c as u32 && c as u32 <= 'Z' as u32)
    ||| c == '_'
}

/// A character that may continue an identifier.
pub open spec fn is_alnum(c: char) -> bool {
    is_alpha(c) || decimal_digit(c)
}

/// The token kinds: punctuation, one-or-two-character operators, literals,
/// keywords, and the terminal end-of-input kind.
#[derive(Debug, Clone, Copy, PartialEq, Eq, Structural)]
pub enum TokenType {
    LeftParen,
    RightParen,
    LeftBrace,
    RightBrace,
    Comma,
    Dot,
    Minus,
    Plus,
    Semicolon,
    Slash,
    Star,
    Bang,
    BangEqual,
    Equal,
    EqualEqual,
    Greater,
    GreaterEqual,
    Less,
    LessEqual,
    Identifier,
    String,
    Number,
    And,
    Class,
    Else,
    False,
    For,
    Fun,
    If,
    Nil,
    Or,
    Print,
    Return,
    Super,
    This,
    True,
    Var,
    While,
    EOF,
}

/// A token: its kind, its span (offset and length) into the source text, and
/// the line it ends on.
#[derive(Debug, Clone, Copy, PartialEq, Eq, Structural)]
pub struct Token {
    pub ty: TokenType,
    pub start: usize,
    pub length: usize,
    pub line: usize,
}

impl Token {
    pub fn new(ty: TokenType, start: usize, length: usize, line: usize) -> (t: Token)
        ensures
            t == (Token { ty, start, length, line }),
    {
        Token { ty, start, length, line }
    }
}

/// The keyword that a lexeme spells, or `Identifier` when it spells none.
pub open spec fn keyword_type(lex: Seq<char>) -> TokenType {
    if lex == "and"@ {
        TokenType::And
    } else if lex == "class"@ {
        TokenType::Class
    } else if lex == "else"@ {
        TokenType::Else
    } else if lex == "false"@ {
        TokenType::False
    } else if lex == "for"@ {
        TokenType::For
    } else if lex == "fun"@ {
        TokenType::Fun
    } else if lex == "if"@ {
        TokenType::If
    } else if lex == "nil"@ {
        TokenType::Nil
    } else if lex == "or"@ {
        TokenType::Or
    } else if lex == "print"@ {
        TokenType::Print
    } else if lex == "return"@ {
        TokenType::Return
    } else if lex == "super"@ {
        TokenType::Super
    } else if lex == "this"@ {
        TokenType::This
    } else if lex == "true"@ {
        TokenType::True
    } else if lex == "var"@ {
        TokenType::Var
    } else if lex == "while"@ {
        TokenType::While
    } else {
        TokenType::Identifier
    }
}

/// The position of the first newline at or after `i`, or the end of the text:
/// where a `//` comment's body ends.
pub open spec fn line_comment_end(s: Seq<char>, i: int) -> int
    recommends
        0 <= i <= s.len(),
    decreases s.len() - i,
{
    if i < 0 || i >= s.len() {
        s.len() as int
    } else if s[i] == '\n' {
        i
    } else {
        line_comment_end(s, i + 1)
    }
}

pub proof fn lemma_line_comment_end_bounds(s: Seq<char>, i: int)
    requires
        0 <= i <= s.len(),
    ensures
        i <= line_comment_end(s, i) <= s.len(),
        forall|k: int| i <= k < line_comment_end(s, i) ==> s[k] != '\n',
    decreases s.len() - i,
{
    if i < s.len() && s[i] != '\n' {
        lemma_line_comment_end_bounds(s, i + 1);
    }
}

/// The position and line after skipping spaces, tabs, carriage returns,
/// newlines (each newline counts a line) and `//` comments from `(i, line)`.
pub open spec fn skip_ws(s: Seq<char>, i: int, line: int) -> (int, int)
    recommends
        0 <= i <= s.len(),
    decreases s.len() - i,
    via skip_ws_decreases
{
    if i < 0 || i >= s.len() {
        (i, line)
    } else if s[i] == ' ' || s[i] == '\r' || s[i] == '\t' {
        skip_ws(s, i + 1, line)
    } else if s[i] == '\n' {
        skip_ws(s, i + 1, line + 1)
    } else if s[i] == '/' && i + 1 < s.len() && s[i + 1] == '/' {
        skip_ws(s, line_comment_end(s, i + 2), line)
    } else {
        (i, line)
    }
}

#[via_fn]
proof fn skip_ws_decreases(s: Seq<char>, i: int, line: int) {
    if 0 <= i < s.len() && s[i] == '/' && i + 1 < s.len() && s[i + 1] == '/' {
        lemma_line_comment_end_bounds(s, i + 2);
    }
}

pub proof fn lemma_skip_ws_bounds(s: Seq<char>, i: int, line: int)
    requires
        0 <= i <= s.len(),
    ensures
        i <= skip_ws(s, i, line).0 <= s.len(),
        line <= skip_ws(s, i, line).1,
        skip_ws(s, i, line).1 - line <= skip_ws(s, i, line).0 - i,
    decreases s.len() - i,
{
    if i < s.len() {
        if s[i] == ' ' || s[i] == '\r' || s[i] == '\t' {
            lemma_skip_ws_bounds(s, i + 1, line);
        } else if s[i] == '\n' {
            lemma_skip_ws_bounds(s, i + 1, line + 1);
        } else if s[i] == '/' && i + 1 < s.len() && s[i + 1] == '/' {
            lemma_line_comment_end_bounds(s, i + 2);
            lemma_skip_ws_bounds(s, line_comment_end(s, i + 2), line);
        }
    }
}

/// The first position at or after `i` whose character is not a decimal digit.
pub open spec fn digits_end(s: Seq<char>, i: int) -> int
    decreases s.len() - i,
{
    if 0 <= i < s.len() && decimal_digit(s[i]) {
        digits_end(s, i + 1)
    } else {
        i
    }
}

pub proof fn lemma_digits_end_bounds(s: Seq<char>, i: int)
    requires
        0 <= i <= s.len(),
    ensures
        i <= digits_end(s, i) <= s.len(),
        forall|k: int| i <= k < digits_end(s, i) ==> decimal_digit(#[trigger] s[k]),
        digits_end(s, i) < s.len() ==> !decimal_digit(s[digits_end(s, i)]),
    decreases s.len() - i,
{
    if 0 <= i < s.len() && decimal_digit(s[i]) {
        lemma_digits_end_bounds(s, i + 1);
    }
}

/// The first position at or after `i` whose character can not continue an
/// identifier.
pub open spec fn ident_end(s: Seq<char>, i: int) -> int
    decreases s.len() - i,
{
    if 0 <= i < s.len() && is_alnum(s[i]) {
        ident_end(s, i + 1)
    } else {
        i
    }
}

pub proof fn lemma_ident_end_bounds(s: Seq<char>, i: int)
    requires
        0 <= i <= s.len(),
    ensures
        i <= ident_end(s, i) <= s.len(),
    decreases s.len() - i,
{
    if 0 <= i < s.len() && is_alnum(s[i]) {
        lemma_ident_end_bounds(s, i + 1);
    }
}

/// Where a number token ends: digits, then a fractional part only when a dot
/// is followed by at least one digit.
pub open spec fn number_end(s: Seq<char>, i: int) -> int {
    let d = digits_end(s, i);
    if d + 1 < s.len() && s[d] == '.' && decimal_digit(s[d + 1]) {
        digits_end(s, d + 1)
    } else {
        d
    }
}

/// The first position at or after `i` holding a closing double quote, or the
/// end of the text.
pub open spec fn string_body_end(s: Seq<char>, i: int) -> int
    decreases s.len() - i,
{
    if 0 <= i < s.len() && s[i] != '"' {
        string_body_end(s, i + 1)
    } else {
        i
    }
}

pub proof fn lemma_string_body_end_bounds(s: Seq<char>, i: int)
    requires
        0 <= i <= s.len(),
    ensures
        i <= string_body_end(s, i) <= s.len(),
        string_body_end(s, i) < s.len() ==> s[string_body_end(s, i)] == '"',
    decreases s.len() - i,
{
    if 0 <= i < s.len() && s[i] != '"' {
        lemma_string_body_end_bounds(s, i + 1);
    }
}

/// How many newlines `s` holds in `[from, to)`.
pub open spec fn newlines_between(s: Seq<char>, from: int, to: int) -> int
    decreases to - from,
{
    if from < 0 || from >= to || to > s.len() {
        0
    } else {
        (if s[from] == '\n' {
            1int
        } else {
            0int
        }) + newlines_between(s, from + 1, to)
    }
}

pub proof fn lemma_newlines_between_bounds(s: Seq<char>, from: int, to: int)
    ensures
        0 <= newlines_between(s, from, to),
        newlines_between(s, from, to) <= (if to - from >= 0 {
            to - from
        } else {
            0
        }),
    decreases to - from,
{
    if !(from < 0 || from >= to || to > s.len()) {
        lemma_newlines_between_bounds(s, from + 1, to);
    }
}

/// What one scan step does, from position `cur` on line `line`: where the
/// token starts (after skipped whitespace), where the scanner stands after,
/// the line counter after, and the token or scan error produced.
pub struct ScanStep {
    /// The token's start: the first position not skipped.
    pub start: int,
    /// The scanner's position after the step.
    pub next: int,
    /// The line counter after the step.
    pub line: int,
    /// `Ok` carries the token's kind, length and line; `Err` carries the
    /// offending character and the line to report.
    pub result: Result<(TokenType, int, int), (char, int)>,
}

/// A step that yields a token of kind `ty` spanning `[p, e)` on line `l`.
pub open spec fn token_step(ty: TokenType, p: int, e: int, l: int) -> ScanStep {
    ScanStep { start: p, next: e, line: l, result: Ok((ty, e - p, l)) }
}

/// The token a successful scan step carries.
pub open spec fn step_token(st: ScanStep) -> Token
    recommends
        st.result is Ok,
{
    match st.result {
        Ok((ty, length, tline)) => Token {
            ty,
            start: st.start as usize,
            length: length as usize,
            line: tline as usize,
        },
        Err(e) => Token { ty: TokenType::EOF, start: 0, length: 0, line: 0 },
    }
}

/// The spec-level tokenizer: one step of the scanner from position `cur` on
/// line `line`.
pub open spec fn spec_scan(s: Seq<char>, cur: int, line: int) -> ScanStep {
    let (p, l) = skip_ws(s, cur, line);
    if p >= s.len() {
        token_step(TokenType::EOF, p, p, l)
    } else {
        let c = s[p];
        if is_alpha(c) {
            let e = ident_end(s, p);
            token_step(keyword_type(s.subrange(p, e)), p, e, l)
        } else if decimal_digit(c) {
            token_step(TokenType::Number, p, number_end(s, p), l)
        } else if c == '(' {
            token_step(TokenType::LeftParen, p, p + 1, l)
        } else if c == ')' {
            token_step(TokenType::RightParen, p, p + 1, l)
        } else if c == '{' {
            token_step(TokenType::LeftBrace, p, p + 1, l)
        } else if c == '}' {
            token_step(TokenType::RightBrace, p, p + 1, l)
        } else if c == ';' {
            token_step(TokenType::Semicolon, p, p + 1, l)
        } else if c == ',' {
            token_step(TokenType::Comma, p, p + 1, l)
        } else if c == '.' {
            token_step(TokenType::Dot, p, p + 1, l)
        } else if c == '-' {
            token_step(TokenType::Minus, p, p + 1, l)
        } else if c == '+' {
            token_step(TokenType::Plus, p, p + 1, l)
        } else if c == '/' {
            token_step(TokenType::Slash, p, p + 1, l)
        } else if c == '*' {
            token_step(TokenType::Star, p, p + 1, l)
        } else if c == '!' {
            if p + 1 < s.len() && s[p + 1] == '=' {
                token_step(TokenType::BangEqual, p, p + 2, l)
            } else {
                token_step(TokenType::Bang, p, p + 1, l)
            }
        } else if c == '=' {
            if p + 1 < s.len() && s[p + 1] == '=' {
                token_step(TokenType::EqualEqual, p, p + 2, l)
            } else {
                token_step(TokenType::Equal, p, p + 1, l)
            }
        } else if c == '<' {
            if p + 1 < s.len() && s[p + 1] == '=' {
                token_step(TokenType::LessEqual, p, p + 2, l)
            } else {
                token_step(TokenType::Less, p, p + 1, l)
            }
        } else if c == '>' {
            if p + 1 < s.len() && s[p + 1] == '=' {
                token_step(TokenType::GreaterEqual, p, p + 2, l)
            } else {
                token_step(TokenType::Greater, p, p + 1, l)
            }
        } else if c == '"' {
            let b = string_body_end(s, p + 1);
            let l2 = l + newlines_between(s, p + 1, b);
            if b >= s.len() {
                ScanStep { start: p, next: s.len() as int, line: l2, result: Err(('"', l)) }
            } else {
                token_step(TokenType::String, p, b + 1, l2)
            }
        } else {
            ScanStep { start: p, next: p + 1, line: l, result: Err((c, l)) }
        }
    }
}

/// Every scan step stays within the text, moves forward, and counts at most
/// one line per character it passes; a step that yields an error or a token
/// other than end-of-input strictly advances.
pub proof fn lemma_spec_scan_bounds(s: Seq<char>, cur: int, line: int)
    requires
        0 <= cur <= s.len(),
    ensures
        ({
            let st = spec_scan(s, cur, line);
            &&& cur <= st.start <= st.next <= s.len()
            &&& line <= st.line
            &&& st.line - line <= st.next - cur
            &&& (st.result matches Ok((ty, length, tline)) ==> length == st.next - st.start
                && line <= tline <= st.line && (ty != TokenType::EOF ==> st.next > st.start) && (
            ty == TokenType::EOF ==> st.start == st.next == s.len() && tline == st.line))
            &&& (st.result is Err ==> st.next > cur && st.next > st.start)
        }),
{
    lemma_skip_ws_bounds(s, cur, line);
    let (p, l) = skip_ws(s, cur, line);
    if p < s.len() {
        let c = s[p];
        if is_alpha(c) {
            lemma_ident_end_bounds(s, p + 1);
            assert(ident_end(s, p) == ident_end(s, p + 1));
        } else if decimal_digit(c) {
            lemma_digits_end_bounds(s, p + 1);
            assert(digits_end(s, p) == digits_end(s, p + 1));
            let d = digits_end(s, p);
            if d + 1 < s.len() && s[d] == '.' && decimal_digit(s[d + 1]) {
                lemma_digits_end_bounds(s, d + 1);
            }
        } else if c == '"' {
            lemma_string_body_end_bounds(s, p + 1);
            lemma_newlines_between_bounds(s, p + 1, string_body_end(s, p + 1));
        }
    }
}

/// Extending a range by one character on the right adds its newline, if any.
pub proof fn lemma_newlines_extend(s: Seq<char>, from: int, to: int)
    requires
        0 <= from <= to < s.len(),
    ensures
        newlines_between(s, from, to + 1) == newlines_between(s, from, to) + (if s[to] == '\n' {
            1int
        } else {
            0int
        }),
    decreases to - from,
{
    if from < to {
        lemma_newlines_extend(s, from + 1, to);
    } else {
        assert(newlines_between(s, from + 1, to + 1) == 0);
        assert(newlines_between(s, from, to) == 0);
    }
}

fn digit_char(c: char) -> (r: bool)
    ensures
        r == decimal_digit(c),
{
    let u = c as u32;
    ('0' as u32) <= u && u <= ('9' as u32)
}

fn alpha_char(c: char) -> (r: bool)
    ensures
        r == is_alpha(c),
{
    let u = c as u32;
    (('a' as u32) <= u && u <= ('z' as u32)) || (('A' as u32) <= u && u <= ('Z' as u32)) || c == '_'
}

fn alnum_char(c: char) -> (r: bool)
    ensures
        r == is_alnum(c),
{
    alpha_char(c) || digit_char(c)
}

/// The scanner: the source as a sequence of Unicode scalar values, the start
/// of the token being scanned, the position one past what has been consumed,
/// and the current line.
pub struct Scanner {
    pub input: Vec<char>,
    pub start: usize,
    pub current: usize,
    pub line: usize,
}

impl Scanner {
    /// Positions stay within the source, and the line counter keeps room to
    /// grow by at most one per remaining character.
    pub open spec fn wf(self) -> bool {
        &&& self.input@.len() < usize::MAX
        &&& self.start <= self.input@.len()
        &&& self.current <= self.input@.len()
        &&& self.line + self.input@.len() - self.current < usize::MAX
    }

    pub fn new(input: String) -> (r: Scanner)
        requires
            input@.len() + 1 < usize::MAX,
        ensures
            r.wf(),
            r.input@ == input@,
            r.start == 0,
            r.current == 0,
            r.line == 1,
    {
        Scanner::with_line(input, 1)
    }

    /// A scanner that starts counting at the given line, for a caller that
    /// feeds source a piece at a time.
    pub fn with_line(input: String, line: usize) -> (r: Scanner)
        requires
            input@.len() + line < usize::MAX,
        ensures
            r.wf(),
            r.input@ == input@,
            r.start == 0,
            r.current == 0,
            r.line == line,
    {
        let n = input.as_str().unicode_len();
        let mut chars: Vec<char> = Vec::new();
        let mut i: usize = 0;
        while i < n
            invariant
                i <= n,
                n == input@.len(),
                chars@ == input@.take(i as int),
            decreases n - i,
        {
            chars.push(input.as_str().get_char(i));
            proof {
                assert(chars@ =~= input@.take(i + 1 as int));
            }
            i = i + 1;
        }
        proof {
            assert(chars@ =~= input@);
        }
        Scanner { input: chars, start: 0, current: 0, line }
    }

    pub(crate) fn is_at_end(&self) -> (r: bool)
        ensures
            r == (self.current >= self.input@.len()),
    {
        self.current >= self.input.len()
    }

    /// The character at the scanner's position, or `'\0'` at the end.
    pub(crate) fn peek(&self) -> (c: char)
        requires
            self.wf(),
        ensures
            c == (if self.current < self.input@.len() {
                self.input@[self.current as int]
            } else {
                '\0'
            }),
    {
        if self.current < self.input.len() {
            self.input[self.current]
        } else {
            '\0'
        }
    }

    /// The character one past the scanner's position, or `'\0'` at the end.
    pub(crate) fn peek_next(&self) -> (c: char)
        requires
            self.wf(),
        ensures
            c == (if self.current + 1 < self.input@.len() {
                self.input@[self.current + 1]
            } else {
                '\0'
            }),
    {
        if self.current + 1 < self.input.len() {
            self.input[self.current + 1]
        } else {
            '\0'
        }
    }

    /// Consume and return one character.
    pub fn advance(&mut self) -> (c: char)
        requires
            old(self).wf(),
            old(self).current < old(self).input@.len(),
        ensures
            final(self).wf(),
            c == old(self).input@[old(self).current as int],
            final(self).current == old(self).current + 1,
            final(self).input@ == old(self).input@,
            final(self).start == old(self).start,
            final(self).line == old(self).line,
    {
        let c = self.input[self.current];
        self.current = self.current + 1;
        c
    }

    /// Consume the next character exactly when it is the expected one.
    pub(crate) fn match_char(&mut self, expected: char) -> (r: bool)
        requires
            old(self).wf(),
        ensures
            final(self).wf(),
            r == (old(self).current < old(self).input@.len() && old(self).input@[old(
                self,
            ).current as int] == expected),
            final(self).current == old(self).current + (if r {
                1int
            } else {
                0int
            }),
            final(self).input@ == old(self).input@,
            final(self).start == old(self).start,
            final(self).line == old(self).line,
    {
        if self.is_at_end() {
            return false;
        }
        if self.input[self.current] != expected {
            return false;
        }
        self.current = self.current + 1;
        true
    }

    /// The token spanning from `start` to the scanner's position.
    pub(crate) fn make_token(&self, ty: TokenType) -> (t: Token)
        requires
            self.start <= self.current,
        ensures
            t == (Token {
                ty,
                start: self.start,
                length: (self.current - self.start) as usize,
                line: self.line,
            }),
    {
        Token::new(ty, self.start, self.current - self.start, self.line)
    }

    /// The scan error for an offending character.
    pub(crate) fn error_token(&self, c: char, line_no: usize) -> (e: Error)
        ensures
            e == Error::ScanError(c, line_no),
    {
        Error::ScanError(c, line_no)
    }

    /// Skip whitespace and `//` comments, counting lines.
    #[verifier::loop_isolation(false)]
    pub(crate) fn skip_whitespace(&mut self)
        requires
            old(self).wf(),
        ensures
            final(self).wf(),
            final(self).input@ == old(self).input@,
            final(self).start == old(self).start,
            (final(self).current as int, final(self).line as int) == skip_ws(
                old(self).input@,
                old(self).current as int,
                old(self).line as int,
            ),
    {
        loop
            invariant
                self.wf(),
                self.input@ == old(self).input@,
                self.start == old(self).start,
                skip_ws(self.input@, self.current as int, self.line as int) == skip_ws(
                    old(self).input@,
                    old(self).current as int,
                    old(self).line as int,
                ),
            decreases self.input@.len() - self.current,
        {
            if self.current >= self.input.len() {
                break;
            }
            let c = self.input[self.current];
            if c == ' ' || c == '\r' || c == '\t' {
                self.current = self.current + 1;
            } else if c == '\n' {
                self.line = self.line + 1;
                self.current = self.current + 1;
            } else if c == '/' {
                if self.current + 1 < self.input.len() && self.input[self.current + 1] == '/' {
                    let ghost comment_from = self.current + 2;
                    let ghost line_snap = self.line;
                    self.current = self.current + 2;
                    while self.current < self.input.len() && self.input[self.current] != '\n'
                        invariant
                            self.wf(),
                            self.input@ == old(self).input@,
                            self.start == old(self).start,
                            self.line == line_snap,
                            comment_from <= self.current <= self.input@.len(),
                            line_comment_end(self.input@, comment_from as int) == line_comment_end(
                                self.input@,
                                self.current as int,
                            ),
                        decreases self.input@.len() - self.current,
                    {
                        self.current = self.current + 1;
                    }
                    proof {
                        assert(line_comment_end(self.input@, comment_from as int)
                            == self.current as int);
                    }
                } else {
                    break;
                }
            } else {
                break;
            }
        }
    }

    /// Scan an identifier or keyword; the first character is already consumed.
    #[verifier::loop_isolation(false)]
    fn identifier(&mut self) -> (r: Result<Token, Error>)
        requires
            old(self).wf(),
            old(self).current == old(self).start + 1,
            old(self).start < old(self).input@.len(),
            is_alpha(old(self).input@[old(self).start as int]),
        ensures
            final(self).wf(),
            final(self).input@ == old(self).input@,
            final(self).start == old(self).start,
            final(self).line == old(self).line,
            final(self).current == ident_end(old(self).input@, old(self).start as int),
            r == Ok::<Token, Error>(
                Token {
                    ty: keyword_type(
                        old(self).input@.subrange(
                            old(self).start as int,
                            ident_end(old(self).input@, old(self).start as int),
                        ),
                    ),
                    start: old(self).start,
                    length: (ident_end(old(self).input@, old(self).start as int) - old(
                        self,
                    ).start) as usize,
                    line: old(self).line,
                },
            ),
    {
        proof {
            lemma_ident_end_bounds(self.input@, self.start + 1);
        }
        loop
            invariant
                self.wf(),
                self.input@ == old(self).input@,
                self.start == old(self).start,
                self.line == old(self).line,
                old(self).current <= self.current <= self.input@.len(),
                ident_end(self.input@, old(self).current as int) == ident_end(
                    self.input@,
                    self.current as int,
                ),
            decreases self.input@.len() - self.current,
        {
            if self.current >= self.input.len() {
                break;
            }
            let c = self.input[self.current];
            if alnum_char(c) {
                self.current = self.current + 1;
            } else {
                break;
            }
        }
        proof {
            assert(ident_end(self.input@, old(self).current as int) == self.current as int);
            assert(ident_end(self.input@, old(self).start as int) == ident_end(
                self.input@,
                old(self).current as int,
            ));
        }
        let ty = self.identifier_type();
        Ok(self.make_token(ty))
    }

    /// Which keyword, if any, the current lexeme spells.
    pub(crate) fn identifier_type(&self) -> (r: TokenType)
        requires
            self.wf(),
            self.start < self.current,
            self.current <= self.input@.len(),
        ensures
            r == keyword_type(self.input@.subrange(self.start as int, self.current as int)),
    {
        proof {
            reveal_strlit("and");
            reveal_strlit("class");
            reveal_strlit("else");
            reveal_strlit("false");
            reveal_strlit("for");
            reveal_strlit("fun");
            reveal_strlit("if");
            reveal_strlit("nil");
            reveal_strlit("or");
            reveal_strlit("print");
            reveal_strlit("return");
            reveal_strlit("super");
            reveal_strlit("this");
            reveal_strlit("true");
            reveal_strlit("var");
            reveal_strlit("while");
            assert(self.input@.subrange(self.start as int, self.current as int).len()
                == self.current - self.start);
            assert(self.input@.subrange(self.start as int, self.current as int)[0]
                == self.input@[self.start as int]);
        }
        let first_char = self.input[self.start];
        if first_char == 'a' {
            self.check_keyword("and", TokenType::And)
        } else if first_char == 'c' {
            self.check_keyword("class", TokenType::Class)
        } else if first_char == 'e' {
            self.check_keyword("else", TokenType::Else)
        } else if first_char == 'i' {
            self.check_keyword("if", TokenType::If)
        } else if first_char == 'n' {
            self.check_keyword("nil", TokenType::Nil)
        } else if first_char == 'o' {
            self.check_keyword("or", TokenType::Or)
        } else if first_char == 'p' {
            self.check_keyword("print", TokenType::Print)
        } else if first_char == 'r' {
            self.check_keyword("return", TokenType::Return)
        } else if first_char == 's' {
            self.check_keyword("super", TokenType::Super)
        } else if first_char == 'v' {
            self.check_keyword("var", TokenType::Var)
        } else if first_char == 'w' {
            self.check_keyword("while", TokenType::While)
        } else if first_char == 'f' {
            if self.current - self.start >= 2 {
                proof {
                    assert(self.input@.subrange(self.start as int, self.current as int)[1]
                        == self.input@[self.start + 1]);
                }
                let second_char = self.input[self.start + 1];
                if second_char == 'a' {
                    self.check_keyword("false", TokenType::False)
                } else if second_char == 'o' {
                    self.check_keyword("for", TokenType::For)
                } else if second_char == 'u' {
                    self.check_keyword("fun", TokenType::Fun)
                } else {
                    TokenType::Identifier
                }
            } else {
                TokenType::Identifier
            }
        } else if first_char == 't' {
            if self.current - self.start >= 2 {
                proof {
                    assert(self.input@.subrange(self.start as int, self.current as int)[1]
                        == self.input@[self.start + 1]);
                }
                let second_char = self.input[self.start + 1];
                if second_char == 'h' {
                    self.check_keyword("this", TokenType::This)
                } else if second_char == 'r' {
                    self.check_keyword("true", TokenType::True)
                } else {
                    TokenType::Identifier
                }
            } else {
                TokenType::Identifier
            }
        } else {
            TokenType::Identifier
        }
    }

    /// Compare the current lexeme against one keyword, in full.
    #[verifier::loop_isolation(false)]
    pub(crate) fn check_keyword(&self, rest: &str, ty: TokenType) -> (r: TokenType)
        requires
            self.wf(),
            self.start <= self.current,
            self.current <= self.input@.len(),
        ensures
            r == (if self.input@.subrange(self.start as int, self.current as int) == rest@ {
                ty
            } else {
                TokenType::Identifier
            }),
    {
        let length = self.current - self.start;
        if rest.unicode_len() != length {
            return TokenType::Identifier;
        }
        let mut i: usize = 0;
        while i < length
            invariant
                i <= length,
                forall|k: int|
                    0 <= k < i ==> self.input@[self.start + k] == #[trigger] rest@[k],
            decreases length - i,
        {
            if self.input[self.start + i] != rest.get_char(i) {
                proof {
                    assert(self.input@.subrange(self.start as int, self.current as int)[i as int]
                        != rest@[i as int]);
                }
                return TokenType::Identifier;
            }
            i = i + 1;
        }
        proof {
            assert(self.input@.subrange(self.start as int, self.current as int) =~= rest@);
        }
        ty
    }

    /// Scan a number; the first digit is already consumed.
    #[verifier::loop_isolation(false)]
    fn number(&mut self) -> (r: Result<Token, Error>)
        requires
            old(self).wf(),
            old(self).current == old(self).start + 1,
            old(self).start < old(self).input@.len(),
            decimal_digit(old(self).input@[old(self).start as int]),
        ensures
            final(self).wf(),
            final(self).input@ == old(self).input@,
            final(self).start == old(self).start,
            final(self).line == old(self).line,
            final(self).current == number_end(old(self).input@, old(self).start as int),
            r == Ok::<Token, Error>(
                Token {
                    ty: TokenType::Number,
                    start: old(self).start,
                    length: (number_end(old(self).input@, old(self).start as int) - old(
                        self,
                    ).start) as usize,
                    line: old(self).line,
                },
            ),
    {
        proof {
            lemma_digits_end_bounds(self.input@, self.start + 1);
        }
        loop
            invariant
                self.wf(),
                self.input@ == old(self).input@,
                self.start == old(self).start,
                self.line == old(self).line,
                old(self).current <= self.current <= self.input@.len(),
                digits_end(self.input@, old(self).current as int) == digits_end(
                    self.input@,
                    self.current as int,
                ),
            decreases self.input@.len() - self.current,
        {
            if self.current >= self.input.len() {
                break;
            }
            if digit_char(self.input[self.current]) {
                self.current = self.current + 1;
            } else {
                break;
            }
        }
        proof {
            assert(digits_end(self.input@, old(self).current as int) == self.current as int);
            assert(digits_end(self.input@, old(self).start as int) == self.current as int);
        }
        let ghost d = self.current as int;
        if self.current + 1 < self.input.len() && self.input[self.current] == '.' && digit_char(
            self.input[self.current + 1],
        ) {
            self.current = self.current + 1;
            proof {
                lemma_digits_end_bounds(self.input@, d + 1);
            }
            loop
                invariant
                    self.wf(),
                    self.input@ == old(self).input@,
                    self.start == old(self).start,
                    self.line == old(self).line,
                    d + 1 <= self.current <= self.input@.len(),
                    digits_end(self.input@, d + 1) == digits_end(self.input@, self.current as int),
                decreases self.input@.len() - self.current,
            {
                if self.current >= self.input.len() {
                    break;
                }
                if digit_char(self.input[self.current]) {
                    self.current = self.current + 1;
                } else {
                    break;
                }
            }
            proof {
                assert(digits_end(self.input@, d + 1) == self.current as int);
            }
        }
        Ok(self.make_token(TokenType::Number))
    }

    /// Scan a string literal; the opening quote is already consumed. An
    /// unterminated string is a scan error carrying the opening quote's line.
    #[verifier::loop_isolation(false)]
    fn string(&mut self) -> (r: Result<Token, Error>)
        requires
            old(self).wf(),
            old(self).current == old(self).start + 1,
            old(self).start < old(self).input@.len(),
            old(self).input@[old(self).start as int] == '"',
        ensures
            final(self).wf(),
            final(self).input@ == old(self).input@,
            final(self).start == old(self).start,
            ({
                let s = old(self).input@;
                let b = string_body_end(s, old(self).start + 1);
                let l2 = old(self).line + newlines_between(s, old(self).start + 1, b);
                &&& final(self).line == l2
                &&& (b >= s.len() ==> final(self).current == s.len() && r == Err::<Token, Error>(
                    Error::ScanError('"', old(self).line),
                ))
                &&& (b < s.len() ==> final(self).current == b + 1 && r == Ok::<Token, Error>(
                    Token {
                        ty: TokenType::String,
                        start: old(self).start,
                        length: (b + 1 - old(self).start) as usize,
                        line: l2 as usize,
                    },
                ))
            }),
    {
        let opening_line = self.line;
        proof {
            lemma_string_body_end_bounds(self.input@, self.start + 1);
            lemma_newlines_between_bounds(
                self.input@,
                self.start + 1,
                string_body_end(self.input@, self.start + 1),
            );
        }
        loop
            invariant
                self.wf(),
                self.input@ == old(self).input@,
                self.start == old(self).start,
                old(self).current <= self.current <= self.input@.len(),
                string_body_end(self.input@, old(self).current as int) == string_body_end(
                    self.input@,
                    self.current as int,
                ),
                self.line == old(self).line + newlines_between(
                    self.input@,
                    old(self).current as int,
                    self.current as int,
                ),
            decreases self.input@.len() - self.current,
        {
            if self.current >= self.input.len() {
                break;
            }
            let c = self.input[self.current];
            if c == '"' {
                break;
            }
            proof {
                lemma_newlines_extend(self.input@, old(self).current as int, self.current as int);
                lemma_newlines_between_bounds(
                    self.input@,
                    old(self).current as int,
                    self.current as int,
                );
            }
            if c == '\n' {
                self.line = self.line + 1;
            }
            self.current = self.current + 1;
        }
        proof {
            assert(string_body_end(self.input@, old(self).current as int) == self.current as int);
        }
        if self.current >= self.input.len() {
            Err(self.error_token('"', opening_line))
        } else {
            self.current = self.current + 1;
            Ok(self.make_token(TokenType::String))
        }
    }

    /// Scan one token, skipping whitespace and comments first. Lexical errors
    /// come back as a scan error, not a panic: an unknown character carries
    /// itself and its line, an unterminated string carries the line of its
    /// opening quote. At the end of input every call yields the terminal
    /// end-of-input token. The whole step equals the spec-level tokenizer.
    pub fn scan_token(&mut self) -> (r: Result<Token, Error>)
        requires
            old(self).wf(),
        ensures
            final(self).wf(),
            final(self).input@ == old(self).input@,
            ({
                let st = spec_scan(old(self).input@, old(self).current as int, old(self).line as int);
                &&& final(self).start == st.start
                &&& final(self).current == st.next
                &&& final(self).line == st.line
                &&& (match st.result {
                    Ok((ty, length, tline)) => r == Ok::<Token, Error>(
                        Token {
                            ty,
                            start: st.start as usize,
                            length: length as usize,
                            line: tline as usize,
                        },
                    ),
                    Err((c, eline)) => r == Err::<Token, Error>(Error::ScanError(c, eline as usize)),
                })
            }),
    {
        proof {
            lemma_skip_ws_bounds(self.input@, self.current as int, self.line as int);
        }
        self.skip_whitespace();
        self.start = self.current;

        if self.is_at_end() {
            return Ok(self.make_token(TokenType::EOF));
        }

        let c = self.advance();
        if alpha_char(c) {
            return self.identifier();
        }
        if digit_char(c) {
            return self.number();
        }

        match c {
            '(' => Ok(self.make_token(TokenType::LeftParen)),
            ')' => Ok(self.make_token(TokenType::RightParen)),
            '{' => Ok(self.make_token(TokenType::LeftBrace)),
            '}' => Ok(self.make_token(TokenType::RightBrace)),
            ';' => Ok(self.make_token(TokenType::Semicolon)),
            ',' => Ok(self.make_token(TokenType::Comma)),
            '.' => Ok(self.make_token(TokenType::Dot)),
            '-' => Ok(self.make_token(TokenType::Minus)),
            '+' => Ok(self.make_token(TokenType::Plus)),
            '/' => Ok(self.make_token(TokenType::Slash)),
            '*' => Ok(self.make_token(TokenType::Star)),
            '!' => self.match_second('=', TokenType::BangEqual, TokenType::Bang),
            '=' => self.match_second('=', TokenType::EqualEqual, TokenType::Equal),
            '<' => self.match_second('=', TokenType::LessEqual, TokenType::Less),
            '>' => self.match_second('=', TokenType::GreaterEqual, TokenType::Greater),
            '"' => self.string(),
            _ => Err(self.error_token(c, self.line)),
        }
    }

    /// Scan a one- or two-character operator: consume the expected second
    /// character when present, fall back to the one-character kind otherwise.
    fn match_second(&mut self, expected: char, two_kind: TokenType, one_kind: TokenType) -> (r:
        Result<Token, Error>)
        requires
            old(self).wf(),
            old(self).current == old(self).start + 1,
        ensures
            final(self).wf(),
            final(self).input@ == old(self).input@,
            final(self).start == old(self).start,
            final(self).line == old(self).line,
            ({
                let s = old(self).input@;
                let matched = old(self).current < s.len() && s[old(self).current as int]
                    == expected;
                &&& final(self).current == old(self).current + (if matched {
                    1int
                } else {
                    0int
                })
                &&& r == Ok::<Token, Error>(
                    Token {
                        ty: (if matched {
                            two_kind
                        } else {
                            one_kind
                        }),
                        start: old(self).start,
                        length: (if matched {
                            2
                        } else {
                            1
                        }),
                        line: old(self).line,
                    },
                )
            }),
    {
        if self.match_char(expected) {
            Ok(self.make_token(two_kind))
        } else {
            Ok(self.make_token(one_kind))
        }
    }
}

/// Scanning past any scan errors to the next token: the step that yields the
/// token, and the errors met on the way, in order.
pub open spec fn spec_scan_to_next(s: Seq<char>, cur: int, line: int) -> (ScanStep, Seq<Error>)
    recommends
        0 <= cur <= s.len(),
    decreases s.len() - cur,
    via spec_scan_to_next_decreases
{
    let st = spec_scan(s, cur, line);
    match st.result {
        Ok(t) => (st, Seq::empty()),
        Err((c, l)) => {
            if 0 <= cur <= s.len() {
                let rest = spec_scan_to_next(s, st.next, st.line);
                (rest.0, seq![Error::ScanError(c, l as usize)] + rest.1)
            } else {
                (st, Seq::empty())
            }
        },
    }
}

#[via_fn]
proof fn spec_scan_to_next_decreases(s: Seq<char>, cur: int, line: int) {
    if 0 <= cur <= s.len() {
        lemma_spec_scan_bounds(s, cur, line);
    }
}


/// The lexeme of a number token is a well-shaped numeral.
pub proof fn lemma_number_lexeme(s: Seq<char>, p: int)
    requires
        0 <= p < s.len(),
        decimal_digit(s[p]),
    ensures
        is_numeral(s.subrange(p, number_end(s, p))),
{
    lemma_digits_end_bounds(s, p);
    let d = digits_end(s, p);
    if d + 1 < s.len() && s[d] == '.' && decimal_digit(s[d + 1]) {
        lemma_digits_end_bounds(s, d + 1);
        let e = digits_end(s, d + 1);
        let lex = s.subrange(p, e);
        let i = d - p;
        assert(lex[i] == '.');
        assert(e >= d + 2);
        assert(all_digits(lex, 0, i)) by {
            assert forall|k: int| 0 <= k < i implies decimal_digit(#[trigger] lex[k]) by {
                assert(lex[k] == s[p + k]);
            }
        }
        assert(all_digits(lex, i + 1, lex.len() as int)) by {
            assert forall|k: int| i + 1 <= k < lex.len() implies decimal_digit(
                #[trigger] lex[k],
            ) by {
                assert(lex[k] == s[p + k]);
            }
        }
        assert(is_numeral(lex));
    } else {
        let lex = s.subrange(p, d);
        assert(lex.len() > 0);
        assert(all_digits(lex, 0, lex.len() as int)) by {
            assert forall|k: int| 0 <= k < lex.len() implies decimal_digit(#[trigger] lex[k]) by {
                assert(lex[k] == s[p + k]);
            }
        }
        assert(is_numeral(lex));
    }
}

/// A keyword lookup never yields a literal, operator or end-of-input kind.
pub proof fn lemma_keyword_type_kinds(lex: Seq<char>)
    ensures
        keyword_type(lex) != TokenType::Number,
        keyword_type(lex) != TokenType::String,
        keyword_type(lex) != TokenType::EOF,
{
}

/// Every token a scan step yields spans exactly the source up to the
/// scanner's new position; a number token's lexeme is a numeral.
pub proof fn lemma_spec_scan_token(s: Seq<char>, cur: int, line: int)
    requires
        0 <= cur <= s.len(),
    ensures
        ({
            let st = spec_scan(s, cur, line);
            st.result matches Ok((ty, length, tline)) ==> st.start + length == st.next && (ty
                == TokenType::Number ==> is_numeral(s.subrange(st.start, st.next)))
        }),
{
    lemma_spec_scan_bounds(s, cur, line);
    let (p, l) = skip_ws(s, cur, line);
    lemma_skip_ws_bounds(s, cur, line);
    if p < s.len() {
        let c = s[p];
        if is_alpha(c) {
            lemma_keyword_type_kinds(s.subrange(p, ident_end(s, p)));
        } else if decimal_digit(c) {
            lemma_number_lexeme(s, p);
        }
    }
}

/// Prepending a scan error to a sequence of scan errors keeps every element
/// a scan error.
proof fn lemma_scan_error_prepend(x: Error, rest: Seq<Error>)
    requires
        x is ScanError,
        forall|i: int| 0 <= i < rest.len() ==> (#[trigger] rest[i]) is ScanError,
    ensures
        forall|i: int|
            0 <= i < (seq![x] + rest).len() ==> (#[trigger] (seq![x] + rest)[i]) is ScanError,
{
    assert forall|i: int| 0 <= i < (seq![x] + rest).len() implies ((seq![x] + rest)[i])
        is ScanError by {
        if i == 0 {
            assert((seq![x] + rest)[0] == x);
        } else {
            assert((seq![x] + rest)[i] == rest[i - 1]);
        }
    }
}

/// What `spec_scan_to_next` yields: a token (never an error), spanning real
/// source behind the scanner's new position, with progress and line-count
/// bounds as for a single step; and every error met on the way a scan error.
pub proof fn lemma_scan_to_next_ok(s: Seq<char>, cur: int, line: int)
    requires
        0 <= cur <= s.len(),
    ensures
        ({
            let (st, errs) = spec_scan_to_next(s, cur, line);
            &&& cur <= st.start <= st.next <= s.len()
            &&& line <= st.line
            &&& st.result matches Ok((ty, length, tline)) && length == st.next - st.start && (ty
                != TokenType::EOF ==> length >= 1) && (ty == TokenType::EOF ==> st.start == st.next
                == s.len() && length == 0) && (ty == TokenType::Number ==> is_numeral(
                s.subrange(st.start, st.next),
            ))
            &&& forall|i: int| 0 <= i < errs.len() ==> (#[trigger] errs[i]) is ScanError
        }),
    decreases s.len() - cur,
{
    lemma_spec_scan_bounds(s, cur, line);
    lemma_spec_scan_token(s, cur, line);
    let st0 = spec_scan(s, cur, line);
    match st0.result {
        Ok(t) => {},
        Err(e) => {
            lemma_scan_to_next_ok(s, st0.next, st0.line);
            let (c, l) = e;
            let rest = spec_scan_to_next(s, st0.next, st0.line).1;
            lemma_scan_error_prepend(Error::ScanError(c, l as usize), rest);
            assert(spec_scan_to_next(s, cur, line).1 == seq![Error::ScanError(c, l as usize)]
                + rest);
        },
    }
}

/// Where the very first scan step is an error, it heads the error list that
/// scanning to the next token collects.
pub proof fn lemma_scan_to_next_first_error(s: Seq<char>, cur: int, line: int)
    requires
        0 <= cur <= s.len(),
    ensures
        ({
            let st = spec_scan(s, cur, line);
            st.result matches Err((c, l)) ==> spec_scan_to_next(s, cur, line).1.len() >= 1
                && spec_scan_to_next(s, cur, line).1[0] == Error::ScanError(c, l as usize)
        }),
{
    let st = spec_scan(s, cur, line);
    match st.result {
        Ok(t) => {},
        Err(e) => {
            let (c, l) = e;
            let rest = spec_scan_to_next(s, st.next, st.line).1;
            assert(spec_scan_to_next(s, cur, line).1 == seq![Error::ScanError(c, l as usize)]
                + rest);
            lemma_prepend_len(Error::ScanError(c, l as usize), rest);
        },
    }
}

/// One more error in front makes the error list longer, and stands first.
proof fn lemma_prepend_len(x: Error, rest: Seq<Error>)
    ensures
        (seq![x] + rest).len() == 1 + rest.len(),
        (seq![x] + rest)[0] == x,
{
}

/// Where scanning to the next token meets no error, the very next scan step
/// is a token.
pub proof fn lemma_no_errors_means_ok(s: Seq<char>, cur: int, line: int)
    requires
        0 <= cur <= s.len(),
        spec_scan_to_next(s, cur, line).1.len() == 0,
    ensures
        spec_scan(s, cur, line).result is Ok,
        spec_scan_to_next(s, cur, line).0 == spec_scan(s, cur, line),
{
    let st = spec_scan(s, cur, line);
    match st.result {
        Ok(t) => {
            assert(spec_scan_to_next(s, cur, line) == (st, Seq::<Error>::empty()));
        },
        Err(e) => {
            let (c, l) = e;
            let rest = spec_scan_to_next(s, st.next, st.line).1;
            assert(spec_scan_to_next(s, cur, line).1 == seq![Error::ScanError(c, l as usize)]
                + rest);
            lemma_prepend_len(Error::ScanError(c, l as usize), rest);
            assert(false);
        },
    }
}

impl Scanner {
    /// Scan forward to the next token, collecting the scan errors met on the
    /// way instead of stopping at them.
    #[verifier::loop_isolation(false)]
    pub fn scan_to_next(&mut self) -> (r: (Option<Token>, Vec<Error>))
        requires
            old(self).wf(),
        ensures
            final(self).wf(),
            final(self).input@ == old(self).input@,
            ({
                let (st, errs) = spec_scan_to_next(
                    old(self).input@,
                    old(self).current as int,
                    old(self).line as int,
                );
                &&& final(self).start == st.start
                &&& final(self).current == st.next
                &&& final(self).line == st.line
                &&& r.1@ == errs
                &&& (st.result matches Ok((ty, length, tline)) && r.0 == Some(
                    Token {
                        ty,
                        start: st.start as usize,
                        length: length as usize,
                        line: tline as usize,
                    },
                ))
            }),
    {
        let mut errors: Vec<Error> = Vec::new();
        loop
            invariant
                self.wf(),
                self.input@ == old(self).input@,
                ({
                    let full = spec_scan_to_next(
                        old(self).input@,
                        old(self).current as int,
                        old(self).line as int,
                    );
                    let now = spec_scan_to_next(self.input@, self.current as int, self.line as int);
                    now.0 == full.0 && full.1 == errors@ + now.1
                }),
            decreases self.input@.len() - self.current,
        {
            let ghost pre = *self;
            let ghost errors_before = errors@;
            proof {
                lemma_spec_scan_bounds(self.input@, self.current as int, self.line as int);
            }
            match self.scan_token() {
                Ok(token) => {
                    proof {
                        let full = spec_scan_to_next(
                            old(self).input@,
                            old(self).current as int,
                            old(self).line as int,
                        );
                        assert(full.1 =~= errors@);
                    }
                    return (Some(token), errors);
                },
                Err(e) => {
                    errors.push(e);
                    proof {
                        let full = spec_scan_to_next(
                            old(self).input@,
                            old(self).current as int,
                            old(self).line as int,
                        );
                        let now = spec_scan_to_next(
                            self.input@,
                            self.current as int,
                            self.line as int,
                        );
                        let before = spec_scan_to_next(
                            pre.input@,
                            pre.current as int,
                            pre.line as int,
                        );
                        assert(before.0 == now.0 && before.1 == seq![e] + now.1);
                        assert(full.1 =~= errors@ + now.1);
                    }
                },
            }
        }
    }
}

} // verus!

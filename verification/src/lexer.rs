//! Lexical analysis: a position-tracked character source and a lexer that
//! turns it into a token sequence, or halts at the first unrecognized
//! character with a terminal error.

use vstd::prelude::*;
use vstd::string::StrSliceExecFns;
use vstd::string::StringExecFns;

use crate::types::FloatLit;

verus! {

// ---------------------------------------------------------------------------
// Character classes
// ---------------------------------------------------------------------------

/// Control characters and space: code points 0 through 32. They separate
/// tokens and are skipped.
pub open spec fn is_whitespace_char(c: char) -> bool {
    c as u32 <= 32
}

/// A decimal digit.
pub open spec fn is_digit_char(c: char) -> bool {
    48 <= c as u32 <= 57
}

/// A character that may start an identifier or keyword: an ASCII letter or
/// an underscore.
pub open spec fn is_word_start_char(c: char) -> bool {
    ||| 65 <= c as u32 <= 90
    ||| 97 <= c as u32 <= 122
    ||| c as u32 == 95
}

/// A character that may continue an identifier or keyword.
pub open spec fn is_word_char(c: char) -> bool {
    is_word_start_char(c) || is_digit_char(c)
}

/// The numeric value of a decimal digit character.
pub open spec fn digit_value(c: char) -> nat {
    (c as u32 - 48) as nat
}

fn is_whitespace(c: char) -> (r: bool)
    ensures
        r == is_whitespace_char(c),
{
    c as u32 <= 32
}

fn is_digit(c: char) -> (r: bool)
    ensures
        r == is_digit_char(c),
{
    let u = c as u32;
    48 <= u && u <= 57
}

fn is_word_start(c: char) -> (r: bool)
    ensures
        r == is_word_start_char(c),
{
    let u = c as u32;
    (65 <= u && u <= 90) || (97 <= u && u <= 122) || u == 95
}

fn is_word(c: char) -> (r: bool)
    ensures
        r == is_word_char(c),
{
    is_word_start(c) || is_digit(c)
}

// ---------------------------------------------------------------------------
// Tokens
// ---------------------------------------------------------------------------

/// The classification of one lexical unit.
#[derive(PartialEq, Clone, Debug)]
pub enum TokenType {
    Identifier(String),
    IntLiteral(i32),
    FloatLiteral(FloatLit),
    OpeningParenthesis,
    ClosingParenthesis,
    OpeningCurlyBrace,
    ClosingCurlyBrace,
    Semicolon,
    Equals,
    Dot,
    Plus,
    Minus,
    Asterisk,
    Slash,
    If,
    Else,
    While,
    Let,
    For,
}

/// A classified lexical unit carrying the 1-based line and column of its
/// first character.
#[derive(PartialEq, Clone, Debug)]
pub struct Token {
    pub line: usize,
    pub column: usize,
    pub token_type: TokenType,
}

/// The mathematical model of a `TokenType`: strings become character
/// sequences, literal payloads become unbounded integers.
pub enum SpecTokenType {
    Identifier(Seq<char>),
    IntLiteral(int),
    /// sign, clamped mantissa, digits after the point
    FloatLiteral(bool, nat, nat),
    OpeningParenthesis,
    ClosingParenthesis,
    OpeningCurlyBrace,
    ClosingCurlyBrace,
    Semicolon,
    Equals,
    Dot,
    Plus,
    Minus,
    Asterisk,
    Slash,
    If,
    Else,
    While,
    Let,
    For,
}

/// The mathematical model of a `Token`.
pub struct SpecToken {
    pub token_type: SpecTokenType,
    pub line: nat,
    pub column: nat,
}

impl View for TokenType {
    type V = SpecTokenType;

    open spec fn view(&self) -> SpecTokenType {
        match *self {
            TokenType::Identifier(ref s) => SpecTokenType::Identifier(s@),
            TokenType::IntLiteral(v) => SpecTokenType::IntLiteral(v as int),
            TokenType::FloatLiteral(f) => SpecTokenType::FloatLiteral(
                f.negative,
                f.mantissa as nat,
                f.frac_digits as nat,
            ),
            TokenType::OpeningParenthesis => SpecTokenType::OpeningParenthesis,
            TokenType::ClosingParenthesis => SpecTokenType::ClosingParenthesis,
            TokenType::OpeningCurlyBrace => SpecTokenType::OpeningCurlyBrace,
            TokenType::ClosingCurlyBrace => SpecTokenType::ClosingCurlyBrace,
            TokenType::Semicolon => SpecTokenType::Semicolon,
            TokenType::Equals => SpecTokenType::Equals,
            TokenType::Dot => SpecTokenType::Dot,
            TokenType::Plus => SpecTokenType::Plus,
            TokenType::Minus => SpecTokenType::Minus,
            TokenType::Asterisk => SpecTokenType::Asterisk,
            TokenType::Slash => SpecTokenType::Slash,
            TokenType::If => SpecTokenType::If,
            TokenType::Else => SpecTokenType::Else,
            TokenType::While => SpecTokenType::While,
            TokenType::Let => SpecTokenType::Let,
            TokenType::For => SpecTokenType::For,
        }
    }
}

impl View for Token {
    type V = SpecToken;

    open spec fn view(&self) -> SpecToken {
        SpecToken {
            token_type: self.token_type@,
            line: self.line as nat,
            column: self.column as nat,
        }
    }
}

/// The models of a sequence of tokens.
pub open spec fn tokens_view(ts: Seq<Token>) -> Seq<SpecToken> {
    ts.map_values(|t: Token| t@)
}

// ---------------------------------------------------------------------------
// Position tracking
// ---------------------------------------------------------------------------

/// The line after consuming `c`: a newline moves to the next line.
pub open spec fn advance_line(line: nat, c: char) -> nat {
    if c == '\n' {
        line + 1
    } else {
        line
    }
}

/// The column after consuming `c`: a newline resets it to 0, any other
/// character advances it by one.
pub open spec fn advance_column(column: nat, c: char) -> nat {
    if c == '\n' {
        0
    } else {
        column + 1
    }
}

// ---------------------------------------------------------------------------
// The lexical grammar, as a recursive specification
// ---------------------------------------------------------------------------

/// The length of the maximal run of digits starting at `i`.
pub open spec fn digit_run_len(s: Seq<char>, i: int) -> nat
    decreases s.len() - i,
    when 0 <= i <= s.len()
{
    if i < s.len() && is_digit_char(s[i]) {
        1 + digit_run_len(s, i + 1)
    } else {
        0
    }
}

/// The length of the maximal run of identifier characters starting at `i`.
pub open spec fn word_run_len(s: Seq<char>, i: int) -> nat
    decreases s.len() - i,
    when 0 <= i <= s.len()
{
    if i < s.len() && is_word_char(s[i]) {
        1 + word_run_len(s, i + 1)
    } else {
        0
    }
}

/// Left-to-right decimal accumulation: the value of starting from `a` and
/// appending every digit of `ds` with `value = value * 10 + digit`.
pub open spec fn accum_digits(a: nat, ds: Seq<char>) -> nat
    decreases ds.len(),
{
    if ds.len() == 0 {
        a
    } else {
        accum_digits(a, ds.drop_last()) * 10 + digit_value(ds.last())
    }
}

/// A digit accumulation clamped to what a `u64` can hold.
pub open spec fn clamp_u64(v: nat) -> nat {
    if v > u64::MAX {
        u64::MAX as nat
    } else {
        v
    }
}

/// A digit accumulation clamped to the magnitude an `i32` can hold.
pub open spec fn clamp_i32_magnitude(v: nat) -> nat {
    if v > i32::MAX {
        i32::MAX as nat
    } else {
        v
    }
}

/// Whether the numeric literal whose digits start at `d` continues past a
/// decimal point: the digit run must be followed immediately by a `.` and
/// then by at least one more digit.
pub open spec fn number_has_fraction(s: Seq<char>, d: int) -> bool {
    let j = d + digit_run_len(s, d);
    &&& j < s.len()
    &&& s[j] == '.'
    &&& j + 1 < s.len()
    &&& is_digit_char(s[j + 1])
}

/// The index one past the last character of the numeric literal whose
/// digits start at `d`.
pub open spec fn number_end(s: Seq<char>, d: int) -> int {
    let j = d + digit_run_len(s, d);
    if number_has_fraction(s, d) {
        j + 1 + digit_run_len(s, j + 1)
    } else {
        j
    }
}

/// Every digit of the numeric literal starting at `d`, the decimal point
/// left out.
pub open spec fn number_digits(s: Seq<char>, d: int) -> Seq<char> {
    let j = d + digit_run_len(s, d);
    if number_has_fraction(s, d) {
        s.subrange(d, j) + s.subrange(j + 1, number_end(s, d))
    } else {
        s.subrange(d, j)
    }
}

/// The token a numeric literal denotes: a float when a fractional part
/// follows, an integer otherwise. The sign from rule folding is applied to
/// the accumulated magnitude.
pub open spec fn number_token_type(s: Seq<char>, d: int, negative: bool) -> SpecTokenType {
    let m = accum_digits(0, number_digits(s, d));
    if number_has_fraction(s, d) {
        let j = d + digit_run_len(s, d);
        SpecTokenType::FloatLiteral(negative, clamp_u64(m), digit_run_len(s, j + 1))
    } else {
        let mag = clamp_i32_magnitude(clamp_u64(m)) as int;
        SpecTokenType::IntLiteral(if negative { -mag } else { mag })
    }
}

/// The keyword token an exact word denotes, or an identifier for any other
/// word. Matching is exact and case-sensitive.
pub open spec fn keyword_or_identifier(w: Seq<char>) -> SpecTokenType {
    if w == "if"@ {
        SpecTokenType::If
    } else if w == "else"@ {
        SpecTokenType::Else
    } else if w == "let"@ {
        SpecTokenType::Let
    } else if w == "while"@ {
        SpecTokenType::While
    } else if w == "for"@ {
        SpecTokenType::For
    } else {
        SpecTokenType::Identifier(w)
    }
}

/// The token a single punctuation character denotes, if any.
pub open spec fn punct_token_type(c: char) -> Option<SpecTokenType> {
    if c == '(' {
        Some(SpecTokenType::OpeningParenthesis)
    } else if c == ')' {
        Some(SpecTokenType::ClosingParenthesis)
    } else if c == '{' {
        Some(SpecTokenType::OpeningCurlyBrace)
    } else if c == '}' {
        Some(SpecTokenType::ClosingCurlyBrace)
    } else if c == '+' {
        Some(SpecTokenType::Plus)
    } else if c == '-' {
        Some(SpecTokenType::Minus)
    } else if c == '*' {
        Some(SpecTokenType::Asterisk)
    } else if c == '/' {
        Some(SpecTokenType::Slash)
    } else if c == ';' {
        Some(SpecTokenType::Semicolon)
    } else if c == '.' {
        Some(SpecTokenType::Dot)
    } else if c == '=' {
        Some(SpecTokenType::Equals)
    } else {
        None
    }
}

/// What scanning one token from position `i` at position (`line`, `column`)
/// yields: a token together with the state after it, the end of the input,
/// or the terminal lexical error.
pub enum SpecStep {
    Tok { token: SpecToken, next: int, line: nat, column: nat },
    Fail { line: nat, column: nat, rest: Seq<char> },
    End { next: int, line: nat, column: nat },
}

/// One step of the lexer: skip whitespace, then scan a single token.
/// A `-` immediately followed by a digit folds into the numeric literal.
/// A token's position is that of its first character, measured after that
/// character is consumed.
pub open spec fn next_token_spec(s: Seq<char>, i: int, line: nat, column: nat) -> SpecStep
    decreases s.len() - i,
    when 0 <= i <= s.len()
{
    if i >= s.len() {
        SpecStep::End { next: i, line, column }
    } else {
        let c = s[i];
        let l1 = advance_line(line, c);
        let c1 = advance_column(column, c);
        if is_whitespace_char(c) {
            next_token_spec(s, i + 1, l1, c1)
        } else if c == '-' && i + 1 < s.len() && is_digit_char(s[i + 1]) {
            let end = number_end(s, i + 1);
            SpecStep::Tok {
                token: SpecToken { token_type: number_token_type(s, i + 1, true), line: l1, column: c1 },
                next: end,
                line: l1,
                column: (c1 + (end - (i + 1))) as nat,
            }
        } else if is_digit_char(c) {
            let end = number_end(s, i);
            SpecStep::Tok {
                token: SpecToken { token_type: number_token_type(s, i, false), line: l1, column: c1 },
                next: end,
                line: l1,
                column: (c1 + (end - (i + 1))) as nat,
            }
        } else if is_word_start_char(c) {
            let end = i + word_run_len(s, i);
            SpecStep::Tok {
                token: SpecToken {
                    token_type: keyword_or_identifier(s.subrange(i, end)),
                    line: l1,
                    column: c1,
                },
                next: end,
                line: l1,
                column: (c1 + (end - (i + 1))) as nat,
            }
        } else if punct_token_type(c) is Some {
            SpecStep::Tok {
                token: SpecToken { token_type: punct_token_type(c)->0, line: l1, column: c1 },
                next: i + 1,
                line: l1,
                column: c1,
            }
        } else {
            SpecStep::Fail { line: l1, column: c1, rest: s.subrange(i, s.len() as int) }
        }
    }
}

/// A digit run never reaches past the end of the input.
pub proof fn lemma_digit_run_len_bound(s: Seq<char>, i: int)
    requires
        0 <= i <= s.len(),
    ensures
        digit_run_len(s, i) <= s.len() - i,
    decreases s.len() - i,
{
    if i < s.len() && is_digit_char(s[i]) {
        lemma_digit_run_len_bound(s, i + 1);
    }
}

/// A word run never reaches past the end of the input.
pub proof fn lemma_word_run_len_bound(s: Seq<char>, i: int)
    requires
        0 <= i <= s.len(),
    ensures
        word_run_len(s, i) <= s.len() - i,
    decreases s.len() - i,
{
    if i < s.len() && is_word_char(s[i]) {
        lemma_word_run_len_bound(s, i + 1);
    }
}

/// The end of a numeric literal lies strictly past its first digit and
/// within the input.
pub proof fn lemma_number_end_bounds(s: Seq<char>, d: int)
    requires
        0 <= d < s.len(),
        is_digit_char(s[d]),
    ensures
        d < number_end(s, d) <= s.len(),
{
    lemma_digit_run_len_bound(s, d);
    if number_has_fraction(s, d) {
        lemma_digit_run_len_bound(s, d + digit_run_len(s, d) + 1);
    }
}

/// Scanning one token consumes at least one character and stays within the
/// input; reaching the end means everything was consumed.
pub proof fn lemma_next_token_bounds(s: Seq<char>, i: int, line: nat, column: nat)
    requires
        0 <= i <= s.len(),
    ensures
        match next_token_spec(s, i, line, column) {
            SpecStep::Tok { next, .. } => i < next <= s.len(),
            SpecStep::End { next, .. } => next == s.len(),
            SpecStep::Fail { .. } => true,
        },
    decreases s.len() - i,
{
    if i < s.len() {
        let c = s[i];
        if is_whitespace_char(c) {
            lemma_next_token_bounds(s, i + 1, advance_line(line, c), advance_column(column, c));
        } else if c == '-' && i + 1 < s.len() && is_digit_char(s[i + 1]) {
            lemma_number_end_bounds(s, i + 1);
        } else if is_digit_char(c) {
            lemma_number_end_bounds(s, i);
        } else if is_word_start_char(c) {
            lemma_word_run_len_bound(s, i);
        }
    }
}

/// The outcome of lexing a whole input: the full token sequence, or the
/// position of the first unscannable character together with the remainder
/// of the input from that character on.
pub enum SpecLexResult {
    Tokens(Seq<SpecToken>),
    Failure { line: nat, column: nat, rest: Seq<char> },
}

/// Every token from position `i` on, or the terminal error. No token is
/// ever produced after the error.
pub open spec fn lex_from_spec(s: Seq<char>, i: int, line: nat, column: nat) -> SpecLexResult
    decreases s.len() - i,
    when 0 <= i <= s.len()
    via lex_from_spec_decreases
{
    match next_token_spec(s, i, line, column) {
        SpecStep::End { .. } => SpecLexResult::Tokens(Seq::empty()),
        SpecStep::Fail { line: el, column: ec, rest } => SpecLexResult::Failure {
            line: el,
            column: ec,
            rest,
        },
        SpecStep::Tok { token, next, line: l2, column: c2 } => match lex_from_spec(s, next, l2, c2) {
            SpecLexResult::Tokens(ts) => SpecLexResult::Tokens(seq![token] + ts),
            SpecLexResult::Failure { line: el, column: ec, rest } => SpecLexResult::Failure {
                line: el,
                column: ec,
                rest,
            },
        },
    }
}

#[via_fn]
proof fn lex_from_spec_decreases(s: Seq<char>, i: int, line: nat, column: nat) {
    lemma_next_token_bounds(s, i, line, column);
}

/// The whole lexical analysis of a source text, from its first character at
/// line 1, column 0.
pub open spec fn lex_spec(s: Seq<char>) -> SpecLexResult {
    lex_from_spec(s, 0, 1, 0)
}

/// A character source annotated with 1-based line/column tracking and a
/// resettable lookahead cursor: `peek` walks ahead without consuming,
/// `next` consumes one character and snaps the lookahead cursor back.
pub struct PositionTrackedChars {
    source: String,
    char_len: usize,
    index: usize,
    peek_index: usize,
    line: usize,
    column: usize,
}

impl PositionTrackedChars {
    /// The characters of the whole source.
    pub closed spec fn chars(self) -> Seq<char> {
        self.source@
    }

    /// How many characters have been consumed.
    pub closed spec fn at(self) -> int {
        self.index as int
    }

    /// Where the lookahead cursor stands.
    pub closed spec fn peek_at(self) -> int {
        self.peek_index as int
    }

    /// The current 1-based line.
    pub closed spec fn cur_line(self) -> nat {
        self.line as nat
    }

    /// The current column: 0 at the start of each line, then the count of
    /// characters consumed on that line.
    pub closed spec fn cur_column(self) -> nat {
        self.column as nat
    }

    pub closed spec fn wf(self) -> bool {
        &&& self.char_len == self.source@.len()
        &&& self.char_len < usize::MAX
        &&& self.index <= self.peek_index <= self.char_len
        &&& 1 <= self.line
        &&& self.line - 1 <= self.index
        &&& self.column <= self.index
    }

    pub fn new(source: String) -> (r: Self)
        requires
            source@.len() < usize::MAX,
        ensures
            r.wf(),
            r.chars() == source@,
            r.at() == 0,
            r.peek_at() == 0,
            r.cur_line() == 1,
            r.cur_column() == 0,
    {
        let char_len = source.as_str().unicode_len();
        PositionTrackedChars { source, char_len, index: 0, peek_index: 0, line: 1, column: 0 }
    }

    /// The current (line, column) pair.
    pub fn position(&self) -> (r: (usize, usize))
        ensures
            r.0 == self.cur_line(),
            r.1 == self.cur_column(),
    {
        (self.line, self.column)
    }

    /// How many characters have been consumed; equally, the index of the
    /// next character to be consumed.
    pub fn consumed(&self) -> (r: usize)
        ensures
            r == self.at(),
    {
        self.index
    }

    /// The length of the source in characters.
    pub fn char_count(&self) -> (r: usize)
        requires
            self.wf(),
        ensures
            r == self.chars().len(),
    {
        self.char_len
    }

    /// Consumes one character, advancing the position tracking and snapping
    /// the lookahead cursor back to the consumption point.
    pub fn next(&mut self) -> (r: Option<char>)
        requires
            old(self).wf(),
        ensures
            final(self).wf(),
            final(self).chars() == old(self).chars(),
            old(self).at() < old(self).chars().len() ==> {
                let c = old(self).chars()[old(self).at()];
                &&& r == Some(c)
                &&& final(self).at() == old(self).at() + 1
                &&& final(self).peek_at() == final(self).at()
                &&& final(self).cur_line() == advance_line(old(self).cur_line(), c)
                &&& final(self).cur_column() == advance_column(old(self).cur_column(), c)
            },
            old(self).at() >= old(self).chars().len() ==> {
                &&& r is None
                &&& *final(self) == *old(self)
            },
    {
        if self.index < self.char_len {
            let c = self.source.as_str().get_char(self.index);
            self.index = self.index + 1;
            self.peek_index = self.index;
            if c == '\n' {
                self.line = self.line + 1;
                self.column = 0;
            } else {
                self.column = self.column + 1;
            }
            Some(c)
        } else {
            None
        }
    }

    /// Returns the character under the lookahead cursor and walks the cursor
    /// one further, without consuming anything.
    pub fn peek(&mut self) -> (r: Option<char>)
        requires
            old(self).wf(),
        ensures
            final(self).wf(),
            final(self).chars() == old(self).chars(),
            final(self).at() == old(self).at(),
            final(self).cur_line() == old(self).cur_line(),
            final(self).cur_column() == old(self).cur_column(),
            old(self).peek_at() < old(self).chars().len() ==> {
                &&& r == Some(old(self).chars()[old(self).peek_at()])
                &&& final(self).peek_at() == old(self).peek_at() + 1
            },
            old(self).peek_at() >= old(self).chars().len() ==> {
                &&& r is None
                &&& final(self).peek_at() == old(self).peek_at()
            },
    {
        if self.peek_index < self.char_len {
            let c = self.source.as_str().get_char(self.peek_index);
            self.peek_index = self.peek_index + 1;
            Some(c)
        } else {
            None
        }
    }

    /// Snaps the lookahead cursor back to the consumption point.
    pub fn reset_peek(&mut self)
        requires
            old(self).wf(),
        ensures
            final(self).wf(),
            final(self).chars() == old(self).chars(),
            final(self).at() == old(self).at(),
            final(self).peek_at() == final(self).at(),
            final(self).cur_line() == old(self).cur_line(),
            final(self).cur_column() == old(self).cur_column(),
    {
        self.peek_index = self.index;
    }

    /// Consumes everything that is left, without position tracking; used
    /// only to exhaust the source after a terminal error.
    pub fn skip_to_end(&mut self)
        requires
            old(self).wf(),
        ensures
            final(self).wf(),
            final(self).chars() == old(self).chars(),
            final(self).at() == old(self).chars().len(),
            final(self).peek_at() == final(self).at(),
            final(self).cur_line() == old(self).cur_line(),
            final(self).cur_column() == old(self).cur_column(),
    {
        self.index = self.char_len;
        self.peek_index = self.char_len;
    }

    /// An owned copy of the characters from `from` (inclusive) to `to`
    /// (exclusive).
    pub fn slice_chars(&self, from: usize, to: usize) -> (r: String)
        requires
            self.wf(),
            from <= to <= self.chars().len(),
        ensures
            r@ == self.chars().subrange(from as int, to as int),
    {
        String::from_str(self.source.as_str().substring_char(from, to))
    }
}

// ---------------------------------------------------------------------------
// Digit accumulation, executable side
// ---------------------------------------------------------------------------

/// Appending one digit to an accumulation appends it to the accumulated
/// value.
proof fn lemma_accum_push(a: nat, ds: Seq<char>, c: char)
    ensures
        accum_digits(a, ds.push(c)) == accum_digits(a, ds) * 10 + digit_value(c),
{
    assert(ds.push(c).drop_last() =~= ds);
    assert(ds.push(c).last() == c);
}

/// Accumulating over a concatenation is accumulating over the pieces in
/// turn.
proof fn lemma_accum_concat(a: nat, xs: Seq<char>, ys: Seq<char>)
    ensures
        accum_digits(a, xs + ys) == accum_digits(accum_digits(a, xs), ys),
    decreases ys.len(),
{
    if ys.len() == 0 {
        assert(xs + ys =~= xs);
    } else {
        assert((xs + ys).drop_last() =~= xs + ys.drop_last());
        assert((xs + ys).last() == ys.last());
        lemma_accum_concat(a, xs, ys.drop_last());
    }
}

/// Clamping before a step gives the same as clamping after it.
proof fn lemma_clamp_step(t: nat, d: nat)
    requires
        d <= 9,
    ensures
        clamp_u64(clamp_u64(t) * 10 + d) == clamp_u64(t * 10 + d),
{
}

/// One accumulation step, clamped to `u64::MAX` once the true value
/// outgrows it.
fn mul10_add_clamped(v: u64, d: u64) -> (r: u64)
    requires
        d <= 9,
    ensures
        r as nat == clamp_u64(v as nat * 10 + d as nat),
{
    let wide: u128 = (v as u128) * 10 + (d as u128);
    if wide > u64::MAX as u128 {
        u64::MAX
    } else {
        wide as u64
    }
}

/// The numeric value of a digit character.
fn digit_of(c: char) -> (r: u64)
    requires
        is_digit_char(c),
    ensures
        r == digit_value(c),
        r <= 9,
{
    (c as u32 - 48) as u64
}

/// Consumes the maximal digit run at the consumption point, continuing the
/// clamped accumulation from `start`; returns the new accumulation and the
/// length of the run. `a` is the unclamped value `start` stands for.
fn scan_digit_run(src: &mut PositionTrackedChars, start: u64, Ghost(a): Ghost<nat>) -> (r: (
    u64,
    usize,
))
    requires
        old(src).wf(),
        old(src).peek_at() == old(src).at(),
        start as nat == clamp_u64(a),
    ensures
        final(src).wf(),
        final(src).chars() == old(src).chars(),
        ({
            let s = old(src).chars();
            let i0 = old(src).at();
            let k = digit_run_len(s, i0);
            &&& r.1 == k
            &&& final(src).at() == i0 + k
            &&& final(src).peek_at() == final(src).at()
            &&& final(src).cur_line() == old(src).cur_line()
            &&& final(src).cur_column() == old(src).cur_column() + k
            &&& r.0 as nat == clamp_u64(accum_digits(a, s.subrange(i0, i0 + k)))
        }),
{
    let ghost s = old(src).chars();
    let ghost i0 = old(src).at();
    let ghost line0 = old(src).cur_line();
    let ghost col0 = old(src).cur_column();
    let mut value = start;
    let mut count: usize = 0;
    proof {
        assert(s.subrange(i0, i0) =~= Seq::<char>::empty());
    }
    loop
        invariant
            src.wf(),
            src.chars() == s,
            src.peek_at() == src.at(),
            i0 <= src.at() <= s.len(),
            src.at() == i0 + count,
            digit_run_len(s, i0) == count + digit_run_len(s, src.at()),
            src.cur_line() == line0,
            src.cur_column() == col0 + count,
            value as nat == clamp_u64(accum_digits(a, s.subrange(i0, src.at()))),
        ensures
            src.wf(),
            src.chars() == s,
            src.peek_at() == src.at(),
            i0 <= src.at() <= s.len(),
            src.at() == i0 + count,
            digit_run_len(s, i0) == count + digit_run_len(s, src.at()),
            digit_run_len(s, src.at()) == 0,
            src.cur_line() == line0,
            src.cur_column() == col0 + count,
            value as nat == clamp_u64(accum_digits(a, s.subrange(i0, src.at()))),
        decreases s.len() - src.at(),
    {
        let next_char = src.peek();
        match next_char {
            Some(c) => {
                if is_digit(c) {
                    let ghost before = src.at();
                    let _consumed = src.next();
                    let d = digit_of(c);
                    proof {
                        assert(s.subrange(i0, before + 1) =~= s.subrange(i0, before).push(c));
                        lemma_accum_push(a, s.subrange(i0, before), c);
                        lemma_clamp_step(accum_digits(a, s.subrange(i0, before)), digit_value(c));
                    }
                    value = mul10_add_clamped(value, d);
                    count = count + 1;
                } else {
                    src.reset_peek();
                    break ;
                }
            },
            None => {
                src.reset_peek();
                break ;
            },
        }
    }
    (value, count)
}

/// Consumes the maximal identifier-character run at the consumption point
/// and returns its length.
fn scan_word_run(src: &mut PositionTrackedChars) -> (k: usize)
    requires
        old(src).wf(),
        old(src).peek_at() == old(src).at(),
    ensures
        final(src).wf(),
        final(src).chars() == old(src).chars(),
        ({
            let s = old(src).chars();
            let i0 = old(src).at();
            &&& k == word_run_len(s, i0)
            &&& final(src).at() == i0 + k
            &&& final(src).peek_at() == final(src).at()
            &&& final(src).cur_line() == old(src).cur_line()
            &&& final(src).cur_column() == old(src).cur_column() + k
        }),
{
    let ghost s = old(src).chars();
    let ghost i0 = old(src).at();
    let ghost line0 = old(src).cur_line();
    let ghost col0 = old(src).cur_column();
    let mut count: usize = 0;
    loop
        invariant
            src.wf(),
            src.chars() == s,
            src.peek_at() == src.at(),
            i0 <= src.at() <= s.len(),
            src.at() == i0 + count,
            word_run_len(s, i0) == count + word_run_len(s, src.at()),
            src.cur_line() == line0,
            src.cur_column() == col0 + count,
        ensures
            src.wf(),
            src.chars() == s,
            src.peek_at() == src.at(),
            i0 <= src.at() <= s.len(),
            src.at() == i0 + count,
            word_run_len(s, i0) == count + word_run_len(s, src.at()),
            word_run_len(s, src.at()) == 0,
            src.cur_line() == line0,
            src.cur_column() == col0 + count,
        decreases s.len() - src.at(),
    {
        let next_char = src.peek();
        match next_char {
            Some(c) => {
                if is_word(c) {
                    let _consumed = src.next();
                    count = count + 1;
                } else {
                    src.reset_peek();
                    break ;
                }
            },
            None => {
                src.reset_peek();
                break ;
            },
        }
    }
    count
}

/// Character-by-character string equality, proved to decide equality of the
/// views.
pub(crate) fn str_eq(a: &str, b: &str) -> (r: bool)
    ensures
        r == (a@ == b@),
{
    let alen = a.unicode_len();
    let blen = b.unicode_len();
    if alen != blen {
        proof {
            if a@ == b@ {
                assert(a@.len() == b@.len());
            }
        }
        return false;
    }
    let mut i: usize = 0;
    while i < alen
        invariant
            alen == a@.len(),
            blen == b@.len(),
            alen == blen,
            i <= alen,
            forall|k: int| 0 <= k < i ==> a@[k] == b@[k],
        decreases alen - i,
    {
        let ca = a.get_char(i);
        let cb = b.get_char(i);
        if ca != cb {
            proof {
                if a@ == b@ {
                    assert(a@[i as int] == b@[i as int]);
                }
            }
            return false;
        }
        i = i + 1;
    }
    proof {
        assert(a@ =~= b@);
    }
    true
}

/// Classifies a completed word: an exact, case-sensitive keyword match
/// yields the keyword token, anything else an identifier.
fn classify_word(word: String) -> (r: TokenType)
    ensures
        r@ == keyword_or_identifier(word@),
{
    if str_eq(word.as_str(), "if") {
        TokenType::If
    } else if str_eq(word.as_str(), "else") {
        TokenType::Else
    } else if str_eq(word.as_str(), "let") {
        TokenType::Let
    } else if str_eq(word.as_str(), "while") {
        TokenType::While
    } else if str_eq(word.as_str(), "for") {
        TokenType::For
    } else {
        TokenType::Identifier(word)
    }
}

/// Consumes a whole numeric literal whose first digit was just consumed;
/// `first` is that digit, `negative` says whether a folded sign applies.
fn scan_number(src: &mut PositionTrackedChars, negative: bool, first: char) -> (tt: TokenType)
    requires
        old(src).wf(),
        old(src).peek_at() == old(src).at(),
        1 <= old(src).at() <= old(src).chars().len(),
        is_digit_char(old(src).chars()[old(src).at() - 1]),
        first == old(src).chars()[old(src).at() - 1],
    ensures
        final(src).wf(),
        final(src).chars() == old(src).chars(),
        ({
            let s = old(src).chars();
            let d = old(src).at() - 1;
            &&& tt@ == number_token_type(s, d, negative)
            &&& final(src).at() == number_end(s, d)
            &&& final(src).peek_at() == final(src).at()
            &&& final(src).cur_line() == old(src).cur_line()
            &&& final(src).cur_column() == old(src).cur_column() + (number_end(s, d) - old(src).at())
        }),
{
    let ghost s = old(src).chars();
    let ghost d = old(src).at() - 1;
    let v0 = digit_of(first);
    proof {
        lemma_accum_push(0, Seq::<char>::empty(), first);
        assert(accum_digits(0, Seq::<char>::empty()) == 0);
        assert(s.subrange(d, d + 1) =~= Seq::<char>::empty().push(first));
        assert(accum_digits(0, s.subrange(d, d + 1)) == digit_value(first));
    }
    let (v1, _k1) = scan_digit_run(src, v0, Ghost(digit_value(first)));
    let ghost j = d + digit_run_len(s, d);
    proof {
        assert(digit_run_len(s, d) == 1 + digit_run_len(s, d + 1));
        assert(s.subrange(d, d + 1) + s.subrange(d + 1, j) =~= s.subrange(d, j));
        lemma_accum_concat(0, s.subrange(d, d + 1), s.subrange(d + 1, j));
        assert(v1 as nat == clamp_u64(accum_digits(0, s.subrange(d, j))));
    }
    let mut has_frac = false;
    let first_peek = src.peek();
    match first_peek {
        Some(c0) => {
            if c0 == '.' {
                let second_peek = src.peek();
                match second_peek {
                    Some(c1) => {
                        if is_digit(c1) {
                            has_frac = true;
                        }
                    },
                    None => {},
                }
            }
        },
        None => {},
    }
    src.reset_peek();
    proof {
        assert(has_frac == number_has_fraction(s, d));
    }
    if has_frac {
        let _dot = src.next();
        let (v2, k2) = scan_digit_run(src, v1, Ghost(accum_digits(0, s.subrange(d, j))));
        proof {
            assert(s.subrange(d, j) + s.subrange(j + 1, j + 1 + digit_run_len(s, j + 1))
                =~= number_digits(s, d));
            lemma_accum_concat(
                0,
                s.subrange(d, j),
                s.subrange(j + 1, j + 1 + digit_run_len(s, j + 1)),
            );
        }
        TokenType::FloatLiteral(FloatLit { negative, mantissa: v2, frac_digits: k2 })
    } else {
        let magnitude = if v1 > 2147483647u64 {
            2147483647u64
        } else {
            v1
        };
        let m = magnitude as i32;
        TokenType::IntLiteral(
            if negative {
                -m
            } else {
                m
            },
        )
    }
}

// ---------------------------------------------------------------------------
// The lexer
// ---------------------------------------------------------------------------

/// The terminal lexical error: the position of the first unrecognized
/// character and a message quoting the remainder of the input from that
/// character on.
#[derive(Clone, Debug)]
pub struct LexerError {
    pub line: usize,
    pub column: usize,
    pub message: String,
}

/// The message a terminal error carries: the unconsumed remainder of the
/// input, quoted.
pub open spec fn error_message(rest: Seq<char>) -> Seq<char> {
    "Unknown token '"@ + rest + "'"@
}

/// A stateful producer of tokens. Requesting tokens one by one yields the
/// sequence `lex_spec` describes; after the terminal error is reported
/// through `error`, the source is exhausted and no token is ever produced
/// again.
pub struct Lexer {
    source: PositionTrackedChars,
    pub error: Option<LexerError>,
}

impl Lexer {
    /// The characters of the whole source.
    pub closed spec fn chars(self) -> Seq<char> {
        self.source.chars()
    }

    /// How many characters have been consumed.
    pub closed spec fn at(self) -> int {
        self.source.at()
    }

    /// The current 1-based line.
    pub closed spec fn cur_line(self) -> nat {
        self.source.cur_line()
    }

    /// The current column.
    pub closed spec fn cur_column(self) -> nat {
        self.source.cur_column()
    }

    /// The recorded terminal error, if any.
    pub closed spec fn spec_error(self) -> Option<LexerError> {
        self.error
    }

    pub closed spec fn wf(self) -> bool {
        &&& self.source.wf()
        &&& self.source.peek_at() == self.source.at()
        &&& self.error is Some ==> self.source.at() == self.source.chars().len()
    }

    pub fn new(source: String) -> (r: Self)
        requires
            source@.len() < usize::MAX,
        ensures
            r.wf(),
            r.chars() == source@,
            r.at() == 0,
            r.cur_line() == 1,
            r.cur_column() == 0,
            r.spec_error() is None,
    {
        Lexer { source: PositionTrackedChars::new(source), error: None }
    }

    /// Produces the next token, or `None` at the end of the input, or
    /// `None` after recording the terminal error in `error` and exhausting
    /// the source.
    pub fn next(&mut self) -> (r: Option<Token>)
        requires
            old(self).wf(),
        ensures
            final(self).wf(),
            final(self).chars() == old(self).chars(),
            match next_token_spec(
                old(self).chars(),
                old(self).at(),
                old(self).cur_line(),
                old(self).cur_column(),
            ) {
                SpecStep::Tok { token, next, line, column } => {
                    &&& r matches Some(t) && t@ == token
                    &&& final(self).at() == next
                    &&& final(self).cur_line() == line
                    &&& final(self).cur_column() == column
                    &&& final(self).spec_error() == old(self).spec_error()
                },
                SpecStep::End { next, line, column } => {
                    &&& r is None
                    &&& final(self).at() == next
                    &&& final(self).cur_line() == line
                    &&& final(self).cur_column() == column
                    &&& final(self).spec_error() == old(self).spec_error()
                },
                SpecStep::Fail { line, column, rest } => {
                    &&& r is None
                    &&& final(self).at() == old(self).chars().len()
                    &&& final(self).spec_error() matches Some(e) && e.line == line && e.column == column
                        && e.message@ == error_message(rest)
                },
            },
    {
        let ghost s = old(self).chars();
        let ghost i0 = old(self).at();
        let ghost l0 = old(self).cur_line();
        let ghost c0 = old(self).cur_column();
        loop
            invariant
                self.wf(),
                self.chars() == s,
                s == old(self).chars(),
                i0 == old(self).at(),
                l0 == old(self).cur_line(),
                c0 == old(self).cur_column(),
                0 <= i0 <= s.len(),
                self.error == old(self).error,
                next_token_spec(s, self.at(), self.cur_line(), self.cur_column())
                    == next_token_spec(s, i0, l0, c0),
            decreases s.len() - self.at(),
        {
            let next_char = self.source.next();
            match next_char {
                None => {
                    return None;
                },
                Some(c) => {
                    let position = self.source.position();
                    if !is_whitespace(c) {
                        let token_start = self.source.consumed() - 1;
                        let mut first = c;
                        let mut folded = false;
                        if c == '-' {
                            let p = self.source.peek();
                            match p {
                                Some(pc) => {
                                    if is_digit(pc) {
                                        let fold_consumed = self.source.next();
                                        first = fold_consumed.unwrap();
                                        folded = true;
                                    } else {
                                        self.source.reset_peek();
                                    }
                                },
                                None => {
                                    self.source.reset_peek();
                                },
                            }
                        }
                        let tt: TokenType;
                        if folded {
                            tt = scan_number(&mut self.source, true, first);
                        } else if is_digit(c) {
                            tt = scan_number(&mut self.source, false, c);
                        } else if is_word_start(c) {
                            let _run = scan_word_run(&mut self.source);
                            let end = self.source.consumed();
                            let word = self.source.slice_chars(token_start, end);
                            tt = classify_word(word);
                        } else if c == '(' {
                            tt = TokenType::OpeningParenthesis;
                        } else if c == ')' {
                            tt = TokenType::ClosingParenthesis;
                        } else if c == '{' {
                            tt = TokenType::OpeningCurlyBrace;
                        } else if c == '}' {
                            tt = TokenType::ClosingCurlyBrace;
                        } else if c == '+' {
                            tt = TokenType::Plus;
                        } else if c == '-' {
                            tt = TokenType::Minus;
                        } else if c == '*' {
                            tt = TokenType::Asterisk;
                        } else if c == '/' {
                            tt = TokenType::Slash;
                        } else if c == ';' {
                            tt = TokenType::Semicolon;
                        } else if c == '.' {
                            tt = TokenType::Dot;
                        } else if c == '=' {
                            tt = TokenType::Equals;
                        } else {
                            let len = self.source.char_count();
                            let rest = self.source.slice_chars(token_start, len);
                            let mut message = String::from_str("Unknown token '");
                            message.append(rest.as_str());
                            message.append("'");
                            self.error = Some(
                                LexerError { line: position.0, column: position.1, message },
                            );
                            self.source.skip_to_end();
                            return None;
                        }
                        return Some(Token { token_type: tt, line: position.0, column: position.1 });
                    }
                },
            }
        }
    }
}

// ---------------------------------------------------------------------------
// Laws
// ---------------------------------------------------------------------------

/// Lexicographic order on source positions: earlier line, or same line and
/// no later column.
pub open spec fn position_le(l1: nat, c1: nat, l2: nat, c2: nat) -> bool {
    l1 < l2 || (l1 == l2 && c1 <= c2)
}

/// One scanning step never moves a position backwards: the token's
/// position lies at or past the starting position, and the state after the
/// token lies at or past the token's position.
proof fn lemma_next_token_position(s: Seq<char>, i: int, line: nat, column: nat)
    requires
        0 <= i <= s.len(),
    ensures
        match next_token_spec(s, i, line, column) {
            SpecStep::Tok { token, next, line: l2, column: c2 } => position_le(
                line,
                column,
                token.line,
                token.column,
            ) && position_le(token.line, token.column, l2, c2),
            _ => true,
        },
    decreases s.len() - i,
{
    if i < s.len() {
        let c = s[i];
        if is_whitespace_char(c) {
            lemma_next_token_position(s, i + 1, advance_line(line, c), advance_column(column, c));
        }
    }
}

/// Law: every token the lexical analysis produces from a given state lies
/// at or past that state's position, and the produced sequence is sorted
/// by position.
proof fn lemma_lex_from_monotonic(s: Seq<char>, i: int, line: nat, column: nat)
    requires
        0 <= i <= s.len(),
    ensures
        match lex_from_spec(s, i, line, column) {
            SpecLexResult::Tokens(ts) => (forall|k: int|
                0 <= k < ts.len() ==> position_le(line, column, ts[k].line, ts[k].column)) && (
            forall|j: int, k: int|
                0 <= j <= k < ts.len() ==> position_le(
                    ts[j].line,
                    ts[j].column,
                    ts[k].line,
                    ts[k].column,
                )),
            SpecLexResult::Failure { .. } => true,
        },
    decreases s.len() - i,
{
    lemma_next_token_bounds(s, i, line, column);
    lemma_next_token_position(s, i, line, column);
    match next_token_spec(s, i, line, column) {
        SpecStep::Tok { token, next, line: l2, column: c2 } => {
            lemma_lex_from_monotonic(s, next, l2, c2);
            match lex_from_spec(s, next, l2, c2) {
                SpecLexResult::Tokens(rest) => {
                    let ts = seq![token] + rest;
                    assert(lex_from_spec(s, i, line, column) == SpecLexResult::Tokens(ts));
                    assert forall|k: int| 0 <= k < ts.len() implies position_le(
                        line,
                        column,
                        ts[k].line,
                        ts[k].column,
                    ) by {
                        if k > 0 {
                            assert(ts[k] == rest[k - 1]);
                        }
                    }
                    assert forall|j: int, k: int| 0 <= j <= k < ts.len() implies position_le(
                        ts[j].line,
                        ts[j].column,
                        ts[k].line,
                        ts[k].column,
                    ) by {
                        if j > 0 {
                            assert(ts[j] == rest[j - 1]);
                            assert(ts[k] == rest[k - 1]);
                        } else if k > 0 {
                            assert(ts[k] == rest[k - 1]);
                        }
                    }
                },
                SpecLexResult::Failure { .. } => {},
            }
        },
        _ => {},
    }
}

/// Law: the positions the tokens of a successful lexical analysis carry
/// never decrease across the sequence, in lexicographic (line, column)
/// order.
pub proof fn lemma_lex_positions_monotonic(s: Seq<char>)
    ensures
        match lex_spec(s) {
            SpecLexResult::Tokens(ts) => forall|j: int, k: int|
                0 <= j <= k < ts.len() ==> position_le(
                    ts[j].line,
                    ts[j].column,
                    ts[k].line,
                    ts[k].column,
                ),
            SpecLexResult::Failure { .. } => true,
        },
{
    lemma_lex_from_monotonic(s, 0, 1, 0);
}

/// A digit run that stops strictly before the end of the input is
/// unchanged by appending more input.
proof fn lemma_digit_run_extend(s1: Seq<char>, s2: Seq<char>, i: int)
    requires
        0 <= i <= s1.len(),
        i + digit_run_len(s1, i) < s1.len(),
    ensures
        digit_run_len(s1 + s2, i) == digit_run_len(s1, i),
    decreases s1.len() - i,
{
    assert((s1 + s2).len() == s1.len() + s2.len());
    if i < s1.len() && is_digit_char(s1[i]) {
        assert((s1 + s2)[i] == s1[i]);
        lemma_digit_run_extend(s1, s2, i + 1);
    } else {
        assert((s1 + s2)[i] == s1[i]);
    }
}

/// A word run that stops strictly before the end of the input is unchanged
/// by appending more input.
proof fn lemma_word_run_extend(s1: Seq<char>, s2: Seq<char>, i: int)
    requires
        0 <= i <= s1.len(),
        i + word_run_len(s1, i) < s1.len(),
    ensures
        word_run_len(s1 + s2, i) == word_run_len(s1, i),
    decreases s1.len() - i,
{
    assert((s1 + s2).len() == s1.len() + s2.len());
    if i < s1.len() && is_word_char(s1[i]) {
        assert((s1 + s2)[i] == s1[i]);
        lemma_word_run_extend(s1, s2, i + 1);
    } else {
        assert((s1 + s2)[i] == s1[i]);
    }
}

/// A scanning step that ends in the terminal error reports the same error,
/// with the appended input joining the quoted remainder, when the input is
/// extended.
proof fn lemma_next_fail_extend(s1: Seq<char>, s2: Seq<char>, i: int, line: nat, column: nat)
    requires
        0 <= i <= s1.len(),
        (next_token_spec(s1, i, line, column) is Fail),
    ensures
        (next_token_spec(s1, i, line, column) matches SpecStep::Fail { line: l0, column: c0, rest }
            ==> next_token_spec(s1 + s2, i, line, column) == (SpecStep::Fail {
                line: l0,
                column: c0,
                rest: rest + s2,
            })),
    decreases s1.len() - i,
{
    assert((s1 + s2).len() == s1.len() + s2.len());
    let c = s1[i];
    assert((s1 + s2)[i] == c);
    if is_whitespace_char(c) {
        lemma_next_fail_extend(s1, s2, i + 1, advance_line(line, c), advance_column(column, c));
    } else {
        assert(s1.subrange(i, s1.len() as int) + s2 =~= (s1 + s2).subrange(
            i,
            (s1 + s2).len() as int,
        ));
    }
}

/// A scanning step whose continuation ends in the terminal error scans the
/// same token when the input is extended: every character the step
/// examined lies before the failing character.
proof fn lemma_next_tok_extend(s1: Seq<char>, s2: Seq<char>, i: int, line: nat, column: nat)
    requires
        0 <= i <= s1.len(),
        (next_token_spec(s1, i, line, column) is Tok),
        (next_token_spec(s1, i, line, column) matches SpecStep::Tok { next, line: l2, column: c2, .. }
            ==> lex_from_spec(s1, next, l2, c2) is Failure),
    ensures
        next_token_spec(s1 + s2, i, line, column) == next_token_spec(s1, i, line, column),
    decreases s1.len() - i,
{
    assert((s1 + s2).len() == s1.len() + s2.len());
    lemma_next_token_bounds(s1, i, line, column);
    let c = s1[i];
    assert((s1 + s2)[i] == c);
    let step = next_token_spec(s1, i, line, column);
    let next = step->Tok_next;
    let l2 = step->Tok_line;
    let c2 = step->Tok_column;
    // The failing character lies at or past `next`, so the token cannot
    // reach the end of the original input.
    if next == s1.len() {
        assert(next_token_spec(s1, next, l2, c2) == SpecStep::End {
            next,
            line: l2,
            column: c2,
        });
        assert(lex_from_spec(s1, next, l2, c2) == SpecLexResult::Tokens(Seq::empty()));
        assert(false);
    }
    assert(next < s1.len());
    if is_whitespace_char(c) {
        lemma_next_tok_extend(s1, s2, i + 1, advance_line(line, c), advance_column(column, c));
    } else if c == '-' && i + 1 < s1.len() && is_digit_char(s1[i + 1]) {
        assert((s1 + s2)[i + 1] == s1[i + 1]);
        lemma_number_scan_extend(s1, s2, i + 1, next, l2, c2);
    } else if is_digit_char(c) {
        lemma_number_scan_extend(s1, s2, i, next, l2, c2);
    } else if is_word_start_char(c) {
        lemma_word_run_extend(s1, s2, i);
        assert((s1 + s2).subrange(i, i + word_run_len(s1, i)) =~= s1.subrange(
            i,
            i + word_run_len(s1, i),
        ));
    } else {
        // Punctuation: one character, nothing examined past it. A `-` at
        // the very end of the original input would stand as a `Minus`
        // token there but could fold into a literal once extended; that
        // case cannot arise here, because the continuation fails and so
        // at least the failing character follows the token.
        if c == '-' && i + 1 < (s1 + s2).len() && is_digit_char((s1 + s2)[i + 1]) {
            assert(i + 1 < s1.len());
            assert((s1 + s2)[i + 1] == s1[i + 1]);
            assert(false);
        }
    }
}

/// A numeric literal whose continuation ends in the terminal error scans
/// the same digits when the input is extended.
proof fn lemma_number_scan_extend(s1: Seq<char>, s2: Seq<char>, d: int, next: int, l2: nat, c2: nat)
    requires
        0 <= d < s1.len(),
        is_digit_char(s1[d]),
        next == number_end(s1, d),
        next < s1.len(),
        (lex_from_spec(s1, next, l2, c2) is Failure),
    ensures
        number_end(s1 + s2, d) == number_end(s1, d),
        number_token_type(s1 + s2, d, true) == number_token_type(s1, d, true),
        number_token_type(s1 + s2, d, false) == number_token_type(s1, d, false),
{
    assert((s1 + s2).len() == s1.len() + s2.len());
    lemma_number_end_bounds(s1, d);
    let j = d + digit_run_len(s1, d);
    if number_has_fraction(s1, d) {
        // Both runs stop at characters of the original input.
        assert(j < s1.len());
        lemma_digit_run_extend(s1, s2, d);
        let e = j + 1 + digit_run_len(s1, j + 1);
        assert(e == next);
        lemma_digit_run_extend(s1, s2, j + 1);
        assert((s1 + s2)[j] == s1[j]);
        assert((s1 + s2)[j + 1] == s1[j + 1]);
        assert(number_has_fraction(s1 + s2, d));
        assert(number_digits(s1 + s2, d) =~= number_digits(s1, d));
    } else {
        // The digit run stops at a character of the original input.
        assert(j == next);
        lemma_digit_run_extend(s1, s2, d);
        assert((s1 + s2)[j] == s1[j]);
        if s1[j] == '.' {
            // A `.` right after the run, with nothing after it in the
            // original input, would continue the literal once extended;
            // that cannot arise, since from `next` the original input
            // still fails, while a lone trailing `.` would lex cleanly.
            if j + 1 == s1.len() {
                assert(next_token_spec(s1, next, l2, c2) == SpecStep::Tok {
                    token: SpecToken {
                        token_type: SpecTokenType::Dot,
                        line: advance_line(l2, '.'),
                        column: advance_column(c2, '.'),
                    },
                    next: j + 1,
                    line: advance_line(l2, '.'),
                    column: advance_column(c2, '.'),
                });
                assert(next_token_spec(s1, j + 1, advance_line(l2, '.'), advance_column(c2, '.'))
                    == SpecStep::End {
                    next: j + 1,
                    line: advance_line(l2, '.'),
                    column: advance_column(c2, '.'),
                });
                assert(lex_from_spec(s1, j + 1, advance_line(l2, '.'), advance_column(c2, '.'))
                    == SpecLexResult::Tokens(Seq::<SpecToken>::empty()));
                assert(!(lex_from_spec(s1, next, l2, c2) is Failure));
                assert(false);
            } else {
                assert(!is_digit_char(s1[j + 1]));
                assert((s1 + s2)[j + 1] == s1[j + 1]);
            }
        }
        assert(!number_has_fraction(s1 + s2, d));
        assert(number_digits(s1 + s2, d) =~= number_digits(s1, d));
    }
}

/// Law: an unrecognized character halts the lexical analysis the same way
/// no matter what follows it: the tokens before it and the error position
/// are those of the original input alone, and no token is produced from
/// anything at or past the failing character.
pub proof fn lemma_lex_failure_suffix_independent(s1: Seq<char>, s2: Seq<char>)
    ensures
        (lex_spec(s1) matches SpecLexResult::Failure { line, column, rest } ==> lex_spec(s1 + s2)
            == (SpecLexResult::Failure { line, column, rest: rest + s2 })),
{
    lemma_lex_from_extend(s1, s2, 0, 1, 0);
}

/// The inductive heart of suffix independence: from any state, an analysis
/// of the original input that ends in failure extends to an analysis of
/// the extended input with the same tokens and the same failure position.
proof fn lemma_lex_from_extend(s1: Seq<char>, s2: Seq<char>, i: int, line: nat, column: nat)
    requires
        0 <= i <= s1.len(),
    ensures
        (lex_from_spec(s1, i, line, column) matches SpecLexResult::Failure { line: fl, column: fc, rest }
            ==> lex_from_spec(s1 + s2, i, line, column) == (SpecLexResult::Failure {
                line: fl,
                column: fc,
                rest: rest + s2,
            })),
    decreases s1.len() - i,
{
    assert((s1 + s2).len() == s1.len() + s2.len());
    lemma_next_token_bounds(s1, i, line, column);
    match next_token_spec(s1, i, line, column) {
        SpecStep::End { .. } => {},
        SpecStep::Fail { .. } => {
            lemma_next_fail_extend(s1, s2, i, line, column);
        },
        SpecStep::Tok { token, next, line: l2, column: c2 } => {
            match lex_from_spec(s1, next, l2, c2) {
                SpecLexResult::Tokens(_) => {},
                SpecLexResult::Failure { .. } => {
                    lemma_next_tok_extend(s1, s2, i, line, column);
                    lemma_lex_from_extend(s1, s2, next, l2, c2);
                },
            }
        },
    }
}

/// Prefixing an outcome with already-produced tokens.
pub open spec fn prepend_tokens(ts: Seq<SpecToken>, r: SpecLexResult) -> SpecLexResult {
    match r {
        SpecLexResult::Tokens(more) => SpecLexResult::Tokens(ts + more),
        SpecLexResult::Failure { line, column, rest } => SpecLexResult::Failure {
            line,
            column,
            rest,
        },
    }
}

/// Performs the whole lexical analysis of a source text: the complete token
/// sequence in source order, or the terminal error, after which no token is
/// returned at all.
pub fn lex(source: &str) -> (r: Result<Vec<Token>, LexerError>)
    requires
        source@.len() < usize::MAX,
    ensures
        match lex_spec(source@) {
            SpecLexResult::Tokens(ts) => r matches Ok(v) && tokens_view(v@) == ts,
            SpecLexResult::Failure { line, column, rest } => r matches Err(e) && e.line == line
                && e.column == column && e.message@ == error_message(rest),
        },
{
    let ghost s = source@;
    let mut lexer = Lexer::new(String::from_str(source));
    let mut tokens: Vec<Token> = Vec::new();
    proof {
        assert(tokens_view(tokens@) =~= Seq::<SpecToken>::empty());
    }
    loop
        invariant_except_break
            lexer.wf(),
            lexer.chars() == s,
            lexer.error is None,
            prepend_tokens(
                tokens_view(tokens@),
                lex_from_spec(s, lexer.at(), lexer.cur_line(), lexer.cur_column()),
            ) == lex_spec(s),
        ensures
            lexer.error is None ==> lex_spec(s) == SpecLexResult::Tokens(tokens_view(tokens@)),
            lexer.error matches Some(e) ==> (lex_spec(s) matches SpecLexResult::Failure {
                line,
                column,
                rest,
            } && e.line == line && e.column == column && e.message@ == error_message(rest)),
        decreases s.len() - lexer.at(),
    {
        let ghost at0 = lexer.at();
        let ghost l0 = lexer.cur_line();
        let ghost c0 = lexer.cur_column();
        let produced = lexer.next();
        match produced {
            Some(t) => {
                proof {
                    lemma_next_token_bounds(s, at0, l0, c0);
                    let step = next_token_spec(s, at0, l0, c0);
                    match step {
                        SpecStep::Tok { token, next, line, column } => {
                            match lex_from_spec(s, next, line, column) {
                                SpecLexResult::Tokens(more) => {
                                    assert(tokens_view(tokens@) + (seq![token] + more)
                                        =~= tokens_view(tokens@.push(t)) + more);
                                },
                                SpecLexResult::Failure { .. } => {},
                            }
                        },
                        _ => {
                            assert(false);
                        },
                    }
                }
                tokens.push(t);
            },
            None => {
                proof {
                    assert(tokens_view(tokens@) + Seq::<SpecToken>::empty() =~= tokens_view(
                        tokens@,
                    ));
                }
                break ;
            },
        }
    }
    match lexer.error {
        Some(e) => Err(e),
        None => {
            proof {
                match lex_spec(s) {
                    SpecLexResult::Tokens(ts) => {
                        assert(ts =~= tokens_view(tokens@));
                    },
                    _ => {},
                }
            }
            Ok(tokens)
        },
    }
}

} // verus!

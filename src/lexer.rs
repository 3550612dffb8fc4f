use vstd::prelude::*;

use crate::token::{eof_lexeme, keyword_kind, Lexeme, Token, TokenKind};

verus! {

/// Whether a character has the Unicode White_Space property.
pub open spec fn is_white_space(c: char) -> bool {
    let u = c as u32;
    u == 0x20 || (0x09 <= u && u <= 0x0d) || u == 0x85 || u == 0xa0 || u == 0x1680 || (0x2000 <= u
        && u <= 0x200a) || u == 0x2028 || u == 0x2029 || u == 0x202f || u == 0x205f || u == 0x3000
}

pub open spec fn is_digit_char(c: char) -> bool {
    '0' as u32 <= c as u32 && c as u32 <= '9' as u32
}

/// Whether a character has the Unicode Alphabetic property.
pub uninterp spec fn alphabetic(c: char) -> bool;

/// Whether a character is alphabetic or numeric in Unicode's sense.
pub uninterp spec fn alphanumeric(c: char) -> bool;

pub open spec fn starts_identifier(c: char) -> bool {
    alphabetic(c) || c == '_'
}

pub open spec fn continues_identifier(c: char) -> bool {
    alphanumeric(c) || c == '_'
}

/// The first position at or after `p` that does not hold whitespace.
pub open spec fn skip_ws(s: Seq<char>, p: int) -> int
    decreases s.len() - p,
{
    if 0 <= p < s.len() && is_white_space(s[p]) {
        skip_ws(s, p + 1)
    } else {
        p
    }
}

/// The end of the run of identifier characters that starts at `p`.
pub open spec fn word_end(s: Seq<char>, p: int) -> int
    decreases s.len() - p,
{
    if 0 <= p < s.len() && continues_identifier(s[p]) {
        word_end(s, p + 1)
    } else {
        p
    }
}

/// The end of the run of ASCII digits that starts at `p`.
pub open spec fn digits_end(s: Seq<char>, p: int) -> int
    decreases s.len() - p,
{
    if 0 <= p < s.len() && is_digit_char(s[p]) {
        digits_end(s, p + 1)
    } else {
        p
    }
}

/// One scanning step from position `p`: the token found there and the
/// position just after it.
pub open spec fn scan(s: Seq<char>, p: int) -> (Lexeme, int) {
    let q = skip_ws(s, p);
    if q >= s.len() {
        (eof_lexeme(), q)
    } else {
        let c = s[q];
        if c == '=' {
            (Lexeme { kind: TokenKind::Assign, text: seq!['='] }, q + 1)
        } else if c == '{' {
            (Lexeme { kind: TokenKind::LeftBrace, text: seq!['{'] }, q + 1)
        } else if c == '}' {
            (Lexeme { kind: TokenKind::RightBrace, text: seq!['}'] }, q + 1)
        } else if is_digit_char(c) {
            let e = digits_end(s, q);
            (Lexeme { kind: TokenKind::Integer, text: s.subrange(q, e) }, e)
        } else if starts_identifier(c) {
            let e = word_end(s, q + 1);
            let w = s.subrange(q, e);
            (Lexeme { kind: keyword_kind(w), text: w }, e)
        } else {
            (Lexeme { kind: TokenKind::Illegal, text: seq![c] }, q + 1)
        }
    }
}

/// The tokens of `s` from position `p` on, the final end-of-input token left out.
pub open spec fn lex_from(s: Seq<char>, p: int) -> Seq<Lexeme>
    decreases s.len() - p,
{
    let (t, q) = scan(s, p);
    if t.kind != TokenKind::Eof && p < q <= s.len() {
        seq![t] + lex_from(s, q)
    } else {
        Seq::empty()
    }
}

/// The position reached after `n` scanning steps from `p`.
pub open spec fn pos_after(s: Seq<char>, p: int, n: nat) -> int
    decreases n,
{
    if n == 0 {
        p
    } else {
        scan(s, pos_after(s, p, (n - 1) as nat)).1
    }
}

pub proof fn lemma_skip_ws(s: Seq<char>, p: int)
    requires
        0 <= p <= s.len(),
    ensures
        p <= skip_ws(s, p) <= s.len(),
        skip_ws(s, p) < s.len() ==> !is_white_space(s[skip_ws(s, p)]),
    decreases s.len() - p,
{
    if p < s.len() && is_white_space(s[p]) {
        lemma_skip_ws(s, p + 1);
    }
}

pub proof fn lemma_word_end(s: Seq<char>, p: int)
    requires
        0 <= p <= s.len(),
    ensures
        p <= word_end(s, p) <= s.len(),
    decreases s.len() - p,
{
    if p < s.len() && continues_identifier(s[p]) {
        lemma_word_end(s, p + 1);
    }
}

pub proof fn lemma_digits_end(s: Seq<char>, p: int)
    requires
        0 <= p <= s.len(),
    ensures
        p <= digits_end(s, p) <= s.len(),
        forall|i: int| p <= i < digits_end(s, p) ==> is_digit_char(#[trigger] s[i]),
    decreases s.len() - p,
{
    if p < s.len() && is_digit_char(s[p]) {
        lemma_digits_end(s, p + 1);
    }
}

/// Every scanning step stays within the input; a step that does not reach
/// the end of input moves forward, and one that does stays there.
pub proof fn lemma_scan_bounds(s: Seq<char>, p: int)
    requires
        0 <= p <= s.len(),
    ensures
        p <= scan(s, p).1 <= s.len(),
        scan(s, p).0.kind != TokenKind::Eof ==> p < scan(s, p).1,
        scan(s, p).0.kind == TokenKind::Eof ==> scan(s, p).1 == s.len() && scan(s, s.len() as int)
            == scan(s, p),
{
    lemma_skip_ws(s, p);
    let q = skip_ws(s, p);
    if q < s.len() {
        lemma_digits_end(s, q);
        lemma_digits_end(s, q + 1);
        lemma_word_end(s, q + 1);
    }
    assert(skip_ws(s, s.len() as int) == s.len());
}

/// Scanning is total and ends: from any position, every run of at least as
/// many steps as there are characters left ends on the end-of-input token,
/// and from there on every further step yields it again.
pub proof fn lemma_scanning_terminates(s: Seq<char>, p: int, n: nat)
    requires
        0 <= p <= s.len(),
        n >= s.len() - p,
    ensures
        scan(s, pos_after(s, p, n)).0 == eof_lexeme(),
        scan(s, pos_after(s, p, n + 1)) == scan(s, pos_after(s, p, n)),
{
    lemma_progress(s, p, n);
    let a = pos_after(s, p, n);
    lemma_scan_bounds(s, a);
    if scan(s, a).0.kind != TokenKind::Eof {
        assert(a >= p + n);
        assert(false);
    }
}

proof fn lemma_progress(s: Seq<char>, p: int, n: nat)
    requires
        0 <= p <= s.len(),
    ensures
        p <= pos_after(s, p, n) <= s.len(),
        scan(s, pos_after(s, p, n)).0.kind == TokenKind::Eof || pos_after(s, p, n) >= p + n,
    decreases n,
{
    if n > 0 {
        let m = (n - 1) as nat;
        lemma_progress(s, p, m);
        let a = pos_after(s, p, m);
        lemma_scan_bounds(s, a);
        if scan(s, a).0.kind == TokenKind::Eof {
            lemma_scan_bounds(s, s.len() as int);
        }
    }
}

/// The token found at `p` heads the token stream from `p`, and the stream
/// from the position after it is the rest.
pub proof fn lemma_lex_step(s: Seq<char>, p: int)
    requires
        0 <= p <= s.len(),
    ensures
        scan(s, p).0 == (if lex_from(s, p).len() > 0 {
            lex_from(s, p)[0]
        } else {
            eof_lexeme()
        }),
        lex_from(s, p).len() > 0 ==> lex_from(s, scan(s, p).1) == lex_from(s, p).drop_first(),
        lex_from(s, p).len() == 0 ==> lex_from(s, scan(s, p).1).len() == 0,
        0 <= scan(s, p).1 <= s.len(),
{
    lemma_scan_bounds(s, p);
    let (t, q) = scan(s, p);
    if t.kind != TokenKind::Eof {
        assert(lex_from(s, p) == seq![t] + lex_from(s, q));
        assert(lex_from(s, p).drop_first() =~= lex_from(s, q));
    } else {
        lemma_scan_bounds(s, s.len() as int);
        assert(t == eof_lexeme());
    }
}

pub const EOF_CHAR: char = '\0';

/// Whether a character is whitespace in Unicode's sense.
pub fn is_whitespace(c: char) -> (r: bool)
    ensures
        r == is_white_space(c),
{
    let u = c as u32;
    u == 0x20 || (0x09 <= u && u <= 0x0d) || u == 0x85 || u == 0xa0 || u == 0x1680 || (0x2000 <= u
        && u <= 0x200a) || u == 0x2028 || u == 0x2029 || u == 0x202f || u == 0x205f || u == 0x3000
}

/// Whether a character is an ASCII decimal digit.
pub fn is_digit(c: char) -> (r: bool)
    ensures
        r == is_digit_char(c),
{
    '0' <= c && c <= '9'
}

/// Relies on char::is_alphabetic, which tells whether the character has the
/// Unicode Alphabetic property.
#[verifier::external_body]
fn char_is_alphabetic(c: char) -> (r: bool)
    ensures
        r == alphabetic(c),
{
    c.is_alphabetic()
}

/// Relies on char::is_alphanumeric, which tells whether the character is
/// alphabetic or numeric: documented as `is_alphabetic() || is_numeric()`.
#[verifier::external_body]
fn char_is_alphanumeric(c: char) -> (r: bool)
    ensures
        r == alphanumeric(c),
        alphabetic(c) ==> r,
{
    c.is_alphanumeric()
}

/// A scanner over a source text, with a cursor on the next character to read.
#[derive(Debug)]
pub struct Lexer {
    pub input: String,
    /// Number of characters in `input`.
    pub len: usize,
    /// Position of the character under examination.
    pub cur: usize,
}

impl Lexer {
    /// The cursor may run past the end of input; reads there give `EOF_CHAR`.
    pub open spec fn wf(&self) -> bool {
        self.len == self.input@.len()
    }

    pub open spec fn source(&self) -> Seq<char> {
        self.input@
    }

    pub fn new(input: &str) -> (r: Lexer)
        ensures
            r.wf(),
            r.source() == input@,
            r.cur == 0,
    {
        let len = input.unicode_len();
        Lexer { input: input.to_owned(), len, cur: 0 }
    }

    /// The character under examination; `EOF_CHAR` past the end of input.
    pub fn current_char(&self) -> (c: char)
        requires
            self.wf(),
        ensures
            c == (if self.cur < self.len {
                self.source()[self.cur as int]
            } else {
                EOF_CHAR
            }),
    {
        if self.cur < self.len {
            self.input.as_str().get_char(self.cur)
        } else {
            EOF_CHAR
        }
    }

    /// The character after the one under examination; `EOF_CHAR` past the
    /// end of input.
    pub fn peek_char(&self) -> (c: char)
        requires
            self.wf(),
        ensures
            c == (if self.cur + 1 < self.len {
                self.source()[self.cur + 1]
            } else {
                EOF_CHAR
            }),
    {
        if self.cur < self.len && self.cur + 1 < self.len {
            self.input.as_str().get_char(self.cur + 1)
        } else {
            EOF_CHAR
        }
    }

    /// Moves the cursor one character on. Past the end of input it goes on
    /// counting, and what it reads there is `EOF_CHAR`.
    pub fn eat_char(&mut self)
        requires
            old(self).wf(),
            old(self).cur < usize::MAX,
        ensures
            final(self).wf(),
            final(self).input == old(self).input,
            final(self).cur == old(self).cur + 1,
    {
        self.cur = self.cur + 1;
    }

    pub fn skip_whitespace(&mut self)
        requires
            old(self).wf(),
        ensures
            final(self).wf(),
            final(self).input == old(self).input,
            final(self).cur == skip_ws(old(self).source(), old(self).cur as int),
    {
        while self.cur < self.len && is_whitespace(self.current_char())
            invariant
                self.wf(),
                self.input == old(self).input,
                skip_ws(self.source(), self.cur as int) == skip_ws(
                    old(self).source(),
                    old(self).cur as int,
                ),
            decreases self.len - self.cur,
        {
            self.eat_char();
        }
    }

    /// Reads the longest run of alphanumeric characters and underscores that
    /// starts under the cursor; empty at the end of input. A letter under the
    /// cursor is always read.
    pub fn eat_identifier(&mut self) -> (r: String)
        requires
            old(self).wf(),
        ensures
            final(self).wf(),
            final(self).input == old(self).input,
            final(self).cur == word_end(old(self).source(), old(self).cur as int),
            r@ == (if old(self).cur <= old(self).len {
                old(self).source().subrange(old(self).cur as int, final(self).cur as int)
            } else {
                Seq::empty()
            }),
            old(self).cur < old(self).len && alphabetic(old(self).source()[old(self).cur as int])
                ==> final(self).cur > old(self).cur,
    {
        let start = self.cur;
        loop
            invariant
                self.wf(),
                self.input == old(self).input,
                start == old(self).cur,
                start <= self.cur,
                self.cur == start || self.cur <= self.len,
                word_end(self.source(), self.cur as int) == word_end(
                    old(self).source(),
                    start as int,
                ),
            ensures
                self.wf(),
                self.input == old(self).input,
                start <= self.cur,
                self.cur == start || self.cur <= self.len,
                self.cur == word_end(old(self).source(), start as int),
                start < self.len && alphabetic(old(self).source()[start as int]) ==> self.cur
                    > start,
            decreases self.len - self.cur,
        {
            if self.cur >= self.len {
                break;
            }
            let c = self.current_char();
            let word_char = char_is_alphanumeric(c) || c == '_';
            if !word_char {
                break;
            }
            self.eat_char();
        }
        if start <= self.len {
            self.input.as_str().substring_char(start, self.cur).to_owned()
        } else {
            String::new()
        }
    }

    /// Reads the longest run of ASCII digits that starts under the cursor;
    /// empty at the end of input.
    pub fn eat_number(&mut self) -> (r: String)
        requires
            old(self).wf(),
        ensures
            final(self).wf(),
            final(self).input == old(self).input,
            final(self).cur == digits_end(old(self).source(), old(self).cur as int),
            r@ == (if old(self).cur <= old(self).len {
                old(self).source().subrange(old(self).cur as int, final(self).cur as int)
            } else {
                Seq::empty()
            }),
    {
        let start = self.cur;
        while self.cur < self.len && is_digit(self.current_char())
            invariant
                self.wf(),
                self.input == old(self).input,
                start <= self.cur,
                self.cur == start || self.cur <= self.len,
                digits_end(self.source(), self.cur as int) == digits_end(
                    old(self).source(),
                    old(self).cur as int,
                ),
            decreases self.len - self.cur,
        {
            self.eat_char();
        }
        if start <= self.len {
            self.input.as_str().substring_char(start, self.cur).to_owned()
        } else {
            String::new()
        }
    }

    /// Reads the next token and moves past it. At the end of input it yields
    /// the end-of-input token, again on every later call, and the cursor
    /// stays where it is.
    pub fn next_token(&mut self) -> (t: Token)
        requires
            old(self).wf(),
        ensures
            final(self).wf(),
            final(self).input == old(self).input,
            (t@, final(self).cur as int) == scan(old(self).source(), old(self).cur as int),
    {
        proof {
            if self.cur <= self.len {
                lemma_skip_ws(self.source(), self.cur as int);
            }
        }
        self.skip_whitespace();
        if self.cur >= self.len {
            return Token { kind: TokenKind::Eof, literal: String::new() };
        }
        let c = self.current_char();
        if c == '=' || c == '{' || c == '}' {
            let literal = self.input.as_str().substring_char(self.cur, self.cur + 1).to_owned();
            let kind = if c == '=' {
                TokenKind::Assign
            } else if c == '{' {
                TokenKind::LeftBrace
            } else {
                TokenKind::RightBrace
            };
            self.eat_char();
            assert(literal@ =~= seq![c]);
            Token { kind, literal }
        } else if is_digit(c) {
            let literal = self.eat_number();
            Token { kind: TokenKind::Integer, literal }
        } else if char_is_alphabetic(c) || c == '_' {
            let literal = self.eat_identifier();
            proof {
                let src = self.source();
                let q = skip_ws(src, old(self).cur as int);
                assert(continues_identifier(src[q]));
                assert(word_end(src, q) == word_end(src, q + 1));
            }
            let kind = TokenKind::lookup_identifier(literal.as_str());
            Token { kind, literal }
        } else {
            let literal = self.input.as_str().substring_char(self.cur, self.cur + 1).to_owned();
            self.eat_char();
            assert(literal@ =~= seq![c]);
            Token { kind: TokenKind::Illegal, literal }
        }
    }
}

} // verus!

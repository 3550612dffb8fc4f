use vstd::prelude::*;

use crate::ast::{
    lemma_stmts_model_push, stmts_model, Expr, Expression, ParseFailure, ParserError, Program,
    Statement, Stmt,
};
use crate::lexer::{is_digit, is_digit_char, lemma_lex_step, lex_from, Lexer};
use crate::token::{eof_lexeme, Lexeme, Token, TokenKind};

verus! {

/// The token at index `k` of a token stream; the end-of-input token past its end.
pub open spec fn tok_at(ts: Seq<Lexeme>, k: int) -> Lexeme {
    if 0 <= k < ts.len() {
        ts[k]
    } else {
        eof_lexeme()
    }
}

/// The tokens of a stream from index `n` on.
pub open spec fn rest_after(ts: Seq<Lexeme>, n: int) -> Seq<Lexeme> {
    if 0 <= n <= ts.len() {
        ts.subrange(n, ts.len() as int)
    } else {
        Seq::empty()
    }
}

/// The index that follows `k` in a stream of `n` tokens; the end stays put.
pub open spec fn step(k: int, n: int) -> int {
    if k < n {
        k + 1
    } else {
        k
    }
}

/// The value of a run of decimal digits.
pub open spec fn digits_value(t: Seq<char>) -> int
    decreases t.len(),
{
    if t.len() == 0 {
        0
    } else {
        digits_value(t.drop_last()) * 10 + (t.last() as u32 - '0' as u32)
    }
}

pub open spec fn all_digits(t: Seq<char>) -> bool {
    forall|i: int| 0 <= i < t.len() ==> is_digit_char(#[trigger] t[i])
}

/// The word-sized integer that literal text denotes, or why it denotes none.
pub open spec fn literal_value(t: Seq<char>) -> Result<isize, ParseFailure> {
    if t.len() == 0 || !all_digits(t) {
        Err(ParseFailure::Malformed(t))
    } else if digits_value(t) > isize::MAX {
        Err(ParseFailure::OutOfRange(t))
    } else {
        Ok(digits_value(t) as isize)
    }
}

/// The expression whose single token stands at index `k`.
pub open spec fn parse_expr_at(ts: Seq<Lexeme>, k: int) -> Result<Expr, ParseFailure> {
    let t = tok_at(ts, k);
    if t.kind == TokenKind::Integer {
        match literal_value(t.text) {
            Ok(v) => Ok(Expr::Int(v)),
            Err(e) => Err(e),
        }
    } else if t.kind == TokenKind::Identifier {
        Ok(Expr::Ident(t.text))
    } else {
        Err(ParseFailure::Unexpected(t))
    }
}

/// `print` at index `k`, then an expression.
pub open spec fn parse_print_at(ts: Seq<Lexeme>, k: int) -> Result<(Stmt, int), ParseFailure> {
    match parse_expr_at(ts, k + 1) {
        Ok(e) => Ok((Stmt::Print(e), k + 1)),
        Err(e) => Err(e),
    }
}

/// A name at index `k`, `=`, then an expression.
pub open spec fn parse_assign_at(ts: Seq<Lexeme>, k: int) -> Result<(Stmt, int), ParseFailure> {
    if tok_at(ts, k + 1).kind != TokenKind::Assign {
        Err(ParseFailure::Unexpected(tok_at(ts, k + 1)))
    } else {
        match parse_expr_at(ts, k + 2) {
            Ok(e) => Ok((Stmt::Assign(tok_at(ts, k).text, e), k + 2)),
            Err(e) => Err(e),
        }
    }
}

/// An expression standing as a statement at index `k`.
pub open spec fn parse_expr_stmt_at(ts: Seq<Lexeme>, k: int) -> Result<(Stmt, int), ParseFailure> {
    match parse_expr_at(ts, k) {
        Ok(e) => Ok((Stmt::Expression(e), k)),
        Err(e) => Err(e),
    }
}

/// The statement that starts at index `k`, with the index of its last token.
pub open spec fn parse_stmt_at(ts: Seq<Lexeme>, k: int) -> Result<(Stmt, int), ParseFailure>
    decreases ts.len() - k, 1int,
{
    let t = tok_at(ts, k);
    if t.kind == TokenKind::Scope {
        parse_block_at(ts, k)
    } else if t.kind == TokenKind::Print {
        parse_print_at(ts, k)
    } else if t.kind == TokenKind::Identifier && tok_at(ts, k + 1).kind == TokenKind::Assign {
        parse_assign_at(ts, k)
    } else {
        parse_expr_stmt_at(ts, k)
    }
}

/// `scope` at index `k`, `{`, statements, `}`.
pub open spec fn parse_block_at(ts: Seq<Lexeme>, k: int) -> Result<(Stmt, int), ParseFailure>
    decreases ts.len() - k, 0int,
{
    let b = tok_at(ts, k + 1);
    if b.kind != TokenKind::LeftBrace {
        Err(ParseFailure::Unexpected(b))
    } else {
        parse_body_at(ts, k + 2, Seq::empty())
    }
}

/// The statements of a block from index `k` up to its closing brace, after
/// those already read (`acc`).
pub open spec fn parse_body_at(ts: Seq<Lexeme>, k: int, acc: Seq<Stmt>) -> Result<
    (Stmt, int),
    ParseFailure,
>
    decreases ts.len() - k, 2int,
{
    if tok_at(ts, k).kind == TokenKind::RightBrace {
        Ok((Stmt::Block(acc), k))
    } else {
        match parse_stmt_at(ts, k) {
            Err(e) => Err(e),
            Ok((st, last)) => if k <= last < ts.len() {
                parse_body_at(ts, last + 1, acc.push(st))
            } else {
                Err(ParseFailure::Unexpected(eof_lexeme()))
            },
        }
    }
}

/// The statements of a program from index `k` to the end of input, after
/// those already read (`acc`).
pub open spec fn parse_program_at(ts: Seq<Lexeme>, k: int, acc: Seq<Stmt>) -> Result<
    Seq<Stmt>,
    ParseFailure,
>
    decreases ts.len() - k,
{
    if tok_at(ts, k).kind == TokenKind::Eof {
        Ok(acc)
    } else {
        match parse_stmt_at(ts, k) {
            Err(e) => Err(e),
            Ok((st, last)) => if k <= last < ts.len() {
                parse_program_at(ts, last + 1, acc.push(st))
            } else {
                Err(ParseFailure::Unexpected(eof_lexeme()))
            },
        }
    }
}

/// The program that a source text holds, or the first error in it.
pub open spec fn parse_source(s: Seq<char>) -> Result<Seq<Stmt>, ParseFailure> {
    parse_program_at(lex_from(s, 0), 0, Seq::empty())
}

/// What a statement parse returned, against its model: the statement and the
/// index of its last token, or the error.
pub open spec fn stmt_outcome(
    r: Result<Statement, ParserError>,
    last: int,
    m: Result<(Stmt, int), ParseFailure>,
) -> bool {
    match m {
        Ok((st, l)) => r is Ok && r->Ok_0@ == st && last == l,
        Err(e) => r is Err && r->Err_0@ == e,
    }
}

pub open spec fn expr_outcome(r: Result<Expression, ParserError>, m: Result<Expr, ParseFailure>) -> bool {
    match m {
        Ok(e) => r is Ok && r->Ok_0@ == e,
        Err(e) => r is Err && r->Err_0@ == e,
    }
}

/// A statement ends on a token at or after its first one, and before the end of input.
pub proof fn lemma_stmt_span(ts: Seq<Lexeme>, k: int)
    requires
        0 <= k,
    ensures
        parse_stmt_at(ts, k) matches Ok((_, last)) ==> k <= last < ts.len(),
    decreases ts.len() - k, 1int,
{
    let t = tok_at(ts, k);
    if t.kind == TokenKind::Scope {
        lemma_block_span(ts, k);
    }
}

proof fn lemma_block_span(ts: Seq<Lexeme>, k: int)
    requires
        0 <= k,
    ensures
        parse_block_at(ts, k) matches Ok((_, last)) ==> k <= last < ts.len(),
    decreases ts.len() - k, 0int,
{
    if tok_at(ts, k + 1).kind == TokenKind::LeftBrace {
        lemma_body_span(ts, k + 2, Seq::empty());
    }
}

proof fn lemma_body_span(ts: Seq<Lexeme>, k: int, acc: Seq<Stmt>)
    requires
        0 <= k,
    ensures
        parse_body_at(ts, k, acc) matches Ok((_, last)) ==> k <= last < ts.len(),
    decreases ts.len() - k, 2int,
{
    if tok_at(ts, k).kind != TokenKind::RightBrace {
        lemma_stmt_span(ts, k);
        if let Ok((st, last)) = parse_stmt_at(ts, k) {
            if k <= last < ts.len() {
                lemma_body_span(ts, last + 1, acc.push(st));
            }
        }
    }
}

/// One scanning step from a position whose token stream is the rest of `ts`
/// from index `n` yields the token at `n`, and leaves the rest from `n + 1`.
proof fn lemma_advance(s: Seq<char>, p: int, ts: Seq<Lexeme>, n: int)
    requires
        0 <= p <= s.len(),
        0 <= n,
        lex_from(s, p) == rest_after(ts, n),
    ensures
        crate::lexer::scan(s, p).0 == tok_at(ts, n),
        lex_from(s, crate::lexer::scan(s, p).1) == rest_after(ts, n + 1),
        0 <= crate::lexer::scan(s, p).1 <= s.len(),
{
    lemma_lex_step(s, p);
    if n < ts.len() {
        assert(rest_after(ts, n)[0] == ts[n]);
        assert(rest_after(ts, n).drop_first() =~= rest_after(ts, n + 1));
    }
}

proof fn lemma_digits_value_prefix(t: Seq<char>, j: int)
    requires
        all_digits(t),
        0 <= j <= t.len(),
    ensures
        0 <= digits_value(t.subrange(0, j)) <= digits_value(t),
    decreases t.len(),
{
    if j < t.len() {
        let u = t.drop_last();
        assert(all_digits(u));
        assert(u.subrange(0, j) =~= t.subrange(0, j));
        lemma_digits_value_prefix(u, j);
    } else {
        assert(t.subrange(0, j) =~= t);
        if t.len() > 0 {
            lemma_digits_value_prefix(t.drop_last(), t.len() - 1);
            assert(t.drop_last().subrange(0, t.len() - 1) =~= t.drop_last());
        }
    }
}

/// The word-sized integer that literal text denotes.
pub fn literal_to_int(text: &str) -> (r: Result<isize, ParserError>)
    ensures
        match literal_value(text@) {
            Ok(v) => r == Ok::<isize, ParserError>(v),
            Err(e) => r is Err && r->Err_0@ == e,
        },
{
    let n = text.unicode_len();
    if n == 0 {
        return Err(ParserError::ParseIntError(text.to_owned()));
    }
    let mut i: usize = 0;
    while i < n
        invariant
            n == text@.len(),
            i <= n,
            forall|j: int| 0 <= j < i ==> is_digit_char(#[trigger] text@[j]),
        decreases n - i,
    {
        if !is_digit(text.get_char(i)) {
            return Err(ParserError::ParseIntError(text.to_owned()));
        }
        i = i + 1;
    }
    let ghost t = text@;
    let mut acc: isize = 0;
    i = 0;
    while i < n
        invariant
            n == t.len(),
            t == text@,
            all_digits(t),
            i <= n,
            0 <= acc,
            acc as int == digits_value(t.subrange(0, i as int)),
        decreases n - i,
    {
        let c = text.get_char(i);
        let d = (c as u32 - '0' as u32) as isize;
        assert(t.subrange(0, i + 1).drop_last() =~= t.subrange(0, i as int));
        assert(digits_value(t.subrange(0, i + 1)) == acc * 10 + d);
        if acc > (isize::MAX - d) / 10 {
            assert(acc * 10 + d > isize::MAX) by (nonlinear_arith)
                requires
                    acc > (isize::MAX - d) / 10,
                    0 <= d <= 9,
            ;
            proof {
                lemma_digits_value_prefix(t, i + 1);
            }
            return Err(ParserError::IntConversionError(text.to_owned()));
        }
        assert(acc * 10 + d <= isize::MAX) by (nonlinear_arith)
            requires
                acc <= (isize::MAX - d) / 10,
                0 <= d <= 9,
                0 <= acc,
        ;
        acc = acc * 10 + d;
        i = i + 1;
    }
    assert(t.subrange(0, n as int) =~= t);
    Ok(acc)
}

impl Token {
    /// A token equal to this one.
    pub fn copy_token(&self) -> (r: Token)
        ensures
            r@ == self@,
    {
        Token { kind: self.kind, literal: self.literal.clone() }
    }
}

/// A recursive-descent parser with two tokens of lookahead.
pub struct Parser {
    pub lexer: Lexer,
    pub cur: Token,
    pub next: Token,
    /// Index of `cur` in the token stream of the source.
    pub index: Ghost<int>,
}

impl Parser {
    pub open spec fn source(&self) -> Seq<char> {
        self.lexer.source()
    }

    /// The tokens of the whole source, the end-of-input token left out.
    pub open spec fn tokens(&self) -> Seq<Lexeme> {
        lex_from(self.source(), 0)
    }

    pub open spec fn wf(&self) -> bool {
        &&& self.lexer.wf()
        &&& self.lexer.cur <= self.lexer.len
        &&& 0 <= self.index@ <= self.tokens().len()
        &&& self.cur@ == tok_at(self.tokens(), self.index@)
        &&& self.next@ == tok_at(self.tokens(), self.index@ + 1)
        &&& lex_from(self.source(), self.lexer.cur as int) == rest_after(
            self.tokens(),
            self.index@ + 2,
        )
    }

    /// A parser at the first token of `input`.
    pub fn new(input: &str) -> (r: Parser)
        ensures
            r.wf(),
            r.source() == input@,
            r.index@ == 0,
    {
        let mut lexer = Lexer::new(input);
        let ghost s = lexer.source();
        let ghost ts = lex_from(s, 0);
        proof {
            assert(rest_after(ts, 0) =~= ts);
            lemma_advance(s, 0, ts, 0);
        }
        // prime both lookahead slots
        let cur = lexer.next_token();
        proof {
            lemma_advance(s, lexer.cur as int, ts, 1);
        }
        let next = lexer.next_token();
        Parser { lexer, cur, next, index: Ghost(0) }
    }

    /// Shifts `next` into `cur` and reads a fresh token into `next`.
    pub fn eat_token(&mut self)
        requires
            old(self).wf(),
        ensures
            final(self).wf(),
            final(self).lexer.input == old(self).lexer.input,
            final(self).index@ == step(old(self).index@, old(self).tokens().len() as int),
            final(self).cur == old(self).next,
            (final(self).next@, final(self).lexer.cur as int) == crate::lexer::scan(
                old(self).source(),
                old(self).lexer.cur as int,
            ),
    {
        let ghost k = self.index@;
        let ghost ts = self.tokens();
        proof {
            lemma_advance(self.source(), self.lexer.cur as int, ts, k + 2);
        }
        let mut t = self.lexer.next_token();
        std::mem::swap(&mut self.next, &mut t);
        self.cur = t;
        self.index = Ghost(step(k, ts.len() as int));
    }

    /// Moves on to `next` when it has the given kind, and hands it back.
    pub fn expect_token(&mut self, token_kind: TokenKind) -> (r: Result<Token, ParserError>)
        requires
            old(self).wf(),
        ensures
            final(self).wf(),
            final(self).lexer.input == old(self).lexer.input,
            old(self).next.kind == token_kind ==> r is Ok && r->Ok_0@ == old(self).next@
                && final(self).index@ == step(old(self).index@, old(self).tokens().len() as int)
                && final(self).cur == old(self).next && (
                final(self).next@,
                final(self).lexer.cur as int,
            ) == crate::lexer::scan(old(self).source(), old(self).lexer.cur as int),
            old(self).next.kind != token_kind ==> r is Err && r->Err_0@ == ParseFailure::Unexpected(
                old(self).next@,
            ) && *final(self) == *old(self),
    {
        if self.next.kind != token_kind {
            return Err(ParserError::UnexpectedToken(self.next.copy_token()));
        }
        self.eat_token();
        Ok(self.cur.copy_token())
    }

    /// Parses statements until the end of input.
    pub fn parse_program(&mut self) -> (r: Result<Program, ParserError>)
        requires
            old(self).wf(),
        ensures
            final(self).wf(),
            final(self).lexer.input == old(self).lexer.input,
            match parse_program_at(old(self).tokens(), old(self).index@, Seq::empty()) {
                Ok(v) => r is Ok && r->Ok_0@ == v,
                Err(e) => r is Err && r->Err_0@ == e,
            },
    {
        let ghost ts = self.tokens();
        let ghost k0 = self.index@;
        let mut statements: Vec<Statement> = Vec::new();
        while self.cur.kind != TokenKind::Eof
            invariant
                self.wf(),
                self.lexer.input == old(self).lexer.input,
                self.tokens() == ts,
                ts == old(self).tokens(),
                k0 == old(self).index@,
                parse_program_at(ts, k0, Seq::empty()) == parse_program_at(
                    ts,
                    self.index@,
                    stmts_model(statements@),
                ),
            decreases ts.len() - self.index@,
        {
            let ghost k = self.index@;
            proof {
                lemma_stmt_span(ts, k);
            }
            let statement = match self.parse_statement() {
                Ok(st) => st,
                Err(e) => {
                    return Err(e);
                },
            };
            proof {
                lemma_stmts_model_push(statements@, statement);
            }
            statements.push(statement);
            self.eat_token();
        }
        Ok(Program(statements))
    }

    /// Parses the statement that starts at `cur`, leaving `cur` on its last token.
    pub fn parse_statement(&mut self) -> (r: Result<Statement, ParserError>)
        requires
            old(self).wf(),
        ensures
            final(self).wf(),
            final(self).lexer.input == old(self).lexer.input,
            stmt_outcome(r, final(self).index@, parse_stmt_at(old(self).tokens(), old(self).index@)),
        decreases old(self).tokens().len() - old(self).index@, 1int,
    {
        match self.cur.kind {
            TokenKind::Scope => self.parse_block_statement(),
            TokenKind::Print => self.parse_print_statement(),
            TokenKind::Identifier => {
                if self.next.kind == TokenKind::Assign {
                    self.parse_assign_statement()
                } else {
                    self.parse_expression_statement()
                }
            },
            _ => self.parse_expression_statement(),
        }
    }

    /// Parses `name = expression`, `cur` being on the name.
    pub fn parse_assign_statement(&mut self) -> (r: Result<Statement, ParserError>)
        requires
            old(self).wf(),
        ensures
            final(self).wf(),
            final(self).lexer.input == old(self).lexer.input,
            stmt_outcome(
                r,
                final(self).index@,
                parse_assign_at(old(self).tokens(), old(self).index@),
            ),
    {
        let name = self.cur.literal.clone();
        match self.expect_token(TokenKind::Assign) {
            Ok(_) => {},
            Err(e) => {
                return Err(e);
            },
        }
        match self.parse_expression(false) {
            Ok(value) => Ok(Statement::AssignStatement { name, value }),
            Err(e) => Err(e),
        }
    }

    /// Parses `scope { statements }`, `cur` being on the keyword; leaves
    /// `cur` on the closing brace.
    pub fn parse_block_statement(&mut self) -> (r: Result<Statement, ParserError>)
        requires
            old(self).wf(),
        ensures
            final(self).wf(),
            final(self).lexer.input == old(self).lexer.input,
            stmt_outcome(r, final(self).index@, parse_block_at(old(self).tokens(), old(self).index@)),
        decreases old(self).tokens().len() - old(self).index@, 0int,
    {
        let ghost ts = self.tokens();
        let ghost k0 = self.index@;
        // consume the keyword
        self.eat_token();
        if self.cur.kind != TokenKind::LeftBrace {
            return Err(ParserError::UnexpectedToken(self.cur.copy_token()));
        }
        // consume the left brace
        self.eat_token();
        let mut statements: Vec<Statement> = Vec::new();
        assert(stmts_model(statements@) =~= Seq::<Stmt>::empty());
        while self.cur.kind != TokenKind::RightBrace
            invariant
                self.wf(),
                self.lexer.input == old(self).lexer.input,
                self.tokens() == ts,
                ts == old(self).tokens(),
                k0 == old(self).index@,
                k0 + 2 <= self.index@,
                parse_block_at(ts, k0) == parse_body_at(
                    ts,
                    self.index@,
                    stmts_model(statements@),
                ),
            decreases ts.len() - self.index@,
        {
            let ghost k = self.index@;
            proof {
                lemma_stmt_span(ts, k);
            }
            let statement = match self.parse_statement() {
                Ok(st) => st,
                Err(e) => {
                    return Err(e);
                },
            };
            proof {
                lemma_stmts_model_push(statements@, statement);
            }
            statements.push(statement);
            self.eat_token();
        }
        Ok(Statement::BlockStatement(statements))
    }

    /// Parses `print expression`, `cur` being on the keyword.
    pub fn parse_print_statement(&mut self) -> (r: Result<Statement, ParserError>)
        requires
            old(self).wf(),
        ensures
            final(self).wf(),
            final(self).lexer.input == old(self).lexer.input,
            stmt_outcome(r, final(self).index@, parse_print_at(old(self).tokens(), old(self).index@)),
    {
        // consume the keyword
        self.eat_token();
        match self.parse_expression(true) {
            Ok(e) => Ok(Statement::PrintStatement(e)),
            Err(e) => Err(e),
        }
    }

    /// Parses an expression that stands as a statement at `cur`.
    pub fn parse_expression_statement(&mut self) -> (r: Result<Statement, ParserError>)
        requires
            old(self).wf(),
        ensures
            final(self).wf(),
            final(self).lexer.input == old(self).lexer.input,
            stmt_outcome(
                r,
                final(self).index@,
                parse_expr_stmt_at(old(self).tokens(), old(self).index@),
            ),
            *final(self) == *old(self),
    {
        match self.parse_expression(true) {
            Ok(e) => Ok(Statement::ExpressionStatement(e)),
            Err(e) => Err(e),
        }
    }

    /// Parses the single-token expression at `cur`, or, unless `skip_eating`
    /// is set, at the token after it.
    pub fn parse_expression(&mut self, skip_eating: bool) -> (r: Result<Expression, ParserError>)
        requires
            old(self).wf(),
        ensures
            final(self).wf(),
            final(self).lexer.input == old(self).lexer.input,
            final(self).index@ == (if skip_eating {
                old(self).index@
            } else {
                step(old(self).index@, old(self).tokens().len() as int)
            }),
            expr_outcome(r, parse_expr_at(old(self).tokens(), final(self).index@)),
            skip_eating ==> *final(self) == *old(self),
    {
        if !skip_eating {
            self.eat_token();
        }
        match self.cur.kind {
            TokenKind::Integer => match literal_to_int(self.cur.literal.as_str()) {
                Ok(n) => Ok(Expression::IntegerLiteral(n)),
                Err(e) => Err(e),
            },
            TokenKind::Identifier => Ok(Expression::Identifier(self.cur.literal.clone())),
            _ => Err(ParserError::UnexpectedToken(self.cur.copy_token())),
        }
    }
}

} // verus!

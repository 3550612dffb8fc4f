use vstd::prelude::*;

use crate::ast::{lemma_stmts_model_len, stmts_model, Expr, Expression, ParseFailure, Statement, Stmt};
use crate::lexer::{digits_end, is_digit_char, lex_from, scan, skip_ws};
use crate::object::{decimal_digits, decimal_text};
use crate::parser::{all_digits, digits_value, parse_stmt_at};
use crate::token::{Lexeme, TokenKind};
use crate::environment::{bind_local, lookup, Environment};
use crate::object::{object_text, EvalError, Object};
use crate::parser::{parse_program_at, parse_source, Parser};

verus! {

broadcast use vstd::std_specs::vec::group_vec_axioms;

/// The scopes of a run, outermost first.
pub type Frames = Seq<Map<Seq<char>, Object>>;

/// The value of an expression in the given scopes.
pub open spec fn eval_expr(e: Expr, frames: Frames) -> Object {
    match e {
        Expr::Int(n) => Object::IntegerValue(n),
        Expr::Ident(name) => lookup(frames, name),
    }
}

/// Evaluating a statement: its value, the scopes after it, and the lines it prints.
pub open spec fn eval_stmt(st: Stmt, frames: Frames) -> (Object, Frames, Seq<Seq<char>>)
    decreases st, 0int,
{
    match st {
        Stmt::Assign(name, e) => (
            Object::NullValue,
            bind_local(frames, name, eval_expr(e, frames)),
            Seq::empty(),
        ),
        Stmt::Expression(e) => (eval_expr(e, frames), frames, Seq::empty()),
        Stmt::Print(e) => (Object::NullValue, frames, seq![object_text(eval_expr(e, frames))]),
        Stmt::Block(body) => {
            let (v, f, out) = eval_seq(body, 0, frames.push(Map::empty()), Object::NullValue);
            (v, f.drop_last(), out)
        },
    }
}

/// Evaluating the statements of a block from index `i` on, `last` being the
/// value of the statement before: the value of the last one, the scopes
/// after them, and the lines they print.
pub open spec fn eval_seq(body: Seq<Stmt>, i: int, frames: Frames, last: Object) -> (
    Object,
    Frames,
    Seq<Seq<char>>,
)
    decreases body, body.len() - i,
{
    if i < 0 || i >= body.len() {
        (last, frames, Seq::empty())
    } else {
        let (v, f1, o1) = eval_stmt(body[i], frames);
        let (r, f2, o2) = eval_seq(body, i + 1, f1, v);
        (r, f2, o1 + o2)
    }
}

/// Evaluating top-level statements from index `i` on: one value for each,
/// the scopes after them, and the lines they print.
pub open spec fn eval_top(stmts: Seq<Stmt>, i: int, frames: Frames) -> (
    Seq<Object>,
    Frames,
    Seq<Seq<char>>,
)
    decreases stmts.len() - i,
{
    if i < 0 || i >= stmts.len() {
        (Seq::empty(), frames, Seq::empty())
    } else {
        let (v, f1, o1) = eval_stmt(stmts[i], frames);
        let (vs, f2, o2) = eval_top(stmts, i + 1, f1);
        (seq![v] + vs, f2, o1 + o2)
    }
}

/// The scopes at the start of a run: one empty scope.
pub open spec fn root_frames() -> Frames {
    seq![Map::empty()]
}

/// The result of running a program text on a fresh evaluator.
pub open spec fn run(s: Seq<char>) -> Result<Seq<Object>, ParseFailure> {
    match parse_source(s) {
        Ok(m) => Ok(eval_top(m, 0, root_frames()).0),
        Err(e) => Err(e),
    }
}

pub open spec fn lines(v: Seq<String>) -> Seq<Seq<char>> {
    v.map_values(|s: String| s@)
}

/// A statement changes only the innermost scope, and a block changes no
/// scope at all.
pub proof fn lemma_stmt_scoped(st: Stmt, frames: Frames)
    requires
        frames.len() > 0,
    ensures
        eval_stmt(st, frames).1.len() == frames.len(),
        eval_stmt(st, frames).1.drop_last() == frames.drop_last(),
        st is Block ==> eval_stmt(st, frames).1 == frames,
    decreases st, 0int,
{
    match st {
        Stmt::Assign(name, e) => {
            let f = eval_stmt(st, frames).1;
            assert(f.drop_last() =~= frames.drop_last());
        },
        Stmt::Block(body) => {
            let g = frames.push(Map::empty());
            lemma_seq_scoped(body, 0, g, Object::NullValue);
            assert(g.drop_last() =~= frames);
        },
        _ => {},
    }
}

proof fn lemma_seq_scoped(body: Seq<Stmt>, i: int, frames: Frames, last: Object)
    requires
        frames.len() > 0,
    ensures
        eval_seq(body, i, frames, last).1.len() == frames.len(),
        eval_seq(body, i, frames, last).1.drop_last() == frames.drop_last(),
    decreases body, body.len() - i,
{
    if 0 <= i < body.len() {
        lemma_stmt_scoped(body[i], frames);
        let (v, f1, o1) = eval_stmt(body[i], frames);
        lemma_seq_scoped(body, i + 1, f1, v);
    }
}

/// A block leaves the enclosing scopes as it found them: what it binds,
/// whether a new name or one that shadows an outer binding, does not reach
/// them, and every name reads afterwards as it did before.
pub proof fn lemma_block_isolates(body: Seq<Stmt>, frames: Frames)
    requires
        frames.len() > 0,
    ensures
        eval_stmt(Stmt::Block(body), frames).1 == frames,
        forall|name: Seq<char>|
            #[trigger] lookup(eval_stmt(Stmt::Block(body), frames).1, name) == lookup(
                frames,
                name,
            ),
{
    lemma_stmt_scoped(Stmt::Block(body), frames);
}

/// An assignment followed by a reference to the same name, in the same
/// scope, gives the assigned value; the assignment itself gives null.
pub proof fn lemma_assign_then_reference(name: Seq<char>, e: Expr, frames: Frames)
    requires
        frames.len() > 0,
    ensures
        eval_stmt(Stmt::Assign(name, e), frames).0 == Object::NullValue,
        eval_stmt(
            Stmt::Expression(Expr::Ident(name)),
            eval_stmt(Stmt::Assign(name, e), frames).1,
        ).0 == eval_expr(e, frames),
{
}

/// Inside a block, assigning a name shadows it there: a reference later in
/// the block sees the new value, and the enclosing scopes keep theirs.
pub proof fn lemma_shadowing_is_local(name: Seq<char>, e: Expr, frames: Frames)
    requires
        frames.len() > 0,
    ensures
        eval_stmt(
            Stmt::Block(seq![Stmt::Assign(name, e), Stmt::Expression(Expr::Ident(name))]),
            frames,
        ).0 == eval_expr(e, frames.push(Map::empty())),
        eval_stmt(
            Stmt::Block(seq![Stmt::Assign(name, e), Stmt::Expression(Expr::Ident(name))]),
            frames,
        ).1 == frames,
{
    let body = seq![Stmt::Assign(name, e), Stmt::Expression(Expr::Ident(name))];
    let g = frames.push(Map::empty());
    lemma_block_isolates(body, frames);
    lemma_assign_then_reference(name, e, g);
    let (v0, f1, o1) = eval_stmt(body[0], g);
    let (v1, f2, o2) = eval_stmt(body[1], f1);
    assert(eval_seq(body, 2, f2, v1).0 == v1);
    assert(eval_seq(body, 1, f1, v0).0 == v1);
}

/// A name that no scope binds reads as null.
pub proof fn lemma_unbound_is_null(name: Seq<char>, frames: Frames)
    requires
        forall|i: int| 0 <= i < frames.len() ==> !(#[trigger] frames[i]).contains_key(name),
    ensures
        eval_expr(Expr::Ident(name), frames) == Object::NullValue,
    decreases frames.len(),
{
    if frames.len() > 0 {
        let g = frames.drop_last();
        assert(frames.last() == frames[frames.len() - 1]);
        assert forall|i: int| 0 <= i < g.len() implies !(#[trigger] g[i]).contains_key(name) by {
            assert(g[i] == frames[i]);
        }
        lemma_unbound_is_null(name, g);
    }
}

/// Runs one program: parses all of it first, then evaluates it statement by
/// statement. The lines that `print` writes are collected in `output`.
pub struct Evaluator {
    pub parser: Parser,
    pub env: Environment,
    pub output: Vec<String>,
}

impl Evaluator {
    pub open spec fn wf(&self) -> bool {
        self.parser.wf()
    }

    /// Whether this evaluator has not run yet, on the program text `s`.
    pub open spec fn is_fresh(&self, s: Seq<char>) -> bool {
        &&& self.wf()
        &&& self.parser.source() == s
        &&& self.parser.index@ == 0
        &&& self.env@ == root_frames()
        &&& self.output@.len() == 0
    }

    /// The program still to be read, or the error that reading it meets.
    pub open spec fn pending(&self) -> Result<Seq<Stmt>, ParseFailure> {
        parse_program_at(self.parser.tokens(), self.parser.index@, Seq::empty())
    }

    /// What `eval_program` returns from this state.
    pub open spec fn outcome(&self) -> Result<Seq<Object>, ParseFailure> {
        match self.pending() {
            Ok(m) => Ok(eval_top(m, 0, self.env@).0),
            Err(e) => Err(e),
        }
    }

    pub fn new(input: &str) -> (r: Evaluator)
        ensures
            r.is_fresh(input@),
    {
        let parser = Parser::new(input);
        let env = Environment::new();
        Evaluator { parser, env, output: Vec::new() }
    }

    /// Parses the whole program, then evaluates its statements in order: one
    /// value for each top-level statement. A parse error stops everything
    /// before any statement is evaluated.
    pub fn eval_program(&mut self) -> (r: Result<Vec<Object>, EvalError>)
        requires
            old(self).wf(),
        ensures
            final(self).wf(),
            match old(self).outcome() {
                Ok(vs) => r is Ok && r->Ok_0@ == vs,
                Err(e) => r is Err && r->Err_0@ == e,
            },
            match old(self).pending() {
                Ok(m) => final(self).env@ == eval_top(m, 0, old(self).env@).1 && lines(
                    final(self).output@,
                ) == lines(old(self).output@) + eval_top(m, 0, old(self).env@).2,
                Err(_) => final(self).env@ == old(self).env@ && final(self).output@ == old(
                    self,
                ).output@,
            },
    {
        let program = match self.parser.parse_program() {
            Ok(p) => p,
            Err(e) => {
                return Err(EvalError::ParsingError(e));
            },
        };
        let ghost m = program@;
        let ghost f0 = self.env@;
        let ghost out0 = lines(self.output@);
        proof {
            lemma_stmts_model_len(program.0@);
        }
        let mut objects: Vec<Object> = Vec::new();
        let mut i: usize = 0;
        while i < program.0.len()
            invariant
                self.wf(),
                m == program@,
                m.len() == program.0@.len(),
                forall|j: int| 0 <= j < m.len() ==> #[trigger] m[j] == program.0@[j]@,
                i <= m.len(),
                f0 == old(self).env@,
                out0 == lines(old(self).output@),
                eval_top(m, 0, f0).0 == objects@ + eval_top(m, i as int, self.env@).0,
                eval_top(m, 0, f0).1 == eval_top(m, i as int, self.env@).1,
                out0 + eval_top(m, 0, f0).2 == lines(self.output@) + eval_top(
                    m,
                    i as int,
                    self.env@,
                ).2,
            decreases program.0.len() - i,
        {
            let ghost fi = self.env@;
            let ghost oi = lines(self.output@);
            let obj = self.eval_statement(&program.0[i]);
            let ghost rest = eval_top(m, i + 1, self.env@);
            let ghost o1 = eval_stmt(m[i as int], fi).2;
            assert(objects@.push(obj) + rest.0 =~= objects@ + (seq![obj] + rest.0));
            assert(lines(self.output@) + rest.2 =~= oi + (o1 + rest.2));
            objects.push(obj);
            i = i + 1;
        }
        assert(objects@ + Seq::<Object>::empty() =~= objects@);
        assert(lines(self.output@) + Seq::<Seq<char>>::empty() =~= lines(self.output@));
        Ok(objects)
    }

    fn eval_statement(&mut self, statement: &Statement) -> (r: Object)
        requires
            old(self).wf(),
        ensures
            final(self).wf(),
            final(self).parser == old(self).parser,
            r == eval_stmt(statement@, old(self).env@).0,
            final(self).env@ == eval_stmt(statement@, old(self).env@).1,
            lines(final(self).output@) == lines(old(self).output@) + eval_stmt(
                statement@,
                old(self).env@,
            ).2,
        decreases statement,
    {
        match statement {
            Statement::AssignStatement { name, value } => {
                let obj = self.eval_expression(value);
                self.env.set(name.clone(), obj);
                assert(lines(self.output@) + Seq::<Seq<char>>::empty() =~= lines(self.output@));
                Object::NullValue
            },
            Statement::ExpressionStatement(expr) => {
                assert(lines(self.output@) + Seq::<Seq<char>>::empty() =~= lines(self.output@));
                self.eval_expression(expr)
            },
            Statement::PrintStatement(expr) => {
                let obj = self.eval_expression(expr);
                let text = obj.to_string();
                let ghost before = lines(self.output@);
                self.output.push(text);
                assert(lines(self.output@) =~= before + seq![text@]);
                Object::NullValue
            },
            Statement::BlockStatement(statements) => {
                let ghost f0 = self.env@;
                let ghost out0 = lines(self.output@);
                let ghost body = stmts_model(statements@);
                proof {
                    lemma_stmts_model_len(statements@);
                }
                // enter a new scope enclosed by the current one
                let mut frame = Environment::new();
                std::mem::swap(&mut self.env, &mut frame);
                let ghost fresh = self.env.store@;
                assert(crate::environment::frame_map(fresh) == Map::<Seq<char>, Object>::empty());
                let ghost enclosing = frame;
                self.env.outer = Some(Box::new(frame));
                assert(self.env@ == enclosing@.push(crate::environment::frame_map(fresh)));
                assert(self.env@ =~= f0.push(Map::empty()));
                let ghost f1 = self.env@;
                let mut obj = Object::NullValue;
                let mut i: usize = 0;
                while i < statements.len()
                    invariant
                        self.wf(),
                        self.parser == old(self).parser,
                        body.len() == statements@.len(),
                        forall|j: int| 0 <= j < body.len() ==> #[trigger] body[j] == statements@[j]@,
                        i <= body.len(),
                        *statement == Statement::BlockStatement(*statements),
                        f0 == old(self).env@,
                        f0.len() > 0,
                        f1 == f0.push(Map::empty()),
                        out0 == lines(old(self).output@),
                        eval_seq(body, 0, f1, Object::NullValue).0 == eval_seq(
                            body,
                            i as int,
                            self.env@,
                            obj,
                        ).0,
                        eval_seq(body, 0, f1, Object::NullValue).1 == eval_seq(
                            body,
                            i as int,
                            self.env@,
                            obj,
                        ).1,
                        out0 + eval_seq(body, 0, f1, Object::NullValue).2 == lines(self.output@)
                            + eval_seq(body, i as int, self.env@, obj).2,
                    decreases statements.len() - i,
                {
                    let ghost fi = self.env@;
                    let ghost oi = lines(self.output@);
                    proof {
                        assert(decreases_to!(*statement => statement->BlockStatement_0));
                        assert(statement->BlockStatement_0 == *statements);
                        assert(decreases_to!(*statements => statements@));
                        assert(decreases_to!(statements@ => statements@[i as int]));
                        assert(decreases_to!(*statement => statements@[i as int]));
                    }
                    obj = self.eval_statement(&statements[i]);
                    let ghost rest = eval_seq(body, i + 1, self.env@, obj);
                    let ghost o1 = eval_stmt(body[i as int], fi).2;
                    assert(lines(self.output@) + rest.2 =~= oi + (o1 + rest.2));
                    i = i + 1;
                }
                assert(lines(self.output@) + Seq::<Seq<char>>::empty() =~= lines(self.output@));
                proof {
                    lemma_seq_scoped(body, 0, f1, Object::NullValue);
                }
                // leave the scope and return to the enclosing one
                let mut inner = Environment::new();
                std::mem::swap(&mut self.env, &mut inner);
                match inner.outer {
                    Some(o) => {
                        assert(inner@ == o@.push(crate::environment::frame_map(inner.store@)));
                        assert(inner@.drop_last() =~= o@);
                        self.env = *o;
                    },
                    None => {
                        assert(inner@.len() == 1);
                    },
                }
                obj
            },
        }
    }

    fn eval_expression(&self, expr: &Expression) -> (r: Object)
        ensures
            r == eval_expr(expr@, self.env@),
    {
        match expr {
            Expression::IntegerLiteral(lit) => Object::IntegerValue(*lit),
            Expression::Identifier(name) => self.env.get(name.as_str()),
        }
    }
}

/// Two evaluators freshly made on the same program text return the same
/// result, end in the same scopes and print the same lines: nothing carries
/// over from one run to another.
pub proof fn lemma_fresh_runs_agree(a: Evaluator, b: Evaluator, s: Seq<char>)
    requires
        a.is_fresh(s),
        b.is_fresh(s),
    ensures
        a.outcome() == b.outcome(),
        a.outcome() == run(s),
        a.pending() == b.pending(),
        a.env@ == b.env@,
        lines(a.output@) == lines(b.output@),
{
    assert(lines(a.output@) =~= lines(b.output@));
}

proof fn lemma_decimal_digits(n: nat)
    ensures
        decimal_digits(n).len() > 0,
        all_digits(decimal_digits(n)),
        digits_value(decimal_digits(n)) == n,
    decreases n,
{
    let d = seq!['0', '1', '2', '3', '4', '5', '6', '7', '8', '9'];
    assert(is_digit_char(d[(n % 10) as int]));
    let c = d[(n % 10) as int];
    assert(c as u32 - '0' as u32 == n % 10);
    let t = decimal_digits(n);
    assert(t.last() == c);
    if n >= 10 {
        lemma_decimal_digits(n / 10);
        assert(t.drop_last() =~= decimal_digits(n / 10));
        assert(digits_value(t) == digits_value(t.drop_last()) * 10 + (c as u32 - '0' as u32));
        assert((n / 10) * 10 + n % 10 == n);
    } else {
        assert(t.drop_last() =~= Seq::<char>::empty());
        assert(digits_value(t) == digits_value(t.drop_last()) * 10 + (c as u32 - '0' as u32));
    }
}

proof fn lemma_digits_run(s: Seq<char>, p: int)
    requires
        0 <= p <= s.len(),
        all_digits(s),
    ensures
        digits_end(s, p) == s.len(),
    decreases s.len() - p,
{
    if p < s.len() {
        lemma_digits_run(s, p + 1);
    }
}

/// A program made of one non-negative integer literal, written in decimal,
/// evaluates to that integer.
pub proof fn lemma_integer_program(n: int)
    requires
        0 <= n <= isize::MAX,
    ensures
        run(decimal_text(n)) == Ok::<Seq<Object>, ParseFailure>(
            seq![Object::IntegerValue(n as isize)],
        ),
{
    let s = decimal_text(n);
    lemma_decimal_digits(n as nat);
    lemma_digits_run(s, 0);
    assert(skip_ws(s, 0) == 0);
    assert(s.subrange(0, s.len() as int) =~= s);
    let t = Lexeme { kind: TokenKind::Integer, text: s };
    assert(scan(s, 0) == (t, s.len() as int));
    assert(skip_ws(s, s.len() as int) == s.len());
    assert(lex_from(s, s.len() as int) =~= Seq::<Lexeme>::empty());
    let ts = lex_from(s, 0);
    assert(ts =~= seq![t]);
    let st = Stmt::Expression(Expr::Int(n as isize));
    assert(parse_stmt_at(ts, 0) == Ok::<(Stmt, int), ParseFailure>((st, 0int)));
    assert(parse_program_at(ts, 1, seq![st]) == Ok::<Seq<Stmt>, ParseFailure>(seq![st]));
    assert(Seq::<Stmt>::empty().push(st) =~= seq![st]);
    assert(parse_source(s) == Ok::<Seq<Stmt>, ParseFailure>(seq![st]));
    let (v, f1, o1) = eval_stmt(st, root_frames());
    assert(eval_top(seq![st], 1, f1).0 =~= Seq::<Object>::empty());
    assert(eval_top(seq![st], 0, root_frames()).0 =~= seq![Object::IntegerValue(n as isize)]);
}

} // verus!

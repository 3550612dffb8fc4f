use vstd::prelude::*;

use crate::object::{decimal_text, isize_text};
use crate::token::{Lexeme, Token};

verus! {

broadcast use vstd::std_specs::vec::group_vec_axioms;

#[derive(Debug)]
pub struct Program(pub Vec<Statement>);

#[derive(Debug, PartialEq, Eq)]
pub enum Statement {
    AssignStatement { name: String, value: Expression },
    ExpressionStatement(Expression),
    PrintStatement(Expression),
    BlockStatement(Vec<Statement>),
}

#[derive(Debug, PartialEq, Eq, Clone)]
pub enum Expression {
    Identifier(String),
    IntegerLiteral(isize),
}

/// Why a program could not be parsed.
#[derive(Debug)]
pub enum ParserError {
    /// A token that the grammar does not allow where it stands.
    UnexpectedToken(Token),
    /// Integer literal text that is not a run of decimal digits.
    ParseIntError(String),
    /// An integer literal too large for a word-sized integer.
    IntConversionError(String),
}

/// The model of an expression.
pub enum Expr {
    Ident(Seq<char>),
    Int(isize),
}

/// The model of a statement.
pub enum Stmt {
    Assign(Seq<char>, Expr),
    Expression(Expr),
    Print(Expr),
    Block(Seq<Stmt>),
}

/// The model of a parse error.
pub enum ParseFailure {
    Unexpected(Lexeme),
    Malformed(Seq<char>),
    OutOfRange(Seq<char>),
}

impl View for Expression {
    type V = Expr;

    open spec fn view(&self) -> Expr {
        match self {
            Expression::Identifier(name) => Expr::Ident(name@),
            Expression::IntegerLiteral(n) => Expr::Int(*n),
        }
    }
}

pub open spec fn stmt_model(s: Statement) -> Stmt
    decreases s, 0int,
{
    match s {
        Statement::AssignStatement { name, value } => Stmt::Assign(name@, value@),
        Statement::ExpressionStatement(e) => Stmt::Expression(e@),
        Statement::PrintStatement(e) => Stmt::Print(e@),
        Statement::BlockStatement(body) => {
            proof {
                assert(decreases_to!(body => body@));
            }
            Stmt::Block(stmts_model(body@))
        },
    }
}

/// The models of a sequence of statements, in order.
pub open spec fn stmts_model(v: Seq<Statement>) -> Seq<Stmt>
    decreases v, 1int,
{
    if v.len() == 0 {
        Seq::empty()
    } else {
        proof {
            assert(decreases_to!(v => v[v.len() - 1]));
            assert(decreases_to!(v => v.subrange(0, v.len() - 1)));
        }
        stmts_model(v.subrange(0, v.len() - 1)).push(stmt_model(v[v.len() - 1]))
    }
}

impl View for Statement {
    type V = Stmt;

    open spec fn view(&self) -> Stmt {
        stmt_model(*self)
    }
}

impl View for Program {
    type V = Seq<Stmt>;

    open spec fn view(&self) -> Seq<Stmt> {
        stmts_model(self.0@)
    }
}

impl View for ParserError {
    type V = ParseFailure;

    open spec fn view(&self) -> ParseFailure {
        match self {
            ParserError::UnexpectedToken(t) => ParseFailure::Unexpected(t@),
            ParserError::ParseIntError(text) => ParseFailure::Malformed(text@),
            ParserError::IntConversionError(text) => ParseFailure::OutOfRange(text@),
        }
    }
}

pub proof fn lemma_stmts_model_push(v: Seq<Statement>, s: Statement)
    ensures
        stmts_model(v.push(s)) == stmts_model(v).push(stmt_model(s)),
{
    assert(v.push(s).subrange(0, v.len() as int) =~= v);
}

pub proof fn lemma_stmts_model_len(v: Seq<Statement>)
    ensures
        stmts_model(v).len() == v.len(),
        forall|i: int| 0 <= i < v.len() ==> #[trigger] stmts_model(v)[i] == stmt_model(v[i]),
    decreases v.len(),
{
    if v.len() > 0 {
        let w = v.subrange(0, v.len() - 1);
        lemma_stmts_model_len(w);
        assert forall|i: int| 0 <= i < v.len() implies #[trigger] stmts_model(v)[i] == stmt_model(
            v[i],
        ) by {
            if i < v.len() - 1 {
                assert(w[i] == v[i]);
            }
        }
    }
}


/// The source text of an expression.
pub open spec fn expr_text(e: Expr) -> Seq<char> {
    match e {
        Expr::Ident(name) => name,
        Expr::Int(n) => decimal_text(n as int),
    }
}

/// The source text of a statement; a block shows its statements side by side.
pub open spec fn stmt_text(st: Stmt) -> Seq<char>
    decreases st, 0int,
{
    match st {
        Stmt::Assign(name, e) => name + " = "@ + expr_text(e),
        Stmt::Expression(e) => expr_text(e),
        Stmt::Print(e) => "print "@ + expr_text(e),
        Stmt::Block(body) => "{"@ + stmts_text(body) + "}"@,
    }
}

/// The texts of statements, one after another.
pub open spec fn stmts_text(v: Seq<Stmt>) -> Seq<char>
    decreases v, 1int,
{
    if v.len() == 0 {
        Seq::empty()
    } else {
        proof {
            assert(decreases_to!(v => v[v.len() - 1]));
            assert(decreases_to!(v => v.subrange(0, v.len() - 1)));
        }
        stmts_text(v.subrange(0, v.len() - 1)) + stmt_text(v[v.len() - 1])
    }
}

/// Appends the texts of `v`'s statements to `out`.
fn append_statements(out: &mut String, v: &Vec<Statement>)
    ensures
        final(out)@ == old(out)@ + stmts_text(stmts_model(v@)),
    decreases v, 1int,
{
    proof {
        lemma_stmts_model_len(v@);
    }
    let ghost m = stmts_model(v@);
    let mut i: usize = 0;
    assert(m.subrange(0, 0) =~= Seq::<Stmt>::empty());
    while i < v.len()
        invariant
            i <= v@.len(),
            m == stmts_model(v@),
            m.len() == v@.len(),
            forall|j: int| 0 <= j < m.len() ==> #[trigger] m[j] == v@[j]@,
            out@ == old(out)@ + stmts_text(m.subrange(0, i as int)),
        decreases v.len() - i,
    {
        proof {
            assert(decreases_to!(v => v@));
            assert(decreases_to!(v@ => v@[i as int]));
        }
        let t = v[i].to_string();
        out.append(t.as_str());
        assert(m.subrange(0, i + 1).subrange(0, i as int) =~= m.subrange(0, i as int));
        assert(out@ =~= old(out)@ + stmts_text(m.subrange(0, i + 1)));
        i = i + 1;
    }
    assert(m.subrange(0, v@.len() as int) =~= m);
}

impl Expression {
    /// The source text of this expression.
    pub fn to_string(&self) -> (r: String)
        ensures
            r@ == expr_text(self@),
    {
        match self {
            Expression::Identifier(name) => name.clone(),
            Expression::IntegerLiteral(n) => isize_text(*n),
        }
    }
}

impl Statement {
    /// The source text of this statement.
    pub fn to_string(&self) -> (r: String)
        ensures
            r@ == stmt_text(self@),
        decreases self, 0int,
    {
        match self {
            Statement::AssignStatement { name, value } => {
                let mut r = name.clone();
                r.append(" = ");
                r.append(value.to_string().as_str());
                r
            },
            Statement::ExpressionStatement(e) => e.to_string(),
            Statement::PrintStatement(e) => {
                let mut r = "print ".to_owned();
                r.append(e.to_string().as_str());
                r
            },
            Statement::BlockStatement(body) => {
                let mut r = "{".to_owned();
                proof {
                    assert(decreases_to!(*self => self->BlockStatement_0));
                }
                append_statements(&mut r, body);
                r.append("}");
                r
            },
        }
    }
}

impl Program {
    /// The source text of this program: its statements side by side.
    pub fn to_string(&self) -> (r: String)
        ensures
            r@ == stmts_text(self@),
    {
        let mut r = String::new();
        append_statements(&mut r, &self.0);
        assert(r@ =~= stmts_text(self@));
        r
    }
}

} // verus!

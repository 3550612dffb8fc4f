use vstd::prelude::*;

verus! {

/// The lexical categories of the language.
#[derive(Debug, PartialEq, Eq, Structural, Clone, Copy)]
pub enum TokenKind {
    Illegal,
    Eof,
    Identifier,
    Integer,
    Assign,
    LeftBrace,
    RightBrace,
    Scope,
    Print,
}

/// A classified lexical unit and the text it was read from.
#[derive(Debug, PartialEq, Eq, Clone)]
pub struct Token {
    pub kind: TokenKind,
    pub literal: String,
}

/// The mathematical model of a token: its kind and its text.
pub struct Lexeme {
    pub kind: TokenKind,
    pub text: Seq<char>,
}

impl View for Token {
    type V = Lexeme;

    open spec fn view(&self) -> Lexeme {
        Lexeme { kind: self.kind, text: self.literal@ }
    }
}

/// The token that ends every token stream.
pub open spec fn eof_lexeme() -> Lexeme {
    Lexeme { kind: TokenKind::Eof, text: Seq::empty() }
}

/// The kind of an identifier-shaped word: a keyword, or a plain identifier.
pub open spec fn keyword_kind(word: Seq<char>) -> TokenKind {
    if word == seq!['s', 'c', 'o', 'p', 'e'] {
        TokenKind::Scope
    } else if word == seq!['p', 'r', 'i', 'n', 't'] {
        TokenKind::Print
    } else {
        TokenKind::Identifier
    }
}

/// Whether two strings hold the same characters.
pub fn same_text(a: &str, b: &str) -> (r: bool)
    ensures
        r == (a@ == b@),
{
    let n = a.unicode_len();
    if n != b.unicode_len() {
        return false;
    }
    let mut i: usize = 0;
    while i < n
        invariant
            n == a@.len(),
            n == b@.len(),
            i <= n,
            a@.subrange(0, i as int) == b@.subrange(0, i as int),
        decreases n - i,
    {
        if a.get_char(i) != b.get_char(i) {
            assert(a@[i as int] != b@[i as int]);
            return false;
        }
        assert(a@.subrange(0, i + 1) == a@.subrange(0, i as int).push(a@[i as int]));
        assert(b@.subrange(0, i + 1) == b@.subrange(0, i as int).push(b@[i as int]));
        i = i + 1;
    }
    assert(a@ == a@.subrange(0, n as int));
    assert(b@ == b@.subrange(0, n as int));
    true
}

/// The name under which a token kind is shown.
pub open spec fn kind_text(k: TokenKind) -> Seq<char> {
    match k {
        TokenKind::Illegal => "illegal"@,
        TokenKind::Eof => "eof"@,
        TokenKind::Identifier => "identifier"@,
        TokenKind::Integer => "integer"@,
        TokenKind::Assign => "="@,
        TokenKind::LeftBrace => "{"@,
        TokenKind::RightBrace => "}"@,
        TokenKind::Scope => "scope"@,
        TokenKind::Print => "print"@,
    }
}

impl TokenKind {
    /// The name under which this kind is shown.
    pub fn to_string(&self) -> (r: String)
        ensures
            r@ == kind_text(*self),
    {
        match self {
            TokenKind::Illegal => "illegal".to_owned(),
            TokenKind::Eof => "eof".to_owned(),
            TokenKind::Identifier => "identifier".to_owned(),
            TokenKind::Integer => "integer".to_owned(),
            TokenKind::Assign => "=".to_owned(),
            TokenKind::LeftBrace => "{".to_owned(),
            TokenKind::RightBrace => "}".to_owned(),
            TokenKind::Scope => "scope".to_owned(),
            TokenKind::Print => "print".to_owned(),
        }
    }

    /// Classifies an identifier-shaped word as a keyword or an identifier.
    pub fn lookup_identifier(identifier: &str) -> (r: TokenKind)
        ensures
            r == keyword_kind(identifier@),
    {
        proof {
            reveal_strlit("scope");
            reveal_strlit("print");
        }
        if same_text(identifier, "scope") {
            assert("scope"@ =~= seq!['s', 'c', 'o', 'p', 'e']);
            TokenKind::Scope
        } else if same_text(identifier, "print") {
            assert("print"@ =~= seq!['p', 'r', 'i', 'n', 't']);
            assert(identifier@ != seq!['s', 'c', 'o', 'p', 'e']) by {
                assert("scope"@ =~= seq!['s', 'c', 'o', 'p', 'e']);
            }
            TokenKind::Print
        } else {
            assert("scope"@ =~= seq!['s', 'c', 'o', 'p', 'e']);
            assert("print"@ =~= seq!['p', 'r', 'i', 'n', 't']);
            TokenKind::Identifier
        }
    }
}

} // verus!

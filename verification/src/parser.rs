//! Scopes, statements, and the statement parser.
//!
//! The parser tries an ordered, closed set of grammar candidates against a
//! lookahead-capable token cursor. A candidate peeks at the tokens its fixed
//! pattern needs, consumes them only on a full match, and then builds its
//! statement, declaring variables into the scope as a side effect. The first
//! candidate to match wins; when none matches, parsing fails with the
//! position of the offending token, or with an end-of-input error.

use vstd::prelude::*;
use vstd::pervasive::unreached;

use crate::lexer::str_eq;
use crate::lexer::tokens_view;
use crate::lexer::SpecToken;
use crate::lexer::Token;
use crate::lexer::TokenType;
use crate::types::base_types;
use crate::types::Type;
use crate::types::Value;
use crate::types::ValueData;

verus! {

// ---------------------------------------------------------------------------
// Variables and scopes
// ---------------------------------------------------------------------------

/// A declared variable: its name and the type it was bound to.
#[derive(Debug)]
pub struct Variable {
    pub name: String,
    pub typ: Type,
}

/// The mathematical model of a variable: its name and its type's name.
pub struct SpecVariable {
    pub name: Seq<char>,
    pub typ: Seq<char>,
}

impl View for Variable {
    type V = SpecVariable;

    open spec fn view(&self) -> SpecVariable {
        SpecVariable { name: self.name@, typ: self.typ.name@ }
    }
}

/// The models of a sequence of variables.
pub open spec fn variables_view(vs: Seq<Variable>) -> Seq<SpecVariable> {
    vs.map_values(|v: Variable| v@)
}

/// A lexically nested symbol table: the variables and types declared at
/// this level, and the enclosing scope, if any. Lookup searches the local
/// lists first and then delegates outward; nothing is ever removed.
///
/// Shadowing policy: within one level the first declaration of a name wins
/// on lookup (a re-declaration is stored but never found); across levels
/// the innermost declaration wins.
pub struct Scope {
    pub variables: Vec<Variable>,
    pub types: Vec<Type>,
    pub parent_scope: Option<Box<Scope>>,
}

/// The first variable of `vs`, in declaration order, whose name is `name`.
pub open spec fn first_variable_match(vs: Seq<Variable>, name: Seq<char>) -> Option<SpecVariable>
    decreases vs.len(),
{
    if vs.len() == 0 {
        None
    } else if vs[0].name@ == name {
        Some(vs[0]@)
    } else {
        first_variable_match(vs.subrange(1, vs.len() as int), name)
    }
}

/// Whether some type of `ts` is named `name`.
pub open spec fn seq_has_type(ts: Seq<Type>, name: Seq<char>) -> bool {
    exists|i: int| 0 <= i < ts.len() && ts[i].name@ == name
}

/// The innermost-first, declaration-order search a scope chain performs for
/// a variable.
pub open spec fn spec_find_variable(s: Scope, name: Seq<char>) -> Option<SpecVariable>
    decreases s,
{
    match first_variable_match(s.variables@, name) {
        Some(v) => Some(v),
        None => match s.parent_scope {
            Some(p) => spec_find_variable(*p, name),
            None => None,
        },
    }
}

/// Whether the scope chain knows a type named `name`.
pub open spec fn scope_has_type(s: Scope, name: Seq<char>) -> bool
    decreases s,
{
    ||| seq_has_type(s.types@, name)
    ||| match s.parent_scope {
        Some(p) => scope_has_type(*p, name),
        None => false,
    }
}

impl Scope {
    /// The unparented root scope, seeded with the built-in types.
    pub fn root() -> (r: Scope)
        ensures
            r.variables@.len() == 0,
            r.parent_scope is None,
            r.types@.len() == 4,
            r.types@[0].name@ == "int"@,
            r.types@[1].name@ == "float"@,
            r.types@[2].name@ == "Vec2"@,
            r.types@[3].name@ == "void"@,
            scope_has_type(r, "int"@),
            scope_has_type(r, "float"@),
            scope_has_type(r, "Vec2"@),
            scope_has_type(r, "void"@),
    {
        let r = Scope { variables: Vec::new(), types: base_types(), parent_scope: None };
        proof {
            assert(r.types@[0].name@ == "int"@);
            assert(seq_has_type(r.types@, "int"@));
            assert(seq_has_type(r.types@, "float"@));
            assert(seq_has_type(r.types@, "Vec2"@));
            assert(seq_has_type(r.types@, "void"@));
        }
        r
    }

    /// A fresh, empty scope nested inside `self`; entering a lexical block
    /// makes one.
    pub fn child(self) -> (r: Scope)
        ensures
            r.variables@.len() == 0,
            r.types@.len() == 0,
            r.parent_scope matches Some(p) && *p == self,
    {
        Scope { variables: Vec::new(), types: Vec::new(), parent_scope: Some(Box::new(self)) }
    }

    /// Searches this scope's variable list in declaration order, then the
    /// parent chain, for the innermost variable named `name`.
    pub fn find_variable(&self, name: &str) -> (r: Option<Variable>)
        ensures
            match spec_find_variable(*self, name@) {
                Some(sv) => r matches Some(v) && v@ == sv,
                None => r is None,
            },
        decreases *self,
    {
        let ghost vs = self.variables@;
        let mut i: usize = 0;
        proof {
            assert(vs.subrange(0, vs.len() as int) =~= vs);
        }
        loop
            invariant_except_break
                i <= vs.len(),
                vs == self.variables@,
                first_variable_match(vs, name@) == first_variable_match(
                    vs.subrange(i as int, vs.len() as int),
                    name@,
                ),
                forall|k: int| 0 <= k < i ==> vs[k].name@ != name@,
            ensures
                first_variable_match(vs, name@) is None,
                vs == self.variables@,
            decreases vs.len() - i,
        {
            if i >= self.variables.len() {
                proof {
                    assert(vs.subrange(i as int, vs.len() as int).len() == 0);
                }
                break ;
            }
            let v = &self.variables[i];
            if str_eq(v.name.as_str(), name) {
                let found = Variable { name: v.name.clone(), typ: v.typ.duplicate() };
                proof {
                    let tail = vs.subrange(i as int, vs.len() as int);
                    assert(tail[0] == vs[i as int]);
                    assert(found@ == vs[i as int]@);
                }
                return Some(found);
            }
            proof {
                let tail = vs.subrange(i as int, vs.len() as int);
                assert(tail[0] == vs[i as int]);
                assert(tail.subrange(1, tail.len() as int) =~= vs.subrange(
                    i + 1,
                    vs.len() as int,
                ));
            }
            i = i + 1;
        }
        match &self.parent_scope {
            Some(p) => p.find_variable(name),
            None => None,
        }
    }

    /// Creates a new variable in this (innermost) scope and returns its
    /// handle: the index of its entry in this scope's variable list.
    pub fn declare_variable(&mut self, name: String, typ: Type) -> (idx: usize)
        ensures
            final(self).variables@ == old(self).variables@.push(Variable { name, typ }),
            idx == old(self).variables@.len(),
            final(self).types == old(self).types,
            final(self).parent_scope == old(self).parent_scope,
    {
        let idx = self.variables.len();
        self.variables.push(Variable { name, typ });
        idx
    }

    /// Searches this scope's type list in declaration order, then the
    /// parent chain, for a type named `name`.
    pub fn find_type(&self, name: &str) -> (r: Option<Type>)
        ensures
            r is Some <==> scope_has_type(*self, name@),
            r matches Some(t) ==> t.name@ == name@,
        decreases *self,
    {
        let ghost ts = self.types@;
        let mut i: usize = 0;
        loop
            invariant_except_break
                i <= ts.len(),
                ts == self.types@,
                forall|k: int| 0 <= k < i ==> ts[k].name@ != name@,
            ensures
                !seq_has_type(ts, name@),
                ts == self.types@,
            decreases ts.len() - i,
        {
            if i >= self.types.len() {
                break ;
            }
            let t = &self.types[i];
            if str_eq(t.name.as_str(), name) {
                proof {
                    assert(seq_has_type(ts, name@));
                }
                return Some(t.duplicate());
            }
            i = i + 1;
        }
        match &self.parent_scope {
            Some(p) => p.find_type(name),
            None => None,
        }
    }
}

// ---------------------------------------------------------------------------
// Statements
// ---------------------------------------------------------------------------

/// The payload of a literal, at the level of the mathematical model.
pub enum SpecValueData {
    Int(int),
    Float(bool, nat, nat),
}

/// The mathematical model of a statement. A variable is referenced by its
/// handle: the index of its entry in the variable list of the scope the
/// statement was parsed against.
pub enum SpecStmt {
    Assignment { variable: nat, value: Box<SpecStmt> },
    Literal { typ: Seq<char>, data: SpecValueData },
}

/// A parsed statement: an assignment created by a declaration, whose value
/// is a nested statement, or a literal expression. A referenced variable is
/// held as a handle into the scope's variable list.
#[derive(Debug)]
pub enum Stmt {
    Assignment { variable: usize, value: Box<Stmt> },
    Literal(Value),
}

/// The model of a literal payload.
pub open spec fn value_data_view(d: ValueData) -> SpecValueData {
    match d {
        ValueData::Int(v) => SpecValueData::Int(v as int),
        ValueData::Float(f) => SpecValueData::Float(
            f.negative,
            f.mantissa as nat,
            f.frac_digits as nat,
        ),
    }
}

/// The model of a statement.
pub open spec fn stmt_view(s: Stmt) -> SpecStmt
    decreases s,
{
    match s {
        Stmt::Assignment { variable, value } => SpecStmt::Assignment {
            variable: variable as nat,
            value: Box::new(stmt_view(*value)),
        },
        Stmt::Literal(v) => SpecStmt::Literal { typ: v.typ.name@, data: value_data_view(v.data) },
    }
}

impl Stmt {
    /// The static type of a statement: an assignment has type `void`, a
    /// literal the type of its value.
    pub fn return_type(&self, scope: &Scope) -> (r: Type)
        requires
            (*self matches Stmt::Assignment { .. }) ==> scope_has_type(*scope, "void"@),
        ensures
            match *self {
                Stmt::Assignment { .. } => r.name@ == "void"@,
                Stmt::Literal(v) => r == v.typ,
            },
    {
        match self {
            Stmt::Assignment { .. } => match scope.find_type("void") {
                Some(t) => t,
                None => unreached(),
            },
            Stmt::Literal(v) => v.typ.duplicate(),
        }
    }
}

// ---------------------------------------------------------------------------
// The parser
// ---------------------------------------------------------------------------

/// A fatal parse failure: no grammar candidate matched the token at the
/// given position, or the input ended where a statement was required.
#[derive(PartialEq, Eq, Structural, Clone, Copy, Debug)]
pub enum ParseError {
    UnmatchedToken { line: usize, column: usize },
    UnexpectedEndOfInput,
}

/// The mathematical model of a parse failure.
pub enum SpecParseError {
    UnmatchedToken { line: nat, column: nat },
    UnexpectedEndOfInput,
}

impl View for ParseError {
    type V = SpecParseError;

    open spec fn view(&self) -> SpecParseError {
        match *self {
            ParseError::UnmatchedToken { line, column } => SpecParseError::UnmatchedToken {
                line: line as nat,
                column: column as nat,
            },
            ParseError::UnexpectedEndOfInput => SpecParseError::UnexpectedEndOfInput,
        }
    }
}

/// A lookahead-capable cursor over a token sequence. Candidates peek at
/// fixed offsets past the cursor and commit by advancing it; a failed
/// candidate leaves the cursor untouched.
pub struct TokenStream {
    pub tokens: Vec<Token>,
    pub index: usize,
}

impl TokenStream {
    pub open spec fn wf(self) -> bool {
        self.index <= self.tokens@.len()
    }

    /// The models of the tokens not yet consumed.
    pub open spec fn remaining(self) -> Seq<SpecToken> {
        tokens_view(self.tokens@).skip(self.index as int)
    }

    pub fn new(tokens: Vec<Token>) -> (r: Self)
        ensures
            r.wf(),
            r.tokens@ == tokens@,
            r.index == 0,
            r.remaining() == tokens_view(tokens@),
    {
        let r = TokenStream { tokens, index: 0 };
        proof {
            assert(r.remaining() =~= tokens_view(r.tokens@));
        }
        r
    }

    /// The token `k` positions past the cursor, if the sequence reaches
    /// that far; the cursor does not move.
    pub fn peek_at(&self, k: usize) -> (r: Option<&Token>)
        requires
            self.wf(),
        ensures
            k < self.remaining().len() ==> (r matches Some(t) && t@ == self.remaining()[k as int]),
            k >= self.remaining().len() ==> r is None,
    {
        let rem = self.tokens.len() - self.index;
        if k < rem {
            Some(&self.tokens[self.index + k])
        } else {
            None
        }
    }

    /// Commits `n` peeked tokens: advances the cursor past them.
    pub fn advance(&mut self, n: usize)
        requires
            old(self).wf(),
            n <= old(self).remaining().len(),
        ensures
            final(self).wf(),
            final(self).tokens == old(self).tokens,
            final(self).index == old(self).index + n,
            final(self).remaining() == old(self).remaining().skip(n as int),
    {
        let total = self.tokens.len();
        proof {
            assert(old(self).remaining().len() == total - self.index);
        }
        self.index = self.index + n;
        proof {
            assert(self.remaining() =~= old(self).remaining().skip(n as int));
        }
    }
}

/// The fixed token pattern of the variable-declaration candidate:
/// `let`, an identifier, `=`.
pub open spec fn declaration_pattern(ts: Seq<SpecToken>) -> bool {
    &&& ts.len() >= 3
    &&& ts[0].token_type is Let
    &&& ts[1].token_type is Identifier
    &&& ts[2].token_type is Equals
}

/// What parsing one statement from `ts` yields, with `nvars` variables
/// already declared in the scope parsed against: the statement, the count
/// of tokens consumed, and the variables declared, in declaration order —
/// or the failure, again with the count of tokens consumed before it.
pub open spec fn spec_parse(ts: Seq<SpecToken>, nvars: nat) -> SpecParseOut
    decreases ts.len(),
{
    if declaration_pattern(ts) {
        let name = ts[1].token_type->Identifier_0;
        match spec_parse(ts.skip(3), nvars) {
            SpecParseOut::Parsed { stmt, used, declared } => SpecParseOut::Parsed {
                stmt: SpecStmt::Assignment {
                    variable: nvars + declared.len(),
                    value: Box::new(stmt),
                },
                used: used + 3,
                declared: declared.push(SpecVariable { name, typ: "int"@ }),
            },
            SpecParseOut::Failed { error, used } => SpecParseOut::Failed {
                error,
                used: used + 3,
            },
        }
    } else if ts.len() >= 1 && ts[0].token_type is IntLiteral {
        SpecParseOut::Parsed {
            stmt: SpecStmt::Literal {
                typ: "int"@,
                data: SpecValueData::Int(ts[0].token_type->IntLiteral_0),
            },
            used: 1,
            declared: Seq::empty(),
        }
    } else if ts.len() >= 1 {
        SpecParseOut::Failed {
            error: SpecParseError::UnmatchedToken { line: ts[0].line, column: ts[0].column },
            used: 0,
        }
    } else {
        SpecParseOut::Failed { error: SpecParseError::UnexpectedEndOfInput, used: 0 }
    }
}

/// The outcome of one `parse` call, at the level of the mathematical model.
pub enum SpecParseOut {
    Parsed { stmt: SpecStmt, used: nat, declared: Seq<SpecVariable> },
    Failed { error: SpecParseError, used: nat },
}

/// Viewing a variable list commutes with appending to it.
proof fn lemma_variables_view_push(vs: Seq<Variable>, v: Variable)
    ensures
        variables_view(vs.push(v)) == variables_view(vs).push(v@),
{
    assert(variables_view(vs.push(v)) =~= variables_view(vs).push(v@));
}

/// Peeks the declaration pattern without consuming anything; on a full
/// match returns the declared name.
fn match_declaration(tokens: &TokenStream) -> (r: Option<String>)
    requires
        tokens.wf(),
    ensures
        r is Some <==> declaration_pattern(tokens.remaining()),
        r matches Some(name) ==> name@ == tokens.remaining()[1].token_type->Identifier_0,
{
    let t0 = tokens.peek_at(0);
    let t1 = tokens.peek_at(1);
    let t2 = tokens.peek_at(2);
    match (t0, t1, t2) {
        (Some(a), Some(b), Some(c)) => {
            if matches!(a.token_type, TokenType::Let) && matches!(c.token_type, TokenType::Equals) {
                match &b.token_type {
                    TokenType::Identifier(name) => Some(name.clone()),
                    _ => None,
                }
            } else {
                None
            }
        },
        _ => None,
    }
}

/// Parses exactly one statement starting at the cursor, against `scope`.
///
/// The grammar candidates are tried in order: first the variable
/// declaration `let <identifier> = <expression>`, which declares the name
/// in `scope` bound to the built-in `int` type and yields an assignment;
/// then the single integer literal. A candidate that fails to match leaves
/// the cursor where it was; the first full match commits and consumes
/// exactly its tokens. When no candidate matches, the offending token's
/// position is reported, or an end-of-input failure when nothing remains.
#[verifier::rlimit(30)]
pub fn parse(tokens: &mut TokenStream, scope: &mut Scope) -> (r: Result<Stmt, ParseError>)
    requires
        old(tokens).wf(),
        scope_has_type(*old(scope), "int"@),
    ensures
        final(tokens).wf(),
        final(tokens).tokens == old(tokens).tokens,
        final(scope).types == old(scope).types,
        final(scope).parent_scope == old(scope).parent_scope,
        scope_has_type(*final(scope), "int"@),
        match spec_parse(old(tokens).remaining(), old(scope).variables@.len()) {
            SpecParseOut::Parsed { stmt, used, declared } => {
                &&& r matches Ok(st) && stmt_view(st) == stmt
                &&& final(tokens).index == old(tokens).index + used
                &&& variables_view(final(scope).variables@) == variables_view(
                    old(scope).variables@,
                ) + declared
            },
            SpecParseOut::Failed { error, used } => {
                &&& r matches Err(e) && e@ == error
                &&& final(tokens).index == old(tokens).index + used
                &&& final(scope).variables == old(scope).variables
            },
        },
    decreases old(tokens).remaining().len(),
{
    let ghost ts0 = tokens.remaining();
    let ghost nv0 = scope.variables@.len();
    // First candidate: the variable declaration.
    let declaration = match_declaration(tokens);
    match declaration {
        Some(name) => {
            let ghost name_view = name@;
            tokens.advance(3);
            let parsed = parse(tokens, scope);
            match parsed {
                Ok(expr) => {
                    let int_type = match scope.find_type("int") {
                        Some(t) => t,
                        None => unreached(),
                    };
                    let ghost mid_vars = scope.variables@;
                    let idx = scope.declare_variable(name, int_type);
                    proof {
                        let pushed = scope.variables@.last();
                        assert(scope.variables@ =~= mid_vars.push(pushed));
                        lemma_variables_view_push(mid_vars, pushed);
                        assert(pushed@ == SpecVariable { name: name_view, typ: "int"@ });
                        match spec_parse(ts0.skip(3), nv0) {
                            SpecParseOut::Parsed { stmt, used, declared } => {
                                assert(variables_view(old(scope).variables@) + declared.push(
                                    pushed@,
                                ) =~= variables_view(mid_vars).push(pushed@));
                                assert(variables_view(scope.variables@) == variables_view(
                                    old(scope).variables@,
                                ) + declared.push(pushed@));
                                assert(variables_view(mid_vars).len() == mid_vars.len());
                                assert(variables_view(old(scope).variables@).len() == old(
                                    scope,
                                ).variables@.len());
                                assert(idx as nat == nv0 + declared.len());
                                assert(pushed@ == SpecVariable {
                                    name: ts0[1].token_type->Identifier_0,
                                    typ: "int"@,
                                });
                            },
                            SpecParseOut::Failed { .. } => {
                                assert(false);
                            },
                        }
                    }
                    Ok(Stmt::Assignment { variable: idx, value: Box::new(expr) })
                },
                Err(e) => Err(e),
            }
        },
        None => {
            // Second candidate: the integer literal expression.
            let literal = {
                let t = tokens.peek_at(0);
                match t {
                    Some(tok) => match tok.token_type {
                        TokenType::IntLiteral(v) => Some(v),
                        _ => None,
                    },
                    None => None,
                }
            };
            match literal {
                Some(v) => {
                    tokens.advance(1);
                    let int_type = match scope.find_type("int") {
                        Some(t) => t,
                        None => unreached(),
                    };
                    Ok(Stmt::Literal(Value { typ: int_type, data: ValueData::Int(v) }))
                },
                None => {
                    // No candidate matched.
                    let t = tokens.peek_at(0);
                    match t {
                        Some(tok) => Err(
                            ParseError::UnmatchedToken { line: tok.line, column: tok.column },
                        ),
                        None => Err(ParseError::UnexpectedEndOfInput),
                    }
                },
            }
        },
    }
}

} // verus!

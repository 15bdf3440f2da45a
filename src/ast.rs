use vstd::prelude::*;
use crate::lexer::{toks, tokenize, LexError};
use crate::text::chars_of;
use crate::token::{Tok, Token};

verus! {

/// An arithmetic operator.
#[derive(PartialEq, Eq, Structural, Clone, Copy, Debug)]
pub enum Op {
    Add,
    Sub,
    Mul,
    Div,
}

#[derive(Debug, PartialEq)]
pub enum Expression {
    BinaryExpression(Box<Expression>, Box<Expression>, Op),
    StringLiteral(String),
    NumberLiteral(String),
    Identifier(String),
}

/// The model of an expression.
pub enum Expr {
    Binary(Box<Expr>, Box<Expr>, Op),
    Str(Seq<char>),
    Num(Seq<char>),
    Ident(Seq<char>),
}

impl View for Expression {
    type V = Expr;

    open spec fn view(&self) -> Expr
        decreases self,
    {
        match self {
            Expression::BinaryExpression(l, r, op) => Expr::Binary(
                Box::new((**l)@),
                Box::new((**r)@),
                *op,
            ),
            Expression::StringLiteral(s) => Expr::Str(s@),
            Expression::NumberLiteral(s) => Expr::Num(s@),
            Expression::Identifier(s) => Expr::Ident(s@),
        }
    }
}

/// One `name [= initializer]` unit of a declaration.
#[derive(Debug, PartialEq)]
pub struct Declarator {
    pub name: String,
    pub init: Option<Expression>,
}

pub struct Decl {
    pub name: Seq<char>,
    pub init: Option<Expr>,
}

impl View for Declarator {
    type V = Decl;

    open spec fn view(&self) -> Decl {
        Decl {
            name: self.name@,
            init: match &self.init {
                Some(e) => Some(e@),
                None => None,
            },
        }
    }
}

pub open spec fn decls_view(v: Seq<Declarator>) -> Seq<Decl> {
    v.map_values(|d: Declarator| d@)
}

#[derive(Debug, PartialEq)]
pub enum Statement {
    VariableDeclaration(Vec<Declarator>),
}

/// One top-level item of a program.
#[derive(Debug, PartialEq)]
pub enum Node {
    Expression(Expression),
    Statement(Statement),
}

pub enum NodeModel {
    Expr(Expr),
    Declaration(Seq<Decl>),
}

impl View for Node {
    type V = NodeModel;

    open spec fn view(&self) -> NodeModel {
        match self {
            Node::Expression(e) => NodeModel::Expr(e@),
            Node::Statement(Statement::VariableDeclaration(ds)) => NodeModel::Declaration(
                decls_view(ds@),
            ),
        }
    }
}

pub open spec fn nodes_view(v: Seq<Node>) -> Seq<NodeModel> {
    v.map_values(|n: Node| n@)
}

/// A token that the grammar does not allow where it stands.
#[derive(Debug, PartialEq)]
pub enum ParseError {
    UnexpectedToken(Token),
    InvalidDeclaration(Token),
}

pub enum ParseErr {
    UnexpectedToken(Tok),
    InvalidDeclaration(Tok),
}

impl View for ParseError {
    type V = ParseErr;

    open spec fn view(&self) -> ParseErr {
        match self {
            ParseError::UnexpectedToken(t) => ParseErr::UnexpectedToken(t@),
            ParseError::InvalidDeclaration(t) => ParseErr::InvalidDeclaration(t@),
        }
    }
}

/// The token at `i`; past the end, the end marker.
pub open spec fn tok_at(t: Seq<Tok>, i: int) -> Tok {
    if 0 <= i < t.len() {
        t[i]
    } else {
        Tok::Eof
    }
}

pub open spec fn mul_op(k: Tok) -> Option<Op> {
    match k {
        Tok::Sym(c) => if c == '*' {
            Some(Op::Mul)
        } else if c == '/' {
            Some(Op::Div)
        } else {
            None
        },
        _ => None,
    }
}

pub open spec fn add_op(k: Tok) -> Option<Op> {
    match k {
        Tok::Sym(c) => if c == '+' {
            Some(Op::Add)
        } else if c == '-' {
            Some(Op::Sub)
        } else {
            None
        },
        _ => None,
    }
}

/// A number, string or identifier: exactly one token.
pub open spec fn primary(t: Seq<Tok>, i: int) -> Result<(Expr, int), ParseErr> {
    match tok_at(t, i) {
        Tok::Number(s) => Ok((Expr::Num(s), i + 1)),
        Tok::Str(s) => Ok((Expr::Str(s), i + 1)),
        Tok::Identifier(s) => Ok((Expr::Ident(s), i + 1)),
        k => Err(ParseErr::UnexpectedToken(k)),
    }
}

/// Folds `(* | /) primary` pairs from `i` on into `acc`, to the left.
pub open spec fn mul_tail(t: Seq<Tok>, i: int, acc: Expr) -> Result<(Expr, int), ParseErr>
    decreases t.len() - i,
{
    match mul_op(tok_at(t, i)) {
        Some(op) => match primary(t, i + 1) {
            Ok((e, _)) => mul_tail(t, i + 2, Expr::Binary(Box::new(acc), Box::new(e), op)),
            Err(err) => Err(err),
        },
        None => Ok((acc, i)),
    }
}

pub open spec fn multiplicative(t: Seq<Tok>, i: int) -> Result<(Expr, int), ParseErr> {
    match primary(t, i) {
        Ok((e, j)) => mul_tail(t, j, e),
        Err(err) => Err(err),
    }
}

/// Folds `(+ | -) multiplicative` pairs from `i` on into `acc`, to the left.
pub open spec fn add_tail(t: Seq<Tok>, i: int, acc: Expr) -> Result<(Expr, int), ParseErr>
    decreases t.len() - i,
    via add_tail_decreases
{
    match add_op(tok_at(t, i)) {
        Some(op) => match multiplicative(t, i + 1) {
            Ok((e, j)) => add_tail(t, j, Expr::Binary(Box::new(acc), Box::new(e), op)),
            Err(err) => Err(err),
        },
        None => Ok((acc, i)),
    }
}

#[via_fn]
proof fn add_tail_decreases(t: Seq<Tok>, i: int, acc: Expr) {
    if add_op(tok_at(t, i)) is Some {
        lemma_multiplicative_advances(t, i + 1);
    }
}

pub proof fn lemma_mul_tail_advances(t: Seq<Tok>, i: int, acc: Expr)
    requires
        0 <= i <= t.len(),
    ensures
        mul_tail(t, i, acc) is Ok ==> i <= mul_tail(t, i, acc)->Ok_0.1 <= t.len(),
    decreases t.len() - i,
{
    if let Some(op) = mul_op(tok_at(t, i)) {
        if let Ok((e, _)) = primary(t, i + 1) {
            lemma_mul_tail_advances(t, i + 2, Expr::Binary(Box::new(acc), Box::new(e), op));
        }
    }
}

pub proof fn lemma_multiplicative_advances(t: Seq<Tok>, i: int)
    requires
        0 <= i,
    ensures
        multiplicative(t, i) is Ok ==> i < multiplicative(t, i)->Ok_0.1 <= t.len(),
{
    if let Ok((e, j)) = primary(t, i) {
        lemma_mul_tail_advances(t, j, e);
    }
}

pub open spec fn additive(t: Seq<Tok>, i: int) -> Result<(Expr, int), ParseErr> {
    match multiplicative(t, i) {
        Ok((e, j)) => add_tail(t, j, e),
        Err(err) => Err(err),
    }
}

pub proof fn lemma_add_tail_advances(t: Seq<Tok>, i: int, acc: Expr)
    requires
        0 <= i <= t.len(),
    ensures
        add_tail(t, i, acc) is Ok ==> i <= add_tail(t, i, acc)->Ok_0.1 <= t.len(),
    decreases t.len() - i,
{
    if let Some(op) = add_op(tok_at(t, i)) {
        lemma_multiplicative_advances(t, i + 1);
        if let Ok((e, j)) = multiplicative(t, i + 1) {
            lemma_add_tail_advances(t, j, Expr::Binary(Box::new(acc), Box::new(e), op));
        }
    }
}

pub proof fn lemma_additive_advances(t: Seq<Tok>, i: int)
    requires
        0 <= i,
    ensures
        additive(t, i) is Ok ==> i < additive(t, i)->Ok_0.1 <= t.len(),
{
    lemma_multiplicative_advances(t, i);
    if let Ok((e, j)) = multiplicative(t, i) {
        lemma_add_tail_advances(t, j, e);
    }
}

/// `var`, `let` or `const`.
pub open spec fn is_keyword(s: Seq<char>) -> bool {
    s == seq!['v', 'a', 'r'] || s == seq!['l', 'e', 't'] || s == seq!['c', 'o', 'n', 's', 't']
}

/// The declarators that follow a declaration keyword, from `i` on: each an
/// identifier, then `= additive` or `;`. A `;` after an initializer, or
/// one standing for it, ends the list; so does the end of input.
pub open spec fn declarators(t: Seq<Tok>, i: int) -> Result<(Seq<Decl>, int), ParseErr>
    decreases t.len() - i,
    via declarators_decreases
{
    match tok_at(t, i) {
        Tok::Eof => Ok((seq![], i)),
        Tok::Identifier(name) => if tok_at(t, i + 1) == Tok::Sym('=') {
            match additive(t, i + 2) {
                Ok((e, j)) => {
                    let d = Decl { name, init: Some(e) };
                    if tok_at(t, j) == Tok::Sym(';') {
                        Ok((seq![d], j + 1))
                    } else {
                        match declarators(t, j) {
                            Ok((ds, k)) => Ok((seq![d] + ds, k)),
                            Err(err) => Err(err),
                        }
                    }
                },
                Err(err) => Err(err),
            }
        } else if tok_at(t, i + 1) == Tok::Sym(';') {
            Ok((seq![Decl { name, init: None }], i + 2))
        } else {
            Err(ParseErr::InvalidDeclaration(tok_at(t, i + 1)))
        },
        k => Err(ParseErr::InvalidDeclaration(k)),
    }
}

#[via_fn]
proof fn declarators_decreases(t: Seq<Tok>, i: int) {
    if tok_at(t, i) is Identifier && tok_at(t, i + 1) == Tok::Sym('=') {
        lemma_additive_advances(t, i + 2);
    }
}

pub proof fn lemma_declarators_advances(t: Seq<Tok>, i: int)
    requires
        0 <= i <= t.len(),
    ensures
        declarators(t, i) is Ok ==> i <= declarators(t, i)->Ok_0.1 <= t.len(),
    decreases t.len() - i,
{
    if tok_at(t, i) is Identifier && tok_at(t, i + 1) == Tok::Sym('=') {
        lemma_additive_advances(t, i + 2);
        if let Ok((e, j)) = additive(t, i + 2) {
            if tok_at(t, j) != Tok::Sym(';') {
                lemma_declarators_advances(t, j);
            }
        }
    }
}

/// One top-level item: an additive expression, read as a declaration when
/// it is a bare declaration keyword.
pub open spec fn node(t: Seq<Tok>, i: int) -> Result<(NodeModel, int), ParseErr> {
    match additive(t, i) {
        Ok((e, j)) => match e {
            Expr::Ident(kw) => if is_keyword(kw) {
                match declarators(t, j) {
                    Ok((ds, k)) => Ok((NodeModel::Declaration(ds), k)),
                    Err(err) => Err(err),
                }
            } else {
                Ok((NodeModel::Expr(e), j))
            },
            _ => Ok((NodeModel::Expr(e), j)),
        },
        Err(err) => Err(err),
    }
}

pub proof fn lemma_node_advances(t: Seq<Tok>, i: int)
    requires
        0 <= i <= t.len(),
    ensures
        node(t, i) is Ok ==> i < node(t, i)->Ok_0.1 <= t.len(),
{
    lemma_additive_advances(t, i);
    if let Ok((e, j)) = additive(t, i) {
        lemma_declarators_advances(t, j);
    }
}

/// The items from `i` to the end marker.
pub open spec fn program(t: Seq<Tok>, i: int) -> Result<Seq<NodeModel>, ParseErr>
    decreases t.len() - i,
    via program_decreases
{
    if tok_at(t, i) is Eof {
        Ok(seq![])
    } else {
        match node(t, i) {
            Ok((n, j)) => match program(t, j) {
                Ok(rest) => Ok(seq![n] + rest),
                Err(err) => Err(err),
            },
            Err(err) => Err(err),
        }
    }
}

#[via_fn]
proof fn program_decreases(t: Seq<Tok>, i: int) {
    if !(tok_at(t, i) is Eof) {
        lemma_node_advances(t, i);
    }
}

/// A parser over the tokens of one script; it hands out one top-level item
/// at a time.
pub struct Ast {
    tokens: Vec<Token>,
    pos: usize,
}

impl Ast {
    pub closed spec fn tokens(&self) -> Seq<Tok> {
        toks(self.tokens@)
    }

    pub closed spec fn position(&self) -> int {
        self.pos as int
    }

    pub closed spec fn wf(&self) -> bool {
        self.pos <= self.tokens@.len()
    }

    pub proof fn lemma_wf_bounds(&self)
        requires
            self.wf(),
        ensures
            0 <= self.position() <= self.tokens().len(),
    {
    }

    /// Tokenizes `code` and sets the cursor on the first token.
    pub fn new(code: &str) -> (r: Result<Self, LexError>)
        ensures
            match crate::lexer::lex(code@) {
                Ok(ts) => r is Ok && r->Ok_0.wf() && r->Ok_0.tokens() == ts && r->Ok_0.position()
                    == 0,
                Err(e) => r is Err && r->Err_0 == e,
            },
    {
        match tokenize(code) {
            Ok(tokens) => Ok(Ast { tokens, pos: 0 }),
            Err(e) => Err(e),
        }
    }

    /// The token under the cursor.
    fn current(&self) -> (r: Token)
        requires
            self.wf(),
        ensures
            r@ == tok_at(self.tokens(), self.position()),
    {
        if self.pos < self.tokens.len() {
            self.tokens[self.pos].duplicate()
        } else {
            Token::Eof
        }
    }

    /// The symbol under the cursor, if the token there is one.
    fn current_symbol(&self) -> (r: Option<char>)
        requires
            self.wf(),
        ensures
            r == match tok_at(self.tokens(), self.position()) {
                Tok::Sym(c) => Some(c),
                _ => None,
            },
    {
        if self.pos < self.tokens.len() {
            self.tokens[self.pos].symbol()
        } else {
            None
        }
    }

    fn advance(&mut self)
        requires
            old(self).wf(),
            old(self).position() < old(self).tokens().len(),
        ensures
            final(self).wf(),
            final(self).tokens() == old(self).tokens(),
            final(self).position() == old(self).position() + 1,
    {
        assert(self.tokens().len() == self.tokens@.len());
        let n = self.tokens.len();
        assert(self.pos < n);
        self.pos = self.pos + 1;
    }

    fn eof(&self) -> (r: bool)
        requires
            self.wf(),
        ensures
            r == (tok_at(self.tokens(), self.position()) is Eof),
    {
        if self.pos < self.tokens.len() {
            self.tokens[self.pos].is_eof()
        } else {
            true
        }
    }

    fn build_primary(&mut self) -> (r: Result<Expression, ParseError>)
        requires
            old(self).wf(),
        ensures
            final(self).wf(),
            final(self).tokens() == old(self).tokens(),
            match primary(old(self).tokens(), old(self).position()) {
                Ok((e, j)) => r is Ok && r->Ok_0@ == e && final(self).position() == j,
                Err(x) => r is Err && r->Err_0@ == x,
            },
    {
        let t = self.current();
        match t {
            Token::Number(s) => {
                self.advance();
                Ok(Expression::NumberLiteral(s))
            },
            Token::String(s) => {
                self.advance();
                Ok(Expression::StringLiteral(s))
            },
            Token::Identifier(s) => {
                self.advance();
                Ok(Expression::Identifier(s))
            },
            other => Err(ParseError::UnexpectedToken(other)),
        }
    }

    fn build_multiplication(&mut self) -> (r: Result<Expression, ParseError>)
        requires
            old(self).wf(),
        ensures
            final(self).wf(),
            final(self).tokens() == old(self).tokens(),
            match multiplicative(old(self).tokens(), old(self).position()) {
                Ok((e, j)) => r is Ok && r->Ok_0@ == e && final(self).position() == j,
                Err(x) => r is Err && r->Err_0@ == x,
            },
    {
        let ghost t = self.tokens();
        let ghost start = self.position();
        let mut expr = match self.build_primary() {
            Ok(e) => e,
            Err(x) => return Err(x),
        };
        loop
            invariant
                self.wf(),
                self.tokens() == t,
                t == old(self).tokens(),
                start == old(self).position(),
                t.len() == self.tokens@.len(),
                multiplicative(t, start) == mul_tail(t, self.position(), expr@),
            decreases t.len() - self.position(),
        {
            let op = match self.current_symbol() {
                Some('*') => Op::Mul,
                Some('/') => Op::Div,
                _ => return Ok(expr),
            };
            self.advance();
            let rhs = match self.build_primary() {
                Ok(e) => e,
                Err(x) => return Err(x),
            };
            expr = Expression::BinaryExpression(Box::new(expr), Box::new(rhs), op);
        }
    }

    fn build_addition(&mut self) -> (r: Result<Expression, ParseError>)
        requires
            old(self).wf(),
        ensures
            final(self).wf(),
            final(self).tokens() == old(self).tokens(),
            match additive(old(self).tokens(), old(self).position()) {
                Ok((e, j)) => r is Ok && r->Ok_0@ == e && final(self).position() == j,
                Err(x) => r is Err && r->Err_0@ == x,
            },
    {
        let ghost t = self.tokens();
        let ghost start = self.position();
        let mut expr = match self.build_multiplication() {
            Ok(e) => e,
            Err(x) => return Err(x),
        };
        loop
            invariant
                self.wf(),
                self.tokens() == t,
                t == old(self).tokens(),
                start == old(self).position(),
                t.len() == self.tokens@.len(),
                additive(t, start) == add_tail(t, self.position(), expr@),
            decreases t.len() - self.position(),
        {
            let op = match self.current_symbol() {
                Some('+') => Op::Add,
                Some('-') => Op::Sub,
                _ => return Ok(expr),
            };
            self.advance();
            proof {
                lemma_multiplicative_advances(t, self.position());
            }
            let rhs = match self.build_multiplication() {
                Ok(e) => e,
                Err(x) => return Err(x),
            };
            expr = Expression::BinaryExpression(Box::new(expr), Box::new(rhs), op);
        }
    }

    fn build_declarators(&mut self) -> (r: Result<Vec<Declarator>, ParseError>)
        requires
            old(self).wf(),
        ensures
            final(self).wf(),
            final(self).tokens() == old(self).tokens(),
            match declarators(old(self).tokens(), old(self).position()) {
                Ok((ds, k)) => r is Ok && decls_view(r->Ok_0@) == ds && final(self).position() == k,
                Err(x) => r is Err && r->Err_0@ == x,
            },
    {
        let ghost t = self.tokens();
        let ghost start = self.position();
        let mut out: Vec<Declarator> = Vec::new();
        loop
            invariant
                self.wf(),
                self.tokens() == t,
                t == old(self).tokens(),
                start == old(self).position(),
                t.len() == self.tokens@.len(),
                declarators(t, start) == match declarators(t, self.position()) {
                    Ok((ds, k)) => Ok((decls_view(out@) + ds, k)),
                    Err(x) => Err(x),
                },
            decreases t.len() - self.position(),
        {
            let ghost i = self.position();
            let ghost prev = out@;
            let tok = self.current();
            match tok {
                Token::Eof => {
                    assert(decls_view(out@) + seq![] =~= decls_view(out@));
                    return Ok(out);
                },
                Token::Identifier(name) => {
                    self.advance();
                    match self.current_symbol() {
                        Some('=') => {
                            self.advance();
                            proof {
                                lemma_additive_advances(t, i + 2);
                            }
                            let e = match self.build_addition() {
                                Ok(e) => e,
                                Err(x) => return Err(x),
                            };
                            let ghost j = self.position();
                            out.push(Declarator { name, init: Some(e) });
                            let ghost d = out@.last()@;
                            assert(decls_view(out@) =~= decls_view(prev) + seq![d]);
                            if let Some(';') = self.current_symbol() {
                                self.advance();
                                return Ok(out);
                            }
                            proof {
                                if let Ok((ds, k)) = declarators(t, j) {
                                    assert(decls_view(prev) + (seq![d] + ds) =~= decls_view(out@)
                                        + ds);
                                }
                            }
                        },
                        Some(';') => {
                            self.advance();
                            out.push(Declarator { name, init: None });
                            assert(decls_view(out@) =~= decls_view(prev) + seq![out@.last()@]);
                            return Ok(out);
                        },
                        _ => return Err(ParseError::InvalidDeclaration(self.current())),
                    }
                },
                other => return Err(ParseError::InvalidDeclaration(other)),
            }
        }
    }

    /// One top-level item; see `node`.
    fn build_variable_declaration(&mut self) -> (r: Result<Node, ParseError>)
        requires
            old(self).wf(),
        ensures
            final(self).wf(),
            final(self).tokens() == old(self).tokens(),
            match node(old(self).tokens(), old(self).position()) {
                Ok((n, j)) => r is Ok && r->Ok_0@ == n && final(self).position() == j,
                Err(x) => r is Err && r->Err_0@ == x,
            },
    {
        let expr = match self.build_addition() {
            Ok(e) => e,
            Err(x) => return Err(x),
        };
        match expr {
            Expression::Identifier(word) => {
                if is_keyword_text(&word) {
                    match self.build_declarators() {
                        Ok(ds) => Ok(Node::Statement(Statement::VariableDeclaration(ds))),
                        Err(x) => Err(x),
                    }
                } else {
                    Ok(Node::Expression(Expression::Identifier(word)))
                }
            },
            other => Ok(Node::Expression(other)),
        }
    }

    /// The next top-level item, or `None` at the end of input.
    pub fn next(&mut self) -> (r: Result<Option<Node>, ParseError>)
        requires
            old(self).wf(),
        ensures
            final(self).wf(),
            final(self).tokens() == old(self).tokens(),
            tok_at(old(self).tokens(), old(self).position()) is Eof ==> r is Ok && r->Ok_0 is None
                && final(self).position() == old(self).position(),
            !(tok_at(old(self).tokens(), old(self).position()) is Eof) ==> match node(
                old(self).tokens(),
                old(self).position(),
            ) {
                Ok((n, j)) => r is Ok && r->Ok_0 is Some && r->Ok_0->Some_0@ == n
                    && final(self).position() == j,
                Err(x) => r is Err && r->Err_0@ == x,
            },
    {
        if self.eof() {
            return Ok(None);
        }
        match self.build_variable_declaration() {
            Ok(n) => Ok(Some(n)),
            Err(x) => Err(x),
        }
    }
}

/// Whether `s` is a declaration keyword.
pub fn is_keyword_text(s: &String) -> (r: bool)
    ensures
        r == is_keyword(s@),
{
    let cs = chars_of(s.as_str());
    let r = (cs.len() == 3 && cs[0] == 'v' && cs[1] == 'a' && cs[2] == 'r') || (cs.len() == 3
        && cs[0] == 'l' && cs[1] == 'e' && cs[2] == 't') || (cs.len() == 5 && cs[0] == 'c' && cs[1]
        == 'o' && cs[2] == 'n' && cs[3] == 's' && cs[4] == 't');
    proof {
        if cs@ =~= seq!['v', 'a', 'r'] {
        }
        if cs@ =~= seq!['l', 'e', 't'] {
        }
        if cs@ =~= seq!['c', 'o', 'n', 's', 't'] {
        }
    }
    r
}

} // verus!

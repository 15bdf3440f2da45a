use vstd::prelude::*;
use crate::ast::{
    decls_view, nodes_view, program, Ast, Decl, Declarator, Expr, Expression, Node, NodeModel,
    Op, ParseErr, ParseError, Statement,
};
use crate::lexer::{lex, LexError};
use crate::values::{Num, Number, Val, Value};

verus! {

/// The bindings of a context, in the order they were made.
pub type Bindings = Seq<(Seq<char>, Val)>;

/// The value first bound to `name`; `Undefined` when there is none.
pub open spec fn lookup(b: Bindings, name: Seq<char>) -> Val
    decreases b.len(),
{
    if b.len() == 0 {
        Val::Undefined
    } else if b[0].0 == name {
        b[0].1
    } else {
        lookup(b.drop_first(), name)
    }
}

pub open spec fn is_bound(b: Bindings, name: Seq<char>) -> bool {
    exists|k: int| 0 <= k < b.len() && #[trigger] b[k].0 == name
}

/// An operator applied to two values: NaN unless both are numbers.
pub open spec fn apply(x: Val, y: Val, op: Op) -> Val {
    match (x, y) {
        (Val::Number(m), Val::Number(n)) => Val::Number(Number::Binary(Box::new(m), Box::new(n), op)),
        _ => Val::Number(Number::NaN),
    }
}

/// The value of an expression: literals stand for themselves, an identifier
/// for its binding, and an operator applied to anything but two numbers
/// gives NaN.
pub open spec fn eval(e: Expr, b: Bindings) -> Val
    decreases e,
{
    match e {
        Expr::Binary(l, r, op) => apply(eval(*l, b), eval(*r, b), op),
        Expr::Str(s) => Val::Str(s),
        Expr::Num(s) => Val::Number(Number::Literal(s)),
        Expr::Ident(name) => lookup(b, name),
    }
}

/// Binds each declarator that has an initializer, in order. The result is
/// the bindings after that, and the first name that was already bound, at
/// which the work stopped.
pub open spec fn declare_all(ds: Seq<Decl>, b: Bindings) -> (Bindings, Option<Seq<char>>)
    decreases ds.len(),
{
    if ds.len() == 0 {
        (b, None)
    } else {
        match ds[0].init {
            None => declare_all(ds.drop_first(), b),
            Some(e) => if is_bound(b, ds[0].name) {
                (b, Some(ds[0].name))
            } else {
                declare_all(ds.drop_first(), b.push((ds[0].name, eval(e, b))))
            },
        }
    }
}

/// Runs the items in order from `last` as the running value: the value of
/// the last item, or the name whose second declaration stopped the run;
/// with the bindings at the end.
pub open spec fn run_nodes(ns: Seq<NodeModel>, b: Bindings, last: Val) -> (
    Result<Val, Seq<char>>,
    Bindings,
)
    decreases ns.len(),
{
    if ns.len() == 0 {
        (Ok(last), b)
    } else {
        match ns[0] {
            NodeModel::Expr(e) => run_nodes(ns.drop_first(), b, eval(e, b)),
            NodeModel::Declaration(ds) => {
                let (b2, err) = declare_all(ds, b);
                match err {
                    Some(name) => (Err(name), b2),
                    None => run_nodes(ns.drop_first(), b2, Val::Undefined),
                }
            },
        }
    }
}

pub open spec fn run(ns: Seq<NodeModel>, b: Bindings) -> (Result<Val, Seq<char>>, Bindings) {
    run_nodes(ns, b, Val::Undefined)
}

/// An expression built from number literals and the four operators alone.
pub open spec fn is_arithmetic(e: Expr) -> bool
    decreases e,
{
    match e {
        Expr::Binary(l, r, _) => is_arithmetic(*l) && is_arithmetic(*r),
        Expr::Num(_) => true,
        _ => false,
    }
}

/// The number term that an arithmetic expression denotes, operator by
/// operator along the parsed tree.
pub open spec fn term_of(e: Expr) -> Number
    decreases e,
{
    match e {
        Expr::Binary(l, r, op) => Number::Binary(Box::new(term_of(*l)), Box::new(term_of(*r)), op),
        Expr::Num(s) => Number::Literal(s),
        _ => Number::NaN,
    }
}

/// An arithmetic expression evaluates, in any context, to the term that
/// applies its operators to its literals along the tree.
pub proof fn lemma_arithmetic_value(e: Expr, b: Bindings)
    requires
        is_arithmetic(e),
    ensures
        eval(e, b) == Val::Number(term_of(e)),
    decreases e,
{
    if let Expr::Binary(l, r, op) = e {
        lemma_arithmetic_value(*l, b);
        lemma_arithmetic_value(*r, b);
    }
}

/// A script that is one arithmetic expression runs, against any context, to
/// the number that the expression's tree denotes: `*` and `/` bind tighter
/// than `+` and `-`, and each level folds to the left.
pub proof fn lemma_arithmetic_script(s: Seq<char>, e: Expr, b: Bindings)
    requires
        parse_source(s) == Ok::<Seq<NodeModel>, ScriptErr>(seq![NodeModel::Expr(e)]),
        is_arithmetic(e),
    ensures
        run(seq![NodeModel::Expr(e)], b) == (Ok::<Val, Seq<char>>(Val::Number(term_of(e))), b),
{
    lemma_arithmetic_value(e, b);
    let ns = seq![NodeModel::Expr(e)];
    assert(ns.drop_first() =~= Seq::<NodeModel>::empty());
    assert(run_nodes(ns.drop_first(), b, eval(e, b)) == (Ok::<Val, Seq<char>>(eval(e, b)), b));
}

/// A name that is not bound reads as `Undefined`.
pub proof fn lemma_unbound_is_undefined(b: Bindings, name: Seq<char>)
    requires
        !is_bound(b, name),
    ensures
        lookup(b, name) == Val::Undefined,
    decreases b.len(),
{
    if b.len() > 0 {
        assert(b[0].0 != name);
        assert forall|k: int| 0 <= k < b.drop_first().len() implies #[trigger] b.drop_first()[k].0
            != name by {
            assert(b.drop_first()[k] == b[k + 1]);
        }
        lemma_unbound_is_undefined(b.drop_first(), name);
    }
}

/// The store of variable bindings that a script runs against.
pub struct Context {
    variables: Vec<(String, Value)>,
}

impl View for Context {
    type V = Bindings;

    closed spec fn view(&self) -> Bindings {
        self.variables@.map_values(|p: (String, Value)| (p.0@, p.1@))
    }
}

impl Context {
    pub fn new() -> (r: Self)
        ensures
            r@ == Seq::<(Seq<char>, Val)>::empty(),
    {
        let r = Context { variables: Vec::new() };
        assert(r@ =~= Seq::<(Seq<char>, Val)>::empty());
        r
    }

    /// Binds `name`, which must not be bound yet.
    pub fn declare_variable(&mut self, name: &str, value: Value)
        requires
            !is_bound(old(self)@, name@),
        ensures
            final(self)@ == old(self)@.push((name@, value@)),
    {
        self.set_variable(name, value);
    }

    /// Adds a binding of `name` after the existing ones.
    pub fn set_variable(&mut self, name: &str, value: Value)
        ensures
            final(self)@ == old(self)@.push((name@, value@)),
    {
        let ghost prev = self.variables@;
        self.variables.push((name.to_owned(), value));
        assert(self@ =~= old(self)@.push((name@, value@))) by {
            assert(self.variables@ == prev.push(self.variables@.last()));
        }
    }

    /// The value first bound to `name`, or `Undefined`.
    pub fn get_variable(&self, name: &str) -> (r: Value)
        ensures
            r@ == lookup(self@, name@),
    {
        let key = name.to_owned();
        let mut i: usize = 0;
        assert(self@.subrange(0, self@.len() as int) =~= self@);
        while i < self.variables.len()
            invariant
                i <= self.variables@.len(),
                self@.len() == self.variables@.len(),
                key@ == name@,
                lookup(self@, name@) == lookup(self@.subrange(i as int, self@.len() as int), name@),
            decreases self.variables@.len() - i,
        {
            let ghost rest = self@.subrange(i as int, self@.len() as int);
            assert(rest[0] == self@[i as int]);
            if self.variables[i].0 == key {
                return self.variables[i].1.duplicate();
            }
            assert(rest.drop_first() =~= self@.subrange(i + 1, self@.len() as int));
            i += 1;
        }
        Value::Undefined
    }

    /// Whether `name` is bound.
    pub fn has_variable(&self, name: &str) -> (r: bool)
        ensures
            r == is_bound(self@, name@),
    {
        let key = name.to_owned();
        let mut i: usize = 0;
        while i < self.variables.len()
            invariant
                i <= self.variables@.len(),
                self@.len() == self.variables@.len(),
                key@ == name@,
                forall|k: int| 0 <= k < i ==> #[trigger] self@[k].0 != name@,
            decreases self.variables@.len() - i,
        {
            assert(self@[i as int].0 == self.variables@[i as int].0@);
            if self.variables[i].0 == key {
                return true;
            }
            i += 1;
        }
        false
    }
}

/// A second declaration of a name.
#[derive(Debug, PartialEq)]
pub enum RuntimeError {
    AlreadyDeclared(String),
}

impl View for RuntimeError {
    type V = Seq<char>;

    open spec fn view(&self) -> Seq<char> {
        match self {
            RuntimeError::AlreadyDeclared(name) => name@,
        }
    }
}

/// Why a script could not be built from its source.
#[derive(Debug, PartialEq)]
pub enum ScriptError {
    Lex(LexError),
    Parse(ParseError),
}

pub enum ScriptErr {
    Lex(LexError),
    Parse(ParseErr),
}

impl View for ScriptError {
    type V = ScriptErr;

    open spec fn view(&self) -> ScriptErr {
        match self {
            ScriptError::Lex(e) => ScriptErr::Lex(*e),
            ScriptError::Parse(e) => ScriptErr::Parse(e@),
        }
    }
}

/// The program that a source text denotes: its tokens, then its items.
pub open spec fn parse_source(s: Seq<char>) -> Result<Seq<NodeModel>, ScriptErr> {
    match lex(s) {
        Err(e) => Err(ScriptErr::Lex(e)),
        Ok(ts) => match program(ts, 0) {
            Ok(ns) => Ok(ns),
            Err(x) => Err(ScriptErr::Parse(x)),
        },
    }
}

/// A parsed program, ready to run against any number of contexts.
pub struct Script {
    program: Vec<Node>,
}

impl Script {
    pub closed spec fn program(&self) -> Seq<NodeModel> {
        nodes_view(self.program@)
    }

    /// Tokenizes and parses `code`.
    pub fn new(code: &str) -> (r: Result<Self, ScriptError>)
        ensures
            match parse_source(code@) {
                Ok(ns) => r is Ok && r->Ok_0.program() == ns,
                Err(x) => r is Err && r->Err_0@ == x,
            },
    {
        let mut ast = match Ast::new(code) {
            Ok(a) => a,
            Err(e) => return Err(ScriptError::Lex(e)),
        };
        let ghost t = ast.tokens();
        let mut out: Vec<Node> = Vec::new();
        loop
            invariant
                ast.wf(),
                ast.tokens() == t,
                lex(code@) == Ok::<Seq<crate::token::Tok>, LexError>(t),
                program(t, 0) == match program(t, ast.position()) {
                    Ok(rest) => Ok(nodes_view(out@) + rest),
                    Err(x) => Err(x),
                },
            decreases t.len() - ast.position(),
        {
            let ghost i = ast.position();
            let ghost prev = out@;
            proof {
                ast.lemma_wf_bounds();
                crate::ast::lemma_node_advances(t, i);
            }
            match ast.next() {
                Ok(Some(n)) => {
                    out.push(n);
                    proof {
                        let nv = out@.last()@;
                        assert(nodes_view(out@) =~= nodes_view(prev) + seq![nv]);
                        if let Ok(rest) = program(t, ast.position()) {
                            assert(nodes_view(prev) + (seq![nv] + rest) =~= nodes_view(out@) + rest);
                        }
                    }
                },
                Ok(None) => {
                    assert(nodes_view(out@) + seq![] =~= nodes_view(out@));
                    return Ok(Script { program: out });
                },
                Err(x) => return Err(ScriptError::Parse(x)),
            }
        }
    }

    /// Runs the program against `context`: the value of the last item
    /// (`Undefined` for a declaration or an empty program), or the name
    /// declared a second time, at which the run stopped.
    #[verifier::loop_isolation(false)]
    pub fn run_in_context(&self, context: &mut Context) -> (r: Result<Value, RuntimeError>)
        ensures
            ({
                &&& final(context)@ == run(self.program(), old(context)@).1
                &&& match run(self.program(), old(context)@).0 {
                    Ok(v) => r is Ok && r->Ok_0@ == v,
                    Err(n) => r matches Err(e) && e@ == n,
                }
            }),
    {
        let ghost ns = self.program();
        let ghost b0 = context@;
        let mut last = Value::Undefined;
        let mut i: usize = 0;
        assert(ns.subrange(0, ns.len() as int) =~= ns);
        while i < self.program.len()
            invariant
                ns == self.program(),
                ns.len() == self.program@.len(),
                i <= ns.len(),
                run(ns, b0) == run_nodes(ns.subrange(i as int, ns.len() as int), context@, last@),
            decreases ns.len() - i,
        {
            let ghost rest = ns.subrange(i as int, ns.len() as int);
            assert(rest[0] == self.program@[i as int]@);
            assert(rest.drop_first() =~= ns.subrange(i + 1, ns.len() as int));
            match &self.program[i] {
                Node::Expression(e) => {
                    last = self.eval_expression(e, context);
                },
                Node::Statement(st) => {
                    match self.eval_statement(st, context) {
                        Ok(v) => {
                            last = v;
                        },
                        Err(x) => {
                            return Err(x);
                        },
                    }
                },
            }
            i += 1;
        }
        Ok(last)
    }

    /// Runs a declaration; its value is `Undefined`.
    #[verifier::loop_isolation(false)]
    fn eval_statement(&self, statement: &Statement, context: &mut Context) -> (r: Result<
        Value,
        RuntimeError,
    >)
        ensures
            match statement {
                Statement::VariableDeclaration(ds) => {
                    &&& final(context)@ == declare_all(decls_view(ds@), old(context)@).0
                    &&& match declare_all(decls_view(ds@), old(context)@).1 {
                        Some(n) => r matches Err(e) && e@ == n,
                        None => r is Ok && r->Ok_0@ == Val::Undefined,
                    }
                },
            },
    {
        match statement {
            Statement::VariableDeclaration(ds) => {
                let ghost dv = decls_view(ds@);
                let mut i: usize = 0;
                assert(dv.subrange(0, dv.len() as int) =~= dv);
                while i < ds.len()
                    invariant
                        dv == decls_view(ds@),
                        dv.len() == ds@.len(),
                        i <= dv.len(),
                        declare_all(dv, old(context)@) == declare_all(
                            dv.subrange(i as int, dv.len() as int),
                            context@,
                        ),
                    decreases dv.len() - i,
                {
                    let ghost rest = dv.subrange(i as int, dv.len() as int);
                    assert(rest[0] == ds@[i as int]@);
                    assert(rest.drop_first() =~= dv.subrange(i + 1, dv.len() as int));
                    let d: &Declarator = &ds[i];
                    match &d.init {
                        Some(init) => {
                            if context.has_variable(d.name.as_str()) {
                                return Err(RuntimeError::AlreadyDeclared(d.name.clone()));
                            }
                            let v = self.eval_expression(init, context);
                            context.declare_variable(d.name.as_str(), v);
                        },
                        None => {},
                    }
                    i += 1;
                }
                Ok(Value::Undefined)
            },
        }
    }

    fn eval_expression(&self, expression: &Expression, context: &Context) -> (r: Value)
        ensures
            r@ == eval(expression@, context@),
        decreases expression,
    {
        match expression {
            Expression::BinaryExpression(l, r, op) => {
                let x = self.eval_expression(l, context);
                let y = self.eval_expression(r, context);
                self.eval_binary_expression(x, y, *op)
            },
            Expression::NumberLiteral(s) => Value::Number(Num::Literal(s.clone())),
            Expression::StringLiteral(s) => Value::String(s.clone()),
            Expression::Identifier(name) => context.get_variable(name.as_str()),
        }
    }

    fn eval_binary_expression(&self, left: Value, right: Value, op: Op) -> (r: Value)
        ensures
            r@ == apply(left@, right@, op),
    {
        match (left, right) {
            (Value::Number(m), Value::Number(n)) => Value::Number(
                Num::Binary(Box::new(m), Box::new(n), op),
            ),
            _ => Value::Number(Num::NaN),
        }
    }
}

/// Running one script against two fresh contexts gives the same value and
/// the same bindings.
pub proof fn lemma_run_deterministic(script: &Script, c1: &Context, c2: &Context)
    requires
        c1@.len() == 0,
        c2@.len() == 0,
    ensures
        run(script.program(), c1@) == run(script.program(), c2@),
{
    assert(c1@ =~= c2@);
}

} // verus!

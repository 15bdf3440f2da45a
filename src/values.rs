use vstd::prelude::*;
use crate::ast::Op;

verus! {

/// A number of the language. The language computes in IEEE-754 single
/// precision; a number is held as the term that denotes it exactly: the
/// text of a literal, an operator applied to two numbers, or NaN.
#[derive(Debug, PartialEq)]
pub enum Num {
    Literal(String),
    Binary(Box<Num>, Box<Num>, Op),
    NaN,
}

/// The model of a number term.
pub enum Number {
    Literal(Seq<char>),
    Binary(Box<Number>, Box<Number>, Op),
    NaN,
}

impl View for Num {
    type V = Number;

    open spec fn view(&self) -> Number
        decreases self,
    {
        match self {
            Num::Literal(s) => Number::Literal(s@),
            Num::Binary(l, r, op) => Number::Binary(Box::new((**l)@), Box::new((**r)@), *op),
            Num::NaN => Number::NaN,
        }
    }
}

impl Num {
    /// An equal term.
    pub fn duplicate(&self) -> (r: Num)
        ensures
            r@ == self@,
        decreases self,
    {
        match self {
            Num::Literal(s) => Num::Literal(s.clone()),
            Num::Binary(l, r, op) => Num::Binary(
                Box::new((**l).duplicate()),
                Box::new((**r).duplicate()),
                *op,
            ),
            Num::NaN => Num::NaN,
        }
    }
}

/// A runtime value.
#[derive(Debug, PartialEq)]
pub enum Value {
    Number(Num),
    String(String),
    Undefined,
}

pub enum Val {
    Number(Number),
    Str(Seq<char>),
    Undefined,
}

impl View for Value {
    type V = Val;

    open spec fn view(&self) -> Val {
        match self {
            Value::Number(n) => Val::Number(n@),
            Value::String(s) => Val::Str(s@),
            Value::Undefined => Val::Undefined,
        }
    }
}

impl Value {
    /// An equal value.
    pub fn duplicate(&self) -> (r: Value)
        ensures
            r@ == self@,
    {
        match self {
            Value::Number(n) => Value::Number(n.duplicate()),
            Value::String(s) => Value::String(s.clone()),
            Value::Undefined => Value::Undefined,
        }
    }
}

} // verus!

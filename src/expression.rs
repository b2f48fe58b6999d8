use std::rc::Rc;
use vstd::prelude::*;

use crate::error::RuntimeError;
use crate::numeric::{Numeric, Relation};
use crate::token::{Form, Token};

verus! {

/// The native operators that a fresh environment binds.
#[derive(Clone, Copy, PartialEq, Eq, Structural, Debug)]
pub enum Builtin {
    Add,
    Sub,
    Mul,
    Div,
    Min,
    Max,
    Eq,
    Lt,
    Le,
    Gt,
    Ge,
}

/// A runtime value. List cells share their parts through `Rc`.
pub enum Expression<N: Numeric> {
    Nil,
    Int(i32),
    Float(N::Real),
    Complex(N::Complex),
    Bool(bool),
    Symbol(String),
    Char(char),
    NativeFunction(Builtin),
    Cons { first: Rc<Expression<N>>, rest: Rc<Expression<N>> },
}

/// What is known of a value that an evaluation produces: the value itself,
/// or, where machine arithmetic chose it, only its kind.
pub enum Outcome<N: Numeric> {
    Exactly(Expression<N>),
    AnyFloat,
    AnyComplex,
    AnyBool,
}

impl<N: Numeric> Outcome<N> {
    /// `v` is one of the values this outcome allows.
    pub open spec fn admits(self, v: Expression<N>) -> bool {
        match self {
            Outcome::Exactly(e) => v == e,
            Outcome::AnyFloat => v is Float,
            Outcome::AnyComplex => v is Complex,
            Outcome::AnyBool => v is Bool,
        }
    }
}

/// The place of a value in the tower: 0 for integers, 1 for reals, 2 for
/// complex numbers, 3 for anything that is not a number.
pub open spec fn rank<N: Numeric>(o: Outcome<N>) -> int {
    match o {
        Outcome::Exactly(Expression::Int(_)) => 0,
        Outcome::Exactly(Expression::Float(_)) => 1,
        Outcome::AnyFloat => 1,
        Outcome::Exactly(Expression::Complex(_)) => 2,
        Outcome::AnyComplex => 2,
        _ => 3,
    }
}

pub open spec fn is_number<N: Numeric>(o: Outcome<N>) -> bool {
    rank(o) < 3
}

/// The integer an outcome is known to be, if it is an integer.
pub open spec fn int_value<N: Numeric>(o: Outcome<N>) -> Option<i32> {
    match o {
        Outcome::Exactly(Expression::Int(v)) => Some(v),
        _ => None,
    }
}

/// The outcomes that are exactly the given values.
pub open spec fn exact<N: Numeric>(vals: Seq<Rc<Expression<N>>>) -> Seq<Outcome<N>> {
    vals.map_values(|v: Rc<Expression<N>>| Outcome::Exactly(*v))
}

/// An evaluation result agrees with what was known of it.
pub open spec fn delivers<N: Numeric>(
    r: Result<Rc<Expression<N>>, crate::error::RuntimeError>,
    s: Result<Outcome<N>, crate::error::RuntimeError>,
) -> bool {
    match (r, s) {
        (Ok(v), Ok(o)) => o.admits(*v),
        (Err(e1), Err(e2)) => e1 == e2,
        _ => false,
    }
}

/// A value admitted by an outcome has the outcome's rank and integer value.
pub proof fn lemma_admits_profile<N: Numeric>(o: Outcome<N>, v: Expression<N>)
    requires
        o.admits(v),
    ensures
        rank(o) == rank(Outcome::Exactly(v)),
        int_value(o) == int_value(Outcome::Exactly(v)),
{
}

/// The rank of a value, computed.
pub fn rank_of<N: Numeric>(e: &Expression<N>) -> (r: u8)
    ensures
        r == rank(Outcome::Exactly(*e)),
{
    match e {
        Expression::Int(_) => 0,
        Expression::Float(_) => 1,
        Expression::Complex(_) => 2,
        _ => 3,
    }
}

/// `e` is what the form `f` converts to: the same shape, atom for atom, with
/// each numeral made a machine number of its kind.
pub open spec fn converts<N: Numeric>(f: Form, e: Expression<N>) -> bool
    decreases f,
{
    match f {
        Form::Nil => e is Nil,
        Form::Int(v) => e == Expression::<N>::Int(v),
        Form::Float(_) => e is Float,
        Form::Complex(_, _) => e is Complex,
        Form::Bool(b) => e == Expression::<N>::Bool(b),
        Form::Symbol(s) => e is Symbol && e->Symbol_0@ == s,
        Form::Char(c) => e == Expression::<N>::Char(c),
        Form::Cons(first, rest) => match e {
            Expression::Cons { first: ef, rest: er } => converts(*first, *ef) && converts(*rest, *er),
            _ => false,
        },
    }
}

impl<N: Numeric> Expression<N> {
    /// Converts a parsed form into a runtime value of the same shape.
    pub fn new(exp: &Token) -> (r: Expression<N>)
        ensures
            converts(exp@, r),
        decreases exp,
    {
        match exp {
            Token::Nil => Expression::Nil,
            Token::Int(v) => Expression::Int(*v),
            Token::Float(d) => Expression::Float(
                N::real_from_decimal(d.negative, d.int_digits.as_slice(), d.frac_digits.as_slice()),
            ),
            Token::Complex(re, im) => {
                let x = N::real_from_decimal(
                    re.negative,
                    re.int_digits.as_slice(),
                    re.frac_digits.as_slice(),
                );
                let y = N::real_from_decimal(
                    im.negative,
                    im.int_digits.as_slice(),
                    im.frac_digits.as_slice(),
                );
                Expression::Complex(N::complex_from_parts(x, y))
            },
            Token::Bool(b) => Expression::Bool(*b),
            Token::Symbol(s) => Expression::Symbol(s.clone()),
            Token::Char(c) => Expression::Char(*c),
            Token::Cons { first, rest } => Expression::Cons {
                first: Rc::new(Expression::new(first)),
                rest: Rc::new(Expression::new(rest)),
            },
        }
    }

    /// Equality where it is defined: between two values of one kind among
    /// `Nil`, `Int`, `Float`, `Bool`, `Symbol` and `Char`. Any other pair is a
    /// `TypeError`.
    pub fn equals(&self, other: &Expression<N>) -> (r: Result<bool, RuntimeError>)
        ensures
            match (*self, *other) {
                (Expression::Nil, Expression::Nil) => r == Ok::<bool, RuntimeError>(true),
                (Expression::Int(a), Expression::Int(b)) => r == Ok::<bool, RuntimeError>(a == b),
                (Expression::Float(_), Expression::Float(_)) => r is Ok,
                (Expression::Bool(a), Expression::Bool(b)) => r == Ok::<bool, RuntimeError>(a == b),
                (Expression::Symbol(a), Expression::Symbol(b)) => r == Ok::<bool, RuntimeError>(a@ == b@),
                (Expression::Char(a), Expression::Char(b)) => r == Ok::<bool, RuntimeError>(a == b),
                _ => r == Err::<bool, RuntimeError>(RuntimeError::TypeError),
            },
    {
        match (self, other) {
            (Expression::Nil, Expression::Nil) => Ok(true),
            (Expression::Int(a), Expression::Int(b)) => Ok(*a == *b),
            (Expression::Float(a), Expression::Float(b)) => Ok(N::real_compare(Relation::Eq, a, b)),
            (Expression::Bool(a), Expression::Bool(b)) => Ok(*a == *b),
            (Expression::Symbol(a), Expression::Symbol(b)) => Ok(*a == *b),
            (Expression::Char(a), Expression::Char(b)) => Ok(*a == *b),
            _ => Err(RuntimeError::TypeError),
        }
    }
}

} // verus!

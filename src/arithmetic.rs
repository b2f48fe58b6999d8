//! The native operators: variadic arithmetic, `min` and `max`, and the
//! comparison chains, each dispatching over the numeric tower.
use std::rc::Rc;
use vstd::prelude::*;

use crate::error::RuntimeError;
use crate::expression::{
    delivers, exact, int_value, is_number, lemma_admits_profile, rank, rank_of, Builtin,
    Expression, Outcome,
};
use crate::numeric::{ArithOp, Numeric, Relation};

verus! {

/// `a op b` on integers, wrapping around on overflow (`op` is `+`, `-` or `*`).
pub open spec fn int_arith(op: ArithOp, a: i32, b: i32) -> i32 {
    match op {
        ArithOp::Add => a.wrapping_add(b),
        ArithOp::Sub => a.wrapping_sub(b),
        _ => a.wrapping_mul(b),
    }
}

/// The outcome of `a op b` on two numbers: integers stay integers under
/// `+ - *`; otherwise both operands are promoted to the higher of their two
/// kinds, and `/` on two integers yields a real.
pub open spec fn arith_step<N: Numeric>(op: ArithOp, a: Outcome<N>, b: Outcome<N>) -> Outcome<N> {
    if int_value(a) is Some && int_value(b) is Some && op != ArithOp::Div {
        Outcome::Exactly(Expression::Int(int_arith(op, int_value(a)->0, int_value(b)->0)))
    } else if rank(a) == 2 || rank(b) == 2 {
        Outcome::AnyComplex
    } else {
        Outcome::AnyFloat
    }
}

/// `op(op(op(a0, a1), a2), ...)`, folded from the left.
pub open spec fn arith_fold<N: Numeric>(op: ArithOp, args: Seq<Outcome<N>>) -> Outcome<N>
    decreases args.len(),
{
    if args.len() <= 1 {
        args[0]
    } else {
        arith_step(op, arith_fold(op, args.drop_last()), args.last())
    }
}

/// One operand: `+` and `*` give it back, `-` negates it, `/` takes its
/// reciprocal, which is never an integer.
pub open spec fn arith_unary<N: Numeric>(op: ArithOp, a: Outcome<N>) -> Outcome<N> {
    match op {
        ArithOp::Sub => if int_value(a) is Some {
            Outcome::Exactly(Expression::Int(0i32.wrapping_sub(int_value(a)->0)))
        } else if rank(a) == 2 {
            Outcome::AnyComplex
        } else {
            Outcome::AnyFloat
        },
        ArithOp::Div => if rank(a) == 2 {
            Outcome::AnyComplex
        } else {
            Outcome::AnyFloat
        },
        _ => a,
    }
}

/// Some operand is complex.
pub open spec fn has_complex<N: Numeric>(args: Seq<Outcome<N>>) -> bool {
    exists|i: int| 0 <= i < args.len() && rank(#[trigger] args[i]) == 2
}

/// Some operand is not a number.
pub open spec fn has_non_number<N: Numeric>(args: Seq<Outcome<N>>) -> bool {
    exists|i: int| 0 <= i < args.len() && rank(#[trigger] args[i]) == 3
}

/// What `+ - * /` return for the given operands.
pub open spec fn arith_outcome<N: Numeric>(op: ArithOp, args: Seq<Outcome<N>>) -> Result<
    Outcome<N>,
    RuntimeError,
> {
    if args.len() == 0 {
        Err(RuntimeError::ArityError)
    } else if has_non_number(args) {
        Err(RuntimeError::TypeError)
    } else if args.len() == 1 {
        Ok(arith_unary(op, args[0]))
    } else {
        Ok(arith_fold(op, args))
    }
}

/// The lesser (or, with `greatest`, the greater) of two ordered numbers:
/// exact on integers, a real as soon as one of them is real.
pub open spec fn pick_step<N: Numeric>(greatest: bool, a: Outcome<N>, b: Outcome<N>) -> Outcome<
    N,
> {
    if int_value(a) is Some && int_value(b) is Some {
        let x = int_value(a)->0;
        let y = int_value(b)->0;
        Outcome::Exactly(
            Expression::Int(
                if greatest {
                    if x > y {
                        x
                    } else {
                        y
                    }
                } else {
                    if x < y {
                        x
                    } else {
                        y
                    }
                },
            ),
        )
    } else {
        Outcome::AnyFloat
    }
}

/// `min` (or `max`) folded from the left.
pub open spec fn pick_fold<N: Numeric>(greatest: bool, args: Seq<Outcome<N>>) -> Outcome<N>
    decreases args.len(),
{
    if args.len() <= 1 {
        args[0]
    } else {
        pick_step(greatest, pick_fold(greatest, args.drop_last()), args.last())
    }
}

/// What `min` (or, with `greatest`, `max`) returns for the given operands.
pub open spec fn pick_outcome<N: Numeric>(greatest: bool, args: Seq<Outcome<N>>) -> Result<
    Outcome<N>,
    RuntimeError,
> {
    if args.len() == 0 {
        Err(RuntimeError::ArityError)
    } else if has_complex(args) {
        Err(RuntimeError::UnorderedType)
    } else if has_non_number(args) {
        Err(RuntimeError::TypeError)
    } else {
        Ok(pick_fold(greatest, args))
    }
}

/// `a rel b` on integers.
pub open spec fn relation_holds(rel: Relation, a: int, b: int) -> bool {
    match rel {
        Relation::Eq => a == b,
        Relation::Lt => a < b,
        Relation::Le => a <= b,
        Relation::Gt => a > b,
        Relation::Ge => a >= b,
    }
}

/// The operands at `i` and `i + 1` are integers that do not stand in `rel`.
pub open spec fn int_link_fails<N: Numeric>(rel: Relation, args: Seq<Outcome<N>>, i: int) -> bool {
    &&& int_value(args[i]) is Some
    &&& int_value(args[i + 1]) is Some
    &&& !relation_holds(rel, int_value(args[i])->0 as int, int_value(args[i + 1])->0 as int)
}

/// What a comparison chain returns: `false` when some adjacent pair fails
/// `rel`, `true` when all pass. A pair of integers is decided exactly; a pair
/// with a real in it is decided by machine arithmetic.
pub open spec fn chain_outcome<N: Numeric>(rel: Relation, args: Seq<Outcome<N>>) -> Result<
    Outcome<N>,
    RuntimeError,
> {
    if args.len() < 2 {
        Err(RuntimeError::ArityError)
    } else if has_complex(args) {
        Err(RuntimeError::UnorderedType)
    } else if has_non_number(args) {
        Err(RuntimeError::TypeError)
    } else if exists|i: int| 0 <= i < args.len() - 1 && #[trigger] int_link_fails(rel, args, i) {
        Ok(Outcome::Exactly(Expression::Bool(false)))
    } else if forall|i: int| 0 <= i < args.len() ==> #[trigger] rank(args[i]) == 0 {
        Ok(Outcome::Exactly(Expression::Bool(true)))
    } else {
        Ok(Outcome::AnyBool)
    }
}

/// What a native operator returns for the given operands.
pub open spec fn apply_outcome<N: Numeric>(b: Builtin, args: Seq<Outcome<N>>) -> Result<
    Outcome<N>,
    RuntimeError,
> {
    match b {
        Builtin::Add => arith_outcome(ArithOp::Add, args),
        Builtin::Sub => arith_outcome(ArithOp::Sub, args),
        Builtin::Mul => arith_outcome(ArithOp::Mul, args),
        Builtin::Div => arith_outcome(ArithOp::Div, args),
        Builtin::Min => pick_outcome(false, args),
        Builtin::Max => pick_outcome(true, args),
        Builtin::Eq => chain_outcome(Relation::Eq, args),
        Builtin::Lt => chain_outcome(Relation::Lt, args),
        Builtin::Le => chain_outcome(Relation::Le, args),
        Builtin::Gt => chain_outcome(Relation::Gt, args),
        Builtin::Ge => chain_outcome(Relation::Ge, args),
    }
}

/// The lesser of two integers; the second when neither is less.
pub fn min(a: i32, b: i32) -> (r: i32)
    ensures
        r == if a < b {
            a
        } else {
            b
        },
{
    if a < b {
        a
    } else {
        b
    }
}

/// The greater of two integers; the second when neither is greater.
pub fn max(a: i32, b: i32) -> (r: i32)
    ensures
        r == if a > b {
            a
        } else {
            b
        },
{
    if a > b {
        a
    } else {
        b
    }
}

/// The real that an integer or real operand stands for.
fn as_real<N: Numeric>(e: &Expression<N>) -> N::Real
    requires
        rank(Outcome::Exactly(*e)) <= 1,
{
    match e {
        Expression::Float(x) => *x,
        Expression::Int(v) => N::real_from_int(*v),
        _ => N::real_from_int(0),
    }
}

/// The complex number that a numeric operand stands for; a real one gets a
/// zero imaginary part.
fn as_complex<N: Numeric>(e: &Expression<N>) -> N::Complex
    requires
        rank(Outcome::Exactly(*e)) <= 2,
{
    match e {
        Expression::Complex(c) => *c,
        Expression::Float(x) => N::complex_from_parts(*x, N::real_from_int(0)),
        Expression::Int(v) => N::complex_from_parts(N::real_from_int(*v), N::real_from_int(0)),
        _ => N::complex_from_parts(N::real_from_int(0), N::real_from_int(0)),
    }
}

/// `a op b` on two numbers.
fn combine<N: Numeric>(op: ArithOp, a: &Expression<N>, b: &Expression<N>) -> (r: Expression<N>)
    requires
        is_number(Outcome::Exactly(*a)),
        is_number(Outcome::Exactly(*b)),
    ensures
        arith_step(op, Outcome::Exactly(*a), Outcome::Exactly(*b)).admits(r),
{
    match (a, b) {
        (Expression::Int(x), Expression::Int(y)) if op != ArithOp::Div => {
            let v = match op {
                ArithOp::Add => x.wrapping_add(*y),
                ArithOp::Sub => x.wrapping_sub(*y),
                _ => x.wrapping_mul(*y),
            };
            Expression::Int(v)
        },
        _ => {
            if rank_of(a) == 2 || rank_of(b) == 2 {
                Expression::Complex(N::complex_arith(op, &as_complex(a), &as_complex(b)))
            } else {
                Expression::Float(N::real_arith(op, &as_real(a), &as_real(b)))
            }
        },
    }
}

/// `op` on a single number.
fn unary<N: Numeric>(op: ArithOp, a: &Rc<Expression<N>>) -> (r: Rc<Expression<N>>)
    requires
        is_number(Outcome::Exactly(**a)),
    ensures
        arith_unary(op, Outcome::Exactly(**a)).admits(*r),
{
    match op {
        ArithOp::Sub => {
            let v = match &**a {
                Expression::Int(v) => Expression::Int(0i32.wrapping_sub(*v)),
                Expression::Float(x) => Expression::Float(N::real_neg(x)),
                Expression::Complex(c) => Expression::Complex(N::complex_neg(c)),
                _ => Expression::Nil,
            };
            Rc::new(v)
        },
        ArithOp::Div => {
            let one = N::real_from_int(1);
            let v = match &**a {
                Expression::Complex(c) => Expression::Complex(
                    N::complex_arith(
                        ArithOp::Div,
                        &N::complex_from_parts(one, N::real_from_int(0)),
                        c,
                    ),
                ),
                _ => Expression::Float(N::real_arith(ArithOp::Div, &one, &as_real(&**a))),
            };
            Rc::new(v)
        },
        _ => a.clone(),
    }
}

/// Returns `TypeError` when some operand is not a number.
fn check_numbers<N: Numeric>(args: &Vec<Rc<Expression<N>>>) -> (r: Result<(), RuntimeError>)
    ensures
        r is Ok <==> !has_non_number(exact(args@)),
        r is Err ==> r == Err::<(), RuntimeError>(RuntimeError::TypeError),
{
    let ghost ex = exact(args@);
    let mut i: usize = 0;
    while i < args.len()
        invariant
            i <= args@.len(),
            ex == exact(args@),
            forall|j: int| 0 <= j < i ==> rank(#[trigger] ex[j]) != 3,
        decreases args@.len() - i,
    {
        if rank_of(&args[i]) == 3 {
            assert(rank(ex[i as int]) == 3);
            return Err(RuntimeError::TypeError);
        }
        i += 1;
    }
    Ok(())
}

/// Returns `UnorderedType` when some operand is complex.
fn check_ordered<N: Numeric>(args: &Vec<Rc<Expression<N>>>) -> (r: Result<(), RuntimeError>)
    ensures
        r is Ok <==> !has_complex(exact(args@)),
        r is Err ==> r == Err::<(), RuntimeError>(RuntimeError::UnorderedType),
{
    let ghost ex = exact(args@);
    let mut i: usize = 0;
    while i < args.len()
        invariant
            i <= args@.len(),
            ex == exact(args@),
            forall|j: int| 0 <= j < i ==> rank(#[trigger] ex[j]) != 2,
        decreases args@.len() - i,
    {
        if rank_of(&args[i]) == 2 {
            assert(rank(ex[i as int]) == 2);
            return Err(RuntimeError::UnorderedType);
        }
        i += 1;
    }
    Ok(())
}

/// `+ - * /` on a sequence of operands.
fn arithmetic<N: Numeric>(op: ArithOp, args: &Vec<Rc<Expression<N>>>) -> (r: Result<
    Rc<Expression<N>>,
    RuntimeError,
>)
    ensures
        delivers(r, arith_outcome(op, exact(args@))),
{
    let ghost ex = exact(args@);
    let n = args.len();
    if n == 0 {
        return Err(RuntimeError::ArityError);
    }
    check_numbers(args)?;
    assert(forall|j: int| 0 <= j < n ==> is_number(#[trigger] ex[j]));
    if n == 1 {
        return Ok(unary(op, &args[0]));
    }
    assert(ex[0] == Outcome::Exactly(*args@[0]));
    assert(ex[1] == Outcome::Exactly(*args@[1]));
    assert(ex.subrange(0, 2).drop_last() =~= ex.subrange(0, 1));
    assert(arith_fold(op, ex.subrange(0, 1)) == ex[0]);
    let mut acc = combine(op, &args[0], &args[1]);
    let mut k: usize = 2;
    while k < n
        invariant
            2 <= k <= n,
            n == args@.len(),
            ex == exact(args@),
            forall|j: int| 0 <= j < n ==> is_number(#[trigger] ex[j]),
            arith_fold(op, ex.subrange(0, k as int)).admits(acc),
        decreases n - k,
    {
        let ghost before = arith_fold(op, ex.subrange(0, k as int));
        proof {
            lemma_admits_profile(before, acc);
            assert(ex.subrange(0, k + 1).drop_last() =~= ex.subrange(0, k as int));
            assert(ex[k as int] == Outcome::Exactly(*args@[k as int]));
        }
        acc = combine(op, &acc, &args[k]);
        k += 1;
    }
    assert(ex.subrange(0, n as int) =~= ex);
    Ok(Rc::new(acc))
}

/// The lesser (or, with `greatest`, the greater) of two ordered numbers.
fn pick<N: Numeric>(greatest: bool, a: &Expression<N>, b: &Expression<N>) -> (r: Expression<N>)
    requires
        rank(Outcome::Exactly(*a)) <= 1,
        rank(Outcome::Exactly(*b)) <= 1,
    ensures
        pick_step(greatest, Outcome::Exactly(*a), Outcome::Exactly(*b)).admits(r),
{
    match (a, b) {
        (Expression::Int(x), Expression::Int(y)) => {
            if greatest {
                Expression::Int(max(*x, *y))
            } else {
                Expression::Int(min(*x, *y))
            }
        },
        _ => {
            let x = as_real(a);
            let y = as_real(b);
            let rel = if greatest {
                Relation::Gt
            } else {
                Relation::Lt
            };
            if N::real_compare(rel, &x, &y) {
                Expression::Float(x)
            } else {
                Expression::Float(y)
            }
        },
    }
}

/// `min` or, with `greatest`, `max` on a sequence of operands.
fn extremum<N: Numeric>(greatest: bool, args: &Vec<Rc<Expression<N>>>) -> (r: Result<
    Rc<Expression<N>>,
    RuntimeError,
>)
    ensures
        delivers(r, pick_outcome(greatest, exact(args@))),
{
    let ghost ex = exact(args@);
    let n = args.len();
    if n == 0 {
        return Err(RuntimeError::ArityError);
    }
    check_ordered(args)?;
    check_numbers(args)?;
    assert(forall|j: int| 0 <= j < n ==> rank(#[trigger] ex[j]) <= 1);
    assert(ex[0] == Outcome::Exactly(*args@[0]));
    if n == 1 {
        return Ok(args[0].clone());
    }
    assert(ex[1] == Outcome::Exactly(*args@[1]));
    assert(ex.subrange(0, 2).drop_last() =~= ex.subrange(0, 1));
    assert(pick_fold(greatest, ex.subrange(0, 1)) == ex[0]);
    let mut acc = pick(greatest, &args[0], &args[1]);
    let mut k: usize = 2;
    while k < n
        invariant
            2 <= k <= n,
            n == args@.len(),
            ex == exact(args@),
            forall|j: int| 0 <= j < n ==> rank(#[trigger] ex[j]) <= 1,
            pick_fold(greatest, ex.subrange(0, k as int)).admits(acc),
        decreases n - k,
    {
        let ghost before = pick_fold(greatest, ex.subrange(0, k as int));
        proof {
            lemma_admits_profile(before, acc);
            assert(ex.subrange(0, k + 1).drop_last() =~= ex.subrange(0, k as int));
            assert(ex[k as int] == Outcome::Exactly(*args@[k as int]));
        }
        acc = pick(greatest, &acc, &args[k]);
        k += 1;
    }
    assert(ex.subrange(0, n as int) =~= ex);
    Ok(Rc::new(acc))
}

/// Whether `a rel b` holds of two ordered numbers.
fn compare<N: Numeric>(rel: Relation, a: &Expression<N>, b: &Expression<N>) -> (r: bool)
    requires
        rank(Outcome::Exactly(*a)) <= 1,
        rank(Outcome::Exactly(*b)) <= 1,
    ensures
        (*a is Int && *b is Int) ==> r == relation_holds(rel, a->Int_0 as int, b->Int_0 as int),
{
    match (a, b) {
        (Expression::Int(x), Expression::Int(y)) => match rel {
            Relation::Eq => *x == *y,
            Relation::Lt => *x < *y,
            Relation::Le => *x <= *y,
            Relation::Gt => *x > *y,
            Relation::Ge => *x >= *y,
        },
        _ => N::real_compare(rel, &as_real(a), &as_real(b)),
    }
}

/// A comparison chain: `rel` on each adjacent pair, left to right, stopping
/// at the first pair that fails.
fn chain<N: Numeric>(rel: Relation, args: &Vec<Rc<Expression<N>>>) -> (r: Result<
    Rc<Expression<N>>,
    RuntimeError,
>)
    ensures
        delivers(r, chain_outcome(rel, exact(args@))),
{
    let ghost ex = exact(args@);
    let n = args.len();
    if n < 2 {
        return Err(RuntimeError::ArityError);
    }
    check_ordered(args)?;
    check_numbers(args)?;
    assert(forall|j: int| 0 <= j < n ==> rank(#[trigger] ex[j]) <= 1);
    let mut i: usize = 0;
    while i + 1 < n
        invariant
            i + 1 <= n,
            n == args@.len(),
            ex == exact(args@),
            forall|j: int| 0 <= j < n ==> rank(#[trigger] ex[j]) <= 1,
            forall|j: int| 0 <= j < i ==> !#[trigger] int_link_fails(rel, ex, j),
        decreases n - i,
    {
        assert(ex[i as int] == Outcome::Exactly(*args@[i as int]));
        assert(ex[i + 1] == Outcome::Exactly(*args@[i + 1]));
        if !compare(rel, &args[i], &args[i + 1]) {
            proof {
                if !int_link_fails(rel, ex, i as int) {
                    assert(rank(ex[i as int]) != 0 || rank(ex[i + 1]) != 0);
                }
            }
            return Ok(Rc::new(Expression::Bool(false)));
        }
        i += 1;
    }
    Ok(Rc::new(Expression::Bool(true)))
}

/// Applies a native operator to evaluated operands.
pub fn apply<N: Numeric>(b: Builtin, args: Vec<Rc<Expression<N>>>) -> (r: Result<
    Rc<Expression<N>>,
    RuntimeError,
>)
    ensures
        delivers(r, apply_outcome(b, exact(args@))),
{
    match b {
        Builtin::Add => arithmetic(ArithOp::Add, &args),
        Builtin::Sub => arithmetic(ArithOp::Sub, &args),
        Builtin::Mul => arithmetic(ArithOp::Mul, &args),
        Builtin::Div => arithmetic(ArithOp::Div, &args),
        Builtin::Min => extremum(false, &args),
        Builtin::Max => extremum(true, &args),
        Builtin::Eq => chain(Relation::Eq, &args),
        Builtin::Lt => chain(Relation::Lt, &args),
        Builtin::Le => chain(Relation::Le, &args),
        Builtin::Gt => chain(Relation::Gt, &args),
        Builtin::Ge => chain(Relation::Ge, &args),
    }
}

/// `(+ a ...)`: the sum, folded from the left.
pub fn op_add<N: Numeric>(args: Vec<Rc<Expression<N>>>) -> (r: Result<
    Rc<Expression<N>>,
    RuntimeError,
>)
    ensures
        delivers(r, arith_outcome(ArithOp::Add, exact(args@))),
{
    arithmetic(ArithOp::Add, &args)
}

/// `(- a ...)`: the difference, folded from the left; one operand is negated.
pub fn op_sub<N: Numeric>(args: Vec<Rc<Expression<N>>>) -> (r: Result<
    Rc<Expression<N>>,
    RuntimeError,
>)
    ensures
        delivers(r, arith_outcome(ArithOp::Sub, exact(args@))),
{
    arithmetic(ArithOp::Sub, &args)
}

/// `(* a ...)`: the product, folded from the left.
pub fn op_mul<N: Numeric>(args: Vec<Rc<Expression<N>>>) -> (r: Result<
    Rc<Expression<N>>,
    RuntimeError,
>)
    ensures
        delivers(r, arith_outcome(ArithOp::Mul, exact(args@))),
{
    arithmetic(ArithOp::Mul, &args)
}

/// `(/ a ...)`: the quotient, folded from the left; one operand is inverted.
/// Integers are divided as reals.
pub fn op_div<N: Numeric>(args: Vec<Rc<Expression<N>>>) -> (r: Result<
    Rc<Expression<N>>,
    RuntimeError,
>)
    ensures
        delivers(r, arith_outcome(ArithOp::Div, exact(args@))),
{
    arithmetic(ArithOp::Div, &args)
}

/// `(min a ...)`.
pub fn op_min<N: Numeric>(args: Vec<Rc<Expression<N>>>) -> (r: Result<
    Rc<Expression<N>>,
    RuntimeError,
>)
    ensures
        delivers(r, pick_outcome(false, exact(args@))),
{
    extremum(false, &args)
}

/// `(max a ...)`.
pub fn op_max<N: Numeric>(args: Vec<Rc<Expression<N>>>) -> (r: Result<
    Rc<Expression<N>>,
    RuntimeError,
>)
    ensures
        delivers(r, pick_outcome(true, exact(args@))),
{
    extremum(true, &args)
}

/// `(= a b ...)`.
pub fn op_eq<N: Numeric>(args: Vec<Rc<Expression<N>>>) -> (r: Result<
    Rc<Expression<N>>,
    RuntimeError,
>)
    ensures
        delivers(r, chain_outcome(Relation::Eq, exact(args@))),
{
    chain(Relation::Eq, &args)
}

/// `(< a b ...)`.
pub fn op_lt<N: Numeric>(args: Vec<Rc<Expression<N>>>) -> (r: Result<
    Rc<Expression<N>>,
    RuntimeError,
>)
    ensures
        delivers(r, chain_outcome(Relation::Lt, exact(args@))),
{
    chain(Relation::Lt, &args)
}

/// `(<= a b ...)`.
pub fn op_le<N: Numeric>(args: Vec<Rc<Expression<N>>>) -> (r: Result<
    Rc<Expression<N>>,
    RuntimeError,
>)
    ensures
        delivers(r, chain_outcome(Relation::Le, exact(args@))),
{
    chain(Relation::Le, &args)
}

/// `(> a b ...)`.
pub fn op_gt<N: Numeric>(args: Vec<Rc<Expression<N>>>) -> (r: Result<
    Rc<Expression<N>>,
    RuntimeError,
>)
    ensures
        delivers(r, chain_outcome(Relation::Gt, exact(args@))),
{
    chain(Relation::Gt, &args)
}

/// `(>= a b ...)`.
pub fn op_ge<N: Numeric>(args: Vec<Rc<Expression<N>>>) -> (r: Result<
    Rc<Expression<N>>,
    RuntimeError,
>)
    ensures
        delivers(r, chain_outcome(Relation::Ge, exact(args@))),
{
    chain(Relation::Ge, &args)
}

/// Two sequences of outcomes that agree, element by element, on rank and on
/// integer value.
pub open spec fn same_profile<N: Numeric>(s: Seq<Outcome<N>>, t: Seq<Outcome<N>>) -> bool {
    &&& s.len() == t.len()
    &&& forall|i: int|
        0 <= i < s.len() ==> rank(#[trigger] s[i]) == rank(t[i]) && int_value(s[i]) == int_value(
            t[i],
        )
}

proof fn lemma_profile_drop_last<N: Numeric>(s: Seq<Outcome<N>>, t: Seq<Outcome<N>>)
    requires
        same_profile(s, t),
        s.len() >= 1,
    ensures
        same_profile(s.drop_last(), t.drop_last()),
{
    assert forall|i: int| 0 <= i < s.len() - 1 implies rank(#[trigger] s.drop_last()[i]) == rank(
        t.drop_last()[i],
    ) && int_value(s.drop_last()[i]) == int_value(t.drop_last()[i]) by {
        assert(s.drop_last()[i] == s[i]);
        assert(t.drop_last()[i] == t[i]);
    }
}

proof fn lemma_arith_fold_profile<N: Numeric>(op: ArithOp, s: Seq<Outcome<N>>, t: Seq<Outcome<N>>)
    requires
        same_profile(s, t),
        s.len() >= 2,
    ensures
        arith_fold(op, s) == arith_fold(op, t),
    decreases s.len(),
{
    assert(rank(s[s.len() - 1]) == rank(t[s.len() - 1]));
    if s.len() == 2 {
        assert(arith_fold(op, s.drop_last()) == s[0]);
        assert(arith_fold(op, t.drop_last()) == t[0]);
        assert(rank(s[0]) == rank(t[0]));
    } else {
        lemma_profile_drop_last(s, t);
        lemma_arith_fold_profile(op, s.drop_last(), t.drop_last());
    }
}

proof fn lemma_pick_fold_profile<N: Numeric>(greatest: bool, s: Seq<Outcome<N>>, t: Seq<Outcome<N>>)
    requires
        same_profile(s, t),
        s.len() >= 2,
    ensures
        pick_fold(greatest, s) == pick_fold(greatest, t),
    decreases s.len(),
{
    assert(rank(s[s.len() - 1]) == rank(t[s.len() - 1]));
    if s.len() == 2 {
        assert(pick_fold(greatest, s.drop_last()) == s[0]);
        assert(pick_fold(greatest, t.drop_last()) == t[0]);
        assert(rank(s[0]) == rank(t[0]));
    } else {
        lemma_profile_drop_last(s, t);
        lemma_pick_fold_profile(greatest, s.drop_last(), t.drop_last());
    }
}

proof fn lemma_checks_profile<N: Numeric>(s: Seq<Outcome<N>>, t: Seq<Outcome<N>>)
    requires
        same_profile(s, t),
    ensures
        has_complex(s) == has_complex(t),
        has_non_number(s) == has_non_number(t),
{
    if has_complex(s) {
        let i = choose|i: int| 0 <= i < s.len() && rank(#[trigger] s[i]) == 2;
        assert(rank(t[i]) == 2);
    }
    if has_complex(t) {
        let i = choose|i: int| 0 <= i < t.len() && rank(#[trigger] t[i]) == 2;
        assert(rank(s[i]) == 2);
    }
    if has_non_number(s) {
        let i = choose|i: int| 0 <= i < s.len() && rank(#[trigger] s[i]) == 3;
        assert(rank(t[i]) == 3);
    }
    if has_non_number(t) {
        let i = choose|i: int| 0 <= i < t.len() && rank(#[trigger] t[i]) == 3;
        assert(rank(s[i]) == 3);
    }
}

proof fn lemma_chain_profile<N: Numeric>(rel: Relation, s: Seq<Outcome<N>>, t: Seq<Outcome<N>>)
    requires
        same_profile(s, t),
    ensures
        chain_outcome(rel, s) == chain_outcome(rel, t),
{
    lemma_checks_profile(s, t);
    assert forall|i: int| 0 <= i < s.len() - 1 implies #[trigger] int_link_fails(rel, s, i)
        == int_link_fails(rel, t, i) by {
        assert(int_value(s[i]) == int_value(t[i]));
        assert(int_value(s[i + 1]) == int_value(t[i + 1]));
    }
    if exists|i: int| 0 <= i < s.len() - 1 && #[trigger] int_link_fails(rel, s, i) {
        let i = choose|i: int| 0 <= i < s.len() - 1 && #[trigger] int_link_fails(rel, s, i);
        assert(int_link_fails(rel, t, i));
    }
    if exists|i: int| 0 <= i < t.len() - 1 && #[trigger] int_link_fails(rel, t, i) {
        let i = choose|i: int| 0 <= i < t.len() - 1 && #[trigger] int_link_fails(rel, t, i);
        assert(int_link_fails(rel, s, i));
    }
    assert((forall|i: int| 0 <= i < s.len() ==> #[trigger] rank(s[i]) == 0) == (forall|i: int|
        0 <= i < t.len() ==> #[trigger] rank(t[i]) == 0)) by {
        if forall|i: int| 0 <= i < s.len() ==> #[trigger] rank(s[i]) == 0 {
            assert forall|i: int| 0 <= i < t.len() implies #[trigger] rank(t[i]) == 0 by {
                assert(rank(s[i]) == 0);
            }
        }
        if forall|i: int| 0 <= i < t.len() ==> #[trigger] rank(t[i]) == 0 {
            assert forall|i: int| 0 <= i < s.len() implies #[trigger] rank(s[i]) == 0 by {
                assert(rank(t[i]) == 0);
            }
        }
    }
}

/// An operator's result depends on its operands only through their ranks and
/// integer values, except that a lone operand of `+`, `*`, `min` or `max` is
/// handed back as it is.
pub proof fn lemma_apply_profile<N: Numeric>(b: Builtin, s: Seq<Outcome<N>>, t: Seq<Outcome<N>>)
    requires
        same_profile(s, t),
    ensures
        apply_outcome(b, s) == apply_outcome(b, t) || (s.len() == 1 && apply_outcome(b, s) == Ok::<
            Outcome<N>,
            RuntimeError,
        >(s[0]) && apply_outcome(b, t) == Ok::<Outcome<N>, RuntimeError>(t[0])),
{
    lemma_checks_profile(s, t);
    if s.len() >= 2 {
        lemma_arith_fold_profile(ArithOp::Add, s, t);
        lemma_arith_fold_profile(ArithOp::Sub, s, t);
        lemma_arith_fold_profile(ArithOp::Mul, s, t);
        lemma_arith_fold_profile(ArithOp::Div, s, t);
        lemma_pick_fold_profile(false, s, t);
        lemma_pick_fold_profile(true, s, t);
    }
    if s.len() == 1 {
        assert(rank(s[0]) == rank(t[0]));
        assert(pick_fold(false, s) == s[0]);
        assert(pick_fold(true, s) == s[0]);
        assert(pick_fold(false, t) == t[0]);
        assert(pick_fold(true, t) == t[0]);
    }
    lemma_chain_profile(Relation::Eq, s, t);
    lemma_chain_profile(Relation::Lt, s, t);
    lemma_chain_profile(Relation::Le, s, t);
    lemma_chain_profile(Relation::Gt, s, t);
    lemma_chain_profile(Relation::Ge, s, t);
}

/// A single number is its own sum and its own product: `(+ a)` and `(* a)`
/// return `a`.
pub proof fn law_unary_identity<N: Numeric>(a: Expression<N>)
    requires
        is_number(Outcome::Exactly(a)),
    ensures
        arith_outcome(ArithOp::Add, seq![Outcome::Exactly(a)]) == Ok::<Outcome<N>, RuntimeError>(
            Outcome::Exactly(a),
        ),
        arith_outcome(ArithOp::Mul, seq![Outcome::Exactly(a)]) == Ok::<Outcome<N>, RuntimeError>(
            Outcome::Exactly(a),
        ),
{
    let s = seq![Outcome::<N>::Exactly(a)];
    assert(!has_non_number(s)) by {
        assert forall|i: int| 0 <= i < s.len() implies rank(#[trigger] s[i]) != 3 by {
            assert(s[i] == Outcome::<N>::Exactly(a));
        }
    }
}

/// Swapping the two operands of `+` or `*` does not change the result as far
/// as the library decides it: two integers give the same integer, and
/// otherwise both orders give a machine number of the same kind.
pub proof fn law_commutative<N: Numeric>(op: ArithOp, a: Expression<N>, b: Expression<N>)
    requires
        op == ArithOp::Add || op == ArithOp::Mul,
        is_number(Outcome::Exactly(a)),
        is_number(Outcome::Exactly(b)),
    ensures
        arith_outcome(op, seq![Outcome::Exactly(a), Outcome::Exactly(b)]) == arith_outcome(
            op,
            seq![Outcome::Exactly(b), Outcome::Exactly(a)],
        ),
{
    let s = seq![Outcome::<N>::Exactly(a), Outcome::Exactly(b)];
    let t = seq![Outcome::<N>::Exactly(b), Outcome::Exactly(a)];
    assert(!has_non_number(s)) by {
        assert forall|i: int| 0 <= i < s.len() implies rank(#[trigger] s[i]) != 3 by {
            assert(i == 0 || i == 1);
        }
    }
    assert(!has_non_number(t)) by {
        assert forall|i: int| 0 <= i < t.len() implies rank(#[trigger] t[i]) != 3 by {
            assert(i == 0 || i == 1);
        }
    }
    assert(s.drop_last() =~= seq![Outcome::<N>::Exactly(a)]);
    assert(t.drop_last() =~= seq![Outcome::<N>::Exactly(b)]);
    assert(arith_fold(op, s.drop_last()) == Outcome::<N>::Exactly(a));
    assert(arith_fold(op, t.drop_last()) == Outcome::<N>::Exactly(b));
    if let (Expression::Int(x), Expression::Int(y)) = (a, b) {
        assert(x.wrapping_add(y) == y.wrapping_add(x));
        assert(x.wrapping_mul(y) == y.wrapping_mul(x)) by (nonlinear_arith);
    }
}

/// The rank that promotion gives the result of `op`: complex as soon as one
/// operand is complex; otherwise an integer when every operand is one and
/// `op` is not `/`; otherwise a real.
pub open spec fn promoted_rank<N: Numeric>(op: ArithOp, args: Seq<Outcome<N>>) -> int {
    if has_complex(args) {
        2
    } else if op != ArithOp::Div && forall|i: int| 0 <= i < args.len() ==> #[trigger] rank(args[i])
        == 0 {
        0
    } else {
        1
    }
}

proof fn lemma_fold_rank<N: Numeric>(op: ArithOp, args: Seq<Outcome<N>>)
    requires
        args.len() >= 2,
        forall|i: int| 0 <= i < args.len() ==> is_number(#[trigger] args[i]),
    ensures
        rank(arith_fold(op, args)) == promoted_rank(op, args),
    decreases args.len(),
{
    let init = args.drop_last();
    assert forall|i: int| 0 <= i < init.len() implies is_number(#[trigger] init[i]) by {
        assert(init[i] == args[i]);
    }
    let prev = arith_fold(op, init);
    let all_int_init = forall|i: int| 0 <= i < init.len() ==> #[trigger] rank(init[i]) == 0;
    if args.len() == 2 {
        assert(prev == args[0]);
        assert(init[0] == args[0]);
        if rank(args[0]) == 2 {
            assert(has_complex(init));
        }
        if rank(args[0]) == 0 {
            assert(all_int_init);
        }
    } else {
        lemma_fold_rank(op, init);
    }
    assert(rank(prev) < 3);
    assert(rank(prev) == 2 <==> has_complex(init));
    assert(op != ArithOp::Div ==> (rank(prev) == 0 <==> all_int_init));
    if has_complex(args) {
        let i = choose|i: int| 0 <= i < args.len() && rank(#[trigger] args[i]) == 2;
        if i < args.len() - 1 {
            assert(init[i] == args[i]);
            assert(has_complex(init));
        }
    } else {
        if has_complex(init) {
            let i = choose|i: int| 0 <= i < init.len() && rank(#[trigger] init[i]) == 2;
            assert(args[i] == init[i]);
        }
    }
    if forall|i: int| 0 <= i < args.len() ==> #[trigger] rank(args[i]) == 0 {
        assert forall|i: int| 0 <= i < init.len() implies #[trigger] rank(init[i]) == 0 by {
            assert(init[i] == args[i]);
        }
    } else {
        let i = choose|i: int| 0 <= i < args.len() && #[trigger] rank(args[i]) != 0;
        if i < args.len() - 1 {
            assert(init[i] == args[i]);
        }
    }
}

/// Promotion: over numbers, `+ - *` keep integers integers, `/` turns
/// integers into reals, and a complex operand makes the result complex.
pub proof fn law_promotion<N: Numeric>(op: ArithOp, args: Seq<Outcome<N>>)
    requires
        args.len() >= 1,
        forall|i: int| 0 <= i < args.len() ==> is_number(#[trigger] args[i]),
    ensures
        arith_outcome(op, args) is Ok,
        rank(arith_outcome(op, args)->Ok_0) == promoted_rank(op, args),
{
    assert(!has_non_number(args));
    if args.len() == 1 {
        if rank(args[0]) == 2 {
            assert(has_complex(args));
        } else {
            assert(!has_complex(args));
        }
        if rank(args[0]) == 0 {
            assert(forall|i: int| 0 <= i < args.len() ==> #[trigger] rank(args[i]) == 0);
        }
    } else {
        lemma_fold_rank(op, args);
    }
}

/// An arithmetic operator, `min` or `max` with no operand, or a comparison
/// chain with fewer than two, fails with `ArityError`.
pub proof fn law_too_few_operands<N: Numeric>(b: Builtin, args: Seq<Outcome<N>>)
    requires
        args.len() == 0 || (args.len() < 2 && (b == Builtin::Eq || b == Builtin::Lt || b
            == Builtin::Le || b == Builtin::Gt || b == Builtin::Ge)),
    ensures
        apply_outcome(b, args) == Err::<Outcome<N>, RuntimeError>(RuntimeError::ArityError),
{
}

/// A complex operand to `min`, `max` or a comparison chain of two or more
/// operands fails with `UnorderedType`.
pub proof fn law_complex_unordered<N: Numeric>(b: Builtin, args: Seq<Outcome<N>>)
    requires
        b == Builtin::Min || b == Builtin::Max || b == Builtin::Eq || b == Builtin::Lt || b
            == Builtin::Le || b == Builtin::Gt || b == Builtin::Ge,
        has_complex(args),
        args.len() >= 2 || b == Builtin::Min || b == Builtin::Max,
    ensures
        apply_outcome(b, args) == Err::<Outcome<N>, RuntimeError>(RuntimeError::UnorderedType),
{
}

} // verus!

use vstd::prelude::*;

verus! {

/// The four arithmetic operators of the numeric tower.
#[derive(Clone, Copy, PartialEq, Eq, Structural, Debug)]
pub enum ArithOp {
    Add,
    Sub,
    Mul,
    Div,
}

/// The five relations of the comparison chains.
#[derive(Clone, Copy, PartialEq, Eq, Structural, Debug)]
pub enum Relation {
    Eq,
    Lt,
    Le,
    Gt,
    Ge,
}

/// Machine arithmetic on the non-integer members of the numeric tower.
///
/// The library decides, for every operator and every combination of operand
/// kinds, which operation runs on which promoted operands; an implementation
/// of this trait carries the operation out on machine numbers. The library
/// assumes nothing of the values it returns: its contracts state what holds
/// whatever they are.
pub trait Numeric {
    /// A real number (the `Float` member of the tower).
    type Real: Copy;

    /// A complex number.
    type Complex: Copy;

    /// The real nearest to an integer.
    fn real_from_int(v: i32) -> Self::Real;

    /// The real that a decimal literal denotes.
    fn real_from_decimal(negative: bool, int_digits: &[u8], frac_digits: &[u8]) -> Self::Real;

    /// The complex number with the given real and imaginary parts.
    fn complex_from_parts(re: Self::Real, im: Self::Real) -> Self::Complex;

    /// `a op b` on reals.
    fn real_arith(op: ArithOp, a: &Self::Real, b: &Self::Real) -> Self::Real;

    /// `-a` on reals.
    fn real_neg(a: &Self::Real) -> Self::Real;

    /// Whether `a rel b` holds of two reals.
    fn real_compare(rel: Relation, a: &Self::Real, b: &Self::Real) -> bool;

    /// `a op b` on complex numbers.
    fn complex_arith(op: ArithOp, a: &Self::Complex, b: &Self::Complex) -> Self::Complex;

    /// `-a` on complex numbers.
    fn complex_neg(a: &Self::Complex) -> Self::Complex;
}

} // verus!

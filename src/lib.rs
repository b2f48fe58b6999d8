//! An S-expression reader and a tree-walking evaluator over a small numeric
//! tower (integers, reals, complex numbers), with the decisions of both
//! stated as contracts.
//!
//! The reader turns bytes into [`Token`]s, keeping numerals as written;
//! [`Expression::new`] turns a token into a runtime value, making numerals
//! machine numbers through a [`Numeric`] implementation; and
//! [`Environment::eval`] evaluates a value against the native operators.
pub mod arithmetic;
pub mod environment;
pub mod error;
pub mod expression;
pub mod numeric;
pub mod reader;
pub mod token;

pub use arithmetic::{
    max, min, op_add, op_div, op_eq, op_ge, op_gt, op_le, op_lt, op_max, op_min, op_mul, op_sub,
};
pub use environment::Environment;
pub use error::{ParseError, RuntimeError};
pub use expression::{Builtin, Expression, Outcome};
pub use numeric::{ArithOp, Numeric, Relation};
pub use reader::{identifier, sign, token, token_from_str};
pub use token::{array_to_list, float_token, token_f, Decimal, Token};

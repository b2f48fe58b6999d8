use std::rc::Rc;

use metal_scheme::{
    max, min, op_div, op_eq, op_lt, op_max, op_min, op_mul, op_sub, token, ArithOp,
    Builtin, Environment, Expression, Numeric, Relation, RuntimeError,
};
use num::complex::Complex32;

/// Machine arithmetic on `f32` and `Complex32`.
struct F32;

impl Numeric for F32 {
    type Real = f32;
    type Complex = Complex32;

    fn real_from_int(v: i32) -> f32 {
        v as f32
    }

    fn real_from_decimal(negative: bool, int_digits: &[u8], frac_digits: &[u8]) -> f32 {
        let int_part: f32 = std::str::from_utf8(int_digits).unwrap().parse().unwrap();
        let frac_part: f32 = if frac_digits.is_empty() {
            0f32
        } else {
            let digits: f32 = std::str::from_utf8(frac_digits).unwrap().parse().unwrap();
            digits / 10.0f32.powf(frac_digits.len() as f32)
        };
        let sign = if negative { -1.0f32 } else { 1.0f32 };
        sign * (int_part + frac_part)
    }

    fn complex_from_parts(re: f32, im: f32) -> Complex32 {
        Complex32::new(re, im)
    }

    fn real_arith(op: ArithOp, a: &f32, b: &f32) -> f32 {
        match op {
            ArithOp::Add => a + b,
            ArithOp::Sub => a - b,
            ArithOp::Mul => a * b,
            ArithOp::Div => a / b,
        }
    }

    fn real_neg(a: &f32) -> f32 {
        -a
    }

    fn real_compare(rel: Relation, a: &f32, b: &f32) -> bool {
        match rel {
            Relation::Eq => a == b,
            Relation::Lt => a < b,
            Relation::Le => a <= b,
            Relation::Gt => a > b,
            Relation::Ge => a >= b,
        }
    }

    fn complex_arith(op: ArithOp, a: &Complex32, b: &Complex32) -> Complex32 {
        match op {
            ArithOp::Add => a + b,
            ArithOp::Sub => a - b,
            ArithOp::Mul => a * b,
            ArithOp::Div => a / b,
        }
    }

    fn complex_neg(a: &Complex32) -> Complex32 {
        -a
    }
}

type Value = Expression<F32>;

fn same(a: &Value, b: &Value) -> bool {
    match (a, b) {
        (Expression::Complex(x), Expression::Complex(y)) => x == y,
        _ => a.equals(b) == Ok(true),
    }
}

fn evaluate(test: &str) -> Result<Rc<Value>, RuntimeError> {
    let o = match token(test.as_bytes()) {
        Ok(o) => o,
        Err(_) => panic!("Failed to parse! {}", test),
    };
    assert!(o.len() == 1);
    let env = Environment::<F32>::new();
    env.eval(Rc::new(Expression::new(&o[0])))
}

fn run_test(test: &str, expected_res: Value) {
    match evaluate(test) {
        Ok(v) => assert!(same(&v, &expected_res), "{}", test),
        _ => panic!("{}", test),
    }
}

fn run_error(test: &str, expected: RuntimeError) {
    match evaluate(test) {
        Err(e) => assert_eq!(e, expected, "{}", test),
        Ok(_) => panic!("{} evaluated", test),
    }
}

fn int_value(v: i32) -> Rc<Value> {
    Rc::new(Expression::Int(v))
}

#[test]
fn test_op_add() {
    // Integer addition
    run_test("(+ 2 3)", Expression::Int(5));
    run_test("(+ 10)", Expression::Int(10));

    // Real addition
    run_test("(+ 1.45 90)", Expression::Float(91.45));

    // Complex addition
    run_test("(+ 1.45+4i +i)", Expression::Complex(Complex32::new(1.45f32, 5f32)));
    run_test("(+ -i +i)", Expression::Complex(Complex32::new(0f32, 0f32)));
}

#[test]
fn test_op_sub() {
    // Integer subtraction
    run_test("(- 2 3)", Expression::Int(-1));
    run_test("(- 10)", Expression::Int(-10));

    // Real subtraction
    run_test("(- 1.45 90)", Expression::Float(1.45f32 - 90f32));

    // Complex subtraction
    run_test("(- 1.45+4i +i)", Expression::Complex(Complex32::new(1.45f32, 3f32)));
    run_test("(- -i -i)", Expression::Complex(Complex32::new(0f32, 0f32)));
    run_test("(- +i)", Expression::Complex(Complex32::new(0f32, -1f32)));
}

#[test]
fn test_op_mul() {
    // Integer multiplication
    run_test("(* 2 3)", Expression::Int(6));
    run_test("(* 10)", Expression::Int(10));

    // Real multiplication
    run_test("(* 1.45 90)", Expression::Float(1.45f32 * 90f32));

    // Complex multiplication
    run_test(
        "(* 1.45+4i +i)",
        Expression::Complex(Complex32::new(1.45f32, 4f32) * Complex32::new(0f32, 1f32)),
    );
    run_test(
        "(* -i -i)",
        Expression::Complex(Complex32::new(0f32, -1f32) * Complex32::new(0f32, -1f32)),
    );
}

#[test]
fn test_op_div() {
    // Integer division
    run_test("(/ 3 2)", Expression::Float(3f32 / 2f32));
    run_test("(/ 10)", Expression::Float(1f32 / 10f32));

    // Real division
    run_test("(/ 1.45 90)", Expression::Float(1.45f32 / 90f32));
    run_test("(/ 0.5)", Expression::Float(1f32 / 0.5f32));

    // Complex division
    run_test(
        "(/ 1.45+4i +i)",
        Expression::Complex(Complex32::new(1.45f32, 4f32) / Complex32::new(0f32, 1f32)),
    );
    run_test(
        "(/ -i -i)",
        Expression::Complex(Complex32::new(0f32, -1f32) / Complex32::new(0f32, -1f32)),
    );
}

#[test]
fn test_op_min() {
    // Integer min
    run_test("(min 3 2)", Expression::Int(2));
    run_test("(min 10 -100 500 -345 -340)", Expression::Int(-345));

    // Real min
    run_test("(min 1.45 90)", Expression::Float(1.45f32));
    run_test("(min 0.5 -0.56 -0.559999)", Expression::Float(-0.56f32));
}

#[test]
fn test_op_max() {
    // Integer max
    run_test("(max 3 2)", Expression::Int(3));
    run_test("(max 10 -100 500 -345 -340)", Expression::Int(500));

    // Real max
    run_test("(max 1.45 90)", Expression::Float(90f32));
    run_test("(max 0.5 -0.56 -0.559999 0.4999999)", Expression::Float(0.5f32));
}

#[test]
fn test_op_eq() {
    run_test("(= 1 1)", Expression::Bool(true));
    run_test("(= (+ 2 2) 5)", Expression::Bool(false));

    run_test("(= 4.55555 4.55555)", Expression::Bool(true));
    run_test("(= 4.55556 4.55555)", Expression::Bool(false));
}

#[test]
fn test_op_lt() {
    run_test("(< 1 2)", Expression::Bool(true));
    run_test("(< 1 1)", Expression::Bool(false));
    run_test("(< (+ 2 2) 5)", Expression::Bool(true));

    run_test("(< 4.55555 4.55555)", Expression::Bool(false));
    run_test("(< 4.55555 4.55556)", Expression::Bool(true));
}

#[test]
fn test_op_le() {
    run_test("(<= 1 2)", Expression::Bool(true));
    run_test("(<= (+ 2 2) 5)", Expression::Bool(true));
    run_test("(<= (- -5) (+ (* 2 2) 1))", Expression::Bool(true));

    run_test("(<= 4.55555 4.55556)", Expression::Bool(true));
    run_test("(<= 4.55555 4.55555)", Expression::Bool(true));
    run_test("(<= 4.55556 4.55555)", Expression::Bool(false));
}

#[test]
fn test_op_gt() {
    run_test("(> 1 2)", Expression::Bool(false));
    run_test("(> 2 1)", Expression::Bool(true));
    run_test("(> 5 (+ 2 2))", Expression::Bool(true));
    run_test("(> (- -5) (+ (* 2 2) 1))", Expression::Bool(false));

    run_test("(> 4.55555 4.55556)", Expression::Bool(false));
    run_test("(> 4.55555 4.55555)", Expression::Bool(false));
    run_test("(> 4.55556 4.55555)", Expression::Bool(true));
}

#[test]
fn test_op_ge() {
    run_test("(>= 1 2)", Expression::Bool(false));
    run_test("(>= 2 1)", Expression::Bool(true));
    run_test("(>= 5 (+ 2 2))", Expression::Bool(true));
    run_test("(>= (- -5) (+ (* 2 2) 1))", Expression::Bool(true));

    run_test("(>= 4.55555 4.55556)", Expression::Bool(false));
    run_test("(>= 4.55555 4.55555)", Expression::Bool(true));
    run_test("(>= 4.55556 4.55555)", Expression::Bool(true));
}

#[test]
fn op_add() {
    let test1 = "(+ 2 3)".as_bytes();
    let s = token(test1);
    match s {
        Ok(o) => {
            assert!(o.len() == 1);
            let env = Environment::<F32>::new();
            let res = env.eval(Rc::new(Expression::new(&o[0])));
            match res {
                Ok(v) => assert!(v.equals(&Expression::Int(5)) == Ok(true)),
                _ => panic!(),
            }
        }
        _ => panic!("Failed to parse! {}", std::str::from_utf8(test1).unwrap()),
    }
}

#[test]
fn single_operand_is_its_own_sum_and_product() {
    for a in [int_value(7), int_value(-3), Rc::new(Expression::Float(2.5)), Rc::new(Expression::Complex(Complex32::new(1.0, -2.0)))] {
        let s = metal_scheme::op_add::<F32>(vec![a.clone()]).ok().unwrap();
        assert!(same(&s, &a));
        let p = op_mul::<F32>(vec![a.clone()]).ok().unwrap();
        assert!(same(&p, &a));
    }
}

#[test]
fn sum_and_product_commute() {
    let pairs = [(int_value(2), int_value(3)), (int_value(-7), int_value(11)), (int_value(i32::MAX), int_value(5))];
    for (a, b) in pairs {
        let ab = metal_scheme::op_add::<F32>(vec![a.clone(), b.clone()]).ok().unwrap();
        let ba = metal_scheme::op_add::<F32>(vec![b.clone(), a.clone()]).ok().unwrap();
        assert!(same(&ab, &ba));
        let ab = op_mul::<F32>(vec![a.clone(), b.clone()]).ok().unwrap();
        let ba = op_mul::<F32>(vec![b.clone(), a.clone()]).ok().unwrap();
        assert!(same(&ab, &ba));
    }
    let x = Rc::new(Expression::Float(1.5));
    let ab = metal_scheme::op_add::<F32>(vec![x.clone(), int_value(2)]).ok().unwrap();
    let ba = metal_scheme::op_add::<F32>(vec![int_value(2), x.clone()]).ok().unwrap();
    assert!(same(&ab, &ba));
    assert!(same(&ab, &Expression::Float(3.5)));
}

#[test]
fn promotion_follows_the_tower() {
    run_test("(+ 1 2)", Expression::Int(3));
    run_test("(- 1 2 3)", Expression::Int(-4));
    run_test("(* 4 5)", Expression::Int(20));
    run_test("(/ 4 2)", Expression::Float(2.0));
    run_test("(+ 1 2.5)", Expression::Float(3.5));
    run_test("(+ 1 +i)", Expression::Complex(Complex32::new(1.0, 1.0)));
    run_test("(* 2.0 +i)", Expression::Complex(Complex32::new(0.0, 2.0)));
    run_test("(/ 2 +i)", Expression::Complex(Complex32::new(0.0, -2.0)));
    run_test("(- 1 2.5 +i)", Expression::Complex(Complex32::new(-1.5, -1.0)));
    // integers wrap around
    run_test("(+ 2147483647 1)", Expression::Int(i32::MIN));
    run_test("(- -2147483648)", Expression::Int(i32::MIN));
}

#[test]
fn too_few_operands_is_an_arity_error() {
    for op in ["+", "-", "*", "/", "min", "max"] {
        run_error(&format!("({})", op), RuntimeError::ArityError);
    }
    for op in ["=", "<", "<=", ">", ">="] {
        run_error(&format!("({})", op), RuntimeError::ArityError);
        run_error(&format!("({} 1)", op), RuntimeError::ArityError);
    }
    assert_eq!(op_div::<F32>(vec![]).err(), Some(RuntimeError::ArityError));
    assert_eq!(op_eq::<F32>(vec![int_value(1)]).err(), Some(RuntimeError::ArityError));
}

#[test]
fn complex_operands_are_unordered() {
    run_error("(< 1 +i)", RuntimeError::UnorderedType);
    run_error("(= +i +i)", RuntimeError::UnorderedType);
    run_error("(>= 3 2 1+2i)", RuntimeError::UnorderedType);
    run_error("(min +i)", RuntimeError::UnorderedType);
    run_error("(max 1 2.0 1+2i)", RuntimeError::UnorderedType);
    // a complex operand is reported even beside one that is not a number
    run_error("(min #t +i)", RuntimeError::UnorderedType);
    assert_eq!(
        op_lt::<F32>(vec![int_value(2), int_value(1), Rc::new(Expression::Complex(Complex32::new(0.0, 1.0)))]).err(),
        Some(RuntimeError::UnorderedType)
    );
}

#[test]
fn end_to_end_scenarios() {
    run_test("(+ 2 3)", Expression::Int(5));
    run_test("(+ 1.45 90)", Expression::Float(91.45));
    run_test("(+ 1.45+4i +i)", Expression::Complex(Complex32::new(1.45, 5.0)));
    run_test("(min 10 -100 500 -345 -340)", Expression::Int(-345));
    run_test("(<= (- -5) (+ (* 2 2) 1))", Expression::Bool(true));
    run_test("(= 1 1)", Expression::Bool(true));
    run_test("(= (+ 2 2) 5)", Expression::Bool(false));
}

#[test]
fn evaluation_errors() {
    run_error("(foo 1)", RuntimeError::UnboundSymbol("foo".to_string()));
    run_error("bar", RuntimeError::UnboundSymbol("bar".to_string()));
    run_error("(1 2)", RuntimeError::NotCallable);
    run_error("((+ 1 2) 3)", RuntimeError::NotCallable);
    run_error("(+ 1 #t)", RuntimeError::TypeError);
    run_error("(< 1 #\\a)", RuntimeError::TypeError);
    run_error("(+ 1 (+ 2 (min)))", RuntimeError::ArityError);
    // the arguments of an application must form a proper list
    let improper: Rc<Value> = Rc::new(Expression::Cons {
        first: Rc::new(Expression::Symbol("+".to_string())),
        rest: int_value(1),
    });
    let env = Environment::<F32>::new();
    assert_eq!(env.eval(improper).err(), Some(RuntimeError::ImproperList));
}

#[test]
fn atoms_evaluate_to_themselves() {
    run_test("42", Expression::Int(42));
    run_test("#t", Expression::Bool(true));
    run_test("#\\x", Expression::Char('x'));
    run_test("nil", Expression::Nil);
    run_test("()", Expression::Nil);
    run_test("2.25", Expression::Float(2.25));
    let env = Environment::<F32>::new();
    let v = env.eval(Rc::new(Expression::Symbol("max".to_string()))).ok().unwrap();
    assert!(matches!(*v, Expression::NativeFunction(Builtin::Max)));
}

#[test]
fn chains_stop_at_the_first_failing_pair() {
    run_test("(< 1 2 3 4)", Expression::Bool(true));
    run_test("(< 1 3 2 4)", Expression::Bool(false));
    run_test("(= 2 2 2.0)", Expression::Bool(true));
    run_test("(> 3 2.5 2 1.5)", Expression::Bool(true));
    run_test("(>= 3 3 4)", Expression::Bool(false));
}

#[test]
fn extremes_promote_mixed_operands() {
    run_test("(min 1 2.5)", Expression::Float(1.0));
    run_test("(max 1 2.5)", Expression::Float(2.5));
    run_test("(min 7)", Expression::Int(7));
    assert!(same(&op_min::<F32>(vec![int_value(4), int_value(-2)]).ok().unwrap(), &Expression::Int(-2)));
    assert!(same(&op_max::<F32>(vec![int_value(4), int_value(-2)]).ok().unwrap(), &Expression::Int(4)));
    assert_eq!(min(3, -3), -3);
    assert_eq!(max(3, -3), 3);
    assert_eq!(min(5, 5), 5);
}

#[test]
fn unary_minus_and_reciprocal() {
    assert!(same(&op_sub::<F32>(vec![int_value(4)]).ok().unwrap(), &Expression::Int(-4)));
    assert!(same(&op_div::<F32>(vec![int_value(4)]).ok().unwrap(), &Expression::Float(0.25)));
    run_test("(- 2.5)", Expression::Float(-2.5));
    run_test("(/ 2 4 2)", Expression::Float(0.25));
}

#[test]
fn equality_of_values() {
    let a: Value = Expression::Symbol("abc".to_string());
    assert_eq!(a.equals(&Expression::Symbol("abc".to_string())), Ok(true));
    assert_eq!(a.equals(&Expression::Symbol("abd".to_string())), Ok(false));
    assert_eq!(Value::Nil.equals(&Expression::Nil), Ok(true));
    assert_eq!(Value::Char('a').equals(&Expression::Char('b')), Ok(false));
    assert_eq!(Value::Float(1.5).equals(&Expression::Float(1.5)), Ok(true));
    assert_eq!(Value::Int(1).equals(&Expression::Bool(true)), Err(RuntimeError::TypeError));
    assert_eq!(Value::Int(1).equals(&Expression::Float(1.0)), Err(RuntimeError::TypeError));
    let c = Value::Complex(Complex32::new(1.0, 1.0));
    assert_eq!(c.equals(&Expression::Complex(Complex32::new(1.0, 1.0))), Err(RuntimeError::TypeError));
}

#[test]
fn environment_binds_the_native_operators() {
    let env = Environment::<F32>::new();
    let mut names = env.symbols_table();
    names.sort();
    assert_eq!(names, vec!["*", "+", "-", "/", "<", "<=", "=", ">", ">=", "max", "min"]);
    let plus = env.lookup_symbol(&"+".to_string()).ok().unwrap();
    assert!(matches!(*plus, Expression::NativeFunction(Builtin::Add)));
    assert_eq!(
        env.lookup_symbol(&"car".to_string()).err(),
        Some(RuntimeError::UnboundSymbol("car".to_string()))
    );
}

#[test]
fn forms_evaluate_independently() {
    let forms = token(b"(+ 1 2) (foo) (* 2 3)").ok().unwrap();
    let env = Environment::<F32>::new();
    let results: Vec<_> = forms.iter().map(|f| env.eval(Rc::new(Expression::new(f)))).collect();
    assert!(same(results[0].as_ref().ok().unwrap(), &Expression::Int(3)));
    assert_eq!(results[1].as_ref().err(), Some(&RuntimeError::UnboundSymbol("foo".to_string())));
    assert!(same(results[2].as_ref().ok().unwrap(), &Expression::Int(6)));
}

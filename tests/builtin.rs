use minilisp::builtin::{apply_op, op_name, Op};
use minilisp::interpret::{Data, EvalError};
use minilisp::parse::SExp;

fn num(v: i32) -> Data {
    Data::DExp(SExp::Num(v))
}

fn boolean(b: bool) -> Data {
    Data::DExp(SExp::Boolean(b))
}

#[test]
fn arithmetic_results() {
    assert_eq!(Ok(num(5)), apply_op(Op::Plus, &[num(2), num(3)]));
    assert_eq!(Ok(num(-1)), apply_op(Op::Minus, &[num(2), num(3)]));
    assert_eq!(Ok(num(6)), apply_op(Op::Mul, &[num(2), num(3)]));
    assert_eq!(Ok(num(3)), apply_op(Op::Div, &[num(7), num(2)]));
    assert_eq!(Ok(num(-3)), apply_op(Op::Div, &[num(-7), num(2)]));
}

#[test]
fn comparisons_and_not() {
    assert_eq!(Ok(boolean(true)), apply_op(Op::Lt, &[num(1), num(2)]));
    assert_eq!(Ok(boolean(true)), apply_op(Op::Le, &[num(2), num(2)]));
    assert_eq!(Ok(boolean(false)), apply_op(Op::Gt, &[num(1), num(2)]));
    assert_eq!(Ok(boolean(true)), apply_op(Op::Ge, &[num(2), num(2)]));
    assert_eq!(Ok(boolean(false)), apply_op(Op::Not, &[boolean(true)]));
}

#[test]
fn refused_arguments() {
    assert!(matches!(apply_op(Op::Plus, &[num(1)]), Err(EvalError::BadArguments(_))));
    assert!(matches!(apply_op(Op::Plus, &[num(1), boolean(true)]), Err(EvalError::BadArguments(_))));
    assert!(matches!(apply_op(Op::Not, &[]), Err(EvalError::BadArguments(_))));
    assert!(matches!(apply_op(Op::Not, &[num(0)]), Err(EvalError::BadArguments(_))));
}

#[test]
fn overflow_and_zero_divisor_are_refused() {
    assert!(apply_op(Op::Plus, &[num(i32::MAX), num(1)]).is_err());
    assert!(apply_op(Op::Mul, &[num(65536), num(65536)]).is_err());
    assert!(apply_op(Op::Div, &[num(1), num(0)]).is_err());
    assert!(apply_op(Op::Div, &[num(i32::MIN), num(-1)]).is_err());
}

#[test]
fn extra_arguments_are_ignored() {
    assert_eq!(Ok(num(3)), apply_op(Op::Plus, &[num(1), num(2), num(100)]));
}

#[test]
fn operator_names() {
    assert_eq!("plus", op_name(Op::Plus));
    assert_eq!("not", op_name(Op::Not));
    assert_eq!("ge", op_name(Op::Ge));
}

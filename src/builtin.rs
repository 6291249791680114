use vstd::prelude::*;
use crate::interpret::{Data, EvalError, Native};
use crate::parse::SExp;

verus! {

/// The arithmetic, comparison and logic built-ins. Each takes integers,
/// except `Not`, which takes a boolean; arguments past those it needs are
/// ignored.
#[derive(Clone, Copy, Debug, PartialEq, Eq, Structural)]
pub enum Op {
    Plus,
    Minus,
    Mul,
    Div,
    Lt,
    Le,
    Gt,
    Ge,
    Not,
}

pub open spec fn num_data(v: int) -> Option<Data> {
    if i32::MIN <= v <= i32::MAX {
        Some(Data::DExp(SExp::Num(v as i32)))
    } else {
        None
    }
}

pub open spec fn bool_data(b: bool) -> Data {
    Data::DExp(SExp::Boolean(b))
}

/// Quotient rounded toward zero; none for a zero divisor.
pub open spec fn quotient(a: int, b: int) -> Option<int> {
    if b == 0 {
        None
    } else if (a >= 0) == (b > 0) {
        Some(abs(a) / abs(b))
    } else {
        Some(-(abs(a) / abs(b)))
    }
}

/// What a binary operator gives on two integers: none where the result
/// leaves the 32-bit range or the divisor is zero.
pub open spec fn binary_spec(op: Op, a: int, b: int) -> Option<Data> {
    match op {
        Op::Plus => num_data(a + b),
        Op::Minus => num_data(a - b),
        Op::Mul => num_data(a * b),
        Op::Div => match quotient(a, b) {
            Some(q) => num_data(q),
            None => None,
        },
        Op::Lt => Some(bool_data(a < b)),
        Op::Le => Some(bool_data(a <= b)),
        Op::Gt => Some(bool_data(a > b)),
        Op::Ge => Some(bool_data(a >= b)),
        Op::Not => None,
    }
}

/// What an operator gives on evaluated arguments; none where it refuses them.
pub open spec fn op_spec(op: Op, args: Seq<Data>) -> Option<Data> {
    if op == Op::Not {
        if args.len() >= 1 {
            match args[0] {
                Data::DExp(SExp::Boolean(b)) => Some(bool_data(!b)),
                _ => None,
            }
        } else {
            None
        }
    } else if args.len() >= 2 {
        match (args[0], args[1]) {
            (Data::DExp(SExp::Num(a)), Data::DExp(SExp::Num(b))) => binary_spec(op, a as int, b as int),
            _ => None,
        }
    } else {
        None
    }
}

pub open spec fn abs(a: int) -> int {
    if a < 0 {
        -a
    } else {
        a
    }
}

/// The name under which an operator is bound.
pub open spec fn name_of(op: Op) -> &'static str {
    match op {
        Op::Plus => "plus",
        Op::Minus => "minus",
        Op::Mul => "mul",
        Op::Div => "div",
        Op::Lt => "lt",
        Op::Le => "le",
        Op::Gt => "gt",
        Op::Ge => "ge",
        Op::Not => "not",
    }
}

/// What an operator gives on evaluated arguments, refusal included.
pub open spec fn op_result(op: Op, args: Seq<Data>) -> Result<Data, EvalError> {
    match op_spec(op, args) {
        Some(d) => Ok(d),
        None => Err(EvalError::BadArguments(name_of(op))),
    }
}

pub fn op_name(op: Op) -> (r: &'static str)
    ensures
        r == name_of(op),
{
    match op {
        Op::Plus => "plus",
        Op::Minus => "minus",
        Op::Mul => "mul",
        Op::Div => "div",
        Op::Lt => "lt",
        Op::Le => "le",
        Op::Gt => "gt",
        Op::Ge => "ge",
        Op::Not => "not",
    }
}

fn binary(op: Op, a: i32, b: i32) -> (r: Option<Data>)
    ensures
        r == binary_spec(op, a as int, b as int),
{
    match op {
        Op::Plus => match a.checked_add(b) {
            Some(v) => Some(Data::DExp(SExp::Num(v))),
            None => None,
        },
        Op::Minus => match a.checked_sub(b) {
            Some(v) => Some(Data::DExp(SExp::Num(v))),
            None => None,
        },
        Op::Mul => match a.checked_mul(b) {
            Some(v) => Some(Data::DExp(SExp::Num(v))),
            None => None,
        },
        Op::Div => match a.checked_div(b) {
            Some(v) => Some(Data::DExp(SExp::Num(v))),
            None => None,
        },
        Op::Lt => Some(Data::DExp(SExp::Boolean(a < b))),
        Op::Le => Some(Data::DExp(SExp::Boolean(a <= b))),
        Op::Gt => Some(Data::DExp(SExp::Boolean(a > b))),
        Op::Ge => Some(Data::DExp(SExp::Boolean(a >= b))),
        Op::Not => None,
    }
}

/// Applies an operator to evaluated arguments.
pub fn apply_op(op: Op, args: &[Data]) -> (r: Result<Data, EvalError>)
    ensures
        r == op_result(op, args@),
{
    if op == Op::Not {
        if args.len() >= 1 {
            match &args[0] {
                Data::DExp(SExp::Boolean(b)) => {
                    return Ok(Data::DExp(SExp::Boolean(!*b)));
                },
                _ => {},
            }
        }
        return Err(EvalError::BadArguments(op_name(op)));
    }
    if args.len() >= 2 {
        match (&args[0], &args[1]) {
            (Data::DExp(SExp::Num(a)), Data::DExp(SExp::Num(b))) => {
                match binary(op, *a, *b) {
                    Some(d) => {
                        return Ok(d);
                    },
                    None => {},
                }
            },
            _ => {},
        }
    }
    Err(EvalError::BadArguments(op_name(op)))
}

impl Native for Op {
    fn call(&self, args: &[Data]) -> Result<Data, EvalError> {
        apply_op(*self, args)
    }
}

} // verus!

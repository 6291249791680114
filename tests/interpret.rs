use std::cell::Cell;
use std::rc::Rc;

use minilisp::builtin::Op;
use minilisp::interpret::{Data, EvalError, Fun, Interpreter, Native};
use minilisp::parse::{Parser, SExp};
use minilisp::symtable::SymTable;

struct MyFun {
    expected: Vec<Data>,
    called: Rc<Cell<bool>>,
}

impl Native for MyFun {
    fn call(&self, args: &[Data]) -> Result<Data, EvalError> {
        assert_eq!(self.expected.as_slice(), args);
        self.called.set(true);
        Ok(Data::DExp(SExp::Nil))
    }
}

fn list(items: Vec<SExp>) -> SExp {
    SExp::List(Rc::new(items))
}

fn run(text: &str) -> Result<Data, EvalError> {
    let mut st = SymTable::new();
    let mut i: Interpreter<Op> = Interpreter::new(&mut st);
    let plus = st.sym_for("plus");
    i.define_native(plus, Op::Plus);
    let mut parse = Parser::new(st, text);
    match parse.compilation_unit() {
        Ok(SExp::List(l)) => i.eval_expressions(&l),
        other => panic!("unexpected parse result {:?}", other),
    }
}

#[test]
fn fun_call() {
    let mut st = SymTable::new();
    let mut i: Interpreter<MyFun> = Interpreter::new(&mut st);
    let myfun_sym = st.sym_for("myfun");
    let call_args = vec![SExp::Sym(myfun_sym), SExp::LString("hello".to_string())];
    let expected_args = vec![Data::DExp(SExp::LString("hello".to_string()))];
    let call = list(call_args);
    let called = Rc::new(Cell::new(false));
    i.define_native(myfun_sym, MyFun { expected: expected_args, called: called.clone() });
    let _ = i.eval_sexp(&call);
    assert!(called.get());
}

#[test]
fn fun_call_user() {
    let text = "((let succ (lambda (x) (plus x 1)))
                    (succ 1))";
    let result = run(text);
    assert_eq!(Ok(Data::DExp(SExp::Num(2))), result);
}

#[test]
fn ifelse_true() {
    let mut st = SymTable::new();
    let mut interpreter: Interpreter<Op> = Interpreter::new(&mut st);
    let code = list(vec![SExp::Sym(st.sym_for("if")), SExp::Boolean(true), SExp::Num(1), SExp::Num(2)]);
    assert_eq!(Ok(Data::DExp(SExp::Num(1))), interpreter.eval_sexp(&code))
}

#[test]
fn ifelse_false() {
    let mut st = SymTable::new();
    let mut interpreter: Interpreter<Op> = Interpreter::new(&mut st);
    let code = list(vec![SExp::Sym(st.sym_for("if")), SExp::Boolean(false), SExp::Num(1), SExp::Num(2)]);
    assert_eq!(Ok(Data::DExp(SExp::Num(2))), interpreter.eval_sexp(&code))
}

#[test]
fn if_false() {
    let mut st = SymTable::new();
    let mut interpreter: Interpreter<Op> = Interpreter::new(&mut st);
    let code = list(vec![SExp::Sym(st.sym_for("if")), SExp::Boolean(false), SExp::Num(1)]);
    assert_eq!(Ok(Data::DExp(SExp::Nil)), interpreter.eval_sexp(&code))
}

#[test]
fn if_condition_must_be_boolean() {
    let mut st = SymTable::new();
    let mut interpreter: Interpreter<Op> = Interpreter::new(&mut st);
    let code = list(vec![SExp::Sym(st.sym_for("if")), SExp::Num(0), SExp::Num(1)]);
    assert_eq!(Err(EvalError::IfConditionNotBoolean), interpreter.eval_sexp(&code));
}

#[test]
fn if_true_without_then_fails() {
    let mut st = SymTable::new();
    let mut interpreter: Interpreter<Op> = Interpreter::new(&mut st);
    let code = list(vec![SExp::Sym(st.sym_for("if")), SExp::Boolean(true)]);
    assert_eq!(Err(EvalError::IfTooFew), interpreter.eval_sexp(&code));
    let code = list(vec![SExp::Sym(st.sym_for("if"))]);
    assert_eq!(Err(EvalError::IfMissingCondition), interpreter.eval_sexp(&code));
}

#[test]
fn literals_evaluate_to_themselves() {
    let mut st = SymTable::new();
    let mut interpreter: Interpreter<Op> = Interpreter::new(&mut st);
    for e in [SExp::Num(7), SExp::Boolean(true), SExp::Nil, SExp::LString("s".to_string())] {
        assert_eq!(Ok(Data::DExp(e.clone())), interpreter.eval_sexp(&e));
    }
}

#[test]
fn unbound_symbol_fails() {
    let mut st = SymTable::new();
    let mut interpreter: Interpreter<Op> = Interpreter::new(&mut st);
    let x = st.sym_for("x");
    assert_eq!(Err(EvalError::Unbound(x)), interpreter.eval_sexp(&SExp::Sym(x)));
}

#[test]
fn calling_unbound_and_non_function_differ() {
    let mut st = SymTable::new();
    let mut interpreter: Interpreter<Op> = Interpreter::new(&mut st);
    let f = st.sym_for("f");
    let let_sym = st.sym_for("let");
    let call = list(vec![SExp::Sym(f), SExp::Num(1)]);
    assert_eq!(Err(EvalError::Unbound(f)), interpreter.eval_sexp(&call));
    let def = list(vec![SExp::Sym(let_sym), SExp::Sym(f), SExp::Num(3)]);
    assert_eq!(Ok(Data::DExp(SExp::Nil)), interpreter.eval_sexp(&def));
    assert_eq!(Err(EvalError::NotAFunction(f)), interpreter.eval_sexp(&call));
}

#[test]
fn empty_list_and_non_symbol_head_fail() {
    let mut st = SymTable::new();
    let mut interpreter: Interpreter<Op> = Interpreter::new(&mut st);
    assert_eq!(Err(EvalError::EmptyList), interpreter.eval_sexp(&list(vec![])));
    assert_eq!(Err(EvalError::HeadNotSymbol), interpreter.eval_sexp(&list(vec![SExp::Num(1)])));
}

#[test]
fn let_binds_and_returns_nil() {
    assert_eq!(Ok(Data::DExp(SExp::Num(5))), run("((let x 5) x)"));
    assert_eq!(Ok(Data::DExp(SExp::Nil)), run("((let x 5))"));
    assert_eq!(Ok(Data::DExp(SExp::Num(6))), run("((let x 5) (let x 6) x)"));
}

#[test]
fn let_errors() {
    assert_eq!(Err(EvalError::LetMissingName), run("((let))"));
    assert_eq!(Err(EvalError::LetNameNotSymbol), run("((let 1 2))"));
    assert_eq!(Err(EvalError::LetMissingValue), run("((let x))"));
}

#[test]
fn lambda_errors() {
    assert_eq!(Err(EvalError::LambdaMissingParams), run("((lambda))"));
    assert_eq!(Err(EvalError::LambdaParamsNotList), run("((lambda x x))"));
    assert_eq!(Err(EvalError::LambdaParamNotSymbol), run("((lambda (1) x))"));
    assert_eq!(Err(EvalError::LambdaMissingBody), run("((lambda (x)))"));
}

#[test]
fn lambda_captures_params_and_body() {
    match run("((lambda (x y) x))") {
        Ok(Data::DFun(Fun::User { params, body: _ })) => assert_eq!(2, params.len()),
        other => panic!("expected a user function, got {:?}", other),
    }
}

#[test]
fn only_last_form_is_the_result() {
    assert_eq!(Ok(Data::DExp(SExp::Num(3))), run("(1 2 3)"));
    assert_eq!(Ok(Data::DExp(SExp::Nil)), run("()"));
}

#[test]
fn first_failure_stops_the_unit() {
    let mut st = SymTable::new();
    let x = st.sym_for("x");
    let mut i: Interpreter<Op> = Interpreter::new(&mut st);
    let mut parse = Parser::new(st, "((let y 1) (nope) (let x 2))");
    let forms = match parse.compilation_unit() {
        Ok(SExp::List(l)) => l,
        other => panic!("unexpected parse result {:?}", other),
    };
    assert!(i.eval_expressions(&forms).is_err());
    assert_eq!(Err(EvalError::Unbound(x)), i.eval_sexp(&SExp::Sym(x)));
}

#[test]
fn call_frame_sees_caller_bindings() {
    // The body's free variable resolves in the caller's scope.
    assert_eq!(
        Ok(Data::DExp(SExp::Num(10))),
        run("((let f (lambda () y)) (let g (lambda (y) (f))) (g 10))")
    );
}

#[test]
fn call_frame_is_dropped_after_call() {
    let mut st = SymTable::new();
    let x = st.sym_for("x");
    let mut i: Interpreter<Op> = Interpreter::new(&mut st);
    let mut parse = Parser::new(st, "((let f (lambda (x) x)) (f 1) x)");
    let forms = match parse.compilation_unit() {
        Ok(SExp::List(l)) => l,
        other => panic!("unexpected parse result {:?}", other),
    };
    assert_eq!(Err(EvalError::Unbound(x)), i.eval_expressions(&forms));
}

#[test]
fn surplus_arguments_are_ignored() {
    assert_eq!(Ok(Data::DExp(SExp::Num(1))), run("((let f (lambda (x) x)) (f 1 2))"));
}

#[test]
fn runaway_recursion_is_stopped() {
    assert_eq!(Err(EvalError::DepthExceeded), run("((let f (lambda (x) (f x))) (f 1))"));
}

#[test]
fn native_failure_propagates() {
    assert_eq!(
        Err(EvalError::BadArguments("plus")),
        run("((plus 1))")
    );
}

#[test]
fn eval_refuses_function_values() {
    let mut st = SymTable::new();
    let mut i: Interpreter<Op> = Interpreter::new(&mut st);
    let plus = st.sym_for("plus");
    let f = Data::DFun(Fun::Native { name: plus, index: 0 });
    assert_eq!(Err(EvalError::NotAnExpression), i.eval(&f));
    assert_eq!(Ok(Data::DExp(SExp::Num(4))), i.eval(&Data::DExp(SExp::Num(4))));
}

struct Forger {
    name: minilisp::symtable::Symbol,
}

impl Native for Forger {
    fn call(&self, _args: &[Data]) -> Result<Data, EvalError> {
        Ok(Data::DFun(Fun::Native { name: self.name, index: 7 }))
    }
}

#[test]
fn unregistered_host_function_is_refused() {
    let mut st = SymTable::new();
    let mut i: Interpreter<Forger> = Interpreter::new(&mut st);
    let forge = st.sym_for("forge");
    let ghost_name = st.sym_for("ghost");
    i.define_native(forge, Forger { name: ghost_name });
    let mut parse = Parser::new(st, "((let g (forge)) (g))");
    let forms = match parse.compilation_unit() {
        Ok(SExp::List(l)) => l,
        other => panic!("unexpected parse result {:?}", other),
    };
    assert_eq!(Err(EvalError::UnknownNative(ghost_name)), i.eval_expressions(&forms));
}

#[test]
fn depth_bound_is_chosen_by_the_embedder() {
    let text = "((let f (lambda (n) (if (lt n 1) 0 (f (minus n 1))))) (f 50))";
    let run_with = |depth: u64| {
        let mut st = SymTable::new();
        let mut i: Interpreter<Op> = Interpreter::with_max_depth(&mut st, depth);
        let lt = st.sym_for("lt");
        let minus = st.sym_for("minus");
        i.define_native(lt, Op::Lt);
        i.define_native(minus, Op::Minus);
        let mut parse = Parser::new(st, text);
        match parse.compilation_unit() {
            Ok(SExp::List(l)) => i.eval_expressions(&l),
            other => panic!("unexpected parse result {:?}", other),
        }
    };
    assert_eq!(Err(EvalError::DepthExceeded), run_with(20));
    assert_eq!(Ok(Data::DExp(SExp::Num(0))), run_with(1000));
}

#[test]
fn lookup_walks_outward_and_reports_unbound() {
    let mut st = SymTable::new();
    let mut i: Interpreter<Op> = Interpreter::new(&mut st);
    let x = st.sym_for("x");
    let y = st.sym_for("y");
    let let_sym = st.sym_for("let");
    let def = list(vec![SExp::Sym(let_sym), SExp::Sym(x), SExp::Num(4)]);
    assert_eq!(Ok(Data::DExp(SExp::Nil)), i.eval_sexp(&def));
    assert_eq!(Ok(Data::DExp(SExp::Num(4))), i.lookup(x));
    assert_eq!(Err(EvalError::Unbound(y)), i.lookup(y));
}

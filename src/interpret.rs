use vstd::prelude::*;
use std::rc::Rc;
use crate::parse::SExp;
use crate::symtable::{Symbol, SymTable};

verus! {

/// A function value.
#[derive(Debug, PartialEq, Eq, Clone)]
pub enum Fun {
    /// A host function, registered at `index` under `name`.
    Native { name: Symbol, index: usize },
    /// A user function: its parameter list and its body, as written.
    User { params: Rc<Vec<SExp>>, body: SExp },
}

/// The result of an evaluation: an expression value or a function.
#[derive(Debug, PartialEq, Eq, Clone)]
pub enum Data {
    DExp(SExp),
    DFun(Fun),
}

/// Why an evaluation failed.
#[derive(Debug, PartialEq, Eq, Clone)]
pub enum EvalError {
    /// No frame of the environment binds the symbol.
    Unbound(Symbol),
    /// The head of a call is bound to something that is not a function.
    NotAFunction(Symbol),
    /// The head of a call is bound to a host function that was never registered.
    UnknownNative(Symbol),
    EmptyList,
    HeadNotSymbol,
    IfMissingCondition,
    IfConditionNotBoolean,
    IfTooFew,
    LambdaMissingParams,
    LambdaParamsNotList,
    LambdaParamNotSymbol,
    LambdaMissingBody,
    LetMissingName,
    LetNameNotSymbol,
    LetMissingValue,
    /// A function value was handed to evaluation as if it were an expression.
    NotAnExpression,
    /// Calls and sub-expressions nest deeper than the interpreter allows.
    DepthExceeded,
    /// A built-in operator, named here, refused its arguments.
    BadArguments(&'static str),
    /// A host function rejected its arguments.
    Native(String),
}

/// A host function, supplied by the program that embeds the interpreter.
/// It checks its own arguments and reports failures as errors.
pub trait Native {
    fn call(&self, args: &[Data]) -> Result<Data, EvalError>;
}

/// How deeply expressions may nest during one evaluation of an interpreter
/// made by `Interpreter::new`; `Interpreter::with_max_depth` sets another
/// bound. Each nested sub-expression, branch, argument and user-function
/// body spends one level, and evaluation past the bound fails with
/// `EvalError::DepthExceeded` rather than exhausting the stack.
pub const MAX_DEPTH: u64 = 1000;

/// The reserved symbols of the special forms.
#[derive(Clone, Copy, Debug, PartialEq, Eq, Structural)]
pub struct Keywords {
    pub sym_if: Symbol,
    pub sym_lambda: Symbol,
    pub sym_let: Symbol,
}

/// One scope's bindings; a later entry for a symbol hides an earlier one.
pub type Frame = Seq<(Symbol, Data)>;

/// The environment chain, root first: each frame's parent is the one before it.
pub type Env = Seq<Frame>;

/// One call of a host function: which one, with which arguments, and
/// what it gave back.
pub struct HostCall {
    pub index: usize,
    pub args: Seq<Data>,
    pub reply: Result<Data, EvalError>,
}

/// What an evaluation gives, read against a log of host calls: the
/// environment after it, its result, and how many calls of the log it made
/// (the first ones). `Mismatch` where the log does not hold the host calls
/// that evaluation makes.
pub enum Outcome<T> {
    Done(Env, Result<T, EvalError>, nat),
    Mismatch,
}

/// `o`, read as following `n` earlier host calls.
pub open spec fn after<T>(o: Outcome<T>, n: nat) -> Outcome<T> {
    match o {
        Outcome::Done(env, r, m) => Outcome::Done(env, r, n + m),
        Outcome::Mismatch => Outcome::Mismatch,
    }
}

pub open spec fn nil() -> Data {
    Data::DExp(SExp::Nil)
}

/// Position of the visible binding of `s` in a frame, or -1.
pub open spec fn frame_index(vars: Frame, s: Symbol) -> int
    decreases vars.len(),
{
    if vars.len() == 0 {
        -1
    } else if vars.last().0 == s {
        vars.len() - 1
    } else {
        frame_index(vars.drop_last(), s)
    }
}

pub open spec fn frame_get(vars: Frame, s: Symbol) -> Option<Data> {
    let i = frame_index(vars, s);
    if 0 <= i < vars.len() {
        Some(vars[i].1)
    } else {
        None
    }
}

/// `vars` with `s` bound to `d`, replacing a binding of `s` already there.
pub open spec fn frame_define(vars: Frame, s: Symbol, d: Data) -> Frame {
    let i = frame_index(vars, s);
    if 0 <= i < vars.len() {
        vars.update(i, (s, d))
    } else {
        vars.push((s, d))
    }
}

/// The value of `s`, searching the innermost frame first, then outward.
pub open spec fn chain_get(env: Env, s: Symbol) -> Option<Data>
    decreases env.len(),
{
    if env.len() == 0 {
        None
    } else {
        match frame_get(env.last(), s) {
            Some(d) => Some(d),
            None => chain_get(env.drop_last(), s),
        }
    }
}

/// Every entry of a parameter list is a symbol.
pub open spec fn all_symbols(ps: Seq<SExp>) -> bool {
    forall|i: int| 0 <= i < ps.len() ==> ps[i] is Sym
}

/// Parameters paired with arguments by position; the surplus of either is dropped.
pub open spec fn bind_params(ps: Seq<SExp>, args: Seq<Data>) -> Frame {
    let n = if ps.len() <= args.len() {
        ps.len()
    } else {
        args.len()
    };
    Seq::new(n, |i: int| (ps[i]->Sym_0, args[i]))
}

/// Evaluates `e` in `env`, with `nn` host functions registered, `fuel`
/// bounding how deep evaluation nests, and host replies taken from `log`.
pub open spec fn eval_spec(kw: Keywords, nn: nat, env: Env, e: SExp, fuel: nat, log: Seq<HostCall>) -> Outcome<Data>
    decreases fuel, 3nat, 0nat,
{
    if fuel == 0 {
        Outcome::Done(env, Err(EvalError::DepthExceeded), 0)
    } else {
        match e {
            SExp::List(items) => list_spec(kw, nn, env, items@, fuel, log),
            SExp::Sym(s) => match chain_get(env, s) {
                Some(d) => Outcome::Done(env, Ok(d), 0),
                None => Outcome::Done(env, Err(EvalError::Unbound(s)), 0),
            },
            _ => Outcome::Done(env, Ok(Data::DExp(e)), 0),
        }
    }
}

/// Evaluates a list form: a special form or a call.
pub open spec fn list_spec(kw: Keywords, nn: nat, env: Env, items: Seq<SExp>, fuel: nat, log: Seq<HostCall>) -> Outcome<Data>
    decreases fuel, 2nat, 0nat,
{
    if items.len() == 0 {
        Outcome::Done(env, Err(EvalError::EmptyList), 0)
    } else {
        match items[0] {
            SExp::Sym(h) => if h == kw.sym_if {
                if_spec(kw, nn, env, items, fuel, log)
            } else if h == kw.sym_lambda {
                Outcome::Done(env, lambda_spec(items), 0)
            } else if h == kw.sym_let {
                let_spec(kw, nn, env, items, fuel, log)
            } else {
                apply_spec(kw, nn, env, h, items, fuel, log)
            },
            _ => Outcome::Done(env, Err(EvalError::HeadNotSymbol), 0),
        }
    }
}

/// `(if c t e)`: `c` must give a boolean; `e` may be left out, giving nil.
pub open spec fn if_spec(kw: Keywords, nn: nat, env: Env, items: Seq<SExp>, fuel: nat, log: Seq<HostCall>) -> Outcome<Data>
    decreases fuel, 1nat, 0nat,
{
    if fuel == 0 {
        Outcome::Done(env, Err(EvalError::DepthExceeded), 0)
    } else if items.len() < 2 {
        Outcome::Done(env, Err(EvalError::IfMissingCondition), 0)
    } else {
        match eval_spec(kw, nn, env, items[1], (fuel - 1) as nat, log) {
            Outcome::Mismatch => Outcome::Mismatch,
            Outcome::Done(env1, Err(x), n) => Outcome::Done(env1, Err(x), n),
            Outcome::Done(env1, Ok(Data::DExp(SExp::Boolean(true))), n) => if items.len() < 3 {
                Outcome::Done(env1, Err(EvalError::IfTooFew), n)
            } else {
                after(eval_spec(kw, nn, env1, items[2], (fuel - 1) as nat, log.skip(n as int)), n)
            },
            Outcome::Done(env1, Ok(Data::DExp(SExp::Boolean(false))), n) => if items.len() < 4 {
                Outcome::Done(env1, Ok(nil()), n)
            } else {
                after(eval_spec(kw, nn, env1, items[3], (fuel - 1) as nat, log.skip(n as int)), n)
            },
            Outcome::Done(env1, Ok(_), n) => Outcome::Done(env1, Err(EvalError::IfConditionNotBoolean), n),
        }
    }
}

/// `(lambda (p ...) body)`: a user function over the parameter list and body.
pub open spec fn lambda_spec(items: Seq<SExp>) -> Result<Data, EvalError> {
    if items.len() < 2 {
        Err(EvalError::LambdaMissingParams)
    } else {
        match items[1] {
            SExp::List(ps) => if !all_symbols(ps@) {
                Err(EvalError::LambdaParamNotSymbol)
            } else if items.len() < 3 {
                Err(EvalError::LambdaMissingBody)
            } else {
                Ok(Data::DFun(Fun::User { params: ps, body: items[2] }))
            },
            _ => Err(EvalError::LambdaParamsNotList),
        }
    }
}

/// `(let name value)`: binds in the innermost frame and gives nil.
pub open spec fn let_spec(kw: Keywords, nn: nat, env: Env, items: Seq<SExp>, fuel: nat, log: Seq<HostCall>) -> Outcome<Data>
    decreases fuel, 1nat, 0nat,
{
    if fuel == 0 {
        Outcome::Done(env, Err(EvalError::DepthExceeded), 0)
    } else if items.len() < 2 {
        Outcome::Done(env, Err(EvalError::LetMissingName), 0)
    } else {
        match items[1] {
            SExp::Sym(name) => if items.len() < 3 {
                Outcome::Done(env, Err(EvalError::LetMissingValue), 0)
            } else {
                match eval_spec(kw, nn, env, items[2], (fuel - 1) as nat, log) {
                    Outcome::Mismatch => Outcome::Mismatch,
                    Outcome::Done(env1, Err(x), n) => Outcome::Done(env1, Err(x), n),
                    Outcome::Done(env1, Ok(v), n) => if env1.len() == 0 {
                        Outcome::Done(env1, Ok(nil()), n)
                    } else {
                        Outcome::Done(
                            env1.update(env1.len() - 1, frame_define(env1.last(), name, v)),
                            Ok(nil()),
                            n,
                        )
                    },
                }
            },
            _ => Outcome::Done(env, Err(EvalError::LetNameNotSymbol), 0),
        }
    }
}

/// Evaluates `args` left to right.
pub open spec fn args_spec(kw: Keywords, nn: nat, env: Env, args: Seq<SExp>, fuel: nat, log: Seq<HostCall>) -> Outcome<Seq<Data>>
    decreases fuel, 0nat, args.len(),
{
    if args.len() == 0 {
        Outcome::Done(env, Ok(Seq::empty()), 0)
    } else if fuel == 0 {
        Outcome::Done(env, Err(EvalError::DepthExceeded), 0)
    } else {
        match args_spec(kw, nn, env, args.drop_last(), fuel, log) {
            Outcome::Mismatch => Outcome::Mismatch,
            Outcome::Done(env1, Err(x), n) => Outcome::Done(env1, Err(x), n),
            Outcome::Done(env1, Ok(vs), n) => match eval_spec(kw, nn, env1, args.last(), (fuel - 1) as nat, log.skip(n as int)) {
                Outcome::Mismatch => Outcome::Mismatch,
                Outcome::Done(env2, Err(x), m) => Outcome::Done(env2, Err(x), n + m),
                Outcome::Done(env2, Ok(v), m) => Outcome::Done(env2, Ok(vs.push(v)), n + m),
            },
        }
    }
}

/// A call `(h a ...)`: `h` must be bound to a function; the arguments are
/// evaluated left to right. A host function gets the evaluated arguments,
/// and its reply is the result. A user function's body runs in a new frame
/// whose parent is the caller's innermost frame, dropped again afterwards.
pub open spec fn apply_spec(kw: Keywords, nn: nat, env: Env, h: Symbol, items: Seq<SExp>, fuel: nat, log: Seq<HostCall>) -> Outcome<Data>
    decreases fuel, 1nat, 0nat,
{
    if fuel == 0 {
        Outcome::Done(env, Err(EvalError::DepthExceeded), 0)
    } else {
        match chain_get(env, h) {
            None => Outcome::Done(env, Err(EvalError::Unbound(h)), 0),
            Some(Data::DExp(_)) => Outcome::Done(env, Err(EvalError::NotAFunction(h)), 0),
            Some(Data::DFun(f)) => match args_spec(kw, nn, env, items.subrange(1, items.len() as int), fuel, log) {
                Outcome::Mismatch => Outcome::Mismatch,
                Outcome::Done(env1, Err(x), n) => Outcome::Done(env1, Err(x), n),
                Outcome::Done(env1, Ok(vs), n) => match f {
                    Fun::Native { name, index } => if index >= nn {
                        Outcome::Done(env1, Err(EvalError::UnknownNative(name)), n)
                    } else if n < log.len() && log[n as int].index == index && log[n as int].args == vs {
                        Outcome::Done(env1, log[n as int].reply, n + 1)
                    } else {
                        Outcome::Mismatch
                    },
                    Fun::User { params, body } => if !all_symbols(params@) {
                        Outcome::Done(env1, Err(EvalError::LambdaParamNotSymbol), n)
                    } else {
                        match eval_spec(kw, nn, env1.push(bind_params(params@, vs)), body, (fuel - 1) as nat, log.skip(n as int)) {
                            Outcome::Mismatch => Outcome::Mismatch,
                            Outcome::Done(env2, r, m) => Outcome::Done(env2.drop_last(), r, n + m),
                        }
                    },
                },
            },
        }
    }
}

/// Calls a user function with parameters `params` and body `body` on the
/// evaluated `args`: the body runs in a new frame binding the parameters,
/// which is dropped afterwards.
pub open spec fn user_call_spec(
    kw: Keywords,
    nn: nat,
    env: Env,
    params: Seq<SExp>,
    body: SExp,
    args: Seq<Data>,
    fuel: nat,
    log: Seq<HostCall>,
) -> Outcome<Data> {
    if !all_symbols(params) {
        Outcome::Done(env, Err(EvalError::LambdaParamNotSymbol), 0)
    } else {
        match eval_spec(kw, nn, env.push(bind_params(params, args)), body, (fuel - 1) as nat, log) {
            Outcome::Mismatch => Outcome::Mismatch,
            Outcome::Done(env2, r, m) => Outcome::Done(env2.drop_last(), r, m),
        }
    }
}

/// Evaluates top-level forms in turn, each with nesting bounded by `depth`;
/// the last one's result is the result.
pub open spec fn forms_spec(kw: Keywords, nn: nat, env: Env, forms: Seq<SExp>, depth: nat, log: Seq<HostCall>) -> Outcome<Data>
    decreases forms.len(),
{
    if forms.len() == 0 {
        Outcome::Done(env, Ok(nil()), 0)
    } else {
        match forms_spec(kw, nn, env, forms.drop_last(), depth, log) {
            Outcome::Mismatch => Outcome::Mismatch,
            Outcome::Done(env1, Err(x), n) => Outcome::Done(env1, Err(x), n),
            Outcome::Done(env1, Ok(_), n) => after(eval_spec(kw, nn, env1, forms.last(), depth, log.skip(n as int)), n),
        }
    }
}

/// `a` followed by `b` and then `c`, split after `a`.
pub proof fn lemma_log_split(a: Seq<HostCall>, b: Seq<HostCall>, c: Seq<HostCall>)
    ensures
        (a + b) + c == a + (b + c),
        (a + (b + c)).skip(a.len() as int) == b + c,
{
    assert((a + b) + c =~= a + (b + c));
    assert((a + (b + c)).skip(a.len() as int) =~= b + c);
}

fn copy_sexp(e: &SExp) -> (r: SExp)
    ensures
        r == *e,
{
    match e {
        SExp::Sym(s) => SExp::Sym(*s),
        SExp::LString(s) => SExp::LString(s.clone()),
        SExp::List(l) => SExp::List(l.clone()),
        SExp::Num(n) => SExp::Num(*n),
        SExp::Boolean(b) => SExp::Boolean(*b),
        SExp::Nil => SExp::Nil,
    }
}

fn copy_data(d: &Data) -> (r: Data)
    ensures
        r == *d,
{
    match d {
        Data::DExp(e) => Data::DExp(copy_sexp(e)),
        Data::DFun(Fun::Native { name, index }) => Data::DFun(Fun::Native { name: *name, index: *index }),
        Data::DFun(Fun::User { params, body }) => Data::DFun(
            Fun::User { params: params.clone(), body: copy_sexp(body) },
        ),
    }
}

proof fn lemma_frame_index_bounds(vars: Frame, s: Symbol)
    ensures
        -1 <= frame_index(vars, s) < vars.len(),
        0 <= frame_index(vars, s) ==> vars[frame_index(vars, s)].0 == s,
    decreases vars.len(),
{
    if vars.len() > 0 && vars.last().0 != s {
        lemma_frame_index_bounds(vars.drop_last(), s);
    }
}

/// Position of the visible binding of `s` in `vars`.
fn find_in_frame(vars: &Vec<(Symbol, Data)>, s: Symbol) -> (r: Option<usize>)
    ensures
        match r {
            Some(i) => i == frame_index(vars@, s) && i < vars@.len(),
            None => frame_index(vars@, s) == -1,
        },
{
    let mut i: usize = vars.len();
    assert(vars@.subrange(0, i as int) =~= vars@);
    while i > 0
        invariant
            i <= vars@.len(),
            frame_index(vars@, s) == frame_index(vars@.subrange(0, i as int), s),
        decreases i,
    {
        assert(vars@.subrange(0, i as int).drop_last() =~= vars@.subrange(0, i - 1));
        if vars[i - 1].0 == s {
            return Some(i - 1);
        }
        i = i - 1;
    }
    assert(vars@.subrange(0, 0) =~= Seq::<(Symbol, Data)>::empty());
    None
}

/// The interpreter: the environment chain, the registered host functions,
/// the reserved symbols, and how deeply one evaluation may nest.
pub struct Interpreter<F> {
    frames: Vec<Vec<(Symbol, Data)>>,
    natives: Vec<F>,
    kw: Keywords,
    max_depth: u64,
    log: Ghost<Seq<HostCall>>,
}

/// The calls logged in `b` after those of `a`.
pub open spec fn since(a: Seq<HostCall>, b: Seq<HostCall>) -> Seq<HostCall> {
    b.subrange(a.len() as int, b.len() as int)
}

/// `b` is `a` with more calls after it.
pub open spec fn extends(a: Seq<HostCall>, b: Seq<HostCall>) -> bool {
    a.len() <= b.len() && b.subrange(0, a.len() as int) == a
}

proof fn lemma_since_concat(l0: Seq<HostCall>, l1: Seq<HostCall>, l2: Seq<HostCall>)
    requires
        extends(l0, l1),
        extends(l1, l2),
    ensures
        extends(l0, l2),
        since(l0, l2) == since(l0, l1) + since(l1, l2),
{
    assert(l2.subrange(0, l0.len() as int) =~= l2.subrange(0, l1.len() as int).subrange(0, l0.len() as int));
    assert(since(l0, l2) =~= since(l0, l1) + since(l1, l2));
}

proof fn lemma_since_same(l: Seq<HostCall>)
    ensures
        extends(l, l),
        since(l, l).len() == 0,
{
    assert(l.subrange(0, l.len() as int) =~= l);
}

impl<F: Native> Interpreter<F> {
    pub closed spec fn frames(&self) -> Env {
        self.frames@.map_values(|f: Vec<(Symbol, Data)>| f@)
    }

    pub closed spec fn natives(&self) -> Seq<F> {
        self.natives@
    }

    pub closed spec fn keywords(&self) -> Keywords {
        self.kw
    }

    /// How deeply one evaluation may nest before it fails with
    /// `DepthExceeded`.
    pub closed spec fn max_depth(&self) -> nat {
        self.max_depth as nat
    }

    /// Every host call made so far, in order, with its arguments and reply.
    pub closed spec fn log(&self) -> Seq<HostCall> {
        self.log@
    }

    /// The root frame is always there.
    pub open spec fn wf(&self) -> bool {
        self.frames().len() >= 1
    }

    /// `after` has the setup of `before`: keywords, host functions, depth
    /// bound and depth of the chain; its log continues `before`'s.
    pub open spec fn keeps_setup(before: &Self, after: &Self) -> bool {
        &&& after.wf()
        &&& after.keywords() == before.keywords()
        &&& after.natives() == before.natives()
        &&& after.max_depth() == before.max_depth()
        &&& after.frames().len() == before.frames().len()
        &&& extends(before.log(), after.log())
    }

    /// A fresh interpreter with an empty root frame, whose evaluations nest
    /// at most `max_depth` deep. The reserved symbols `if`, `lambda` and
    /// `let` are interned in `st`.
    pub fn with_max_depth(st: &mut SymTable, max_depth: u64) -> (r: Self)
        requires
            old(st).wf(),
        ensures
            final(st).wf(),
            final(st).tag() == old(st).tag(),
            old(st).names().len() <= final(st).names().len(),
            forall|i: int| 0 <= i < old(st).names().len() ==> final(st).names()[i] == old(st).names()[i],
            r.wf(),
            r.frames() == seq![Seq::<(Symbol, Data)>::empty()],
            r.natives() == Seq::<F>::empty(),
            r.log() == Seq::<HostCall>::empty(),
            r.max_depth() == max_depth,
            r.keywords().sym_if.owner() == final(st).tag(),
            r.keywords().sym_if.slot() < final(st).names().len(),
            final(st).names()[r.keywords().sym_if.slot() as int] == "if"@,
            r.keywords().sym_lambda.owner() == final(st).tag(),
            r.keywords().sym_lambda.slot() < final(st).names().len(),
            final(st).names()[r.keywords().sym_lambda.slot() as int] == "lambda"@,
            r.keywords().sym_let.owner() == final(st).tag(),
            r.keywords().sym_let.slot() < final(st).names().len(),
            final(st).names()[r.keywords().sym_let.slot() as int] == "let"@,
    {
        let ghost t0 = *st;
        let sym_if = st.sym_for("if");
        let ghost t1 = *st;
        let sym_lambda = st.sym_for("lambda");
        let ghost t2 = *st;
        let sym_let = st.sym_for("let");
        proof {
            lemma_prefix_kept(t0, t1);
            lemma_prefix_kept(t1, t2);
            lemma_prefix_kept(t2, *st);
        }
        let mut frames: Vec<Vec<(Symbol, Data)>> = Vec::new();
        frames.push(Vec::new());
        let r = Interpreter {
            frames,
            natives: Vec::new(),
            kw: Keywords { sym_if, sym_lambda, sym_let },
            max_depth,
            log: Ghost(Seq::empty()),
        };
        assert(r.frames() =~= seq![Seq::<(Symbol, Data)>::empty()]);
        r
    }

    /// A fresh interpreter whose evaluations nest at most `MAX_DEPTH` deep.
    pub fn new(st: &mut SymTable) -> (r: Self)
        requires
            old(st).wf(),
        ensures
            final(st).wf(),
            final(st).tag() == old(st).tag(),
            old(st).names().len() <= final(st).names().len(),
            forall|i: int| 0 <= i < old(st).names().len() ==> final(st).names()[i] == old(st).names()[i],
            r.wf(),
            r.frames() == seq![Seq::<(Symbol, Data)>::empty()],
            r.natives() == Seq::<F>::empty(),
            r.log() == Seq::<HostCall>::empty(),
            r.max_depth() == MAX_DEPTH,
            r.keywords().sym_if.owner() == final(st).tag(),
            r.keywords().sym_if.slot() < final(st).names().len(),
            final(st).names()[r.keywords().sym_if.slot() as int] == "if"@,
            r.keywords().sym_lambda.owner() == final(st).tag(),
            r.keywords().sym_lambda.slot() < final(st).names().len(),
            final(st).names()[r.keywords().sym_lambda.slot() as int] == "lambda"@,
            r.keywords().sym_let.owner() == final(st).tag(),
            r.keywords().sym_let.slot() < final(st).names().len(),
            final(st).names()[r.keywords().sym_let.slot() as int] == "let"@,
    {
        Self::with_max_depth(st, MAX_DEPTH)
    }
}

impl<F: Native> Interpreter<F> {
    /// The value bound to `s`, searching the innermost frame first.
    fn find(&self, s: Symbol) -> (r: Option<Data>)
        ensures
            r == chain_get(self.frames(), s),
    {
        let mut i: usize = self.frames.len();
        assert(self.frames().subrange(0, i as int) =~= self.frames());
        while i > 0
            invariant
                i <= self.frames@.len(),
                chain_get(self.frames(), s) == chain_get(self.frames().subrange(0, i as int), s),
            decreases i,
        {
            assert(self.frames().subrange(0, i as int).drop_last() =~= self.frames().subrange(0, i - 1));
            assert(self.frames().subrange(0, i as int).last() == self.frames@[i - 1]@);
            match find_in_frame(&self.frames[i - 1], s) {
                Some(j) => {
                    return Some(copy_data(&self.frames[i - 1][j].1));
                },
                None => {},
            }
            i = i - 1;
        }
        None
    }

    /// Binds `name` to `v` in the frame at `at`, replacing a binding there.
    fn define_in(&mut self, at: usize, name: Symbol, v: Data)
        requires
            at < old(self).frames().len(),
        ensures
            final(self).frames() == old(self).frames().update(
                at as int,
                frame_define(old(self).frames()[at as int], name, v),
            ),
            final(self).keywords() == old(self).keywords(),
            final(self).natives() == old(self).natives(),
            final(self).max_depth() == old(self).max_depth(),
            final(self).log() == old(self).log(),
    {
        match find_in_frame(&self.frames[at], name) {
            Some(j) => {
                self.frames[at].set(j, (name, v));
            },
            None => {
                self.frames[at].push((name, v));
            },
        }
        assert(self.frames() =~= old(self).frames().update(
            at as int,
            frame_define(old(self).frames()[at as int], name, v),
        ));
    }

    fn eval_fuel(&mut self, e: &SExp, fuel: u64) -> (r: Result<Data, EvalError>)
        requires
            old(self).wf(),
        ensures
            Self::keeps_setup(old(self), final(self)),
            forall|future: Seq<HostCall>| #[trigger] eval_spec(
                old(self).keywords(),
                old(self).natives().len(),
                old(self).frames(),
                *e,
                fuel as nat,
                since(old(self).log(), final(self).log()) + future,
            ) == Outcome::Done(final(self).frames(), r, since(old(self).log(), final(self).log()).len()),
        decreases fuel, 3nat, 0nat,
    {
        proof { lemma_since_same(self.log()); }
        if fuel == 0 {
            return Err(EvalError::DepthExceeded);
        }
        match e {
            SExp::List(items) => {
                let ghost kw = self.keywords();
                let ghost nn = self.natives().len();
                let ghost env = self.frames();
                let ghost l0 = self.log();
                let r = self.list(items, fuel);
                proof {
                    let l1 = self.log();
                    assert forall|future: Seq<HostCall>| #[trigger] eval_spec(kw, nn, env, *e, fuel as nat, since(l0, l1) + future)
                        == Outcome::Done(self.frames(), r, since(l0, l1).len()) by {
                        assert(list_spec(kw, nn, env, items@, fuel as nat, since(l0, l1) + future)
                            == Outcome::Done(self.frames(), r, since(l0, l1).len()));
                    }
                }
                r
            },
            SExp::Sym(s) => match self.find(*s) {
                Some(d) => Ok(d),
                None => Err(EvalError::Unbound(*s)),
            },
            _ => Ok(Data::DExp(copy_sexp(e))),
        }
    }

    fn list(&mut self, items: &Vec<SExp>, fuel: u64) -> (r: Result<Data, EvalError>)
        requires
            old(self).wf(),
            fuel > 0,
        ensures
            Self::keeps_setup(old(self), final(self)),
            forall|future: Seq<HostCall>| #[trigger] list_spec(
                old(self).keywords(),
                old(self).natives().len(),
                old(self).frames(),
                items@,
                fuel as nat,
                since(old(self).log(), final(self).log()) + future,
            ) == Outcome::Done(final(self).frames(), r, since(old(self).log(), final(self).log()).len()),
        decreases fuel, 2nat, 0nat,
    {
        proof { lemma_since_same(self.log()); }
        if items.len() == 0 {
            return Err(EvalError::EmptyList);
        }
        let ghost kw = self.keywords();
        let ghost nn = self.natives().len();
        let ghost env = self.frames();
        let ghost l0 = self.log();
        match &items[0] {
            SExp::Sym(h) => {
                let h = *h;
                if h == self.kw.sym_if {
                    let r = self.form_if(items, fuel);
                    proof {
                        let l1 = self.log();
                        assert forall|future: Seq<HostCall>| #[trigger] list_spec(kw, nn, env, items@, fuel as nat, since(l0, l1) + future)
                            == Outcome::Done(self.frames(), r, since(l0, l1).len()) by {
                            assert(if_spec(kw, nn, env, items@, fuel as nat, since(l0, l1) + future)
                                == Outcome::Done(self.frames(), r, since(l0, l1).len()));
                        }
                    }
                    r
                } else if h == self.kw.sym_lambda {
                    self.form_lambda(items)
                } else if h == self.kw.sym_let {
                    let r = self.form_let(items, fuel);
                    proof {
                        let l1 = self.log();
                        assert forall|future: Seq<HostCall>| #[trigger] list_spec(kw, nn, env, items@, fuel as nat, since(l0, l1) + future)
                            == Outcome::Done(self.frames(), r, since(l0, l1).len()) by {
                            assert(let_spec(kw, nn, env, items@, fuel as nat, since(l0, l1) + future)
                                == Outcome::Done(self.frames(), r, since(l0, l1).len()));
                        }
                    }
                    r
                } else {
                    let r = self.apply(h, items, fuel);
                    proof {
                        let l1 = self.log();
                        assert forall|future: Seq<HostCall>| #[trigger] list_spec(kw, nn, env, items@, fuel as nat, since(l0, l1) + future)
                            == Outcome::Done(self.frames(), r, since(l0, l1).len()) by {
                            assert(apply_spec(kw, nn, env, h, items@, fuel as nat, since(l0, l1) + future)
                                == Outcome::Done(self.frames(), r, since(l0, l1).len()));
                        }
                    }
                    r
                }
            },
            _ => Err(EvalError::HeadNotSymbol),
        }
    }

    fn form_if(&mut self, items: &Vec<SExp>, fuel: u64) -> (r: Result<Data, EvalError>)
        requires
            old(self).wf(),
            fuel > 0,
        ensures
            Self::keeps_setup(old(self), final(self)),
            forall|future: Seq<HostCall>| #[trigger] if_spec(
                old(self).keywords(),
                old(self).natives().len(),
                old(self).frames(),
                items@,
                fuel as nat,
                since(old(self).log(), final(self).log()) + future,
            ) == Outcome::Done(final(self).frames(), r, since(old(self).log(), final(self).log()).len()),
        decreases fuel, 1nat, 0nat,
    {
        proof { lemma_since_same(self.log()); }
        if items.len() < 2 {
            return Err(EvalError::IfMissingCondition);
        }
        let ghost kw = self.keywords();
        let ghost nn = self.natives().len();
        let ghost env = self.frames();
        let ghost l0 = self.log();
        let c = self.eval_fuel(&items[1], fuel - 1);
        let ghost l1 = self.log();
        let ghost env1 = self.frames();
        let ghost rc = c;
        proof {
            assert forall|future: Seq<HostCall>| #[trigger] if_spec(kw, nn, env, items@, fuel as nat, since(l0, l1) + future)
                == match rc {
                    Err(x) => Outcome::Done(env1, Err::<Data, EvalError>(x), since(l0, l1).len()),
                    Ok(Data::DExp(SExp::Boolean(true))) => if items@.len() < 3 {
                        Outcome::Done(env1, Err::<Data, EvalError>(EvalError::IfTooFew), since(l0, l1).len())
                    } else {
                        after(eval_spec(kw, nn, env1, items@[2], (fuel - 1) as nat, future), since(l0, l1).len())
                    },
                    Ok(Data::DExp(SExp::Boolean(false))) => if items@.len() < 4 {
                        Outcome::Done(env1, Ok::<Data, EvalError>(nil()), since(l0, l1).len())
                    } else {
                        after(eval_spec(kw, nn, env1, items@[3], (fuel - 1) as nat, future), since(l0, l1).len())
                    },
                    Ok(_) => Outcome::Done(env1, Err::<Data, EvalError>(EvalError::IfConditionNotBoolean), since(l0, l1).len()),
                } by {
                assert(eval_spec(kw, nn, env, items@[1], (fuel - 1) as nat, since(l0, l1) + future)
                    == Outcome::Done(env1, rc, since(l0, l1).len()));
                assert((since(l0, l1) + future).skip(since(l0, l1).len() as int) =~= future);
            }
        }
        let b = match c {
            Err(x) => {
                return Err(x);
            },
            Ok(Data::DExp(SExp::Boolean(b))) => b,
            Ok(_) => {
                return Err(EvalError::IfConditionNotBoolean);
            },
        };
        let at: usize = if b { 2 } else { 3 };
        if items.len() <= at {
            return if b {
                Err(EvalError::IfTooFew)
            } else {
                Ok(Data::DExp(SExp::Nil))
            };
        }
        let r = self.eval_fuel(&items[at], fuel - 1);
        proof {
            let l2 = self.log();
            lemma_since_concat(l0, l1, l2);
            assert forall|future: Seq<HostCall>| #[trigger] if_spec(
                kw,
                nn,
                env,
                items@,
                fuel as nat,
                since(l0, l2) + future,
            ) == Outcome::Done(self.frames(), r, since(l0, l2).len()) by {
                let c1 = since(l0, l1);
                let c2 = since(l1, l2);
                lemma_log_split(c1, c2, future);
                assert(if_spec(kw, nn, env, items@, fuel as nat, c1 + (c2 + future)) == after(
                    eval_spec(kw, nn, env1, items@[at as int], (fuel - 1) as nat, c2 + future),
                    c1.len(),
                ));
                assert(eval_spec(kw, nn, env1, items@[at as int], (fuel - 1) as nat, c2 + future)
                    == Outcome::Done(self.frames(), r, c2.len()));
            }
        }
        r
    }

    fn form_lambda(&self, items: &Vec<SExp>) -> (r: Result<Data, EvalError>)
        ensures
            r == lambda_spec(items@),
    {
        if items.len() < 2 {
            return Err(EvalError::LambdaMissingParams);
        }
        match &items[1] {
            SExp::List(ps) => {
                if !params_are_symbols(ps) {
                    return Err(EvalError::LambdaParamNotSymbol);
                }
                if items.len() < 3 {
                    return Err(EvalError::LambdaMissingBody);
                }
                Ok(Data::DFun(Fun::User { params: ps.clone(), body: copy_sexp(&items[2]) }))
            },
            _ => Err(EvalError::LambdaParamsNotList),
        }
    }

    fn form_let(&mut self, items: &Vec<SExp>, fuel: u64) -> (r: Result<Data, EvalError>)
        requires
            old(self).wf(),
            fuel > 0,
        ensures
            Self::keeps_setup(old(self), final(self)),
            forall|future: Seq<HostCall>| #[trigger] let_spec(
                old(self).keywords(),
                old(self).natives().len(),
                old(self).frames(),
                items@,
                fuel as nat,
                since(old(self).log(), final(self).log()) + future,
            ) == Outcome::Done(final(self).frames(), r, since(old(self).log(), final(self).log()).len()),
        decreases fuel, 1nat, 0nat,
    {
        proof { lemma_since_same(self.log()); }
        if items.len() < 2 {
            return Err(EvalError::LetMissingName);
        }
        match &items[1] {
            SExp::Sym(name) => {
                if items.len() < 3 {
                    return Err(EvalError::LetMissingValue);
                }
                let ghost kw = self.keywords();
                let ghost nn = self.natives().len();
                let ghost env = self.frames();
                let ghost l0 = self.log();
                let c = self.eval_fuel(&items[2], fuel - 1);
                let ghost l1 = self.log();
                let ghost env1 = self.frames();
                let ghost rc = c;
                let r = match c {
                    Err(x) => Err(x),
                    Ok(v) => {
                        let top = self.frames.len() - 1;
                        self.define_in(top, *name, v);
                        Ok(Data::DExp(SExp::Nil))
                    },
                };
                proof {
                    assert forall|future: Seq<HostCall>| #[trigger] let_spec(kw, nn, env, items@, fuel as nat, since(l0, l1) + future)
                        == Outcome::Done(self.frames(), r, since(l0, l1).len()) by {
                        assert(eval_spec(kw, nn, env, items@[2], (fuel - 1) as nat, since(l0, l1) + future)
                            == Outcome::Done(env1, rc, since(l0, l1).len()));
                    }
                }
                r
            },
            _ => Err(EvalError::LetNameNotSymbol),
        }
    }

    fn apply(&mut self, h: Symbol, items: &Vec<SExp>, fuel: u64) -> (r: Result<Data, EvalError>)
        requires
            old(self).wf(),
            fuel > 0,
            items@.len() >= 1,
        ensures
            Self::keeps_setup(old(self), final(self)),
            forall|future: Seq<HostCall>| #[trigger] apply_spec(
                old(self).keywords(),
                old(self).natives().len(),
                old(self).frames(),
                h,
                items@,
                fuel as nat,
                since(old(self).log(), final(self).log()) + future,
            ) == Outcome::Done(final(self).frames(), r, since(old(self).log(), final(self).log()).len()),
        decreases fuel, 1nat, 0nat,
    {
        proof { lemma_since_same(self.log()); }
        let f = match self.find(h) {
            None => {
                return Err(EvalError::Unbound(h));
            },
            Some(Data::DExp(_)) => {
                return Err(EvalError::NotAFunction(h));
            },
            Some(Data::DFun(f)) => f,
        };
        let ghost kw = self.keywords();
        let ghost nn = self.natives().len();
        let ghost env0 = self.frames();
        let ghost l0 = self.log();
        let ghost args = items@.subrange(1, items@.len() as int);
        let mut vals: Vec<Data> = Vec::new();
        let mut i: usize = 1;
        assert(args.subrange(0, 0) =~= Seq::<SExp>::empty());
        while i < items.len()
            invariant
                1 <= i <= items@.len(),
                fuel > 0,
                kw == old(self).keywords(),
                nn == old(self).natives().len(),
                env0 == old(self).frames(),
                l0 == old(self).log(),
                chain_get(env0, h) == Some(Data::DFun(f)),
                args == items@.subrange(1, items@.len() as int),
                Self::keeps_setup(old(self), self),
                forall|future: Seq<HostCall>| #[trigger] args_spec(
                    kw,
                    nn,
                    env0,
                    args.subrange(0, i - 1),
                    fuel as nat,
                    since(l0, self.log()) + future,
                ) == Outcome::Done(self.frames(), Ok::<Seq<Data>, EvalError>(vals@), since(l0, self.log()).len()),
            decreases items@.len() - i,
        {
            let ghost l1 = self.log();
            let ghost vals1 = vals@;
            let ghost env1 = self.frames();
            assert(args.subrange(0, i as int).drop_last() =~= args.subrange(0, i - 1));
            assert(args.subrange(0, i as int).last() == items@[i as int]);
            let v = self.eval_fuel(&items[i], fuel - 1);
            let ghost l2 = self.log();
            let ghost rv = v;
            proof { lemma_since_concat(l0, l1, l2); }
            proof {
                assert forall|future: Seq<HostCall>| #[trigger] args_spec(
                    kw,
                    nn,
                    env0,
                    args.subrange(0, i as int),
                    fuel as nat,
                    since(l0, l2) + future,
                ) == match rv {
                    Ok(x) => Outcome::Done(self.frames(), Ok::<Seq<Data>, EvalError>(vals1.push(x)), since(l0, l2).len()),
                    Err(x) => Outcome::Done(self.frames(), Err::<Seq<Data>, EvalError>(x), since(l0, l2).len()),
                } by {
                    let c1 = since(l0, l1);
                    let c2 = since(l1, l2);
                    lemma_log_split(c1, c2, future);
                    assert(args_spec(kw, nn, env0, args.subrange(0, i - 1), fuel as nat, c1 + (c2 + future))
                        == Outcome::Done(env1, Ok::<Seq<Data>, EvalError>(vals1), c1.len()));
                    assert(eval_spec(kw, nn, env1, items@[i as int], (fuel - 1) as nat, c2 + future)
                        == Outcome::Done(self.frames(), rv, c2.len()));
                }
            }
            match v {
                Ok(v) => {
                    vals.push(v);
                },
                Err(x) => {
                    proof {
                        assert forall|future: Seq<HostCall>| #[trigger] apply_spec(
                            kw,
                            nn,
                            env0,
                            h,
                            items@,
                            fuel as nat,
                            since(l0, l2) + future,
                        ) == Outcome::Done(self.frames(), Err::<Data, EvalError>(x), since(l0, l2).len()) by {
                            assert(args_spec(kw, nn, env0, args.subrange(0, i as int), fuel as nat, since(l0, l2) + future)
                                == Outcome::<Seq<Data>>::Done(self.frames(), Err::<Seq<Data>, EvalError>(x), since(l0, l2).len()));
                            lemma_args_stuck(kw, nn, env0, args, i as int, fuel as nat, since(l0, l2) + future);
                        }
                    }
                    return Err(x);
                },
            }
            i = i + 1;
        }
        assert(args.subrange(0, i - 1) =~= args);
        let ghost l1 = self.log();
        let ghost env1 = self.frames();
        match f {
            Fun::Native { name, index } => {
                if index < self.natives.len() {
                    let r = self.natives[index].call(vals.as_slice());
                    self.log = Ghost(self.log@.push(HostCall { index, args: vals@, reply: r }));
                    proof {
                        let l2 = self.log();
                        assert(l2.subrange(0, l1.len() as int) =~= l1);
                        lemma_since_concat(l0, l1, l2);
                        assert forall|future: Seq<HostCall>| #[trigger] apply_spec(
                            kw,
                            nn,
                            env0,
                            h,
                            items@,
                            fuel as nat,
                            since(l0, l2) + future,
                        ) == Outcome::Done(self.frames(), r, since(l0, l2).len()) by {
                            let c1 = since(l0, l1);
                            let c2 = since(l1, l2);
                            assert(c2 =~= seq![HostCall { index, args: vals@, reply: r }]);
                            lemma_log_split(c1, c2, future);
                            assert(args_spec(kw, nn, env0, args, fuel as nat, c1 + (c2 + future))
                                == Outcome::Done(env1, Ok::<Seq<Data>, EvalError>(vals@), c1.len()));
                            assert((c1 + (c2 + future))[c1.len() as int] == c2[0]);
                        }
                    }
                    r
                } else {
                    proof {
                        assert forall|future: Seq<HostCall>| #[trigger] apply_spec(
                            kw,
                            nn,
                            env0,
                            h,
                            items@,
                            fuel as nat,
                            since(l0, l1) + future,
                        ) == Outcome::Done(self.frames(), Err::<Data, EvalError>(EvalError::UnknownNative(name)), since(l0, l1).len()) by {
                            assert(args_spec(kw, nn, env0, args, fuel as nat, since(l0, l1) + future)
                                == Outcome::Done(env1, Ok::<Seq<Data>, EvalError>(vals@), since(l0, l1).len()));
                        }
                    }
                    Err(EvalError::UnknownNative(name))
                }
            },
            Fun::User { params, body } => {
                let r = self.user_call(&params, &body, &vals, fuel);
                proof {
                    let l2 = self.log();
                    lemma_since_concat(l0, l1, l2);
                    assert forall|future: Seq<HostCall>| #[trigger] apply_spec(
                        kw,
                        nn,
                        env0,
                        h,
                        items@,
                        fuel as nat,
                        since(l0, l2) + future,
                    ) == Outcome::Done(self.frames(), r, since(l0, l2).len()) by {
                        let c1 = since(l0, l1);
                        let c2 = since(l1, l2);
                        lemma_log_split(c1, c2, future);
                        assert(args_spec(kw, nn, env0, args, fuel as nat, c1 + (c2 + future))
                            == Outcome::Done(env1, Ok::<Seq<Data>, EvalError>(vals@), c1.len()));
                        assert(user_call_spec(kw, nn, env1, params@, body, vals@, fuel as nat, c2 + future)
                            == Outcome::Done(self.frames(), r, c2.len()));
                    }
                }
                r
            },
        }
    }

    /// Runs a user function's body in a new frame over the caller's
    /// innermost frame, and drops that frame afterwards, whatever the outcome.
    fn user_call(&mut self, params: &Vec<SExp>, body: &SExp, args: &Vec<Data>, fuel: u64) -> (r: Result<Data, EvalError>)
        requires
            old(self).wf(),
            fuel > 0,
        ensures
            Self::keeps_setup(old(self), final(self)),
            forall|future: Seq<HostCall>| #[trigger] user_call_spec(
                old(self).keywords(),
                old(self).natives().len(),
                old(self).frames(),
                params@,
                *body,
                args@,
                fuel as nat,
                since(old(self).log(), final(self).log()) + future,
            ) == Outcome::Done(final(self).frames(), r, since(old(self).log(), final(self).log()).len()),
        decreases fuel, 0nat, 0nat,
    {
        proof { lemma_since_same(self.log()); }
        if !params_are_symbols(params) {
            return Err(EvalError::LambdaParamNotSymbol);
        }
        let n: usize = if params.len() <= args.len() {
            params.len()
        } else {
            args.len()
        };
        let mut frame: Vec<(Symbol, Data)> = Vec::new();
        let mut i: usize = 0;
        while i < n
            invariant
                i <= n,
                n <= params@.len(),
                n <= args@.len(),
                n == bind_params(params@, args@).len(),
                all_symbols(params@),
                frame@ == bind_params(params@, args@).subrange(0, i as int),
            decreases n - i,
        {
            match &params[i] {
                SExp::Sym(p) => {
                    frame.push((*p, copy_data(&args[i])));
                },
                _ => {
                    assert(params@[i as int] is Sym);
                    return Err(EvalError::LambdaParamNotSymbol);
                },
            }
            i = i + 1;
            assert(frame@ =~= bind_params(params@, args@).subrange(0, i as int));
        }
        assert(frame@ =~= bind_params(params@, args@));
        self.frames.push(frame);
        assert(self.frames() =~= old(self).frames().push(bind_params(params@, args@)));
        let r = self.eval_fuel(body, fuel - 1);
        let ghost inner = self.frames();
        let _ = self.frames.pop();
        assert(self.frames() =~= inner.drop_last());
        r
    }
}

impl<F: Native> Interpreter<F> {
    /// The value of `s`: its binding in the innermost frame that binds it.
    pub fn lookup(&self, s: Symbol) -> (r: Result<Data, EvalError>)
        ensures
            r == match chain_get(self.frames(), s) {
                Some(d) => Ok::<Data, EvalError>(d),
                None => Err(EvalError::Unbound(s)),
            },
    {
        match self.find(s) {
            Some(d) => Ok(d),
            None => Err(EvalError::Unbound(s)),
        }
    }

    /// Evaluates an expression in the current environment. The contract
    /// holds for every reply the host functions give: the calls logged
    /// during evaluation are exactly those the evaluation makes, with the
    /// arguments it computes, and their replies are used as it says.
    pub fn eval_sexp(&mut self, s: &SExp) -> (r: Result<Data, EvalError>)
        requires
            old(self).wf(),
        ensures
            Self::keeps_setup(old(self), final(self)),
            forall|future: Seq<HostCall>| #[trigger] eval_spec(
                old(self).keywords(),
                old(self).natives().len(),
                old(self).frames(),
                *s,
                old(self).max_depth(),
                since(old(self).log(), final(self).log()) + future,
            ) == Outcome::Done(final(self).frames(), r, since(old(self).log(), final(self).log()).len()),
    {
        self.eval_fuel(s, self.max_depth)
    }

    /// Evaluates a value that holds an expression; a function value is
    /// refused.
    pub fn eval(&mut self, d: &Data) -> (r: Result<Data, EvalError>)
        requires
            old(self).wf(),
        ensures
            Self::keeps_setup(old(self), final(self)),
            match *d {
                Data::DExp(e) => forall|future: Seq<HostCall>| #[trigger] eval_spec(
                    old(self).keywords(),
                    old(self).natives().len(),
                    old(self).frames(),
                    e,
                    old(self).max_depth(),
                    since(old(self).log(), final(self).log()) + future,
                ) == Outcome::Done(final(self).frames(), r, since(old(self).log(), final(self).log()).len()),
                Data::DFun(_) => r == Err::<Data, EvalError>(EvalError::NotAnExpression)
                    && final(self).frames() == old(self).frames() && final(self).log() == old(self).log(),
            },
    {
        proof { lemma_since_same(self.log()); }
        match d {
            Data::DExp(e) => self.eval_sexp(e),
            Data::DFun(_) => Err(EvalError::NotAnExpression),
        }
    }

    /// Evaluates top-level forms in turn, stopping at the first failure,
    /// and gives the last form's result (nil where there is none).
    pub fn eval_expressions(&mut self, l: &Vec<SExp>) -> (r: Result<Data, EvalError>)
        requires
            old(self).wf(),
        ensures
            Self::keeps_setup(old(self), final(self)),
            forall|future: Seq<HostCall>| #[trigger] forms_spec(
                old(self).keywords(),
                old(self).natives().len(),
                old(self).frames(),
                l@,
                old(self).max_depth(),
                since(old(self).log(), final(self).log()) + future,
            ) == Outcome::Done(final(self).frames(), r, since(old(self).log(), final(self).log()).len()),
    {
        let ghost kw = self.keywords();
        let ghost nn = self.natives().len();
        let ghost env0 = self.frames();
        let ghost l0 = self.log();
        let ghost depth = self.max_depth();
        proof { lemma_since_same(l0); }
        let mut last = Data::DExp(SExp::Nil);
        let mut i: usize = 0;
        assert(l@.subrange(0, 0) =~= Seq::<SExp>::empty());
        while i < l.len()
            invariant
                i <= l@.len(),
                kw == old(self).keywords(),
                nn == old(self).natives().len(),
                env0 == old(self).frames(),
                l0 == old(self).log(),
                depth == old(self).max_depth(),
                Self::keeps_setup(old(self), self),
                forall|future: Seq<HostCall>| #[trigger] forms_spec(
                    kw,
                    nn,
                    env0,
                    l@.subrange(0, i as int),
                    depth,
                    since(l0, self.log()) + future,
                ) == Outcome::Done(self.frames(), Ok::<Data, EvalError>(last), since(l0, self.log()).len()),
            decreases l@.len() - i,
        {
            let ghost l1 = self.log();
            let ghost env1 = self.frames();
            let ghost last1 = last;
            assert(l@.subrange(0, i + 1).drop_last() =~= l@.subrange(0, i as int));
            assert(l@.subrange(0, i + 1).last() == l@[i as int]);
            let v = self.eval_sexp(&l[i]);
            let ghost l2 = self.log();
            let ghost rv = v;
            proof {
                lemma_since_concat(l0, l1, l2);
                assert forall|future: Seq<HostCall>| #[trigger] forms_spec(
                    kw,
                    nn,
                    env0,
                    l@.subrange(0, i + 1),
                    depth,
                    since(l0, l2) + future,
                ) == Outcome::Done(self.frames(), rv, since(l0, l2).len()) by {
                    let c1 = since(l0, l1);
                    let c2 = since(l1, l2);
                    lemma_log_split(c1, c2, future);
                    assert(forms_spec(kw, nn, env0, l@.subrange(0, i as int), depth, c1 + (c2 + future))
                        == Outcome::Done(env1, Ok::<Data, EvalError>(last1), c1.len()));
                    assert(eval_spec(kw, nn, env1, l@[i as int], depth, c2 + future)
                        == Outcome::Done(self.frames(), rv, c2.len()));
                }
            }
            match v {
                Ok(v) => {
                    last = v;
                },
                Err(x) => {
                    proof {
                        assert forall|future: Seq<HostCall>| #[trigger] forms_spec(
                            kw,
                            nn,
                            env0,
                            l@,
                            depth,
                            since(l0, l2) + future,
                        ) == Outcome::Done(self.frames(), Err::<Data, EvalError>(x), since(l0, l2).len()) by {
                            assert(forms_spec(kw, nn, env0, l@.subrange(0, i + 1), depth, since(l0, l2) + future)
                                == Outcome::<Data>::Done(self.frames(), Err::<Data, EvalError>(x), since(l0, l2).len()));
                            lemma_forms_stuck(kw, nn, env0, l@, i + 1, depth, since(l0, l2) + future);
                        }
                    }
                    return Err(x);
                },
            }
            i = i + 1;
        }
        assert(l@.subrange(0, i as int) =~= l@);
        Ok(last)
    }

    /// Registers a host function under `name` in the root frame.
    pub fn define_native(&mut self, name: Symbol, c: F)
        requires
            old(self).wf(),
        ensures
            final(self).wf(),
            final(self).keywords() == old(self).keywords(),
            final(self).natives() == old(self).natives().push(c),
            final(self).max_depth() == old(self).max_depth(),
            final(self).log() == old(self).log(),
            final(self).frames() == old(self).frames().update(
                0,
                frame_define(
                    old(self).frames()[0],
                    name,
                    Data::DFun(Fun::Native { name, index: old(self).natives().len() as usize }),
                ),
            ),
    {
        let index = self.natives.len();
        self.natives.push(c);
        self.define_in(0, name, Data::DFun(Fun::Native { name, index }));
    }
}

/// Once a prefix of the top-level forms fails or mismatches the log,
/// evaluating all of them ends the same way.
proof fn lemma_forms_stuck(kw: Keywords, nn: nat, env: Env, forms: Seq<SExp>, k: int, depth: nat, log: Seq<HostCall>)
    requires
        0 <= k <= forms.len(),
        ({
            let o = forms_spec(kw, nn, env, forms.subrange(0, k), depth, log);
            o is Mismatch || (o is Done && o->Done_1 is Err)
        }),
    ensures
        forms_spec(kw, nn, env, forms, depth, log) == forms_spec(kw, nn, env, forms.subrange(0, k), depth, log),
    decreases forms.len() - k,
{
    if k < forms.len() {
        assert(forms.subrange(0, k + 1).drop_last() =~= forms.subrange(0, k));
        lemma_forms_stuck(kw, nn, env, forms, k + 1, depth, log);
    } else {
        assert(forms.subrange(0, k) =~= forms);
    }
}

/// Whether every entry of a parameter list is a symbol.
fn params_are_symbols(ps: &Vec<SExp>) -> (r: bool)
    ensures
        r == all_symbols(ps@),
{
    let mut i: usize = 0;
    while i < ps.len()
        invariant
            i <= ps@.len(),
            forall|j: int| 0 <= j < i ==> ps@[j] is Sym,
        decreases ps@.len() - i,
    {
        match &ps[i] {
            SExp::Sym(_) => {},
            _ => {
                return false;
            },
        }
        i = i + 1;
    }
    true
}

/// Once evaluating a prefix of the arguments fails or mismatches the log,
/// evaluating all of them ends the same way.
proof fn lemma_args_stuck(kw: Keywords, nn: nat, env: Env, args: Seq<SExp>, k: int, fuel: nat, log: Seq<HostCall>)
    requires
        0 <= k <= args.len(),
        ({
            let o = args_spec(kw, nn, env, args.subrange(0, k), fuel, log);
            o is Mismatch || (o is Done && o->Done_1 is Err)
        }),
    ensures
        args_spec(kw, nn, env, args, fuel, log) == args_spec(kw, nn, env, args.subrange(0, k), fuel, log),
    decreases args.len() - k,
{
    if k < args.len() {
        assert(args.subrange(0, k + 1).drop_last() =~= args.subrange(0, k));
        lemma_args_stuck(kw, nn, env, args, k + 1, fuel, log);
    } else {
        assert(args.subrange(0, k) =~= args);
    }
}

/// Interning never moves or drops a registered name.
proof fn lemma_prefix_kept(a: SymTable, b: SymTable)
    requires
        exists|name: Seq<char>, s: Symbol| SymTable::interning(a, name, b, s),
    ensures
        a.names().len() <= b.names().len(),
        forall|i: int| 0 <= i < a.names().len() ==> b.names()[i] == a.names()[i],
{
    let (name, s) = choose|name: Seq<char>, s: Symbol| SymTable::interning(a, name, b, s);
    if !a.names().contains(name) {
        assert(b.names() == a.names().push(name));
    }
}

/// A symbol is unbound exactly when no frame of the chain binds it, at
/// whatever depth.
pub proof fn lemma_unbound_iff_no_frame(env: Env, s: Symbol)
    ensures
        chain_get(env, s) is None <==> forall|i: int| 0 <= i < env.len() ==> frame_get(#[trigger] env[i], s) is None,
    decreases env.len(),
{
    if env.len() > 0 {
        lemma_unbound_iff_no_frame(env.drop_last(), s);
        if chain_get(env, s) is None {
            assert forall|i: int| 0 <= i < env.len() implies frame_get(#[trigger] env[i], s) is None by {
                if i < env.len() - 1 {
                    assert(env.drop_last()[i] == env[i]);
                }
            }
        } else if forall|i: int| 0 <= i < env.len() ==> frame_get(#[trigger] env[i], s) is None {
            assert(frame_get(env[env.len() - 1], s) is None);
            assert forall|i: int| 0 <= i < env.drop_last().len() implies frame_get(
                #[trigger] env.drop_last()[i],
                s,
            ) is None by {
                assert(env.drop_last()[i] == env[i]);
            }
        }
    }
}

/// Evaluating an unbound symbol fails naming it, at any depth of the chain.
pub proof fn lemma_unbound_symbol_fails(kw: Keywords, nn: nat, env: Env, s: Symbol, fuel: nat, log: Seq<HostCall>)
    requires
        fuel > 0,
        forall|i: int| 0 <= i < env.len() ==> frame_get(#[trigger] env[i], s) is None,
    ensures
        eval_spec(kw, nn, env, SExp::Sym(s), fuel, log) == Outcome::<Data>::Done(env, Err(EvalError::Unbound(s)), 0),
{
    lemma_unbound_iff_no_frame(env, s);
}

/// A symbol bound only in an outer frame is found from an inner frame:
/// the search walks outward.
pub proof fn lemma_outer_binding_visible(env: Env, inner: Frame, s: Symbol, d: Data)
    requires
        chain_get(env, s) == Some(d),
        frame_get(inner, s) is None,
    ensures
        chain_get(env.push(inner), s) == Some(d),
{
    assert(env.push(inner).drop_last() =~= env);
}

/// Calling a symbol bound to a non-function and calling an unbound symbol
/// fail with two different errors.
pub proof fn lemma_call_errors_distinct(kw: Keywords, nn: nat, env: Env, e: SExp, h: Symbol, fuel: nat, log: Seq<HostCall>)
    requires
        fuel > 0,
        e is List,
        e->List_0@.len() >= 1,
        e->List_0@[0] == SExp::Sym(h),
        h != kw.sym_if,
        h != kw.sym_lambda,
        h != kw.sym_let,
    ensures
        chain_get(env, h) is None ==> eval_spec(kw, nn, env, e, fuel, log) == Outcome::<Data>::Done(
            env,
            Err(EvalError::Unbound(h)),
            0,
        ),
        chain_get(env, h) is Some && chain_get(env, h)->0 is DExp ==> eval_spec(kw, nn, env, e, fuel, log)
            == Outcome::<Data>::Done(env, Err(EvalError::NotAFunction(h)), 0),
        EvalError::Unbound(h) != EvalError::NotAFunction(h),
{
}

/// Evaluating an empty list fails, and so does evaluating a list whose head
/// is not a symbol.
pub proof fn lemma_malformed_calls_fail(kw: Keywords, nn: nat, env: Env, e: SExp, fuel: nat, log: Seq<HostCall>)
    requires
        fuel > 0,
        e is List,
    ensures
        e->List_0@.len() == 0 ==> eval_spec(kw, nn, env, e, fuel, log) == Outcome::<Data>::Done(
            env,
            Err(EvalError::EmptyList),
            0,
        ),
        e->List_0@.len() > 0 && !(e->List_0@[0] is Sym) ==> eval_spec(kw, nn, env, e, fuel, log)
            == Outcome::<Data>::Done(env, Err(EvalError::HeadNotSymbol), 0),
{
}

/// A call of a registered host function hands it exactly the evaluated
/// arguments (the head symbol is not among them), and its reply is the
/// result: the host call that the log records next must be that call.
pub proof fn lemma_host_call(
    kw: Keywords,
    nn: nat,
    env: Env,
    e: SExp,
    h: Symbol,
    name: Symbol,
    index: usize,
    fuel: nat,
    log: Seq<HostCall>,
)
    requires
        fuel > 0,
        e is List,
        e->List_0@.len() >= 1,
        e->List_0@[0] == SExp::Sym(h),
        h != kw.sym_if,
        h != kw.sym_lambda,
        h != kw.sym_let,
        chain_get(env, h) == Some(Data::DFun(Fun::Native { name, index })),
        index < nn,
    ensures
        ({
            let args = e->List_0@.subrange(1, e->List_0@.len() as int);
            eval_spec(kw, nn, env, e, fuel, log) == match args_spec(kw, nn, env, args, fuel, log) {
                Outcome::Done(env1, Ok(vs), n) => if n < log.len() && log[n as int].index == index
                    && log[n as int].args == vs {
                    Outcome::Done(env1, log[n as int].reply, n + 1)
                } else {
                    Outcome::Mismatch
                },
                Outcome::Done(env1, Err(x), n) => Outcome::Done(env1, Err(x), n),
                Outcome::Mismatch => Outcome::Mismatch,
            }
        }),
{
}

/// `env2` has as many frames as `env`, and all but the innermost unchanged.
pub open spec fn keeps_outer(env: Env, env2: Env) -> bool {
    env2.len() == env.len() && (env.len() > 0 ==> env2.drop_last() == env.drop_last())
}

proof fn lemma_keeps_outer_trans(a: Env, b: Env, c: Env)
    requires
        keeps_outer(a, b),
        keeps_outer(b, c),
    ensures
        keeps_outer(a, c),
{
}

/// Evaluation changes at most the innermost frame of the chain: a user
/// call's frame is gone when the call returns, whether its body succeeded
/// or failed, and the caller's frames are as they were.
pub proof fn lemma_eval_keeps_outer(kw: Keywords, nn: nat, env: Env, e: SExp, fuel: nat, log: Seq<HostCall>)
    ensures
        eval_spec(kw, nn, env, e, fuel, log) is Done ==> keeps_outer(env, eval_spec(kw, nn, env, e, fuel, log)->Done_0),
    decreases fuel, 3nat, 0nat,
{
    if fuel > 0 {
        match e {
            SExp::List(items) => lemma_list_keeps_outer(kw, nn, env, items@, fuel, log),
            _ => {},
        }
    }
}

proof fn lemma_list_keeps_outer(kw: Keywords, nn: nat, env: Env, items: Seq<SExp>, fuel: nat, log: Seq<HostCall>)
    ensures
        list_spec(kw, nn, env, items, fuel, log) is Done ==> keeps_outer(env, list_spec(kw, nn, env, items, fuel, log)->Done_0),
    decreases fuel, 2nat, 0nat,
{
    if items.len() > 0 {
        match items[0] {
            SExp::Sym(h) => if h == kw.sym_if {
                lemma_if_keeps_outer(kw, nn, env, items, fuel, log);
            } else if h == kw.sym_lambda {
            } else if h == kw.sym_let {
                lemma_let_keeps_outer(kw, nn, env, items, fuel, log);
            } else {
                lemma_apply_keeps_outer(kw, nn, env, h, items, fuel, log);
            },
            _ => {},
        }
    }
}

proof fn lemma_if_keeps_outer(kw: Keywords, nn: nat, env: Env, items: Seq<SExp>, fuel: nat, log: Seq<HostCall>)
    ensures
        if_spec(kw, nn, env, items, fuel, log) is Done ==> keeps_outer(env, if_spec(kw, nn, env, items, fuel, log)->Done_0),
    decreases fuel, 1nat, 0nat,
{
    if fuel > 0 && items.len() >= 2 {
        let f1 = (fuel - 1) as nat;
        lemma_eval_keeps_outer(kw, nn, env, items[1], f1, log);
        match eval_spec(kw, nn, env, items[1], f1, log) {
            Outcome::Done(env1, Ok(_), n) => {
                if items.len() >= 3 {
                    lemma_eval_keeps_outer(kw, nn, env1, items[2], f1, log.skip(n as int));
                    if eval_spec(kw, nn, env1, items[2], f1, log.skip(n as int)) is Done {
                        lemma_keeps_outer_trans(env, env1, eval_spec(kw, nn, env1, items[2], f1, log.skip(n as int))->Done_0);
                    }
                }
                if items.len() >= 4 {
                    lemma_eval_keeps_outer(kw, nn, env1, items[3], f1, log.skip(n as int));
                    if eval_spec(kw, nn, env1, items[3], f1, log.skip(n as int)) is Done {
                        lemma_keeps_outer_trans(env, env1, eval_spec(kw, nn, env1, items[3], f1, log.skip(n as int))->Done_0);
                    }
                }
            },
            _ => {},
        }
    }
}

proof fn lemma_let_keeps_outer(kw: Keywords, nn: nat, env: Env, items: Seq<SExp>, fuel: nat, log: Seq<HostCall>)
    ensures
        let_spec(kw, nn, env, items, fuel, log) is Done ==> keeps_outer(env, let_spec(kw, nn, env, items, fuel, log)->Done_0),
    decreases fuel, 1nat, 0nat,
{
    if fuel > 0 && items.len() >= 3 {
        let f1 = (fuel - 1) as nat;
        lemma_eval_keeps_outer(kw, nn, env, items[2], f1, log);
        match eval_spec(kw, nn, env, items[2], f1, log) {
            Outcome::Done(env1, Ok(v), n) => {
                if env1.len() > 0 {
                    match items[1] {
                        SExp::Sym(name) => {
                            let env2 = env1.update(env1.len() - 1, frame_define(env1.last(), name, v));
                            assert(env2.drop_last() =~= env1.drop_last());
                        },
                        _ => {},
                    }
                }
            },
            _ => {},
        }
    }
}

proof fn lemma_args_keeps_outer(kw: Keywords, nn: nat, env: Env, args: Seq<SExp>, fuel: nat, log: Seq<HostCall>)
    ensures
        args_spec(kw, nn, env, args, fuel, log) is Done ==> keeps_outer(env, args_spec(kw, nn, env, args, fuel, log)->Done_0),
    decreases fuel, 0nat, args.len(),
{
    if args.len() > 0 && fuel > 0 {
        lemma_args_keeps_outer(kw, nn, env, args.drop_last(), fuel, log);
        match args_spec(kw, nn, env, args.drop_last(), fuel, log) {
            Outcome::Done(env1, Ok(vs), n) => {
                let f1 = (fuel - 1) as nat;
                lemma_eval_keeps_outer(kw, nn, env1, args.last(), f1, log.skip(n as int));
                if eval_spec(kw, nn, env1, args.last(), f1, log.skip(n as int)) is Done {
                    lemma_keeps_outer_trans(env, env1, eval_spec(kw, nn, env1, args.last(), f1, log.skip(n as int))->Done_0);
                }
            },
            _ => {},
        }
    }
}

proof fn lemma_apply_keeps_outer(kw: Keywords, nn: nat, env: Env, h: Symbol, items: Seq<SExp>, fuel: nat, log: Seq<HostCall>)
    ensures
        apply_spec(kw, nn, env, h, items, fuel, log) is Done ==> keeps_outer(env, apply_spec(kw, nn, env, h, items, fuel, log)->Done_0),
    decreases fuel, 1nat, 0nat,
{
    if fuel > 0 {
        let args = items.subrange(1, items.len() as int);
        lemma_args_keeps_outer(kw, nn, env, args, fuel, log);
        match (chain_get(env, h), args_spec(kw, nn, env, args, fuel, log)) {
            (Some(Data::DFun(Fun::User { params, body })), Outcome::Done(env1, Ok(vs), n)) => {
                if all_symbols(params@) {
                    let inner = env1.push(bind_params(params@, vs));
                    let f1 = (fuel - 1) as nat;
                    lemma_eval_keeps_outer(kw, nn, inner, body, f1, log.skip(n as int));
                    match eval_spec(kw, nn, inner, body, f1, log.skip(n as int)) {
                        Outcome::Done(env2, r, m) => {
                            assert(inner.drop_last() =~= env1);
                            assert(env2.drop_last() == env1);
                        },
                        _ => {},
                    }
                }
            },
            _ => {},
        }
    }
}

/// When a user call returns, whether its body succeeded or failed, the
/// caller's environment is exactly as it was before the call's frame was
/// pushed: bindings made by `let` in the body went with that frame.
pub proof fn lemma_user_call_restores(
    kw: Keywords,
    nn: nat,
    env: Env,
    params: Seq<SExp>,
    body: SExp,
    args: Seq<Data>,
    fuel: nat,
    log: Seq<HostCall>,
)
    ensures
        user_call_spec(kw, nn, env, params, body, args, fuel, log) is Done ==> user_call_spec(
            kw,
            nn,
            env,
            params,
            body,
            args,
            fuel,
            log,
        )->Done_0 == env,
{
    let inner = env.push(bind_params(params, args));
    lemma_eval_keeps_outer(kw, nn, inner, body, (fuel - 1) as nat, log);
    assert(inner.drop_last() =~= env);
}

} // verus!

//! The evaluator: values, call contexts, environments, errors, and the
//! evaluation of syntax trees, each stated against a model of its meaning.
use std::sync::Arc;
use vstd::prelude::*;

use crate::ast::{is_expression, Expr, Node};
use crate::builtins::{call_spec, get_builtins, BuiltinError, BuiltinFunc};
use crate::geometry::{concat_all, views, Solid, SolidItem};
use crate::number::Number;

verus! {

/// A value of the language.
#[derive(Debug)]
pub enum Value {
    Undefined,
    Num(Number),
    BuiltinFunc(BuiltinFunc),
    Solid(Arc<Solid>),
}

/// What a value is: a solid is seen as its list of items.
pub enum ValueModel {
    Undefined,
    Num(Number),
    Func(BuiltinFunc),
    Solid(Seq<SolidItem>),
}

impl View for Value {
    type V = ValueModel;

    open spec fn view(&self) -> ValueModel {
        match self {
            Value::Undefined => ValueModel::Undefined,
            Value::Num(n) => ValueModel::Num(*n),
            Value::BuiltinFunc(f) => ValueModel::Func(*f),
            Value::Solid(s) => ValueModel::Solid(s@),
        }
    }
}

/// Every number in the value is valid.
pub open spec fn value_wf(v: ValueModel) -> bool {
    v is Num ==> v->Num_0.wf()
}

pub open spec fn models(v: Seq<Value>) -> Seq<ValueModel> {
    Seq::new(v.len(), |k: int| v[k]@)
}

pub open spec fn named_models(v: Seq<(String, Value)>) -> Seq<(Seq<char>, ValueModel)> {
    Seq::new(v.len(), |k: int| (v[k].0@, v[k].1@))
}

impl Value {
    /// The same value, sharing its parts.
    pub fn share(&self) -> (r: Value)
        ensures
            r == *self,
    {
        match self {
            Value::Undefined => Value::Undefined,
            Value::Num(n) => Value::Num(*n),
            Value::BuiltinFunc(f) => Value::BuiltinFunc(*f),
            Value::Solid(s) => Value::Solid(s.clone()),
        }
    }
}

/// The arguments of one call of a builtin: positional values, named values
/// (names unique) and the values of the call's children.
pub struct CallCtx {
    pub pos: Vec<Value>,
    pub named: Vec<(String, Value)>,
    pub children: Vec<Value>,
    pub is_heavy: bool,
}

/// What a call context holds.
pub struct CallModel {
    pub pos: Seq<ValueModel>,
    pub named: Seq<(Seq<char>, ValueModel)>,
    pub children: Seq<ValueModel>,
}

impl View for CallCtx {
    type V = CallModel;

    open spec fn view(&self) -> CallModel {
        CallModel {
            pos: models(self.pos@),
            named: named_models(self.named@),
            children: models(self.children@),
        }
    }
}

/// The value bound to `name` among named arguments, the first one if several.
pub open spec fn lookup_named(named: Seq<(Seq<char>, ValueModel)>, name: Seq<char>) -> Option<ValueModel>
    decreases named.len(),
{
    if named.len() == 0 {
        None
    } else if named[0].0 == name {
        Some(named[0].1)
    } else {
        lookup_named(named.drop_first(), name)
    }
}

/// Whether two strings hold the same characters.
pub fn same_str(a: &str, b: &str) -> (r: bool)
    ensures
        r == (a@ == b@),
{
    let n = a.unicode_len();
    if n != b.unicode_len() {
        return false;
    }
    let mut k: usize = 0;
    while k < n
        invariant
            n == a@.len() == b@.len(),
            k <= n,
            a@.subrange(0, k as int) == b@.subrange(0, k as int),
        decreases n - k,
    {
        if a.get_char(k) != b.get_char(k) {
            return false;
        }
        assert(a@.subrange(0, k + 1) =~= a@.subrange(0, k as int).push(a@[k as int]));
        assert(b@.subrange(0, k + 1) =~= b@.subrange(0, k as int).push(b@[k as int]));
        k += 1;
    }
    assert(a@ =~= a@.subrange(0, n as int));
    assert(b@ =~= b@.subrange(0, n as int));
    true
}

/// The value that the first binding of `name` in `vars` gives it.
pub fn find<'v>(vars: &'v Vec<(String, Value)>, name: &str) -> (r: Option<&'v Value>)
    ensures
        match r {
            Some(v) => lookup_named(named_models(vars@), name@) == Some(v@),
            None => lookup_named(named_models(vars@), name@) is None,
        },
{
    let ghost all = named_models(vars@);
    assert(all.subrange(0, all.len() as int) =~= all);
    let mut k: usize = 0;
    while k < vars.len()
        invariant
            k <= all.len(),
            all == named_models(vars@),
            lookup_named(all, name@) == lookup_named(all.subrange(k as int, all.len() as int), name@),
        decreases all.len() - k,
    {
        let ghost rest = all.subrange(k as int, all.len() as int);
        assert(rest.drop_first() =~= all.subrange(k + 1, all.len() as int));
        if same_str(vars[k].0.as_str(), name) {
            return Some(&vars[k].1);
        }
        k += 1;
    }
    None
}

impl CallCtx {
    /// Marks the call as one of a heavy builtin.
    pub fn heavy(&mut self)
        ensures
            final(self).is_heavy,
            final(self).pos == old(self).pos,
            final(self).named == old(self).named,
            final(self).children == old(self).children,
    {
        self.is_heavy = true;
    }

    /// The named argument `name`, if given.
    pub fn named_arg(&self, name: &str) -> (r: Option<&Value>)
        ensures
            match r {
                Some(v) => lookup_named(self@.named, name@) == Some(v@),
                None => lookup_named(self@.named, name@) is None,
            },
    {
        find(&self.named, name)
    }

    /// The argument that is named `name`, or else the positional argument at `index`.
    pub fn arg(&self, name: &str, index: usize) -> (r: Option<&Value>)
        ensures
            match r {
                Some(v) => arg_of(self@, name@, index as int) == Some(v@),
                None => arg_of(self@, name@, index as int) is None,
            },
    {
        match self.named_arg(name) {
            Some(v) => Some(v),
            None => {
                if index < self.pos.len() {
                    Some(&self.pos[index])
                } else {
                    None
                }
            },
        }
    }
}

/// The named argument `name`, or else the positional argument at `index`.
pub open spec fn arg_of(c: CallModel, name: Seq<char>, index: int) -> Option<ValueModel> {
    match lookup_named(c.named, name) {
        Some(v) => Some(v),
        None => if 0 <= index < c.pos.len() {
            Some(c.pos[index])
        } else {
            None
        },
    }
}

/// What went wrong while evaluating a node.
#[derive(Debug)]
pub enum ErrorKind {
    /// A variable that no scope binds.
    UndefinedVariable(String),
    /// A call of a name that no scope binds.
    UndefinedFunction(String),
    /// A call of a name bound to a value that is not a function.
    NotCallable(String),
    /// A body that produced geometry and then returned a value.
    MixedBodyResult,
    /// A builtin refused its arguments.
    Builtin(BuiltinError),
}

/// An evaluation error and the node where it occurred.
#[derive(Debug)]
pub struct Error {
    pub node: Arc<Node>,
    pub kind: ErrorKind,
}

/// What went wrong, with names seen as character sequences.
pub enum KindModel {
    UndefinedVariable(Seq<char>),
    UndefinedFunction(Seq<char>),
    NotCallable(Seq<char>),
    MixedBodyResult,
    Builtin(BuiltinError),
}

/// An evaluation error: the span of the node where it occurred, and what went wrong.
pub struct ErrorModel {
    pub pos: std::ops::Range<usize>,
    pub kind: KindModel,
}

impl View for Error {
    type V = ErrorModel;

    open spec fn view(&self) -> ErrorModel {
        ErrorModel {
            pos: self.node.pos,
            kind: match self.kind {
                ErrorKind::UndefinedVariable(n) => KindModel::UndefinedVariable(n@),
                ErrorKind::UndefinedFunction(n) => KindModel::UndefinedFunction(n@),
                ErrorKind::NotCallable(n) => KindModel::NotCallable(n@),
                ErrorKind::MixedBodyResult => KindModel::MixedBodyResult,
                ErrorKind::Builtin(b) => KindModel::Builtin(b),
            },
        }
    }
}

pub type Outcome = Result<ValueModel, ErrorModel>;

/// An evaluation's outcome, seen through views.
pub open spec fn result_model(r: Result<Value, Error>) -> Outcome {
    match r {
        Ok(v) => Ok(v@),
        Err(e) => Err(e@),
    }
}

/// A chain of scopes, innermost last: each binds names to values.
pub type EnvModel = Seq<Seq<(Seq<char>, ValueModel)>>;

/// The value that the innermost scope binding `name` gives it.
pub open spec fn lookup_env(env: EnvModel, name: Seq<char>) -> Option<ValueModel>
    decreases env.len(),
{
    if env.len() == 0 {
        None
    } else {
        match lookup_named(env.last(), name) {
            Some(v) => Some(v),
            None => lookup_env(env.drop_last(), name),
        }
    }
}

/// A scope of the environment, linked to the scope that encloses it.
pub struct Env {
    pub parent: Option<Arc<Env>>,
    pub vars: Vec<(String, Value)>,
}

/// The scopes of `e`, outermost first.
pub open spec fn env_model(e: Env) -> EnvModel
    decreases e,
{
    match e.parent {
        None => seq![named_models(e.vars@)],
        Some(p) => env_model(*p).push(named_models(e.vars@)),
    }
}

impl View for Env {
    type V = EnvModel;

    open spec fn view(&self) -> EnvModel {
        env_model(*self)
    }
}

pub open spec fn err_at(n: Node, kind: KindModel) -> Outcome {
    Err(ErrorModel { pos: n.pos, kind })
}

/// The values of the argument nodes that are named (`named`) or positional
/// (`!named`), evaluated left to right; the first error stops it.
pub open spec fn eval_args(env: EnvModel, args: Seq<(Option<String>, Arc<Node>)>, named: bool) -> Result<
    Seq<(Seq<char>, ValueModel)>,
    ErrorModel,
>
    decreases args, 0nat,
{
    if args.len() == 0 {
        Ok(Seq::empty())
    } else if (args[0].0 is Some) != named {
        eval_args(env, args.drop_first(), named)
    } else {
        match eval_node(env, *args[0].1) {
            Err(e) => Err(e),
            Ok(v) => match eval_args(env, args.drop_first(), named) {
                Err(e) => Err(e),
                Ok(rest) => Ok(seq![(
                    match args[0].0 {
                        Some(n) => n@,
                        None => Seq::empty(),
                    },
                    v,
                )] + rest),
            },
        }
    }
}

/// The values of `nodes`, each evaluated as an expression, left to right.
pub open spec fn eval_list(env: EnvModel, nodes: Seq<Arc<Node>>) -> Result<Seq<ValueModel>, ErrorModel>
    decreases nodes, 0nat,
{
    if nodes.len() == 0 {
        Ok(Seq::empty())
    } else {
        match eval_node(env, *nodes[0]) {
            Err(e) => Err(e),
            Ok(v) => match eval_list(env, nodes.drop_first()) {
                Err(e) => Err(e),
                Ok(rest) => Ok(seq![v] + rest),
            },
        }
    }
}

pub open spec fn second(s: Seq<(Seq<char>, ValueModel)>) -> Seq<ValueModel> {
    Seq::new(s.len(), |k: int| s[k].1)
}

/// What the statements `nodes` of a body give, `geo` holding the solids that
/// the statements before them produced: a return yields its value, and so does
/// a binding whose body (the rest of the statements) returned one; either is an
/// error after geometry. Otherwise the result is the solids produced,
/// concatenated in order.
pub open spec fn eval_stmts(env: EnvModel, nodes: Seq<Arc<Node>>, geo: Seq<Seq<SolidItem>>) -> Outcome
    decreases nodes, 0nat,
{
    if nodes.len() == 0 {
        Ok(ValueModel::Solid(concat_all(geo)))
    } else {
        match nodes[0].expr {
            Expr::Return(inner) => if geo.len() > 0 {
                err_at(*nodes[0], KindModel::MixedBodyResult)
            } else {
                eval_node(env, *inner)
            },
            Expr::Let(_) => match eval_node(env, *nodes[0]) {
                Err(e) => Err(e),
                Ok(ValueModel::Solid(items)) => eval_stmts(env, nodes.drop_first(), geo.push(items)),
                Ok(v) => if geo.len() > 0 {
                    err_at(*nodes[0], KindModel::MixedBodyResult)
                } else {
                    Ok(v)
                },
            },
            _ => match eval_node(env, *nodes[0]) {
                Err(e) => Err(e),
                Ok(v) => eval_stmts(
                    env,
                    nodes.drop_first(),
                    match v {
                        ValueModel::Solid(items) => geo.push(items),
                        _ => geo,
                    },
                ),
            },
        }
    }
}

/// What a call of `f` at node `n` gives once its arguments are evaluated.
pub open spec fn apply(n: Node, f: BuiltinFunc, c: CallModel) -> Outcome {
    match call_spec(f, c) {
        Ok(v) => Ok(v),
        Err(b) => err_at(n, KindModel::Builtin(b)),
    }
}

/// What evaluating the node `n` in the environment `env` gives.
pub open spec fn eval_node(env: EnvModel, n: Node) -> Outcome
    decreases n, 1nat,
{
    match n.expr {
        Expr::Num(x) => Ok(ValueModel::Num(x)),
        Expr::Var(name) => match lookup_env(env, name@) {
            Some(v) => Ok(v),
            None => err_at(n, KindModel::UndefinedVariable(name@)),
        },
        Expr::Return(inner) => eval_node(env, *inner),
        Expr::Let(l) => match eval_node(env, *l.value) {
            Err(e) => Err(e),
            Ok(v) => eval_stmts(env.push(seq![(l.name@, v)]), l.body@, Seq::empty()),
        },
        Expr::Call(c) => match lookup_env(env, c.name@) {
            None => err_at(n, KindModel::UndefinedFunction(c.name@)),
            Some(ValueModel::Func(f)) => match eval_args(env, c.args@, false) {
                Err(e) => Err(e),
                Ok(pos) => match eval_args(env, c.args@, true) {
                    Err(e) => Err(e),
                    Ok(named) => match eval_list(env, c.body@) {
                        Err(e) => Err(e),
                        Ok(children) => apply(n, f, CallModel { pos: second(pos), named, children }),
                    },
                },
            },
            Some(_) => err_at(n, KindModel::NotCallable(c.name@)),
        },
    }
}

/// `prefix` put before the values of `r`, if `r` is a success.
pub open spec fn prepend<T>(prefix: Seq<T>, r: Result<Seq<T>, ErrorModel>) -> Result<Seq<T>, ErrorModel> {
    match r {
        Ok(x) => Ok(prefix + x),
        Err(e) => Err(e),
    }
}

/// The environment of a script: an empty outermost scope, then the builtins.
pub open spec fn root_model() -> EnvModel {
    seq![Seq::empty(), crate::builtins::builtin_scope()]
}

impl Env {
    /// The outermost scope, with no bindings.
    pub fn new() -> (r: Env)
        ensures
            r@ == seq![Seq::<(Seq<char>, ValueModel)>::empty()],
    {
        let r = Env { parent: None, vars: Vec::new() };
        assert(named_models(r.vars@) =~= Seq::empty());
        r
    }

    /// The value of `name` in the innermost scope that binds it.
    pub fn get(&self, name: &str) -> (r: Option<Value>)
        ensures
            match r {
                Some(v) => lookup_env(self@, name@) == Some(v@),
                None => lookup_env(self@, name@) is None,
            },
        decreases self,
    {
        proof {
            if self.parent is Some {
                assert(self@.drop_last() =~= env_model(*self.parent->Some_0));
            } else {
                assert(self@.drop_last() =~= Seq::<Seq<(Seq<char>, ValueModel)>>::empty());
            }
        }
        assert(self@.last() == named_models(self.vars@));
        match find(&self.vars, name) {
            Some(v) => {
                assert(lookup_env(self@, name@) == Some(v@));
                Some(v.share())
            },
            None => match &self.parent {
                Some(p) => {
                    let r = p.get(name);
                    assert(self@.drop_last() == env_model(**p));
                    assert(lookup_named(self@.last(), name@) is None);
                    assert(lookup_env(self@, name@) == lookup_env(env_model(**p), name@));
                    r
                },
                None => {
                    assert(lookup_env(self@.drop_last(), name@) is None);
                    None
                },
            },
        }
    }

    /// A scope inside `env` that binds `vars`.
    pub fn child(env: &Arc<Env>, vars: Vec<(String, Value)>) -> (r: Arc<Env>)
        ensures
            r@ == env@.push(named_models(vars@)),
    {
        Arc::new(Env { parent: Some(env.clone()), vars })
    }
}

/// The script environment.
pub fn root_env() -> (r: Arc<Env>)
    ensures
        r@ == root_model(),
{
    let outer = Arc::new(Env::new());
    let r = Env::child(&outer, get_builtins());
    assert(r@ =~= root_model());
    r
}

/// Evaluates the argument nodes that are named (`named`) or positional (`!named`).
fn exec_args(env: &Arc<Env>, args: &Vec<(Option<String>, Arc<Node>)>, named: bool) -> (r: Result<Vec<(String, Value)>, Error>)
    ensures
        match r {
            Ok(v) => eval_args(env@, args@, named) == Ok::<_, ErrorModel>(named_models(v@)),
            Err(e) => eval_args(env@, args@, named) == Err::<Seq<(Seq<char>, ValueModel)>, _>(e@),
        },
    decreases args@, 0nat,
{
    let ghost all = args@;
    let mut out: Vec<(String, Value)> = Vec::new();
    let mut k: usize = 0;
    assert(all.subrange(0, all.len() as int) =~= all);
    assert(named_models(out@) + Seq::<(Seq<char>, ValueModel)>::empty() =~= Seq::empty());
    while k < args.len()
        invariant
            k <= all.len(),
            all == args@,
            eval_args(env@, all, named) == prepend(named_models(out@), eval_args(env@, all.subrange(k as int, all.len() as int), named)),
        decreases all.len() - k,
    {
        let ghost rest = all.subrange(k as int, all.len() as int);
        assert(rest.drop_first() =~= all.subrange(k + 1, all.len() as int));
        let (name, arg) = &args[k];
        let is_named = name.is_some();
        if is_named == named {
            let v = match exec_expr(env, arg) {
                Ok(v) => v,
                Err(e) => return Err(e),
            };
            let label = match name {
                Some(n) => n.clone(),
                None => String::new(),
            };
            let ghost before = named_models(out@);
            out.push((label, v));
            proof {
                assert(named_models(out@) =~= before.push((label@, v@)));
                let tail = eval_args(env@, all.subrange(k + 1, all.len() as int), named);
                if let Ok(x) = tail {
                    assert(before + (seq![(label@, v@)] + x) =~= before.push((label@, v@)) + x);
                }
            }
        }
        k += 1;
    }
    assert(named_models(out@) + Seq::<(Seq<char>, ValueModel)>::empty() =~= named_models(out@));
    Ok(out)
}

/// The values of `pairs`.
fn values_of(pairs: Vec<(String, Value)>) -> (r: Vec<Value>)
    ensures
        models(r@) == second(named_models(pairs@)),
{
    let mut out: Vec<Value> = Vec::new();
    let mut k: usize = 0;
    while k < pairs.len()
        invariant
            k <= pairs@.len(),
            out@.len() == k,
            models(out@) == second(named_models(pairs@)).subrange(0, k as int),
        decreases pairs@.len() - k,
    {
        out.push(pairs[k].1.share());
        k += 1;
        assert(models(out@) =~= second(named_models(pairs@)).subrange(0, k as int));
    }
    assert(second(named_models(pairs@)).subrange(0, k as int) =~= second(named_models(pairs@)));
    out
}

/// Evaluates each node of `nodes` as an expression.
fn exec_list(env: &Arc<Env>, nodes: &Vec<Arc<Node>>) -> (r: Result<Vec<Value>, Error>)
    ensures
        match r {
            Ok(v) => eval_list(env@, nodes@) == Ok::<_, ErrorModel>(models(v@)),
            Err(e) => eval_list(env@, nodes@) == Err::<Seq<ValueModel>, _>(e@),
        },
    decreases nodes@, 0nat,
{
    let ghost all = nodes@;
    let mut out: Vec<Value> = Vec::new();
    let mut k: usize = 0;
    assert(all.subrange(0, all.len() as int) =~= all);
    assert(models(out@) + Seq::<ValueModel>::empty() =~= Seq::empty());
    while k < nodes.len()
        invariant
            k <= all.len(),
            all == nodes@,
            eval_list(env@, all) == prepend(models(out@), eval_list(env@, all.subrange(k as int, all.len() as int))),
        decreases all.len() - k,
    {
        let ghost rest = all.subrange(k as int, all.len() as int);
        assert(rest.drop_first() =~= all.subrange(k + 1, all.len() as int));
        let v = match exec_expr(env, &nodes[k]) {
            Ok(v) => v,
            Err(e) => return Err(e),
        };
        let ghost before = models(out@);
        out.push(v);
        proof {
            assert(models(out@) =~= before.push(v@));
            let tail = eval_list(env@, all.subrange(k + 1, all.len() as int));
            if let Ok(x) = tail {
                assert(before + (seq![v@] + x) =~= before.push(v@) + x);
            }
        }
        k += 1;
    }
    assert(models(out@) + Seq::<ValueModel>::empty() =~= models(out@));
    Ok(out)
}

/// Evaluates the statements of a body in `env`.
pub fn exec_body(env: &Arc<Env>, nodes: &Vec<Arc<Node>>) -> (r: Result<Value, Error>)
    ensures
        result_model(r) == eval_stmts(env@, nodes@, Seq::empty()),
    decreases nodes@, 0nat,
{
    let ghost all = nodes@;
    let mut geo: Vec<Arc<Solid>> = Vec::new();
    let mut k: usize = 0;
    assert(all.subrange(0, all.len() as int) =~= all);
    assert(views(geo@) =~= Seq::empty());
    while k < nodes.len()
        invariant
            k <= all.len(),
            all == nodes@,
            eval_stmts(env@, all, Seq::empty()) == eval_stmts(env@, all.subrange(k as int, all.len() as int), views(geo@)),
        decreases all.len() - k,
    {
        let ghost rest = all.subrange(k as int, all.len() as int);
        assert(rest.drop_first() =~= all.subrange(k + 1, all.len() as int));
        let node = &nodes[k];
        if let Expr::Return(inner) = &node.expr {
            if geo.len() > 0 {
                return Err(Error { node: node.clone(), kind: ErrorKind::MixedBodyResult });
            }
            return exec_expr(env, inner);
        }
        let v = match exec_expr(env, node) {
            Ok(v) => v,
            Err(e) => return Err(e),
        };
        if let Expr::Let(_) = &node.expr {
            if !matches!(v, Value::Solid(_)) {
                if geo.len() > 0 {
                    return Err(Error { node: node.clone(), kind: ErrorKind::MixedBodyResult });
                }
                return Ok(v);
            }
        }
        if let Value::Solid(s) = v {
            let ghost before = views(geo@);
            geo.push(s);
            assert(views(geo@) =~= before.push(s@));
        }
        k += 1;
    }
    assert(all.subrange(k as int, all.len() as int) =~= Seq::<Arc<Node>>::empty());
    Ok(Value::Solid(Arc::new(Solid::combine(&geo))))
}

/// Evaluates the node `node` in `env`.
pub fn exec_expr(env: &Arc<Env>, node: &Arc<Node>) -> (r: Result<Value, Error>)
    ensures
        result_model(r) == eval_node(env@, **node),
    decreases **node, 1nat,
{
    match &node.expr {
        Expr::Let(l) => {
            let v = match exec_expr(env, &l.value) {
                Ok(v) => v,
                Err(e) => return Err(e),
            };
            let ghost vm = v@;
            let mut vars: Vec<(String, Value)> = Vec::new();
            vars.push((l.name.clone(), v));
            assert(named_models(vars@) =~= seq![(l.name@, vm)]);
            let inner = Env::child(env, vars);
            exec_body(&inner, &l.body)
        },
        Expr::Var(name) => match env.get(name.as_str()) {
            Some(v) => Ok(v),
            None => Err(Error { node: node.clone(), kind: ErrorKind::UndefinedVariable(name.clone()) }),
        },
        Expr::Num(x) => Ok(Value::Num(*x)),
        Expr::Call(c) => {
            let f = match env.get(c.name.as_str()) {
                None => return Err(Error { node: node.clone(), kind: ErrorKind::UndefinedFunction(c.name.clone()) }),
                Some(Value::BuiltinFunc(f)) => f,
                Some(_) => return Err(Error { node: node.clone(), kind: ErrorKind::NotCallable(c.name.clone()) }),
            };
            let pos = match exec_args(env, &c.args, false) {
                Ok(p) => values_of(p),
                Err(e) => return Err(e),
            };
            let named = match exec_args(env, &c.args, true) {
                Ok(n) => n,
                Err(e) => return Err(e),
            };
            let children = match exec_list(env, &c.body) {
                Ok(ch) => ch,
                Err(e) => return Err(e),
            };
            let mut ctx = CallCtx { pos, named, children, is_heavy: false };
            if f.is_heavy() {
                ctx.heavy();
            }
            match f.call(&ctx) {
                Ok(v) => Ok(v),
                Err(b) => Err(Error { node: node.clone(), kind: ErrorKind::Builtin(b) }),
            }
        },
        Expr::Return(inner) => exec_expr(env, inner),
    }
}

/// Evaluates a body of statements in the script environment.
pub fn evaluate(nodes: &Vec<Arc<Node>>) -> (r: Result<Value, Error>)
    ensures
        result_model(r) == eval_stmts(root_model(), nodes@, Seq::empty()),
{
    let env = root_env();
    exec_body(&env, nodes)
}

/// Runs a script: its top level is a body like any other, evaluated in the
/// script environment, whose solids are concatenated in statement order.
pub fn exec(nodes: &[Arc<Node>]) -> (r: Result<Value, Error>)
    ensures
        result_model(r) == eval_stmts(root_model(), nodes@, Seq::empty()),
{
    let mut body: Vec<Arc<Node>> = Vec::new();
    let mut k: usize = 0;
    while k < nodes.len()
        invariant
            k <= nodes@.len(),
            body@ == nodes@.subrange(0, k as int),
        decreases nodes@.len() - k,
    {
        body.push(nodes[k].clone());
        k += 1;
        assert(body@ =~= nodes@.subrange(0, k as int));
    }
    assert(body@ =~= nodes@);
    evaluate(&body)
}

/// Whether evaluating `n` calls a heavy builtin directly: a call of a name bound
/// to a heavy builtin, or such a node in a binding's value or body, or under a return.
pub open spec fn node_heavy(env: EnvModel, n: Node) -> bool
    decreases n,
{
    match n.expr {
        Expr::Let(l) => node_heavy(env, *l.value) || exists|k: int|
            0 <= k < l.body@.len() && node_heavy(env, *#[trigger] l.body@[k]),
        Expr::Return(inner) => node_heavy(env, *inner),
        Expr::Call(c) => match lookup_env(env, c.name@) {
            Some(ValueModel::Func(f)) => f is Cube || f is Cylinder || f is Union || f is Intersection,
            _ => false,
        },
        _ => false,
    }
}

/// Whether some node of `nodes` is heavy.
pub fn is_body_heavy(env: &Env, nodes: &Vec<Arc<Node>>) -> (r: bool)
    ensures
        r == exists|k: int| 0 <= k < nodes@.len() && node_heavy(env@, *#[trigger] nodes@[k]),
    decreases nodes@, 0nat,
{
    let mut k: usize = 0;
    while k < nodes.len()
        invariant
            k <= nodes@.len(),
            forall|j: int| 0 <= j < k ==> !node_heavy(env@, *#[trigger] nodes@[j]),
        decreases nodes@.len() - k,
    {
        if is_node_heavy(env, &nodes[k]) {
            return true;
        }
        k += 1;
    }
    false
}

/// Whether evaluating `node` in `env` calls a heavy builtin directly.
pub fn is_node_heavy(env: &Env, node: &Node) -> (r: bool)
    ensures
        r == node_heavy(env@, *node),
    decreases *node, 1nat,
{
    match &node.expr {
        Expr::Let(l) => is_node_heavy(env, &l.value) || is_body_heavy(env, &l.body),
        Expr::Return(inner) => is_node_heavy(env, inner),
        Expr::Call(c) => match env.get(c.name.as_str()) {
            Some(Value::BuiltinFunc(f)) => f.is_heavy(),
            _ => false,
        },
        _ => false,
    }
}

/// A body whose first statement produces a solid and whose next, last statement
/// returns a value fails with `MixedBodyResult` at that return, whatever the
/// returned expression is.
pub proof fn lemma_mixed_body(env: EnvModel, first: Arc<Node>, last: Arc<Node>, items: Seq<SolidItem>)
    requires
        is_expression(*first),
        eval_node(env, *first) == Ok::<ValueModel, ErrorModel>(ValueModel::Solid(items)),
        last.expr is Return,
    ensures
        eval_stmts(env, seq![first, last], Seq::empty()) == err_at(*last, KindModel::MixedBodyResult),
{
    let nodes = seq![first, last];
    assert(nodes.drop_first() =~= seq![last]);
    assert(eval_stmts(env, nodes, Seq::empty()) == eval_stmts(env, seq![last], seq![items]));
}

} // verus!

//! The syntax tree.
use std::ops::Range;
use std::sync::Arc;
use vstd::prelude::*;

use crate::lexer::{is_ident_char, is_ident_start, literal_shape, literal_value};
use crate::number::Number;

verus! {

/// A node of the syntax tree and the half-open range of source positions it covers.
#[derive(Debug, PartialEq)]
pub struct Node {
    pub pos: Range<usize>,
    pub expr: Expr,
}

#[derive(Debug, PartialEq)]
pub enum Expr {
    Let(LetExpr),
    Call(CallExpr),
    Var(String),
    Num(Number),
    Return(Arc<Node>),
}

/// `name = value;` and the rest of the body, which sees the binding.
#[derive(Debug, PartialEq)]
pub struct LetExpr {
    pub name: String,
    pub value: Arc<Node>,
    pub body: Vec<Arc<Node>>,
}

/// `name(args) children`; an argument has a name when it is given as `name = value`.
#[derive(Debug, PartialEq)]
pub struct CallExpr {
    pub name: String,
    pub args: Vec<(Option<String>, Arc<Node>)>,
    pub body: Vec<Arc<Node>>,
}

/// A name that the grammar accepts as an identifier.
pub open spec fn is_ident(name: Seq<char>) -> bool {
    &&& name.len() > 0
    &&& is_ident_start(name[0])
    &&& forall|k: int| 0 <= k < name.len() ==> is_ident_char(#[trigger] name[k])
}

/// A node that stands for a value: neither a binding nor a return.
pub open spec fn is_expression(n: Node) -> bool {
    !(n.expr is Let) && !(n.expr is Return)
}

/// Positional arguments come before named ones, and no name is given twice.
pub open spec fn args_ordered(args: Seq<(Option<String>, Arc<Node>)>) -> bool {
    &&& forall|a: int, b: int|
        0 <= a < b < args.len() && (#[trigger] args[a]).0 is Some ==> (#[trigger] args[b]).0 is Some
    &&& forall|a: int, b: int|
        0 <= a < b < args.len() && (#[trigger] args[a]).0 is Some && (#[trigger] args[b]).0 is Some
            ==> args[a].0->Some_0@ != args[b].0->Some_0@
}

/// Only the last node of a body may be a binding or a return.
pub open spec fn body_shape(b: Seq<Arc<Node>>) -> bool {
    forall|k: int| 0 <= k < b.len() - 1 ==> is_expression(*#[trigger] b[k])
}

/// A node as the parser builds it from the source `src`: spans lie in the
/// source; a variable, a number and a binding's name are the source text where
/// their node starts; call arguments are ordered and named by identifiers; and
/// every body has its bindings folded so that a binding or a return only ends
/// a body.
pub open spec fn node_ok(n: Node, src: Seq<char>) -> bool
    decreases n,
{
    &&& n.pos.start <= n.pos.end <= src.len()
    &&& match n.expr {
        Expr::Num(x) => literal_shape(src, n.pos.start as int) matches Some(l) && l.exp_end == n.pos.end
            && literal_value(src, l) == Some(x) && x.wf(),
        Expr::Var(name) => is_ident(name@) && name@ == src.subrange(n.pos.start as int, n.pos.end as int),
        Expr::Return(r) => is_expression(*r) && node_ok(*r, src),
        Expr::Let(l) => {
            &&& is_ident(l.name@)
            &&& names_at(l.name@, src, n.pos.start as int)
            &&& is_expression(*l.value)
            &&& node_ok(*l.value, src)
            &&& body_shape(l.body@)
            &&& forall|k: int| 0 <= k < l.body@.len() ==> node_ok(*#[trigger] l.body@[k], src)
        },
        Expr::Call(c) => {
            &&& args_ordered(c.args@)
            &&& forall|k: int|
                0 <= k < c.args@.len() ==> is_expression(*(#[trigger] c.args@[k]).1) && node_ok(
                    *c.args@[k].1,
                    src,
                ) && (c.args@[k].0 matches Some(a) ==> is_ident(a@))
            &&& body_shape(c.body@)
            &&& forall|k: int| 0 <= k < c.body@.len() ==> node_ok(*#[trigger] c.body@[k], src)
        },
    }
}

/// `name` is the source text at `start`.
pub open spec fn names_at(name: Seq<char>, src: Seq<char>, start: int) -> bool {
    0 <= start && start + name.len() <= src.len() && name == src.subrange(start, start + name.len())
}

/// A body as the parser builds it.
pub open spec fn body_ok(b: Seq<Arc<Node>>, src: Seq<char>) -> bool {
    &&& body_shape(b)
    &&& forall|k: int| 0 <= k < b.len() ==> node_ok(*#[trigger] b[k], src)
}

} // verus!

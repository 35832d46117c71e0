//! The recursive-descent parser: from source text to a syntax tree.
use std::sync::Arc;
use vstd::prelude::*;

use crate::ast::{
    args_ordered, body_ok, is_expression, is_ident, names_at, node_ok, CallExpr, Expr, LetExpr, Node,
};
use crate::grammar::{
    args_end, at, binding_at, binop_of, call_end, call_statement, chain_end, children_end, expr_end,
    ident_at, is_add_op, is_mul_op, maximal_end, operand_end, primary_end, rec_args, rec_call,
    rec_chain_from, rec_expr, rec_maximal, rec_operand, rec_primary, rec_stmts, script_accepted,
    lemma_script_recognized,
    script_ok, semis_end, stmts_end,
};
use crate::lexer::{
    chars_of, ident_end, is_ident_char, is_ident_start, read_literal, scan_ident, skip_ws, ws_end,
    LiteralError,
};

verus! {

/// What made the source unacceptable.
#[derive(Debug)]
pub enum ParseErrorKind {
    /// The given character was expected here.
    Expected(char),
    /// An expression was expected here.
    ExpectedExpression,
    /// A block comment that is never closed.
    UnterminatedComment,
    /// A number whose exponent has no digits.
    MalformedNumber,
    /// A number too large or too precise to represent.
    NumberOutOfRange,
    /// A positional argument after a named one.
    PositionalAfterNamed,
    /// A named argument given twice.
    DuplicateNamedArgument(String),
}

/// A parse error and the position where it was found.
#[derive(Debug)]
pub struct ErrorDetail {
    pub pos: usize,
    pub kind: ParseErrorKind,
}

/// The source being parsed, as characters.
struct Parser<'a> {
    src: &'a str,
    s: Vec<char>,
}

type Parsed = Result<(Arc<Node>, usize, bool), ErrorDetail>;

/// A parsed expression that starts at `i` and ends at `j` (after trailing
/// whitespace): a well-formed expression node within that text, and whether it
/// is a call statement.
spec fn expr_ok(r: Parsed, i: int, src: Seq<char>) -> bool {
    r matches Ok((n, j, is_call)) ==> {
        &&& i < j <= src.len()
        &&& i <= n.pos.start <= n.pos.end <= j
        &&& node_ok(*n, src)
        &&& is_expression(*n)
        &&& is_call == call_statement(src, i, *n)
    }
}

/// The node of a parsed expression.
spec fn node_of(r: Parsed) -> Node {
    *r->Ok_0.0
}

/// The end of a parsed expression.
spec fn end_of(r: Parsed) -> int {
    r->Ok_0.1 as int
}

fn fail<T>(pos: usize, kind: ParseErrorKind) -> (r: Result<T, ErrorDetail>)
    ensures
        r is Err,
{
    Err(ErrorDetail { pos, kind })
}

fn node(start: usize, end: usize, expr: Expr) -> (r: Arc<Node>)
    ensures
        r.pos.start == start,
        r.pos.end == end,
        r.expr == expr,
{
    Arc::new(Node { pos: start..end, expr })
}

/// The views of `names`.
spec fn views_of(names: Seq<String>) -> Seq<Seq<char>> {
    Seq::new(names.len(), |k: int| names[k]@)
}

/// Whether `name` is among `names`.
fn known(names: &Vec<String>, name: &String) -> (r: bool)
    ensures
        r == views_of(names@).contains(name@),
{
    let mut k: usize = 0;
    while k < names.len()
        invariant
            k <= names@.len(),
            forall|j: int| 0 <= j < k ==> names@[j]@ != name@,
        decreases names@.len() - k,
    {
        if names[k] == *name {
            assert(views_of(names@)[k as int] == name@);
            return true;
        }
        k += 1;
    }
    assert forall|j: int| 0 <= j < views_of(names@).len() implies views_of(names@)[j] != name@ by {}
    false
}

/// The names of `args` that are given, with `names` before them.
spec fn names_after(names: Seq<Seq<char>>, arg: (Option<String>, Arc<Node>)) -> Seq<Seq<char>> {
    match arg.0 {
        Some(a) => names.push(a@),
        None => names,
    }
}

/// Well-formed arguments, none named by one of `names`, all named if `named`.
spec fn args_good(v: Seq<(Option<String>, Arc<Node>)>, names: Seq<Seq<char>>, named: bool, src: Seq<char>) -> bool {
    &&& forall|j: int| 0 <= j < v.len() ==> is_expression(*(#[trigger] v[j]).1) && node_ok(*v[j].1, src)
        && (v[j].0 matches Some(a) ==> is_ident(a@) && !names.contains(a@))
    &&& named ==> forall|j: int| 0 <= j < v.len() ==> (#[trigger] v[j]).0 is Some
    &&& args_ordered(v)
}

proof fn lemma_args_cons(
    arg: (Option<String>, Arc<Node>),
    tail: Seq<(Option<String>, Arc<Node>)>,
    names: Seq<Seq<char>>,
    named: bool,
    src: Seq<char>,
)
    requires
        args_good(seq![arg], names, named, src),
        args_good(tail, names_after(names, arg), named || arg.0 is Some, src),
    ensures
        args_good(seq![arg] + tail, names, named, src),
{
    let v = seq![arg] + tail;
    assert forall|j: int| 0 < j < v.len() implies v[j] == tail[j - 1] by {}
    assert(v[0] == arg);
    assert forall|j: int| 0 <= j < v.len() implies is_expression(*(#[trigger] v[j]).1) && node_ok(*v[j].1, src)
        && (v[j].0 matches Some(a) ==> is_ident(a@) && !names.contains(a@)) by {
        if j > 0 {
            if let Some(a) = tail[j - 1].0 {
                if names.contains(a@) {
                    let w = choose|w: int| 0 <= w < names.len() && names[w] == a@;
                    assert(names_after(names, arg)[w] == a@);
                }
            }
        } else {
            assert(seq![arg][0] == arg);
        }
    }
    assert forall|a: int, b: int| 0 <= a < b < v.len() && (#[trigger] v[a]).0 is Some implies (#[trigger] v[b]).0 is Some by {
        if a > 0 {
            assert(v[a] == tail[a - 1] && v[b] == tail[b - 1]);
        } else {
            assert(v[b] == tail[b - 1]);
        }
    }
    assert forall|a: int, b: int|
        0 <= a < b < v.len() && (#[trigger] v[a]).0 is Some && (#[trigger] v[b]).0 is Some
        implies v[a].0->Some_0@ != v[b].0->Some_0@ by {
        assert(v[b] == tail[b - 1]);
        if a > 0 {
            assert(v[a] == tail[a - 1]);
        } else {
            assert(names_after(names, arg)[names.len() as int] == v[0].0->Some_0@);
        }
    }
    if named {
        assert forall|j: int| 0 <= j < v.len() implies (#[trigger] v[j]).0 is Some by {
            if j > 0 {
                assert(v[j] == tail[j - 1]);
            } else {
                assert(seq![arg][0] == arg);
            }
        }
    }
}

/// Reading an expression that starts with a primary the grammar refuses fails.
proof fn lemma_expr_refused(s: Seq<char>, i: int)
    requires
        0 <= i <= s.len(),
        rec_primary(s, i) is None,
    ensures
        rec_maximal(s, i, true) is None,
        rec_expr(s, i) is None,
{
    assert(rec_operand(s, i, true) is None);
    assert(rec_maximal(s, i, true) is None);
    assert(rec_operand(s, i, false) is None);
    assert(rec_maximal(s, i, false) is None);
}

proof fn lemma_ident_run(s: Seq<char>, i: int)
    requires
        0 <= i <= s.len(),
    ensures
        i <= ident_end(s, i) <= s.len(),
        forall|k: int| i <= k < ident_end(s, i) ==> is_ident_char(#[trigger] s[k]),
        ident_end(s, i) < s.len() ==> !is_ident_char(s[ident_end(s, i)]),
    decreases s.len() - i,
{
    if i < s.len() && is_ident_char(s[i]) {
        lemma_ident_run(s, i + 1);
    }
}

impl<'a> Parser<'a> {
    spec fn wf(&self) -> bool {
        self.s@ == self.src@ && self.s@.len() <= usize::MAX
    }

    spec fn len(&self) -> nat {
        self.s@.len()
    }

    /// Skips whitespace and comments from `i`.
    fn ws(&self, i: usize) -> (r: Result<usize, ErrorDetail>)
        requires
            i <= self.len(),
        ensures
            r matches Ok(j) ==> i <= j <= self.len() && ws_end(self.s@, i as int) == Some(j as int),
            r is Err ==> ws_end(self.s@, i as int) is None,
    {
        match skip_ws(&self.s, i) {
            Some(j) => Ok(j),
            None => fail(i, ParseErrorKind::UnterminatedComment),
        }
    }

    /// Whether the character at `i` is `c`.
    fn at(&self, i: usize, c: char) -> (r: bool)
        requires
            self.wf(),
        ensures
            r == at(self.s@, i as int, c),
    {
        i < self.s.len() && self.s[i] == c
    }

    /// Whether an identifier starts at `i`.
    fn ident_at(&self, i: usize) -> (r: bool)
        requires
            self.wf(),
        ensures
            r == ident_at(self.s@, i as int),
    {
        i < self.s.len() && (('a' <= self.s[i] && self.s[i] <= 'z') || ('A' <= self.s[i] && self.s[i] <= 'Z')
            || self.s[i] == '_')
    }

    /// The source text between `a` and `b`.
    fn text(&self, a: usize, b: usize) -> (r: String)
        requires
            self.wf(),
            a <= b <= self.len(),
        ensures
            r@ == self.s@.subrange(a as int, b as int),
    {
        let t = self.src.substring_char(a, b);
        t.to_string()
    }

    /// The identifier that starts at `i` and ends at `e`.
    fn ident_text(&self, i: usize, e: usize) -> (r: String)
        requires
            self.wf(),
            i < e <= self.len(),
            is_ident_start(self.s@[i as int]),
            e == ident_end(self.s@, i as int),
        ensures
            is_ident(r@),
            r@ == self.s@.subrange(i as int, e as int),
            names_at(r@, self.s@, i as int),
    {
        proof {
            lemma_ident_run(self.s@, i as int);
        }
        self.text(i, e)
    }

    /// Where the binding that starts at `i` has its `=`, if one starts there.
    fn binding(&self, i: usize) -> (r: Result<Option<(usize, usize)>, ErrorDetail>)
        requires
            self.wf(),
            i <= self.len(),
        ensures
            r matches Ok(b) ==> match b {
                Some((ie, x)) => binding_at(self.s@, i as int) && ie == ident_end(self.s@, i as int)
                    && ws_end(self.s@, ie as int) == Some(x as int) && i < ie <= x < self.len(),
                None => !binding_at(self.s@, i as int),
            },
            r is Err ==> ident_at(self.s@, i as int) && ws_end(self.s@, ident_end(self.s@, i as int)) is None,
    {
        if !self.ident_at(i) {
            return Ok(None);
        }
        let ie = scan_ident(&self.s, i);
        proof {
            lemma_ident_run(self.s@, i as int);
        }
        let x = match self.ws(ie) {
            Ok(x) => x,
            Err(e) => return Err(e),
        };
        if self.at(x, '=') {
            Ok(Some((ie, x)))
        } else {
            Ok(None)
        }
    }

    /// An expression: a chain of terms joined by `+` and `-`, left to right.
    fn expr(&self, i: usize) -> (r: Parsed)
        requires
            self.wf(),
            i <= self.len(),
        ensures
            expr_ok(r, i as int, self.s@),
            r is Ok ==> expr_end(self.s@, i as int, node_of(r)) == Some(end_of(r)),
            r is Ok ==> rec_expr(self.s@, i as int) == Some((end_of(r), r->Ok_0.2)),
            r is Err ==> rec_expr(self.s@, i as int) is None,
        decreases self.len() - i, 3nat,
    {
        let (mut left, mut j, mut is_call) = match self.term(i) {
            Ok(t) => t,
            Err(e) => return Err(e),
        };
        assert(operand_end(self.s@, i as int, *left, false) == Some(j as int));
        assert(chain_end(self.s@, i as int, *left, false) == Some(j as int));
        loop
            invariant
                self.wf(),
                i < j <= self.len(),
                expr_ok(Ok((left, j, is_call)), i as int, self.s@),
                chain_end(self.s@, i as int, *left, false) == Some(j as int),
                rec_expr(self.s@, i as int) == rec_chain_from(self.s@, j as int, false, is_call),
            decreases self.len() - j,
        {
            if !(self.at(j, '+') || self.at(j, '-')) {
                assert(maximal_end(self.s@, i as int, *left, false) == Some(j as int));
                return Ok((left, j, is_call));
            }
            let op = self.text(j, j + 1);
            let k = match self.ws(j + 1) {
                Ok(k) => k,
                Err(e) => {
                    assert(rec_chain_from(self.s@, j as int, false, is_call) is None);
                    return Err(e);
                },
            };
            let (right, k2, c2) = match self.term(k) {
                Ok(t) => t,
                Err(e) => {
                    assert(rec_operand(self.s@, k as int, false) is None);
                    assert(rec_chain_from(self.s@, j as int, false, is_call) is None);
                    return Err(e);
                },
            };
            assert(rec_operand(self.s@, k as int, false) == Some((k2 as int, c2)));
            assert(rec_chain_from(self.s@, j as int, false, is_call) == rec_chain_from(self.s@, k2 as int, false, false));
            let end = right.pos.end;
            let ghost right_node = right;
            let mut args: Vec<(Option<String>, Arc<Node>)> = Vec::new();
            args.push((None, left));
            args.push((None, right));
            left = node(i, end, Expr::Call(CallExpr { name: op, args, body: Vec::new() }));
            assert(binop_of(*left, false));
            assert(operand_end(self.s@, k as int, *right_node, false) == Some(k2 as int));
            assert(chain_end(self.s@, i as int, *left, false) == Some(k2 as int));
            assert(node_ok(*left, self.s@));
            j = k2;
            is_call = false;
        }
    }

    /// A term: a chain of primaries joined by `*`, `/` and `%`, left to right.
    fn term(&self, i: usize) -> (r: Parsed)
        requires
            self.wf(),
            i <= self.len(),
        ensures
            expr_ok(r, i as int, self.s@),
            r is Ok ==> maximal_end(self.s@, i as int, node_of(r), true) == Some(end_of(r)),
            r is Ok ==> rec_maximal(self.s@, i as int, true) == Some((end_of(r), r->Ok_0.2)),
            r is Err ==> rec_maximal(self.s@, i as int, true) is None,
            r is Ok ==> !(binop_of(node_of(r), false) && node_of(r).pos.start == i),
        decreases self.len() - i, 2nat,
    {
        let (mut left, mut j, mut is_call) = match self.primary(i) {
            Ok(t) => t,
            Err(e) => return Err(e),
        };
        assert(operand_end(self.s@, i as int, *left, true) == Some(j as int));
        assert(chain_end(self.s@, i as int, *left, true) == Some(j as int));
        loop
            invariant
                self.wf(),
                i < j <= self.len(),
                expr_ok(Ok((left, j, is_call)), i as int, self.s@),
                chain_end(self.s@, i as int, *left, true) == Some(j as int),
                !(binop_of(*left, false) && left.pos.start == i),
                rec_maximal(self.s@, i as int, true) == rec_chain_from(self.s@, j as int, true, is_call),
            decreases self.len() - j,
        {
            if !(self.at(j, '*') || self.at(j, '/') || self.at(j, '%')) {
                assert(maximal_end(self.s@, i as int, *left, true) == Some(j as int));
                return Ok((left, j, is_call));
            }
            let op = self.text(j, j + 1);
            let k = match self.ws(j + 1) {
                Ok(k) => k,
                Err(e) => {
                    assert(rec_chain_from(self.s@, j as int, true, is_call) is None);
                    return Err(e);
                },
            };
            let (right, k2, c2) = match self.primary(k) {
                Ok(t) => t,
                Err(e) => {
                    assert(rec_operand(self.s@, k as int, true) is None);
                    assert(rec_chain_from(self.s@, j as int, true, is_call) is None);
                    return Err(e);
                },
            };
            assert(rec_operand(self.s@, k as int, true) == Some((k2 as int, c2)));
            assert(rec_chain_from(self.s@, j as int, true, is_call) == rec_chain_from(self.s@, k2 as int, true, false));
            let end = right.pos.end;
            let ghost right_node = right;
            let mut args: Vec<(Option<String>, Arc<Node>)> = Vec::new();
            args.push((None, left));
            args.push((None, right));
            left = node(i, end, Expr::Call(CallExpr { name: op, args, body: Vec::new() }));
            assert(binop_of(*left, true));
            assert(operand_end(self.s@, k as int, *right_node, true) == Some(k2 as int));
            assert(chain_end(self.s@, i as int, *left, true) == Some(k2 as int));
            assert(node_ok(*left, self.s@));
            j = k2;
            is_call = false;
        }
    }

    /// A primary: a call, a variable, a number, or an expression in parentheses.
    fn primary(&self, i: usize) -> (r: Parsed)
        requires
            self.wf(),
            i <= self.len(),
        ensures
            expr_ok(r, i as int, self.s@),
            r is Ok ==> primary_end(self.s@, i as int, node_of(r)) == Some(end_of(r)),
            r is Ok ==> rec_primary(self.s@, i as int) == Some((end_of(r), r->Ok_0.2)),
            r is Err ==> rec_primary(self.s@, i as int) is None,
            r is Ok ==> !(binop_of(node_of(r), false) && node_of(r).pos.start == i),
            r is Ok ==> !(binop_of(node_of(r), true) && node_of(r).pos.start == i),
        decreases self.len() - i, 1nat,
    {
        if self.ident_at(i) {
            let e = scan_ident(&self.s, i);
            proof {
                lemma_ident_run(self.s@, i as int);
            }
            if self.at(e, '(') {
                let r = self.call(i, e);
                return r;
            }
            let name = self.ident_text(i, e);
            let n = node(i, e, Expr::Var(name));
            let j = match self.ws(e) {
                Ok(j) => j,
                Err(err) => return Err(err),
            };
            Ok((n, j, false))
        } else if self.at(i, '(') {
            let k = match self.ws(i + 1) {
                Ok(k) => k,
                Err(e) => return Err(e),
            };
            let (inner, k2, _) = match self.expr(k) {
                Ok(t) => t,
                Err(e) => return Err(e),
            };
            if !self.at(k2, ')') {
                return fail(k2, ParseErrorKind::Expected(')'));
            }
            let j = match self.ws(k2 + 1) {
                Ok(j) => j,
                Err(e) => return Err(e),
            };
            Ok((inner, j, false))
        } else {
            match read_literal(&self.s, i) {
                Ok((x, e)) => {
                    let n = node(i, e, Expr::Num(x));
                    let j = match self.ws(e) {
                        Ok(j) => j,
                        Err(err) => return Err(err),
                    };
                    Ok((n, j, false))
                },
                Err(LiteralError::NotALiteral) => fail(i, ParseErrorKind::ExpectedExpression),
                Err(LiteralError::BadExponent) => fail(i, ParseErrorKind::MalformedNumber),
                Err(LiteralError::OutOfRange) => fail(i, ParseErrorKind::NumberOutOfRange),
            }
        }
    }

    /// A call `name(args)` at `i`, the name ending at `e`, then its children.
    fn call(&self, i: usize, e: usize) -> (r: Parsed)
        requires
            self.wf(),
            i < e < self.len(),
            is_ident_start(self.s@[i as int]),
            e == ident_end(self.s@, i as int),
            self.s@[e as int] == '(',
        ensures
            expr_ok(r, i as int, self.s@),
            r is Ok ==> call_end(self.s@, i as int, node_of(r)) == Some(end_of(r)),
            r is Ok ==> rec_call(self.s@, i as int) == Some((node_of(r).pos.end as int, end_of(r))),
            r is Ok ==> r->Ok_0.2 == (node_of(r).pos.end > 0 && at(self.s@, node_of(r).pos.end - 1, '}')),
            r is Err ==> rec_call(self.s@, i as int) is None,
            r is Ok ==> !binop_of(node_of(r), false) && !binop_of(node_of(r), true),
        decreases self.len() - i, 0nat,
    {
        let name = self.ident_text(i, e);
        let k = match self.ws(e + 1) {
            Ok(k) => k,
            Err(err) => return Err(err),
        };
        assert(views_of(Seq::<String>::empty()) =~= Seq::<Seq<char>>::empty());
        let (args, q) = match self.arg_list(k, Vec::new(), false) {
            Ok(t) => t,
            Err(err) => return Err(err),
        };
        let t = match self.ws(q + 1) {
            Ok(t) => t,
            Err(err) => return Err(err),
        };
        let (body, x, j, block) = if self.at(t, '{') {
            let a = match self.ws(t + 1) {
                Ok(a) => a,
                Err(err) => return Err(err),
            };
            let (b, close) = match self.body(a, true) {
                Ok(r) => r,
                Err(err) => return Err(err),
            };
            let j = match self.ws(close + 1) {
                Ok(j) => j,
                Err(err) => return Err(err),
            };
            assert(children_end(self.s@, q + 1, b@) == Some(close + 1));
            (b, close + 1, j, true)
        } else if self.ident_at(t) && self.at(scan_ident(&self.s, t), '(') {
            let ce = scan_ident(&self.s, t);
            proof {
                lemma_ident_run(self.s@, t as int);
            }
            let (child, end, child_block) = match self.call(t, ce) {
                Ok(c) => c,
                Err(err) => return Err(err),
            };
            let x = child.pos.end;
            let mut body: Vec<Arc<Node>> = Vec::new();
            body.push(child);
            assert(body@[0] == child);
            assert(children_end(self.s@, q + 1, body@) == Some(x as int));
            (body, x, end, child_block)
        } else {
            let body: Vec<Arc<Node>> = Vec::new();
            assert(children_end(self.s@, q + 1, body@) == Some(q + 1));
            (body, q + 1, t, false)
        };
        let n = node(i, x, Expr::Call(CallExpr { name, args, body }));
        assert(!is_mul_op(self.s@[i as int]) && !is_add_op(self.s@[i as int]));
        assert(call_end(self.s@, i as int, *n) == Some(j as int));
        assert(node_ok(*n, self.s@));
        Ok((n, j, block))
    }

    /// The arguments at `k`, up to the closing parenthesis, whose position is
    /// given; `names` are the names given before, `named` whether one was.
    #[verifier::rlimit(80)]
    fn arg_list(&self, k: usize, names: Vec<String>, named: bool) -> (r: Result<(Vec<(Option<String>, Arc<Node>)>, usize), ErrorDetail>)
        requires
            self.wf(),
            k <= self.len(),
        ensures
            r matches Ok((v, q)) ==> {
                &&& k <= q < self.len()
                &&& self.s@[q as int] == ')'
                &&& args_end(self.s@, k as int, v@, views_of(names@), named) == Some(q as int)
                &&& rec_args(self.s@, k as int, views_of(names@), named) == Some(q as int)
                &&& args_good(v@, views_of(names@), named, self.s@)
            },
            r is Err ==> rec_args(self.s@, k as int, views_of(names@), named) is None,
        decreases self.len() - k, 4nat,
    {
        if self.at(k, ')') {
            let v: Vec<(Option<String>, Arc<Node>)> = Vec::new();
            assert(args_good(v@, views_of(names@), named, self.s@));
            return Ok((v, k));
        }
        let b = match self.binding(k) {
            Ok(b) => b,
            Err(err) => {
                proof {
                    assert(!at(self.s@, ident_end(self.s@, k as int), '('));
                    assert(rec_primary(self.s@, k as int) is None);
                    lemma_expr_refused(self.s@, k as int);
                }
                return Err(err);
            },
        };
        let ghost nv = views_of(names@);
        let mut names = names;
        let (arg, z) = match b {
            Some((ie, x)) => {
                let name = self.ident_text(k, ie);
                if known(&names, &name) {
                    return fail(k, ParseErrorKind::DuplicateNamedArgument(name));
                }
                let y = match self.ws(x + 1) {
                    Ok(y) => y,
                    Err(err) => return Err(err),
                };
                let (v, z, _) = match self.expr(y) {
                    Ok(t) => t,
                    Err(err) => return Err(err),
                };
                names.push(name.clone());
                ((Some(name), v), z)
            },
            None => {
                if named {
                    return fail(k, ParseErrorKind::PositionalAfterNamed);
                }
                let (v, z, _) = match self.expr(k) {
                    Ok(t) => t,
                    Err(err) => return Err(err),
                };
                ((None, v), z)
            },
        };
        let is_named = arg.0.is_some();
        proof {
            assert(views_of(names@) =~= names_after(nv, arg));
            assert(args_good(seq![arg], nv, named, self.s@)) by {
                assert(seq![arg][0] == arg);
            }
        }
        if self.at(z, ',') {
            let k2 = match self.ws(z + 1) {
                Ok(k2) => k2,
                Err(err) => return Err(err),
            };
            let (mut rest, q) = match self.arg_list(k2, names, named || is_named) {
                Ok(t) => t,
                Err(err) => return Err(err),
            };
            let ghost tail = rest@;
            let ghost first = arg;
            rest.insert(0, arg);
            proof {
                assert(rest@ =~= seq![first] + tail);
                assert(rest@.drop_first() =~= tail);
                lemma_args_cons(first, tail, nv, named, self.s@);
                assert(rec_args(self.s@, k as int, nv, named) == Some(q as int));
                assert(args_end(self.s@, k as int, rest@, nv, named) == Some(q as int));
            }
            Ok((rest, q))
        } else if self.at(z, ')') {
            let mut v: Vec<(Option<String>, Arc<Node>)> = Vec::new();
            v.push(arg);
            assert(v@ =~= seq![arg]);
            assert(rec_args(self.s@, k as int, nv, named) == Some(z as int));
            assert(args_end(self.s@, k as int, v@, nv, named) == Some(z as int));
            Ok((v, z))
        } else {
            fail(z, ParseErrorKind::Expected(')'))
        }
    }

    /// Skips one or more `;` at `i`, with the whitespace after each.
    fn semicolons(&self, i: usize) -> (r: Result<usize, ErrorDetail>)
        requires
            self.wf(),
            i < self.len(),
            self.s@[i as int] == ';',
        ensures
            r matches Ok(j) ==> i < j <= self.len() && semis_end(self.s@, i as int) == Some(j as int),
            r is Err ==> semis_end(self.s@, i as int) is None,
    {
        let mut k = i;
        while self.at(k, ';')
            invariant
                self.wf(),
                i <= k <= self.len(),
                k == i ==> self.s@[i as int] == ';' && i < self.len(),
                semis_end(self.s@, i as int) == semis_end(self.s@, k as int),
            decreases self.len() - k,
        {
            let k2 = match self.ws(k + 1) {
                Ok(k2) => k2,
                Err(err) => {
                    assert(semis_end(self.s@, k as int) is None);
                    return Err(err);
                },
            };
            assert(semis_end(self.s@, k as int) == semis_end(self.s@, k2 as int));
            k = k2;
        }
        Ok(k)
    }

    /// A body at `i`: statements up to the end of the source (`in_block` false)
    /// or up to a closing brace (`in_block` true), whose position is returned.
    #[verifier::rlimit(80)]
    fn body(&self, i: usize, in_block: bool) -> (r: Result<(Vec<Arc<Node>>, usize), ErrorDetail>)
        requires
            self.wf(),
            i <= self.len(),
        ensures
            r matches Ok((b, j)) ==> {
                &&& i <= j <= self.len()
                &&& body_ok(b@, self.s@)
                &&& stmts_end(self.s@, i as int, b@, in_block) == Some(j as int)
                &&& in_block ==> j < self.len() && self.s@[j as int] == '}'
                &&& !in_block ==> j == self.len()
            },
            r matches Ok((b, j)) ==> rec_stmts(self.s@, i as int, in_block) == Some(j as int),
            r is Err ==> rec_stmts(self.s@, i as int, in_block) is None,
        decreases self.len() - i, 5nat,
    {
        if (in_block && self.at(i, '}')) || (!in_block && i >= self.s.len()) {
            return Ok((Vec::new(), i));
        }
        if i >= self.s.len() {
            return fail(i, ParseErrorKind::Expected('}'));
        }
        let b = match self.binding(i) {
            Ok(b) => b,
            Err(err) => {
                proof {
                    assert(!at(self.s@, ident_end(self.s@, i as int), '('));
                    assert(rec_primary(self.s@, i as int) is None);
                    lemma_expr_refused(self.s@, i as int);
                }
                return Err(err);
            },
        };
        if let Some((ie, x)) = b {
            let name = self.ident_text(i, ie);
            let y = match self.ws(x + 1) {
                Ok(y) => y,
                Err(err) => return Err(err),
            };
            let (v, z, _) = match self.expr(y) {
                Ok(t) => t,
                Err(err) => return Err(err),
            };
            if !self.at(z, ';') {
                return fail(z, ParseErrorKind::Expected(';'));
            }
            let a2 = match self.semicolons(z) {
                Ok(a2) => a2,
                Err(err) => return Err(err),
            };
            let (rest, j) = match self.body(a2, in_block) {
                Ok(t) => t,
                Err(err) => return Err(err),
            };
            let n = node(i, z, Expr::Let(LetExpr { name, value: v, body: rest }));
            let mut out: Vec<Arc<Node>> = Vec::new();
            out.push(n);
            assert(node_ok(*n, self.s@));
            assert(stmts_end(self.s@, i as int, out@, in_block) == Some(j as int));
            return Ok((out, j));
        }
        let (n, z, is_call) = match self.expr(i) {
            Ok(t) => t,
            Err(err) => return Err(err),
        };
        if self.at(z, ';') || is_call {
            let a2 = if self.at(z, ';') {
                match self.semicolons(z) {
                    Ok(a2) => a2,
                    Err(err) => return Err(err),
                }
            } else {
                z
            };
            let (mut rest, j) = match self.body(a2, in_block) {
                Ok(t) => t,
                Err(err) => return Err(err),
            };
            let ghost tail = rest@;
            rest.insert(0, n);
            assert(rest@.drop_first() =~= tail);
            assert(stmts_end(self.s@, i as int, rest@, in_block) == Some(j as int));
            assert forall|k: int| 0 <= k < rest@.len() implies node_ok(*#[trigger] rest@[k], self.s@) by {
                if k > 0 {
                    assert(rest@[k] == tail[k - 1]);
                }
            }
            assert forall|k: int| 0 <= k < rest@.len() - 1 implies is_expression(*#[trigger] rest@[k]) by {
                if k > 0 {
                    assert(rest@[k] == tail[k - 1]);
                }
            }
            return Ok((rest, j));
        }
        let at_end = if in_block { self.at(z, '}') } else { z >= self.s.len() };
        if !at_end {
            return fail(z, if in_block { ParseErrorKind::Expected('}') } else { ParseErrorKind::Expected(';') });
        }
        let ret = node(n.pos.start, n.pos.end, Expr::Return(n));
        let mut out: Vec<Arc<Node>> = Vec::new();
        out.push(ret);
        assert(ret.pos == n.pos);
        assert(stmts_end(self.s@, i as int, out@, in_block) == Some(z as int));
        Ok((out, z))
    }
}

/// Parses a whole script: a body that runs to the end of the source, after
/// leading whitespace and comments.
pub fn parse_source(i: &str) -> (r: Result<Vec<Arc<Node>>, ErrorDetail>)
    ensures
        r is Ok <==> script_accepted(i@),
        (exists|b: Seq<Arc<Node>>| script_ok(i@, b)) ==> r is Ok,
        r matches Ok(b) ==> script_ok(i@, b@) && body_ok(b@, i@),
{
    proof {
        if exists|b: Seq<Arc<Node>>| script_ok(i@, b) {
            let b = choose|b: Seq<Arc<Node>>| script_ok(i@, b);
            lemma_script_recognized(i@, b);
        }
    }
    let chars = chars_of(i);
    let n = chars.len();
    let p = Parser { src: i, s: chars };
    let k = match p.ws(0) {
        Ok(k) => k,
        Err(e) => return Err(e),
    };
    match p.body(k, false) {
        Ok((b, _)) => Ok(b),
        Err(e) => Err(e),
    }
}

} // verus!

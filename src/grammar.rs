//! The grammar of scripts, stated as checks: each function takes a source, a
//! position and a tree, and gives the position where the tree's text ends
//! (after the whitespace that follows it) when the tree is what the grammar
//! reads at that position, and `None` otherwise.
use std::sync::Arc;
use vstd::prelude::*;

use crate::ast::{Expr, Node};
use crate::lexer::{
    ident_end, is_ident_start, lemma_ws_end_bounds, literal_shape, literal_value, ws_end,
};

verus! {

pub open spec fn at(s: Seq<char>, i: int, c: char) -> bool {
    0 <= i < s.len() && s[i] == c
}

pub open spec fn ident_at(s: Seq<char>, i: int) -> bool {
    0 <= i < s.len() && is_ident_start(s[i])
}

/// A call starts at `i`: an identifier followed at once by `(`.
pub open spec fn call_at(s: Seq<char>, i: int) -> bool {
    ident_at(s, i) && at(s, ident_end(s, i), '(')
}

/// A binding starts at `i`: an identifier, whitespace, then `=`.
pub open spec fn binding_at(s: Seq<char>, i: int) -> bool {
    ident_at(s, i) && (ws_end(s, ident_end(s, i)) matches Some(x) && at(s, x, '='))
}

pub open spec fn is_mul_op(c: char) -> bool {
    c == '*' || c == '/' || c == '%'
}

pub open spec fn is_add_op(c: char) -> bool {
    c == '+' || c == '-'
}

pub open spec fn op_at(s: Seq<char>, i: int, mul: bool) -> bool {
    0 <= i < s.len() && if mul { is_mul_op(s[i]) } else { is_add_op(s[i]) }
}

/// `n` is the call of a multiplicative (`mul`) or additive operator.
pub open spec fn binop_of(n: Node, mul: bool) -> bool {
    &&& n.expr is Call
    &&& n.expr->Call_0.name@.len() == 1
    &&& if mul {
        is_mul_op(n.expr->Call_0.name@[0])
    } else {
        is_add_op(n.expr->Call_0.name@[0])
    }
    &&& n.expr->Call_0.args@.len() == 2
    &&& n.expr->Call_0.args@[0].0 is None
    &&& n.expr->Call_0.args@[1].0 is None
    &&& n.expr->Call_0.body@.len() == 0
}

/// `n`, read at `i`, is a call statement: a call that no operator follows and
/// whose text ends with the `}` of a block; it needs no `;`.
pub open spec fn call_statement(s: Seq<char>, i: int, n: Node) -> bool {
    &&& call_at(s, i)
    &&& !binop_of(n, true)
    &&& !binop_of(n, false)
    &&& n.pos.end > 0
    &&& at(s, n.pos.end - 1, '}')
}

/// The end of a body: a closing brace inside a block, the end of the source outside.
pub open spec fn body_end_at(s: Seq<char>, i: int, in_block: bool) -> bool {
    if in_block {
        at(s, i, '}')
    } else {
        i >= s.len()
    }
}

/// The position after one or more `;` at `i`, each with the whitespace after it.
pub open spec fn semis_end(s: Seq<char>, i: int) -> Option<int>
    decreases s.len() - i,
    when 0 <= i
    via semis_end_decreases
{
    if at(s, i, ';') {
        match ws_end(s, i + 1) {
            Some(w) => if at(s, w, ';') {
                semis_end(s, w)
            } else {
                Some(w)
            },
            None => None,
        }
    } else {
        Some(i)
    }
}

#[via_fn]
proof fn semis_end_decreases(s: Seq<char>, i: int) {
    lemma_ws_end_bounds(s, i + 1);
}

/// A primary expression at `i`: a call, a variable, a number, or an expression
/// in parentheses (whose tree is that of the expression inside).
pub open spec fn primary_end(s: Seq<char>, i: int, n: Node) -> Option<int>
    decreases n, s.len() - i, 1nat,
    when 0 <= i <= s.len()
    via primary_end_decreases
{
    if call_at(s, i) {
        call_end(s, i, n)
    } else if ident_at(s, i) {
        let e = ident_end(s, i);
        match n.expr {
            Expr::Var(name) => if name@ == s.subrange(i, e) && n.pos.start == i && n.pos.end == e {
                ws_end(s, e)
            } else {
                None
            },
            _ => None,
        }
    } else if at(s, i, '(') {
        match ws_end(s, i + 1) {
            Some(k) => match expr_end(s, k, n) {
                Some(m) => if at(s, m, ')') {
                    ws_end(s, m + 1)
                } else {
                    None
                },
                None => None,
            },
            None => None,
        }
    } else {
        match n.expr {
            Expr::Num(x) => match literal_shape(s, i) {
                Some(l) => if literal_value(s, l) == Some(x) && n.pos.start == i && n.pos.end == l.exp_end {
                    ws_end(s, l.exp_end)
                } else {
                    None
                },
                None => None,
            },
            _ => None,
        }
    }
}

#[via_fn]
proof fn primary_end_decreases(s: Seq<char>, i: int, n: Node) {
    lemma_ws_end_bounds(s, i + 1);
}

/// A chain of operands joined by operators of one level (`mul`: `* / %`,
/// otherwise `+ -`), at `i`, read left to right: an operator node spans the
/// chain from `i` to the end of its right operand. Not required to be maximal.
pub open spec fn chain_end(s: Seq<char>, i: int, n: Node, mul: bool) -> Option<int>
    decreases n, s.len() - i, (if mul { 3nat } else { 6nat }),
    when 0 <= i <= s.len()
    via chain_end_decreases
{
    if binop_of(n, mul) && n.pos.start == i {
        let c = n.expr->Call_0;
        let left = *c.args@[0].1;
        let right = *c.args@[1].1;
        match chain_end(s, i, left, mul) {
            Some(m) => if op_at(s, m, mul) && c.name@ == s.subrange(m, m + 1) {
                match ws_end(s, m + 1) {
                    Some(k) => match operand_end(s, k, right, mul) {
                        Some(j) => if n.pos.end == right.pos.end {
                            Some(j)
                        } else {
                            None
                        },
                        None => None,
                    },
                    None => None,
                }
            } else {
                None
            },
            None => None,
        }
    } else {
        operand_end(s, i, n, mul)
    }
}

#[via_fn]
proof fn chain_end_decreases(s: Seq<char>, i: int, n: Node, mul: bool) {
    if binop_of(n, mul) && n.pos.start == i {
        let c = n.expr->Call_0;
        assert(decreases_to!(n => c.args@[0].1));
        assert(decreases_to!(n => c.args@[1].1));
    }
}

/// An operand of a chain: a primary for `* / %`, a maximal product for `+ -`.
pub open spec fn operand_end(s: Seq<char>, i: int, n: Node, mul: bool) -> Option<int>
    decreases n, s.len() - i, (if mul { 2nat } else { 5nat }),
    when 0 <= i <= s.len()
{
    if mul {
        primary_end(s, i, n)
    } else {
        maximal_end(s, i, n, true)
    }
}

/// A chain that no further operator of its level follows.
pub open spec fn maximal_end(s: Seq<char>, i: int, n: Node, mul: bool) -> Option<int>
    decreases n, s.len() - i, (if mul { 4nat } else { 7nat }),
    when 0 <= i <= s.len()
{
    match chain_end(s, i, n, mul) {
        Some(j) => if op_at(s, j, mul) {
            None
        } else {
            Some(j)
        },
        None => None,
    }
}

/// An expression at `i`.
pub open spec fn expr_end(s: Seq<char>, i: int, n: Node) -> Option<int>
    decreases n, s.len() - i, 8nat,
    when 0 <= i <= s.len()
{
    maximal_end(s, i, n, false)
}

/// A call at `i`: its name, `(`, its arguments, `)`, then its children. The
/// call's span ends where its text does, before the whitespace after it.
pub open spec fn call_end(s: Seq<char>, i: int, n: Node) -> Option<int>
    decreases n, s.len() - i, 0nat,
    when 0 <= i <= s.len()
    via call_end_decreases
{
    match n.expr {
        Expr::Call(c) => {
            let e = ident_end(s, i);
            if call_at(s, i) && n.pos.start == i && c.name@ == s.subrange(i, e) {
                match ws_end(s, e + 1) {
                    Some(k) => match args_end(s, k, c.args@, Seq::empty(), false) {
                        Some(q) => match children_end(s, q + 1, c.body@) {
                            Some(x) => if n.pos.end == x {
                                ws_end(s, x)
                            } else {
                                None
                            },
                            None => None,
                        },
                        None => None,
                    },
                    None => None,
                }
            } else {
                None
            }
        },
        _ => None,
    }
}

#[via_fn]
proof fn call_end_decreases(s: Seq<char>, i: int, n: Node) {
    if let Expr::Call(c) = n.expr {
        assert(decreases_to!(n => c.args@));
        assert(decreases_to!(n => c.body@));
    }
}

/// The arguments at `k` up to the closing parenthesis, whose position is given:
/// each is `name = expr` where a binding starts, else an expression, and they
/// are separated by commas, with one more comma allowed at the end. `names` are
/// the names given before, and `named` tells whether a named argument came
/// before: a name may not repeat, and no positional argument may follow a named one.
pub open spec fn args_end(
    s: Seq<char>,
    k: int,
    args: Seq<(Option<String>, Arc<Node>)>,
    names: Seq<Seq<char>>,
    named: bool,
) -> Option<int>
    decreases args, s.len() - k, 0nat,
    when 0 <= k <= s.len()
    via args_end_decreases
{
    if args.len() == 0 {
        if at(s, k, ')') {
            Some(k)
        } else {
            None
        }
    } else {
        let z = if binding_at(s, k) {
            let ie = ident_end(s, k);
            match args[0].0 {
                Some(name) => if name@ == s.subrange(k, ie) && !names.contains(name@) {
                    match ws_end(s, ws_end(s, ie)->Some_0 + 1) {
                        Some(y) => expr_end(s, y, *args[0].1),
                        None => None,
                    }
                } else {
                    None
                },
                None => None,
            }
        } else if args[0].0 is None && !named {
            expr_end(s, k, *args[0].1)
        } else {
            None
        };
        let names2 = match args[0].0 {
            Some(name) => names.push(name@),
            None => names,
        };
        match z {
            Some(z) => if at(s, z, ',') {
                match ws_end(s, z + 1) {
                    Some(k2) => args_end(s, k2, args.drop_first(), names2, named || args[0].0 is Some),
                    None => None,
                }
            } else if args.len() == 1 && at(s, z, ')') {
                Some(z)
            } else {
                None
            },
            None => None,
        }
    }
}

#[via_fn]
proof fn args_end_decreases(
    s: Seq<char>,
    k: int,
    args: Seq<(Option<String>, Arc<Node>)>,
    names: Seq<Seq<char>>,
    named: bool,
) {
    if args.len() > 0 {
        assert(decreases_to!(args => args[0]));
        assert(decreases_to!(args => args.subrange(1, args.len() as int)));
        assert(args.drop_first() == args.subrange(1, args.len() as int));
    }
}

/// The children of a call whose argument list ends just before `x`: a block,
/// a single call, or none. Gives where the call's text ends.
pub open spec fn children_end(s: Seq<char>, x: int, body: Seq<Arc<Node>>) -> Option<int>
    decreases body, s.len() - x, 1nat,
    when 0 <= x <= s.len()
    via children_end_decreases
{
    match ws_end(s, x) {
        Some(t) => if at(s, t, '{') {
            match ws_end(s, t + 1) {
                Some(a) => match stmts_end(s, a, body, true) {
                    Some(b) => Some(b + 1),
                    None => None,
                },
                None => None,
            }
        } else if call_at(s, t) {
            if body.len() == 1 && call_end(s, t, *body[0]) is Some {
                Some(body[0].pos.end as int)
            } else {
                None
            }
        } else if body.len() == 0 {
            Some(x)
        } else {
            None
        },
        None => None,
    }
}

#[via_fn]
proof fn children_end_decreases(s: Seq<char>, x: int, body: Seq<Arc<Node>>) {
    lemma_ws_end_bounds(s, x);
    if let Some(t) = ws_end(s, x) {
        lemma_ws_end_bounds(s, t + 1);
    }
    if body.len() > 0 {
        assert(decreases_to!(body => body[0]));
    }
}

/// The statements of a body at `a`, up to the end of the body (a closing brace
/// when `in_block`, else the end of the source), whose position is given. A
/// binding `name = expr;` holds the statements after it as its body; an
/// expression is followed by `;`, or is a call statement, or is the last
/// statement of the body and is returned.
pub open spec fn stmts_end(s: Seq<char>, a: int, b: Seq<Arc<Node>>, in_block: bool) -> Option<int>
    decreases b, s.len() - a, 0nat,
    when 0 <= a <= s.len()
    via stmts_end_decreases
{
    if body_end_at(s, a, in_block) {
        if b.len() == 0 {
            Some(a)
        } else {
            None
        }
    } else if a >= s.len() || b.len() == 0 {
        None
    } else if binding_at(s, a) {
        match b[0].expr {
            Expr::Let(l) => {
                let ie = ident_end(s, a);
                if b.len() == 1 && l.name@ == s.subrange(a, ie) && b[0].pos.start == a {
                    match ws_end(s, ws_end(s, ie)->Some_0 + 1) {
                        Some(y) => match expr_end(s, y, *l.value) {
                            Some(z) => if at(s, z, ';') && b[0].pos.end == z {
                                match semis_end(s, z) {
                                    Some(a2) => stmts_end(s, a2, l.body@, in_block),
                                    None => None,
                                }
                            } else {
                                None
                            },
                            None => None,
                        },
                        None => None,
                    }
                } else {
                    None
                }
            },
            _ => None,
        }
    } else {
        match b[0].expr {
            Expr::Return(inner) => match expr_end(s, a, *inner) {
                Some(z) => if b.len() == 1 && !at(s, z, ';') && !call_statement(s, a, *inner)
                    && body_end_at(s, z, in_block) && b[0].pos == inner.pos {
                    Some(z)
                } else {
                    None
                },
                None => None,
            },
            Expr::Let(_) => None,
            _ => match expr_end(s, a, *b[0]) {
                Some(z) => if at(s, z, ';') {
                    match semis_end(s, z) {
                        Some(a2) => stmts_end(s, a2, b.drop_first(), in_block),
                        None => None,
                    }
                } else if call_statement(s, a, *b[0]) {
                    stmts_end(s, z, b.drop_first(), in_block)
                } else {
                    None
                },
                None => None,
            },
        }
    }
}

#[via_fn]
proof fn stmts_end_decreases(s: Seq<char>, a: int, b: Seq<Arc<Node>>, in_block: bool) {
    if b.len() > 0 {
        assert(decreases_to!(b => b[0]));
        assert(decreases_to!(b => b.subrange(1, b.len() as int)));
        assert(b.drop_first() == b.subrange(1, b.len() as int));
    }
}

/// A whole script: whitespace, then the statements of a body up to the end.
pub open spec fn script_ok(s: Seq<char>, b: Seq<Arc<Node>>) -> bool {
    ws_end(s, 0) matches Some(a) && (stmts_end(s, a, b, false) == Some(s.len() as int))
}

/// Recognizers: where the text of each construct that starts at a position
/// ends, read from the source alone (for expressions, with whether the text
/// is a call statement).
/// A primary expression at `i`.
pub open spec fn rec_primary(s: Seq<char>, i: int) -> Option<(int, bool)>
    decreases s.len() - i, 1nat,
    when 0 <= i <= s.len()
{
    if call_at(s, i) {
        match rec_call(s, i) {
            Some((x, j)) => Some((j, x > 0 && at(s, x - 1, '}'))),
            None => None,
        }
    } else if ident_at(s, i) {
        match ws_end(s, ident_end(s, i)) {
            Some(j) => Some((j, false)),
            None => None,
        }
    } else if at(s, i, '(') {
        match ws_end(s, i + 1) {
            Some(k) => if i < k <= s.len() {
                match rec_expr(s, k) {
                    Some((m, _)) => if at(s, m, ')') {
                        match ws_end(s, m + 1) {
                            Some(j) => Some((j, false)),
                            None => None,
                        }
                    } else {
                        None
                    },
                    None => None,
                }
            } else {
                None
            },
            None => None,
        }
    } else {
        match literal_shape(s, i) {
            Some(l) => if literal_value(s, l) is Some {
                match ws_end(s, l.exp_end) {
                    Some(j) => Some((j, false)),
                    None => None,
                }
            } else {
                None
            },
            None => None,
        }
    }
}

/// An operand of a chain at `i`.
pub open spec fn rec_operand(s: Seq<char>, i: int, mul: bool) -> Option<(int, bool)>
    decreases s.len() - i, (if mul { 2nat } else { 5nat }),
    when 0 <= i <= s.len()
{
    if mul {
        rec_primary(s, i)
    } else {
        rec_maximal(s, i, true)
    }
}

/// The rest of a chain whose operands so far end at `j`; `f` tells whether
/// the text so far is a call statement.
pub open spec fn rec_chain_from(s: Seq<char>, j: int, mul: bool, f: bool) -> Option<(int, bool)>
    decreases s.len() - j, 0nat,
    when 0 <= j <= s.len()
{
    if op_at(s, j, mul) {
        match ws_end(s, j + 1) {
            Some(k) => if j < k <= s.len() {
                match rec_operand(s, k, mul) {
                    Some((o, _)) => if k < o <= s.len() {
                        rec_chain_from(s, o, mul, false)
                    } else {
                        None
                    },
                    None => None,
                }
            } else {
                None
            },
            None => None,
        }
    } else {
        Some((j, f))
    }
}

/// A maximal chain at `i`.
pub open spec fn rec_maximal(s: Seq<char>, i: int, mul: bool) -> Option<(int, bool)>
    decreases s.len() - i, (if mul { 4nat } else { 7nat }),
    when 0 <= i <= s.len()
{
    match rec_operand(s, i, mul) {
        Some((o, f)) => if i < o <= s.len() {
            rec_chain_from(s, o, mul, f)
        } else {
            None
        },
        None => None,
    }
}

/// An expression at `i`.
pub open spec fn rec_expr(s: Seq<char>, i: int) -> Option<(int, bool)>
    decreases s.len() - i, 8nat,
    when 0 <= i <= s.len()
{
    rec_maximal(s, i, false)
}

/// A call at `i`: where its text ends, and where the whitespace after it does.
pub open spec fn rec_call(s: Seq<char>, i: int) -> Option<(int, int)>
    decreases s.len() - i, 0nat,
    when 0 <= i <= s.len()
{
    if call_at(s, i) {
        match ws_end(s, ident_end(s, i) + 1) {
            Some(k) => if i < k <= s.len() {
                match rec_args(s, k, Seq::empty(), false) {
                    Some(q) => if k <= q < s.len() {
                        match rec_children(s, q + 1) {
                            Some(x) => match ws_end(s, x) {
                                Some(j) => Some((x, j)),
                                None => None,
                            },
                            None => None,
                        }
                    } else {
                        None
                    },
                    None => None,
                }
            } else {
                None
            },
            None => None,
        }
    } else {
        None
    }
}

/// The arguments at `k`, up to the closing parenthesis.
pub open spec fn rec_args(s: Seq<char>, k: int, names: Seq<Seq<char>>, named: bool) -> Option<int>
    decreases s.len() - k, 9nat,
    when 0 <= k <= s.len()
{
    if at(s, k, ')') {
        Some(k)
    } else {
        let z = if binding_at(s, k) {
            let name = s.subrange(k, ident_end(s, k));
            if names.contains(name) {
                None
            } else {
                match ws_end(s, ws_end(s, ident_end(s, k))->Some_0 + 1) {
                    Some(y) => if k < y <= s.len() {
                        rec_expr(s, y)
                    } else {
                        None
                    },
                    None => None,
                }
            }
        } else if named {
            None
        } else {
            rec_expr(s, k)
        };
        let names2 = if binding_at(s, k) { names.push(s.subrange(k, ident_end(s, k))) } else { names };
        match z {
            Some((z, _)) => if at(s, z, ',') {
                match ws_end(s, z + 1) {
                    Some(k2) => if k < k2 <= s.len() {
                        rec_args(s, k2, names2, named || binding_at(s, k))
                    } else {
                        None
                    },
                    None => None,
                }
            } else if at(s, z, ')') {
                Some(z)
            } else {
                None
            },
            None => None,
        }
    }
}

/// The children of a call whose argument list ends just before `x`.
pub open spec fn rec_children(s: Seq<char>, x: int) -> Option<int>
    decreases s.len() - x, 1nat,
    when 0 <= x <= s.len()
{
    match ws_end(s, x) {
        Some(t) => if x <= t <= s.len() {
            if at(s, t, '{') {
                match ws_end(s, t + 1) {
                    Some(a) => if t < a <= s.len() {
                        match rec_stmts(s, a, true) {
                            Some(b) => Some(b + 1),
                            None => None,
                        }
                    } else {
                        None
                    },
                    None => None,
                }
            } else if call_at(s, t) {
                match rec_call(s, t) {
                    Some((x2, _)) => Some(x2),
                    None => None,
                }
            } else {
                Some(x)
            }
        } else {
            None
        },
        None => None,
    }
}

/// The statements of a body at `a`, up to the end of the body.
pub open spec fn rec_stmts(s: Seq<char>, a: int, in_block: bool) -> Option<int>
    decreases s.len() - a, 10nat,
    when 0 <= a <= s.len()
{
    if body_end_at(s, a, in_block) {
        Some(a)
    } else if a >= s.len() {
        None
    } else if binding_at(s, a) {
        match ws_end(s, ws_end(s, ident_end(s, a))->Some_0 + 1) {
            Some(y) => if a < y <= s.len() {
                match rec_expr(s, y) {
                    Some((z, _)) => if at(s, z, ';') {
                        match semis_end(s, z) {
                            Some(a2) => if a < a2 <= s.len() {
                                rec_stmts(s, a2, in_block)
                            } else {
                                None
                            },
                            None => None,
                        }
                    } else {
                        None
                    },
                    None => None,
                }
            } else {
                None
            },
            None => None,
        }
    } else {
        match rec_expr(s, a) {
            Some((z, f)) => if at(s, z, ';') {
                match semis_end(s, z) {
                    Some(a2) => if a < a2 <= s.len() {
                        rec_stmts(s, a2, in_block)
                    } else {
                        None
                    },
                    None => None,
                }
            } else if f {
                if a < z <= s.len() {
                    rec_stmts(s, z, in_block)
                } else {
                    None
                }
            } else if body_end_at(s, z, in_block) {
                Some(z)
            } else {
                None
            },
            None => None,
        }
    }
}

/// The grammar accepts the whole source `s` as a script.
pub open spec fn script_accepted(s: Seq<char>) -> bool {
    ws_end(s, 0) matches Some(a) && (rec_stmts(s, a, false) == Some(s.len() as int))
}



spec fn deref(a: Arc<Node>) -> Node {
    *a
}

spec fn let_of(a: Arc<Node>) -> crate::ast::LetExpr {
    a.expr->Let_0
}

spec fn return_of(a: Arc<Node>) -> Arc<Node> {
    a.expr->Return_0
}

spec fn call_of(n: Node) -> crate::ast::CallExpr {
    n.expr->Call_0
}

proof fn lemma_semis_forward(s: Seq<char>, z: int)
    requires
        0 <= z < s.len(),
        at(s, z, ';'),
    ensures
        semis_end(s, z) matches Some(w) ==> z < w <= s.len(),
    decreases s.len() - z,
{
    lemma_ws_end_bounds(s, z + 1);
    if let Some(w) = ws_end(s, z + 1) {
        if at(s, w, ';') {
            lemma_semis_forward(s, w);
        }
    }
}

proof fn lemma_nothing_at_close(s: Seq<char>, k: int)
    requires
        0 <= k < s.len(),
        s[k] == ')' || s[k] == '}' || s[k] == ';',
    ensures
        rec_primary(s, k) is None,
        rec_expr(s, k) is None,
{
    assert(literal_shape(s, k) is None);
    assert(rec_operand(s, k, true) is None);
    assert(rec_maximal(s, k, true) is None);
    assert(rec_operand(s, k, false) is None);
    assert(rec_maximal(s, k, false) is None);
}

/// A primary the checks accept is one the recognizer accepts, with the same end.
pub proof fn lemma_primary_recognized(s: Seq<char>, i: int, n: Node)
    requires
        0 <= i <= s.len(),
        primary_end(s, i, n) is Some,
    ensures
        rec_primary(s, i) == Some((primary_end(s, i, n)->Some_0, call_statement(s, i, n))),
        i < primary_end(s, i, n)->Some_0 <= s.len(),
    decreases n, s.len() - i, 1nat,
{
    if call_at(s, i) {
        lemma_call_recognized(s, i, n);
        lemma_ident_bounds(s, i);
        let e = ident_end(s, i);
        assert(call_of(n).name@ == s.subrange(i, e));
        assert(call_of(n).name@[0] == s[i]);
        assert(!is_mul_op(s[i]) && !is_add_op(s[i]));
    } else if ident_at(s, i) {
        lemma_ident_bounds(s, i);
        lemma_ws_end_bounds(s, ident_end(s, i));
    } else if at(s, i, '(') {
        lemma_ws_end_bounds(s, i + 1);
        let k = ws_end(s, i + 1)->Some_0;
        lemma_expr_recognized(s, k, n);
        let m = expr_end(s, k, n)->Some_0;
        lemma_ws_end_bounds(s, m + 1);
    } else {
        let l = literal_shape(s, i)->Some_0;
        crate::lexer::lemma_literal_shape_bounds(s, i);
        lemma_ws_end_bounds(s, l.exp_end);
    }
}

proof fn lemma_ident_bounds(s: Seq<char>, i: int)
    requires
        0 <= i <= s.len(),
    ensures
        i <= ident_end(s, i) <= s.len(),
        i < s.len() && is_ident_start(s[i]) ==> i < ident_end(s, i),
    decreases s.len() - i,
{
    if i < s.len() && crate::lexer::is_ident_char(s[i]) {
        lemma_ident_bounds(s, i + 1);
    }
}

/// An expression the checks accept is one the recognizer accepts, with the same end.
pub proof fn lemma_expr_recognized(s: Seq<char>, i: int, n: Node)
    requires
        0 <= i <= s.len(),
        expr_end(s, i, n) is Some,
    ensures
        rec_expr(s, i) == Some((expr_end(s, i, n)->Some_0, call_statement(s, i, n))),
        i < expr_end(s, i, n)->Some_0 <= s.len(),
    decreases n, s.len() - i, 8nat,
{
    assert(expr_end(s, i, n) == maximal_end(s, i, n, false));
    lemma_maximal_recognized(s, i, n, false);
}

/// A chain the checks accept lies on the recognizer's path through the chain.
pub proof fn lemma_chain_recognized(s: Seq<char>, i: int, n: Node, mul: bool)
    requires
        0 <= i <= s.len(),
        chain_end(s, i, n, mul) is Some,
    ensures
        rec_maximal(s, i, mul) == rec_chain_from(s, chain_end(s, i, n, mul)->Some_0, mul, call_statement(s, i, n)),
        i < chain_end(s, i, n, mul)->Some_0 <= s.len(),
    decreases n, s.len() - i, (if mul { 3nat } else { 6nat }),
{
    if binop_of(n, mul) && n.pos.start == i {
        let c = call_of(n);
        let left = deref(c.args@[0].1);
        let right = deref(c.args@[1].1);
        assert(decreases_to!(n => c.args@[0].1));
        assert(decreases_to!(n => c.args@[1].1));
        lemma_chain_recognized(s, i, left, mul);
        let m = chain_end(s, i, left, mul)->Some_0;
        lemma_ws_end_bounds(s, m + 1);
        let k = ws_end(s, m + 1)->Some_0;
        lemma_operand_recognized(s, k, right, mul);
    } else {
        lemma_operand_recognized(s, i, n, mul);
    }
}

pub proof fn lemma_operand_recognized(s: Seq<char>, i: int, n: Node, mul: bool)
    requires
        0 <= i <= s.len(),
        operand_end(s, i, n, mul) is Some,
    ensures
        rec_operand(s, i, mul) == Some((operand_end(s, i, n, mul)->Some_0, call_statement(s, i, n))),
        i < operand_end(s, i, n, mul)->Some_0 <= s.len(),
    decreases n, s.len() - i, (if mul { 2nat } else { 5nat }),
{
    if mul {
        lemma_primary_recognized(s, i, n);
    } else {
        lemma_maximal_recognized(s, i, n, true);
    }
}

/// A maximal chain the checks accept is one the recognizer accepts, with the same end.
pub proof fn lemma_maximal_recognized(s: Seq<char>, i: int, n: Node, mul: bool)
    requires
        0 <= i <= s.len(),
        maximal_end(s, i, n, mul) is Some,
    ensures
        rec_maximal(s, i, mul) == Some((maximal_end(s, i, n, mul)->Some_0, call_statement(s, i, n))),
        i < maximal_end(s, i, n, mul)->Some_0 <= s.len(),
    decreases n, s.len() - i, (if mul { 4nat } else { 7nat }),
{
    lemma_chain_recognized(s, i, n, mul);
}

/// A call the checks accept is one the recognizer accepts, with the same ends.
pub proof fn lemma_call_recognized(s: Seq<char>, i: int, n: Node)
    requires
        0 <= i <= s.len(),
        call_end(s, i, n) is Some,
    ensures
        rec_call(s, i) == Some((n.pos.end as int, call_end(s, i, n)->Some_0)),
        i < n.pos.end <= call_end(s, i, n)->Some_0 <= s.len(),
    decreases n, s.len() - i, 0nat,
{
    let c = call_of(n);
    assert(decreases_to!(n => c.args@));
    assert(decreases_to!(n => c.body@));
    let e = ident_end(s, i);
    lemma_ident_bounds(s, i);
    lemma_ws_end_bounds(s, e + 1);
    let k = ws_end(s, e + 1)->Some_0;
    lemma_args_recognized(s, k, c.args@, Seq::empty(), false);
    let q = args_end(s, k, c.args@, Seq::empty(), false)->Some_0;
    lemma_children_recognized(s, q + 1, c.body@);
    lemma_ws_end_bounds(s, n.pos.end as int);
}

pub proof fn lemma_args_recognized(
    s: Seq<char>,
    k: int,
    args: Seq<(Option<String>, Arc<Node>)>,
    names: Seq<Seq<char>>,
    named: bool,
)
    requires
        0 <= k <= s.len(),
        args_end(s, k, args, names, named) is Some,
    ensures
        rec_args(s, k, names, named) == args_end(s, k, args, names, named),
        k <= args_end(s, k, args, names, named)->Some_0 < s.len(),
        at(s, args_end(s, k, args, names, named)->Some_0, ')'),
    decreases args, s.len() - k, 0nat,
{
    if args.len() > 0 {
        assert(decreases_to!(args => args[0]));
        assert(decreases_to!(args => args.subrange(1, args.len() as int)));
        assert(args.drop_first() == args.subrange(1, args.len() as int));
        lemma_ident_bounds(s, k);
        let z = if binding_at(s, k) {
            let ie = ident_end(s, k);
            lemma_ws_end_bounds(s, ie);
            let x = ws_end(s, ie)->Some_0;
            lemma_ws_end_bounds(s, x + 1);
            let y = ws_end(s, x + 1)->Some_0;
            lemma_expr_recognized(s, y, deref(args[0].1));
            expr_end(s, y, deref(args[0].1))->Some_0
        } else {
            lemma_expr_recognized(s, k, deref(args[0].1));
            expr_end(s, k, deref(args[0].1))->Some_0
        };
        if at(s, k, ')') {
            lemma_nothing_at_close(s, k);
            if binding_at(s, k) {
                assert(!ident_at(s, k));
            }
        }
        if at(s, z, ',') {
            lemma_ws_end_bounds(s, z + 1);
            let k2 = ws_end(s, z + 1)->Some_0;
            let names2 = match args[0].0 {
                Some(name) => names.push(name@),
                None => names,
            };
            lemma_args_recognized(s, k2, args.drop_first(), names2, named || args[0].0 is Some);
        }
    }
}

pub proof fn lemma_children_recognized(s: Seq<char>, x: int, body: Seq<Arc<Node>>)
    requires
        0 <= x <= s.len(),
        children_end(s, x, body) is Some,
    ensures
        rec_children(s, x) == children_end(s, x, body),
        x <= children_end(s, x, body)->Some_0 <= s.len(),
    decreases body, s.len() - x, 1nat,
{
    lemma_ws_end_bounds(s, x);
    let t = ws_end(s, x)->Some_0;
    if at(s, t, '{') {
        lemma_ws_end_bounds(s, t + 1);
        let a = ws_end(s, t + 1)->Some_0;
        lemma_stmts_recognized(s, a, body, true);
    } else if call_at(s, t) {
        assert(decreases_to!(body => body[0]));
        lemma_call_recognized(s, t, deref(body[0]));
    }
}

/// Statements the checks accept are statements the recognizer accepts, with the same end.
#[verifier::rlimit(80)]
pub proof fn lemma_stmts_recognized(s: Seq<char>, a: int, b: Seq<Arc<Node>>, in_block: bool)
    requires
        0 <= a <= s.len(),
        stmts_end(s, a, b, in_block) is Some,
    ensures
        rec_stmts(s, a, in_block) == stmts_end(s, a, b, in_block),
        a <= stmts_end(s, a, b, in_block)->Some_0 <= s.len(),
        in_block ==> at(s, stmts_end(s, a, b, in_block)->Some_0, '}'),
    decreases b, s.len() - a, 0nat,
{
    if !body_end_at(s, a, in_block) {
        assert(decreases_to!(b => b[0]));
        assert(decreases_to!(b => b.subrange(1, b.len() as int)));
        assert(b.drop_first() == b.subrange(1, b.len() as int));
        if binding_at(s, a) {
            let l = let_of(b[0]);
            assert(decreases_to!(b[0] => l.value));
            assert(decreases_to!(b[0] => l.body@));
            let ie = ident_end(s, a);
            lemma_ident_bounds(s, a);
            lemma_ws_end_bounds(s, ie);
            let x = ws_end(s, ie)->Some_0;
            lemma_ws_end_bounds(s, x + 1);
            let y = ws_end(s, x + 1)->Some_0;
            lemma_expr_recognized(s, y, deref(l.value));
            let z = expr_end(s, y, deref(l.value))->Some_0;
            lemma_semis_forward(s, z);
            let a2 = semis_end(s, z)->Some_0;
            lemma_stmts_recognized(s, a2, l.body@, in_block);
        } else if deref(b[0]).expr is Return {
            let inner = return_of(b[0]);
            assert(decreases_to!(b[0] => inner));
            lemma_expr_recognized(s, a, deref(inner));
        } else {
            lemma_expr_recognized(s, a, deref(b[0]));
            let z = expr_end(s, a, deref(b[0]))->Some_0;
            if at(s, z, ';') {
                lemma_semis_forward(s, z);
                let a2 = semis_end(s, z)->Some_0;
                lemma_stmts_recognized(s, a2, b.drop_first(), in_block);
            } else {
                lemma_stmts_recognized(s, z, b.drop_first(), in_block);
            }
        }
    }
}

/// Every script the grammar checks accept for some tree is one the recognizer accepts.
pub proof fn lemma_script_recognized(s: Seq<char>, b: Seq<Arc<Node>>)
    requires
        script_ok(s, b),
    ensures
        script_accepted(s),
{
    lemma_ws_end_bounds(s, 0);
    let a = ws_end(s, 0)->Some_0;
    lemma_stmts_recognized(s, a, b, false);
}

} // verus!

//! The meaning of a Mini-ShellScript program, as spec functions.
//!
//! A program runs against a host that executes shell commands, fetches URLs,
//! sleeps, reports cancellation and does number arithmetic. The semantics is
//! a function of the interpreter state, the program, a budget of steps
//! (`fuel`: one unit per loop iteration and per call of a user function) and
//! the sequence of the host's replies, in the order in which they are asked
//! for. It yields the new state, the result, the budget left, the replies not
//! read, and the requests made of the host, in order.

use vstd::prelude::*;
use crate::ast::{SExpr, SStmt, SFunction};
use crate::text::{join, decimal, split_whitespace, starts_with_seq, parse_u64_spec, digits_value, lemma_decimal_round_trip};
use vstd::utf8::encode_utf8;
use crate::json::json_reformat;

verus! {

/// The four arithmetic operators, which the host computes on number text.
#[derive(Clone, Copy, Debug, PartialEq, Eq, Structural)]
pub enum ArithOp {
    Add,
    Sub,
    Mul,
    Div,
}

/// What the host's arithmetic reports: the result's text, that an operand is
/// not a number, or a division by zero.
pub enum SNumeric {
    Value(Seq<char>),
    NotNumbers,
    DivisionByZero,
}

/// A request made of the host.
pub enum Request {
    Command(Seq<char>),
    HttpGet(Seq<char>),
    ReadFile(Seq<char>),
    WriteFile(Seq<char>, Seq<char>),
    Sleep(u64),
    CancelCheck,
    ClearCancel,
    Arith(ArithOp, Seq<char>, Seq<char>),
}

/// A reply of the host. Requests to sleep and to clear the cancellation flag
/// get none.
pub enum Reply {
    Text(Result<Seq<char>, Seq<char>>),
    Flag(bool),
    Number(SNumeric),
}

/// The interpreter's state: the variable scopes (innermost last), the user
/// functions, and the call stack of function names.
pub struct SState {
    pub vars: Seq<Map<Seq<char>, Seq<char>>>,
    pub funcs: Map<Seq<char>, SFunction>,
    pub stack: Seq<Seq<char>>,
}

/// The result of a step of the semantics.
pub struct Out<T> {
    pub st: SState,
    pub val: T,
    pub fuel: nat,
    pub rs: Seq<Reply>,
    pub reqs: Seq<Request>,
}

/// The outcome of a block: a `return` marker that ends it early, or the
/// non-empty outputs of its statements.
pub enum Block {
    Returned(Seq<char>),
    Lines(Seq<Seq<char>>),
}

pub type SRes = Result<Seq<char>, Seq<char>>;

pub open spec fn clamp(a: nat, b: nat) -> nat {
    if a <= b { a } else { b }
}

/// The remaining replies after the first is read.
pub open spec fn rest(rs: Seq<Reply>) -> Seq<Reply> {
    if rs.len() > 0 { rs.drop_first() } else { rs }
}

pub open spec fn text_reply(rs: Seq<Reply>) -> SRes {
    if rs.len() > 0 {
        match rs[0] {
            Reply::Text(t) => t,
            _ => Err(Seq::empty()),
        }
    } else {
        Err(Seq::empty())
    }
}

pub open spec fn flag_reply(rs: Seq<Reply>) -> bool {
    if rs.len() > 0 {
        match rs[0] {
            Reply::Flag(b) => b,
            _ => false,
        }
    } else {
        false
    }
}

pub open spec fn number_reply(rs: Seq<Reply>) -> SNumeric {
    if rs.len() > 0 {
        match rs[0] {
            Reply::Number(n) => n,
            _ => SNumeric::NotNumbers,
        }
    } else {
        SNumeric::NotNumbers
    }
}

/// The marker with which a `return` statement's value travels outwards.
pub open spec fn return_marker() -> Seq<char> {
    "__RETURN__:"@
}

/// The statement result that top-level output leaves out.
pub open spec fn no_stdout() -> Seq<char> {
    "__NO_STDOUT__"@
}

pub open spec fn interrupted() -> Seq<char> {
    "Interrupted"@
}

pub open spec fn newline() -> Seq<char> {
    "\n"@
}

pub open spec fn space() -> Seq<char> {
    " "@
}

/// A condition holds unless its value is empty, `false` or `0`.
pub open spec fn truthy(v: Seq<char>) -> bool {
    v.len() > 0 && v != "false"@ && v != "0"@
}

pub open spec fn bool_text(b: bool) -> Seq<char> {
    if b { "true"@ } else { "false"@ }
}

/// The value of a variable: that of its innermost scope that has it.
pub open spec fn lookup(vars: Seq<Map<Seq<char>, Seq<char>>>, n: Seq<char>) -> Option<Seq<char>>
    decreases vars.len(),
{
    if vars.len() == 0 {
        None
    } else if vars.last().dom().contains(n) {
        Some(vars.last()[n])
    } else {
        lookup(vars.drop_last(), n)
    }
}

/// Sets a variable in the innermost scope.
pub open spec fn set_var(st: SState, n: Seq<char>, v: Seq<char>) -> SState {
    if st.vars.len() > 0 {
        SState { vars: st.vars.update(st.vars.len() - 1, st.vars.last().insert(n, v)), ..st }
    } else {
        st
    }
}

/// Sets a variable in the outermost scope.
pub open spec fn set_env(st: SState, n: Seq<char>, v: Seq<char>) -> SState {
    if st.vars.len() > 0 {
        SState { vars: st.vars.update(0, st.vars[0].insert(n, v)), ..st }
    } else {
        st
    }
}

/// The scope of a call: each parameter bound to its argument, or to the
/// empty string where there is none; a later parameter of the same name wins.
pub open spec fn bind_params(params: Seq<Seq<char>>, vals: Seq<Seq<char>>) -> Map<Seq<char>, Seq<char>>
    decreases params.len(),
{
    if params.len() == 0 {
        Map::empty()
    } else {
        let i = params.len() - 1;
        bind_params(params.drop_last(), vals).insert(
            params[i],
            if i < vals.len() { vals[i] } else { Seq::empty() },
        )
    }
}

pub open spec fn enter(st: SState, name: Seq<char>, f: SFunction, vals: Seq<Seq<char>>) -> SState {
    SState { vars: st.vars.push(bind_params(f.params, vals)), funcs: st.funcs, stack: st.stack.push(name) }
}

pub open spec fn leave(st: SState) -> SState {
    SState {
        vars: if st.vars.len() > 0 { st.vars.drop_last() } else { st.vars },
        funcs: st.funcs,
        stack: if st.stack.len() > 0 { st.stack.drop_last() } else { st.stack },
    }
}

/// The value of a finished block.
pub open spec fn block_value(b: Block) -> Seq<char> {
    match b {
        Block::Returned(v) => v,
        Block::Lines(ls) => join(ls, newline()),
    }
}

/// The operator that the host computes for `op`, if any.
pub open spec fn arith_op(op: Seq<char>) -> Option<ArithOp> {
    if op == "+"@ {
        Some(ArithOp::Add)
    } else if op == "-"@ {
        Some(ArithOp::Sub)
    } else if op == "*"@ {
        Some(ArithOp::Mul)
    } else if op == "/"@ {
        Some(ArithOp::Div)
    } else {
        None
    }
}

/// The value of `l op r`, given what the host's arithmetic reported.
pub open spec fn binop(op: Seq<char>, l: Seq<char>, r: Seq<char>, n: SNumeric) -> SRes {
    if op == "=="@ {
        Ok(bool_text(l == r))
    } else if op == "!="@ {
        Ok(bool_text(l != r))
    } else if op == "+"@ {
        match n {
            SNumeric::Value(v) => Ok(v),
            _ => Ok(l + r),
        }
    } else if op == "-"@ || op == "*"@ {
        match n {
            SNumeric::Value(v) => Ok(v),
            _ => Err("Invalid number"@),
        }
    } else if op == "/"@ {
        match n {
            SNumeric::Value(v) => Ok(v),
            SNumeric::DivisionByZero => Err("Division by zero"@),
            SNumeric::NotNumbers => Err("Invalid number"@),
        }
    } else {
        Err("Unsupported operator: "@ + op)
    }
}

/// The result of a built-in function on evaluated arguments.
pub open spec fn builtin(st: SState, name: Seq<char>, vals: Seq<Seq<char>>, fuel: nat, rs: Seq<Reply>, reqs: Seq<Request>) -> Out<SRes> {
    if name == "print"@ {
        Out { st, val: Ok(join(vals, space())), fuel, rs, reqs }
    } else if name == "len"@ {
        Out {
            st,
            val: Ok(if vals.len() > 0 { decimal((encode_utf8(vals[0]).len() as usize) as nat) } else { "0"@ }),
            fuel,
            rs,
            reqs,
        }
    } else if name == "sleep"@ {
        if vals.len() > 0 && parse_u64_spec(vals[0]) is Some {
            Out { st, val: Ok(Seq::empty()), fuel, rs, reqs: reqs.push(Request::Sleep(parse_u64_spec(vals[0])->0)) }
        } else {
            Out { st, val: Ok(Seq::empty()), fuel, rs, reqs }
        }
    } else if name == "http_get"@ {
        if vals.len() > 0 {
            Out { st, val: text_reply(rs), fuel, rs: rest(rs), reqs: reqs.push(Request::HttpGet(vals[0])) }
        } else {
            Out { st, val: Err("http_get requires a URL"@), fuel, rs, reqs }
        }
    } else if name == "read_file"@ {
        if vals.len() > 0 {
            Out { st, val: text_reply(rs), fuel, rs: rest(rs), reqs: reqs.push(Request::ReadFile(vals[0])) }
        } else {
            Out { st, val: Err("read_file requires a path"@), fuel, rs, reqs }
        }
    } else if name == "write_file"@ {
        if vals.len() > 1 {
            Out { st, val: text_reply(rs), fuel, rs: rest(rs), reqs: reqs.push(Request::WriteFile(vals[0], vals[1])) }
        } else {
            Out { st, val: Err("write_file requires path and content"@), fuel, rs, reqs }
        }
    } else if name == "json_parse"@ {
        if vals.len() > 0 {
            Out {
                st,
                val: match json_reformat(vals[0]) {
                    Ok(t) => Ok(t),
                    Err(m) => Err("JSON Parse Error: "@ + m),
                },
                fuel,
                rs,
                reqs,
            }
        } else {
            Out { st, val: Err("json_parse requires a string"@), fuel, rs, reqs }
        }
    } else {
        Out { st, val: Err("Unknown call: "@ + name), fuel, rs, reqs }
    }
}

pub open spec fn size_expr(e: SExpr) -> nat
    decreases e,
{
    match e {
        SExpr::BinaryOp(l, _, r) => 1 + size_expr(*l) + size_expr(*r),
        SExpr::Call(_, args) => 1 + size_exprs(args),
        _ => 1,
    }
}

pub open spec fn size_exprs(es: Seq<SExpr>) -> nat
    decreases es,
{
    if es.len() == 0 {
        1
    } else {
        1 + size_expr(es[0]) + size_exprs(es.subrange(1, es.len() as int))
    }
}

pub open spec fn size_stmt(s: SStmt) -> nat
    decreases s,
{
    match s {
        SStmt::Assignment(_, e) => 1 + size_expr(e),
        SStmt::If(c, t, e) => 1 + size_expr(c) + size_stmts(t) + match e {
            Some(b) => size_stmts(b),
            None => 0,
        },
        SStmt::While(c, b) => 1 + size_expr(c) + size_stmts(b),
        SStmt::For(_, l, b) => 1 + size_expr(l) + size_stmts(b),
        SStmt::CommandCall(_, args) => 1 + size_exprs(args),
        SStmt::FunctionDef(_, _, _) => 1,
        SStmt::Return(e) => 1 + size_expr(e),
        SStmt::Expression(e) => 1 + size_expr(e),
    }
}

pub open spec fn size_stmts(ss: Seq<SStmt>) -> nat
    decreases ss,
{
    if ss.len() == 0 {
        1
    } else {
        1 + size_stmt(ss[0]) + size_stmts(ss.subrange(1, ss.len() as int))
    }
}

/// The value of an expression.
pub open spec fn eval(st: SState, e: SExpr, fuel: nat, rs: Seq<Reply>) -> Out<SRes>
    decreases fuel, size_expr(e),
{
    match e {
        SExpr::Literal(s) => Out { st, val: Ok(s), fuel, rs, reqs: Seq::empty() },
        SExpr::Variable(n) => Out {
            st,
            val: match lookup(st.vars, n) {
                Some(v) => Ok(v),
                None => Err("Undefined variable: $"@ + n),
            },
            fuel,
            rs,
            reqs: Seq::empty(),
        },
        SExpr::CommandSub(c) => Out {
            st,
            val: text_reply(rs),
            fuel,
            rs: rest(rs),
            reqs: seq![Request::Command(c)],
        },
        SExpr::BinaryOp(l, op, r) => {
            let a = eval(st, *l, fuel, rs);
            match a.val {
                Err(m) => Out { st: a.st, val: Err(m), fuel: a.fuel, rs: a.rs, reqs: a.reqs },
                Ok(lv) => {
                    let b = eval(a.st, *r, clamp(a.fuel, fuel), a.rs);
                    let reqs = a.reqs + b.reqs;
                    match b.val {
                        Err(m) => Out { st: b.st, val: Err(m), fuel: b.fuel, rs: b.rs, reqs },
                        Ok(rv) => match arith_op(op) {
                            Some(k) => Out {
                                st: b.st,
                                val: binop(op, lv, rv, number_reply(b.rs)),
                                fuel: b.fuel,
                                rs: rest(b.rs),
                                reqs: reqs.push(Request::Arith(k, lv, rv)),
                            },
                            None => Out {
                                st: b.st,
                                val: binop(op, lv, rv, SNumeric::NotNumbers),
                                fuel: b.fuel,
                                rs: b.rs,
                                reqs,
                            },
                        },
                    }
                },
            }
        },
        SExpr::Call(name, args) => {
            let a = eval_args(st, args, fuel, rs);
            match a.val {
                Err(m) => Out { st: a.st, val: Err(m), fuel: a.fuel, rs: a.rs, reqs: a.reqs },
                Ok(vals) => if a.st.funcs.dom().contains(name) {
                    let f1 = clamp(a.fuel, fuel);
                    if f1 == 0 {
                        Out { st: a.st, val: Err(interrupted()), fuel: 0, rs: a.rs, reqs: a.reqs }
                    } else {
                        let st1 = enter(a.st, name, a.st.funcs[name], vals);
                        let b = run_body(st1, a.st.funcs[name].body, (f1 - 1) as nat, a.rs);
                        let reqs = a.reqs + b.reqs;
                        match b.val {
                            Err(m) => Out { st: b.st, val: Err(m), fuel: b.fuel, rs: b.rs, reqs },
                            Ok((lines, ret)) => Out {
                                st: leave(b.st),
                                val: Ok(if ret.len() > 0 { ret } else { join(lines, newline()) }),
                                fuel: b.fuel,
                                rs: b.rs,
                                reqs,
                            },
                        }
                    }
                } else {
                    builtin(a.st, name, vals, a.fuel, a.rs, a.reqs)
                },
            }
        },
    }
}

/// The values of expressions evaluated left to right; the first error stops.
pub open spec fn eval_args(st: SState, args: Seq<SExpr>, fuel: nat, rs: Seq<Reply>) -> Out<
    Result<Seq<Seq<char>>, Seq<char>>,
>
    decreases fuel, size_exprs(args),
{
    if args.len() == 0 {
        Out { st, val: Ok(Seq::empty()), fuel, rs, reqs: Seq::empty() }
    } else {
        let a = eval(st, args[0], fuel, rs);
        match a.val {
            Err(m) => Out { st: a.st, val: Err(m), fuel: a.fuel, rs: a.rs, reqs: a.reqs },
            Ok(v) => {
                let b = eval_args(a.st, args.subrange(1, args.len() as int), clamp(a.fuel, fuel), a.rs);
                Out {
                    st: b.st,
                    val: match b.val {
                        Ok(vs) => Ok(seq![v] + vs),
                        Err(m) => Err(m),
                    },
                    fuel: b.fuel,
                    rs: b.rs,
                    reqs: a.reqs + b.reqs,
                }
            },
        }
    }
}

/// The body of a called function: each statement preceded by a cancellation
/// check; a `return` ends it with its value. Yields the non-empty outputs
/// before the `return` and the returned value (empty without one).
pub open spec fn run_body(st: SState, ss: Seq<SStmt>, fuel: nat, rs: Seq<Reply>) -> Out<
    Result<(Seq<Seq<char>>, Seq<char>), Seq<char>>,
>
    decreases fuel, size_stmts(ss),
{
    if ss.len() == 0 {
        Out { st, val: Ok((Seq::empty(), Seq::empty())), fuel, rs, reqs: Seq::empty() }
    } else if flag_reply(rs) {
        Out { st, val: Err(interrupted()), fuel, rs: rest(rs), reqs: seq![Request::CancelCheck] }
    } else {
        let a = exec_stmt(st, ss[0], fuel, rest(rs));
        let reqs = seq![Request::CancelCheck] + a.reqs;
        match a.val {
            Err(m) => Out { st: a.st, val: Err(m), fuel: a.fuel, rs: a.rs, reqs },
            Ok(v) => if starts_with_seq(v, return_marker()) {
                Out {
                    st: a.st,
                    val: Ok((Seq::empty(), v.skip(return_marker().len() as int))),
                    fuel: a.fuel,
                    rs: a.rs,
                    reqs,
                }
            } else {
                let b = run_body(a.st, ss.subrange(1, ss.len() as int), clamp(a.fuel, fuel), a.rs);
                Out {
                    st: b.st,
                    val: match b.val {
                        Ok((lines, ret)) => Ok(
                            (if v.len() > 0 { seq![v] + lines } else { lines }, ret),
                        ),
                        Err(m) => Err(m),
                    },
                    fuel: b.fuel,
                    rs: b.rs,
                    reqs: reqs + b.reqs,
                }
            },
        }
    }
}

/// A block of statements: the first error stops it, and so does a result
/// that carries the `return` marker.
pub open spec fn exec_block(st: SState, ss: Seq<SStmt>, fuel: nat, rs: Seq<Reply>) -> Out<
    Result<Block, Seq<char>>,
>
    decreases fuel, size_stmts(ss),
{
    if ss.len() == 0 {
        Out { st, val: Ok(Block::Lines(Seq::empty())), fuel, rs, reqs: Seq::empty() }
    } else {
        let a = exec_stmt(st, ss[0], fuel, rs);
        match a.val {
            Err(m) => Out { st: a.st, val: Err(m), fuel: a.fuel, rs: a.rs, reqs: a.reqs },
            Ok(v) => if starts_with_seq(v, return_marker()) {
                Out { st: a.st, val: Ok(Block::Returned(v)), fuel: a.fuel, rs: a.rs, reqs: a.reqs }
            } else {
                let b = exec_block(a.st, ss.subrange(1, ss.len() as int), clamp(a.fuel, fuel), a.rs);
                Out {
                    st: b.st,
                    val: match b.val {
                        Ok(Block::Lines(ls)) => Ok(
                            Block::Lines(if v.len() > 0 { seq![v] + ls } else { ls }),
                        ),
                        other => other,
                    },
                    fuel: b.fuel,
                    rs: b.rs,
                    reqs: a.reqs + b.reqs,
                }
            },
        }
    }
}

/// Joins the outcome of one round of a loop with that of the rounds after it.
pub open spec fn then_lines(ls: Seq<Seq<char>>, later: Result<Block, Seq<char>>) -> Result<
    Block,
    Seq<char>,
> {
    match later {
        Ok(Block::Lines(more)) => Ok(Block::Lines(ls + more)),
        other => other,
    }
}

/// A `while` loop: while the condition holds, a cancellation check and a
/// round of the body, at one unit of fuel per round.
pub open spec fn while_loop(st: SState, c: SExpr, body: Seq<SStmt>, fuel: nat, rs: Seq<Reply>) -> Out<
    Result<Block, Seq<char>>,
>
    decreases fuel, size_expr(c) + size_stmts(body),
{
    let a = eval(st, c, fuel, rs);
    match a.val {
        Err(m) => Out { st: a.st, val: Err(m), fuel: a.fuel, rs: a.rs, reqs: a.reqs },
        Ok(v) => if !truthy(v) {
            Out { st: a.st, val: Ok(Block::Lines(Seq::empty())), fuel: a.fuel, rs: a.rs, reqs: a.reqs }
        } else {
            let f1 = clamp(a.fuel, fuel);
            if f1 == 0 {
                Out { st: a.st, val: Err(interrupted()), fuel: 0, rs: a.rs, reqs: a.reqs }
            } else if flag_reply(a.rs) {
                Out {
                    st: a.st,
                    val: Err(interrupted()),
                    fuel: f1,
                    rs: rest(a.rs),
                    reqs: a.reqs.push(Request::CancelCheck),
                }
            } else {
                let reqs = a.reqs.push(Request::CancelCheck);
                let b = exec_block(a.st, body, (f1 - 1) as nat, rest(a.rs));
                match b.val {
                    Ok(Block::Lines(ls)) => {
                        let w = while_loop(b.st, c, body, clamp(b.fuel, (f1 - 1) as nat), b.rs);
                        Out {
                            st: w.st,
                            val: then_lines(ls, w.val),
                            fuel: w.fuel,
                            rs: w.rs,
                            reqs: reqs + b.reqs + w.reqs,
                        }
                    },
                    other => Out { st: b.st, val: other, fuel: b.fuel, rs: b.rs, reqs: reqs + b.reqs },
                }
            }
        },
    }
}

/// A `for` loop over words: for each, a cancellation check, the binding of
/// the loop variable and a round of the body, at one unit of fuel per round.
pub open spec fn for_loop(
    st: SState,
    var: Seq<char>,
    items: Seq<Seq<char>>,
    body: Seq<SStmt>,
    fuel: nat,
    rs: Seq<Reply>,
) -> Out<Result<Block, Seq<char>>>
    decreases fuel, size_stmts(body),
{
    if items.len() == 0 {
        Out { st, val: Ok(Block::Lines(Seq::empty())), fuel, rs, reqs: Seq::empty() }
    } else if fuel == 0 {
        Out { st, val: Err(interrupted()), fuel, rs, reqs: Seq::empty() }
    } else if flag_reply(rs) {
        Out { st, val: Err(interrupted()), fuel, rs: rest(rs), reqs: seq![Request::CancelCheck] }
    } else {
        let b = exec_block(set_var(st, var, items[0]), body, (fuel - 1) as nat, rest(rs));
        let reqs = seq![Request::CancelCheck] + b.reqs;
        match b.val {
            Ok(Block::Lines(ls)) => {
                let w = for_loop(
                    b.st,
                    var,
                    items.subrange(1, items.len() as int),
                    body,
                    clamp(b.fuel, (fuel - 1) as nat),
                    b.rs,
                );
                Out { st: w.st, val: then_lines(ls, w.val), fuel: w.fuel, rs: w.rs, reqs: reqs + w.reqs }
            },
            other => Out { st: b.st, val: other, fuel: b.fuel, rs: b.rs, reqs },
        }
    }
}

/// The value of a block outcome as a statement result.
pub open spec fn block_result(r: Result<Block, Seq<char>>) -> SRes {
    match r {
        Ok(b) => Ok(block_value(b)),
        Err(m) => Err(m),
    }
}

/// The result of a statement.
pub open spec fn exec_stmt(st: SState, s: SStmt, fuel: nat, rs: Seq<Reply>) -> Out<SRes>
    decreases fuel, size_stmt(s),
{
    match s {
        SStmt::Assignment(n, e) => {
            let a = eval(st, e, fuel, rs);
            match a.val {
                Ok(v) => Out { st: set_var(a.st, n, v), val: Ok(Seq::empty()), fuel: a.fuel, rs: a.rs, reqs: a.reqs },
                Err(m) => Out { st: a.st, val: Err(m), fuel: a.fuel, rs: a.rs, reqs: a.reqs },
            }
        },
        SStmt::CommandCall(name, args) => {
            let a = eval_args(st, args, fuel, rs);
            match a.val {
                Ok(vals) => Out {
                    st: a.st,
                    val: text_reply(a.rs),
                    fuel: a.fuel,
                    rs: rest(a.rs),
                    reqs: a.reqs.push(Request::Command(name + space() + join(vals, space()))),
                },
                Err(m) => Out { st: a.st, val: Err(m), fuel: a.fuel, rs: a.rs, reqs: a.reqs },
            }
        },
        SStmt::If(c, t, e) => {
            let a = eval(st, c, fuel, rs);
            match a.val {
                Err(m) => Out { st: a.st, val: Err(m), fuel: a.fuel, rs: a.rs, reqs: a.reqs },
                Ok(v) => if truthy(v) {
                    let b = exec_block(a.st, t, clamp(a.fuel, fuel), a.rs);
                    Out { st: b.st, val: block_result(b.val), fuel: b.fuel, rs: b.rs, reqs: a.reqs + b.reqs }
                } else {
                    match e {
                        Some(eb) => {
                            let b = exec_block(a.st, eb, clamp(a.fuel, fuel), a.rs);
                            Out { st: b.st, val: block_result(b.val), fuel: b.fuel, rs: b.rs, reqs: a.reqs + b.reqs }
                        },
                        None => Out { st: a.st, val: Ok(Seq::empty()), fuel: a.fuel, rs: a.rs, reqs: a.reqs },
                    }
                },
            }
        },
        SStmt::While(c, b) => {
            let w = while_loop(st, c, b, fuel, rs);
            Out { st: w.st, val: block_result(w.val), fuel: w.fuel, rs: w.rs, reqs: w.reqs }
        },
        SStmt::For(var, l, b) => {
            let a = eval(st, l, fuel, rs);
            match a.val {
                Err(m) => Out { st: a.st, val: Err(m), fuel: a.fuel, rs: a.rs, reqs: a.reqs },
                Ok(lv) => {
                    let w = for_loop(a.st, var, split_whitespace(lv), b, clamp(a.fuel, fuel), a.rs);
                    Out { st: w.st, val: block_result(w.val), fuel: w.fuel, rs: w.rs, reqs: a.reqs + w.reqs }
                },
            }
        },
        SStmt::FunctionDef(n, ps, b) => Out {
            st: SState { funcs: st.funcs.insert(n, SFunction { params: ps, body: b }), ..st },
            val: Ok(Seq::empty()),
            fuel,
            rs,
            reqs: Seq::empty(),
        },
        SStmt::Return(e) => {
            let a = eval(st, e, fuel, rs);
            match a.val {
                Ok(v) => Out { st: a.st, val: Ok(return_marker() + v), fuel: a.fuel, rs: a.rs, reqs: a.reqs },
                Err(m) => Out { st: a.st, val: Err(m), fuel: a.fuel, rs: a.rs, reqs: a.reqs },
            }
        },
        SStmt::Expression(e) => eval(st, e, fuel, rs),
    }
}

/// The lines `  i: frame` of a stack trace, innermost frame first.
pub open spec fn trace_frames(frames: Seq<Seq<char>>, i: nat) -> Seq<char>
    decreases frames.len(),
{
    if frames.len() == 0 {
        Seq::empty()
    } else {
        "  "@ + decimal(i) + ": "@ + frames.last() + newline() + trace_frames(frames.drop_last(), i + 1)
    }
}

/// The report of a runtime error: its message, the line and column of the
/// top-level statement in which it arose, and the call stack.
pub open spec fn error_report(msg: Seq<char>, stack: Seq<Seq<char>>, place: (nat, nat)) -> Seq<char> {
    "Runtime Error: "@ + msg + newline() + "At line "@ + decimal(place.0) + ", column "@ + decimal(place.1)
        + newline() + "Stack trace:"@ + newline() + trace_frames(stack, 0)
}

/// The top level: before each statement a cancellation check; the non-empty
/// results other than the no-output marker are collected; an error stops
/// everything with its report.
pub open spec fn run_stmts(st: SState, ss: Seq<SStmt>, places: Seq<(nat, nat)>, fuel: nat, rs: Seq<Reply>, out: Seq<Seq<char>>) -> Out<Seq<char>>
    decreases ss.len(),
{
    if ss.len() == 0 {
        Out { st, val: join(out, newline()), fuel, rs, reqs: Seq::empty() }
    } else if flag_reply(rs) {
        Out { st, val: interrupted(), fuel, rs: rest(rs), reqs: seq![Request::CancelCheck] }
    } else {
        let a = exec_stmt(st, ss[0], fuel, rest(rs));
        match a.val {
            Err(m) => Out {
                st: a.st,
                val: error_report(m, a.st.stack, places[0]),
                fuel: a.fuel,
                rs: a.rs,
                reqs: seq![Request::CancelCheck] + a.reqs,
            },
            Ok(v) => {
                let out2 = if v != no_stdout() && v.len() > 0 { out.push(v) } else { out };
                let b = run_stmts(a.st, ss.subrange(1, ss.len() as int), places.subrange(1, places.len() as int), clamp(a.fuel, fuel), a.rs, out2);
                Out { st: b.st, val: b.val, fuel: b.fuel, rs: b.rs, reqs: seq![Request::CancelCheck] + a.reqs + b.reqs }
            },
        }
    }
}

/// Running a program: the cancellation flag is cleared, the program is read
/// (reading never fails) and its statements run at the top level.
pub open spec fn run(st: SState, stmts: Seq<SStmt>, places: Seq<(nat, nat)>, fuel: nat, rs: Seq<Reply>) -> Out<Seq<char>> {
    let r = run_stmts(st, stmts, places, fuel, rs, Seq::empty());
    Out { st: r.st, val: r.val, fuel: r.fuel, rs: r.rs, reqs: seq![Request::ClearCancel] + r.reqs }
}


/// A variable set in the innermost scope reads back as what was set.
pub proof fn lemma_set_then_lookup(st: SState, n: Seq<char>, v: Seq<char>)
    requires
        st.vars.len() > 0,
    ensures
        lookup(set_var(st, n, v).vars, n) == Some(v),
{
    let vs = set_var(st, n, v).vars;
    assert(vs.last() == st.vars.last().insert(n, v));
}

/// An assignment of a literal, then a read of the variable, gives back the
/// literal, whatever the replies and the fuel.
pub proof fn lemma_assign_then_read(st: SState, n: Seq<char>, v: Seq<char>, fuel: nat, rs: Seq<Reply>, fuel2: nat, rs2: Seq<Reply>)
    requires
        st.vars.len() > 0,
    ensures
        eval(exec_stmt(st, SStmt::Assignment(n, SExpr::Literal(v)), fuel, rs).st, SExpr::Variable(n), fuel2, rs2).val
            == Ok::<Seq<char>, Seq<char>>(v),
{
    lemma_set_then_lookup(st, n, v);
}

/// Leaving a call restores the scopes and the call stack from before it.
pub proof fn lemma_enter_then_leave(st: SState, name: Seq<char>, f: SFunction, vals: Seq<Seq<char>>)
    ensures
        leave(enter(st, name, f, vals)) == st,
{
    assert(st.vars.push(bind_params(f.params, vals)).drop_last() =~= st.vars);
    assert(st.stack.push(name).drop_last() =~= st.stack);
}

/// The value `bind_params` gives parameter `j`.
proof fn lemma_bind_params_at(ps: Seq<Seq<char>>, vals: Seq<Seq<char>>, j: int)
    requires
        ps.no_duplicates(),
        0 <= j < ps.len(),
    ensures
        bind_params(ps, vals).dom().contains(ps[j]),
        bind_params(ps, vals)[ps[j]] == if j < vals.len() { vals[j] } else { Seq::<char>::empty() },
    decreases ps.len(),
{
    let i = ps.len() - 1;
    if j < i {
        let d = ps.drop_last();
        assert(d.no_duplicates()) by {
            assert forall|x: int, y: int| 0 <= x < d.len() && 0 <= y < d.len() && x != y implies d[x] != d[y] by {
                assert(d[x] == ps[x] && d[y] == ps[y]);
            }
        }
        assert(d[j] == ps[j]);
        lemma_bind_params_at(d, vals, j);
        assert(ps[j] != ps[i]);
    }
}

/// In a call of a user function whose parameters are distinct, parameter
/// `i` reads, in the new scope, as argument `i`, or as the empty string
/// where the call gives fewer arguments.
pub proof fn lemma_call_binds_params(st: SState, name: Seq<char>, f: SFunction, vals: Seq<Seq<char>>, i: int)
    requires
        f.params.no_duplicates(),
        0 <= i < f.params.len(),
    ensures
        lookup(enter(st, name, f, vals).vars, f.params[i]) == Some(if i < vals.len() { vals[i] } else { Seq::<char>::empty() }),
{
    lemma_bind_params_at(f.params, vals, i);
    assert(enter(st, name, f, vals).vars.last() == bind_params(f.params, vals));
}

/// A condition whose value is empty, `false` or `0` does not hold: `if`
/// runs its `else` block, or nothing where it has none.
pub proof fn lemma_if_false_condition(st: SState, c: Seq<char>, t: Seq<SStmt>, e: Option<Seq<SStmt>>, fuel: nat, rs: Seq<Reply>)
    requires
        c == Seq::<char>::empty() || c == "false"@ || c == "0"@,
    ensures
        exec_stmt(st, SStmt::If(SExpr::Literal(c), t, e), fuel, rs) == (match e {
            Some(eb) => {
                let b = exec_block(st, eb, fuel, rs);
                Out { st: b.st, val: block_result(b.val), fuel: b.fuel, rs: b.rs, reqs: b.reqs }
            },
            None => Out { st, val: Ok::<Seq<char>, Seq<char>>(Seq::empty()), fuel, rs, reqs: Seq::<Request>::empty() },
        }),
{
    reveal_strlit("false");
    reveal_strlit("0");
    let a = eval(st, SExpr::Literal(c), fuel, rs);
    assert(a.val == Ok::<Seq<char>, Seq<char>>(c));
    assert(!truthy(c));
    if let Some(eb) = e {
        let b = exec_block(st, eb, fuel, rs);
        assert(a.reqs + b.reqs =~= b.reqs);
    }
}

/// Any other value of a condition holds: `if` runs its first block.
pub proof fn lemma_if_true_condition(st: SState, c: Seq<char>, t: Seq<SStmt>, e: Option<Seq<SStmt>>, fuel: nat, rs: Seq<Reply>)
    requires
        c != Seq::<char>::empty() && c != "false"@ && c != "0"@,
    ensures
        ({
            let b = exec_block(st, t, fuel, rs);
            exec_stmt(st, SStmt::If(SExpr::Literal(c), t, e), fuel, rs)
                == (Out { st: b.st, val: block_result(b.val), fuel: b.fuel, rs: b.rs, reqs: b.reqs })
        }),
{
    let b = exec_block(st, t, fuel, rs);
    let a = eval(st, SExpr::Literal(c), fuel, rs);
    assert(a.val == Ok::<Seq<char>, Seq<char>>(c));
    assert(a.fuel == fuel && a.st == st && a.rs == rs);
    assert(c.len() > 0) by {
        if c.len() == 0 {
            assert(c =~= Seq::<char>::empty());
        }
    }
    assert(truthy(c));
    assert(a.reqs + b.reqs =~= b.reqs);
}

/// A `while` whose condition is empty, `false` or `0` runs no round: it
/// changes nothing, asks the host nothing and prints nothing.
pub proof fn lemma_while_false_condition(st: SState, c: Seq<char>, body: Seq<SStmt>, fuel: nat, rs: Seq<Reply>)
    requires
        c == Seq::<char>::empty() || c == "false"@ || c == "0"@,
    ensures
        exec_stmt(st, SStmt::While(SExpr::Literal(c), body), fuel, rs)
            == (Out { st, val: Ok::<Seq<char>, Seq<char>>(Seq::empty()), fuel, rs, reqs: Seq::<Request>::empty() }),
{
    reveal_strlit("false");
    reveal_strlit("0");
    let a = eval(st, SExpr::Literal(c), fuel, rs);
    assert(a.val == Ok::<Seq<char>, Seq<char>>(c));
    assert(!truthy(c));
    let w = while_loop(st, SExpr::Literal(c), body, fuel, rs);
    assert(w.val == Ok::<Block, Seq<char>>(Block::Lines(Seq::empty())));
    assert(w.st == st && w.fuel == fuel && w.rs == rs && w.reqs == Seq::<Request>::empty());
    assert(block_value(Block::Lines(Seq::empty())) =~= Seq::<char>::empty());
}

proof fn lemma_bind_params_dom(ps: Seq<Seq<char>>, vals: Seq<Seq<char>>, x: Seq<char>)
    requires
        !ps.contains(x),
    ensures
        !bind_params(ps, vals).dom().contains(x),
    decreases ps.len(),
{
    if ps.len() > 0 {
        let d = ps.drop_last();
        assert(!d.contains(x)) by {
            if d.contains(x) {
                let k = choose|k: int| 0 <= k < d.len() && d[k] == x;
                assert(ps[k] == x);
            }
        }
        lemma_bind_params_dom(d, vals, x);
        assert(ps[ps.len() - 1] != x);
    }
}

/// Scope is dynamic: inside a call, a variable that is not a parameter of
/// the function reads as it does in the caller.
pub proof fn lemma_call_sees_caller(st: SState, name: Seq<char>, f: SFunction, vals: Seq<Seq<char>>, x: Seq<char>)
    requires
        !f.params.contains(x),
    ensures
        lookup(enter(st, name, f, vals).vars, x) == lookup(st.vars, x),
{
    lemma_bind_params_dom(f.params, vals, x);
    let vs = enter(st, name, f, vals).vars;
    assert(vs.drop_last() =~= st.vars);
}

/// `==` and `!=` compare texts exactly, whatever the host's arithmetic
/// reported: each gives `true` or `false`, `==` gives `true` exactly when
/// the texts are equal, and `!=` exactly when they differ.
pub proof fn lemma_compare(l: Seq<char>, r: Seq<char>, n: SNumeric)
    ensures
        binop("=="@, l, r, n) == Ok::<Seq<char>, Seq<char>>("true"@) || binop("=="@, l, r, n) == Ok::<Seq<char>, Seq<char>>("false"@),
        binop("!="@, l, r, n) == Ok::<Seq<char>, Seq<char>>("true"@) || binop("!="@, l, r, n) == Ok::<Seq<char>, Seq<char>>("false"@),
        (binop("=="@, l, r, n) == Ok::<Seq<char>, Seq<char>>("true"@)) == (l == r),
        (binop("!="@, l, r, n) == Ok::<Seq<char>, Seq<char>>("true"@)) == (l != r),
{
    reveal_strlit("==");
    reveal_strlit("!=");
    reveal_strlit("true");
    reveal_strlit("false");
    assert("!="@ != "=="@) by {
        assert("!="@[0] != "=="@[0]);
    }
    assert("true"@ != "false"@) by {
        assert("true"@.len() != "false"@.len());
    }
}

/// `+` on operands that are not both numbers joins the texts; `-`, `*` and
/// `/` on them fail.
pub proof fn lemma_plus_joins_texts(l: Seq<char>, r: Seq<char>)
    ensures
        binop("+"@, l, r, SNumeric::NotNumbers) == Ok::<Seq<char>, Seq<char>>(l + r),
        binop("-"@, l, r, SNumeric::NotNumbers) == Err::<Seq<char>, Seq<char>>("Invalid number"@),
        binop("*"@, l, r, SNumeric::NotNumbers) == Err::<Seq<char>, Seq<char>>("Invalid number"@),
        binop("/"@, l, r, SNumeric::NotNumbers) == Err::<Seq<char>, Seq<char>>("Invalid number"@),
{
    reveal_strlit("==");
    reveal_strlit("!=");
    reveal_strlit("+");
    reveal_strlit("-");
    reveal_strlit("*");
    reveal_strlit("/");
    assert(forall|o: Seq<char>| o.len() == 1 ==> o != "=="@ && o != "!="@);
    assert("-"@ != "+"@) by {
        assert("-"@[0] != "+"@[0]);
    }
    assert("*"@ != "+"@ && "*"@ != "-"@) by {
        assert("*"@[0] != "+"@[0] && "*"@[0] != "-"@[0]);
    }
    assert("/"@ != "+"@ && "/"@ != "-"@ && "/"@ != "*"@) by {
        assert("/"@[0] != "+"@[0] && "/"@[0] != "-"@[0] && "/"@[0] != "*"@[0]);
    }
}

/// `print` of one value gives that value, and of two values the values
/// with one space between them; it asks the host nothing.
pub proof fn lemma_print(st: SState, a: Seq<char>, b: Seq<char>, fuel: nat, rs: Seq<Reply>, reqs: Seq<Request>)
    ensures
        builtin(st, "print"@, seq![a], fuel, rs, reqs) == (Out { st, val: Ok::<Seq<char>, Seq<char>>(a), fuel, rs, reqs }),
        builtin(st, "print"@, seq![a, b], fuel, rs, reqs) == (Out { st, val: Ok::<Seq<char>, Seq<char>>(a + " "@ + b), fuel, rs, reqs }),
{
    assert(seq![a, b].drop_last() =~= seq![a]);
}

/// `len` gives, in decimal, the number of UTF-8 bytes of its argument
/// (`0` without one).
pub proof fn lemma_len(st: SState, v: Seq<char>, fuel: nat, rs: Seq<Reply>, reqs: Seq<Request>)
    requires
        encode_utf8(v).len() <= usize::MAX,
    ensures
        builtin(st, "len"@, seq![v], fuel, rs, reqs).val == Ok::<Seq<char>, Seq<char>>(decimal(encode_utf8(v).len())),
        digits_value(decimal(encode_utf8(v).len())) == encode_utf8(v).len(),
        builtin(st, "len"@, Seq::empty(), fuel, rs, reqs).val == Ok::<Seq<char>, Seq<char>>("0"@),
{
    reveal_strlit("print");
    reveal_strlit("len");
    assert("len"@ != "print"@) by {
        assert("len"@.len() != "print"@.len());
    }
    lemma_decimal_round_trip(encode_utf8(v).len());
}

/// A `for` loop binds its variable to each word in turn: with an empty
/// body and no request to stop, it prints nothing, spends one unit of fuel
/// per word, and leaves the variable holding the last word.
pub proof fn lemma_for_binds_each(st: SState, var: Seq<char>, items: Seq<Seq<char>>, fuel: nat, rs: Seq<Reply>)
    requires
        st.vars.len() > 0,
        items.len() > 0,
        fuel >= items.len(),
        forall|k: int| 0 <= k < rs.len() ==> rs[k] == Reply::Flag(false),
    ensures
        ({
            let o = for_loop(st, var, items, Seq::empty(), fuel, rs);
            &&& o.val == Ok::<Block, Seq<char>>(Block::Lines(Seq::empty()))
            &&& o.fuel == fuel - items.len()
            &&& lookup(o.st.vars, var) == Some(items.last())
        }),
    decreases items.len(),
{
    assert(!flag_reply(rs));
    let st1 = set_var(st, var, items[0]);
    let b = exec_block(st1, Seq::empty(), (fuel - 1) as nat, rest(rs));
    assert(b.st == st1 && b.fuel == fuel - 1 && b.rs == rest(rs));
    assert(b.val == Ok::<Block, Seq<char>>(Block::Lines(Seq::empty())));
    let tail = items.subrange(1, items.len() as int);
    assert(forall|k: int| 0 <= k < rest(rs).len() ==> rest(rs)[k] == rs[k + 1]);
    assert(st1.vars.len() == st.vars.len());
    let w = for_loop(st1, var, tail, Seq::empty(), (fuel - 1) as nat, rest(rs));
    let o = for_loop(st, var, items, Seq::empty(), fuel, rs);
    assert(clamp((fuel - 1) as nat, (fuel - 1) as nat) == fuel - 1);
    assert(o.st == w.st && o.fuel == w.fuel);
    assert(o.val == then_lines(Seq::empty(), w.val));
    if tail.len() == 0 {
        lemma_set_then_lookup(st, var, items[0]);
        assert(items.last() == items[0]);
        assert(Seq::<Seq<char>>::empty() + Seq::<Seq<char>>::empty() =~= Seq::<Seq<char>>::empty());
    } else {
        lemma_for_binds_each(st1, var, tail, (fuel - 1) as nat, rest(rs));
        assert(tail.last() == items.last());
        assert(Seq::<Seq<char>>::empty() + Seq::<Seq<char>>::empty() =~= Seq::<Seq<char>>::empty());
    }
}

} // verus!

//! How the results of consecutive steps combine: each lemma takes what the
//! semantics gives for the parts of a construct, for every continuation of
//! the reply stream, and yields what it gives for the whole.

use vstd::prelude::*;
use crate::ast::{SExpr, SStmt, SFunction};
use crate::text::{join, starts_with_seq, split_whitespace};
use crate::semantics::{SNumeric, Request, Reply, SState, Out, Block, SRes, ArithOp};
use crate::semantics::{eval, eval_args, exec_stmt, exec_block, run_body, while_loop, for_loop};
use crate::semantics::{rest, set_var, enter, leave, builtin, arith_op, binop};
use crate::semantics::{return_marker, interrupted, newline, space, truthy, then_lines, block_result};
use crate::semantics::{run_stmts, run, no_stdout, error_report};

verus! {

/// `eval` of `e` from `st` with `fuel`, given the replies `rs`, gives the
/// state `st2`, the value `v` and `fuel2`, asks `qs` and reads exactly `rs`.
pub open spec fn expr_done(st: SState, e: SExpr, fuel: nat, rs: Seq<Reply>, qs: Seq<Request>, st2: SState, v: SRes, fuel2: nat) -> bool {
    forall|f: Seq<Reply>| #[trigger] eval(st, e, fuel, rs + f) == (Out { st: st2, val: v, fuel: fuel2, rs: f, reqs: qs })
}

pub open spec fn args_done(st: SState, a: Seq<SExpr>, fuel: nat, rs: Seq<Reply>, qs: Seq<Request>, st2: SState, v: Result<Seq<Seq<char>>, Seq<char>>, fuel2: nat) -> bool {
    forall|f: Seq<Reply>| #[trigger] eval_args(st, a, fuel, rs + f) == (Out { st: st2, val: v, fuel: fuel2, rs: f, reqs: qs })
}

pub open spec fn stmt_done(st: SState, s: SStmt, fuel: nat, rs: Seq<Reply>, qs: Seq<Request>, st2: SState, v: SRes, fuel2: nat) -> bool {
    forall|f: Seq<Reply>| #[trigger] exec_stmt(st, s, fuel, rs + f) == (Out { st: st2, val: v, fuel: fuel2, rs: f, reqs: qs })
}

pub open spec fn block_done(st: SState, ss: Seq<SStmt>, fuel: nat, rs: Seq<Reply>, qs: Seq<Request>, st2: SState, v: Result<Block, Seq<char>>, fuel2: nat) -> bool {
    forall|f: Seq<Reply>| #[trigger] exec_block(st, ss, fuel, rs + f) == (Out { st: st2, val: v, fuel: fuel2, rs: f, reqs: qs })
}

pub open spec fn body_done(st: SState, ss: Seq<SStmt>, fuel: nat, rs: Seq<Reply>, qs: Seq<Request>, st2: SState, v: Result<(Seq<Seq<char>>, Seq<char>), Seq<char>>, fuel2: nat) -> bool {
    forall|f: Seq<Reply>| #[trigger] run_body(st, ss, fuel, rs + f) == (Out { st: st2, val: v, fuel: fuel2, rs: f, reqs: qs })
}


pub proof fn lemma_then_lines(a: Seq<Seq<char>>, b: Seq<Seq<char>>, x: Result<Block, Seq<char>>)
    ensures
        then_lines(a, then_lines(b, x)) == then_lines(a + b, x),
        then_lines(Seq::empty(), x) == x,
{
    match x {
        Ok(Block::Lines(m)) => {
            assert(a + (b + m) =~= (a + b) + m);
            assert(Seq::<Seq<char>>::empty() + m =~= m);
        },
        _ => {},
    }
}


/// The outcome of earlier loop rounds (`ls`, asking `q`) followed by the
/// remaining rounds `x`.
pub open spec fn wrap(ls: Seq<Seq<char>>, q: Seq<Request>, x: Out<Result<Block, Seq<char>>>) -> Out<Result<Block, Seq<char>>> {
    Out { st: x.st, val: then_lines(ls, x.val), fuel: x.fuel, rs: x.rs, reqs: q + x.reqs }
}


/// A built-in function on `vals`, given the replies `rs`, keeps the state,
/// yields `v`, asks `qs` after whatever was asked before, and reads exactly `rs`.
pub open spec fn builtin_done(st: SState, name: Seq<char>, vals: Seq<Seq<char>>, rs: Seq<Reply>, qs: Seq<Request>, v: SRes) -> bool {
    forall|fl: nat, q0: Seq<Request>, f: Seq<Reply>|
        #[trigger] builtin(st, name, vals, fl, rs + f, q0) == (Out { st, val: v, fuel: fl, rs: f, reqs: q0 + qs })
}

pub proof fn lemma_assoc<T>(a: Seq<T>, b: Seq<T>, c: Seq<T>)
    ensures
        (a + b) + c == a + (b + c),
{
    assert((a + b) + c =~= a + (b + c));
}

pub proof fn lemma_empty_left<T>(a: Seq<T>)
    ensures
        Seq::<T>::empty() + a == a,
        a + Seq::<T>::empty() == a,
{
    assert(Seq::<T>::empty() + a =~= a);
    assert(a + Seq::<T>::empty() =~= a);
}

pub proof fn lemma_rest_one(x: Reply, f: Seq<Reply>)
    ensures
        rest(seq![x] + f) == f,
        (seq![x] + f)[0] == x,
        (seq![x] + f).len() > 0,
{
    assert((seq![x] + f).drop_first() =~= f);
}

// ---- expressions ----

pub proof fn lemma_literal(st: SState, s: Seq<char>, fuel: nat)
    ensures
        expr_done(st, SExpr::Literal(s), fuel, Seq::empty(), Seq::empty(), st, Ok(s), fuel),
{
    assert forall|f: Seq<Reply>| #[trigger] eval(st, SExpr::Literal(s), fuel, Seq::<Reply>::empty() + f)
        == (Out { st, val: Ok::<Seq<char>, Seq<char>>(s), fuel, rs: f, reqs: Seq::<Request>::empty() }) by {
        lemma_empty_left(f);
    }
}

pub proof fn lemma_variable(st: SState, n: Seq<char>, fuel: nat, v: SRes)
    requires
        v == (match crate::semantics::lookup(st.vars, n) {
            Some(x) => Ok(x),
            None => Err("Undefined variable: $"@ + n),
        }),
    ensures
        expr_done(st, SExpr::Variable(n), fuel, Seq::empty(), Seq::empty(), st, v, fuel),
{
    assert forall|f: Seq<Reply>| #[trigger] eval(st, SExpr::Variable(n), fuel, Seq::<Reply>::empty() + f)
        == (Out { st, val: v, fuel, rs: f, reqs: Seq::<Request>::empty() }) by {
        lemma_empty_left(f);
    }
}

pub proof fn lemma_command_sub(st: SState, c: Seq<char>, fuel: nat, t: SRes)
    ensures
        expr_done(st, SExpr::CommandSub(c), fuel, seq![Reply::Text(t)], seq![Request::Command(c)], st, t, fuel),
{
    assert forall|f: Seq<Reply>| #[trigger] eval(st, SExpr::CommandSub(c), fuel, seq![Reply::Text(t)] + f)
        == (Out { st, val: t, fuel, rs: f, reqs: seq![Request::Command(c)] }) by {
        lemma_rest_one(Reply::Text(t), f);
    }
}

pub proof fn lemma_binop_left_err(st0: SState, l: SExpr, op: Seq<char>, r: SExpr, f0: nat, r1: Seq<Reply>, q1: Seq<Request>, st1: SState, m: Seq<char>, f1: nat)
    requires
        expr_done(st0, l, f0, r1, q1, st1, Err(m), f1),
    ensures
        expr_done(st0, SExpr::BinaryOp(Box::new(l), op, Box::new(r)), f0, r1, q1, st1, Err(m), f1),
{
    assert forall|f: Seq<Reply>| #[trigger] eval(st0, SExpr::BinaryOp(Box::new(l), op, Box::new(r)), f0, r1 + f)
        == (Out { st: st1, val: Err::<Seq<char>, Seq<char>>(m), fuel: f1, rs: f, reqs: q1 }) by {
        assert(eval(st0, l, f0, r1 + f).val == Err::<Seq<char>, Seq<char>>(m));
    }
}

pub proof fn lemma_binop_right_err(st0: SState, l: SExpr, op: Seq<char>, r: SExpr, f0: nat, r1: Seq<Reply>, q1: Seq<Request>, st1: SState, lv: Seq<char>, f1: nat, r2: Seq<Reply>, q2: Seq<Request>, st2: SState, m: Seq<char>, f2: nat)
    requires
        expr_done(st0, l, f0, r1, q1, st1, Ok(lv), f1),
        f1 <= f0,
        expr_done(st1, r, f1, r2, q2, st2, Err(m), f2),
    ensures
        expr_done(st0, SExpr::BinaryOp(Box::new(l), op, Box::new(r)), f0, r1 + r2, q1 + q2, st2, Err(m), f2),
{
    assert forall|f: Seq<Reply>| #[trigger] eval(st0, SExpr::BinaryOp(Box::new(l), op, Box::new(r)), f0, (r1 + r2) + f)
        == (Out { st: st2, val: Err::<Seq<char>, Seq<char>>(m), fuel: f2, rs: f, reqs: q1 + q2 }) by {
        lemma_assoc(r1, r2, f);
        assert(eval(st0, l, f0, r1 + (r2 + f)).rs == r2 + f);
        assert(eval(st1, r, f1, r2 + f).rs == f);
    }
}

pub proof fn lemma_binop_plain(st0: SState, l: SExpr, op: Seq<char>, r: SExpr, f0: nat, r1: Seq<Reply>, q1: Seq<Request>, st1: SState, lv: Seq<char>, f1: nat, r2: Seq<Reply>, q2: Seq<Request>, st2: SState, rv: Seq<char>, f2: nat)
    requires
        expr_done(st0, l, f0, r1, q1, st1, Ok(lv), f1),
        f1 <= f0,
        expr_done(st1, r, f1, r2, q2, st2, Ok(rv), f2),
        arith_op(op) is None,
    ensures
        expr_done(st0, SExpr::BinaryOp(Box::new(l), op, Box::new(r)), f0, r1 + r2, q1 + q2, st2, binop(op, lv, rv, SNumeric::NotNumbers), f2),
{
    assert forall|f: Seq<Reply>| #[trigger] eval(st0, SExpr::BinaryOp(Box::new(l), op, Box::new(r)), f0, (r1 + r2) + f)
        == (Out { st: st2, val: binop(op, lv, rv, SNumeric::NotNumbers), fuel: f2, rs: f, reqs: q1 + q2 }) by {
        lemma_assoc(r1, r2, f);
        assert(eval(st0, l, f0, r1 + (r2 + f)).rs == r2 + f);
        assert(eval(st1, r, f1, r2 + f).rs == f);
    }
}

pub proof fn lemma_binop_arith(st0: SState, l: SExpr, op: Seq<char>, r: SExpr, f0: nat, r1: Seq<Reply>, q1: Seq<Request>, st1: SState, lv: Seq<char>, f1: nat, r2: Seq<Reply>, q2: Seq<Request>, st2: SState, rv: Seq<char>, f2: nat, k: ArithOp, n: SNumeric)
    requires
        expr_done(st0, l, f0, r1, q1, st1, Ok(lv), f1),
        f1 <= f0,
        expr_done(st1, r, f1, r2, q2, st2, Ok(rv), f2),
        arith_op(op) == Some(k),
    ensures
        expr_done(st0, SExpr::BinaryOp(Box::new(l), op, Box::new(r)), f0, r1 + r2 + seq![Reply::Number(n)], (q1 + q2).push(Request::Arith(k, lv, rv)), st2, binop(op, lv, rv, n), f2),
{
    let r3 = seq![Reply::Number(n)];
    assert forall|f: Seq<Reply>| #[trigger] eval(st0, SExpr::BinaryOp(Box::new(l), op, Box::new(r)), f0, (r1 + r2 + r3) + f)
        == (Out { st: st2, val: binop(op, lv, rv, n), fuel: f2, rs: f, reqs: (q1 + q2).push(Request::Arith(k, lv, rv)) }) by {
        assert((r1 + r2 + r3) + f =~= r1 + (r2 + (r3 + f)));
        assert(eval(st0, l, f0, r1 + (r2 + (r3 + f))).rs == r2 + (r3 + f));
        assert(eval(st1, r, f1, r2 + (r3 + f)).rs == r3 + f);
        lemma_rest_one(Reply::Number(n), f);
    }
}

// ---- argument lists ----

pub proof fn lemma_args_empty(st: SState, a: Seq<SExpr>, fuel: nat)
    requires
        a.len() == 0,
    ensures
        args_done(st, a, fuel, Seq::empty(), Seq::empty(), st, Ok(Seq::empty()), fuel),
{
    assert forall|f: Seq<Reply>| #[trigger] eval_args(st, a, fuel, Seq::<Reply>::empty() + f)
        == (Out { st, val: Ok::<Seq<Seq<char>>, Seq<char>>(Seq::empty()), fuel, rs: f, reqs: Seq::<Request>::empty() }) by {
        lemma_empty_left(f);
    }
}

pub proof fn lemma_args_head_err(st0: SState, a: Seq<SExpr>, f0: nat, r1: Seq<Reply>, q1: Seq<Request>, st1: SState, m: Seq<char>, f1: nat)
    requires
        a.len() > 0,
        expr_done(st0, a[0], f0, r1, q1, st1, Err(m), f1),
    ensures
        args_done(st0, a, f0, r1, q1, st1, Err(m), f1),
{
    assert forall|f: Seq<Reply>| #[trigger] eval_args(st0, a, f0, r1 + f)
        == (Out { st: st1, val: Err::<Seq<Seq<char>>, Seq<char>>(m), fuel: f1, rs: f, reqs: q1 }) by {
        assert(eval(st0, a[0], f0, r1 + f).val == Err::<Seq<char>, Seq<char>>(m));
    }
}

pub open spec fn cons_vals(v: Seq<char>, x: Result<Seq<Seq<char>>, Seq<char>>) -> Result<Seq<Seq<char>>, Seq<char>> {
    match x {
        Ok(vs) => Ok(seq![v] + vs),
        Err(m) => Err(m),
    }
}

pub proof fn lemma_args_cons(st0: SState, a: Seq<SExpr>, f0: nat, r1: Seq<Reply>, q1: Seq<Request>, st1: SState, v: Seq<char>, f1: nat, r2: Seq<Reply>, q2: Seq<Request>, st2: SState, x: Result<Seq<Seq<char>>, Seq<char>>, f2: nat)
    requires
        a.len() > 0,
        expr_done(st0, a[0], f0, r1, q1, st1, Ok(v), f1),
        f1 <= f0,
        args_done(st1, a.subrange(1, a.len() as int), f1, r2, q2, st2, x, f2),
    ensures
        args_done(st0, a, f0, r1 + r2, q1 + q2, st2, cons_vals(v, x), f2),
{
    assert forall|f: Seq<Reply>| #[trigger] eval_args(st0, a, f0, (r1 + r2) + f)
        == (Out { st: st2, val: cons_vals(v, x), fuel: f2, rs: f, reqs: q1 + q2 }) by {
        lemma_assoc(r1, r2, f);
        assert(eval(st0, a[0], f0, r1 + (r2 + f)).rs == r2 + f);
        assert(eval_args(st1, a.subrange(1, a.len() as int), f1, r2 + f).rs == f);
    }
}

// ---- calls ----

pub proof fn lemma_call_args_err(st0: SState, name: Seq<char>, a: Seq<SExpr>, f0: nat, r1: Seq<Reply>, q1: Seq<Request>, st1: SState, m: Seq<char>, f1: nat)
    requires
        args_done(st0, a, f0, r1, q1, st1, Err(m), f1),
    ensures
        expr_done(st0, SExpr::Call(name, a), f0, r1, q1, st1, Err(m), f1),
{
    assert forall|f: Seq<Reply>| #[trigger] eval(st0, SExpr::Call(name, a), f0, r1 + f)
        == (Out { st: st1, val: Err::<Seq<char>, Seq<char>>(m), fuel: f1, rs: f, reqs: q1 }) by {
        assert(eval_args(st0, a, f0, r1 + f).val == Err::<Seq<Seq<char>>, Seq<char>>(m));
    }
}

pub proof fn lemma_call_no_fuel(st0: SState, name: Seq<char>, a: Seq<SExpr>, f0: nat, r1: Seq<Reply>, q1: Seq<Request>, st1: SState, vals: Seq<Seq<char>>)
    requires
        args_done(st0, a, f0, r1, q1, st1, Ok(vals), 0),
        st1.funcs.dom().contains(name),
    ensures
        expr_done(st0, SExpr::Call(name, a), f0, r1, q1, st1, Err(interrupted()), 0),
{
    assert forall|f: Seq<Reply>| #[trigger] eval(st0, SExpr::Call(name, a), f0, r1 + f)
        == (Out { st: st1, val: Err::<Seq<char>, Seq<char>>(interrupted()), fuel: 0, rs: f, reqs: q1 }) by {
        assert(eval_args(st0, a, f0, r1 + f).val == Ok::<Seq<Seq<char>>, Seq<char>>(vals));
    }
}

pub open spec fn call_state(st3: SState, b: Result<(Seq<Seq<char>>, Seq<char>), Seq<char>>) -> SState {
    match b {
        Ok(_) => leave(st3),
        Err(_) => st3,
    }
}

pub open spec fn call_value(b: Result<(Seq<Seq<char>>, Seq<char>), Seq<char>>) -> SRes {
    match b {
        Ok((lines, ret)) => Ok(if ret.len() > 0 { ret } else { join(lines, newline()) }),
        Err(m) => Err(m),
    }
}

pub proof fn lemma_call_user(st0: SState, name: Seq<char>, a: Seq<SExpr>, f0: nat, r1: Seq<Reply>, q1: Seq<Request>, st1: SState, vals: Seq<Seq<char>>, f1: nat, r2: Seq<Reply>, q2: Seq<Request>, st3: SState, b: Result<(Seq<Seq<char>>, Seq<char>), Seq<char>>, f3: nat)
    requires
        args_done(st0, a, f0, r1, q1, st1, Ok(vals), f1),
        0 < f1 <= f0,
        st1.funcs.dom().contains(name),
        body_done(enter(st1, name, st1.funcs[name], vals), st1.funcs[name].body, (f1 - 1) as nat, r2, q2, st3, b, f3),
    ensures
        expr_done(st0, SExpr::Call(name, a), f0, r1 + r2, q1 + q2, call_state(st3, b), call_value(b), f3),
{
    assert forall|f: Seq<Reply>| #[trigger] eval(st0, SExpr::Call(name, a), f0, (r1 + r2) + f)
        == (Out { st: call_state(st3, b), val: call_value(b), fuel: f3, rs: f, reqs: q1 + q2 }) by {
        lemma_assoc(r1, r2, f);
        assert(eval_args(st0, a, f0, r1 + (r2 + f)).rs == r2 + f);
        assert(run_body(enter(st1, name, st1.funcs[name], vals), st1.funcs[name].body, (f1 - 1) as nat, r2 + f).rs == f);
    }
}

pub proof fn lemma_call_builtin(st0: SState, name: Seq<char>, a: Seq<SExpr>, f0: nat, r1: Seq<Reply>, q1: Seq<Request>, st1: SState, vals: Seq<Seq<char>>, f1: nat, r2: Seq<Reply>, q2: Seq<Request>, v: SRes)
    requires
        args_done(st0, a, f0, r1, q1, st1, Ok(vals), f1),
        !st1.funcs.dom().contains(name),
        builtin_done(st1, name, vals, r2, q2, v),
    ensures
        expr_done(st0, SExpr::Call(name, a), f0, r1 + r2, q1 + q2, st1, v, f1),
{
    assert forall|f: Seq<Reply>| #[trigger] eval(st0, SExpr::Call(name, a), f0, (r1 + r2) + f)
        == (Out { st: st1, val: v, fuel: f1, rs: f, reqs: q1 + q2 }) by {
        lemma_assoc(r1, r2, f);
        assert(eval_args(st0, a, f0, r1 + (r2 + f)).rs == r2 + f);
        assert(builtin(st1, name, vals, f1, r2 + f, q1) == (Out { st: st1, val: v, fuel: f1, rs: f, reqs: q1 + q2 }));
    }
}

// ---- function bodies ----

pub proof fn lemma_body_empty(st: SState, ss: Seq<SStmt>, fuel: nat)
    requires
        ss.len() == 0,
    ensures
        body_done(st, ss, fuel, Seq::empty(), Seq::empty(), st, Ok((Seq::empty(), Seq::empty())), fuel),
{
    assert forall|f: Seq<Reply>| #[trigger] run_body(st, ss, fuel, Seq::<Reply>::empty() + f)
        == (Out { st, val: Ok::<(Seq<Seq<char>>, Seq<char>), Seq<char>>((Seq::empty(), Seq::empty())), fuel, rs: f, reqs: Seq::<Request>::empty() }) by {
        lemma_empty_left(f);
    }
}

pub proof fn lemma_body_cancel(st: SState, ss: Seq<SStmt>, fuel: nat)
    requires
        ss.len() > 0,
    ensures
        body_done(st, ss, fuel, seq![Reply::Flag(true)], seq![Request::CancelCheck], st, Err(interrupted()), fuel),
{
    assert forall|f: Seq<Reply>| #[trigger] run_body(st, ss, fuel, seq![Reply::Flag(true)] + f)
        == (Out { st, val: Err::<(Seq<Seq<char>>, Seq<char>), Seq<char>>(interrupted()), fuel, rs: f, reqs: seq![Request::CancelCheck] }) by {
        lemma_rest_one(Reply::Flag(true), f);
    }
}

pub proof fn lemma_body_stop(st0: SState, ss: Seq<SStmt>, f0: nat, r1: Seq<Reply>, q1: Seq<Request>, st1: SState, v: SRes, f1: nat)
    requires
        ss.len() > 0,
        stmt_done(st0, ss[0], f0, r1, q1, st1, v, f1),
        v is Err || starts_with_seq(v->Ok_0, return_marker()),
    ensures
        body_done(st0, ss, f0, seq![Reply::Flag(false)] + r1, seq![Request::CancelCheck] + q1, st1,
            match v {
                Ok(x) => Ok((Seq::<Seq<char>>::empty(), x.skip(return_marker().len() as int))),
                Err(m) => Err(m),
            }, f1),
{
    let rc = seq![Reply::Flag(false)];
    assert forall|f: Seq<Reply>| #[trigger] run_body(st0, ss, f0, (rc + r1) + f)
        == (Out { st: st1, val: match v {
                Ok(x) => Ok((Seq::<Seq<char>>::empty(), x.skip(return_marker().len() as int))),
                Err(m) => Err(m),
            }, fuel: f1, rs: f, reqs: seq![Request::CancelCheck] + q1 }) by {
        lemma_assoc(rc, r1, f);
        lemma_rest_one(Reply::Flag(false), r1 + f);
        assert(exec_stmt(st0, ss[0], f0, r1 + f).rs == f);
    }
}

pub open spec fn cons_body(v: Seq<char>, x: Result<(Seq<Seq<char>>, Seq<char>), Seq<char>>) -> Result<(Seq<Seq<char>>, Seq<char>), Seq<char>> {
    match x {
        Ok((lines, ret)) => Ok((if v.len() > 0 { seq![v] + lines } else { lines }, ret)),
        Err(m) => Err(m),
    }
}

pub proof fn lemma_body_cons(st0: SState, ss: Seq<SStmt>, f0: nat, r1: Seq<Reply>, q1: Seq<Request>, st1: SState, v: Seq<char>, f1: nat, r2: Seq<Reply>, q2: Seq<Request>, st2: SState, x: Result<(Seq<Seq<char>>, Seq<char>), Seq<char>>, f2: nat)
    requires
        ss.len() > 0,
        stmt_done(st0, ss[0], f0, r1, q1, st1, Ok(v), f1),
        !starts_with_seq(v, return_marker()),
        f1 <= f0,
        body_done(st1, ss.subrange(1, ss.len() as int), f1, r2, q2, st2, x, f2),
    ensures
        body_done(st0, ss, f0, seq![Reply::Flag(false)] + r1 + r2, seq![Request::CancelCheck] + q1 + q2, st2, cons_body(v, x), f2),
{
    let rc = seq![Reply::Flag(false)];
    assert forall|f: Seq<Reply>| #[trigger] run_body(st0, ss, f0, (rc + r1 + r2) + f)
        == (Out { st: st2, val: cons_body(v, x), fuel: f2, rs: f, reqs: seq![Request::CancelCheck] + q1 + q2 }) by {
        assert((rc + r1 + r2) + f =~= rc + (r1 + (r2 + f)));
        lemma_rest_one(Reply::Flag(false), r1 + (r2 + f));
        assert(exec_stmt(st0, ss[0], f0, r1 + (r2 + f)).rs == r2 + f);
        assert(run_body(st1, ss.subrange(1, ss.len() as int), f1, r2 + f).rs == f);
    }
}

// ---- blocks ----

pub proof fn lemma_block_empty(st: SState, ss: Seq<SStmt>, fuel: nat)
    requires
        ss.len() == 0,
    ensures
        block_done(st, ss, fuel, Seq::empty(), Seq::empty(), st, Ok(Block::Lines(Seq::empty())), fuel),
{
    assert forall|f: Seq<Reply>| #[trigger] exec_block(st, ss, fuel, Seq::<Reply>::empty() + f)
        == (Out { st, val: Ok::<Block, Seq<char>>(Block::Lines(Seq::empty())), fuel, rs: f, reqs: Seq::<Request>::empty() }) by {
        lemma_empty_left(f);
    }
}

pub proof fn lemma_block_stop(st0: SState, ss: Seq<SStmt>, f0: nat, r1: Seq<Reply>, q1: Seq<Request>, st1: SState, v: SRes, f1: nat)
    requires
        ss.len() > 0,
        stmt_done(st0, ss[0], f0, r1, q1, st1, v, f1),
        v is Err || starts_with_seq(v->Ok_0, return_marker()),
    ensures
        block_done(st0, ss, f0, r1, q1, st1,
            match v {
                Ok(x) => Ok(Block::Returned(x)),
                Err(m) => Err(m),
            }, f1),
{
    assert forall|f: Seq<Reply>| #[trigger] exec_block(st0, ss, f0, r1 + f)
        == (Out { st: st1, val: match v {
                Ok(x) => Ok(Block::Returned(x)),
                Err(m) => Err(m),
            }, fuel: f1, rs: f, reqs: q1 }) by {
        assert(exec_stmt(st0, ss[0], f0, r1 + f).rs == f);
    }
}

pub open spec fn cons_block(v: Seq<char>, x: Result<Block, Seq<char>>) -> Result<Block, Seq<char>> {
    match x {
        Ok(Block::Lines(ls)) => Ok(Block::Lines(if v.len() > 0 { seq![v] + ls } else { ls })),
        other => other,
    }
}

pub proof fn lemma_block_cons(st0: SState, ss: Seq<SStmt>, f0: nat, r1: Seq<Reply>, q1: Seq<Request>, st1: SState, v: Seq<char>, f1: nat, r2: Seq<Reply>, q2: Seq<Request>, st2: SState, x: Result<Block, Seq<char>>, f2: nat)
    requires
        ss.len() > 0,
        stmt_done(st0, ss[0], f0, r1, q1, st1, Ok(v), f1),
        !starts_with_seq(v, return_marker()),
        f1 <= f0,
        block_done(st1, ss.subrange(1, ss.len() as int), f1, r2, q2, st2, x, f2),
    ensures
        block_done(st0, ss, f0, r1 + r2, q1 + q2, st2, cons_block(v, x), f2),
{
    assert forall|f: Seq<Reply>| #[trigger] exec_block(st0, ss, f0, (r1 + r2) + f)
        == (Out { st: st2, val: cons_block(v, x), fuel: f2, rs: f, reqs: q1 + q2 }) by {
        lemma_assoc(r1, r2, f);
        assert(exec_stmt(st0, ss[0], f0, r1 + (r2 + f)).rs == r2 + f);
        assert(exec_block(st1, ss.subrange(1, ss.len() as int), f1, r2 + f).rs == f);
    }
}


// ---- statements ----

pub open spec fn assign_state(st1: SState, n: Seq<char>, v: SRes) -> SState {
    match v {
        Ok(x) => set_var(st1, n, x),
        Err(_) => st1,
    }
}

pub open spec fn unit_or_err(v: SRes) -> SRes {
    match v {
        Ok(_) => Ok(Seq::empty()),
        Err(m) => Err(m),
    }
}

pub proof fn lemma_assign(st0: SState, n: Seq<char>, e: SExpr, f0: nat, r1: Seq<Reply>, q1: Seq<Request>, st1: SState, v: SRes, f1: nat)
    requires
        expr_done(st0, e, f0, r1, q1, st1, v, f1),
    ensures
        stmt_done(st0, SStmt::Assignment(n, e), f0, r1, q1, assign_state(st1, n, v), unit_or_err(v), f1),
{
    assert forall|f: Seq<Reply>| #[trigger] exec_stmt(st0, SStmt::Assignment(n, e), f0, r1 + f)
        == (Out { st: assign_state(st1, n, v), val: unit_or_err(v), fuel: f1, rs: f, reqs: q1 }) by {
        assert(eval(st0, e, f0, r1 + f).rs == f);
    }
}

pub proof fn lemma_command_err(st0: SState, name: Seq<char>, a: Seq<SExpr>, f0: nat, r1: Seq<Reply>, q1: Seq<Request>, st1: SState, m: Seq<char>, f1: nat)
    requires
        args_done(st0, a, f0, r1, q1, st1, Err(m), f1),
    ensures
        stmt_done(st0, SStmt::CommandCall(name, a), f0, r1, q1, st1, Err(m), f1),
{
    assert forall|f: Seq<Reply>| #[trigger] exec_stmt(st0, SStmt::CommandCall(name, a), f0, r1 + f)
        == (Out { st: st1, val: Err::<Seq<char>, Seq<char>>(m), fuel: f1, rs: f, reqs: q1 }) by {
        assert(eval_args(st0, a, f0, r1 + f).rs == f);
    }
}

pub proof fn lemma_command(st0: SState, name: Seq<char>, a: Seq<SExpr>, f0: nat, r1: Seq<Reply>, q1: Seq<Request>, st1: SState, vals: Seq<Seq<char>>, f1: nat, t: SRes)
    requires
        args_done(st0, a, f0, r1, q1, st1, Ok(vals), f1),
    ensures
        stmt_done(st0, SStmt::CommandCall(name, a), f0, r1 + seq![Reply::Text(t)],
            q1.push(Request::Command(name + space() + join(vals, space()))), st1, t, f1),
{
    let r2 = seq![Reply::Text(t)];
    assert forall|f: Seq<Reply>| #[trigger] exec_stmt(st0, SStmt::CommandCall(name, a), f0, (r1 + r2) + f)
        == (Out { st: st1, val: t, fuel: f1, rs: f, reqs: q1.push(Request::Command(name + space() + join(vals, space()))) }) by {
        lemma_assoc(r1, r2, f);
        assert(eval_args(st0, a, f0, r1 + (r2 + f)).rs == r2 + f);
        lemma_rest_one(Reply::Text(t), f);
    }
}

pub proof fn lemma_if_cond(st0: SState, c: SExpr, t: Seq<SStmt>, e: Option<Seq<SStmt>>, f0: nat, r1: Seq<Reply>, q1: Seq<Request>, st1: SState, v: SRes, f1: nat)
    requires
        expr_done(st0, c, f0, r1, q1, st1, v, f1),
        v is Err || (!truthy(v->Ok_0) && e is None),
    ensures
        stmt_done(st0, SStmt::If(c, t, e), f0, r1, q1, st1, unit_or_err(v), f1),
{
    assert forall|f: Seq<Reply>| #[trigger] exec_stmt(st0, SStmt::If(c, t, e), f0, r1 + f)
        == (Out { st: st1, val: unit_or_err(v), fuel: f1, rs: f, reqs: q1 }) by {
        assert(eval(st0, c, f0, r1 + f).rs == f);
    }
}

pub proof fn lemma_if_block(st0: SState, c: SExpr, t: Seq<SStmt>, e: Option<Seq<SStmt>>, f0: nat, r1: Seq<Reply>, q1: Seq<Request>, st1: SState, v: Seq<char>, f1: nat, blk: Seq<SStmt>, r2: Seq<Reply>, q2: Seq<Request>, st2: SState, x: Result<Block, Seq<char>>, f2: nat)
    requires
        expr_done(st0, c, f0, r1, q1, st1, Ok(v), f1),
        f1 <= f0,
        truthy(v) || e is Some,
        blk == (if truthy(v) { t } else { e->Some_0 }),
        block_done(st1, blk, f1, r2, q2, st2, x, f2),
    ensures
        stmt_done(st0, SStmt::If(c, t, e), f0, r1 + r2, q1 + q2, st2, block_result(x), f2),
{
    assert forall|f: Seq<Reply>| #[trigger] exec_stmt(st0, SStmt::If(c, t, e), f0, (r1 + r2) + f)
        == (Out { st: st2, val: block_result(x), fuel: f2, rs: f, reqs: q1 + q2 }) by {
        lemma_assoc(r1, r2, f);
        assert(eval(st0, c, f0, r1 + (r2 + f)).rs == r2 + f);
        assert(exec_block(st1, blk, f1, r2 + f).rs == f);
    }
}

pub proof fn lemma_fundef(st: SState, n: Seq<char>, ps: Seq<Seq<char>>, b: Seq<SStmt>, fuel: nat)
    ensures
        stmt_done(st, SStmt::FunctionDef(n, ps, b), fuel, Seq::empty(), Seq::empty(),
            SState { funcs: st.funcs.insert(n, SFunction { params: ps, body: b }), ..st }, Ok(Seq::empty()), fuel),
{
    assert forall|f: Seq<Reply>| #[trigger] exec_stmt(st, SStmt::FunctionDef(n, ps, b), fuel, Seq::<Reply>::empty() + f)
        == (Out { st: SState { funcs: st.funcs.insert(n, SFunction { params: ps, body: b }), ..st }, val: Ok::<Seq<char>, Seq<char>>(Seq::empty()), fuel, rs: f, reqs: Seq::<Request>::empty() }) by {
        lemma_empty_left(f);
    }
}

pub open spec fn marked(v: SRes) -> SRes {
    match v {
        Ok(x) => Ok(return_marker() + x),
        Err(m) => Err(m),
    }
}

pub proof fn lemma_return(st0: SState, e: SExpr, f0: nat, r1: Seq<Reply>, q1: Seq<Request>, st1: SState, v: SRes, f1: nat)
    requires
        expr_done(st0, e, f0, r1, q1, st1, v, f1),
    ensures
        stmt_done(st0, SStmt::Return(e), f0, r1, q1, st1, marked(v), f1),
        stmt_done(st0, SStmt::Expression(e), f0, r1, q1, st1, v, f1),
{
    assert forall|f: Seq<Reply>| #[trigger] exec_stmt(st0, SStmt::Return(e), f0, r1 + f)
        == (Out { st: st1, val: marked(v), fuel: f1, rs: f, reqs: q1 }) by {
        assert(eval(st0, e, f0, r1 + f).rs == f);
    }
    assert forall|f: Seq<Reply>| #[trigger] exec_stmt(st0, SStmt::Expression(e), f0, r1 + f)
        == (Out { st: st1, val: v, fuel: f1, rs: f, reqs: q1 }) by {
        assert(eval(st0, e, f0, r1 + f).rs == f);
    }
}

// ---- while loops ----

/// The rounds run so far (reading `rr`, asking `qq`, with outputs `acc`)
/// lead from `st0` to `st`, with the rest of the loop still to run.
pub open spec fn while_inv(st0: SState, c: SExpr, b: Seq<SStmt>, f0: nat, rr: Seq<Reply>, qq: Seq<Request>, acc: Seq<Seq<char>>, st: SState, fuel: nat) -> bool {
    forall|f: Seq<Reply>| #[trigger] while_loop(st0, c, b, f0, rr + f) == wrap(acc, qq, while_loop(st, c, b, fuel, f))
}

pub open spec fn while_rest(st: SState, c: SExpr, b: Seq<SStmt>, fuel: nat, r3: Seq<Reply>, q3: Seq<Request>, st3: SState, y: Result<Block, Seq<char>>, f3: nat) -> bool {
    forall|f: Seq<Reply>| #[trigger] while_loop(st, c, b, fuel, r3 + f) == (Out { st: st3, val: y, fuel: f3, rs: f, reqs: q3 })
}

pub proof fn lemma_while_init(st0: SState, c: SExpr, b: Seq<SStmt>, f0: nat)
    ensures
        while_inv(st0, c, b, f0, Seq::empty(), Seq::empty(), Seq::empty(), st0, f0),
{
    assert forall|f: Seq<Reply>| #[trigger] while_loop(st0, c, b, f0, Seq::<Reply>::empty() + f)
        == wrap(Seq::empty(), Seq::empty(), while_loop(st0, c, b, f0, f)) by {
        lemma_empty_left(f);
        let x = while_loop(st0, c, b, f0, f);
        lemma_then_lines(Seq::empty(), Seq::empty(), x.val);
        lemma_empty_left(x.reqs);
    }
}

pub proof fn lemma_while_finish(st0: SState, c: SExpr, b: Seq<SStmt>, f0: nat, rr: Seq<Reply>, qq: Seq<Request>, acc: Seq<Seq<char>>, st: SState, fl: nat, r3: Seq<Reply>, q3: Seq<Request>, st3: SState, y: Result<Block, Seq<char>>, f3: nat)
    requires
        while_inv(st0, c, b, f0, rr, qq, acc, st, fl),
        while_rest(st, c, b, fl, r3, q3, st3, y, f3),
    ensures
        stmt_done(st0, SStmt::While(c, b), f0, rr + r3, qq + q3, st3, block_result(then_lines(acc, y)), f3),
{
    assert forall|f: Seq<Reply>| #[trigger] exec_stmt(st0, SStmt::While(c, b), f0, (rr + r3) + f)
        == (Out { st: st3, val: block_result(then_lines(acc, y)), fuel: f3, rs: f, reqs: qq + q3 }) by {
        lemma_assoc(rr, r3, f);
        assert(while_loop(st0, c, b, f0, rr + (r3 + f)) == wrap(acc, qq, while_loop(st, c, b, fl, r3 + f)));
    }
}

pub proof fn lemma_while_exit_cond(st: SState, c: SExpr, b: Seq<SStmt>, fl: nat, r2: Seq<Reply>, q2: Seq<Request>, st2: SState, v: SRes, f2: nat)
    requires
        expr_done(st, c, fl, r2, q2, st2, v, f2),
        v is Err || !truthy(v->Ok_0),
    ensures
        while_rest(st, c, b, fl, r2, q2, st2,
            match v {
                Err(m) => Err(m),
                Ok(_) => Ok(Block::Lines(Seq::empty())),
            }, f2),
{
    assert forall|f: Seq<Reply>| #[trigger] while_loop(st, c, b, fl, r2 + f)
        == (Out { st: st2, val: match v {
                Err(m) => Err(m),
                Ok(_) => Ok(Block::Lines(Seq::empty())),
            }, fuel: f2, rs: f, reqs: q2 }) by {
        assert(eval(st, c, fl, r2 + f).rs == f);
    }
}

pub proof fn lemma_while_exit_fuel(st: SState, c: SExpr, b: Seq<SStmt>, fl: nat, r2: Seq<Reply>, q2: Seq<Request>, st2: SState, v: Seq<char>)
    requires
        expr_done(st, c, fl, r2, q2, st2, Ok(v), 0),
        truthy(v),
    ensures
        while_rest(st, c, b, fl, r2, q2, st2, Err(interrupted()), 0),
{
    assert forall|f: Seq<Reply>| #[trigger] while_loop(st, c, b, fl, r2 + f)
        == (Out { st: st2, val: Err::<Block, Seq<char>>(interrupted()), fuel: 0, rs: f, reqs: q2 }) by {
        assert(eval(st, c, fl, r2 + f).rs == f);
    }
}

pub proof fn lemma_while_exit_cancel(st: SState, c: SExpr, b: Seq<SStmt>, fl: nat, r2: Seq<Reply>, q2: Seq<Request>, st2: SState, v: Seq<char>, f2: nat)
    requires
        expr_done(st, c, fl, r2, q2, st2, Ok(v), f2),
        truthy(v),
        0 < f2 <= fl,
    ensures
        while_rest(st, c, b, fl, r2 + seq![Reply::Flag(true)], q2.push(Request::CancelCheck), st2, Err(interrupted()), f2),
{
    let rc = seq![Reply::Flag(true)];
    assert forall|f: Seq<Reply>| #[trigger] while_loop(st, c, b, fl, (r2 + rc) + f)
        == (Out { st: st2, val: Err::<Block, Seq<char>>(interrupted()), fuel: f2, rs: f, reqs: q2.push(Request::CancelCheck) }) by {
        lemma_assoc(r2, rc, f);
        assert(eval(st, c, fl, r2 + (rc + f)).rs == rc + f);
        lemma_rest_one(Reply::Flag(true), f);
    }
}

pub proof fn lemma_while_exit_body(st: SState, c: SExpr, b: Seq<SStmt>, fl: nat, r2: Seq<Reply>, q2: Seq<Request>, st2: SState, v: Seq<char>, f2: nat, r3: Seq<Reply>, q3: Seq<Request>, st3: SState, x: Result<Block, Seq<char>>, f3: nat)
    requires
        expr_done(st, c, fl, r2, q2, st2, Ok(v), f2),
        truthy(v),
        0 < f2 <= fl,
        block_done(st2, b, (f2 - 1) as nat, r3, q3, st3, x, f3),
        !(x matches Ok(Block::Lines(_))),
    ensures
        while_rest(st, c, b, fl, r2 + seq![Reply::Flag(false)] + r3, q2.push(Request::CancelCheck) + q3, st3, x, f3),
{
    let rc = seq![Reply::Flag(false)];
    assert forall|f: Seq<Reply>| #[trigger] while_loop(st, c, b, fl, (r2 + rc + r3) + f)
        == (Out { st: st3, val: x, fuel: f3, rs: f, reqs: q2.push(Request::CancelCheck) + q3 }) by {
        assert((r2 + rc + r3) + f =~= r2 + (rc + (r3 + f)));
        assert(eval(st, c, fl, r2 + (rc + (r3 + f))).rs == rc + (r3 + f));
        lemma_rest_one(Reply::Flag(false), r3 + f);
        assert(exec_block(st2, b, (f2 - 1) as nat, r3 + f).rs == f);
    }
}

pub proof fn lemma_while_round(st0: SState, c: SExpr, b: Seq<SStmt>, f0: nat, rr: Seq<Reply>, qq: Seq<Request>, acc: Seq<Seq<char>>, st: SState, fl: nat, r2: Seq<Reply>, q2: Seq<Request>, st2: SState, v: Seq<char>, f2: nat, r3: Seq<Reply>, q3: Seq<Request>, st3: SState, ls: Seq<Seq<char>>, f3: nat)
    requires
        while_inv(st0, c, b, f0, rr, qq, acc, st, fl),
        expr_done(st, c, fl, r2, q2, st2, Ok(v), f2),
        truthy(v),
        0 < f2 <= fl,
        block_done(st2, b, (f2 - 1) as nat, r3, q3, st3, Ok(Block::Lines(ls)), f3),
        f3 <= f2 - 1,
    ensures
        while_inv(st0, c, b, f0, rr + (r2 + seq![Reply::Flag(false)] + r3), qq + (q2.push(Request::CancelCheck) + q3), acc + ls, st3, f3),
{
    let rc = seq![Reply::Flag(false)];
    let rnd = r2 + rc + r3;
    let qrnd = q2.push(Request::CancelCheck) + q3;
    assert forall|f: Seq<Reply>| #[trigger] while_loop(st0, c, b, f0, (rr + rnd) + f)
        == wrap(acc + ls, qq + qrnd, while_loop(st3, c, b, f3, f)) by {
        lemma_assoc(rr, rnd, f);
        assert(rnd + f =~= r2 + (rc + (r3 + f)));
        assert(eval(st, c, fl, r2 + (rc + (r3 + f))).rs == rc + (r3 + f));
        lemma_rest_one(Reply::Flag(false), r3 + f);
        assert(exec_block(st2, b, (f2 - 1) as nat, r3 + f).rs == f);
        let x = while_loop(st3, c, b, f3, f);
        assert(while_loop(st, c, b, fl, rnd + f) == wrap(ls, qrnd, x));
        assert(while_loop(st0, c, b, f0, rr + (rnd + f)) == wrap(acc, qq, while_loop(st, c, b, fl, rnd + f)));
        lemma_then_lines(acc, ls, x.val);
        lemma_assoc(qq, qrnd, x.reqs);
    }
}

// ---- for loops ----

pub open spec fn for_inv(st0: SState, var: Seq<char>, items: Seq<Seq<char>>, b: Seq<SStmt>, f0: nat, rr: Seq<Reply>, qq: Seq<Request>, acc: Seq<Seq<char>>, st: SState, k: int, fuel: nat) -> bool {
    forall|f: Seq<Reply>| #[trigger] for_loop(st0, var, items, b, f0, rr + f) == wrap(acc, qq, for_loop(st, var, items.skip(k), b, fuel, f))
}

pub open spec fn for_rest(st: SState, var: Seq<char>, its: Seq<Seq<char>>, b: Seq<SStmt>, fuel: nat, r3: Seq<Reply>, q3: Seq<Request>, st3: SState, y: Result<Block, Seq<char>>, f3: nat) -> bool {
    forall|f: Seq<Reply>| #[trigger] for_loop(st, var, its, b, fuel, r3 + f) == (Out { st: st3, val: y, fuel: f3, rs: f, reqs: q3 })
}

pub proof fn lemma_for_list_err(st0: SState, var: Seq<char>, l: SExpr, b: Seq<SStmt>, f0: nat, r1: Seq<Reply>, q1: Seq<Request>, st1: SState, m: Seq<char>, f1: nat)
    requires
        expr_done(st0, l, f0, r1, q1, st1, Err(m), f1),
    ensures
        stmt_done(st0, SStmt::For(var, l, b), f0, r1, q1, st1, Err(m), f1),
{
    assert forall|f: Seq<Reply>| #[trigger] exec_stmt(st0, SStmt::For(var, l, b), f0, r1 + f)
        == (Out { st: st1, val: Err::<Seq<char>, Seq<char>>(m), fuel: f1, rs: f, reqs: q1 }) by {
        assert(eval(st0, l, f0, r1 + f).rs == f);
    }
}

pub proof fn lemma_for_init(st1: SState, var: Seq<char>, items: Seq<Seq<char>>, b: Seq<SStmt>, f1: nat)
    ensures
        for_inv(st1, var, items, b, f1, Seq::empty(), Seq::empty(), Seq::empty(), st1, 0, f1),
{
    assert(items.skip(0) =~= items);
    assert forall|f: Seq<Reply>| #[trigger] for_loop(st1, var, items, b, f1, Seq::<Reply>::empty() + f)
        == wrap(Seq::empty(), Seq::empty(), for_loop(st1, var, items.skip(0), b, f1, f)) by {
        lemma_empty_left(f);
        let x = for_loop(st1, var, items, b, f1, f);
        lemma_then_lines(Seq::empty(), Seq::empty(), x.val);
        lemma_empty_left(x.reqs);
    }
}

pub proof fn lemma_for_finish(st0: SState, var: Seq<char>, l: SExpr, b: Seq<SStmt>, f0: nat, r1: Seq<Reply>, q1: Seq<Request>, st1: SState, lv: Seq<char>, f1: nat, rr: Seq<Reply>, qq: Seq<Request>, acc: Seq<Seq<char>>, st: SState, k: int, fl: nat, r3: Seq<Reply>, q3: Seq<Request>, st3: SState, y: Result<Block, Seq<char>>, f3: nat)
    requires
        expr_done(st0, l, f0, r1, q1, st1, Ok(lv), f1),
        f1 <= f0,
        for_inv(st1, var, split_whitespace(lv), b, f1, rr, qq, acc, st, k, fl),
        for_rest(st, var, split_whitespace(lv).skip(k), b, fl, r3, q3, st3, y, f3),
    ensures
        stmt_done(st0, SStmt::For(var, l, b), f0, r1 + rr + r3, q1 + qq + q3, st3, block_result(then_lines(acc, y)), f3),
{
    assert forall|f: Seq<Reply>| #[trigger] exec_stmt(st0, SStmt::For(var, l, b), f0, (r1 + rr + r3) + f)
        == (Out { st: st3, val: block_result(then_lines(acc, y)), fuel: f3, rs: f, reqs: q1 + qq + q3 }) by {
        assert((r1 + rr + r3) + f =~= r1 + (rr + (r3 + f)));
        assert(eval(st0, l, f0, r1 + (rr + (r3 + f))).rs == rr + (r3 + f));
        assert(for_loop(st1, var, split_whitespace(lv), b, f1, rr + (r3 + f))
            == wrap(acc, qq, for_loop(st, var, split_whitespace(lv).skip(k), b, fl, r3 + f)));
        lemma_assoc(q1, qq, q3);
    }
}

pub proof fn lemma_for_exit_empty(st: SState, var: Seq<char>, its: Seq<Seq<char>>, b: Seq<SStmt>, fl: nat)
    requires
        its.len() == 0,
    ensures
        for_rest(st, var, its, b, fl, Seq::empty(), Seq::empty(), st, Ok(Block::Lines(Seq::empty())), fl),
{
    assert forall|f: Seq<Reply>| #[trigger] for_loop(st, var, its, b, fl, Seq::<Reply>::empty() + f)
        == (Out { st, val: Ok::<Block, Seq<char>>(Block::Lines(Seq::empty())), fuel: fl, rs: f, reqs: Seq::<Request>::empty() }) by {
        lemma_empty_left(f);
    }
}

pub proof fn lemma_for_exit_fuel(st: SState, var: Seq<char>, its: Seq<Seq<char>>, b: Seq<SStmt>)
    requires
        its.len() > 0,
    ensures
        for_rest(st, var, its, b, 0, Seq::empty(), Seq::empty(), st, Err(interrupted()), 0),
{
    assert forall|f: Seq<Reply>| #[trigger] for_loop(st, var, its, b, 0, Seq::<Reply>::empty() + f)
        == (Out { st, val: Err::<Block, Seq<char>>(interrupted()), fuel: 0, rs: f, reqs: Seq::<Request>::empty() }) by {
        lemma_empty_left(f);
    }
}

pub proof fn lemma_for_exit_cancel(st: SState, var: Seq<char>, its: Seq<Seq<char>>, b: Seq<SStmt>, fl: nat)
    requires
        its.len() > 0,
        fl > 0,
    ensures
        for_rest(st, var, its, b, fl, seq![Reply::Flag(true)], seq![Request::CancelCheck], st, Err(interrupted()), fl),
{
    assert forall|f: Seq<Reply>| #[trigger] for_loop(st, var, its, b, fl, seq![Reply::Flag(true)] + f)
        == (Out { st, val: Err::<Block, Seq<char>>(interrupted()), fuel: fl, rs: f, reqs: seq![Request::CancelCheck] }) by {
        lemma_rest_one(Reply::Flag(true), f);
    }
}

pub proof fn lemma_for_exit_body(st: SState, var: Seq<char>, its: Seq<Seq<char>>, b: Seq<SStmt>, fl: nat, r3: Seq<Reply>, q3: Seq<Request>, st3: SState, x: Result<Block, Seq<char>>, f3: nat)
    requires
        its.len() > 0,
        fl > 0,
        block_done(set_var(st, var, its[0]), b, (fl - 1) as nat, r3, q3, st3, x, f3),
        !(x matches Ok(Block::Lines(_))),
    ensures
        for_rest(st, var, its, b, fl, seq![Reply::Flag(false)] + r3, seq![Request::CancelCheck] + q3, st3, x, f3),
{
    let rc = seq![Reply::Flag(false)];
    assert forall|f: Seq<Reply>| #[trigger] for_loop(st, var, its, b, fl, (rc + r3) + f)
        == (Out { st: st3, val: x, fuel: f3, rs: f, reqs: seq![Request::CancelCheck] + q3 }) by {
        lemma_assoc(rc, r3, f);
        lemma_rest_one(Reply::Flag(false), r3 + f);
        assert(exec_block(set_var(st, var, its[0]), b, (fl - 1) as nat, r3 + f).rs == f);
    }
}

pub proof fn lemma_for_round(st0: SState, var: Seq<char>, items: Seq<Seq<char>>, b: Seq<SStmt>, f0: nat, rr: Seq<Reply>, qq: Seq<Request>, acc: Seq<Seq<char>>, st: SState, k: int, fl: nat, r3: Seq<Reply>, q3: Seq<Request>, st3: SState, ls: Seq<Seq<char>>, f3: nat)
    requires
        for_inv(st0, var, items, b, f0, rr, qq, acc, st, k, fl),
        0 <= k < items.len(),
        fl > 0,
        block_done(set_var(st, var, items[k]), b, (fl - 1) as nat, r3, q3, st3, Ok(Block::Lines(ls)), f3),
        f3 <= fl - 1,
    ensures
        for_inv(st0, var, items, b, f0, rr + (seq![Reply::Flag(false)] + r3), qq + (seq![Request::CancelCheck] + q3), acc + ls, st3, k + 1, f3),
{
    let rc = seq![Reply::Flag(false)];
    let rnd = rc + r3;
    let qrnd = seq![Request::CancelCheck] + q3;
    let its = items.skip(k);
    assert(its[0] == items[k]);
    assert(its.subrange(1, its.len() as int) =~= items.skip(k + 1));
    assert forall|f: Seq<Reply>| #[trigger] for_loop(st0, var, items, b, f0, (rr + rnd) + f)
        == wrap(acc + ls, qq + qrnd, for_loop(st3, var, items.skip(k + 1), b, f3, f)) by {
        lemma_assoc(rr, rnd, f);
        lemma_assoc(rc, r3, f);
        lemma_rest_one(Reply::Flag(false), r3 + f);
        assert(exec_block(set_var(st, var, its[0]), b, (fl - 1) as nat, r3 + f).rs == f);
        let x = for_loop(st3, var, items.skip(k + 1), b, f3, f);
        assert(for_loop(st, var, its, b, fl, rnd + f) == wrap(ls, qrnd, x));
        assert(for_loop(st0, var, items, b, f0, rr + (rnd + f)) == wrap(acc, qq, for_loop(st, var, its, b, fl, rnd + f)));
        lemma_then_lines(acc, ls, x.val);
        lemma_assoc(qq, qrnd, x.reqs);
    }
}

// ---- the top level ----

/// The outcome `o` of the remaining statements after earlier ones asked `q`.
pub open spec fn after(q: Seq<Request>, o: Out<Seq<char>>) -> Out<Seq<char>> {
    Out { st: o.st, val: o.val, fuel: o.fuel, rs: o.rs, reqs: q + o.reqs }
}

/// The lines collected after a statement gave `v`.
pub open spec fn collect(out: Seq<Seq<char>>, v: Seq<char>) -> Seq<Seq<char>> {
    if v != no_stdout() && v.len() > 0 { out.push(v) } else { out }
}

/// After the first `k` statements of `ss` (placed at `ps`), run from `st0`
/// with `f0` and the replies `rr`, the top level is at `st` with `fuel`, has
/// collected `out` and asked `qq`.
pub open spec fn top_inv(st0: SState, ss: Seq<SStmt>, ps: Seq<(nat, nat)>, f0: nat, rr: Seq<Reply>, qq: Seq<Request>, out: Seq<Seq<char>>, st: SState, k: int, fuel: nat) -> bool {
    forall|f: Seq<Reply>| #[trigger] run_stmts(st0, ss, ps, f0, rr + f, Seq::empty()) == after(qq, run_stmts(st, ss.skip(k), ps.skip(k), fuel, f, out))
}

/// The remaining statements `ss` (placed at `ps`), given the replies `r3`,
/// end at `st3` with the output `v`, asking `q3` and reading exactly `r3`.
pub open spec fn top_rest(st: SState, ss: Seq<SStmt>, ps: Seq<(nat, nat)>, fuel: nat, out: Seq<Seq<char>>, r3: Seq<Reply>, q3: Seq<Request>, st3: SState, v: Seq<char>) -> bool {
    forall|f: Seq<Reply>| #![trigger run_stmts(st, ss, ps, fuel, r3 + f, out)] {
        let o = run_stmts(st, ss, ps, fuel, r3 + f, out);
        o.st == st3 && o.val == v && o.rs == f && o.reqs == q3
    }
}

/// Running `ss` (placed at `ps`) from `st` with `fuel`, given the replies
/// `rs`, ends at `st2` with the output `v`, asks `qs` and reads exactly `rs`.
pub open spec fn run_done(st: SState, ss: Seq<SStmt>, ps: Seq<(nat, nat)>, fuel: nat, rs: Seq<Reply>, qs: Seq<Request>, st2: SState, v: Seq<char>) -> bool {
    forall|f: Seq<Reply>| #![trigger run(st, ss, ps, fuel, rs + f)] {
        let o = run(st, ss, ps, fuel, rs + f);
        o.st == st2 && o.val == v && o.rs == f && o.reqs == qs
    }
}

pub proof fn lemma_top_init(st: SState, ss: Seq<SStmt>, ps: Seq<(nat, nat)>, fuel: nat)
    ensures
        top_inv(st, ss, ps, fuel, Seq::empty(), Seq::empty(), Seq::empty(), st, 0, fuel),
{
    assert(ss.skip(0) =~= ss);
    assert(ps.skip(0) =~= ps);
    assert forall|f: Seq<Reply>| #[trigger] run_stmts(st, ss, ps, fuel, Seq::<Reply>::empty() + f, Seq::empty())
        == after(Seq::empty(), run_stmts(st, ss.skip(0), ps.skip(0), fuel, f, Seq::empty())) by {
        lemma_empty_left(f);
        lemma_empty_left(run_stmts(st, ss, ps, fuel, f, Seq::empty()).reqs);
    }
}

pub proof fn lemma_top_exit_empty(st: SState, ss: Seq<SStmt>, ps: Seq<(nat, nat)>, fuel: nat, out: Seq<Seq<char>>)
    requires
        ss.len() == 0,
    ensures
        top_rest(st, ss, ps, fuel, out, Seq::empty(), Seq::empty(), st, join(out, newline())),
{
    assert forall|f: Seq<Reply>| #![trigger run_stmts(st, ss, ps, fuel, Seq::<Reply>::empty() + f, out)] {
        let o = run_stmts(st, ss, ps, fuel, Seq::<Reply>::empty() + f, out);
        o.st == st && o.val == join(out, newline()) && o.rs == f && o.reqs == Seq::<Request>::empty()
    } by {
        lemma_empty_left(f);
    }
}

pub proof fn lemma_top_exit_cancel(st: SState, ss: Seq<SStmt>, ps: Seq<(nat, nat)>, fuel: nat, out: Seq<Seq<char>>)
    requires
        ss.len() > 0,
    ensures
        top_rest(st, ss, ps, fuel, out, seq![Reply::Flag(true)], seq![Request::CancelCheck], st, interrupted()),
{
    assert forall|f: Seq<Reply>| #![trigger run_stmts(st, ss, ps, fuel, seq![Reply::Flag(true)] + f, out)] {
        let o = run_stmts(st, ss, ps, fuel, seq![Reply::Flag(true)] + f, out);
        o.st == st && o.val == interrupted() && o.rs == f && o.reqs == seq![Request::CancelCheck]
    } by {
        lemma_rest_one(Reply::Flag(true), f);
    }
}

pub proof fn lemma_top_exit_err(st: SState, ss: Seq<SStmt>, ps: Seq<(nat, nat)>, fuel: nat, out: Seq<Seq<char>>, r3: Seq<Reply>, q3: Seq<Request>, st3: SState, m: Seq<char>, f3: nat)
    requires
        ss.len() > 0,
        stmt_done(st, ss[0], fuel, r3, q3, st3, Err(m), f3),
    ensures
        top_rest(st, ss, ps, fuel, out, seq![Reply::Flag(false)] + r3, seq![Request::CancelCheck] + q3, st3, error_report(m, st3.stack, ps[0])),
{
    let rc = seq![Reply::Flag(false)];
    assert forall|f: Seq<Reply>| #![trigger run_stmts(st, ss, ps, fuel, (rc + r3) + f, out)] {
        let o = run_stmts(st, ss, ps, fuel, (rc + r3) + f, out);
        o.st == st3 && o.val == error_report(m, st3.stack, ps[0]) && o.rs == f && o.reqs == seq![Request::CancelCheck] + q3
    } by {
        lemma_assoc(rc, r3, f);
        lemma_rest_one(Reply::Flag(false), r3 + f);
        assert(exec_stmt(st, ss[0], fuel, r3 + f).rs == f);
    }
}

pub proof fn lemma_top_round(st0: SState, ss: Seq<SStmt>, ps: Seq<(nat, nat)>, f0: nat, rr: Seq<Reply>, qq: Seq<Request>, out: Seq<Seq<char>>, st: SState, k: int, fuel: nat, r3: Seq<Reply>, q3: Seq<Request>, st3: SState, v: Seq<char>, f3: nat)
    requires
        top_inv(st0, ss, ps, f0, rr, qq, out, st, k, fuel),
        0 <= k < ss.len(),
        ps.len() == ss.len(),
        stmt_done(st, ss[k], fuel, r3, q3, st3, Ok(v), f3),
        f3 <= fuel,
    ensures
        top_inv(st0, ss, ps, f0, rr + (seq![Reply::Flag(false)] + r3), qq + (seq![Request::CancelCheck] + q3), collect(out, v), st3, k + 1, f3),
{
    let rc = seq![Reply::Flag(false)];
    let rnd = rc + r3;
    let qrnd = seq![Request::CancelCheck] + q3;
    let rem = ss.skip(k);
    let prem = ps.skip(k);
    assert(rem[0] == ss[k]);
    assert(rem.subrange(1, rem.len() as int) =~= ss.skip(k + 1));
    assert(prem.subrange(1, prem.len() as int) =~= ps.skip(k + 1));
    assert forall|f: Seq<Reply>| #[trigger] run_stmts(st0, ss, ps, f0, (rr + rnd) + f, Seq::empty())
        == after(qq + qrnd, run_stmts(st3, ss.skip(k + 1), ps.skip(k + 1), f3, f, collect(out, v))) by {
        lemma_assoc(rr, rnd, f);
        lemma_assoc(rc, r3, f);
        lemma_rest_one(Reply::Flag(false), r3 + f);
        assert(exec_stmt(st, rem[0], fuel, r3 + f).rs == f);
        let x = run_stmts(st3, ss.skip(k + 1), ps.skip(k + 1), f3, f, collect(out, v));
        assert(run_stmts(st, rem, prem, fuel, rnd + f, out).reqs == qrnd + x.reqs);
        assert(run_stmts(st0, ss, ps, f0, rr + (rnd + f), Seq::empty()) == after(qq, run_stmts(st, rem, prem, fuel, rnd + f, out)));
        lemma_assoc(qq, qrnd, x.reqs);
    }
}

pub proof fn lemma_top_finish(st0: SState, ss: Seq<SStmt>, ps: Seq<(nat, nat)>, f0: nat, rr: Seq<Reply>, qq: Seq<Request>, out: Seq<Seq<char>>, st: SState, k: int, fuel: nat, r3: Seq<Reply>, q3: Seq<Request>, st3: SState, v: Seq<char>)
    requires
        top_inv(st0, ss, ps, f0, rr, qq, out, st, k, fuel),
        top_rest(st, ss.skip(k), ps.skip(k), fuel, out, r3, q3, st3, v),
    ensures
        run_done(st0, ss, ps, f0, rr + r3, seq![Request::ClearCancel] + (qq + q3), st3, v),
{
    assert forall|f: Seq<Reply>| #![trigger run(st0, ss, ps, f0, (rr + r3) + f)] {
        let o = run(st0, ss, ps, f0, (rr + r3) + f);
        o.st == st3 && o.val == v && o.rs == f && o.reqs == seq![Request::ClearCancel] + (qq + q3)
    } by {
        lemma_assoc(rr, r3, f);
        assert(run_stmts(st, ss.skip(k), ps.skip(k), fuel, r3 + f, out).reqs == q3);
    }
}

} // verus!

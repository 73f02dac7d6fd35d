//! What a script cannot touch: a statement that succeeds changes only the
//! innermost scope, and an expression that succeeds (a call of a user
//! function among them) leaves every scope and the call stack as they were.
//! So a function never changes its caller's variables.

use vstd::prelude::*;
use crate::ast::{SExpr, SStmt};
use crate::semantics::{SState, Reply, Block, clamp, rest, flag_reply, set_var, enter, leave, truthy, return_marker};
use crate::semantics::{eval, eval_args, run_body, exec_block, exec_stmt, while_loop, for_loop};
use crate::semantics::{size_expr, size_exprs, size_stmt, size_stmts};
use crate::text::{split_whitespace, starts_with_seq};

verus! {

/// The scopes but the innermost one.
pub open spec fn outer(vs: Seq<Map<Seq<char>, Seq<char>>>) -> Seq<Map<Seq<char>, Seq<char>>> {
    if vs.len() > 0 { vs.drop_last() } else { vs }
}

/// `b` differs from `a` at most in the innermost scope and the functions.
pub open spec fn keeps_outer(a: SState, b: SState) -> bool {
    &&& a.vars.len() == b.vars.len()
    &&& outer(a.vars) == outer(b.vars)
    &&& a.stack == b.stack
}

/// `b` has the scopes and the call stack of `a`.
pub open spec fn keeps_scopes(a: SState, b: SState) -> bool {
    a.vars == b.vars && a.stack == b.stack
}

proof fn lemma_keeps_outer_set_var(st: SState, n: Seq<char>, v: Seq<char>)
    ensures
        keeps_outer(st, set_var(st, n, v)),
{
    if st.vars.len() > 0 {
        assert(outer(set_var(st, n, v).vars) =~= outer(st.vars));
    }
}

/// An expression that succeeds leaves the scopes and the call stack as they were.
pub proof fn lemma_frame_eval(st: SState, e: SExpr, fuel: nat, rs: Seq<Reply>)
    ensures
        eval(st, e, fuel, rs).val is Ok ==> keeps_scopes(st, eval(st, e, fuel, rs).st),
    decreases fuel, size_expr(e),
{
    match e {
        SExpr::BinaryOp(l, op, r) => {
            lemma_frame_eval(st, *l, fuel, rs);
            let a = eval(st, *l, fuel, rs);
            if a.val is Ok {
                lemma_frame_eval(a.st, *r, clamp(a.fuel, fuel), a.rs);
            }
        },
        SExpr::Call(name, args) => {
            lemma_frame_args(st, args, fuel, rs);
            let a = eval_args(st, args, fuel, rs);
            if a.val is Ok && a.st.funcs.dom().contains(name) {
                let f1 = clamp(a.fuel, fuel);
                if f1 > 0 {
                    let st1 = enter(a.st, name, a.st.funcs[name], a.val->Ok_0);
                    lemma_frame_body(st1, a.st.funcs[name].body, (f1 - 1) as nat, a.rs);
                    let b = run_body(st1, a.st.funcs[name].body, (f1 - 1) as nat, a.rs);
                    if b.val is Ok {
                        assert(st1.vars.drop_last() =~= a.st.vars);
                        assert(st1.stack.drop_last() =~= a.st.stack);
                        assert(leave(b.st).vars == outer(b.st.vars));
                    }
                }
            }
        },
        _ => {},
    }
}

/// Arguments that all succeed leave the scopes and the call stack as they were.
pub proof fn lemma_frame_args(st: SState, args: Seq<SExpr>, fuel: nat, rs: Seq<Reply>)
    ensures
        eval_args(st, args, fuel, rs).val is Ok ==> keeps_scopes(st, eval_args(st, args, fuel, rs).st),
    decreases fuel, size_exprs(args),
{
    if args.len() > 0 {
        lemma_frame_eval(st, args[0], fuel, rs);
        let a = eval(st, args[0], fuel, rs);
        if a.val is Ok {
            lemma_frame_args(a.st, args.subrange(1, args.len() as int), clamp(a.fuel, fuel), a.rs);
        }
    }
}

/// A function body that succeeds changes at most the innermost scope.
pub proof fn lemma_frame_body(st: SState, ss: Seq<SStmt>, fuel: nat, rs: Seq<Reply>)
    ensures
        run_body(st, ss, fuel, rs).val is Ok ==> keeps_outer(st, run_body(st, ss, fuel, rs).st),
    decreases fuel, size_stmts(ss),
{
    if ss.len() > 0 && !flag_reply(rs) {
        lemma_frame_stmt(st, ss[0], fuel, rest(rs));
        let a = exec_stmt(st, ss[0], fuel, rest(rs));
        if a.val is Ok && !starts_with_seq(a.val->Ok_0, return_marker()) {
            lemma_frame_body(a.st, ss.subrange(1, ss.len() as int), clamp(a.fuel, fuel), a.rs);
        }
    }
}

/// A block that succeeds changes at most the innermost scope.
pub proof fn lemma_frame_block(st: SState, ss: Seq<SStmt>, fuel: nat, rs: Seq<Reply>)
    ensures
        exec_block(st, ss, fuel, rs).val is Ok ==> keeps_outer(st, exec_block(st, ss, fuel, rs).st),
    decreases fuel, size_stmts(ss),
{
    if ss.len() > 0 {
        lemma_frame_stmt(st, ss[0], fuel, rs);
        let a = exec_stmt(st, ss[0], fuel, rs);
        if a.val is Ok && !starts_with_seq(a.val->Ok_0, return_marker()) {
            lemma_frame_block(a.st, ss.subrange(1, ss.len() as int), clamp(a.fuel, fuel), a.rs);
        }
    }
}

/// A `while` loop that succeeds changes at most the innermost scope.
pub proof fn lemma_frame_while(st: SState, c: SExpr, body: Seq<SStmt>, fuel: nat, rs: Seq<Reply>)
    ensures
        while_loop(st, c, body, fuel, rs).val is Ok ==> keeps_outer(st, while_loop(st, c, body, fuel, rs).st),
    decreases fuel, size_expr(c) + size_stmts(body),
{
    lemma_frame_eval(st, c, fuel, rs);
    let a = eval(st, c, fuel, rs);
    if a.val is Ok && truthy(a.val->Ok_0) {
        let f1 = clamp(a.fuel, fuel);
        if f1 > 0 && !flag_reply(a.rs) {
            lemma_frame_block(a.st, body, (f1 - 1) as nat, rest(a.rs));
            let b = exec_block(a.st, body, (f1 - 1) as nat, rest(a.rs));
            if b.val matches Ok(Block::Lines(_)) {
                lemma_frame_while(b.st, c, body, clamp(b.fuel, (f1 - 1) as nat), b.rs);
            }
        }
    }
}

/// A `for` loop that succeeds changes at most the innermost scope.
pub proof fn lemma_frame_for(st: SState, var: Seq<char>, items: Seq<Seq<char>>, body: Seq<SStmt>, fuel: nat, rs: Seq<Reply>)
    ensures
        for_loop(st, var, items, body, fuel, rs).val is Ok ==> keeps_outer(st, for_loop(st, var, items, body, fuel, rs).st),
    decreases fuel, size_stmts(body),
{
    if items.len() > 0 && fuel > 0 && !flag_reply(rs) {
        let st1 = set_var(st, var, items[0]);
        lemma_keeps_outer_set_var(st, var, items[0]);
        lemma_frame_block(st1, body, (fuel - 1) as nat, rest(rs));
        let b = exec_block(st1, body, (fuel - 1) as nat, rest(rs));
        if b.val matches Ok(Block::Lines(_)) {
            lemma_frame_for(b.st, var, items.subrange(1, items.len() as int), body, clamp(b.fuel, (fuel - 1) as nat), b.rs);
        }
    }
}

/// A statement that succeeds changes at most the innermost scope (and the
/// functions); the call stack is as it was.
pub proof fn lemma_frame_stmt(st: SState, s: SStmt, fuel: nat, rs: Seq<Reply>)
    ensures
        exec_stmt(st, s, fuel, rs).val is Ok ==> keeps_outer(st, exec_stmt(st, s, fuel, rs).st),
    decreases fuel, size_stmt(s),
{
    match s {
        SStmt::Assignment(n, e) => {
            lemma_frame_eval(st, e, fuel, rs);
            let a = eval(st, e, fuel, rs);
            if a.val is Ok {
                lemma_keeps_outer_set_var(a.st, n, a.val->Ok_0);
            }
        },
        SStmt::CommandCall(_, args) => {
            lemma_frame_args(st, args, fuel, rs);
        },
        SStmt::If(c, t, eb) => {
            lemma_frame_eval(st, c, fuel, rs);
            let a = eval(st, c, fuel, rs);
            if a.val is Ok {
                lemma_frame_block(a.st, t, clamp(a.fuel, fuel), a.rs);
                if let Some(b) = eb {
                    lemma_frame_block(a.st, b, clamp(a.fuel, fuel), a.rs);
                }
            }
        },
        SStmt::While(c, b) => {
            lemma_frame_while(st, c, b, fuel, rs);
        },
        SStmt::For(var, l, b) => {
            lemma_frame_eval(st, l, fuel, rs);
            let a = eval(st, l, fuel, rs);
            if a.val is Ok {
                lemma_frame_for(a.st, var, split_whitespace(a.val->Ok_0), b, clamp(a.fuel, fuel), a.rs);
            }
        },
        SStmt::FunctionDef(_, _, _) => {},
        SStmt::Return(e) => {
            lemma_frame_eval(st, e, fuel, rs);
        },
        SStmt::Expression(e) => {
            lemma_frame_eval(st, e, fuel, rs);
        },
    }
}

} // verus!

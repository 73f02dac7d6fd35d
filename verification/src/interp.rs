//! The Mini-ShellScript interpreter, proved to follow `semantics`.
//!
//! The interpreter keeps, as ghost state, the transcript of its dealings with
//! the host: the requests it made and the replies it got. Each operation is
//! specified against the semantics applied to the replies it received, for
//! every continuation of the reply stream.

use vstd::prelude::*;
use crate::ast::{Expr, Statement, Function, SStmt, SFunction};
use crate::ast::{exprs_view, stmts_view, expr_view, stmt_view, lemma_exprs_view, lemma_stmts_view};
use crate::table::Table;
use crate::text::{owned, append, str_eq, chars_of, string_of, matches_at, join, views, join_strings};
use crate::text::{line_col, line_and_column, decimal, decimal_string, parse_u64, split_words, starts_with_seq};
use crate::semantics::{ArithOp, SNumeric, Request, Reply, SState, Out, Block, SRes};
use crate::semantics::{lookup, set_var, set_env, enter, leave};
use crate::semantics::{return_marker, interrupted, newline, space, truthy, then_lines};
use crate::semantics::{block_value, block_result, arith_op, binop, builtin, trace_frames};
use crate::semantics::{error_report, bind_params, size_expr, size_exprs, size_stmt, size_stmts};
use crate::parser::{spec_parse_program, read_program, statement_places, parses, syntax_message, program_starts};
use crate::json::{reformat_json, json_answer};
use crate::compose::{expr_done, args_done, stmt_done, block_done, body_done, builtin_done};
use crate::compose::{lemma_assoc, lemma_empty_left, lemma_rest_one, lemma_literal, lemma_variable, lemma_command_sub};
use crate::compose::{lemma_binop_left_err, lemma_binop_right_err, lemma_binop_plain, lemma_binop_arith, lemma_args_empty, lemma_args_head_err};
use crate::compose::{lemma_args_cons, lemma_call_args_err, lemma_call_no_fuel, lemma_call_user, lemma_call_builtin, lemma_body_empty};
use crate::compose::{lemma_body_cancel, lemma_body_stop, lemma_body_cons, lemma_block_empty, lemma_block_stop, lemma_block_cons};
use crate::compose::{lemma_assign, lemma_command_err, lemma_command, lemma_if_cond, lemma_if_block, lemma_fundef};
use crate::compose::{lemma_return, while_inv, lemma_while_init, lemma_while_finish, lemma_while_exit_cond, lemma_while_exit_fuel};
use crate::compose::{lemma_while_exit_cancel, lemma_while_exit_body, lemma_while_round, for_inv, lemma_for_list_err, lemma_for_init};
use crate::compose::{top_inv, run_done, collect, lemma_top_init, lemma_top_exit_empty, lemma_top_exit_cancel};
use crate::compose::{lemma_top_exit_err, lemma_top_round, lemma_top_finish};
use crate::compose::{lemma_for_finish, lemma_for_exit_empty, lemma_for_exit_fuel, lemma_for_exit_cancel, lemma_for_exit_body, lemma_for_round};

verus! {

/// What the host's arithmetic reports.
pub enum Numeric {
    Value(String),
    NotNumbers,
    DivisionByZero,
}

impl View for Numeric {
    type V = SNumeric;

    open spec fn view(&self) -> SNumeric {
        match self {
            Numeric::Value(s) => SNumeric::Value(s@),
            Numeric::NotNumbers => SNumeric::NotNumbers,
            Numeric::DivisionByZero => SNumeric::DivisionByZero,
        }
    }
}

/// The outside world of a running script. Nothing is assumed of what its
/// methods return: the interpreter's contracts speak of every possible reply.
pub trait Host {
    /// Runs a shell command line and returns its output or error.
    fn run_command(&mut self, cmd_line: String) -> Result<String, String>;

    /// Fetches a URL and returns the body or an error.
    fn http_get(&mut self, url: String) -> Result<String, String>;

    /// Reads the text of the file at `path`.
    fn read_file(&mut self, path: String) -> Result<String, String>;

    /// Writes `content` as the whole text of the file at `path`, and says
    /// what was done.
    fn write_file(&mut self, path: String, content: String) -> Result<String, String>;

    /// Waits for `ms` milliseconds.
    fn sleep(&mut self, ms: u64);

    /// Whether the user has asked to stop the running script.
    fn cancelled(&mut self) -> bool;

    /// Forgets an earlier request to stop.
    fn clear_cancel(&mut self);

    /// Reads both operands as floating-point numbers and applies `op`,
    /// reporting the result as text, that an operand is not a number, or
    /// (for `Div` only) a zero divisor.
    fn arith(&mut self, op: ArithOp, left: String, right: String) -> Numeric;
}

pub open spec fn res_view(r: Result<String, String>) -> SRes {
    match r {
        Ok(s) => Ok(s@),
        Err(m) => Err(m@),
    }
}

pub open spec fn log_extends<T>(o: Seq<T>, n: Seq<T>) -> bool {
    o.len() <= n.len() && n.take(o.len() as int) == o
}

pub open spec fn log_delta<T>(o: Seq<T>, n: Seq<T>) -> Seq<T> {
    n.skip(o.len() as int)
}

pub proof fn lemma_log_trans<T>(a: Seq<T>, b: Seq<T>, c: Seq<T>)
    requires
        log_extends(a, b),
        log_extends(b, c),
    ensures
        log_extends(a, c),
        log_delta(a, c) == log_delta(a, b) + log_delta(b, c),
{
    assert(c.take(a.len() as int) =~= b.take(a.len() as int));
    assert(log_delta(a, c) =~= log_delta(a, b) + log_delta(b, c));
}

pub proof fn lemma_log_push<T>(a: Seq<T>, x: T)
    ensures
        log_extends(a, a.push(x)),
        log_delta(a, a.push(x)) == seq![x],
{
    assert(a.push(x).take(a.len() as int) =~= a);
    assert(log_delta(a, a.push(x)) =~= seq![x]);
}

pub proof fn lemma_log_refl<T>(a: Seq<T>)
    ensures
        log_extends(a, a),
        log_delta(a, a) == Seq::<T>::empty(),
{
    assert(a.take(a.len() as int) =~= a);
    assert(log_delta(a, a) =~= Seq::<T>::empty());
}

/// The interpreter. `variables` holds the scopes (outermost first),
/// `functions` the user-defined functions and `call_stack` the names of the
/// active calls; `replies` and `requests` record the transcript with the host.
pub struct Interpreter<H> {
    pub variables: Vec<Table<String>>,
    pub functions: Table<Function>,
    pub call_stack: Vec<String>,
    pub host: H,
    replies: Ghost<Seq<Reply>>,
    requests: Ghost<Seq<Request>>,
}

pub open spec fn scopes_view(v: Seq<Table<String>>) -> Seq<Map<Seq<char>, Seq<char>>> {
    v.map_values(|t: Table<String>| t@)
}

/// The interpreter `o` became `n` by an operation whose transcript is `R`
/// (replies) and `Q` (requests).
impl<H> Interpreter<H> {
    /// Every reply that the host has given, in order.
    pub closed spec fn reply_log(&self) -> Seq<Reply> {
        self.replies@
    }

    /// Every request made of the host, in order.
    pub closed spec fn request_log(&self) -> Seq<Request> {
        self.requests@
    }

    /// The host.
    pub closed spec fn host_of(&self) -> H {
        self.host
    }
}

pub open spec fn transcript<H>(o: Interpreter<H>, n: Interpreter<H>) -> (Seq<Reply>, Seq<Request>) {
    (log_delta(o.reply_log(), n.reply_log()), log_delta(o.request_log(), n.request_log()))
}

pub open spec fn grows<H>(o: Interpreter<H>, n: Interpreter<H>) -> bool {
    log_extends(o.reply_log(), n.reply_log()) && log_extends(o.request_log(), n.request_log())
}

pub proof fn lemma_grows_trans<H>(a: Interpreter<H>, b: Interpreter<H>, c: Interpreter<H>)
    requires
        grows(a, b),
        grows(b, c),
    ensures
        grows(a, c),
        transcript(a, c).0 == transcript(a, b).0 + transcript(b, c).0,
        transcript(a, c).1 == transcript(a, b).1 + transcript(b, c).1,
{
    lemma_log_trans(a.replies@, b.replies@, c.replies@);
    lemma_log_trans(a.requests@, b.requests@, c.requests@);
}

pub proof fn lemma_grows_refl<H>(a: Interpreter<H>)
    ensures
        grows(a, a),
        transcript(a, a).0 == Seq::<Reply>::empty(),
        transcript(a, a).1 == Seq::<Request>::empty(),
{
    lemma_log_refl(a.replies@);
    lemma_log_refl(a.requests@);
}

pub enum BlockOut {
    Returned(String),
    Lines(Vec<String>),
}

pub open spec fn block_view(b: Result<BlockOut, String>) -> Result<Block, Seq<char>> {
    match b {
        Ok(BlockOut::Returned(v)) => Ok(Block::Returned(v@)),
        Ok(BlockOut::Lines(ls)) => Ok(Block::Lines(views(ls@))),
        Err(m) => Err(m@),
    }
}

pub open spec fn body_view(b: Result<(Vec<String>, String), String>) -> Result<(Seq<Seq<char>>, Seq<char>), Seq<char>> {
    match b {
        Ok((ls, r)) => Ok((views(ls@), r@)),
        Err(m) => Err(m@),
    }
}

pub open spec fn vals_view(b: Result<Vec<String>, String>) -> Result<Seq<Seq<char>>, Seq<char>> {
    match b {
        Ok(v) => Ok(views(v@)),
        Err(m) => Err(m@),
    }
}

fn prepend(v: String, ls: Vec<String>) -> (r: Vec<String>)
    ensures
        views(r@) == seq![v@] + views(ls@),
{
    let mut r = ls;
    r.insert(0, v);
    assert(views(r@) =~= seq![v@] + views(ls@));
    r
}

fn starts_with_marker(v: &String) -> (r: bool)
    ensures
        r == starts_with_seq(v@, return_marker()),
{
    let c = chars_of(v.as_str());
    let m = chars_of("__RETURN__:");
    matches_at(&c, &m, 0)
}

fn after_marker(v: &String) -> (r: String)
    requires
        starts_with_seq(v@, return_marker()),
    ensures
        r@ == v@.skip(return_marker().len() as int),
{
    let c = chars_of(v.as_str());
    let m = chars_of("__RETURN__:");
    string_of(&c, m.len(), c.len())
}

fn is_truthy(v: &String) -> (r: bool)
    ensures
        r == truthy(v@),
{
    !v.as_str().is_empty() && !str_eq(v.as_str(), "false") && !str_eq(v.as_str(), "0")
}

fn text_of(b: bool) -> (r: String)
    ensures
        r@ == crate::semantics::bool_text(b),
{
    if b {
        owned("true")
    } else {
        owned("false")
    }
}

impl<H: Host> Interpreter<H> {
    /// The state that the semantics speaks of.
    pub closed spec fn state(&self) -> SState {
        SState {
            vars: scopes_view(self.variables@),
            funcs: self.functions@,
            stack: views(self.call_stack@),
        }
    }

    /// A fresh interpreter: one empty scope, no functions, the call stack
    /// `["main"]`, an empty transcript.
    pub fn new(host: H) -> (r: Self)
        ensures
            r.state().vars == seq![Map::<Seq<char>, Seq<char>>::empty()],
            r.state().funcs == Map::<Seq<char>, SFunction>::empty(),
            r.state().stack == seq!["main"@],
            r.reply_log() == Seq::<Reply>::empty(),
            r.request_log() == Seq::<Request>::empty(),
            r.host_of() == host,
    {
        let mut variables: Vec<Table<String>> = Vec::new();
        variables.push(Table::new());
        let mut call_stack: Vec<String> = Vec::new();
        call_stack.push(owned("main"));
        let r = Interpreter {
            variables,
            functions: Table::new(),
            call_stack,
            host,
            replies: Ghost(Seq::empty()),
            requests: Ghost(Seq::empty()),
        };
        assert(r.state().vars =~= seq![Map::<Seq<char>, Seq<char>>::empty()]);
        assert(r.state().stack =~= seq!["main"@]);
        r
    }

    /// The value of a variable in the innermost scope that has it.
    fn get_var(&self, name: &str) -> (r: Option<String>)
        ensures
            match r {
                Some(v) => lookup(self.state().vars, name@) == Some(v@),
                None => lookup(self.state().vars, name@) is None,
            },
    {
        let mut i = self.variables.len();
        assert(self.state().vars.take(i as int) =~= self.state().vars);
        while i > 0
            invariant
                i <= self.variables.len(),
                lookup(self.state().vars, name@) == lookup(self.state().vars.take(i as int), name@),
            decreases i,
        {
            let ghost vs = self.state().vars.take(i as int);
            assert(vs.drop_last() =~= self.state().vars.take(i - 1));
            match self.variables[i - 1].get(name) {
                Some(v) => {
                    return Some(v.clone());
                },
                None => {},
            }
            i = i - 1;
        }
        None
    }

    /// Sets a variable in the innermost scope.
    fn set_var(&mut self, name: String, val: String)
        ensures
            final(self).state() == set_var(old(self).state(), name@, val@),
            final(self).replies == old(self).replies,
            final(self).requests == old(self).requests,
    {
        if self.variables.len() > 0 {
            let ghost st0 = self.state();
            let mut sc = self.variables.pop().unwrap();
            sc.insert(name, val);
            self.variables.push(sc);
            assert(self.state().vars =~= set_var(st0, name@, val@).vars);
        }
    }

    /// Sets a variable in the outermost scope, as an environment variable.
    pub fn set_env(&mut self, name: &str, val: &str)
        ensures
            final(self).state() == set_env(old(self).state(), name@, val@),
            final(self).reply_log() == old(self).reply_log(),
            final(self).request_log() == old(self).request_log(),
    {
        if self.variables.len() > 0 {
            let ghost st0 = self.state();
            let mut sc = self.variables.remove(0);
            sc.insert(owned(name), owned(val));
            self.variables.insert(0, sc);
            assert(self.state().vars =~= set_env(st0, name@, val@).vars);
        }
    }
}


/// The operator that the host computes for `op`, if any.
fn op_kind(op: &String) -> (r: Option<ArithOp>)
    ensures
        r == arith_op(op@),
{
    if str_eq(op.as_str(), "+") {
        Some(ArithOp::Add)
    } else if str_eq(op.as_str(), "-") {
        Some(ArithOp::Sub)
    } else if str_eq(op.as_str(), "*") {
        Some(ArithOp::Mul)
    } else if str_eq(op.as_str(), "/") {
        Some(ArithOp::Div)
    } else {
        None
    }
}

/// The value of `l op r` given what the host's arithmetic reported.
fn apply_binop(op: &String, l: &String, r: &String, n: &Numeric) -> (res: Result<String, String>)
    ensures
        res_view(res) == binop(op@, l@, r@, n@),
{
    if str_eq(op.as_str(), "==") {
        Ok(text_of(str_eq(l.as_str(), r.as_str())))
    } else if str_eq(op.as_str(), "!=") {
        Ok(text_of(!str_eq(l.as_str(), r.as_str())))
    } else if str_eq(op.as_str(), "+") {
        match n {
            Numeric::Value(v) => Ok(v.clone()),
            _ => {
                let mut t = l.clone();
                append(&mut t, r.as_str());
                Ok(t)
            },
        }
    } else if str_eq(op.as_str(), "-") || str_eq(op.as_str(), "*") {
        match n {
            Numeric::Value(v) => Ok(v.clone()),
            _ => Err(owned("Invalid number")),
        }
    } else if str_eq(op.as_str(), "/") {
        match n {
            Numeric::Value(v) => Ok(v.clone()),
            Numeric::DivisionByZero => Err(owned("Division by zero")),
            Numeric::NotNumbers => Err(owned("Invalid number")),
        }
    } else {
        let mut m = owned("Unsupported operator: ");
        append(&mut m, op.as_str());
        Err(m)
    }
}

fn block_string(b: BlockOut) -> (r: String)
    ensures
        r@ == block_value(match b {
            BlockOut::Returned(v) => Block::Returned(v@),
            BlockOut::Lines(ls) => Block::Lines(views(ls@)),
        }),
{
    match b {
        BlockOut::Returned(v) => v,
        BlockOut::Lines(ls) => join_strings(&ls, "\n"),
    }
}

fn concat_lines(a: Vec<String>, b: Vec<String>) -> (r: Vec<String>)
    ensures
        views(r@) == views(a@) + views(b@),
{
    let mut r = a;
    let mut b = b;
    let ghost a0 = r@;
    let ghost b0 = b@;
    r.append(&mut b);
    assert(views(r@) =~= views(a0) + views(b0));
    r
}

// The `ask_*` methods are the only places where the interpreter calls its
// host. Each passes its arguments to the host unchanged and logs them as the
// request; `Host` has no contract, so that hand-over is not checked by Verus.
impl<H: Host> Interpreter<H> {
    fn ask_command(&mut self, cmd: String) -> (r: Result<String, String>)
        ensures
            final(self).state() == old(self).state(),
            final(self).replies@ == old(self).replies@.push(Reply::Text(res_view(r))),
            final(self).requests@ == old(self).requests@.push(Request::Command(cmd@)),
    {
        let ghost c = cmd@;
        let r = self.host.run_command(cmd);
        proof {
            self.replies@ = self.replies@.push(Reply::Text(res_view(r)));
            self.requests@ = self.requests@.push(Request::Command(c));
        }
        r
    }

    fn ask_http(&mut self, url: String) -> (r: Result<String, String>)
        ensures
            final(self).state() == old(self).state(),
            final(self).replies@ == old(self).replies@.push(Reply::Text(res_view(r))),
            final(self).requests@ == old(self).requests@.push(Request::HttpGet(url@)),
    {
        let ghost u = url@;
        let r = self.host.http_get(url);
        proof {
            self.replies@ = self.replies@.push(Reply::Text(res_view(r)));
            self.requests@ = self.requests@.push(Request::HttpGet(u));
        }
        r
    }

    fn ask_read_file(&mut self, path: String) -> (r: Result<String, String>)
        ensures
            final(self).state() == old(self).state(),
            final(self).replies@ == old(self).replies@.push(Reply::Text(res_view(r))),
            final(self).requests@ == old(self).requests@.push(Request::ReadFile(path@)),
    {
        let ghost p = path@;
        let r = self.host.read_file(path);
        proof {
            self.replies@ = self.replies@.push(Reply::Text(res_view(r)));
            self.requests@ = self.requests@.push(Request::ReadFile(p));
        }
        r
    }

    fn ask_write_file(&mut self, path: String, content: String) -> (r: Result<String, String>)
        ensures
            final(self).state() == old(self).state(),
            final(self).replies@ == old(self).replies@.push(Reply::Text(res_view(r))),
            final(self).requests@ == old(self).requests@.push(Request::WriteFile(path@, content@)),
    {
        let ghost p = path@;
        let ghost c = content@;
        let r = self.host.write_file(path, content);
        proof {
            self.replies@ = self.replies@.push(Reply::Text(res_view(r)));
            self.requests@ = self.requests@.push(Request::WriteFile(p, c));
        }
        r
    }

    fn ask_sleep(&mut self, ms: u64)
        ensures
            final(self).state() == old(self).state(),
            final(self).replies@ == old(self).replies@,
            final(self).requests@ == old(self).requests@.push(Request::Sleep(ms)),
    {
        self.host.sleep(ms);
        proof {
            self.requests@ = self.requests@.push(Request::Sleep(ms));
        }
    }

    fn ask_cancelled(&mut self) -> (r: bool)
        ensures
            final(self).state() == old(self).state(),
            final(self).replies@ == old(self).replies@.push(Reply::Flag(r)),
            final(self).requests@ == old(self).requests@.push(Request::CancelCheck),
    {
        let r = self.host.cancelled();
        proof {
            self.replies@ = self.replies@.push(Reply::Flag(r));
            self.requests@ = self.requests@.push(Request::CancelCheck);
        }
        r
    }

    fn ask_clear_cancel(&mut self)
        ensures
            final(self).state() == old(self).state(),
            final(self).replies@ == old(self).replies@,
            final(self).requests@ == old(self).requests@.push(Request::ClearCancel),
    {
        self.host.clear_cancel();
        proof {
            self.requests@ = self.requests@.push(Request::ClearCancel);
        }
    }

    fn ask_arith(&mut self, op: ArithOp, l: String, r: String) -> (n: Numeric)
        ensures
            final(self).state() == old(self).state(),
            final(self).replies@ == old(self).replies@.push(Reply::Number(n@)),
            final(self).requests@ == old(self).requests@.push(Request::Arith(op, l@, r@)),
    {
        let ghost lv = l@;
        let ghost rv = r@;
        let n = self.host.arith(op, l, r);
        proof {
            self.replies@ = self.replies@.push(Reply::Number(n@));
            self.requests@ = self.requests@.push(Request::Arith(op, lv, rv));
        }
        n
    }

    /// Enters a call of `f`: a new scope binding its parameters, and `name`
    /// on the call stack.
    fn enter(&mut self, name: String, f: &Function, vals: &Vec<String>)
        ensures
            final(self).state() == enter(old(self).state(), name@, f@, views(vals@)),
            final(self).replies == old(self).replies,
            final(self).requests == old(self).requests,
    {
        let ghost st0 = self.state();
        let ghost ps = f@.params;
        let mut scope: Table<String> = Table::new();
        let mut i: usize = 0;
        while i < f.params.len()
            invariant
                i <= f.params.len(),
                ps == f.params@.map_values(|p: String| p@),
                scope@ == bind_params(ps.take(i as int), views(vals@)),
            decreases f.params.len() - i,
        {
            let v = if i < vals.len() {
                vals[i].clone()
            } else {
                String::new()
            };
            proof {
                assert(ps.take(i + 1).drop_last() =~= ps.take(i as int));
            }
            scope.insert(f.params[i].clone(), v);
            i = i + 1;
        }
        assert(ps.take(i as int) =~= ps);
        self.variables.push(scope);
        self.call_stack.push(name);
        assert(self.state().vars =~= enter(st0, name@, f@, views(vals@)).vars);
        assert(self.state().stack =~= enter(st0, name@, f@, views(vals@)).stack);
    }

    /// Leaves a call: its scope and its call-stack entry go.
    fn leave(&mut self)
        ensures
            final(self).state() == leave(old(self).state()),
            final(self).replies == old(self).replies,
            final(self).requests == old(self).requests,
    {
        let ghost st0 = self.state();
        if self.variables.len() > 0 {
            self.variables.pop();
        }
        if self.call_stack.len() > 0 {
            self.call_stack.pop();
        }
        assert(self.state().vars =~= leave(st0).vars);
        assert(self.state().stack =~= leave(st0).stack);
    }
}


impl<H: Host> Interpreter<H> {
    /// A built-in function on evaluated arguments.
    fn call_builtin(&mut self, name: &String, vals: Vec<String>) -> (r: Result<String, String>)
        ensures
            grows(*old(self), *final(self)),
            final(self).state() == old(self).state(),
            builtin_done(old(self).state(), name@, views(vals@), transcript(*old(self), *final(self)).0,
                transcript(*old(self), *final(self)).1, res_view(r)),
    {
        let ghost s0 = *self;
        let ghost st = self.state();
        let ghost vs = views(vals@);
        proof {
            lemma_grows_refl(*self);
        }
        let r = if str_eq(name.as_str(), "print") {
            Ok(join_strings(&vals, " "))
        } else if str_eq(name.as_str(), "len") {
            if vals.len() > 0 {
                Ok(decimal_string(vals[0].as_str().len() as u64))
            } else {
                Ok(owned("0"))
            }
        } else if str_eq(name.as_str(), "sleep") {
            if vals.len() > 0 {
                match parse_u64(vals[0].as_str()) {
                    Some(ms) => {
                        self.ask_sleep(ms);
                        proof {
                            lemma_log_refl(s0.replies@);
                            lemma_log_push(s0.requests@, Request::Sleep(ms));
                            assert forall|fl: nat, q0: Seq<Request>, f: Seq<Reply>|
                                #[trigger] builtin(st, name@, vs, fl, transcript(s0, *self).0 + f, q0)
                                    == (Out { st, val: Ok::<Seq<char>, Seq<char>>(Seq::empty()), fuel: fl, rs: f, reqs: q0 + transcript(s0, *self).1 }) by {
                                lemma_empty_left(f);
                                assert(q0.push(Request::Sleep(ms)) =~= q0 + seq![Request::Sleep(ms)]);
                            }
                        }
                        return Ok(String::new());
                    },
                    None => {},
                }
            }
            Ok(String::new())
        } else if str_eq(name.as_str(), "http_get") {
            if vals.len() > 0 {
                let r = self.ask_http(vals[0].clone());
                proof {
                    lemma_log_push(s0.replies@, Reply::Text(res_view(r)));
                    lemma_log_push(s0.requests@, Request::HttpGet(vs[0]));
                    assert forall|fl: nat, q0: Seq<Request>, f: Seq<Reply>|
                        #[trigger] builtin(st, name@, vs, fl, transcript(s0, *self).0 + f, q0)
                            == (Out { st, val: res_view(r), fuel: fl, rs: f, reqs: q0 + transcript(s0, *self).1 }) by {
                        lemma_rest_one(Reply::Text(res_view(r)), f);
                        assert(q0.push(Request::HttpGet(vs[0])) =~= q0 + seq![Request::HttpGet(vs[0])]);
                    }
                }
                return r;
            } else {
                Err(owned("http_get requires a URL"))
            }
        } else if str_eq(name.as_str(), "read_file") {
            if vals.len() > 0 {
                let r = self.ask_read_file(vals[0].clone());
                proof {
                    lemma_log_push(s0.replies@, Reply::Text(res_view(r)));
                    lemma_log_push(s0.requests@, Request::ReadFile(vs[0]));
                    assert forall|fl: nat, q0: Seq<Request>, f: Seq<Reply>|
                        #[trigger] builtin(st, name@, vs, fl, transcript(s0, *self).0 + f, q0)
                            == (Out { st, val: res_view(r), fuel: fl, rs: f, reqs: q0 + transcript(s0, *self).1 }) by {
                        lemma_rest_one(Reply::Text(res_view(r)), f);
                        assert(q0.push(Request::ReadFile(vs[0])) =~= q0 + seq![Request::ReadFile(vs[0])]);
                    }
                }
                return r;
            } else {
                Err(owned("read_file requires a path"))
            }
        } else if str_eq(name.as_str(), "write_file") {
            if vals.len() > 1 {
                let r = self.ask_write_file(vals[0].clone(), vals[1].clone());
                proof {
                    lemma_log_push(s0.replies@, Reply::Text(res_view(r)));
                    lemma_log_push(s0.requests@, Request::WriteFile(vs[0], vs[1]));
                    assert forall|fl: nat, q0: Seq<Request>, f: Seq<Reply>|
                        #[trigger] builtin(st, name@, vs, fl, transcript(s0, *self).0 + f, q0)
                            == (Out { st, val: res_view(r), fuel: fl, rs: f, reqs: q0 + transcript(s0, *self).1 }) by {
                        lemma_rest_one(Reply::Text(res_view(r)), f);
                        assert(q0.push(Request::WriteFile(vs[0], vs[1])) =~= q0 + seq![Request::WriteFile(vs[0], vs[1])]);
                    }
                }
                return r;
            } else {
                Err(owned("write_file requires path and content"))
            }
        } else if str_eq(name.as_str(), "json_parse") {
            if vals.len() > 0 {
                json_answer(reformat_json(vals[0].as_str()))
            } else {
                Err(owned("json_parse requires a string"))
            }
        } else {
            let mut msg = owned("Unknown call: ");
            append(&mut msg, name.as_str());
            Err(msg)
        };
        proof {
            assert forall|fl: nat, q0: Seq<Request>, f: Seq<Reply>|
                #[trigger] builtin(st, name@, vs, fl, transcript(s0, *self).0 + f, q0)
                    == (Out { st, val: res_view(r), fuel: fl, rs: f, reqs: q0 + transcript(s0, *self).1 }) by {
                lemma_empty_left(f);
                lemma_empty_left(q0);
            }
        }
        r
    }

    /// The values of `args[i..]`, left to right; the first error stops.
    fn eval_args_from(&mut self, args: &Vec<Expr>, i: usize, fuel: &mut u64) -> (r: Result<Vec<String>, String>)
        requires
            i <= args.len(),
        ensures
            grows(*old(self), *final(self)),
            *final(fuel) <= *old(fuel),
            args_done(old(self).state(), exprs_view(args@).subrange(i as int, args@.len() as int),
                *old(fuel) as nat, transcript(*old(self), *final(self)).0, transcript(*old(self), *final(self)).1,
                final(self).state(), vals_view(r), *final(fuel) as nat),
        decreases *old(fuel), size_exprs(exprs_view(args@).subrange(i as int, args@.len() as int)),
    {
        let ghost s0 = *self;
        let ghost f0 = *fuel as nat;
        let ghost a = exprs_view(args@).subrange(i as int, args@.len() as int);
        proof {
            lemma_exprs_view(args@);
        }
        if i == args.len() {
            proof {
                lemma_grows_refl(*self);
                lemma_args_empty(s0.state(), a, f0);
                assert(views(Seq::<String>::empty()) =~= Seq::<Seq<char>>::empty());
            }
            return Ok(Vec::new());
        }
        proof {
            assert(a[0] == expr_view(args@[i as int]));
            assert(a.subrange(1, a.len() as int) =~= exprs_view(args@).subrange(i + 1, args@.len() as int));
        }
        let v = self.eval_expr(&args[i], fuel);
        let ghost s1 = *self;
        let ghost f1 = *fuel as nat;
        match v {
            Err(m) => {
                proof {
                    lemma_args_head_err(s0.state(), a, f0, transcript(s0, s1).0, transcript(s0, s1).1, s1.state(), m@, f1);
                }
                Err(m)
            },
            Ok(v) => {
                let later = self.eval_args_from(args, i + 1, fuel);
                let ghost s2 = *self;
                let ghost f2 = *fuel as nat;
                proof {
                    lemma_grows_trans(s0, s1, s2);
                    lemma_args_cons(s0.state(), a, f0, transcript(s0, s1).0, transcript(s0, s1).1, s1.state(), v@, f1,
                        transcript(s1, s2).0, transcript(s1, s2).1, s2.state(), vals_view(later), f2);
                }
                match later {
                    Err(m) => Err(m),
                    Ok(vs) => Ok(prepend(v, vs)),
                }
            },
        }
    }

    /// The value of an expression.
    fn eval_expr(&mut self, e: &Expr, fuel: &mut u64) -> (r: Result<String, String>)
        ensures
            grows(*old(self), *final(self)),
            *final(fuel) <= *old(fuel),
            expr_done(old(self).state(), e@, *old(fuel) as nat, transcript(*old(self), *final(self)).0,
                transcript(*old(self), *final(self)).1, final(self).state(), res_view(r), *final(fuel) as nat),
        decreases *old(fuel), size_expr(e@),
    {
        let ghost s0 = *self;
        let ghost f0 = *fuel as nat;
        match e {
            Expr::Literal(v) => {
                proof {
                    lemma_grows_refl(*self);
                    lemma_literal(s0.state(), v@, f0);
                }
                Ok(v.clone())
            },
            Expr::Variable(n) => {
                let r = match self.get_var(n.as_str()) {
                    Some(v) => Ok(v),
                    None => {
                        let mut m = owned("Undefined variable: $");
                        append(&mut m, n.as_str());
                        Err(m)
                    },
                };
                proof {
                    lemma_grows_refl(*self);
                    lemma_variable(s0.state(), n@, f0, res_view(r));
                }
                r
            },
            Expr::CommandSub(c) => {
                let r = self.ask_command(c.clone());
                proof {
                    lemma_log_push(s0.replies@, Reply::Text(res_view(r)));
                    lemma_log_push(s0.requests@, Request::Command(c@));
                    lemma_command_sub(s0.state(), c@, f0, res_view(r));
                }
                r
            },
            Expr::BinaryOp(l, op, rt) => {
                let lr = self.eval_expr(l, fuel);
                let ghost s1 = *self;
                let ghost f1 = *fuel as nat;
                let lv = match lr {
                    Err(m) => {
                        proof {
                            lemma_binop_left_err(s0.state(), l@, op@, rt@, f0, transcript(s0, s1).0, transcript(s0, s1).1, s1.state(), m@, f1);
                        }
                        return Err(m);
                    },
                    Ok(lv) => lv,
                };
                let rr = self.eval_expr(rt, fuel);
                let ghost s2 = *self;
                let ghost f2 = *fuel as nat;
                proof {
                    lemma_grows_trans(s0, s1, s2);
                }
                let rv = match rr {
                    Err(m) => {
                        proof {
                            lemma_binop_right_err(s0.state(), l@, op@, rt@, f0, transcript(s0, s1).0, transcript(s0, s1).1, s1.state(), lv@, f1,
                                transcript(s1, s2).0, transcript(s1, s2).1, s2.state(), m@, f2);
                        }
                        return Err(m);
                    },
                    Ok(rv) => rv,
                };
                match op_kind(op) {
                    Some(k) => {
                        let n = self.ask_arith(k, lv.clone(), rv.clone());
                        let res = apply_binop(op, &lv, &rv, &n);
                        proof {
                            lemma_log_push(s2.replies@, Reply::Number(n@));
                            lemma_log_push(s2.requests@, Request::Arith(k, lv@, rv@));
                            lemma_grows_trans(s0, s2, *self);
                            lemma_binop_arith(s0.state(), l@, op@, rt@, f0, transcript(s0, s1).0, transcript(s0, s1).1, s1.state(), lv@, f1,
                                transcript(s1, s2).0, transcript(s1, s2).1, s2.state(), rv@, f2, k, n@);
                            assert(transcript(s0, *self).0 =~= transcript(s0, s1).0 + transcript(s1, s2).0 + seq![Reply::Number(n@)]);
                            assert(transcript(s0, *self).1 =~= (transcript(s0, s1).1 + transcript(s1, s2).1).push(Request::Arith(k, lv@, rv@)));
                        }
                        res
                    },
                    None => {
                        let res = apply_binop(op, &lv, &rv, &Numeric::NotNumbers);
                        proof {
                            lemma_binop_plain(s0.state(), l@, op@, rt@, f0, transcript(s0, s1).0, transcript(s0, s1).1, s1.state(), lv@, f1,
                                transcript(s1, s2).0, transcript(s1, s2).1, s2.state(), rv@, f2);
                        }
                        res
                    },
                }
            },
            Expr::Call(name, args) => {
                proof {
                    lemma_exprs_view(args@);
                    assert(exprs_view(args@).subrange(0, args@.len() as int) =~= exprs_view(args@));
                }
                let av = self.eval_args_from(args, 0, fuel);
                let ghost s1 = *self;
                let ghost f1 = *fuel as nat;
                let ghost r1 = transcript(s0, s1).0;
                let ghost q1 = transcript(s0, s1).1;
                let vals = match av {
                    Err(m) => {
                        proof {
                            lemma_call_args_err(s0.state(), name@, exprs_view(args@), f0, r1, q1, s1.state(), m@, f1);
                        }
                        return Err(m);
                    },
                    Ok(vals) => vals,
                };
                if !self.functions.contains(name.as_str()) {
                    let r = self.call_builtin(name, vals);
                    proof {
                        lemma_grows_trans(s0, s1, *self);
                        lemma_call_builtin(s0.state(), name@, exprs_view(args@), f0, r1, q1, s1.state(), views(vals@), f1,
                            transcript(s1, *self).0, transcript(s1, *self).1, res_view(r));
                    }
                    return r;
                }
                if *fuel == 0 {
                    proof {
                        lemma_call_no_fuel(s0.state(), name@, exprs_view(args@), f0, r1, q1, s1.state(), views(vals@));
                    }
                    return Err(owned("Interrupted"));
                }
                let func = self.functions.get(name.as_str()).unwrap().copy();
                *fuel = *fuel - 1;
                self.enter(name.clone(), &func, &vals);
                let ghost s2 = *self;
                proof {
                    lemma_stmts_view(func.body@);
                    assert(stmts_view(func.body@).subrange(0, func.body@.len() as int) =~= stmts_view(func.body@));
                    assert(transcript(s1, s2) == transcript(s1, s1));
                    lemma_grows_refl(s1);
                }
                let b = self.run_body_from(&func.body, 0, fuel);
                let ghost s3 = *self;
                let ghost f3 = *fuel as nat;
                let ghost bv = body_view(b);
                proof {
                    lemma_grows_trans(s1, s2, s3);
                    lemma_grows_trans(s0, s1, s3);
                    lemma_call_user(s0.state(), name@, exprs_view(args@), f0, r1, q1, s1.state(), views(vals@), f1,
                        transcript(s2, s3).0, transcript(s2, s3).1, s3.state(), bv, f3);
                }
                match b {
                    Err(m) => {
                        Err(m)
                    },
                    Ok((lines, ret)) => {
                        self.leave();
                        let out = if !ret.as_str().is_empty() {
                            Ok(ret)
                        } else {
                            Ok(join_strings(&lines, "\n"))
                        };
                        out
                    },
                }
            },
        }
    }

    /// A function body from statement `i` on: each statement is preceded by
    /// a cancellation check.
    fn run_body_from(&mut self, body: &Vec<Statement>, i: usize, fuel: &mut u64) -> (r: Result<(Vec<String>, String), String>)
        requires
            i <= body.len(),
        ensures
            grows(*old(self), *final(self)),
            *final(fuel) <= *old(fuel),
            body_done(old(self).state(), stmts_view(body@).subrange(i as int, body@.len() as int),
                *old(fuel) as nat, transcript(*old(self), *final(self)).0, transcript(*old(self), *final(self)).1,
                final(self).state(), body_view(r), *final(fuel) as nat),
        decreases *old(fuel), size_stmts(stmts_view(body@).subrange(i as int, body@.len() as int)),
    {
        let ghost s0 = *self;
        let ghost f0 = *fuel as nat;
        let ghost a = stmts_view(body@).subrange(i as int, body@.len() as int);
        proof {
            lemma_stmts_view(body@);
        }
        if i == body.len() {
            proof {
                lemma_grows_refl(*self);
                lemma_body_empty(s0.state(), a, f0);
                assert(views(Seq::<String>::empty()) =~= Seq::<Seq<char>>::empty());
            }
            return Ok((Vec::new(), String::new()));
        }
        proof {
            assert(a[0] == stmt_view(body@[i as int]));
            assert(a.subrange(1, a.len() as int) =~= stmts_view(body@).subrange(i + 1, body@.len() as int));
        }
        let c = self.ask_cancelled();
        let ghost s1 = *self;
        proof {
            lemma_log_push(s0.replies@, Reply::Flag(c));
            lemma_log_push(s0.requests@, Request::CancelCheck);
        }
        if c {
            proof {
                lemma_body_cancel(s0.state(), a, f0);
            }
            return Err(owned("Interrupted"));
        }
        let v = self.exec_statement(&body[i], fuel);
        let ghost s2 = *self;
        let ghost f2 = *fuel as nat;
        proof {
            lemma_grows_trans(s0, s1, s2);
        }
        let v = match v {
            Err(m) => {
                proof {
                    lemma_body_stop(s0.state(), a, f0, transcript(s1, s2).0, transcript(s1, s2).1, s2.state(), Err(m@), f2);
                }
                return Err(m);
            },
            Ok(v) => v,
        };
        if starts_with_marker(&v) {
            let ret = after_marker(&v);
            proof {
                lemma_body_stop(s0.state(), a, f0, transcript(s1, s2).0, transcript(s1, s2).1, s2.state(), Ok(v@), f2);
                assert(views(Seq::<String>::empty()) =~= Seq::<Seq<char>>::empty());
            }
            return Ok((Vec::new(), ret));
        }
        let later = self.run_body_from(body, i + 1, fuel);
        let ghost s3 = *self;
        let ghost f3 = *fuel as nat;
        proof {
            lemma_grows_trans(s0, s2, s3);
            lemma_body_cons(s0.state(), a, f0, transcript(s1, s2).0, transcript(s1, s2).1, s2.state(), v@, f2,
                transcript(s2, s3).0, transcript(s2, s3).1, s3.state(), body_view(later), f3);
            lemma_assoc(seq![Reply::Flag(false)], transcript(s1, s2).0, transcript(s2, s3).0);
            lemma_assoc(seq![Request::CancelCheck], transcript(s1, s2).1, transcript(s2, s3).1);
        }
        match later {
            Err(m) => Err(m),
            Ok((lines, ret)) => {
                if !v.as_str().is_empty() {
                    Ok((prepend(v, lines), ret))
                } else {
                    Ok((lines, ret))
                }
            },
        }
    }

    /// A block from statement `i` on.
    fn exec_block_from(&mut self, ss: &Vec<Statement>, i: usize, fuel: &mut u64) -> (r: Result<BlockOut, String>)
        requires
            i <= ss.len(),
        ensures
            grows(*old(self), *final(self)),
            *final(fuel) <= *old(fuel),
            block_done(old(self).state(), stmts_view(ss@).subrange(i as int, ss@.len() as int),
                *old(fuel) as nat, transcript(*old(self), *final(self)).0, transcript(*old(self), *final(self)).1,
                final(self).state(), block_view(r), *final(fuel) as nat),
        decreases *old(fuel), size_stmts(stmts_view(ss@).subrange(i as int, ss@.len() as int)),
    {
        let ghost s0 = *self;
        let ghost f0 = *fuel as nat;
        let ghost a = stmts_view(ss@).subrange(i as int, ss@.len() as int);
        proof {
            lemma_stmts_view(ss@);
        }
        if i == ss.len() {
            proof {
                lemma_grows_refl(*self);
                lemma_block_empty(s0.state(), a, f0);
                assert(views(Seq::<String>::empty()) =~= Seq::<Seq<char>>::empty());
            }
            return Ok(BlockOut::Lines(Vec::new()));
        }
        proof {
            assert(a[0] == stmt_view(ss@[i as int]));
            assert(a.subrange(1, a.len() as int) =~= stmts_view(ss@).subrange(i + 1, ss@.len() as int));
        }
        let v = self.exec_statement(&ss[i], fuel);
        let ghost s1 = *self;
        let ghost f1 = *fuel as nat;
        let v = match v {
            Err(m) => {
                proof {
                    lemma_block_stop(s0.state(), a, f0, transcript(s0, s1).0, transcript(s0, s1).1, s1.state(), Err(m@), f1);
                }
                return Err(m);
            },
            Ok(v) => v,
        };
        if starts_with_marker(&v) {
            proof {
                lemma_block_stop(s0.state(), a, f0, transcript(s0, s1).0, transcript(s0, s1).1, s1.state(), Ok(v@), f1);
            }
            return Ok(BlockOut::Returned(v));
        }
        let later = self.exec_block_from(ss, i + 1, fuel);
        let ghost s2 = *self;
        let ghost f2 = *fuel as nat;
        proof {
            lemma_grows_trans(s0, s1, s2);
            lemma_block_cons(s0.state(), a, f0, transcript(s0, s1).0, transcript(s0, s1).1, s1.state(), v@, f1,
                transcript(s1, s2).0, transcript(s1, s2).1, s2.state(), block_view(later), f2);
        }
        match later {
            Ok(BlockOut::Lines(ls)) => {
                if !v.as_str().is_empty() {
                    Ok(BlockOut::Lines(prepend(v, ls)))
                } else {
                    Ok(BlockOut::Lines(ls))
                }
            },
            other => other,
        }
    }
}


impl<H: Host> Interpreter<H> {
    /// The result of a statement.
    fn exec_statement(&mut self, s: &Statement, fuel: &mut u64) -> (r: Result<String, String>)
        ensures
            grows(*old(self), *final(self)),
            *final(fuel) <= *old(fuel),
            stmt_done(old(self).state(), s@, *old(fuel) as nat, transcript(*old(self), *final(self)).0,
                transcript(*old(self), *final(self)).1, final(self).state(), res_view(r), *final(fuel) as nat),
        decreases *old(fuel), size_stmt(s@),
    {
        let ghost s0 = *self;
        let ghost f0 = *fuel as nat;
        match s {
            Statement::Assignment(n, e) => {
                let v = self.eval_expr(e, fuel);
                let ghost s1 = *self;
                let ghost f1 = *fuel as nat;
                proof {
                    lemma_assign(s0.state(), n@, e@, f0, transcript(s0, s1).0, transcript(s0, s1).1, s1.state(), res_view(v), f1);
                }
                match v {
                    Err(m) => Err(m),
                    Ok(v) => {
                        self.set_var(n.clone(), v);
                        Ok(String::new())
                    },
                }
            },
            Statement::CommandCall(name, args) => {
                proof {
                    lemma_exprs_view(args@);
                    assert(exprs_view(args@).subrange(0, args@.len() as int) =~= exprs_view(args@));
                }
                let av = self.eval_args_from(args, 0, fuel);
                let ghost s1 = *self;
                let ghost f1 = *fuel as nat;
                match av {
                    Err(m) => {
                        proof {
                            lemma_command_err(s0.state(), name@, exprs_view(args@), f0, transcript(s0, s1).0, transcript(s0, s1).1, s1.state(), m@, f1);
                        }
                        Err(m)
                    },
                    Ok(vals) => {
                        let mut line = name.clone();
                        append(&mut line, " ");
                        let joined = join_strings(&vals, " ");
                        append(&mut line, joined.as_str());
                        let ghost l = line@;
                        let r = self.ask_command(line);
                        proof {
                            lemma_log_push(s1.replies@, Reply::Text(res_view(r)));
                            lemma_log_push(s1.requests@, Request::Command(l));
                            lemma_grows_trans(s0, s1, *self);
                            lemma_command(s0.state(), name@, exprs_view(args@), f0, transcript(s0, s1).0, transcript(s0, s1).1, s1.state(), views(vals@), f1, res_view(r));
                            assert(l == name@ + space() + join(views(vals@), space()));
                            assert(transcript(s0, *self).0 =~= transcript(s0, s1).0 + seq![Reply::Text(res_view(r))]);
                            assert(transcript(s0, *self).1 =~= transcript(s0, s1).1.push(Request::Command(l)));
                        }
                        r
                    },
                }
            },
            Statement::If(c, t, eb) => {
                let v = self.eval_expr(c, fuel);
                let ghost s1 = *self;
                let ghost f1 = *fuel as nat;
                let ghost ebv = match eb {
                    Some(x) => Some(stmts_view(x@)),
                    None => None,
                };
                assert(s@ == SStmt::If(c@, stmts_view(t@), ebv));
                let v = match v {
                    Err(m) => {
                        proof {
                            lemma_if_cond(s0.state(), c@, stmts_view(t@), ebv, f0, transcript(s0, s1).0, transcript(s0, s1).1, s1.state(), Err(m@), f1);
                        }
                        return Err(m);
                    },
                    Ok(v) => v,
                };
                let chosen: Option<&Vec<Statement>> = if is_truthy(&v) {
                    Some(t)
                } else {
                    match eb {
                        Some(x) => Some(x),
                        None => None,
                    }
                };
                match chosen {
                    None => {
                        proof {
                            lemma_if_cond(s0.state(), c@, stmts_view(t@), ebv, f0, transcript(s0, s1).0, transcript(s0, s1).1, s1.state(), Ok(v@), f1);
                        }
                        Ok(String::new())
                    },
                    Some(blk) => {
                        proof {
                            lemma_stmts_view(blk@);
                            assert(stmts_view(blk@).subrange(0, blk@.len() as int) =~= stmts_view(blk@));
                        }
                        let b = self.exec_block_from(blk, 0, fuel);
                        let ghost s2 = *self;
                        let ghost f2 = *fuel as nat;
                        proof {
                            lemma_grows_trans(s0, s1, s2);
                            lemma_if_block(s0.state(), c@, stmts_view(t@), ebv, f0, transcript(s0, s1).0, transcript(s0, s1).1, s1.state(), v@, f1,
                                stmts_view(blk@), transcript(s1, s2).0, transcript(s1, s2).1, s2.state(), block_view(b), f2);
                        }
                        match b {
                            Err(m) => Err(m),
                            Ok(bo) => Ok(block_string(bo)),
                        }
                    },
                }
            },
            Statement::While(c, b) => self.run_while(s, c, b, fuel),
            Statement::For(var, l, b) => self.run_for(s, var, l, b, fuel),
            Statement::FunctionDef(n, ps, b) => {
                let f = Function { params: crate::ast::copy_strings(ps), body: crate::ast::copy_stmts(b) };
                self.functions.insert(n.clone(), f);
                proof {
                    lemma_grows_refl(*self);
                    lemma_fundef(s0.state(), n@, ps@.map_values(|p: String| p@), stmts_view(b@), f0);
                    assert(self.state().funcs == s0.state().funcs.insert(n@, SFunction { params: ps@.map_values(|p: String| p@), body: stmts_view(b@) }));
                    assert(self.state() == SState { funcs: s0.state().funcs.insert(n@, SFunction { params: ps@.map_values(|p: String| p@), body: stmts_view(b@) }), ..s0.state() });
                }
                Ok(String::new())
            },
            Statement::Return(e) => {
                let v = self.eval_expr(e, fuel);
                proof {
                    lemma_return(s0.state(), e@, f0, transcript(s0, *self).0, transcript(s0, *self).1, self.state(), res_view(v), *fuel as nat);
                }
                match v {
                    Err(m) => Err(m),
                    Ok(v) => {
                        let mut t = owned("__RETURN__:");
                        append(&mut t, v.as_str());
                        Ok(t)
                    },
                }
            },
            Statement::Expression(e) => {
                let v = self.eval_expr(e, fuel);
                proof {
                    lemma_return(s0.state(), e@, f0, transcript(s0, *self).0, transcript(s0, *self).1, self.state(), res_view(v), *fuel as nat);
                }
                v
            },
        }
    }

    /// A `while` statement `s`, whose condition is `c` and body `b`.
    fn run_while(&mut self, s: &Statement, c: &Expr, b: &Vec<Statement>, fuel: &mut u64) -> (r: Result<String, String>)
        requires
            s@ == SStmt::While(c@, stmts_view(b@)),
        ensures
            grows(*old(self), *final(self)),
            *final(fuel) <= *old(fuel),
            stmt_done(old(self).state(), s@, *old(fuel) as nat, transcript(*old(self), *final(self)).0,
                transcript(*old(self), *final(self)).1, final(self).state(), res_view(r), *final(fuel) as nat),
        decreases *old(fuel), size_expr(c@) + size_stmts(stmts_view(b@)),
    {
        let ghost s0 = *self;
        let ghost f0 = *fuel as nat;
        let ghost bv = stmts_view(b@);
        let mut acc: Vec<String> = Vec::new();
        proof {
            lemma_grows_refl(*self);
            lemma_stmts_view(b@);
            assert(bv.subrange(0, b@.len() as int) =~= bv);
            assert(views(acc@) =~= Seq::<Seq<char>>::empty());
            lemma_while_init(s0.state(), c@, bv, f0);
        }
        loop
            invariant
                grows(s0, *self),
                *fuel <= f0,
                f0 == *old(fuel) as nat,
                s0 == *old(self),
                bv == stmts_view(b@),
                s@ == SStmt::While(c@, bv),
                bv.subrange(0, b@.len() as int) == bv,
                while_inv(s0.state(), c@, bv, f0, transcript(s0, *self).0, transcript(s0, *self).1, views(acc@), self.state(), *fuel as nat),
            decreases *fuel,
        {
            let ghost s1 = *self;
            let ghost f1 = *fuel as nat;
            let v = self.eval_expr(c, fuel);
            let ghost s2 = *self;
            let ghost f2 = *fuel as nat;
            let ghost r12 = transcript(s1, s2).0;
            let ghost q12 = transcript(s1, s2).1;
            proof {
                lemma_grows_trans(s0, s1, s2);
            }
            let v = match v {
                Err(m) => {
                    proof {
                        lemma_while_exit_cond(s1.state(), c@, bv, f1, r12, q12, s2.state(), Err(m@), f2);
                        lemma_while_finish(s0.state(), c@, bv, f0, transcript(s0, s1).0, transcript(s0, s1).1, views(acc@), s1.state(), f1,
                            r12, q12, s2.state(), Err(m@), f2);
                    }
                    return Err(m);
                },
                Ok(v) => v,
            };
            if !is_truthy(&v) {
                let out = join_strings(&acc, "\n");
                proof {
                    lemma_while_exit_cond(s1.state(), c@, bv, f1, r12, q12, s2.state(), Ok(v@), f2);
                    lemma_while_finish(s0.state(), c@, bv, f0, transcript(s0, s1).0, transcript(s0, s1).1, views(acc@), s1.state(), f1,
                        r12, q12, s2.state(), Ok(Block::Lines(Seq::empty())), f2);
                    lemma_empty_left(views(acc@));
                }
                return Ok(out);
            }
            if *fuel == 0 {
                proof {
                    lemma_while_exit_fuel(s1.state(), c@, bv, f1, r12, q12, s2.state(), v@);
                    lemma_while_finish(s0.state(), c@, bv, f0, transcript(s0, s1).0, transcript(s0, s1).1, views(acc@), s1.state(), f1,
                        r12, q12, s2.state(), Err(interrupted()), 0);
                }
                return Err(owned("Interrupted"));
            }
            let cancelled = self.ask_cancelled();
            let ghost s3 = *self;
            proof {
                lemma_log_push(s2.replies@, Reply::Flag(cancelled));
                lemma_log_push(s2.requests@, Request::CancelCheck);
                lemma_grows_trans(s1, s2, s3);
                lemma_grows_trans(s0, s1, s3);
            }
            if cancelled {
                proof {
                    lemma_while_exit_cancel(s1.state(), c@, bv, f1, r12, q12, s2.state(), v@, f2);
                    lemma_while_finish(s0.state(), c@, bv, f0, transcript(s0, s1).0, transcript(s0, s1).1, views(acc@), s1.state(), f1,
                        r12 + seq![Reply::Flag(true)], q12.push(Request::CancelCheck), s2.state(), Err(interrupted()), f2);
                    assert(q12.push(Request::CancelCheck) =~= q12 + seq![Request::CancelCheck]);
                }
                return Err(owned("Interrupted"));
            }
            *fuel = *fuel - 1;
            let out = self.exec_block_from(b, 0, fuel);
            let ghost s4 = *self;
            let ghost f4 = *fuel as nat;
            let ghost ov = block_view(out);
            proof {
                lemma_grows_trans(s1, s3, s4);
                lemma_grows_trans(s0, s1, s4);
                assert(q12.push(Request::CancelCheck) =~= q12 + seq![Request::CancelCheck]);
            }
            match out {
                Ok(BlockOut::Lines(ls)) => {
                    let ghost acc0 = views(acc@);
                    let ghost lsv = views(ls@);
                    acc = concat_lines(acc, ls);
                    proof {
                        lemma_while_round(s0.state(), c@, bv, f0, transcript(s0, s1).0, transcript(s0, s1).1, acc0, s1.state(), f1,
                            r12, q12, s2.state(), v@, f2, transcript(s3, s4).0, transcript(s3, s4).1, s4.state(), lsv, f4);
                        lemma_assoc(r12, seq![Reply::Flag(false)], transcript(s3, s4).0);
                        lemma_assoc(q12, seq![Request::CancelCheck], transcript(s3, s4).1);
                    }
                },
                other => {
                    proof {
                        lemma_while_exit_body(s1.state(), c@, bv, f1, r12, q12, s2.state(), v@, f2,
                            transcript(s3, s4).0, transcript(s3, s4).1, s4.state(), ov, f4);
                        lemma_while_finish(s0.state(), c@, bv, f0, transcript(s0, s1).0, transcript(s0, s1).1, views(acc@), s1.state(), f1,
                            r12 + seq![Reply::Flag(false)] + transcript(s3, s4).0, q12.push(Request::CancelCheck) + transcript(s3, s4).1,
                            s4.state(), ov, f4);
                        lemma_assoc(r12, seq![Reply::Flag(false)], transcript(s3, s4).0);
                        lemma_assoc(q12, seq![Request::CancelCheck], transcript(s3, s4).1);
                    }
                    return match other {
                        Err(m) => Err(m),
                        Ok(bo) => Ok(block_string(bo)),
                    };
                },
            }
        }
    }

    /// A `for` statement `s`, binding `var` to each word of `l`'s value in
    /// turn for a round of the body `b`.
    fn run_for(&mut self, s: &Statement, var: &String, l: &Expr, b: &Vec<Statement>, fuel: &mut u64) -> (r: Result<String, String>)
        requires
            s@ == SStmt::For(var@, l@, stmts_view(b@)),
        ensures
            grows(*old(self), *final(self)),
            *final(fuel) <= *old(fuel),
            stmt_done(old(self).state(), s@, *old(fuel) as nat, transcript(*old(self), *final(self)).0,
                transcript(*old(self), *final(self)).1, final(self).state(), res_view(r), *final(fuel) as nat),
        decreases *old(fuel), size_expr(l@) + size_stmts(stmts_view(b@)),
    {
        let ghost s0 = *self;
        let ghost f0 = *fuel as nat;
        let ghost bv = stmts_view(b@);
        proof {
            lemma_stmts_view(b@);
            assert(bv.subrange(0, b@.len() as int) =~= bv);
        }
        let lr = self.eval_expr(l, fuel);
        let ghost s1 = *self;
        let ghost f1 = *fuel as nat;
        let ghost r01 = transcript(s0, s1).0;
        let ghost q01 = transcript(s0, s1).1;
        let lv = match lr {
            Err(m) => {
                proof {
                    lemma_for_list_err(s0.state(), var@, l@, bv, f0, r01, q01, s1.state(), m@, f1);
                }
                return Err(m);
            },
            Ok(v) => v,
        };
        let items = split_words(lv.as_str());
        let ghost it = views(items@);
        let mut acc: Vec<String> = Vec::new();
        let mut k: usize = 0;
        proof {
            lemma_grows_refl(*self);
            assert(views(acc@) =~= Seq::<Seq<char>>::empty());
            lemma_for_init(s1.state(), var@, it, bv, f1);
        }
        loop
            invariant
                grows(s0, s1),
                grows(s1, *self),
                *fuel <= f1,
                f1 <= f0,
                f0 == *old(fuel) as nat,
                s0 == *old(self),
                r01 == transcript(s0, s1).0,
                q01 == transcript(s0, s1).1,
                expr_done(s0.state(), l@, f0, r01, q01, s1.state(), Ok(lv@), f1),
                it == views(items@),
                it == crate::text::split_whitespace(lv@),
                k <= items.len(),
                bv == stmts_view(b@),
                s@ == SStmt::For(var@, l@, bv),
                bv.subrange(0, b@.len() as int) == bv,
                for_inv(s1.state(), var@, it, bv, f1, transcript(s1, *self).0, transcript(s1, *self).1, views(acc@), self.state(), k as int, *fuel as nat),
            decreases items.len() - k,
        {
            let ghost s2 = *self;
            let ghost f2 = *fuel as nat;
            let ghost rr = transcript(s1, s2).0;
            let ghost qq = transcript(s1, s2).1;
            let ghost accv = views(acc@);
            proof {
                lemma_grows_trans(s0, s1, s2);
                lemma_assoc(r01, rr, Seq::<Reply>::empty());
            }
            if k == items.len() {
                let out = join_strings(&acc, "\n");
                proof {
                    lemma_for_exit_empty(s2.state(), var@, it.skip(k as int), bv, f2);
                    lemma_for_finish(s0.state(), var@, l@, bv, f0, r01, q01, s1.state(), lv@, f1, rr, qq, accv, s2.state(), k as int, f2,
                        Seq::empty(), Seq::empty(), s2.state(), Ok(Block::Lines(Seq::empty())), f2);
                    lemma_empty_left(rr);
                    lemma_empty_left(qq);
                    lemma_empty_left(accv);
                    lemma_empty_left(r01 + rr);
                    lemma_empty_left(q01 + qq);
                }
                return Ok(out);
            }
            if *fuel == 0 {
                proof {
                    lemma_for_exit_fuel(s2.state(), var@, it.skip(k as int), bv);
                    lemma_for_finish(s0.state(), var@, l@, bv, f0, r01, q01, s1.state(), lv@, f1, rr, qq, accv, s2.state(), k as int, f2,
                        Seq::empty(), Seq::empty(), s2.state(), Err(interrupted()), 0);
                    lemma_empty_left(r01 + rr);
                    lemma_empty_left(q01 + qq);
                }
                return Err(owned("Interrupted"));
            }
            let cancelled = self.ask_cancelled();
            let ghost s3 = *self;
            proof {
                lemma_log_push(s2.replies@, Reply::Flag(cancelled));
                lemma_log_push(s2.requests@, Request::CancelCheck);
                lemma_grows_trans(s1, s2, s3);
                lemma_grows_trans(s0, s1, s3);
            }
            if cancelled {
                proof {
                    lemma_for_exit_cancel(s2.state(), var@, it.skip(k as int), bv, f2);
                    lemma_for_finish(s0.state(), var@, l@, bv, f0, r01, q01, s1.state(), lv@, f1, rr, qq, accv, s2.state(), k as int, f2,
                        seq![Reply::Flag(true)], seq![Request::CancelCheck], s2.state(), Err(interrupted()), f2);
                    assert(transcript(s0, s3).0 =~= r01 + rr + seq![Reply::Flag(true)]);
                    assert(transcript(s0, s3).1 =~= q01 + qq + seq![Request::CancelCheck]);
                }
                return Err(owned("Interrupted"));
            }
            self.set_var(var.clone(), items[k].clone());
            let ghost s3b = *self;
            *fuel = *fuel - 1;
            let out = self.exec_block_from(b, 0, fuel);
            let ghost s4 = *self;
            let ghost f4 = *fuel as nat;
            let ghost ov = block_view(out);
            proof {
                lemma_grows_refl(s3);
                assert(transcript(s3, s3b) == transcript(s3, s3));
                lemma_grows_trans(s3, s3b, s4);
                lemma_grows_trans(s1, s3, s4);
                lemma_grows_trans(s0, s1, s4);
                lemma_grows_trans(s2, s3, s4);
                assert(it.skip(k as int)[0] == it[k as int]);
                lemma_empty_left(transcript(s3b, s4).0);
                lemma_empty_left(transcript(s3b, s4).1);
            }
            match out {
                Ok(BlockOut::Lines(ls)) => {
                    let ghost lsv = views(ls@);
                    acc = concat_lines(acc, ls);
                    proof {
                        lemma_for_round(s1.state(), var@, it, bv, f1, rr, qq, accv, s2.state(), k as int, f2,
                            transcript(s3b, s4).0, transcript(s3b, s4).1, s4.state(), lsv, f4);
                        assert(transcript(s1, s4).0 =~= rr + (seq![Reply::Flag(false)] + transcript(s3b, s4).0));
                        assert(transcript(s1, s4).1 =~= qq + (seq![Request::CancelCheck] + transcript(s3b, s4).1));
                        assert(views(acc@) == accv + lsv);
                    }
                    k = k + 1;
                },
                other => {
                    proof {
                        lemma_for_exit_body(s2.state(), var@, it.skip(k as int), bv, f2, transcript(s3b, s4).0, transcript(s3b, s4).1, s4.state(), ov, f4);
                        lemma_for_finish(s0.state(), var@, l@, bv, f0, r01, q01, s1.state(), lv@, f1, rr, qq, accv, s2.state(), k as int, f2,
                            seq![Reply::Flag(false)] + transcript(s3b, s4).0, seq![Request::CancelCheck] + transcript(s3b, s4).1, s4.state(), ov, f4);
                        assert(transcript(s0, s4).0 =~= r01 + rr + (seq![Reply::Flag(false)] + transcript(s3b, s4).0));
                        assert(transcript(s0, s4).1 =~= q01 + qq + (seq![Request::CancelCheck] + transcript(s3b, s4).1));
                        assert(then_lines(accv, ov) == ov);
                    }
                    let res = match other {
                        Err(m) => Err(m),
                        Ok(bo) => Ok(block_string(bo)),
                    };
                    proof {
                        assert(res_view(res) == block_result(ov));
                    }
                    return res;
                },
            }
        }
    }
}

/// The report of a runtime error `msg` at `place` with the call stack `stack`.
fn report_error(msg: &String, stack: &Vec<String>, line: u64, column: u64) -> (r: String)
    ensures
        r@ == error_report(msg@, views(stack@), (line as nat, column as nat)),
{
    let mut r = owned("Runtime Error: ");
    append(&mut r, msg.as_str());
    append(&mut r, "\n");
    append(&mut r, "At line ");
    let ln = decimal_string(line);
    append(&mut r, ln.as_str());
    append(&mut r, ", column ");
    let cn = decimal_string(column);
    append(&mut r, cn.as_str());
    append(&mut r, "\n");
    append(&mut r, "Stack trace:");
    append(&mut r, "\n");
    let ghost head = r@;
    let ghost frames = views(stack@);
    let n = stack.len();
    let mut j: usize = n;
    proof {
        assert(frames.take(n as int) =~= frames);
        assert(r@ + Seq::<char>::empty() =~= r@);
    }
    while j > 0
        invariant
            j <= n,
            n == stack.len(),
            frames == views(stack@),
            r@ + trace_frames(frames.take(j as int), (n - j) as nat) == head + trace_frames(frames, 0),
        decreases j,
    {
        let ghost before = r@;
        let ghost fs = frames.take(j as int);
        assert(fs.drop_last() =~= frames.take(j - 1));
        assert(fs.last() == stack@[j - 1]@);
        append(&mut r, "  ");
        let num = decimal_string((n - j) as u64);
        append(&mut r, num.as_str());
        append(&mut r, ": ");
        append(&mut r, stack[j - 1].as_str());
        append(&mut r, "\n");
        proof {
            let line = "  "@ + decimal((n - j) as nat) + ": "@ + fs.last() + newline();
            assert(r@ =~= before + line);
            assert(trace_frames(fs, (n - j) as nat) == line + trace_frames(frames.take(j - 1), (n - j + 1) as nat));
            assert(before + (line + trace_frames(frames.take(j - 1), (n - j + 1) as nat))
                =~= (before + line) + trace_frames(frames.take(j - 1), (n - j + 1) as nat));
        }
        j = j - 1;
    }
    proof {
        assert(frames.take(0) =~= Seq::<Seq<char>>::empty());
        assert(r@ + Seq::<char>::empty() =~= r@);
    }
    r
}

impl<H: Host> Interpreter<H> {
    /// Runs the script `code` (see `run_with_budget`) with the largest budget.
    pub fn run(&mut self, code: &str) -> (out: String)
        ensures
            grows(*old(self), *final(self)),
            parses(code@) ==> run_done(old(self).state(), spec_parse_program(code@).1, statement_places(code@),
                u64::MAX as nat, transcript(*old(self), *final(self)).0, transcript(*old(self), *final(self)).1,
                final(self).state(), out@),
            !parses(code@) ==> {
                &&& out@ == "Parse Error: "@ + syntax_message(code@)
                &&& final(self).state() == old(self).state()
                &&& transcript(*old(self), *final(self)).0 == Seq::<Reply>::empty()
                &&& transcript(*old(self), *final(self)).1 == seq![Request::ClearCancel]
            },
    {
        self.run_with_budget(code, u64::MAX)
    }

    /// Executes one statement with the largest budget.
    pub fn execute_statement(&mut self, stmt: Statement) -> (r: Result<String, String>)
        ensures
            grows(*old(self), *final(self)),
            exists|f: nat| stmt_done(old(self).state(), stmt@, u64::MAX as nat, transcript(*old(self), *final(self)).0,
                transcript(*old(self), *final(self)).1, final(self).state(), res_view(r), f),
    {
        let mut fuel: u64 = u64::MAX;
        let r = self.exec_statement(&stmt, &mut fuel);
        proof {
            let f = fuel as nat;
            assert(stmt_done(old(self).state(), stmt@, u64::MAX as nat, transcript(*old(self), *self).0,
                transcript(*old(self), *self).1, self.state(), res_view(r), f));
        }
        r
    }

    /// Evaluates one expression with the largest budget.
    pub fn evaluate_expr(&mut self, expr: Expr) -> (r: Result<String, String>)
        ensures
            grows(*old(self), *final(self)),
            exists|f: nat| expr_done(old(self).state(), expr@, u64::MAX as nat, transcript(*old(self), *final(self)).0,
                transcript(*old(self), *final(self)).1, final(self).state(), res_view(r), f),
    {
        let mut fuel: u64 = u64::MAX;
        let r = self.eval_expr(&expr, &mut fuel);
        proof {
            let f = fuel as nat;
            assert(expr_done(old(self).state(), expr@, u64::MAX as nat, transcript(*old(self), *self).0,
                transcript(*old(self), *self).1, self.state(), res_view(r), f));
        }
        r
    }

    /// Runs the script `code` with at most `budget` loop rounds and function
    /// calls, and returns its output: the non-empty results of its top-level
    /// statements, one per line; `Interrupted` where the host asked to stop;
    /// or the report of the first runtime error with the call stack.
    #[verifier::rlimit(40)]
    pub fn run_with_budget(&mut self, code: &str, budget: u64) -> (out: String)
        ensures
            grows(*old(self), *final(self)),
            parses(code@) ==> run_done(old(self).state(), spec_parse_program(code@).1, statement_places(code@),
                budget as nat, transcript(*old(self), *final(self)).0, transcript(*old(self), *final(self)).1,
                final(self).state(), out@),
            !parses(code@) ==> {
                &&& out@ == "Parse Error: "@ + syntax_message(code@)
                &&& final(self).state() == old(self).state()
                &&& transcript(*old(self), *final(self)).0 == Seq::<Reply>::empty()
                &&& transcript(*old(self), *final(self)).1 == seq![Request::ClearCancel]
            },
    {
        let ghost s0 = *self;
        self.ask_clear_cancel();
        let ghost sc = *self;
        proof {
            lemma_log_refl(s0.replies@);
            lemma_log_push(s0.requests@, Request::ClearCancel);
        }
        let cs = chars_of(code);
        let (stop, stmts, starts) = read_program(&cs);
        let ghost ps = statement_places(code@);
        let end = crate::parser::skip_ws(&cs, stop);
        if end < cs.len() {
            let e = crate::parser::stop_message(&cs, end);
            let mut m = owned("Parse Error: ");
            append(&mut m, e.as_str());
            return m;
        }
        proof {
            assert(parses(code@));
            assert(starts@.map_values(|p: usize| p as int).len() == starts@.len());
            assert(ps.len() == stmts@.len());
            assert forall|i: int| 0 <= i < starts@.len() implies #[trigger] starts@[i] < cs.len() && ps[i] == line_col(code@, starts@[i] as int) by {
                assert(starts@.map_values(|p: usize| p as int)[i] == starts@[i] as int);
            }
        }
        let ghost ss = stmts_view(stmts@);
        let mut fuel: u64 = budget;
        let mut out: Vec<String> = Vec::new();
        let mut k: usize = 0;
        proof {
            lemma_stmts_view(stmts@);
            lemma_grows_refl(*self);
            lemma_top_init(sc.state(), ss, ps, budget as nat);
            assert(views(out@) =~= Seq::<Seq<char>>::empty());
        }
        loop
            invariant
                grows(s0, sc),
                sc.state() == s0.state(),
                transcript(s0, sc).0 == Seq::<Reply>::empty(),
                transcript(s0, sc).1 == seq![Request::ClearCancel],
                s0 == *old(self),
                grows(sc, *self),
                k <= stmts.len(),
                ss == stmts_view(stmts@),
                ss.len() == stmts.len(),
                ss == spec_parse_program(code@).1,
                cs@ == code@,
                parses(code@),
                ps == statement_places(code@),
                ps.len() == stmts.len(),
                starts@.len() == stmts.len(),
                forall|i: int| 0 <= i < starts@.len() ==> #[trigger] starts@[i] < cs.len() && ps[i] == line_col(code@, starts@[i] as int),
                forall|i: int| 0 <= i < stmts.len() ==> #[trigger] ss[i] == stmt_view(stmts@[i]),
                top_inv(sc.state(), ss, ps, budget as nat, transcript(sc, *self).0, transcript(sc, *self).1, views(out@), self.state(), k as int, fuel as nat),
            decreases stmts.len() - k,
        {
            let ghost s2 = *self;
            let ghost f2 = fuel as nat;
            let ghost rr = transcript(sc, s2).0;
            let ghost qq = transcript(sc, s2).1;
            let ghost outv = views(out@);
            proof {
                lemma_grows_trans(s0, sc, s2);
            }
            if k == stmts.len() {
                let r = join_strings(&out, "\n");
                proof {
                    lemma_top_exit_empty(s2.state(), ss.skip(k as int), ps.skip(k as int), f2, outv);
                    lemma_top_finish(sc.state(), ss, ps, budget as nat, rr, qq, outv, s2.state(), k as int, f2,
                        Seq::empty(), Seq::empty(), s2.state(), join(outv, newline()));
                    lemma_empty_left(rr);
                    lemma_empty_left(qq);
                    lemma_empty_left(rr + Seq::<Reply>::empty());
                }
                return r;
            }
            let c = self.ask_cancelled();
            let ghost s3 = *self;
            proof {
                lemma_log_push(s2.replies@, Reply::Flag(c));
                lemma_log_push(s2.requests@, Request::CancelCheck);
                lemma_grows_trans(sc, s2, s3);
                lemma_grows_trans(s0, sc, s3);
                assert(ss.skip(k as int).len() > 0);
            }
            if c {
                proof {
                    lemma_top_exit_cancel(s2.state(), ss.skip(k as int), ps.skip(k as int), f2, outv);
                    lemma_top_finish(sc.state(), ss, ps, budget as nat, rr, qq, outv, s2.state(), k as int, f2,
                        seq![Reply::Flag(true)], seq![Request::CancelCheck], s2.state(), interrupted());
                    lemma_empty_left(rr + seq![Reply::Flag(true)]);
                }
                return owned("Interrupted");
            }
            let r = self.exec_statement(&stmts[k], &mut fuel);
            let ghost s4 = *self;
            let ghost f4 = fuel as nat;
            proof {
                lemma_grows_trans(sc, s3, s4);
                lemma_grows_trans(s2, s3, s4);
                lemma_grows_trans(s0, sc, s4);
                assert(ss.skip(k as int)[0] == ss[k as int]);
            }
            match r {
                Err(m) => {
                    let (line, column) = line_and_column(&cs, starts[k]);
                    let rep = report_error(&m, &self.call_stack, line, column);
                    proof {
                        assert(ps.skip(k as int)[0] == ps[k as int]);
                        lemma_top_exit_err(s2.state(), ss.skip(k as int), ps.skip(k as int), f2, outv, transcript(s3, s4).0, transcript(s3, s4).1, s4.state(), m@, f4);
                        lemma_top_finish(sc.state(), ss, ps, budget as nat, rr, qq, outv, s2.state(), k as int, f2,
                            seq![Reply::Flag(false)] + transcript(s3, s4).0, seq![Request::CancelCheck] + transcript(s3, s4).1, s4.state(), error_report(m@, s4.state().stack, ps[k as int]));
                        assert(transcript(s0, s4).0 =~= Seq::<Reply>::empty() + (rr + (seq![Reply::Flag(false)] + transcript(s3, s4).0)));
                        assert(transcript(s0, s4).1 =~= seq![Request::ClearCancel] + (qq + (seq![Request::CancelCheck] + transcript(s3, s4).1)));
                    }
                    return rep;
                },
                Ok(v) => {
                    let ghost vv = v@;
                    if !str_eq(v.as_str(), "__NO_STDOUT__") && !v.as_str().is_empty() {
                        out.push(v);
                    }
                    proof {
                        lemma_top_round(sc.state(), ss, ps, budget as nat, rr, qq, outv, s2.state(), k as int, f2,
                            transcript(s3, s4).0, transcript(s3, s4).1, s4.state(), vv, f4);
                        assert(views(out@) =~= collect(outv, vv));
                        assert(transcript(sc, s4).0 =~= rr + (seq![Reply::Flag(false)] + transcript(s3, s4).0));
                        assert(transcript(sc, s4).1 =~= qq + (seq![Request::CancelCheck] + transcript(s3, s4).1));
                    }
                    k = k + 1;
                },
            }
        }
    }
}

} // verus!

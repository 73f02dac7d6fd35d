//! The Mini-ShellScript parser. Each function reads a character vector from a
//! position and is proved to agree with its namesake in `grammar`.

use vstd::prelude::*;
use crate::text::{multispace, ident_start, ident_char, matches_at, string_of, chars_of};
use crate::text::{owned, append, decimal, decimal_string, line_col, line_and_column};

use crate::ast::{Expr, Statement, SExpr, SStmt, exprs_view, stmts_view};
use crate::ast::{lemma_exprs_view, lemma_stmts_view, lemma_stmts_view_push};
use crate::grammar;

verus! {

pub open spec fn expr_result(r: Option<(usize, Expr)>) -> Option<(int, SExpr)> {
    match r {
        Some((j, e)) => Some((j as int, e@)),
        None => None,
    }
}

pub open spec fn exprs_result(r: Option<(usize, Vec<Expr>)>) -> Option<(int, Seq<SExpr>)> {
    match r {
        Some((j, es)) => Some((j as int, exprs_view(es@))),
        None => None,
    }
}

pub open spec fn stmt_result(r: Option<(usize, Statement)>) -> Option<(int, SStmt)> {
    match r {
        Some((j, st)) => Some((j as int, st@)),
        None => None,
    }
}

pub open spec fn stmts_result(r: Option<(usize, Vec<Statement>)>) -> Option<(int, Seq<SStmt>)> {
    match r {
        Some((j, ss)) => Some((j as int, stmts_view(ss@))),
        None => None,
    }
}

pub open spec fn name_result(r: Option<(usize, String)>) -> Option<(int, Seq<char>)> {
    match r {
        Some((j, n)) => Some((j as int, n@)),
        None => None,
    }
}

pub open spec fn names_view(v: Seq<String>) -> Seq<Seq<char>> {
    v.map_values(|p: String| p@)
}

pub open spec fn names_result(r: Option<(usize, Vec<String>)>) -> Option<(int, Seq<Seq<char>>)> {
    match r {
        Some((j, v)) => Some((j as int, names_view(v@))),
        None => None,
    }
}

fn cons_expr(e: Expr, v: Vec<Expr>) -> (r: Vec<Expr>)
    ensures
        exprs_view(r@) == seq![e@] + exprs_view(v@),
{
    let mut r = v;
    r.insert(0, e);
    proof {
        lemma_exprs_view(v@);
        lemma_exprs_view(r@);
        assert(exprs_view(r@) =~= seq![e@] + exprs_view(v@));
    }
    r
}

fn cons_stmt(st: Statement, v: Vec<Statement>) -> (r: Vec<Statement>)
    ensures
        stmts_view(r@) == seq![st@] + stmts_view(v@),
{
    let mut r = v;
    r.insert(0, st);
    proof {
        lemma_stmts_view(v@);
        lemma_stmts_view(r@);
        assert(stmts_view(r@) =~= seq![st@] + stmts_view(v@));
    }
    r
}

fn cons_name(n: String, v: Vec<String>) -> (r: Vec<String>)
    ensures
        names_view(r@) == seq![n@] + names_view(v@),
{
    let mut r = v;
    r.insert(0, n);
    assert(names_view(r@) =~= seq![n@] + names_view(v@));
    r
}

fn ws_end(s: &Vec<char>, i: usize) -> (r: usize)
    requires
        i <= s.len(),
    ensures
        r as int == grammar::ws_end(s@, i as int),
        i <= r <= s.len(),
{
    let mut j = i;
    while j < s.len() && multispace(s[j])
        invariant
            i <= j <= s.len(),
            grammar::ws_end(s@, i as int) == grammar::ws_end(s@, j as int),
        decreases s.len() - j,
    {
        j = j + 1;
    }
    j
}

fn word_end(s: &Vec<char>, i: usize) -> (r: usize)
    requires
        i <= s.len(),
    ensures
        r as int == grammar::word_end(s@, i as int),
        i <= r <= s.len(),
{
    let mut j = i;
    while j < s.len() && ident_char(s[j])
        invariant
            i <= j <= s.len(),
            grammar::word_end(s@, i as int) == grammar::word_end(s@, j as int),
        decreases s.len() - j,
    {
        j = j + 1;
    }
    j
}

fn at(s: &Vec<char>, i: usize, c: char) -> (r: bool)
    ensures
        r == grammar::char_at(s@, i as int, c),
{
    i < s.len() && s[i] == c
}

fn identifier(s: &Vec<char>, i: usize) -> (r: Option<(usize, String)>)
    requires
        i <= s.len(),
    ensures
        name_result(r) == grammar::identifier(s@, i as int),
        r matches Some((j, _)) ==> i < j <= s.len(),
{
    if i < s.len() && ident_start(s[i]) {
        let j = word_end(s, i + 1);
        Some((j, string_of(s, i, j)))
    } else {
        None
    }
}

fn var_identifier(s: &Vec<char>, i: usize) -> (r: Option<(usize, String)>)
    requires
        i <= s.len(),
    ensures
        name_result(r) == grammar::var_identifier(s@, i as int),
        r matches Some((j, _)) ==> i < j <= s.len(),
{
    if i < s.len() && s[i] == '$' {
        identifier(s, i + 1)
    } else {
        None
    }
}

fn push_unescaped(acc: &mut String, c: char)
    ensures
        final(acc)@ == old(acc)@ + grammar::unescape(c),
{
    let ghost a0 = acc@;
    if c == 'n' {
        acc.push('\n');
    } else if c == 'r' {
        acc.push('\r');
    } else if c == 't' {
        acc.push('\t');
    } else if c == '\\' {
        acc.push('\\');
    } else if c == '"' {
        acc.push('"');
    } else {
        acc.push('\\');
        acc.push(c);
    }
    assert(acc@ =~= a0 + grammar::unescape(c));
}

fn literal(s: &Vec<char>, i: usize) -> (r: Option<(usize, String)>)
    requires
        i <= s.len(),
    ensures
        name_result(r) == grammar::literal(s@, i as int),
        r matches Some((j, _)) ==> i < j <= s.len(),
{
    if !(i < s.len() && s[i] == '"') {
        return None;
    }
    let mut j = i + 1;
    let mut escaped = false;
    let mut acc = String::new();
    while j < s.len()
        invariant
            i < j <= s.len(),
            grammar::literal(s@, i as int) == grammar::literal_scan(s@, j as int, escaped, acc@),
        decreases s.len() - j,
    {
        let c = s[j];
        if escaped {
            push_unescaped(&mut acc, c);
            escaped = false;
        } else if c == '\\' {
            escaped = true;
        } else if c == '"' {
            return Some((j + 1, acc));
        } else {
            acc.push(c);
        }
        j = j + 1;
    }
    None
}

fn command_sub(s: &Vec<char>, i: usize) -> (r: Option<(usize, String)>)
    requires
        i <= s.len(),
    ensures
        name_result(r) == grammar::command_sub(s@, i as int),
        r matches Some((j, _)) ==> i < j <= s.len(),
{
    if !(i < s.len() && s[i] == '`') {
        return None;
    }
    let mut k = i + 1;
    while k < s.len()
        invariant
            i < k <= s.len(),
            s@[i as int] == '`',
            grammar::find_char(s@, i + 1, '`') == grammar::find_char(s@, k as int, '`'),
        decreases s.len() - k,
    {
        if s[k] == '`' {
            assert(grammar::find_char(s@, k as int, '`') == Some(k as int));
            return Some((k + 1, string_of(s, i + 1, k)));
        }
        k = k + 1;
    }
    None
}

/// The operators in the order in which they are tried, as character vectors.
fn op_chars(k: usize) -> (r: Vec<char>)
    requires
        k < 10,
    ensures
        r@ == grammar::binary_ops()[k as int],
{
    let r = if k == 0 {
        vec!['=', '=']
    } else if k == 1 {
        vec!['!', '=']
    } else if k == 2 {
        vec!['<', '=']
    } else if k == 3 {
        vec!['>', '=']
    } else if k == 4 {
        vec!['<']
    } else if k == 5 {
        vec!['>']
    } else if k == 6 {
        vec!['+']
    } else if k == 7 {
        vec!['-']
    } else if k == 8 {
        vec!['*']
    } else {
        vec!['/']
    };
    assert(r@ =~= grammar::binary_ops()[k as int]);
    r
}

fn match_op(s: &Vec<char>, i: usize) -> (r: Option<(usize, String)>)
    requires
        i <= s.len(),
    ensures
        name_result(r) == grammar::match_op(s@, i as int),
        r matches Some((j, _)) ==> i < j <= s.len(),
{
    let mut k: usize = 0;
    while k < 10
        invariant
            k <= 10,
            i <= s.len(),
            grammar::binary_ops().len() == 10,
            grammar::match_op(s@, i as int) == grammar::match_op_from(s@, i as int, k as int),
        decreases 10 - k,
    {
        let op = op_chars(k);
        if matches_at(s, &op, i) {
            let n = op.len();
            let name = string_from_vec(&op);
            return Some((i + n, name));
        }
        k = k + 1;
    }
    None
}

fn string_from_vec(v: &Vec<char>) -> (r: String)
    ensures
        r@ == v@,
{
    let r = string_of(v, 0, v.len());
    assert(v@.subrange(0, v@.len() as int) =~= v@);
    r
}

fn keyword(s: &Vec<char>, i: usize, kw: &Vec<char>) -> (r: bool)
    ensures
        r == grammar::keyword(s@, i as int, kw@),
{
    matches_at(s, kw, i)
}

fn param_tail(s: &Vec<char>, j: usize) -> (r: Option<(usize, Vec<String>)>)
    requires
        j <= s.len(),
    ensures
        names_result(r) == grammar::param_tail(s@, j as int),
        r matches Some((k, _)) ==> j <= k <= s.len(),
    decreases s.len() - j,
{
    let a = ws_end(s, j);
    if at(s, a, ',') {
        let b = ws_end(s, a + 1);
        match var_identifier(s, b) {
            Some((m, v)) => {
                if j < m && m <= s.len() {
                    match param_tail(s, m) {
                        Some((k, rest)) => Some((k, cons_name(v, rest))),
                        None => None,
                    }
                } else {
                    None
                }
            },
            None => Some((j, Vec::new())),
        }
    } else {
        let r: Option<(usize, Vec<String>)> = Some((j, Vec::new()));
        assert(names_view(Seq::<String>::empty()) =~= Seq::empty());
        r
    }
}

fn params(s: &Vec<char>, p: usize) -> (r: (usize, Vec<String>))
    requires
        p <= s.len(),
    ensures
        grammar::params(s@, p as int) == (r.0 as int, names_view(r.1@)),
        p <= r.0 <= s.len(),
{
    match var_identifier(s, p) {
        Some((j, first)) => match param_tail(s, j) {
            Some((k, rest)) => (k, cons_name(first, rest)),
            None => (p, Vec::new()),
        },
        None => (p, Vec::new()),
    }
}

fn expr(s: &Vec<char>, i: usize) -> (r: Option<(usize, Expr)>)
    requires
        i <= s.len(),
    ensures
        expr_result(r) == grammar::expr(s@, i as int),
        r matches Some((j, _)) ==> j <= s.len(),
    decreases s.len() - i, 3int,
{
    let a = ws_end(s, i);
    match primary(s, a) {
        Some((j, left)) => {
            if a < j && j <= s.len() {
                let b = ws_end(s, j);
                match match_op(s, b) {
                    None => Some((b, left)),
                    Some((c, op)) => {
                        let d = ws_end(s, c);
                        if i < d && d <= s.len() {
                            match expr(s, d) {
                                Some((k, right)) => Some(
                                    (k, Expr::BinaryOp(Box::new(left), op, Box::new(right))),
                                ),
                                None => None,
                            }
                        } else {
                            None
                        }
                    },
                }
            } else {
                None
            }
        },
        None => None,
    }
}

fn primary(s: &Vec<char>, i: usize) -> (r: Option<(usize, Expr)>)
    requires
        i <= s.len(),
    ensures
        expr_result(r) == grammar::primary(s@, i as int),
        r matches Some((j, _)) ==> j <= s.len(),
    decreases s.len() - i, 2int,
{
    if let Some((j, v)) = literal(s, i) {
        Some((j, Expr::Literal(v)))
    } else if let Some((j, v)) = var_identifier(s, i) {
        Some((j, Expr::Variable(v)))
    } else if let Some((j, v)) = command_sub(s, i) {
        Some((j, Expr::CommandSub(v)))
    } else {
        call(s, i)
    }
}

fn call(s: &Vec<char>, i: usize) -> (r: Option<(usize, Expr)>)
    requires
        i <= s.len(),
    ensures
        expr_result(r) == grammar::call(s@, i as int),
        r matches Some((j, _)) ==> j <= s.len(),
    decreases s.len() - i, 1int,
{
    match identifier(s, i) {
        Some((j, name)) => {
            if at(s, j, '(') {
                match call_args(s, j + 1) {
                    Some((k, args)) => {
                        if at(s, k, ')') {
                            Some((k + 1, Expr::Call(name, args)))
                        } else {
                            None
                        }
                    },
                    None => None,
                }
            } else {
                None
            }
        },
        None => None,
    }
}

fn call_args(s: &Vec<char>, p: usize) -> (r: Option<(usize, Vec<Expr>)>)
    requires
        p <= s.len(),
    ensures
        exprs_result(r) == grammar::call_args(s@, p as int),
        r matches Some((k, _)) ==> k <= s.len(),
    decreases s.len() - p, 5int,
{
    proof {
        assert(exprs_view(Seq::<Expr>::empty()) =~= Seq::empty());
    }
    match expr(s, p) {
        Some((j, first)) => {
            if p < j && j <= s.len() {
                match arg_tail(s, j) {
                    Some((k, rest)) => Some((k, cons_expr(first, rest))),
                    None => Some((p, Vec::new())),
                }
            } else {
                Some((p, Vec::new()))
            }
        },
        None => Some((p, Vec::new())),
    }
}

fn arg_tail(s: &Vec<char>, j: usize) -> (r: Option<(usize, Vec<Expr>)>)
    requires
        j <= s.len(),
    ensures
        exprs_result(r) == grammar::arg_tail(s@, j as int),
        r matches Some((k, _)) ==> k <= s.len(),
    decreases s.len() - j, 5int,
{
    proof {
        assert(exprs_view(Seq::<Expr>::empty()) =~= Seq::empty());
    }
    let a = ws_end(s, j);
    if at(s, a, ',') {
        let b = ws_end(s, a + 1);
        match expr(s, b) {
            Some((m, e)) => {
                if j < m && m <= s.len() {
                    match arg_tail(s, m) {
                        Some((k, rest)) => Some((k, cons_expr(e, rest))),
                        None => None,
                    }
                } else {
                    None
                }
            },
            None => Some((j, Vec::new())),
        }
    } else {
        Some((j, Vec::new()))
    }
}

fn block(s: &Vec<char>, i: usize) -> (r: Option<(usize, Vec<Statement>)>)
    requires
        i <= s.len(),
    ensures
        stmts_result(r) == grammar::block(s@, i as int),
        r matches Some((k, _)) ==> k <= s.len(),
    decreases s.len() - i, 0int,
{
    if i < s.len() && s[i] == '{' {
        let a = ws_end(s, i + 1);
        match program(s, a) {
            Some((j, stmts)) => {
                if at(s, j, '}') {
                    Some((ws_end(s, j + 1), stmts))
                } else {
                    None
                }
            },
            None => None,
        }
    } else {
        None
    }
}

fn program(s: &Vec<char>, i: usize) -> (r: Option<(usize, Vec<Statement>)>)
    requires
        i <= s.len(),
    ensures
        stmts_result(r) == grammar::program(s@, i as int),
        r matches Some((k, _)) ==> k <= s.len(),
    decreases s.len() - i, 10int,
{
    proof {
        assert(stmts_view(Seq::<Statement>::empty()) =~= Seq::empty());
    }
    match statement(s, i) {
        Some((j, st)) => {
            let k = ws_end(s, j);
            if i < k && k <= s.len() {
                match program(s, k) {
                    Some((m, rest)) => Some((m, cons_stmt(st, rest))),
                    None => None,
                }
            } else {
                None
            }
        },
        None => Some((i, Vec::new())),
    }
}

fn statement(s: &Vec<char>, i: usize) -> (r: Option<(usize, Statement)>)
    requires
        i <= s.len(),
    ensures
        stmt_result(r) == grammar::statement(s@, i as int),
        r matches Some((k, _)) ==> k <= s.len(),
    decreases s.len() - i, 9int,
{
    let a = ws_end(s, i);
    if let Some(r) = if_stmt(s, a) {
        Some(r)
    } else if let Some(r) = while_stmt(s, a) {
        Some(r)
    } else if let Some(r) = for_stmt(s, a) {
        Some(r)
    } else if let Some(r) = function_def(s, a) {
        Some(r)
    } else if let Some(r) = return_stmt(s, a) {
        Some(r)
    } else if let Some(r) = assignment(s, a) {
        Some(r)
    } else if let Some(r) = command_call(s, a) {
        Some(r)
    } else {
        expression_stmt(s, a)
    }
}

fn if_stmt(s: &Vec<char>, a: usize) -> (r: Option<(usize, Statement)>)
    requires
        a <= s.len(),
    ensures
        stmt_result(r) == grammar::if_stmt(s@, a as int),
        r matches Some((k, _)) ==> k <= s.len(),
    decreases s.len() - a, 8int,
{
    let kw_if: Vec<char> = vec!['i', 'f'];
    let kw_else: Vec<char> = vec!['e', 'l', 's', 'e'];
    assert(kw_if@ =~= grammar::kw_if());
    assert(kw_else@ =~= grammar::kw_else());
    if !keyword(s, a, &kw_if) {
        return None;
    }
    let b = ws_end(s, a + 2);
    match expr(s, b) {
        Some((j, cond)) => {
            let c = ws_end(s, j);
            if a < c && c <= s.len() {
                match block(s, c) {
                    Some((k, then_block)) => {
                        if a < k && k <= s.len() && keyword(s, k, &kw_else) {
                            let d = ws_end(s, k + 4);
                            match block(s, d) {
                                Some((m, else_block)) => Some(
                                    (m, Statement::If(cond, then_block, Some(else_block))),
                                ),
                                None => Some((k, Statement::If(cond, then_block, None))),
                            }
                        } else {
                            Some((k, Statement::If(cond, then_block, None)))
                        }
                    },
                    None => None,
                }
            } else {
                None
            }
        },
        None => None,
    }
}

fn while_stmt(s: &Vec<char>, a: usize) -> (r: Option<(usize, Statement)>)
    requires
        a <= s.len(),
    ensures
        stmt_result(r) == grammar::while_stmt(s@, a as int),
        r matches Some((k, _)) ==> k <= s.len(),
    decreases s.len() - a, 8int,
{
    let kw: Vec<char> = vec!['w', 'h', 'i', 'l', 'e'];
    assert(kw@ =~= grammar::kw_while());
    if !keyword(s, a, &kw) {
        return None;
    }
    let b = ws_end(s, a + 5);
    match expr(s, b) {
        Some((j, cond)) => {
            let c = ws_end(s, j);
            if a < c && c <= s.len() {
                match block(s, c) {
                    Some((k, body)) => Some((k, Statement::While(cond, body))),
                    None => None,
                }
            } else {
                None
            }
        },
        None => None,
    }
}

fn for_stmt(s: &Vec<char>, a: usize) -> (r: Option<(usize, Statement)>)
    requires
        a <= s.len(),
    ensures
        stmt_result(r) == grammar::for_stmt(s@, a as int),
        r matches Some((k, _)) ==> k <= s.len(),
    decreases s.len() - a, 8int,
{
    let kw_for: Vec<char> = vec!['f', 'o', 'r'];
    let kw_in: Vec<char> = vec!['i', 'n'];
    assert(kw_for@ =~= grammar::kw_for());
    assert(kw_in@ =~= grammar::kw_in());
    if !keyword(s, a, &kw_for) {
        return None;
    }
    let b = ws_end(s, a + 3);
    match var_identifier(s, b) {
        Some((j, name)) => {
            let c = ws_end(s, j);
            if keyword(s, c, &kw_in) {
                let d = ws_end(s, c + 2);
                match expr(s, d) {
                    Some((k, list)) => {
                        let e = ws_end(s, k);
                        if a < e && e <= s.len() {
                            match block(s, e) {
                                Some((m, body)) => Some((m, Statement::For(name, list, body))),
                                None => None,
                            }
                        } else {
                            None
                        }
                    },
                    None => None,
                }
            } else {
                None
            }
        },
        None => None,
    }
}

fn function_def(s: &Vec<char>, a: usize) -> (r: Option<(usize, Statement)>)
    requires
        a <= s.len(),
    ensures
        stmt_result(r) == grammar::function_def(s@, a as int),
        r matches Some((k, _)) ==> k <= s.len(),
    decreases s.len() - a, 8int,
{
    let kw: Vec<char> = vec!['f', 'u', 'n', 'c'];
    assert(kw@ =~= grammar::kw_func());
    if !keyword(s, a, &kw) {
        return None;
    }
    let b = ws_end(s, a + 4);
    match identifier(s, b) {
        Some((j, name)) => {
            let c = ws_end(s, j);
            if at(s, c, '(') {
                let (k, ps) = params(s, c + 1);
                let d = ws_end(s, k);
                if at(s, d, ')') {
                    let e = ws_end(s, d + 1);
                    if a < e && e <= s.len() {
                        match block(s, e) {
                            Some((m, body)) => Some((m, Statement::FunctionDef(name, ps, body))),
                            None => None,
                        }
                    } else {
                        None
                    }
                } else {
                    None
                }
            } else {
                None
            }
        },
        None => None,
    }
}

fn return_stmt(s: &Vec<char>, a: usize) -> (r: Option<(usize, Statement)>)
    requires
        a <= s.len(),
    ensures
        stmt_result(r) == grammar::return_stmt(s@, a as int),
        r matches Some((k, _)) ==> k <= s.len(),
{
    let kw: Vec<char> = vec!['r', 'e', 't', 'u', 'r', 'n'];
    assert(kw@ =~= grammar::kw_return());
    if !keyword(s, a, &kw) {
        return None;
    }
    let b = ws_end(s, a + 6);
    match expr(s, b) {
        Some((j, e)) => Some((j, Statement::Return(e))),
        None => None,
    }
}

fn assignment(s: &Vec<char>, a: usize) -> (r: Option<(usize, Statement)>)
    requires
        a <= s.len(),
    ensures
        stmt_result(r) == grammar::assignment(s@, a as int),
        r matches Some((k, _)) ==> k <= s.len(),
{
    match var_identifier(s, a) {
        Some((j, name)) => {
            let b = ws_end(s, j);
            if at(s, b, '=') {
                let c = ws_end(s, b + 1);
                match expr(s, c) {
                    Some((k, e)) => Some((k, Statement::Assignment(name, e))),
                    None => None,
                }
            } else {
                None
            }
        },
        None => None,
    }
}

fn command_call(s: &Vec<char>, a: usize) -> (r: Option<(usize, Statement)>)
    requires
        a <= s.len(),
    ensures
        stmt_result(r) == grammar::command_call(s@, a as int),
        r matches Some((k, _)) ==> k <= s.len(),
{
    if !(a < s.len() && s[a] == '@') {
        return None;
    }
    match identifier(s, a + 1) {
        Some((j, name)) => match cmd_args(s, j) {
            Some((k, args)) => Some((k, Statement::CommandCall(name, args))),
            None => None,
        },
        None => None,
    }
}

fn cmd_args(s: &Vec<char>, j: usize) -> (r: Option<(usize, Vec<Expr>)>)
    requires
        j <= s.len(),
    ensures
        exprs_result(r) == grammar::cmd_args(s@, j as int),
        r matches Some((k, _)) ==> k <= s.len(),
    decreases s.len() - j,
{
    proof {
        assert(exprs_view(Seq::<Expr>::empty()) =~= Seq::empty());
    }
    let b = ws_end(s, j);
    match expr(s, b) {
        Some((m, e)) => {
            if j < m && m <= s.len() {
                match cmd_args(s, m) {
                    Some((k, rest)) => Some((k, cons_expr(e, rest))),
                    None => None,
                }
            } else {
                None
            }
        },
        None => Some((j, Vec::new())),
    }
}

fn expression_stmt(s: &Vec<char>, a: usize) -> (r: Option<(usize, Statement)>)
    requires
        a <= s.len(),
    ensures
        stmt_result(r) == grammar::expression_stmt(s@, a as int),
        r matches Some((k, _)) ==> k <= s.len(),
{
    match expr(s, a) {
        Some((j, e)) => Some((j, Statement::Expression(e))),
        None => None,
    }
}


/// The statements read from the start of `s`, and where reading stopped.
pub open spec fn spec_parse_program(s: Seq<char>) -> (int, Seq<SStmt>) {
    grammar::program(s, 0).unwrap()
}

/// Reading a script never fails: it stops at the first position where no
/// statement can be read.
pub proof fn lemma_program_total(s: Seq<char>)
    ensures
        grammar::program(s, 0) is Some,
        0 <= spec_parse_program(s).0 <= s.len(),
{
    grammar::lemma_program(s, 0);
}

/// Where each statement that `grammar::program` reads from `i` on begins
/// (after the whitespace in front of it).
pub open spec fn program_starts(s: Seq<char>, i: int) -> Seq<int>
    decreases s.len() - i,
{
    if !(0 <= i <= s.len()) {
        Seq::empty()
    } else {
        match grammar::statement(s, i) {
            Some((j, _)) => {
                let k = grammar::ws_end(s, j);
                if grammar::advanced(s, i, k) {
                    seq![grammar::ws_end(s, i)] + program_starts(s, k)
                } else {
                    Seq::empty()
                }
            },
            None => Seq::empty(),
        }
    }
}

/// Where reading a script stopped, past the whitespace there.
pub open spec fn stop_of(s: Seq<char>) -> int {
    grammar::ws_end(s, spec_parse_program(s).0)
}

/// Whether the whole script reads as statements.
pub open spec fn parses(s: Seq<char>) -> bool {
    stop_of(s) >= s.len()
}

/// The message for a script that does not read to its end: the line and
/// column where reading stopped.
pub open spec fn syntax_message(s: Seq<char>) -> Seq<char> {
    let (l, c) = line_col(s, stop_of(s));
    "unexpected input at line "@ + decimal(l) + ", column "@ + decimal(c)
}

/// The line and column of where each statement of the script begins.
pub open spec fn statement_places(s: Seq<char>) -> Seq<(nat, nat)> {
    program_starts(s, 0).map_values(|p: int| line_col(s, p))
}

/// Reads the statements of a script and where each begins; also where
/// reading stopped.
pub(crate) fn read_program(s: &Vec<char>) -> (r: (usize, Vec<Statement>, Vec<usize>))
    ensures
        r.0 as int == spec_parse_program(s@).0,
        r.0 <= s.len(),
        stmts_view(r.1@) == spec_parse_program(s@).1,
        r.2@.map_values(|p: usize| p as int) == program_starts(s@, 0),
        r.2@.len() == r.1@.len(),
        forall|k: int| 0 <= k < r.2@.len() ==> r.2@[k] < s.len(),
{
    let mut stmts: Vec<Statement> = Vec::new();
    let mut starts: Vec<usize> = Vec::new();
    let mut i: usize = 0;
    proof {
        lemma_program_total(s@);
        assert(stmts_view(stmts@) =~= Seq::<SStmt>::empty());
        assert(starts@.map_values(|p: usize| p as int) =~= Seq::<int>::empty());
    }
    loop
        invariant
            i <= s.len(),
            grammar::program(s@, i as int) is Some,
            grammar::program(s@, 0) == Some((grammar::program(s@, i as int).unwrap().0,
                stmts_view(stmts@) + grammar::program(s@, i as int).unwrap().1)),
            program_starts(s@, 0) == starts@.map_values(|p: usize| p as int) + program_starts(s@, i as int),
            starts@.len() == stmts@.len(),
            forall|k: int| 0 <= k < starts@.len() ==> starts@[k] < s.len(),
        decreases s.len() - i,
    {
        match statement(s, i) {
            Some((j, st)) => {
                let k = ws_end(s, j);
                let a = ws_end(s, i);
                proof {
                    grammar::lemma_program(s@, i as int);
                    grammar::lemma_statement(s@, i as int);
                }
                if !(i < k && k <= s.len()) {
                    proof {
                        assert(grammar::program(s@, i as int) is None);
                    }
                    return (i, stmts, starts);
                }
                proof {
                    grammar::lemma_program(s@, k as int);
                    lemma_stmts_view_push(stmts@, st);
                    let p = grammar::program(s@, k as int).unwrap();
                    assert(stmts_view(stmts@) + (seq![st@] + p.1) =~= stmts_view(stmts@).push(st@) + p.1);
                    assert(starts@.push(a).map_values(|p: usize| p as int)
                        =~= starts@.map_values(|p: usize| p as int).push(a as int));
                    assert(starts@.map_values(|p: usize| p as int) + (seq![a as int] + program_starts(s@, k as int))
                        =~= starts@.map_values(|p: usize| p as int).push(a as int) + program_starts(s@, k as int));
                }
                stmts.push(st);
                starts.push(a);
                i = k;
            },
            None => {
                proof {
                    assert(stmts_view(stmts@) + Seq::<SStmt>::empty() =~= stmts_view(stmts@));
                    assert(starts@.map_values(|p: usize| p as int) + Seq::<int>::empty() =~= starts@.map_values(|p: usize| p as int));
                }
                return (i, stmts, starts);
            },
        }
    }
}

/// The message for a script that stops at `stop` (see `syntax_message`).
pub(crate) fn stop_message(s: &Vec<char>, stop: usize) -> (m: String)
    requires
        stop as int == stop_of(s@),
        stop < s.len(),
    ensures
        m@ == syntax_message(s@),
{
    let (l, c) = line_and_column(s, stop);
    let mut m = owned("unexpected input at line ");
    let ln = decimal_string(l);
    append(&mut m, ln.as_str());
    append(&mut m, ", column ");
    let cn = decimal_string(c);
    append(&mut m, cn.as_str());
    m
}

/// The end of the whitespace that starts at `i`.
pub(crate) fn skip_ws(s: &Vec<char>, i: usize) -> (r: usize)
    requires
        i <= s.len(),
    ensures
        r as int == grammar::ws_end(s@, i as int),
        i <= r <= s.len(),
{
    ws_end(s, i)
}

/// Parses a script into its statements: `Ok` with the statements and the
/// whitespace after the last of them when the whole script reads, else the
/// place where reading stopped (see `syntax_message`).
pub fn parse_program(input: &str) -> (r: Result<(String, Vec<Statement>), String>)
    ensures
        parses(input@) ==> (r matches Ok((rest, stmts)) && {
            &&& stmts_view(stmts@) == spec_parse_program(input@).1
            &&& rest@ == input@.skip(spec_parse_program(input@).0)
        }),
        !parses(input@) ==> (r matches Err(m) && m@ == syntax_message(input@)),
{
    let s = chars_of(input);
    let (j, stmts, _) = read_program(&s);
    let stop = ws_end(&s, j);
    if stop < s.len() {
        return Err(stop_message(&s, stop));
    }
    let rest = string_of(&s, j, s.len());
    Ok((rest, stmts))
}

} // verus!

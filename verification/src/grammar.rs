//! The grammar of Mini-ShellScript, stated as recursive spec functions over a
//! character sequence and a position.
//!
//! Every parser `p(s, i)` reads `s` from index `i` and yields `Some((j, v))`
//! when it recognizes `s[i..j]` as `v`, or `None`. Alternatives are ordered:
//! the first that succeeds wins, and nothing once consumed is given back
//! except by a failing alternative as a whole. Repetitions stop at the first
//! item that fails, and fail outright on an item that consumes nothing.

use vstd::prelude::*;
use crate::text::{is_multispace, is_ident_start, is_ident_char, occurs_at};
use crate::ast::{SExpr, SStmt};

verus! {

/// The end of the run of script whitespace that starts at `i`.
pub open spec fn ws_end(s: Seq<char>, i: int) -> int
    decreases s.len() - i,
{
    if 0 <= i < s.len() && is_multispace(s[i]) {
        ws_end(s, i + 1)
    } else {
        i
    }
}

/// The end of the run of identifier characters that starts at `i`.
pub open spec fn word_end(s: Seq<char>, i: int) -> int
    decreases s.len() - i,
{
    if 0 <= i < s.len() && is_ident_char(s[i]) {
        word_end(s, i + 1)
    } else {
        i
    }
}

pub proof fn lemma_ws_end(s: Seq<char>, i: int)
    requires
        0 <= i <= s.len(),
    ensures
        i <= ws_end(s, i) <= s.len(),
        forall|k: int| i <= k < ws_end(s, i) ==> is_multispace(#[trigger] s[k]),
        ws_end(s, i) < s.len() ==> !is_multispace(s[ws_end(s, i)]),
    decreases s.len() - i,
{
    if i < s.len() && is_multispace(s[i]) {
        lemma_ws_end(s, i + 1);
    }
}

pub proof fn lemma_word_end(s: Seq<char>, i: int)
    requires
        0 <= i <= s.len(),
    ensures
        i <= word_end(s, i) <= s.len(),
        forall|k: int| i <= k < word_end(s, i) ==> is_ident_char(#[trigger] s[k]),
        word_end(s, i) < s.len() ==> !is_ident_char(s[word_end(s, i)]),
    decreases s.len() - i,
{
    if i < s.len() && is_ident_char(s[i]) {
        lemma_word_end(s, i + 1);
    }
}

/// `[A-Za-z_][A-Za-z0-9_]*`
pub open spec fn identifier(s: Seq<char>, i: int) -> Option<(int, Seq<char>)> {
    if 0 <= i < s.len() && is_ident_start(s[i]) {
        let j = word_end(s, i + 1);
        Some((j, s.subrange(i, j)))
    } else {
        None
    }
}

/// `$` followed by an identifier; yields the identifier.
pub open spec fn var_identifier(s: Seq<char>, i: int) -> Option<(int, Seq<char>)> {
    if 0 <= i < s.len() && s[i] == '$' {
        identifier(s, i + 1)
    } else {
        None
    }
}

pub proof fn lemma_identifier(s: Seq<char>, i: int)
    ensures
        identifier(s, i) matches Some((j, _)) ==> i < j <= s.len(),
        var_identifier(s, i) matches Some((j, _)) ==> i < j <= s.len(),
{
    if 0 <= i < s.len() {
        lemma_word_end(s, i + 1);
    }
    if 0 <= i + 1 < s.len() {
        lemma_word_end(s, i + 2);
    }
}

/// What an escape sequence `\c` inside a string literal stands for.
pub open spec fn unescape(c: char) -> Seq<char> {
    if c == 'n' {
        seq!['\n']
    } else if c == 'r' {
        seq!['\r']
    } else if c == 't' {
        seq!['\t']
    } else if c == '\\' {
        seq!['\\']
    } else if c == '"' {
        seq!['"']
    } else {
        seq!['\\', c]
    }
}

/// Scans the body of a string literal from `j`, with `acc` read so far.
pub open spec fn literal_scan(s: Seq<char>, j: int, escaped: bool, acc: Seq<char>) -> Option<
    (int, Seq<char>),
>
    decreases s.len() - j,
{
    if j < 0 || j >= s.len() {
        None
    } else if escaped {
        literal_scan(s, j + 1, false, acc + unescape(s[j]))
    } else if s[j] == '\\' {
        literal_scan(s, j + 1, true, acc)
    } else if s[j] == '"' {
        Some((j + 1, acc))
    } else {
        literal_scan(s, j + 1, false, acc.push(s[j]))
    }
}

/// A double-quoted string literal with escapes; yields its content.
pub open spec fn literal(s: Seq<char>, i: int) -> Option<(int, Seq<char>)> {
    if 0 <= i < s.len() && s[i] == '"' {
        literal_scan(s, i + 1, false, Seq::empty())
    } else {
        None
    }
}

/// How a character is written inside a string literal: line feed,
/// carriage return, tab, backslash and quote by their escapes, any other
/// character as itself.
pub open spec fn escape_char(c: char) -> Seq<char> {
    if c == '\n' {
        seq!['\\', 'n']
    } else if c == '\r' {
        seq!['\\', 'r']
    } else if c == '\t' {
        seq!['\\', 't']
    } else if c == '\\' {
        seq!['\\', '\\']
    } else if c == '"' {
        seq!['\\', '"']
    } else {
        seq![c]
    }
}

/// The text `t` written for the inside of a string literal.
pub open spec fn escaped(t: Seq<char>) -> Seq<char>
    decreases t.len(),
{
    if t.len() == 0 {
        Seq::empty()
    } else {
        escape_char(t[0]) + escaped(t.skip(1))
    }
}

/// Scanning the written form of `t`, followed by a quote, reads `t`.
proof fn lemma_scan_escaped(s: Seq<char>, j: int, t: Seq<char>, acc: Seq<char>)
    requires
        0 <= j,
        j + escaped(t).len() < s.len(),
        s.subrange(j, j + escaped(t).len()) == escaped(t),
        s[j + escaped(t).len()] == '"',
    ensures
        literal_scan(s, j, false, acc) == Some((j + escaped(t).len() + 1, acc + t)),
    decreases t.len(),
{
    if t.len() == 0 {
        assert(acc + t =~= acc);
    } else {
        let e0 = escape_char(t[0]);
        let r = t.skip(1);
        let n = escaped(t).len();
        let j2 = j + e0.len();
        assert(escaped(t) == e0 + escaped(r));
        assert forall|k: int| 0 <= k < e0.len() implies s[j + k] == e0[k] by {
            assert(s.subrange(j, j + n)[k] == s[j + k]);
        }
        assert(s.subrange(j2, j2 + escaped(r).len()) =~= escaped(r)) by {
            assert forall|k: int| 0 <= k < escaped(r).len() implies s.subrange(j2, j2 + escaped(r).len())[k] == escaped(r)[k] by {
                assert(s.subrange(j, j + n)[e0.len() + k] == s[j2 + k]);
                assert((e0 + escaped(r))[e0.len() + k] == escaped(r)[k]);
            }
        }
        lemma_scan_escaped(s, j2, r, acc.push(t[0]));
        assert(acc.push(t[0]) + r =~= acc + t);
        assert(s.subrange(j, j + n)[0] == s[j]);
        assert(escaped(t)[0] == e0[0]);
        if e0.len() == 2 {
            assert(s.subrange(j, j + n)[1] == s[j + 1]);
            assert(escaped(t)[1] == e0[1]);
            assert(s[j] == '\\');
            assert(unescape(s[j + 1]) == seq![t[0]]);
            assert(acc + unescape(s[j + 1]) =~= acc.push(t[0]));
            assert(literal_scan(s, j + 1, true, acc) == literal_scan(s, j + 2, false, acc + unescape(s[j + 1])));
            assert(literal_scan(s, j, false, acc) == literal_scan(s, j + 1, true, acc));
        } else {
            assert(s[j] == t[0]);
            assert(t[0] != '\\' && t[0] != '"');
            assert(literal_scan(s, j, false, acc) == literal_scan(s, j + 1, false, acc.push(t[0])));
        }
        assert(j2 + escaped(r).len() == j + n);
    }
}

/// A text written with `escaped` between quotes reads back as itself,
/// whatever follows the closing quote.
pub proof fn lemma_literal_round_trip(t: Seq<char>, rest: Seq<char>)
    ensures
        literal(seq!['"'] + escaped(t) + seq!['"'] + rest, 0) == Some(((escaped(t).len() + 2) as int, t)),
{
    let s = seq!['"'] + escaped(t) + seq!['"'] + rest;
    let n: int = escaped(t).len() as int;
    assert(s.subrange(1, 1 + n) =~= escaped(t));
    assert(s[1 + n] == '"');
    lemma_scan_escaped(s, 1, t, Seq::empty());
    assert(Seq::<char>::empty() + t =~= t);
}

/// The first index at or after `j` that holds `c`.
pub open spec fn find_char(s: Seq<char>, j: int, c: char) -> Option<int>
    decreases s.len() - j,
{
    if j < 0 || j >= s.len() {
        None
    } else if s[j] == c {
        Some(j)
    } else {
        find_char(s, j + 1, c)
    }
}

/// A backtick-quoted command; yields the text between the backticks.
pub open spec fn command_sub(s: Seq<char>, i: int) -> Option<(int, Seq<char>)> {
    if 0 <= i < s.len() && s[i] == '`' {
        match find_char(s, i + 1, '`') {
            Some(k) => Some((k + 1, s.subrange(i + 1, k))),
            None => None,
        }
    } else {
        None
    }
}

/// The binary operators, in the order in which they are tried.
pub open spec fn binary_ops() -> Seq<Seq<char>> {
    seq![
        seq!['=', '='],
        seq!['!', '='],
        seq!['<', '='],
        seq!['>', '='],
        seq!['<'],
        seq!['>'],
        seq!['+'],
        seq!['-'],
        seq!['*'],
        seq!['/'],
    ]
}

/// The first operator of `binary_ops()[k..]` that occurs at `i`.
pub open spec fn match_op_from(s: Seq<char>, i: int, k: int) -> Option<(int, Seq<char>)>
    decreases binary_ops().len() - k,
{
    if k < 0 || k >= binary_ops().len() {
        None
    } else if occurs_at(s, binary_ops()[k], i) {
        Some((i + binary_ops()[k].len(), binary_ops()[k]))
    } else {
        match_op_from(s, i, k + 1)
    }
}

pub open spec fn match_op(s: Seq<char>, i: int) -> Option<(int, Seq<char>)> {
    match_op_from(s, i, 0)
}

/// Whether the keyword `kw` occurs at `i`.
pub open spec fn keyword(s: Seq<char>, i: int, kw: Seq<char>) -> bool {
    occurs_at(s, kw, i)
}

pub open spec fn kw_if() -> Seq<char> {
    seq!['i', 'f']
}

pub open spec fn kw_else() -> Seq<char> {
    seq!['e', 'l', 's', 'e']
}

pub open spec fn kw_while() -> Seq<char> {
    seq!['w', 'h', 'i', 'l', 'e']
}

pub open spec fn kw_for() -> Seq<char> {
    seq!['f', 'o', 'r']
}

pub open spec fn kw_in() -> Seq<char> {
    seq!['i', 'n']
}

pub open spec fn kw_func() -> Seq<char> {
    seq!['f', 'u', 'n', 'c']
}

pub open spec fn kw_return() -> Seq<char> {
    seq!['r', 'e', 't', 'u', 'r', 'n']
}

/// Whether `s[i]` is the character `c`.
pub open spec fn char_at(s: Seq<char>, i: int, c: char) -> bool {
    0 <= i < s.len() && s[i] == c
}

/// Whether a position reached after a nested parse lies strictly after `i`
/// and within the input.
pub open spec fn advanced(s: Seq<char>, i: int, j: int) -> bool {
    i < j <= s.len()
}

/// The function-parameter list after the first: `(ws , ws $name)*`.
pub open spec fn param_tail(s: Seq<char>, j: int) -> Option<(int, Seq<Seq<char>>)>
    decreases s.len() - j,
{
    let a = ws_end(s, j);
    if 0 <= j <= s.len() && char_at(s, a, ',') {
        match var_identifier(s, ws_end(s, a + 1)) {
            Some((m, v)) => if advanced(s, j, m) {
                match param_tail(s, m) {
                    Some((k, rest)) => Some((k, seq![v] + rest)),
                    None => None,
                }
            } else {
                None
            },
            None => Some((j, Seq::empty())),
        }
    } else {
        Some((j, Seq::empty()))
    }
}

/// An optional comma-separated list of `$name` parameters.
pub open spec fn params(s: Seq<char>, p: int) -> (int, Seq<Seq<char>>) {
    match var_identifier(s, p) {
        Some((j, first)) => match param_tail(s, j) {
            Some((k, rest)) => (k, seq![first] + rest),
            None => (p, Seq::empty()),
        },
        None => (p, Seq::empty()),
    }
}

/// An expression: a primary expression, optionally followed by a binary
/// operator and (right-associatively) another expression. Leading and
/// trailing whitespace is consumed.
pub open spec fn expr(s: Seq<char>, i: int) -> Option<(int, SExpr)>
    decreases s.len() - i, 3int,
{
    if !(0 <= i <= s.len()) {
        None
    } else {
        let a = ws_end(s, i);
        proof {
            lemma_ws_end(s, i);
        }
        match primary(s, a) {
            Some((j, left)) => if advanced(s, a, j) {
                let b = ws_end(s, j);
                match match_op(s, b) {
                    None => Some((b, left)),
                    Some((c, op)) => {
                        let d = ws_end(s, c);
                        if advanced(s, i, d) {
                            match expr(s, d) {
                                Some((k, right)) => Some(
                                    (k, SExpr::BinaryOp(Box::new(left), op, Box::new(right))),
                                ),
                                None => None,
                            }
                        } else {
                            None
                        }
                    },
                }
            } else {
                None
            },
            None => None,
        }
    }
}

/// A literal, a variable, a command substitution or a call, tried in that order.
pub open spec fn primary(s: Seq<char>, i: int) -> Option<(int, SExpr)>
    decreases s.len() - i, 2int,
{
    if !(0 <= i <= s.len()) {
        None
    } else if let Some((j, v)) = literal(s, i) {
        Some((j, SExpr::Literal(v)))
    } else if let Some((j, v)) = var_identifier(s, i) {
        Some((j, SExpr::Variable(v)))
    } else if let Some((j, v)) = command_sub(s, i) {
        Some((j, SExpr::CommandSub(v)))
    } else {
        call(s, i)
    }
}

/// `name(args)`.
pub open spec fn call(s: Seq<char>, i: int) -> Option<(int, SExpr)>
    decreases s.len() - i, 1int,
{
    if !(0 <= i <= s.len()) {
        None
    } else {
        proof {
            lemma_identifier(s, i);
        }
        match identifier(s, i) {
            Some((j, name)) => if char_at(s, j, '(') {
                match call_args(s, j + 1) {
                    Some((k, args)) => if char_at(s, k, ')') {
                        Some((k + 1, SExpr::Call(name, args)))
                    } else {
                        None
                    },
                    None => None,
                }
            } else {
                None
            },
            None => None,
        }
    }
}

/// An optional comma-separated list of expressions. It never fails as a
/// whole; `None` is not produced.
pub open spec fn call_args(s: Seq<char>, p: int) -> Option<(int, Seq<SExpr>)>
    decreases s.len() - p, 5int,
{
    if !(0 <= p <= s.len()) {
        Some((p, Seq::empty()))
    } else {
        match expr(s, p) {
            Some((j, first)) => if advanced(s, p, j) {
                match arg_tail(s, j) {
                    Some((k, rest)) => Some((k, seq![first] + rest)),
                    None => Some((p, Seq::empty())),
                }
            } else {
                Some((p, Seq::empty()))
            },
            None => Some((p, Seq::empty())),
        }
    }
}

/// The arguments after the first: `(ws , ws expr)*`.
pub open spec fn arg_tail(s: Seq<char>, j: int) -> Option<(int, Seq<SExpr>)>
    decreases s.len() - j, 5int,
{
    if !(0 <= j <= s.len()) {
        None
    } else {
        let a = ws_end(s, j);
        proof {
            lemma_ws_end(s, j);
        }
        if char_at(s, a, ',') {
            let b = ws_end(s, a + 1);
            proof {
                lemma_ws_end(s, a + 1);
            }
            match expr(s, b) {
                Some((m, e)) => if advanced(s, j, m) {
                    match arg_tail(s, m) {
                        Some((k, rest)) => Some((k, seq![e] + rest)),
                        None => None,
                    }
                } else {
                    None
                },
                None => Some((j, Seq::empty())),
            }
        } else {
            Some((j, Seq::empty()))
        }
    }
}

/// `{ ws program } ws`
pub open spec fn block(s: Seq<char>, i: int) -> Option<(int, Seq<SStmt>)>
    decreases s.len() - i, 0int,
{
    if 0 <= i < s.len() && s[i] == '{' {
        let a = ws_end(s, i + 1);
        proof {
            lemma_ws_end(s, i + 1);
        }
        match program(s, a) {
            Some((j, stmts)) => if char_at(s, j, '}') {
                Some((ws_end(s, j + 1), stmts))
            } else {
                None
            },
            None => None,
        }
    } else {
        None
    }
}

/// A sequence of statements, each followed by optional whitespace. It stops
/// at the first position where no statement can be read.
pub open spec fn program(s: Seq<char>, i: int) -> Option<(int, Seq<SStmt>)>
    decreases s.len() - i, 10int,
{
    if !(0 <= i <= s.len()) {
        None
    } else {
        match statement(s, i) {
            Some((j, st)) => {
                let k = ws_end(s, j);
                if advanced(s, i, k) {
                    match program(s, k) {
                        Some((m, rest)) => Some((m, seq![st] + rest)),
                        None => None,
                    }
                } else {
                    None
                }
            },
            None => Some((i, Seq::empty())),
        }
    }
}

/// One statement after optional whitespace: `if`, `while`, `for`, `func`,
/// `return`, an assignment, a command call or an expression, tried in that
/// order.
pub open spec fn statement(s: Seq<char>, i: int) -> Option<(int, SStmt)>
    decreases s.len() - i, 9int,
{
    if !(0 <= i <= s.len()) {
        None
    } else {
        let a = ws_end(s, i);
        proof {
            lemma_ws_end(s, i);
        }
        if let Some(r) = if_stmt(s, a) {
            Some(r)
        } else if let Some(r) = while_stmt(s, a) {
            Some(r)
        } else if let Some(r) = for_stmt(s, a) {
            Some(r)
        } else if let Some(r) = function_def(s, a) {
            Some(r)
        } else if let Some(r) = return_stmt(s, a) {
            Some(r)
        } else if let Some(r) = assignment(s, a) {
            Some(r)
        } else if let Some(r) = command_call(s, a) {
            Some(r)
        } else {
            expression_stmt(s, a)
        }
    }
}

/// `if ws expr ws block (else ws block)?`
pub open spec fn if_stmt(s: Seq<char>, a: int) -> Option<(int, SStmt)>
    decreases s.len() - a, 8int,
{
    if 0 <= a <= s.len() && keyword(s, a, kw_if()) {
        let b = ws_end(s, a + 2);
        proof {
            lemma_ws_end(s, a + 2);
        }
        match expr(s, b) {
            Some((j, cond)) => {
                let c = ws_end(s, j);
                if advanced(s, a, c) {
                    match block(s, c) {
                        Some((k, then_block)) => if advanced(s, a, k) && keyword(
                            s,
                            k,
                            kw_else(),
                        ) {
                            let d = ws_end(s, k + 4);
                            proof {
                                lemma_ws_end(s, k + 4);
                            }
                            match block(s, d) {
                                Some((m, else_block)) => Some(
                                    (m, SStmt::If(cond, then_block, Some(else_block))),
                                ),
                                None => Some((k, SStmt::If(cond, then_block, None))),
                            }
                        } else {
                            Some((k, SStmt::If(cond, then_block, None)))
                        },
                        None => None,
                    }
                } else {
                    None
                }
            },
            None => None,
        }
    } else {
        None
    }
}

/// `while ws expr ws block`
pub open spec fn while_stmt(s: Seq<char>, a: int) -> Option<(int, SStmt)>
    decreases s.len() - a, 8int,
{
    if 0 <= a <= s.len() && keyword(s, a, kw_while()) {
        let b = ws_end(s, a + 5);
        proof {
            lemma_ws_end(s, a + 5);
        }
        match expr(s, b) {
            Some((j, cond)) => {
                let c = ws_end(s, j);
                if advanced(s, a, c) {
                    match block(s, c) {
                        Some((k, body)) => Some((k, SStmt::While(cond, body))),
                        None => None,
                    }
                } else {
                    None
                }
            },
            None => None,
        }
    } else {
        None
    }
}

/// `for ws $name ws in ws expr ws block`
pub open spec fn for_stmt(s: Seq<char>, a: int) -> Option<(int, SStmt)>
    decreases s.len() - a, 8int,
{
    if 0 <= a <= s.len() && keyword(s, a, kw_for()) {
        let b = ws_end(s, a + 3);
        proof {
            lemma_ws_end(s, a + 3);
            lemma_identifier(s, b);
        }
        match var_identifier(s, b) {
            Some((j, name)) => {
                let c = ws_end(s, j);
                proof {
                    lemma_ws_end(s, j);
                }
                if keyword(s, c, kw_in()) {
                    let d = ws_end(s, c + 2);
                    proof {
                        lemma_ws_end(s, c + 2);
                    }
                    match expr(s, d) {
                        Some((k, list)) => {
                            let e = ws_end(s, k);
                            if advanced(s, a, e) {
                                match block(s, e) {
                                    Some((m, body)) => Some((m, SStmt::For(name, list, body))),
                                    None => None,
                                }
                            } else {
                                None
                            }
                        },
                        None => None,
                    }
                } else {
                    None
                }
            },
            None => None,
        }
    } else {
        None
    }
}

/// `func ws name ws ( params ws ) ws block`
pub open spec fn function_def(s: Seq<char>, a: int) -> Option<(int, SStmt)>
    decreases s.len() - a, 8int,
{
    if 0 <= a <= s.len() && keyword(s, a, kw_func()) {
        let b = ws_end(s, a + 4);
        match identifier(s, b) {
            Some((j, name)) => {
                let c = ws_end(s, j);
                if char_at(s, c, '(') {
                    let (k, ps) = params(s, c + 1);
                    let d = ws_end(s, k);
                    if char_at(s, d, ')') {
                        let e = ws_end(s, d + 1);
                        if advanced(s, a, e) {
                            match block(s, e) {
                                Some((m, body)) => Some((m, SStmt::FunctionDef(name, ps, body))),
                                None => None,
                            }
                        } else {
                            None
                        }
                    } else {
                        None
                    }
                } else {
                    None
                }
            },
            None => None,
        }
    } else {
        None
    }
}

/// `return ws expr`
pub open spec fn return_stmt(s: Seq<char>, a: int) -> Option<(int, SStmt)>
{
    if 0 <= a <= s.len() && keyword(s, a, kw_return()) {
        let b = ws_end(s, a + 6);
        match expr(s, b) {
            Some((j, e)) => Some((j, SStmt::Return(e))),
            None => None,
        }
    } else {
        None
    }
}

/// `$name ws = ws expr`
pub open spec fn assignment(s: Seq<char>, a: int) -> Option<(int, SStmt)>
{
    if 0 <= a <= s.len() {
        match var_identifier(s, a) {
            Some((j, name)) => {
                let b = ws_end(s, j);
                if char_at(s, b, '=') {
                    let c = ws_end(s, b + 1);
                    match expr(s, c) {
                        Some((k, e)) => Some((k, SStmt::Assignment(name, e))),
                        None => None,
                    }
                } else {
                    None
                }
            },
            None => None,
        }
    } else {
        None
    }
}

/// `@name (ws expr)*`
pub open spec fn command_call(s: Seq<char>, a: int) -> Option<(int, SStmt)>
{
    if 0 <= a < s.len() && s[a] == '@' {
        match identifier(s, a + 1) {
            Some((j, name)) => match cmd_args(s, j) {
                Some((k, args)) => Some((k, SStmt::CommandCall(name, args))),
                None => None,
            },
            None => None,
        }
    } else {
        None
    }
}

/// The arguments of a command call: `(ws expr)*`.
pub open spec fn cmd_args(s: Seq<char>, j: int) -> Option<(int, Seq<SExpr>)>
    decreases s.len() - j, 5int,
{
    if !(0 <= j <= s.len()) {
        None
    } else {
        let b = ws_end(s, j);
        proof {
            lemma_ws_end(s, j);
        }
        match expr(s, b) {
            Some((m, e)) => if advanced(s, j, m) {
                match cmd_args(s, m) {
                    Some((k, rest)) => Some((k, seq![e] + rest)),
                    None => None,
                }
            } else {
                None
            },
            None => Some((j, Seq::empty())),
        }
    }
}

/// An expression used as a statement.
pub open spec fn expression_stmt(s: Seq<char>, a: int) -> Option<(int, SStmt)>
{
    match expr(s, a) {
        Some((j, e)) => Some((j, SStmt::Expression(e))),
        None => None,
    }
}


// Every parser that succeeds stops within the input, and every one that must
// consume something does; so the repetition and progress checks above never
// reject, and reading a program never fails.

pub proof fn lemma_literal_scan(s: Seq<char>, j: int, escaped: bool, acc: Seq<char>)
    ensures
        literal_scan(s, j, escaped, acc) matches Some((k, _)) ==> j < k <= s.len(),
    decreases s.len() - j,
{
    if 0 <= j < s.len() {
        if escaped {
            lemma_literal_scan(s, j + 1, false, acc + unescape(s[j]));
        } else if s[j] == '\\' {
            lemma_literal_scan(s, j + 1, true, acc);
        } else if s[j] != '"' {
            lemma_literal_scan(s, j + 1, false, acc.push(s[j]));
        }
    }
}

pub proof fn lemma_find_char(s: Seq<char>, j: int, c: char)
    ensures
        find_char(s, j, c) matches Some(k) ==> j <= k < s.len() && s[k] == c,
    decreases s.len() - j,
{
    if 0 <= j < s.len() && s[j] != c {
        lemma_find_char(s, j + 1, c);
    }
}

pub proof fn lemma_match_op_from(s: Seq<char>, i: int, k: int)
    ensures
        match_op_from(s, i, k) matches Some((c, _)) ==> i < c <= s.len(),
    decreases binary_ops().len() - k,
{
    if 0 <= k < binary_ops().len() && !occurs_at(s, binary_ops()[k], i) {
        lemma_match_op_from(s, i, k + 1);
    }
}

/// The parsers of single tokens consume at least one character and stay within the input.
pub proof fn lemma_tokens(s: Seq<char>, i: int)
    ensures
        literal(s, i) matches Some((j, _)) ==> i < j <= s.len(),
        command_sub(s, i) matches Some((j, _)) ==> i < j <= s.len(),
        identifier(s, i) matches Some((j, _)) ==> i < j <= s.len(),
        var_identifier(s, i) matches Some((j, _)) ==> i < j <= s.len(),
        match_op(s, i) matches Some((j, _)) ==> i < j <= s.len(),
{
    lemma_literal_scan(s, i + 1, false, Seq::empty());
    lemma_find_char(s, i + 1, '`');
    lemma_identifier(s, i);
    lemma_match_op_from(s, i, 0);
}

pub proof fn lemma_param_tail(s: Seq<char>, j: int)
    requires
        0 <= j <= s.len(),
    ensures
        param_tail(s, j) matches Some((k, _)) && j <= k <= s.len(),
    decreases s.len() - j,
{
    lemma_ws_end(s, j);
    let a = ws_end(s, j);
    if char_at(s, a, ',') {
        lemma_ws_end(s, a + 1);
        let b = ws_end(s, a + 1);
        lemma_tokens(s, b);
        if let Some((m, _)) = var_identifier(s, b) {
            lemma_param_tail(s, m);
        }
    }
}

pub proof fn lemma_params(s: Seq<char>, p: int)
    requires
        0 <= p <= s.len(),
    ensures
        p <= params(s, p).0 <= s.len(),
{
    lemma_tokens(s, p);
    if let Some((j, _)) = var_identifier(s, p) {
        lemma_param_tail(s, j);
    }
}

pub proof fn lemma_expr(s: Seq<char>, i: int)
    requires
        0 <= i <= s.len(),
    ensures
        expr(s, i) matches Some((j, _)) ==> i < j <= s.len(),
    decreases s.len() - i, 3int,
{
    lemma_ws_end(s, i);
    let a = ws_end(s, i);
    lemma_primary(s, a);
    if let Some((j, _)) = primary(s, a) {
        lemma_ws_end(s, j);
        let b = ws_end(s, j);
        lemma_tokens(s, b);
        if let Some((c, _)) = match_op(s, b) {
            lemma_ws_end(s, c);
            let d = ws_end(s, c);
            lemma_expr(s, d);
        }
    }
}

pub proof fn lemma_primary(s: Seq<char>, i: int)
    requires
        0 <= i <= s.len(),
    ensures
        primary(s, i) matches Some((j, _)) ==> i < j <= s.len(),
    decreases s.len() - i, 2int,
{
    lemma_tokens(s, i);
    lemma_call(s, i);
}

pub proof fn lemma_call(s: Seq<char>, i: int)
    requires
        0 <= i <= s.len(),
    ensures
        call(s, i) matches Some((j, _)) ==> i < j <= s.len(),
    decreases s.len() - i, 1int,
{
    lemma_tokens(s, i);
    if let Some((j, _)) = identifier(s, i) {
        if char_at(s, j, '(') {
            lemma_call_args(s, j + 1);
        }
    }
}

pub proof fn lemma_call_args(s: Seq<char>, p: int)
    requires
        0 <= p <= s.len(),
    ensures
        call_args(s, p) matches Some((k, _)) && p <= k <= s.len(),
    decreases s.len() - p, 5int,
{
    lemma_expr(s, p);
    if let Some((j, _)) = expr(s, p) {
        lemma_arg_tail(s, j);
    }
}

pub proof fn lemma_arg_tail(s: Seq<char>, j: int)
    requires
        0 <= j <= s.len(),
    ensures
        arg_tail(s, j) matches Some((k, _)) && j <= k <= s.len(),
    decreases s.len() - j, 5int,
{
    lemma_ws_end(s, j);
    let a = ws_end(s, j);
    if char_at(s, a, ',') {
        lemma_ws_end(s, a + 1);
        let b = ws_end(s, a + 1);
        lemma_expr(s, b);
        if let Some((m, _)) = expr(s, b) {
            lemma_arg_tail(s, m);
        }
    }
}

pub proof fn lemma_cmd_args(s: Seq<char>, j: int)
    requires
        0 <= j <= s.len(),
    ensures
        cmd_args(s, j) matches Some((k, _)) && j <= k <= s.len(),
    decreases s.len() - j, 5int,
{
    lemma_ws_end(s, j);
    let b = ws_end(s, j);
    lemma_expr(s, b);
    if let Some((m, _)) = expr(s, b) {
        lemma_cmd_args(s, m);
    }
}

pub proof fn lemma_block(s: Seq<char>, i: int)
    requires
        0 <= i <= s.len(),
    ensures
        block(s, i) matches Some((k, _)) ==> i < k <= s.len(),
    decreases s.len() - i, 0int,
{
    if 0 <= i < s.len() && s[i] == '{' {
        lemma_ws_end(s, i + 1);
        let a = ws_end(s, i + 1);
        lemma_program(s, a);
        if let Some((j, _)) = program(s, a) {
            if char_at(s, j, '}') {
                lemma_ws_end(s, j + 1);
            }
        }
    }
}

pub proof fn lemma_program(s: Seq<char>, i: int)
    requires
        0 <= i <= s.len(),
    ensures
        program(s, i) matches Some((k, _)) && i <= k <= s.len(),
    decreases s.len() - i, 10int,
{
    lemma_statement(s, i);
    if let Some((j, _)) = statement(s, i) {
        lemma_ws_end(s, j);
        lemma_program(s, ws_end(s, j));
    }
}

pub proof fn lemma_statement(s: Seq<char>, i: int)
    requires
        0 <= i <= s.len(),
    ensures
        statement(s, i) matches Some((j, _)) ==> i < j <= s.len() && ws_end(s, i) < j,
    decreases s.len() - i, 9int,
{
    lemma_ws_end(s, i);
    let a = ws_end(s, i);
    lemma_if(s, a);
    lemma_while(s, a);
    lemma_for(s, a);
    lemma_function_def(s, a);
    lemma_simple_statements(s, a);
}

pub proof fn lemma_if(s: Seq<char>, a: int)
    requires
        0 <= a <= s.len(),
    ensures
        if_stmt(s, a) matches Some((j, _)) ==> a < j <= s.len(),
    decreases s.len() - a, 8int,
{
    if keyword(s, a, kw_if()) {
        lemma_ws_end(s, a + 2);
        let b = ws_end(s, a + 2);
        lemma_expr(s, b);
        if let Some((j, _)) = expr(s, b) {
            lemma_ws_end(s, j);
            let c = ws_end(s, j);
            lemma_block(s, c);
            if let Some((k, _)) = block(s, c) {
                if keyword(s, k, kw_else()) {
                    lemma_ws_end(s, k + 4);
                    lemma_block(s, ws_end(s, k + 4));
                }
            }
        }
    }
}

pub proof fn lemma_while(s: Seq<char>, a: int)
    requires
        0 <= a <= s.len(),
    ensures
        while_stmt(s, a) matches Some((j, _)) ==> a < j <= s.len(),
    decreases s.len() - a, 8int,
{
    if keyword(s, a, kw_while()) {
        lemma_ws_end(s, a + 5);
        let b = ws_end(s, a + 5);
        lemma_expr(s, b);
        if let Some((j, _)) = expr(s, b) {
            lemma_ws_end(s, j);
            lemma_block(s, ws_end(s, j));
        }
    }
}

pub proof fn lemma_for(s: Seq<char>, a: int)
    requires
        0 <= a <= s.len(),
    ensures
        for_stmt(s, a) matches Some((j, _)) ==> a < j <= s.len(),
    decreases s.len() - a, 8int,
{
    if keyword(s, a, kw_for()) {
        lemma_ws_end(s, a + 3);
        let b = ws_end(s, a + 3);
        lemma_tokens(s, b);
        if let Some((j, _)) = var_identifier(s, b) {
            lemma_ws_end(s, j);
            let c = ws_end(s, j);
            if keyword(s, c, kw_in()) {
                lemma_ws_end(s, c + 2);
                let d = ws_end(s, c + 2);
                lemma_expr(s, d);
                if let Some((k, _)) = expr(s, d) {
                    lemma_ws_end(s, k);
                    lemma_block(s, ws_end(s, k));
                }
            }
        }
    }
}

pub proof fn lemma_function_def(s: Seq<char>, a: int)
    requires
        0 <= a <= s.len(),
    ensures
        function_def(s, a) matches Some((j, _)) ==> a < j <= s.len(),
    decreases s.len() - a, 8int,
{
    if keyword(s, a, kw_func()) {
        lemma_ws_end(s, a + 4);
        let b = ws_end(s, a + 4);
        lemma_tokens(s, b);
        if let Some((j, _)) = identifier(s, b) {
            lemma_ws_end(s, j);
            let c = ws_end(s, j);
            if char_at(s, c, '(') {
                lemma_params(s, c + 1);
                let k = params(s, c + 1).0;
                lemma_ws_end(s, k);
                let d = ws_end(s, k);
                if char_at(s, d, ')') {
                    lemma_ws_end(s, d + 1);
                    lemma_block(s, ws_end(s, d + 1));
                }
            }
        }
    }
}

pub proof fn lemma_simple_statements(s: Seq<char>, a: int)
    requires
        0 <= a <= s.len(),
    ensures
        return_stmt(s, a) matches Some((j, _)) ==> a < j <= s.len(),
        assignment(s, a) matches Some((j, _)) ==> a < j <= s.len(),
        command_call(s, a) matches Some((j, _)) ==> a < j <= s.len(),
        expression_stmt(s, a) matches Some((j, _)) ==> a < j <= s.len(),
    decreases s.len() - a, 8int,
{
    if keyword(s, a, kw_return()) {
        lemma_ws_end(s, a + 6);
        lemma_expr(s, ws_end(s, a + 6));
    }
    lemma_tokens(s, a);
    if let Some((j, _)) = var_identifier(s, a) {
        lemma_ws_end(s, j);
        let b = ws_end(s, j);
        if char_at(s, b, '=') {
            lemma_ws_end(s, b + 1);
            lemma_expr(s, ws_end(s, b + 1));
        }
    }
    if 0 <= a < s.len() && s[a] == '@' {
        lemma_tokens(s, a + 1);
        if let Some((j, _)) = identifier(s, a + 1) {
            lemma_cmd_args(s, j);
        }
    }
    lemma_expr(s, a);
}

} // verus!

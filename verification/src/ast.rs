//! The abstract syntax of Mini-ShellScript and its mathematical mirror.
//!
//! Each executable node (holding `String`s, `Box`es and `Vec`s) has a view
//! over `Seq<char>` and `Seq<..>`, which is what the parser and interpreter
//! contracts speak of.

use vstd::prelude::*;

verus! {

/// A lexical token of the script language.
#[derive(Debug, PartialEq, Clone)]
pub enum Token {
    Dollar,
    Assign,
    At,
    If,
    Else,
    LBrace,
    RBrace,
    Ident(String),
    String(String),
    Backtick(String),
}

/// An expression of the script language.
#[derive(Debug)]
pub enum Expr {
    Literal(String),
    Variable(String),
    BinaryOp(Box<Expr>, String, Box<Expr>),
    CommandSub(String),
    Call(String, Vec<Expr>),
}

/// A statement of the script language.
#[derive(Debug)]
pub enum Statement {
    Assignment(String, Expr),
    If(Expr, Vec<Statement>, Option<Vec<Statement>>),
    While(Expr, Vec<Statement>),
    For(String, Expr, Vec<Statement>),
    CommandCall(String, Vec<Expr>),
    FunctionDef(String, Vec<String>, Vec<Statement>),
    Return(Expr),
    Expression(Expr),
}

/// A user-defined function: its parameter names and its body.
#[derive(Debug)]
pub struct Function {
    pub params: Vec<String>,
    pub body: Vec<Statement>,
}

/// The mathematical form of an expression.
pub enum SExpr {
    Literal(Seq<char>),
    Variable(Seq<char>),
    BinaryOp(Box<SExpr>, Seq<char>, Box<SExpr>),
    CommandSub(Seq<char>),
    Call(Seq<char>, Seq<SExpr>),
}

/// The mathematical form of a statement.
pub enum SStmt {
    Assignment(Seq<char>, SExpr),
    If(SExpr, Seq<SStmt>, Option<Seq<SStmt>>),
    While(SExpr, Seq<SStmt>),
    For(Seq<char>, SExpr, Seq<SStmt>),
    CommandCall(Seq<char>, Seq<SExpr>),
    FunctionDef(Seq<char>, Seq<Seq<char>>, Seq<SStmt>),
    Return(SExpr),
    Expression(SExpr),
}

/// The mathematical form of a user-defined function.
pub struct SFunction {
    pub params: Seq<Seq<char>>,
    pub body: Seq<SStmt>,
}

pub open spec fn expr_view(e: Expr) -> SExpr
    decreases e,
{
    match e {
        Expr::Literal(s) => SExpr::Literal(s@),
        Expr::Variable(s) => SExpr::Variable(s@),
        Expr::BinaryOp(l, op, r) => SExpr::BinaryOp(
            Box::new(expr_view(*l)),
            op@,
            Box::new(expr_view(*r)),
        ),
        Expr::CommandSub(s) => SExpr::CommandSub(s@),
        Expr::Call(n, args) => SExpr::Call(n@, exprs_view(args@)),
    }
}

pub open spec fn exprs_view(es: Seq<Expr>) -> Seq<SExpr>
    decreases es,
{
    if es.len() == 0 {
        Seq::empty()
    } else {
        seq![expr_view(es[0])] + exprs_view(es.subrange(1, es.len() as int))
    }
}

pub open spec fn stmt_view(s: Statement) -> SStmt
    decreases s,
{
    match s {
        Statement::Assignment(n, e) => SStmt::Assignment(n@, expr_view(e)),
        Statement::If(c, t, e) => SStmt::If(
            expr_view(c),
            stmts_view(t@),
            match e {
                Some(b) => Some(stmts_view(b@)),
                None => None,
            },
        ),
        Statement::While(c, b) => SStmt::While(expr_view(c), stmts_view(b@)),
        Statement::For(v, l, b) => SStmt::For(v@, expr_view(l), stmts_view(b@)),
        Statement::CommandCall(n, args) => SStmt::CommandCall(n@, exprs_view(args@)),
        Statement::FunctionDef(n, ps, b) => SStmt::FunctionDef(
            n@,
            ps@.map_values(|p: String| p@),
            stmts_view(b@),
        ),
        Statement::Return(e) => SStmt::Return(expr_view(e)),
        Statement::Expression(e) => SStmt::Expression(expr_view(e)),
    }
}

pub open spec fn stmts_view(ss: Seq<Statement>) -> Seq<SStmt>
    decreases ss,
{
    if ss.len() == 0 {
        Seq::empty()
    } else {
        seq![stmt_view(ss[0])] + stmts_view(ss.subrange(1, ss.len() as int))
    }
}

impl View for Expr {
    type V = SExpr;

    open spec fn view(&self) -> SExpr {
        expr_view(*self)
    }
}

impl View for Statement {
    type V = SStmt;

    open spec fn view(&self) -> SStmt {
        stmt_view(*self)
    }
}

impl View for Function {
    type V = SFunction;

    open spec fn view(&self) -> SFunction {
        SFunction { params: self.params@.map_values(|p: String| p@), body: stmts_view(self.body@) }
    }
}

pub proof fn lemma_exprs_view(es: Seq<Expr>)
    ensures
        exprs_view(es).len() == es.len(),
        forall|i: int| 0 <= i < es.len() ==> #[trigger] exprs_view(es)[i] == expr_view(es[i]),
    decreases es.len(),
{
    if es.len() > 0 {
        lemma_exprs_view(es.subrange(1, es.len() as int));
    }
}

pub proof fn lemma_stmts_view(ss: Seq<Statement>)
    ensures
        stmts_view(ss).len() == ss.len(),
        forall|i: int| 0 <= i < ss.len() ==> #[trigger] stmts_view(ss)[i] == stmt_view(ss[i]),
    decreases ss.len(),
{
    if ss.len() > 0 {
        lemma_stmts_view(ss.subrange(1, ss.len() as int));
    }
}

/// The view of a vector extended by one element.
pub proof fn lemma_exprs_view_push(es: Seq<Expr>, e: Expr)
    ensures
        exprs_view(es.push(e)) == exprs_view(es).push(expr_view(e)),
{
    lemma_exprs_view(es);
    lemma_exprs_view(es.push(e));
    assert(exprs_view(es.push(e)) =~= exprs_view(es).push(expr_view(e)));
}

pub proof fn lemma_stmts_view_push(ss: Seq<Statement>, s: Statement)
    ensures
        stmts_view(ss.push(s)) == stmts_view(ss).push(stmt_view(s)),
{
    lemma_stmts_view(ss);
    lemma_stmts_view(ss.push(s));
    assert(stmts_view(ss.push(s)) =~= stmts_view(ss).push(stmt_view(s)));
}

/// A copy of an expression with the same view.
pub fn copy_expr(e: &Expr) -> (r: Expr)
    ensures
        r@ == e@,
    decreases e,
{
    match e {
        Expr::Literal(s) => Expr::Literal(s.clone()),
        Expr::Variable(s) => Expr::Variable(s.clone()),
        Expr::BinaryOp(l, op, r) => {
            let l2 = copy_expr(l);
            let r2 = copy_expr(r);
            Expr::BinaryOp(Box::new(l2), op.clone(), Box::new(r2))
        },
        Expr::CommandSub(s) => Expr::CommandSub(s.clone()),
        Expr::Call(n, args) => {
            let a2 = copy_exprs(args);
            Expr::Call(n.clone(), a2)
        },
    }
}

/// A copy of a vector of expressions with the same view.
pub fn copy_exprs(es: &Vec<Expr>) -> (r: Vec<Expr>)
    ensures
        exprs_view(r@) == exprs_view(es@),
    decreases es,
{
    let mut r: Vec<Expr> = Vec::new();
    let mut i: usize = 0;
    while i < es.len()
        invariant
            i <= es.len(),
            exprs_view(r@) == exprs_view(es@.take(i as int)),
        decreases es.len() - i,
    {
        assert(decreases_to!(es => es@[i as int]));
        let c = copy_expr(&es[i]);
        proof {
            lemma_exprs_view_push(r@, c);
            lemma_exprs_view_push(es@.take(i as int), es@[i as int]);
            assert(es@.take(i as int).push(es@[i as int]) =~= es@.take(i + 1));
        }
        r.push(c);
        i = i + 1;
    }
    assert(es@.take(es@.len() as int) =~= es@);
    r
}

/// A copy of a vector of strings with the same characters.
pub fn copy_strings(v: &Vec<String>) -> (r: Vec<String>)
    ensures
        r@.map_values(|p: String| p@) == v@.map_values(|p: String| p@),
{
    let mut r: Vec<String> = Vec::new();
    let mut i: usize = 0;
    while i < v.len()
        invariant
            i <= v.len(),
            r@.len() == i,
            forall|k: int| 0 <= k < i ==> r@[k]@ == v@[k]@,
        decreases v.len() - i,
    {
        r.push(v[i].clone());
        i = i + 1;
    }
    assert(r@.map_values(|p: String| p@) =~= v@.map_values(|p: String| p@));
    r
}

/// A copy of a statement with the same view.
pub fn copy_stmt(s: &Statement) -> (r: Statement)
    ensures
        r@ == s@,
    decreases s,
{
    match s {
        Statement::Assignment(n, e) => Statement::Assignment(n.clone(), copy_expr(e)),
        Statement::If(c, t, e) => {
            let c2 = copy_expr(c);
            let t2 = copy_stmts(t);
            let e2 = match e {
                Some(b) => Some(copy_stmts(b)),
                None => None,
            };
            Statement::If(c2, t2, e2)
        },
        Statement::While(c, b) => Statement::While(copy_expr(c), copy_stmts(b)),
        Statement::For(v, l, b) => Statement::For(v.clone(), copy_expr(l), copy_stmts(b)),
        Statement::CommandCall(n, args) => Statement::CommandCall(n.clone(), copy_exprs(args)),
        Statement::FunctionDef(n, ps, b) => Statement::FunctionDef(
            n.clone(),
            copy_strings(ps),
            copy_stmts(b),
        ),
        Statement::Return(e) => Statement::Return(copy_expr(e)),
        Statement::Expression(e) => Statement::Expression(copy_expr(e)),
    }
}

/// A copy of a vector of statements with the same view.
pub fn copy_stmts(ss: &Vec<Statement>) -> (r: Vec<Statement>)
    ensures
        stmts_view(r@) == stmts_view(ss@),
    decreases ss,
{
    let mut r: Vec<Statement> = Vec::new();
    let mut i: usize = 0;
    while i < ss.len()
        invariant
            i <= ss.len(),
            stmts_view(r@) == stmts_view(ss@.take(i as int)),
        decreases ss.len() - i,
    {
        assert(decreases_to!(ss => ss@[i as int]));
        let c = copy_stmt(&ss[i]);
        proof {
            lemma_stmts_view_push(r@, c);
            lemma_stmts_view_push(ss@.take(i as int), ss@[i as int]);
            assert(ss@.take(i as int).push(ss@[i as int]) =~= ss@.take(i + 1));
        }
        r.push(c);
        i = i + 1;
    }
    assert(ss@.take(ss@.len() as int) =~= ss@);
    r
}

impl Function {
    /// A copy of this function with the same view.
    pub fn copy(&self) -> (r: Function)
        ensures
            r@ == self@,
    {
        Function { params: copy_strings(&self.params), body: copy_stmts(&self.body) }
    }
}

} // verus!

//! A closed expression model for the target language, covering exactly the
//! shapes that bit-field rewriting reads and builds: literals, identifiers,
//! repeat arrays, struct literals, method calls, the operator forms that the
//! nested-block scan walks, and blocks of statements.
use vstd::prelude::*;

verus! {

/// Source-language binary operators, including the assignment forms that the
/// bit-field rewriter handles.
#[derive(Debug, Clone, Copy, PartialEq, Eq)]
pub enum BinOp {
    Multiply,
    Divide,
    Modulus,
    Add,
    Subtract,
    ShiftLeft,
    ShiftRight,
    Less,
    Greater,
    LessEqual,
    GreaterEqual,
    EqualEqual,
    NotEqual,
    BitAnd,
    BitXor,
    BitOr,
    And,
    Or,
    Assign,
    AssignAdd,
    AssignSubtract,
    AssignMultiply,
    AssignDivide,
    AssignModulus,
    AssignBitXor,
    AssignShiftLeft,
    AssignShiftRight,
    AssignBitOr,
    AssignBitAnd,
}

/// Unary operators; the nested-block scan only looks through them.
#[derive(Debug, Clone, Copy, PartialEq, Eq)]
pub enum UnOp {
    Neg,
    Not,
}

/// A target-language expression.
#[derive(Debug, PartialEq, Eq)]
pub enum Expr {
    Lit(u64),
    Ident(String),
    /// Tuple-style member access, as in `.0`; used to unwrap a value of an
    /// outer record type to its inner, layout-compatible representation.
    FieldAccessIdx { base: Box<Expr>, idx: u64 },
    /// `[elem; len]`, with the length itself an expression (a literal byte
    /// count, or an identifier resolved by the target's type system).
    Repeat { elem: Box<Expr>, len: Box<Expr> },
    StructLit { name: String, fields: Vec<FieldVal> },
    MethodCall { receiver: Box<Expr>, method: String, args: Vec<Expr> },
    Binary { op: BinOp, left: Box<Expr>, right: Box<Expr> },
    Unary { op: UnOp, expr: Box<Expr> },
    Assign { left: Box<Expr>, right: Box<Expr> },
    AssignOp { op: BinOp, left: Box<Expr>, right: Box<Expr> },
    Cast { expr: Box<Expr>, ty: String },
    Block { stmts: Vec<Stmt> },
}

/// One `name: value` entry of a struct literal.
#[derive(Debug, PartialEq, Eq)]
pub struct FieldVal {
    pub name: String,
    pub expr: Expr,
}

/// A statement of a block: a `let` binding, a trailing expression, or an
/// expression terminated by a semicolon.
#[derive(Debug, PartialEq, Eq)]
pub enum Stmt {
    Local { name: String, init: Expr },
    Expr(Expr),
    Semi(Expr),
}

/// Mathematical mirror of [`Expr`], with strings as character sequences.
#[verifier::ext_equal]
pub ghost enum ExprV {
    Lit(u64),
    Ident(Seq<char>),
    FieldAccessIdx { base: Box<ExprV>, idx: u64 },
    Repeat { elem: Box<ExprV>, len: Box<ExprV> },
    StructLit { name: Seq<char>, fields: Seq<FieldValV> },
    MethodCall { receiver: Box<ExprV>, method: Seq<char>, args: Seq<ExprV> },
    Binary { op: BinOp, left: Box<ExprV>, right: Box<ExprV> },
    Unary { op: UnOp, expr: Box<ExprV> },
    Assign { left: Box<ExprV>, right: Box<ExprV> },
    AssignOp { op: BinOp, left: Box<ExprV>, right: Box<ExprV> },
    Cast { expr: Box<ExprV>, ty: Seq<char> },
    Block { stmts: Seq<StmtV> },
}

#[verifier::ext_equal]
pub ghost struct FieldValV {
    pub name: Seq<char>,
    pub expr: ExprV,
}

#[verifier::ext_equal]
pub ghost enum StmtV {
    Local { name: Seq<char>, init: ExprV },
    Expr(ExprV),
    Semi(ExprV),
}

pub open spec fn expr_view(e: Expr) -> ExprV
    decreases e,
{
    match e {
        Expr::Lit(n) => ExprV::Lit(n),
        Expr::Ident(s) => ExprV::Ident(s@),
        Expr::FieldAccessIdx { base, idx } => ExprV::FieldAccessIdx {
            base: Box::new(expr_view(*base)),
            idx,
        },
        Expr::Repeat { elem, len } => ExprV::Repeat {
            elem: Box::new(expr_view(*elem)),
            len: Box::new(expr_view(*len)),
        },
        Expr::StructLit { name, fields } => ExprV::StructLit {
            name: name@,
            fields: fieldvals_view(fields@),
        },
        Expr::MethodCall { receiver, method, args } => ExprV::MethodCall {
            receiver: Box::new(expr_view(*receiver)),
            method: method@,
            args: exprs_view(args@),
        },
        Expr::Binary { op, left, right } => ExprV::Binary {
            op,
            left: Box::new(expr_view(*left)),
            right: Box::new(expr_view(*right)),
        },
        Expr::Unary { op, expr } => ExprV::Unary { op, expr: Box::new(expr_view(*expr)) },
        Expr::Assign { left, right } => ExprV::Assign {
            left: Box::new(expr_view(*left)),
            right: Box::new(expr_view(*right)),
        },
        Expr::AssignOp { op, left, right } => ExprV::AssignOp {
            op,
            left: Box::new(expr_view(*left)),
            right: Box::new(expr_view(*right)),
        },
        Expr::Cast { expr, ty } => ExprV::Cast { expr: Box::new(expr_view(*expr)), ty: ty@ },
        Expr::Block { stmts } => ExprV::Block { stmts: stmts_view(stmts@) },
    }
}

pub open spec fn exprs_view(s: Seq<Expr>) -> Seq<ExprV>
    decreases s,
{
    if s.len() == 0 {
        Seq::empty()
    } else {
        exprs_view(s.subrange(0, s.len() - 1)).push(expr_view(s[s.len() - 1]))
    }
}

pub open spec fn fieldvals_view(s: Seq<FieldVal>) -> Seq<FieldValV>
    decreases s,
{
    if s.len() == 0 {
        Seq::empty()
    } else {
        fieldvals_view(s.subrange(0, s.len() - 1)).push(fieldval_view(s[s.len() - 1]))
    }
}

pub open spec fn fieldval_view(f: FieldVal) -> FieldValV
    decreases f,
{
    FieldValV { name: f.name@, expr: expr_view(f.expr) }
}

pub open spec fn stmt_view(s: Stmt) -> StmtV
    decreases s,
{
    match s {
        Stmt::Local { name, init } => StmtV::Local { name: name@, init: expr_view(init) },
        Stmt::Expr(e) => StmtV::Expr(expr_view(e)),
        Stmt::Semi(e) => StmtV::Semi(expr_view(e)),
    }
}

pub open spec fn stmts_view(s: Seq<Stmt>) -> Seq<StmtV>
    decreases s,
{
    if s.len() == 0 {
        Seq::empty()
    } else {
        stmts_view(s.subrange(0, s.len() - 1)).push(stmt_view(s[s.len() - 1]))
    }
}

impl View for Expr {
    type V = ExprV;

    open spec fn view(&self) -> ExprV {
        expr_view(*self)
    }
}

impl View for FieldVal {
    type V = FieldValV;

    open spec fn view(&self) -> FieldValV {
        fieldval_view(*self)
    }
}

impl View for Stmt {
    type V = StmtV;

    open spec fn view(&self) -> StmtV {
        stmt_view(*self)
    }
}

/// The element-wise reading of [`exprs_view`].
pub proof fn lemma_exprs_view(s: Seq<Expr>)
    ensures
        exprs_view(s).len() == s.len(),
        forall|i: int| 0 <= i < s.len() ==> exprs_view(s)[i] == expr_view(s[i]),
    decreases s.len(),
{
    if s.len() > 0 {
        lemma_exprs_view(s.subrange(0, s.len() - 1));
    }
}

/// The element-wise reading of [`fieldvals_view`].
pub proof fn lemma_fieldvals_view(s: Seq<FieldVal>)
    ensures
        fieldvals_view(s).len() == s.len(),
        forall|i: int| 0 <= i < s.len() ==> fieldvals_view(s)[i] == fieldval_view(s[i]),
    decreases s.len(),
{
    if s.len() > 0 {
        lemma_fieldvals_view(s.subrange(0, s.len() - 1));
    }
}

/// The element-wise reading of [`stmts_view`].
pub proof fn lemma_stmts_view(s: Seq<Stmt>)
    ensures
        stmts_view(s).len() == s.len(),
        forall|i: int| 0 <= i < s.len() ==> stmts_view(s)[i] == stmt_view(s[i]),
    decreases s.len(),
{
    if s.len() > 0 {
        lemma_stmts_view(s.subrange(0, s.len() - 1));
    }
}

/// Whether an expression syntactically contains a block, looking through
/// assignments, compound assignments, binary and unary operators, method-call
/// arguments and casts, and answering no for every other shape.
pub open spec fn spec_contains_block(e: ExprV) -> bool
    decreases e,
{
    match e {
        ExprV::Block { .. } => true,
        ExprV::Assign { left, right } => spec_contains_block(*left) || spec_contains_block(
            *right,
        ),
        ExprV::AssignOp { left, right, .. } => spec_contains_block(*left) || spec_contains_block(
            *right,
        ),
        ExprV::Binary { left, right, .. } => spec_contains_block(*left) || spec_contains_block(
            *right,
        ),
        ExprV::Unary { expr, .. } => spec_contains_block(*expr),
        ExprV::MethodCall { args, .. } => spec_any_contains_block(args),
        ExprV::Cast { expr, .. } => spec_contains_block(*expr),
        _ => false,
    }
}

pub open spec fn spec_any_contains_block(s: Seq<ExprV>) -> bool
    decreases s,
{
    if s.len() == 0 {
        false
    } else {
        spec_any_contains_block(s.subrange(0, s.len() - 1)) || spec_contains_block(
            s[s.len() - 1],
        )
    }
}

/// The recursive structural scan for a nested block.
pub fn contains_block(e: &Expr) -> (r: bool)
    ensures
        r == spec_contains_block(e@),
    decreases *e,
{
    match e {
        Expr::Block { .. } => true,
        Expr::Assign { left, right } => contains_block(left) || contains_block(right),
        Expr::AssignOp { left, right, .. } => contains_block(left) || contains_block(right),
        Expr::Binary { left, right, .. } => contains_block(left) || contains_block(right),
        Expr::Unary { expr, .. } => contains_block(expr),
        Expr::MethodCall { args, .. } => args_contain_block(args),
        Expr::Cast { expr, .. } => contains_block(expr),
        _ => false,
    }
}

fn args_contain_block(args: &Vec<Expr>) -> (r: bool)
    ensures
        r == spec_any_contains_block(exprs_view(args@)),
    decreases args@,
{
    let mut found = false;
    let mut i: usize = 0;
    proof {
        lemma_exprs_view(args@);
    }
    while i < args.len()
        invariant
            0 <= i <= args@.len(),
            exprs_view(args@).len() == args@.len(),
            forall|k: int| 0 <= k < args@.len() ==> exprs_view(args@)[k] == expr_view(args@[k]),
            found == spec_any_contains_block(exprs_view(args@).subrange(0, i as int)),
        decreases args@.len() - i,
    {
        proof {
            assert(exprs_view(args@).subrange(0, i + 1).subrange(0, i as int) =~= exprs_view(
                args@,
            ).subrange(0, i as int));
        }
        if contains_block(&args[i]) {
            found = true;
        }
        i = i + 1;
    }
    proof {
        assert(exprs_view(args@).subrange(0, args@.len() as int) =~= exprs_view(args@));
    }
    found
}

/// A deep copy whose mathematical value is the original's.
pub fn clone_expr(e: &Expr) -> (r: Expr)
    ensures
        r@ == e@,
    decreases *e,
{
    match e {
        Expr::Lit(n) => Expr::Lit(*n),
        Expr::Ident(s) => Expr::Ident(s.clone()),
        Expr::FieldAccessIdx { base, idx } => Expr::FieldAccessIdx {
            base: Box::new(clone_expr(base)),
            idx: *idx,
        },
        Expr::Repeat { elem, len } => Expr::Repeat {
            elem: Box::new(clone_expr(elem)),
            len: Box::new(clone_expr(len)),
        },
        Expr::StructLit { name, fields } => Expr::StructLit {
            name: name.clone(),
            fields: clone_fieldvals(fields),
        },
        Expr::MethodCall { receiver, method, args } => Expr::MethodCall {
            receiver: Box::new(clone_expr(receiver)),
            method: method.clone(),
            args: clone_exprs(args),
        },
        Expr::Binary { op, left, right } => Expr::Binary {
            op: *op,
            left: Box::new(clone_expr(left)),
            right: Box::new(clone_expr(right)),
        },
        Expr::Unary { op, expr } => Expr::Unary { op: *op, expr: Box::new(clone_expr(expr)) },
        Expr::Assign { left, right } => Expr::Assign {
            left: Box::new(clone_expr(left)),
            right: Box::new(clone_expr(right)),
        },
        Expr::AssignOp { op, left, right } => Expr::AssignOp {
            op: *op,
            left: Box::new(clone_expr(left)),
            right: Box::new(clone_expr(right)),
        },
        Expr::Cast { expr, ty } => Expr::Cast {
            expr: Box::new(clone_expr(expr)),
            ty: ty.clone(),
        },
        Expr::Block { stmts } => Expr::Block { stmts: clone_stmts(stmts) },
    }
}

fn clone_exprs(v: &Vec<Expr>) -> (r: Vec<Expr>)
    ensures
        exprs_view(r@) == exprs_view(v@),
    decreases v@,
{
    let mut r: Vec<Expr> = Vec::new();
    let mut i: usize = 0;
    proof {
        lemma_exprs_view(v@);
    }
    while i < v.len()
        invariant
            0 <= i <= v@.len(),
            r@.len() == i,
            forall|k: int| 0 <= k < v@.len() ==> exprs_view(v@)[k] == expr_view(v@[k]),
            exprs_view(v@).len() == v@.len(),
            forall|k: int| 0 <= k < i ==> expr_view(r@[k]) == expr_view(v@[k]),
        decreases v@.len() - i,
    {
        let c = clone_expr(&v[i]);
        r.push(c);
        i = i + 1;
    }
    proof {
        lemma_exprs_view(r@);
        assert(exprs_view(r@) =~= exprs_view(v@));
    }
    r
}

fn clone_fieldvals(v: &Vec<FieldVal>) -> (r: Vec<FieldVal>)
    ensures
        fieldvals_view(r@) == fieldvals_view(v@),
    decreases v@,
{
    let mut r: Vec<FieldVal> = Vec::new();
    let mut i: usize = 0;
    proof {
        lemma_fieldvals_view(v@);
    }
    while i < v.len()
        invariant
            0 <= i <= v@.len(),
            r@.len() == i,
            forall|k: int|
                0 <= k < v@.len() ==> fieldvals_view(v@)[k] == fieldval_view(v@[k]),
            fieldvals_view(v@).len() == v@.len(),
            forall|k: int| 0 <= k < i ==> fieldval_view(r@[k]) == fieldval_view(v@[k]),
        decreases v@.len() - i,
    {
        let f = &v[i];
        let c = FieldVal { name: f.name.clone(), expr: clone_expr(&f.expr) };
        r.push(c);
        i = i + 1;
    }
    proof {
        lemma_fieldvals_view(r@);
        assert(fieldvals_view(r@) =~= fieldvals_view(v@));
    }
    r
}

fn clone_stmts(v: &Vec<Stmt>) -> (r: Vec<Stmt>)
    ensures
        stmts_view(r@) == stmts_view(v@),
    decreases v@,
{
    let mut r: Vec<Stmt> = Vec::new();
    let mut i: usize = 0;
    proof {
        lemma_stmts_view(v@);
    }
    while i < v.len()
        invariant
            0 <= i <= v@.len(),
            r@.len() == i,
            forall|k: int| 0 <= k < v@.len() ==> stmts_view(v@)[k] == stmt_view(v@[k]),
            stmts_view(v@).len() == v@.len(),
            forall|k: int| 0 <= k < i ==> stmt_view(r@[k]) == stmt_view(v@[k]),
        decreases v@.len() - i,
    {
        let c = match &v[i] {
            Stmt::Local { name, init } => Stmt::Local {
                name: name.clone(),
                init: clone_expr(init),
            },
            Stmt::Expr(e) => Stmt::Expr(clone_expr(e)),
            Stmt::Semi(e) => Stmt::Semi(clone_expr(e)),
        };
        r.push(c);
        i = i + 1;
    }
    proof {
        lemma_stmts_view(r@);
        assert(stmts_view(r@) =~= stmts_view(v@));
    }
    r
}

/// A value expression together with the statements that must run before it and
/// a flag recording whether producing it needs an unchecked context.
#[derive(Debug, PartialEq, Eq)]
pub struct WithStmts {
    pub stmts: Vec<Stmt>,
    pub val: Expr,
    pub is_unsafe: bool,
}

#[verifier::ext_equal]
pub ghost struct WithStmtsV {
    pub stmts: Seq<StmtV>,
    pub val: ExprV,
    pub is_unsafe: bool,
}

impl View for WithStmts {
    type V = WithStmtsV;

    open spec fn view(&self) -> WithStmtsV {
        WithStmtsV { stmts: stmts_view(self.stmts@), val: self.val@, is_unsafe: self.is_unsafe }
    }
}

impl WithStmts {
    /// Whether the value stands alone, with no preceding statements.
    pub open spec fn spec_is_pure(self) -> bool {
        self.stmts@.len() == 0
    }

    pub fn is_pure(&self) -> (r: bool)
        ensures
            r == self.spec_is_pure(),
    {
        self.stmts.len() == 0
    }
}

} // verus!

//! The grammar of the language, as functions from a token sequence and a position to
//! the syntax tree read there and the position after it.
//!
//! Every function reads the tokens exactly as the parser does; the parser's functions
//! are proved to return what these return. A step that would not move forward is
//! answered `Stuck`, which the parser never meets: each of its steps consumes tokens.
use vstd::prelude::*;

use super::ast::{
    builtin_named, BinOp, BuiltinFunction, Expr, ExprKind, MatchArm, Param, Stmt,
    StmtKind, StructField, TopLevel, TypeModel, UnaryOp,
};
use super::{binding_power, kind_text, spec_binop_of, ParseError, ParseErrorKind};
use crate::lexer::token::{KindModel, Span, Token, TokenKind};

verus! {

// ---- the syntax tree as mathematical values ----

/// An expression.
pub struct ExprM {
    pub kind: ExprKindM,
    pub span: Span,
}

pub enum ExprKindM {
    IntLiteral(u64),
    BoolLiteral(bool),
    Ident(Seq<char>),
    BinaryOp { op: BinOp, lhs: Box<ExprM>, rhs: Box<ExprM> },
    UnaryOp { op: UnaryOp, expr: Box<ExprM> },
    Call { name: Seq<char>, args: Seq<ExprM> },
    BuiltinCall { builtin: BuiltinFunction, args: Seq<ExprM> },
    If { cond: Box<ExprM>, then_block: Box<ExprM>, else_block: Option<Box<ExprM>> },
    Loop { body: Box<ExprM> },
    Block { stmts: Seq<StmtM>, expr: Option<Box<ExprM>> },
    ArrayLiteral(Seq<ExprM>),
    Index { array: Box<ExprM>, index: Box<ExprM> },
    Match { scrutinee: Box<ExprM>, arms: Seq<ArmM> },
    EnumVariant { enum_name: Seq<char>, variant: Seq<char> },
    StructLiteral { name: Seq<char>, fields: Seq<(Seq<char>, ExprM)>, base: Option<Box<ExprM>> },
    FieldAccess { expr: Box<ExprM>, field: Seq<char> },
}

/// An arm of a `match`.
pub struct ArmM {
    pub pattern: ExprM,
    pub body: ExprM,
}

/// A statement.
pub struct StmtM {
    pub kind: StmtKindM,
    pub span: Span,
}

pub enum StmtKindM {
    Let { name: Seq<char>, ty: TypeModel, value: ExprM },
    Assign { name: Seq<char>, value: ExprM },
    IndexAssign { array: Seq<char>, index: ExprM, value: ExprM },
    Expr(ExprM),
    Return(Option<ExprM>),
    Break,
}

/// A name with a type: a parameter, or a field of a struct definition.
pub struct TypedNameM {
    pub name: Seq<char>,
    pub ty: TypeModel,
}

/// A top-level definition.
pub enum TopLevelM {
    FnDef {
        name: Seq<char>,
        params: Seq<TypedNameM>,
        return_type: TypeModel,
        body: ExprM,
        span: Span,
    },
    LetDef { name: Seq<char>, ty: TypeModel, value: ExprM, mutable: bool, span: Span },
    EnumDef { name: Seq<char>, variants: Seq<Seq<char>>, span: Span },
    StructDef { name: Seq<char>, fields: Seq<TypedNameM>, span: Span },
}

/// A syntax error as a value.
pub enum ErrKindM {
    Unexpected { expected: Seq<char>, found: KindModel },
    UnknownType(Seq<char>),
    InvalidTarget,
}

/// Why reading stopped.
pub enum ErrM {
    Syntax { kind: ErrKindM, span: Span },
    /// A step that did not move forward.
    Stuck,
}

/// What a reading function gives: the value and the position after it, or an error.
pub type Parsed<T> = Result<(T, int), ErrM>;

// ---- the views of the parser's values ----

pub open spec fn expr_v(e: Expr) -> ExprM
    decreases e, 1nat,
{
    ExprM { kind: kind_v(e.kind), span: e.span }
}

pub open spec fn kind_v(k: ExprKind) -> ExprKindM
    decreases k, 0nat,
{
    match k {
        ExprKind::IntLiteral(v) => ExprKindM::IntLiteral(v),
        ExprKind::BoolLiteral(b) => ExprKindM::BoolLiteral(b),
        ExprKind::Ident(n) => ExprKindM::Ident(n@),
        ExprKind::BinaryOp { op, lhs, rhs } => ExprKindM::BinaryOp {
            op,
            lhs: Box::new(expr_v(*lhs)),
            rhs: Box::new(expr_v(*rhs)),
        },
        ExprKind::UnaryOp { op, expr } => ExprKindM::UnaryOp { op, expr: Box::new(expr_v(*expr)) },
        ExprKind::Call { name, args } => ExprKindM::Call { name: name@, args: exprs_v(args@) },
        ExprKind::BuiltinCall { builtin, args } => ExprKindM::BuiltinCall {
            builtin,
            args: exprs_v(args@),
        },
        ExprKind::If { cond, then_block, else_block } => ExprKindM::If {
            cond: Box::new(expr_v(*cond)),
            then_block: Box::new(expr_v(*then_block)),
            else_block: match else_block {
                Some(e) => Some(Box::new(expr_v(*e))),
                None => None,
            },
        },
        ExprKind::Loop { body } => ExprKindM::Loop { body: Box::new(expr_v(*body)) },
        ExprKind::Block { stmts, expr } => ExprKindM::Block {
            stmts: stmts_v(stmts@),
            expr: match expr {
                Some(e) => Some(Box::new(expr_v(*e))),
                None => None,
            },
        },
        ExprKind::ArrayLiteral(elems) => ExprKindM::ArrayLiteral(exprs_v(elems@)),
        ExprKind::Index { array, index } => ExprKindM::Index {
            array: Box::new(expr_v(*array)),
            index: Box::new(expr_v(*index)),
        },
        ExprKind::Match { scrutinee, arms } => ExprKindM::Match {
            scrutinee: Box::new(expr_v(*scrutinee)),
            arms: arms_v(arms@),
        },
        ExprKind::EnumVariant { enum_name, variant } => ExprKindM::EnumVariant {
            enum_name: enum_name@,
            variant: variant@,
        },
        ExprKind::StructLiteral { name, fields, base } => ExprKindM::StructLiteral {
            name: name@,
            fields: inits_v(fields@),
            base: match base {
                Some(b) => Some(Box::new(expr_v(*b))),
                None => None,
            },
        },
        ExprKind::FieldAccess { expr, field } => ExprKindM::FieldAccess {
            expr: Box::new(expr_v(*expr)),
            field: field@,
        },
    }
}

pub open spec fn exprs_v(s: Seq<Expr>) -> Seq<ExprM>
    decreases s, s.len(),
{
    if s.len() == 0 {
        seq![]
    } else {
        exprs_v(s.drop_last()).push(expr_v(s.last()))
    }
}

pub open spec fn inits_v(s: Seq<(String, Expr)>) -> Seq<(Seq<char>, ExprM)>
    decreases s, s.len(),
{
    if s.len() == 0 {
        seq![]
    } else {
        inits_v(s.drop_last()).push((s.last().0@, expr_v(s.last().1)))
    }
}

pub open spec fn arm_v(a: MatchArm) -> ArmM
    decreases a, 0nat,
{
    ArmM { pattern: expr_v(a.pattern), body: expr_v(a.body) }
}

pub open spec fn arms_v(s: Seq<MatchArm>) -> Seq<ArmM>
    decreases s, s.len(),
{
    if s.len() == 0 {
        seq![]
    } else {
        arms_v(s.drop_last()).push(arm_v(s.last()))
    }
}

pub open spec fn stmt_v(st: Stmt) -> StmtM
    decreases st, 1nat,
{
    StmtM { kind: stmt_kind_v(st.kind), span: st.span }
}

pub open spec fn stmt_kind_v(k: StmtKind) -> StmtKindM
    decreases k, 0nat,
{
    match k {
        StmtKind::Let { name, ty, value } => StmtKindM::Let {
            name: name@,
            ty: ty@,
            value: expr_v(value),
        },
        StmtKind::Assign { name, value } => StmtKindM::Assign { name: name@, value: expr_v(value) },
        StmtKind::IndexAssign { array, index, value } => StmtKindM::IndexAssign {
            array: array@,
            index: expr_v(index),
            value: expr_v(value),
        },
        StmtKind::Expr(e) => StmtKindM::Expr(expr_v(e)),
        StmtKind::Return(e) => StmtKindM::Return(
            match e {
                Some(e) => Some(expr_v(e)),
                None => None,
            },
        ),
        StmtKind::Break => StmtKindM::Break,
    }
}

pub open spec fn stmts_v(s: Seq<Stmt>) -> Seq<StmtM>
    decreases s, s.len(),
{
    if s.len() == 0 {
        seq![]
    } else {
        stmts_v(s.drop_last()).push(stmt_v(s.last()))
    }
}

pub open spec fn params_v(s: Seq<Param>) -> Seq<TypedNameM>
    decreases s.len(),
{
    if s.len() == 0 {
        seq![]
    } else {
        params_v(s.drop_last()).push(TypedNameM { name: s.last().name@, ty: s.last().ty@ })
    }
}

pub open spec fn struct_fields_v(s: Seq<StructField>) -> Seq<TypedNameM>
    decreases s.len(),
{
    if s.len() == 0 {
        seq![]
    } else {
        struct_fields_v(s.drop_last()).push(
            TypedNameM { name: s.last().name@, ty: s.last().ty@ },
        )
    }
}

pub open spec fn names_v(s: Seq<String>) -> Seq<Seq<char>>
    decreases s.len(),
{
    if s.len() == 0 {
        seq![]
    } else {
        names_v(s.drop_last()).push(s.last()@)
    }
}

pub open spec fn top_v(t: TopLevel) -> TopLevelM {
    match t {
        TopLevel::FnDef { name, params, return_type, body, span } => TopLevelM::FnDef {
            name: name@,
            params: params_v(params@),
            return_type: return_type@,
            body: expr_v(body),
            span,
        },
        TopLevel::LetDef { name, ty, value, mutable, span } => TopLevelM::LetDef {
            name: name@,
            ty: ty@,
            value: expr_v(value),
            mutable,
            span,
        },
        TopLevel::EnumDef { name, variants, span } => TopLevelM::EnumDef {
            name: name@,
            variants: names_v(variants@),
            span,
        },
        TopLevel::StructDef { name, fields, span } => TopLevelM::StructDef {
            name: name@,
            fields: struct_fields_v(fields@),
            span,
        },
    }
}

pub open spec fn tops_v(s: Seq<TopLevel>) -> Seq<TopLevelM>
    decreases s.len(),
{
    if s.len() == 0 {
        seq![]
    } else {
        tops_v(s.drop_last()).push(top_v(s.last()))
    }
}

pub open spec fn err_v(e: ParseError) -> ErrM {
    ErrM::Syntax {
        kind: match e.kind {
            ParseErrorKind::UnexpectedToken { expected, found } => ErrKindM::Unexpected {
                expected: expected@,
                found: found@,
            },
            ParseErrorKind::UnknownType(n) => ErrKindM::UnknownType(n@),
            ParseErrorKind::InvalidAssignmentTarget => ErrKindM::InvalidTarget,
        },
        span: e.span,
    }
}

/// Appending one element commutes with the views of sequences.
pub proof fn lemma_exprs_v_push(s: Seq<Expr>, e: Expr)
    ensures
        exprs_v(s.push(e)) == exprs_v(s).push(expr_v(e)),
{
    assert(s.push(e).drop_last() =~= s);
}

pub proof fn lemma_inits_v_push(s: Seq<(String, Expr)>, f: (String, Expr))
    ensures
        inits_v(s.push(f)) == inits_v(s).push((f.0@, expr_v(f.1))),
{
    assert(s.push(f).drop_last() =~= s);
}

pub proof fn lemma_arms_v_push(s: Seq<MatchArm>, a: MatchArm)
    ensures
        arms_v(s.push(a)) == arms_v(s).push(arm_v(a)),
{
    assert(s.push(a).drop_last() =~= s);
}

pub proof fn lemma_stmts_v_push(s: Seq<Stmt>, st: Stmt)
    ensures
        stmts_v(s.push(st)) == stmts_v(s).push(stmt_v(st)),
{
    assert(s.push(st).drop_last() =~= s);
}

pub proof fn lemma_params_v_push(s: Seq<Param>, x: Param)
    ensures
        params_v(s.push(x)) == params_v(s).push(TypedNameM { name: x.name@, ty: x.ty@ }),
{
    assert(s.push(x).drop_last() =~= s);
}

pub proof fn lemma_struct_fields_v_push(s: Seq<StructField>, x: StructField)
    ensures
        struct_fields_v(s.push(x)) == struct_fields_v(s).push(TypedNameM { name: x.name@, ty: x.ty@ }),
{
    assert(s.push(x).drop_last() =~= s);
}

pub proof fn lemma_names_v_push(s: Seq<String>, x: String)
    ensures
        names_v(s.push(x)) == names_v(s).push(x@),
{
    assert(s.push(x).drop_last() =~= s);
}

pub proof fn lemma_tops_v_push(s: Seq<TopLevel>, x: TopLevel)
    ensures
        tops_v(s.push(x)) == tops_v(s).push(top_v(x)),
{
    assert(s.push(x).drop_last() =~= s);
}

// ---- single tokens ----

/// Whether the token at `p` is of kind `k` (names compared by their characters).
pub open spec fn is_at(ts: Seq<Token>, p: int, k: TokenKind) -> bool {
    ts[p].kind@ == k@
}

/// `p + 1` past a comma at `p`, else `p`.
pub open spec fn skip_comma(ts: Seq<Token>, p: int) -> int {
    if is_at(ts, p, TokenKind::Comma) {
        p + 1
    } else {
        p
    }
}

/// The error for an unexpected token at `p`.
pub open spec fn unexpected_at(ts: Seq<Token>, p: int, expected: Seq<char>) -> ErrM {
    ErrM::Syntax {
        kind: ErrKindM::Unexpected { expected, found: ts[p].kind@ },
        span: ts[p].span,
    }
}

/// The token `k` at `p`.
pub open spec fn expect_at(ts: Seq<Token>, p: int, k: TokenKind) -> Parsed<Span> {
    if is_at(ts, p, k) {
        Ok((ts[p].span, p + 1))
    } else {
        Err(unexpected_at(ts, p, kind_text(k@)))
    }
}

/// An identifier at `p`.
pub open spec fn ident_at(ts: Seq<Token>, p: int) -> Parsed<Seq<char>> {
    match ts[p].kind {
        TokenKind::Ident(name) => Ok((name@, p + 1)),
        _ => Err(unexpected_at(ts, p, "identifier"@)),
    }
}

/// An integer literal at `p`.
pub open spec fn int_at(ts: Seq<Token>, p: int) -> Parsed<u64> {
    match ts[p].kind {
        TokenKind::IntLiteral(v) => Ok((v, p + 1)),
        _ => Err(unexpected_at(ts, p, "integer literal"@)),
    }
}

/// Whether `q` lies after `p` and on a token.
pub open spec fn moved(ts: Seq<Token>, p: int, q: int) -> bool {
    p < q < ts.len()
}

// ---- types ----

/// A type: `u8`, `bool`, `sprite(N)`, `()`, `[T; N]`, or a user type's name.
pub open spec fn type_at(ts: Seq<Token>, p: int) -> Parsed<TypeModel>
    decreases ts.len() - p,
{
    if !(0 <= p < ts.len()) {
        Err(ErrM::Stuck)
    } else {
        match ts[p].kind {
            TokenKind::Ident(name) => {
                let q = p + 1;
                if name@ == seq!['u', '8'] {
                    Ok((TypeModel::U8, q))
                } else if name@ == seq!['b', 'o', 'o', 'l'] {
                    Ok((TypeModel::Bool, q))
                } else if name@ == seq!['s', 'p', 'r', 'i', 't', 'e'] {
                    match expect_at(ts, q, TokenKind::LParen) {
                        Err(e) => Err(e),
                        Ok((_, q)) => match int_at(ts, q) {
                            Err(e) => Err(e),
                            Ok((size, q)) => match expect_at(ts, q, TokenKind::RParen) {
                                Err(e) => Err(e),
                                Ok((_, q)) => Ok((TypeModel::Sprite(size as usize), q)),
                            },
                        },
                    }
                } else {
                    Ok((TypeModel::UserType(name@), q))
                }
            },
            TokenKind::LParen => match expect_at(ts, p + 1, TokenKind::RParen) {
                Err(e) => Err(e),
                Ok((_, q)) => Ok((TypeModel::Unit, q)),
            },
            TokenKind::LBracket => match type_at(ts, p + 1) {
                Err(e) => Err(e),
                Ok((elem, q)) => match expect_at(ts, q, TokenKind::Semicolon) {
                    Err(e) => Err(e),
                    Ok((_, q)) => match int_at(ts, q) {
                        Err(e) => Err(e),
                        Ok((size, q)) => match expect_at(ts, q, TokenKind::RBracket) {
                            Err(e) => Err(e),
                            Ok((_, q)) => Ok((TypeModel::Array(Box::new(elem), size as usize), q)),
                        },
                    },
                },
            },
            _ => Err(unexpected_at(ts, p, "type"@)),
        }
    }
}

// ---- expressions ----

/// A call of `name`: of a built-in function when the name is one.
pub open spec fn call_m(name: Seq<char>, args: Seq<ExprM>, span: Span) -> ExprM {
    match builtin_named(name) {
        Some(builtin) => ExprM { kind: ExprKindM::BuiltinCall { builtin, args }, span },
        None => ExprM { kind: ExprKindM::Call { name, args }, span },
    }
}

/// An expression: binary operators by binding power, `|>` loosest of all.
pub open spec fn expr_at(ts: Seq<Token>, p: int) -> Parsed<ExprM>
    decreases ts.len() - p, 7nat,
{
    bp_at(ts, p, 0)
}

/// An expression whose operators bind at least as tightly as `min_bp`.
pub open spec fn bp_at(ts: Seq<Token>, p: int, min_bp: u8) -> Parsed<ExprM>
    decreases ts.len() - p, 6nat,
{
    if !(0 <= p < ts.len()) {
        Err(ErrM::Stuck)
    } else {
        match unary_at(ts, p) {
            Err(e) => Err(e),
            Ok((lhs, q)) => if !moved(ts, p, q) {
                Err(ErrM::Stuck)
            } else {
                bp_rest(ts, min_bp, lhs, q)
            },
        }
    }
}

/// The operators that follow `lhs`, from `q` on.
pub open spec fn bp_rest(ts: Seq<Token>, min_bp: u8, lhs: ExprM, q: int) -> Parsed<ExprM>
    decreases ts.len() - q, 6nat,
{
    if !(0 <= q < ts.len()) {
        Err(ErrM::Stuck)
    } else if min_bp == 0 && is_at(ts, q, TokenKind::Pipe) {
        match pipe_at(ts, lhs, q + 1) {
            Err(e) => Err(e),
            Ok((e, q2)) => if !moved(ts, q, q2) {
                Err(ErrM::Stuck)
            } else {
                bp_rest(ts, min_bp, e, q2)
            },
        }
    } else {
        match spec_binop_of(ts[q].kind) {
            None => Ok((lhs, q)),
            Some(op) => if binding_power(op).0 < min_bp {
                Ok((lhs, q))
            } else {
                match bp_at(ts, q + 1, binding_power(op).1) {
                    Err(e) => Err(e),
                    Ok((rhs, q2)) => if !moved(ts, q, q2) {
                        Err(ErrM::Stuck)
                    } else {
                        bp_rest(
                            ts,
                            min_bp,
                            ExprM {
                                kind: ExprKindM::BinaryOp {
                                    op,
                                    lhs: Box::new(lhs),
                                    rhs: Box::new(rhs),
                                },
                                span: lhs.span,
                            },
                            q2,
                        )
                    },
                }
            },
        }
    }
}

/// `-e`, `!e`, or a postfix expression.
pub open spec fn unary_at(ts: Seq<Token>, p: int) -> Parsed<ExprM>
    decreases ts.len() - p, 5nat,
{
    if !(0 <= p < ts.len()) {
        Err(ErrM::Stuck)
    } else {
        match ts[p].kind {
            TokenKind::Minus => match unary_at(ts, p + 1) {
                Err(e) => Err(e),
                Ok((e, q)) => Ok(
                    (
                        ExprM {
                            kind: ExprKindM::UnaryOp { op: UnaryOp::Neg, expr: Box::new(e) },
                            span: ts[p].span,
                        },
                        q,
                    ),
                ),
            },
            TokenKind::Bang => match unary_at(ts, p + 1) {
                Err(e) => Err(e),
                Ok((e, q)) => Ok(
                    (
                        ExprM {
                            kind: ExprKindM::UnaryOp { op: UnaryOp::Not, expr: Box::new(e) },
                            span: ts[p].span,
                        },
                        q,
                    ),
                ),
            },
            _ => postfix_at(ts, p),
        }
    }
}

/// A primary expression followed by indexing `[i]` and field access `.f`.
pub open spec fn postfix_at(ts: Seq<Token>, p: int) -> Parsed<ExprM>
    decreases ts.len() - p, 4nat,
{
    if !(0 <= p < ts.len()) {
        Err(ErrM::Stuck)
    } else {
        match primary_at(ts, p) {
            Err(e) => Err(e),
            Ok((e, q)) => if !moved(ts, p, q) {
                Err(ErrM::Stuck)
            } else {
                postfix_rest(ts, e, q)
            },
        }
    }
}

/// The indexing and field accesses that follow `e`, from `q` on.
pub open spec fn postfix_rest(ts: Seq<Token>, e: ExprM, q: int) -> Parsed<ExprM>
    decreases ts.len() - q, 4nat,
{
    if !(0 <= q < ts.len()) {
        Err(ErrM::Stuck)
    } else if is_at(ts, q, TokenKind::LBracket) {
        match expr_at(ts, q + 1) {
            Err(err) => Err(err),
            Ok((index, q1)) => if !moved(ts, q, q1) {
                Err(ErrM::Stuck)
            } else {
                match expect_at(ts, q1, TokenKind::RBracket) {
                    Err(err) => Err(err),
                    Ok((_, q2)) => postfix_rest(
                        ts,
                        ExprM {
                            kind: ExprKindM::Index { array: Box::new(e), index: Box::new(index) },
                            span: e.span,
                        },
                        q2,
                    ),
                }
            },
        }
    } else if is_at(ts, q, TokenKind::Dot) {
        match ident_at(ts, q + 1) {
            Err(err) => Err(err),
            Ok((field, _)) => if !moved(ts, q, q + 2) {
                Err(ErrM::Stuck)
            } else {
                postfix_rest(
                    ts,
                    ExprM {
                        kind: ExprKindM::FieldAccess { expr: Box::new(e), field },
                        span: e.span,
                    },
                    q + 2,
                )
            },
        }
    } else {
        Ok((e, q))
    }
}

/// Whether `Name {` with `{` at `q` opens a struct literal: `{ ..` or `{ name :`.
pub open spec fn starts_struct_literal(ts: Seq<Token>, q: int) -> bool {
    let k1 = if q + 1 < ts.len() {
        ts[q + 1].kind
    } else {
        ts[ts.len() - 1].kind
    };
    let k2 = if q + 2 < ts.len() {
        ts[q + 2].kind
    } else {
        ts[ts.len() - 1].kind
    };
    match k1 {
        TokenKind::DotDot => true,
        TokenKind::Ident(_) => k2 is Colon,
        _ => false,
    }
}

/// A literal, a name, a call, an enum variant, a struct literal, a parenthesized
/// expression, an array literal, a block, `if`, `match` or `loop`.
pub open spec fn primary_at(ts: Seq<Token>, p: int) -> Parsed<ExprM>
    decreases ts.len() - p, 3nat,
{
    if !(0 <= p < ts.len()) {
        Err(ErrM::Stuck)
    } else {
        let span = ts[p].span;
        match ts[p].kind {
            TokenKind::IntLiteral(v) => Ok((ExprM { kind: ExprKindM::IntLiteral(v), span }, p + 1)),
            TokenKind::True => Ok((ExprM { kind: ExprKindM::BoolLiteral(true), span }, p + 1)),
            TokenKind::False => Ok((ExprM { kind: ExprKindM::BoolLiteral(false), span }, p + 1)),
            TokenKind::Ident(name) => {
                let q = p + 1;
                if is_at(ts, q, TokenKind::ColonColon) {
                    match ident_at(ts, q + 1) {
                        Err(e) => Err(e),
                        Ok((variant, q2)) => Ok(
                            (
                                ExprM {
                                    kind: ExprKindM::EnumVariant { enum_name: name@, variant },
                                    span,
                                },
                                q2,
                            ),
                        ),
                    }
                } else if is_at(ts, q, TokenKind::LBrace) && starts_struct_literal(ts, q) {
                    struct_lit_at(ts, name@, span, q)
                } else if is_at(ts, q, TokenKind::LParen) && q + 1 < ts.len() {
                    match args_at(ts, q + 1) {
                        Err(e) => Err(e),
                        Ok((args, q2)) => if !moved(ts, p, q2) {
                            Err(ErrM::Stuck)
                        } else {
                            match expect_at(ts, q2, TokenKind::RParen) {
                                Err(e) => Err(e),
                                Ok((_, q3)) => Ok((call_m(name@, args, span), q3)),
                            }
                        },
                    }
                } else {
                    Ok((ExprM { kind: ExprKindM::Ident(name@), span }, q))
                }
            },
            TokenKind::LParen => {
                let q = p + 1;
                if is_at(ts, q, TokenKind::RParen) {
                    Ok((ExprM { kind: ExprKindM::IntLiteral(0), span }, q + 1))
                } else {
                    match expr_at(ts, q) {
                        Err(e) => Err(e),
                        Ok((e, q2)) => if !moved(ts, p, q2) {
                            Err(ErrM::Stuck)
                        } else {
                            match expect_at(ts, q2, TokenKind::RParen) {
                                Err(err) => Err(err),
                                Ok((_, q3)) => Ok((e, q3)),
                            }
                        },
                    }
                }
            },
            TokenKind::LBracket => {
                let q = p + 1;
                let elems = if is_at(ts, q, TokenKind::RBracket) {
                    Ok((seq![], q))
                } else {
                    list_from(ts, seq![], q)
                };
                match elems {
                    Err(e) => Err(e),
                    Ok((elems, q2)) => if !moved(ts, p, q2) {
                        Err(ErrM::Stuck)
                    } else {
                        match expect_at(ts, q2, TokenKind::RBracket) {
                            Err(e) => Err(e),
                            Ok((_, q3)) => Ok(
                                (ExprM { kind: ExprKindM::ArrayLiteral(elems), span }, q3),
                            ),
                        }
                    },
                }
            },
            TokenKind::LBrace => block_at(ts, p),
            TokenKind::If => if_at(ts, p),
            TokenKind::Match => match_at(ts, p),
            TokenKind::Loop => loop_at(ts, p),
            _ => Err(unexpected_at(ts, p, "expression"@)),
        }
    }
}

/// Expressions separated by commas, after those already read (`acc`): one at least,
/// up to the first expression not followed by a comma.
pub open spec fn list_from(ts: Seq<Token>, acc: Seq<ExprM>, q: int) -> Parsed<Seq<ExprM>>
    decreases ts.len() - q, 8nat,
{
    if !(0 <= q < ts.len()) {
        Err(ErrM::Stuck)
    } else {
        match expr_at(ts, q) {
            Err(e) => Err(e),
            Ok((e, q1)) => if !moved(ts, q, q1) {
                Err(ErrM::Stuck)
            } else if is_at(ts, q1, TokenKind::Comma) {
                list_from(ts, acc.push(e), q1 + 1)
            } else {
                Ok((acc.push(e), q1))
            },
        }
    }
}

/// The arguments of a call, up to (not including) `)`.
pub open spec fn args_at(ts: Seq<Token>, p: int) -> Parsed<Seq<ExprM>>
    decreases ts.len() - p, 9nat,
{
    if !(0 <= p < ts.len()) {
        Err(ErrM::Stuck)
    } else if is_at(ts, p, TokenKind::RParen) {
        Ok((seq![], p))
    } else {
        list_from(ts, seq![], p)
    }
}

/// `{ field: value, ..base }` after a struct's name; `{` at `q`.
pub open spec fn struct_lit_at(ts: Seq<Token>, name: Seq<char>, span: Span, q: int) -> Parsed<
    ExprM,
>
    decreases ts.len() - q, 1nat,
{
    if !(0 <= q < ts.len()) {
        Err(ErrM::Stuck)
    } else {
        match expect_at(ts, q, TokenKind::LBrace) {
            Err(e) => Err(e),
            Ok(_) => struct_lit_rest(ts, name, span, seq![], None, q + 1),
        }
    }
}

/// The fields of a struct literal from `c` on, after those already read.
pub open spec fn struct_lit_rest(
    ts: Seq<Token>,
    name: Seq<char>,
    span: Span,
    fields: Seq<(Seq<char>, ExprM)>,
    base: Option<Box<ExprM>>,
    c: int,
) -> Parsed<ExprM>
    decreases ts.len() - c, 1nat,
{
    if !(0 <= c < ts.len()) {
        Err(ErrM::Stuck)
    } else if is_at(ts, c, TokenKind::RBrace) {
        Ok((ExprM { kind: ExprKindM::StructLiteral { name, fields, base }, span }, c + 1))
    } else if is_at(ts, c, TokenKind::DotDot) {
        match expr_at(ts, c + 1) {
            Err(e) => Err(e),
            Ok((b, c1)) => if !moved(ts, c, c1) {
                Err(ErrM::Stuck)
            } else {
                struct_lit_rest(ts, name, span, fields, Some(Box::new(b)), skip_comma(ts, c1))
            },
        }
    } else {
        match ident_at(ts, c) {
            Err(e) => Err(e),
            Ok((field, _)) => match expect_at(ts, c + 1, TokenKind::Colon) {
                Err(e) => Err(e),
                Ok(_) => if !moved(ts, c, c + 2) {
                    Err(ErrM::Stuck)
                } else {
                    match expr_at(ts, c + 2) {
                    Err(e) => Err(e),
                    Ok((value, c3)) => if !moved(ts, c, c3) {
                        Err(ErrM::Stuck)
                    } else {
                        struct_lit_rest(
                            ts,
                            name,
                            span,
                            fields.push((field, value)),
                            base,
                            skip_comma(ts, c3),
                        )
                    },
                    }
                },
            },
        }
    }
}

/// `{ statements tail }`.
pub open spec fn block_at(ts: Seq<Token>, p: int) -> Parsed<ExprM>
    decreases ts.len() - p, 2nat,
{
    if !(0 <= p < ts.len()) {
        Err(ErrM::Stuck)
    } else {
        match expect_at(ts, p, TokenKind::LBrace) {
            Err(e) => Err(e),
            Ok((_, q)) => block_rest(ts, ts[p].span, seq![], None, q),
        }
    }
}

/// Whether an expression can be assigned to: a name, or a name indexed.
pub open spec fn assignable(e: ExprM) -> bool {
    match e.kind {
        ExprKindM::Ident(_) => true,
        ExprKindM::Index { array, .. } => array.kind is Ident,
        _ => false,
    }
}

/// The statement `target = value;`.
pub open spec fn assignment_m(target: ExprM, value: ExprM, span: Span, err_span: Span) -> Result<
    StmtM,
    ErrM,
> {
    match target.kind {
        ExprKindM::Ident(name) => Ok(StmtM { kind: StmtKindM::Assign { name, value }, span }),
        ExprKindM::Index { array, index } => match array.kind {
            ExprKindM::Ident(name) => Ok(
                StmtM { kind: StmtKindM::IndexAssign { array: name, index: *index, value }, span },
            ),
            _ => Err(ErrM::Syntax { kind: ErrKindM::InvalidTarget, span: err_span }),
        },
        _ => Err(ErrM::Syntax { kind: ErrKindM::InvalidTarget, span: err_span }),
    }
}

/// The rest of a block from `q` on, after the statements already read.
pub open spec fn block_rest(
    ts: Seq<Token>,
    span: Span,
    stmts: Seq<StmtM>,
    tail: Option<Box<ExprM>>,
    q: int,
) -> Parsed<ExprM>
    decreases ts.len() - q, 9nat,
{
    if !(0 <= q < ts.len()) {
        Err(ErrM::Stuck)
    } else if is_at(ts, q, TokenKind::RBrace) {
        Ok((ExprM { kind: ExprKindM::Block { stmts, expr: tail }, span }, q + 1))
    } else if ts[q].kind is Let || ts[q].kind is Return || ts[q].kind is Break {
        match stmt_at(ts, q) {
            Err(e) => Err(e),
            Ok((st, q1)) => if !moved(ts, q, q1) {
                Err(ErrM::Stuck)
            } else {
                block_rest(ts, span, stmts.push(st), tail, q1)
            },
        }
    } else {
        let stmt_span = ts[q].span;
        match expr_at(ts, q) {
            Err(e) => Err(e),
            Ok((e, q1)) => if !moved(ts, q, q1) {
                Err(ErrM::Stuck)
            } else if is_at(ts, q1, TokenKind::Semicolon) {
                block_rest(
                    ts,
                    span,
                    stmts.push(StmtM { kind: StmtKindM::Expr(e), span: stmt_span }),
                    tail,
                    q1 + 1,
                )
            } else if is_at(ts, q1, TokenKind::Eq) {
                match assign_at(ts, e, stmt_span, q1) {
                    Err(err) => Err(err),
                    Ok((st, q3)) => if !moved(ts, q1, q3) {
                        Err(ErrM::Stuck)
                    } else {
                        block_rest(ts, span, stmts.push(st), tail, q3)
                    },
                }
            } else if is_at(ts, q1, TokenKind::RBrace) {
                block_rest(ts, span, stmts, Some(Box::new(e)), q1)
            } else {
                Err(unexpected_at(ts, q1, "';' or '}'"@))
            },
        }
    }
}

/// `= value;` after `target` inside a block, with `=` at `q`: the target is checked
/// before the value is read.
pub open spec fn assign_at(ts: Seq<Token>, target: ExprM, span: Span, q: int) -> Parsed<StmtM>
    decreases ts.len() - q, 1nat,
{
    if !(0 <= q < ts.len()) {
        Err(ErrM::Stuck)
    } else {
        let err_span = ts[q].span;
        if !assignable(target) {
            Err(ErrM::Syntax { kind: ErrKindM::InvalidTarget, span: err_span })
        } else {
            match expr_at(ts, q + 1) {
                Err(err) => Err(err),
                Ok((value, q2)) => if !moved(ts, q, q2) {
                    Err(ErrM::Stuck)
                } else {
                    match expect_at(ts, q2, TokenKind::Semicolon) {
                        Err(err) => Err(err),
                        Ok((_, q3)) => match assignment_m(target, value, span, err_span) {
                            Err(err) => Err(err),
                            Ok(st) => Ok((st, q3)),
                        },
                    }
                },
            }
        }
    }
}

/// A statement: `let`, `return`, `break`, an assignment, or an expression with `;`.
pub open spec fn stmt_at(ts: Seq<Token>, p: int) -> Parsed<StmtM>
    decreases ts.len() - p, 8nat,
{
    if !(0 <= p < ts.len()) {
        Err(ErrM::Stuck)
    } else {
        let span = ts[p].span;
        match ts[p].kind {
            TokenKind::Let => match ident_at(ts, p + 1) {
                Err(e) => Err(e),
                Ok((name, q)) => match expect_at(ts, q, TokenKind::Colon) {
                    Err(e) => Err(e),
                    Ok((_, q)) => match type_at(ts, q) {
                        Err(e) => Err(e),
                        Ok((ty, q)) => if !moved(ts, p, q) {
                            Err(ErrM::Stuck)
                        } else {
                            match expect_at(ts, q, TokenKind::Eq) {
                                Err(e) => Err(e),
                                Ok((_, q)) => match expr_at(ts, q) {
                                    Err(e) => Err(e),
                                    Ok((value, q2)) => if !moved(ts, p, q2) {
                                        Err(ErrM::Stuck)
                                    } else {
                                        match expect_at(ts, q2, TokenKind::Semicolon) {
                                            Err(e) => Err(e),
                                            Ok((_, q3)) => Ok(
                                                (
                                                    StmtM {
                                                        kind: StmtKindM::Let { name, ty, value },
                                                        span,
                                                    },
                                                    q3,
                                                ),
                                            ),
                                        }
                                    },
                                },
                            }
                        },
                    },
                },
            },
            TokenKind::Return => {
                let q = p + 1;
                if is_at(ts, q, TokenKind::Semicolon) {
                    Ok((StmtM { kind: StmtKindM::Return(None), span }, q + 1))
                } else {
                    match expr_at(ts, q) {
                        Err(e) => Err(e),
                        Ok((e, q2)) => if !moved(ts, p, q2) {
                            Err(ErrM::Stuck)
                        } else {
                            match expect_at(ts, q2, TokenKind::Semicolon) {
                                Err(err) => Err(err),
                                Ok((_, q3)) => Ok(
                                    (StmtM { kind: StmtKindM::Return(Some(e)), span }, q3),
                                ),
                            }
                        },
                    }
                }
            },
            TokenKind::Break => match expect_at(ts, p + 1, TokenKind::Semicolon) {
                Err(e) => Err(e),
                Ok((_, q)) => Ok((StmtM { kind: StmtKindM::Break, span }, q)),
            },
            _ => match expr_at(ts, p) {
                Err(e) => Err(e),
                Ok((e, q)) => if !moved(ts, p, q) {
                    Err(ErrM::Stuck)
                } else if is_at(ts, q, TokenKind::Eq) {
                    let err_span = ts[q].span;
                    match expr_at(ts, q + 1) {
                        Err(err) => Err(err),
                        Ok((value, q2)) => if !moved(ts, q, q2) {
                            Err(ErrM::Stuck)
                        } else {
                            match expect_at(ts, q2, TokenKind::Semicolon) {
                                Err(err) => Err(err),
                                Ok((_, q3)) => match assignment_m(e, value, span, err_span) {
                                    Err(err) => Err(err),
                                    Ok(st) => Ok((st, q3)),
                                },
                            }
                        },
                    }
                } else {
                    match expect_at(ts, q, TokenKind::Semicolon) {
                        Err(err) => Err(err),
                        Ok((_, q3)) => Ok((StmtM { kind: StmtKindM::Expr(e), span }, q3)),
                    }
                },
            },
        }
    }
}

/// `if cond { .. }`, with `else { .. }` or `else if ..` after it.
pub open spec fn if_at(ts: Seq<Token>, p: int) -> Parsed<ExprM>
    decreases ts.len() - p, 2nat,
{
    if !(0 <= p < ts.len()) {
        Err(ErrM::Stuck)
    } else {
        let span = ts[p].span;
        match expect_at(ts, p, TokenKind::If) {
            Err(e) => Err(e),
            Ok((_, q)) => match expr_at(ts, q) {
                Err(e) => Err(e),
                Ok((cond, q)) => if !moved(ts, p, q) {
                    Err(ErrM::Stuck)
                } else {
                    match block_at(ts, q) {
                        Err(e) => Err(e),
                        Ok((then_block, q)) => if !moved(ts, p, q) {
                            Err(ErrM::Stuck)
                        } else if is_at(ts, q, TokenKind::Else) {
                            let q1 = q + 1;
                            let else_part = if is_at(ts, q1, TokenKind::If) {
                                if_at(ts, q1)
                            } else {
                                block_at(ts, q1)
                            };
                            match else_part {
                                Err(e) => Err(e),
                                Ok((else_expr, q2)) => Ok(
                                    (
                                        ExprM {
                                            kind: ExprKindM::If {
                                                cond: Box::new(cond),
                                                then_block: Box::new(then_block),
                                                else_block: Some(Box::new(else_expr)),
                                            },
                                            span,
                                        },
                                        q2,
                                    ),
                                ),
                            }
                        } else {
                            Ok(
                                (
                                    ExprM {
                                        kind: ExprKindM::If {
                                            cond: Box::new(cond),
                                            then_block: Box::new(then_block),
                                            else_block: None,
                                        },
                                        span,
                                    },
                                    q,
                                ),
                            )
                        },
                    }
                },
            },
        }
    }
}

/// `match scrutinee { pattern => body, .. }`.
pub open spec fn match_at(ts: Seq<Token>, p: int) -> Parsed<ExprM>
    decreases ts.len() - p, 2nat,
{
    if !(0 <= p < ts.len()) {
        Err(ErrM::Stuck)
    } else {
        let span = ts[p].span;
        match expect_at(ts, p, TokenKind::Match) {
            Err(e) => Err(e),
            Ok((_, q)) => match expr_at(ts, q) {
                Err(e) => Err(e),
                Ok((scrutinee, q)) => if !moved(ts, p, q) {
                    Err(ErrM::Stuck)
                } else {
                    match expect_at(ts, q, TokenKind::LBrace) {
                        Err(e) => Err(e),
                        Ok((_, c)) => arms_rest(ts, span, scrutinee, seq![], c),
                    }
                },
            },
        }
    }
}

/// The arms of a `match` from `c` on, after those already read.
pub open spec fn arms_rest(
    ts: Seq<Token>,
    span: Span,
    scrutinee: ExprM,
    arms: Seq<ArmM>,
    c: int,
) -> Parsed<ExprM>
    decreases ts.len() - c, 4nat,
{
    if !(0 <= c < ts.len()) {
        Err(ErrM::Stuck)
    } else if is_at(ts, c, TokenKind::RBrace) {
        Ok(
            (
                ExprM { kind: ExprKindM::Match { scrutinee: Box::new(scrutinee), arms }, span },
                c + 1,
            ),
        )
    } else {
        match primary_at(ts, c) {
            Err(e) => Err(e),
            Ok((pattern, c1)) => if !moved(ts, c, c1) {
                Err(ErrM::Stuck)
            } else {
                match expect_at(ts, c1, TokenKind::FatArrow) {
                    Err(e) => Err(e),
                    Ok((_, c2)) => match expr_at(ts, c2) {
                        Err(e) => Err(e),
                        Ok((body, c3)) => if !moved(ts, c, c3) {
                            Err(ErrM::Stuck)
                        } else {
                            arms_rest(
                                ts,
                                span,
                                scrutinee,
                                arms.push(ArmM { pattern, body }),
                                skip_comma(ts, c3),
                            )
                        },
                    },
                }
            },
        }
    }
}

/// `name(args)` or `name` after `|>`: the piped value becomes the first argument.
pub open spec fn pipe_at(ts: Seq<Token>, piped: ExprM, p: int) -> Parsed<ExprM>
    decreases ts.len() - p, 1nat,
{
    if !(0 <= p < ts.len()) {
        Err(ErrM::Stuck)
    } else {
        match ident_at(ts, p) {
            Err(e) => Err(e),
            Ok((name, _)) => if is_at(ts, p + 1, TokenKind::LParen) && p + 2 < ts.len() {
                let c = p + 2;
                let args = if is_at(ts, c, TokenKind::RParen) {
                    Ok((seq![piped], c))
                } else {
                    list_from(ts, seq![piped], c)
                };
                match args {
                    Err(e) => Err(e),
                    Ok((args, c1)) => if !moved(ts, p, c1) {
                        Err(ErrM::Stuck)
                    } else {
                        match expect_at(ts, c1, TokenKind::RParen) {
                            Err(e) => Err(e),
                            Ok((_, c2)) => Ok((call_m(name, args, piped.span), c2)),
                        }
                    },
                }
            } else {
                Ok((call_m(name, seq![piped], piped.span), p + 1))
            },
        }
    }
}

/// `loop { .. }`.
pub open spec fn loop_at(ts: Seq<Token>, p: int) -> Parsed<ExprM>
    decreases ts.len() - p, 2nat,
{
    if !(0 <= p < ts.len()) {
        Err(ErrM::Stuck)
    } else {
        match expect_at(ts, p, TokenKind::Loop) {
            Err(e) => Err(e),
            Ok((_, q)) => match block_at(ts, q) {
                Err(e) => Err(e),
                Ok((body, q2)) => Ok(
                    (ExprM { kind: ExprKindM::Loop { body: Box::new(body) }, span: ts[p].span }, q2),
                ),
            },
        }
    }
}

// ---- top-level definitions ----

/// A top-level definition: `fn`, `let`, `enum` or `struct`.
pub open spec fn top_at(ts: Seq<Token>, p: int) -> Parsed<TopLevelM>
    decreases ts.len() - p, 11nat,
{
    if !(0 <= p < ts.len()) {
        Err(ErrM::Stuck)
    } else {
        match ts[p].kind {
            TokenKind::Fn => fn_def_at(ts, p),
            TokenKind::Let => let_def_at(ts, p),
            TokenKind::Enum => enum_def_at(ts, p),
            TokenKind::Struct => struct_def_at(ts, p),
            _ => Err(unexpected_at(ts, p, "'fn', 'let', 'enum', or 'struct'"@)),
        }
    }
}

/// `fn name(params) -> type { body }`.
pub open spec fn fn_def_at(ts: Seq<Token>, p: int) -> Parsed<TopLevelM>
    decreases ts.len() - p, 10nat,
{
    if !(0 <= p < ts.len()) {
        Err(ErrM::Stuck)
    } else {
        let span = ts[p].span;
        match expect_at(ts, p, TokenKind::Fn) {
            Err(e) => Err(e),
            Ok((_, q)) => match ident_at(ts, q) {
                Err(e) => Err(e),
                Ok((name, q)) => match expect_at(ts, q, TokenKind::LParen) {
                    Err(e) => Err(e),
                    Ok((_, q)) => match params_at(ts, q) {
                        Err(e) => Err(e),
                        Ok((params, q)) => if !moved(ts, p, q) {
                            Err(ErrM::Stuck)
                        } else {
                            match expect_at(ts, q, TokenKind::RParen) {
                                Err(e) => Err(e),
                                Ok((_, q)) => match expect_at(ts, q, TokenKind::Arrow) {
                                    Err(e) => Err(e),
                                    Ok((_, q)) => match type_at(ts, q) {
                                        Err(e) => Err(e),
                                        Ok((return_type, q)) => if !moved(ts, p, q) {
                                            Err(ErrM::Stuck)
                                        } else {
                                            match block_at(ts, q) {
                                                Err(e) => Err(e),
                                                Ok((body, q)) => Ok(
                                                    (
                                                        TopLevelM::FnDef {
                                                            name,
                                                            params,
                                                            return_type,
                                                            body,
                                                            span,
                                                        },
                                                        q,
                                                    ),
                                                ),
                                            }
                                        },
                                    },
                                },
                            }
                        },
                    },
                },
            },
        }
    }
}

/// The parameters of a function, up to (not including) `)`.
pub open spec fn params_at(ts: Seq<Token>, p: int) -> Parsed<Seq<TypedNameM>>
    decreases ts.len() - p, 10nat,
{
    if !(0 <= p < ts.len()) {
        Err(ErrM::Stuck)
    } else if is_at(ts, p, TokenKind::RParen) {
        Ok((seq![], p))
    } else {
        params_rest(ts, seq![], p)
    }
}

/// `name: type` pairs separated by commas, after those already read.
pub open spec fn params_rest(ts: Seq<Token>, acc: Seq<TypedNameM>, q: int) -> Parsed<
    Seq<TypedNameM>,
>
    decreases ts.len() - q, 9nat,
{
    if !(0 <= q < ts.len()) {
        Err(ErrM::Stuck)
    } else {
        match ident_at(ts, q) {
            Err(e) => Err(e),
            Ok((name, q1)) => match expect_at(ts, q1, TokenKind::Colon) {
                Err(e) => Err(e),
                Ok((_, q2)) => match type_at(ts, q2) {
                    Err(e) => Err(e),
                    Ok((ty, q3)) => if !moved(ts, q, q3) {
                        Err(ErrM::Stuck)
                    } else if is_at(ts, q3, TokenKind::Comma) {
                        params_rest(ts, acc.push(TypedNameM { name, ty }), q3 + 1)
                    } else {
                        Ok((acc.push(TypedNameM { name, ty }), q3))
                    },
                },
            },
        }
    }
}

/// `let [mut] name: type = value;` at the top level.
pub open spec fn let_def_at(ts: Seq<Token>, p: int) -> Parsed<TopLevelM>
    decreases ts.len() - p, 10nat,
{
    if !(0 <= p < ts.len()) {
        Err(ErrM::Stuck)
    } else {
        let span = ts[p].span;
        match expect_at(ts, p, TokenKind::Let) {
            Err(e) => Err(e),
            Ok((_, q)) => {
                let mutable = is_at(ts, q, TokenKind::Mut);
                let q = if mutable {
                    q + 1
                } else {
                    q
                };
                match ident_at(ts, q) {
                    Err(e) => Err(e),
                    Ok((name, q)) => match expect_at(ts, q, TokenKind::Colon) {
                        Err(e) => Err(e),
                        Ok((_, q)) => match type_at(ts, q) {
                            Err(e) => Err(e),
                            Ok((ty, q)) => if !moved(ts, p, q) {
                                Err(ErrM::Stuck)
                            } else {
                                match expect_at(ts, q, TokenKind::Eq) {
                                    Err(e) => Err(e),
                                    Ok((_, q)) => match expr_at(ts, q) {
                                        Err(e) => Err(e),
                                        Ok((value, q)) => if !moved(ts, p, q) {
                                            Err(ErrM::Stuck)
                                        } else {
                                            match expect_at(ts, q, TokenKind::Semicolon) {
                                                Err(e) => Err(e),
                                                Ok((_, q)) => Ok(
                                                    (
                                                        TopLevelM::LetDef {
                                                            name,
                                                            ty,
                                                            value,
                                                            mutable,
                                                            span,
                                                        },
                                                        q,
                                                    ),
                                                ),
                                            }
                                        },
                                    },
                                }
                            },
                        },
                    },
                }
            },
        }
    }
}

/// `enum Name { A, B, .. }`.
pub open spec fn enum_def_at(ts: Seq<Token>, p: int) -> Parsed<TopLevelM>
    decreases ts.len() - p, 10nat,
{
    if !(0 <= p < ts.len()) {
        Err(ErrM::Stuck)
    } else {
        let span = ts[p].span;
        match expect_at(ts, p, TokenKind::Enum) {
            Err(e) => Err(e),
            Ok((_, q)) => match ident_at(ts, q) {
                Err(e) => Err(e),
                Ok((name, q)) => match expect_at(ts, q, TokenKind::LBrace) {
                    Err(e) => Err(e),
                    Ok((_, q)) => match variants_rest(ts, seq![], q) {
                        Err(e) => Err(e),
                        Ok((variants, q)) => Ok((TopLevelM::EnumDef { name, variants, span }, q)),
                    },
                },
            },
        }
    }
}

/// The variants of an enum from `q` on, and the `}` that ends them.
pub open spec fn variants_rest(ts: Seq<Token>, acc: Seq<Seq<char>>, q: int) -> Parsed<
    Seq<Seq<char>>,
>
    decreases ts.len() - q,
{
    if !(0 <= q < ts.len()) {
        Err(ErrM::Stuck)
    } else if is_at(ts, q, TokenKind::RBrace) {
        Ok((acc, q + 1))
    } else {
        match ident_at(ts, q) {
            Err(e) => Err(e),
            Ok((v, _)) => if !moved(ts, q, skip_comma(ts, q + 1)) {
                Err(ErrM::Stuck)
            } else {
                variants_rest(ts, acc.push(v), skip_comma(ts, q + 1))
            },
        }
    }
}

/// `struct Name { field: type, .. }`.
pub open spec fn struct_def_at(ts: Seq<Token>, p: int) -> Parsed<TopLevelM>
    decreases ts.len() - p, 10nat,
{
    if !(0 <= p < ts.len()) {
        Err(ErrM::Stuck)
    } else {
        let span = ts[p].span;
        match expect_at(ts, p, TokenKind::Struct) {
            Err(e) => Err(e),
            Ok((_, q)) => match ident_at(ts, q) {
                Err(e) => Err(e),
                Ok((name, q)) => match expect_at(ts, q, TokenKind::LBrace) {
                    Err(e) => Err(e),
                    Ok((_, q)) => match fields_rest(ts, seq![], q) {
                        Err(e) => Err(e),
                        Ok((fields, q)) => Ok((TopLevelM::StructDef { name, fields, span }, q)),
                    },
                },
            },
        }
    }
}

/// The fields of a struct definition from `q` on, and the `}` that ends them.
pub open spec fn fields_rest(ts: Seq<Token>, acc: Seq<TypedNameM>, q: int) -> Parsed<
    Seq<TypedNameM>,
>
    decreases ts.len() - q,
{
    if !(0 <= q < ts.len()) {
        Err(ErrM::Stuck)
    } else if is_at(ts, q, TokenKind::RBrace) {
        Ok((acc, q + 1))
    } else {
        match ident_at(ts, q) {
            Err(e) => Err(e),
            Ok((name, q1)) => match expect_at(ts, q1, TokenKind::Colon) {
                Err(e) => Err(e),
                Ok((_, q2)) => match type_at(ts, q2) {
                    Err(e) => Err(e),
                    Ok((ty, q3)) => if !moved(ts, q, q3) {
                        Err(ErrM::Stuck)
                    } else {
                        fields_rest(ts, acc.push(TypedNameM { name, ty }), skip_comma(ts, q3))
                    },
                },
            },
        }
    }
}

/// The definitions of a program from `p` up to `Eof`, after those already read; the
/// position is that of `Eof`.
pub open spec fn program_from(ts: Seq<Token>, acc: Seq<TopLevelM>, p: int) -> Parsed<
    Seq<TopLevelM>,
>
    decreases ts.len() - p,
{
    if !(0 <= p < ts.len()) {
        Err(ErrM::Stuck)
    } else if ts[p].kind is Eof {
        Ok((acc, p))
    } else {
        match top_at(ts, p) {
            Err(e) => Err(e),
            Ok((t, q)) => if !moved(ts, p, q) {
                Err(ErrM::Stuck)
            } else {
                program_from(ts, acc.push(t), q)
            },
        }
    }
}

// ---- laws of operator precedence ----

/// Whether two binary operators are on one precedence level: `||`; `&&`; `==` and `!=`;
/// `<`, `>`, `<=` and `>=`; `+` and `-`; `*`, `/` and `%`.
pub open spec fn same_level(a: BinOp, b: BinOp) -> bool {
    ||| a is Or && b is Or
    ||| a is And && b is And
    ||| (a is Eq || a is NotEq) && (b is Eq || b is NotEq)
    ||| (a is Lt || a is Gt || a is LtEq || a is GtEq) && (b is Lt || b is Gt || b is LtEq || b is GtEq)
    ||| (a is Add || a is Sub) && (b is Add || b is Sub)
    ||| (a is Mul || a is Div || a is Mod) && (b is Mul || b is Div || b is Mod)
}

/// A token that ends an expression: `;`, `}`, `)`, `,` or the end.
pub open spec fn ends_expr(k: TokenKind) -> bool {
    k is Semicolon || k is RBrace || k is RParen || k is Comma || k is Eof
}

/// The integer literal read from the token at `p`.
pub open spec fn lit_m(ts: Seq<Token>, p: int) -> ExprM {
    ExprM { kind: ExprKindM::IntLiteral(ts[p].kind->IntLiteral_0), span: ts[p].span }
}

/// `x op y` with the span of `x`.
pub open spec fn bin_m(op: BinOp, x: ExprM, y: ExprM) -> ExprM {
    ExprM { kind: ExprKindM::BinaryOp { op, lhs: Box::new(x), rhs: Box::new(y) }, span: x.span }
}

/// An integer literal at `p`, read as an operand that nothing follows but `q`.
proof fn lemma_literal_operand(ts: Seq<Token>, p: int, min_bp: u8)
    requires
        0 <= p,
        p + 1 < ts.len(),
        ts[p].kind is IntLiteral,
        !(ts[p + 1].kind is LBracket) && !(ts[p + 1].kind is Dot),
    ensures
        unary_at(ts, p) == Ok::<(ExprM, int), ErrM>((lit_m(ts, p), p + 1)),
{
    assert(primary_at(ts, p) == Ok::<(ExprM, int), ErrM>((lit_m(ts, p), p + 1)));
    assert(!is_at(ts, p + 1, TokenKind::LBracket));
    assert(!is_at(ts, p + 1, TokenKind::Dot));
    assert(postfix_rest(ts, lit_m(ts, p), p + 1) == Ok::<(ExprM, int), ErrM>((lit_m(ts, p), p + 1)));
    assert(postfix_at(ts, p) == Ok::<(ExprM, int), ErrM>((lit_m(ts, p), p + 1)));
}

/// Operators of one precedence level group to the left: `x op1 y op2 z`, with integer
/// literals `x`, `y`, `z` and then the end of the expression, reads as `(x op1 y) op2 z`;
/// so `10 - 3 + 2` is `(10 - 3) + 2` and `a + b - c` is `(a + b) - c`.
pub proof fn law_same_level_groups_left(ts: Seq<Token>, p: int, o1: BinOp, o2: BinOp)
    requires
        0 <= p,
        p + 5 < ts.len(),
        ts[p].kind is IntLiteral,
        ts[p + 2].kind is IntLiteral,
        ts[p + 4].kind is IntLiteral,
        spec_binop_of(ts[p + 1].kind) == Some(o1),
        spec_binop_of(ts[p + 3].kind) == Some(o2),
        ends_expr(ts[p + 5].kind),
        same_level(o1, o2),
    ensures
        expr_at(ts, p) == Ok::<(ExprM, int), ErrM>(
            (bin_m(o2, bin_m(o1, lit_m(ts, p), lit_m(ts, p + 2)), lit_m(ts, p + 4)), p + 5),
        ),
{
    let (x, y, z) = (lit_m(ts, p), lit_m(ts, p + 2), lit_m(ts, p + 4));
    let b1 = binding_power(o1);
    let b2 = binding_power(o2);
    assert(b2.0 < b1.1 && 0 < b1.1 && 0 < b2.1);
    lemma_literal_operand(ts, p, 0);
    lemma_literal_operand(ts, p + 2, 0);
    lemma_literal_operand(ts, p + 4, 0);
    assert(!is_at(ts, p + 1, TokenKind::Pipe));
    assert(!is_at(ts, p + 3, TokenKind::Pipe));
    assert(!is_at(ts, p + 5, TokenKind::Pipe));
    assert(spec_binop_of(ts[p + 5].kind) is None);
    // z, then the end
    assert(bp_rest(ts, b2.1, z, p + 5) == Ok::<(ExprM, int), ErrM>((z, p + 5)));
    assert(bp_at(ts, p + 4, b2.1) == Ok::<(ExprM, int), ErrM>((z, p + 5)));
    // y stops before op2, which binds no tighter than op1
    assert(bp_rest(ts, b1.1, y, p + 3) == Ok::<(ExprM, int), ErrM>((y, p + 3)));
    assert(bp_at(ts, p + 2, b1.1) == Ok::<(ExprM, int), ErrM>((y, p + 3)));
    let xy = bin_m(o1, x, y);
    let xyz = bin_m(o2, xy, z);
    assert(bp_rest(ts, 0, xyz, p + 5) == Ok::<(ExprM, int), ErrM>((xyz, p + 5)));
    assert(bp_rest(ts, 0, xy, p + 3) == Ok::<(ExprM, int), ErrM>((xyz, p + 5)));
    assert(bp_rest(ts, 0, x, p + 1) == Ok::<(ExprM, int), ErrM>((xyz, p + 5)));
    assert(bp_at(ts, p, 0) == Ok::<(ExprM, int), ErrM>((xyz, p + 5)));
}

/// The precedence level of a binary operator, loosest first: `||`, `&&`, `==` `!=`,
/// `<` `>` `<=` `>=`, `+` `-`, `*` `/` `%`.
pub open spec fn level(op: BinOp) -> int {
    match op {
        BinOp::Or => 0,
        BinOp::And => 1,
        BinOp::Eq | BinOp::NotEq => 2,
        BinOp::Lt | BinOp::Gt | BinOp::LtEq | BinOp::GtEq => 3,
        BinOp::Add | BinOp::Sub => 4,
        BinOp::Mul | BinOp::Div | BinOp::Mod => 5,
    }
}

/// A tighter operator groups first: `x op1 y op2 z`, with integer literals and then the
/// end of the expression, reads as `x op1 (y op2 z)` when `op2` is on a higher level than
/// `op1` (so `1 + 2 * 3` is `1 + (2 * 3)`), and as `(x op1 y) op2 z` when it is on a lower
/// one (so `1 * 2 + 3` is `(1 * 2) + 3`).
pub proof fn law_tighter_groups_first(ts: Seq<Token>, p: int, o1: BinOp, o2: BinOp)
    requires
        0 <= p,
        p + 5 < ts.len(),
        ts[p].kind is IntLiteral,
        ts[p + 2].kind is IntLiteral,
        ts[p + 4].kind is IntLiteral,
        spec_binop_of(ts[p + 1].kind) == Some(o1),
        spec_binop_of(ts[p + 3].kind) == Some(o2),
        ends_expr(ts[p + 5].kind),
    ensures
        level(o1) < level(o2) ==> expr_at(ts, p) == Ok::<(ExprM, int), ErrM>(
            (bin_m(o1, lit_m(ts, p), bin_m(o2, lit_m(ts, p + 2), lit_m(ts, p + 4))), p + 5),
        ),
        level(o1) > level(o2) ==> expr_at(ts, p) == Ok::<(ExprM, int), ErrM>(
            (bin_m(o2, bin_m(o1, lit_m(ts, p), lit_m(ts, p + 2)), lit_m(ts, p + 4)), p + 5),
        ),
{
    let (x, y, z) = (lit_m(ts, p), lit_m(ts, p + 2), lit_m(ts, p + 4));
    let b1 = binding_power(o1);
    let b2 = binding_power(o2);
    assert(0 < b1.1 && 0 < b2.1);
    lemma_literal_operand(ts, p, 0);
    lemma_literal_operand(ts, p + 2, 0);
    lemma_literal_operand(ts, p + 4, 0);
    assert(!is_at(ts, p + 1, TokenKind::Pipe));
    assert(!is_at(ts, p + 3, TokenKind::Pipe));
    assert(!is_at(ts, p + 5, TokenKind::Pipe));
    assert(spec_binop_of(ts[p + 5].kind) is None);
    assert(bp_rest(ts, b2.1, z, p + 5) == Ok::<(ExprM, int), ErrM>((z, p + 5)));
    assert(bp_at(ts, p + 4, b2.1) == Ok::<(ExprM, int), ErrM>((z, p + 5)));
    if level(o1) < level(o2) {
        assert(b2.0 >= b1.1);
        let yz = bin_m(o2, y, z);
        assert(bp_rest(ts, b1.1, yz, p + 5) == Ok::<(ExprM, int), ErrM>((yz, p + 5)));
        assert(bp_rest(ts, b1.1, y, p + 3) == Ok::<(ExprM, int), ErrM>((yz, p + 5)));
        assert(bp_at(ts, p + 2, b1.1) == Ok::<(ExprM, int), ErrM>((yz, p + 5)));
        let xyz = bin_m(o1, x, yz);
        assert(bp_rest(ts, 0, xyz, p + 5) == Ok::<(ExprM, int), ErrM>((xyz, p + 5)));
        assert(bp_rest(ts, 0, x, p + 1) == Ok::<(ExprM, int), ErrM>((xyz, p + 5)));
        assert(bp_at(ts, p, 0) == Ok::<(ExprM, int), ErrM>((xyz, p + 5)));
    } else if level(o1) > level(o2) {
        assert(b2.0 < b1.1);
        assert(bp_rest(ts, b1.1, y, p + 3) == Ok::<(ExprM, int), ErrM>((y, p + 3)));
        assert(bp_at(ts, p + 2, b1.1) == Ok::<(ExprM, int), ErrM>((y, p + 3)));
        let xy = bin_m(o1, x, y);
        let xyz = bin_m(o2, xy, z);
        assert(bp_rest(ts, 0, xyz, p + 5) == Ok::<(ExprM, int), ErrM>((xyz, p + 5)));
        assert(bp_rest(ts, 0, xy, p + 3) == Ok::<(ExprM, int), ErrM>((xyz, p + 5)));
        assert(bp_rest(ts, 0, x, p + 1) == Ok::<(ExprM, int), ErrM>((xyz, p + 5)));
        assert(bp_at(ts, p, 0) == Ok::<(ExprM, int), ErrM>((xyz, p + 5)));
    }
}

} // verus!

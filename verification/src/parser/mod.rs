pub mod ast;
pub mod grammar;

use vstd::prelude::*;

use crate::lexer::{located, push_location};
use crate::lexer::token::{clone_kind, same_kind, KindModel, Span, Token, TokenKind};
use crate::text::{decimal, push_decimal, push_str, push_string, text_is};
use ast::{
    BinOp, BuiltinFunction, Expr, ExprKind, MatchArm, Param, Program, Stmt, StmtKind,
    StructField, TopLevel, Type, TypeModel, UnaryOp,
};
use grammar::{
    arms_rest, assignable, assignment_m, block_at, block_rest, call_m, err_v, expect_at, expr_at,
    expr_v, exprs_v, fn_def_at, ident_at, if_at, int_at, is_at, let_def_at, list_from, loop_at,
    match_at, params_at, params_rest, params_v, pipe_at, postfix_at, postfix_rest,
    primary_at, program_from, stmt_at, stmt_v, top_at, top_v, tops_v, type_at, unary_at,
    unexpected_at, args_at, bp_at, bp_rest, enum_def_at, fields_rest, struct_def_at,
    struct_lit_at, struct_lit_rest, variants_rest, names_v, struct_fields_v, arms_v, stmts_v,
    inits_v, ExprM, ExprKindM, StmtM, TypedNameM, TopLevelM, Parsed, lemma_exprs_v_push, lemma_inits_v_push, lemma_arms_v_push,
    lemma_stmts_v_push, lemma_params_v_push, lemma_struct_fields_v_push, lemma_names_v_push,
    lemma_tops_v_push, starts_struct_literal, assign_at,
};

verus! {

/// The kind of a syntax error.
#[derive(Debug, Clone, PartialEq, Eq)]
pub enum ParseErrorKind {
    /// A token other than the expected one.
    UnexpectedToken { expected: String, found: TokenKind },
    /// An identifier that names no type.
    UnknownType(String),
    /// The left side of `=` is not a variable or an indexed variable.
    InvalidAssignmentTarget,
}

/// A syntax error.
#[derive(Debug, Clone, PartialEq, Eq)]
pub struct ParseError {
    pub kind: ParseErrorKind,
    pub span: Span,
}

/// The name of a token kind without payload, as `{:?}` writes it.
pub open spec fn kind_name(k: TokenKind) -> Seq<char> {
    match k {
        TokenKind::Let => "Let"@,
        TokenKind::Fn => "Fn"@,
        TokenKind::If => "If"@,
        TokenKind::Else => "Else"@,
        TokenKind::Loop => "Loop"@,
        TokenKind::Break => "Break"@,
        TokenKind::Return => "Return"@,
        TokenKind::True => "True"@,
        TokenKind::False => "False"@,
        TokenKind::Match => "Match"@,
        TokenKind::Enum => "Enum"@,
        TokenKind::Struct => "Struct"@,
        TokenKind::Mut => "Mut"@,
        TokenKind::IntLiteral(_) => "IntLiteral"@,
        TokenKind::Ident(_) => "Ident"@,
        TokenKind::Plus => "Plus"@,
        TokenKind::Minus => "Minus"@,
        TokenKind::Star => "Star"@,
        TokenKind::Slash => "Slash"@,
        TokenKind::Percent => "Percent"@,
        TokenKind::EqEq => "EqEq"@,
        TokenKind::NotEq => "NotEq"@,
        TokenKind::Lt => "Lt"@,
        TokenKind::Gt => "Gt"@,
        TokenKind::LtEq => "LtEq"@,
        TokenKind::GtEq => "GtEq"@,
        TokenKind::AndAnd => "AndAnd"@,
        TokenKind::OrOr => "OrOr"@,
        TokenKind::Bang => "Bang"@,
        TokenKind::Eq => "Eq"@,
        TokenKind::LParen => "LParen"@,
        TokenKind::RParen => "RParen"@,
        TokenKind::LBrace => "LBrace"@,
        TokenKind::RBrace => "RBrace"@,
        TokenKind::LBracket => "LBracket"@,
        TokenKind::RBracket => "RBracket"@,
        TokenKind::Comma => "Comma"@,
        TokenKind::Semicolon => "Semicolon"@,
        TokenKind::Colon => "Colon"@,
        TokenKind::Arrow => "Arrow"@,
        TokenKind::FatArrow => "FatArrow"@,
        TokenKind::ColonColon => "ColonColon"@,
        TokenKind::Pipe => "Pipe"@,
        TokenKind::Dot => "Dot"@,
        TokenKind::DotDot => "DotDot"@,
        TokenKind::Eof => "Eof"@,
    }
}

/// A token kind as `{:?}` writes it: `Ident("x")`, `IntLiteral(42)`, `Semicolon`.
pub open spec fn kind_text(k: KindModel) -> Seq<char> {
    match k {
        KindModel::Ident(w) => "Ident(\""@ + w + "\")"@,
        KindModel::Other(TokenKind::IntLiteral(v)) => "IntLiteral("@ + decimal(v as nat) + ")"@,
        KindModel::Other(t) => kind_name(t),
    }
}

/// Appends the name of a payload-free token kind.
fn push_kind_name(s: &mut String, k: &TokenKind)
    ensures
        final(s)@ == old(s)@ + kind_name(*k),
{
    let t: &str = match k {
        TokenKind::Let => "Let",
        TokenKind::Fn => "Fn",
        TokenKind::If => "If",
        TokenKind::Else => "Else",
        TokenKind::Loop => "Loop",
        TokenKind::Break => "Break",
        TokenKind::Return => "Return",
        TokenKind::True => "True",
        TokenKind::False => "False",
        TokenKind::Match => "Match",
        TokenKind::Enum => "Enum",
        TokenKind::Struct => "Struct",
        TokenKind::Mut => "Mut",
        TokenKind::IntLiteral(_) => "IntLiteral",
        TokenKind::Ident(_) => "Ident",
        TokenKind::Plus => "Plus",
        TokenKind::Minus => "Minus",
        TokenKind::Star => "Star",
        TokenKind::Slash => "Slash",
        TokenKind::Percent => "Percent",
        TokenKind::EqEq => "EqEq",
        TokenKind::NotEq => "NotEq",
        TokenKind::Lt => "Lt",
        TokenKind::Gt => "Gt",
        TokenKind::LtEq => "LtEq",
        TokenKind::GtEq => "GtEq",
        TokenKind::AndAnd => "AndAnd",
        TokenKind::OrOr => "OrOr",
        TokenKind::Bang => "Bang",
        TokenKind::Eq => "Eq",
        TokenKind::LParen => "LParen",
        TokenKind::RParen => "RParen",
        TokenKind::LBrace => "LBrace",
        TokenKind::RBrace => "RBrace",
        TokenKind::LBracket => "LBracket",
        TokenKind::RBracket => "RBracket",
        TokenKind::Comma => "Comma",
        TokenKind::Semicolon => "Semicolon",
        TokenKind::Colon => "Colon",
        TokenKind::Arrow => "Arrow",
        TokenKind::FatArrow => "FatArrow",
        TokenKind::ColonColon => "ColonColon",
        TokenKind::Pipe => "Pipe",
        TokenKind::Dot => "Dot",
        TokenKind::DotDot => "DotDot",
        TokenKind::Eof => "Eof",
    };
    push_str(s, t);
}

/// Appends a token kind as `{:?}` writes it.
pub fn push_kind_text(s: &mut String, k: &TokenKind)
    ensures
        final(s)@ == old(s)@ + kind_text(k@),
{
    match k {
        TokenKind::Ident(w) => {
            push_str(s, "Ident(\"");
            push_string(s, w);
            push_str(s, "\")");
            proof {
                assert(final(s)@ =~= old(s)@ + kind_text(k@));
            }
        },
        TokenKind::IntLiteral(v) => {
            push_str(s, "IntLiteral(");
            push_decimal(s, *v);
            push_str(s, ")");
            proof {
                assert(final(s)@ =~= old(s)@ + kind_text(k@));
            }
        },
        _ => {
            push_kind_name(s, k);
        },
    }
}

/// The message of a syntax error kind.
pub open spec fn parse_error_text(k: ParseErrorKind) -> Seq<char> {
    match k {
        ParseErrorKind::UnexpectedToken { expected, found } => "expected "@ + expected@
            + ", found "@ + kind_text(found@),
        ParseErrorKind::UnknownType(name) => "unknown type: "@ + name@,
        ParseErrorKind::InvalidAssignmentTarget => "invalid assignment target"@,
    }
}

impl ParseError {
    /// The error message, without the location.
    pub fn message(&self) -> (r: String)
        ensures
            r@ == parse_error_text(self.kind),
    {
        let mut s = String::new();
        match &self.kind {
            ParseErrorKind::UnexpectedToken { expected, found } => {
                push_str(&mut s, "expected ");
                push_string(&mut s, expected);
                push_str(&mut s, ", found ");
                push_kind_text(&mut s, found);
            },
            ParseErrorKind::UnknownType(name) => {
                push_str(&mut s, "unknown type: ");
                push_string(&mut s, name);
            },
            ParseErrorKind::InvalidAssignmentTarget => {
                push_str(&mut s, "invalid assignment target");
            },
        }
        proof {
            assert(s@ =~= parse_error_text(self.kind));
        }
        s
    }

    /// The error as it is displayed: `line:column: message`.
    pub fn located_message(&self) -> (r: String)
        ensures
            r@ == located(self.span, parse_error_text(self.kind)),
    {
        let mut s = String::new();
        push_location(&mut s, self.span);
        let m = self.message();
        push_string(&mut s, &m);
        proof {
            assert(s@ =~= located(self.span, parse_error_text(self.kind)));
        }
        s
    }
}

/// The text of a token kind, as `{:?}` writes it.
fn kind_string(k: &TokenKind) -> (r: String)
    ensures
        r@ == kind_text(k@),
{
    let mut s = String::new();
    push_kind_text(&mut s, k);
    proof {
        assert(s@ =~= kind_text(k@));
    }
    s
}

/// A string with the characters of a literal.
fn string_of(t: &str) -> (r: String)
    ensures
        r@ == t@,
{
    let mut s = String::new();
    push_str(&mut s, t);
    proof {
        assert(s@ =~= t@);
    }
    s
}

/// The binary operator that a token stands for.
pub open spec fn spec_binop_of(k: TokenKind) -> Option<BinOp> {
    match k {
        TokenKind::Plus => Some(BinOp::Add),
        TokenKind::Minus => Some(BinOp::Sub),
        TokenKind::Star => Some(BinOp::Mul),
        TokenKind::Slash => Some(BinOp::Div),
        TokenKind::Percent => Some(BinOp::Mod),
        TokenKind::EqEq => Some(BinOp::Eq),
        TokenKind::NotEq => Some(BinOp::NotEq),
        TokenKind::Lt => Some(BinOp::Lt),
        TokenKind::Gt => Some(BinOp::Gt),
        TokenKind::LtEq => Some(BinOp::LtEq),
        TokenKind::GtEq => Some(BinOp::GtEq),
        TokenKind::AndAnd => Some(BinOp::And),
        TokenKind::OrOr => Some(BinOp::Or),
        _ => None,
    }
}

fn binop_of(k: &TokenKind) -> (r: Option<BinOp>)
    ensures
        r == spec_binop_of(*k),
{
    match k {
        TokenKind::Plus => Some(BinOp::Add),
        TokenKind::Minus => Some(BinOp::Sub),
        TokenKind::Star => Some(BinOp::Mul),
        TokenKind::Slash => Some(BinOp::Div),
        TokenKind::Percent => Some(BinOp::Mod),
        TokenKind::EqEq => Some(BinOp::Eq),
        TokenKind::NotEq => Some(BinOp::NotEq),
        TokenKind::Lt => Some(BinOp::Lt),
        TokenKind::Gt => Some(BinOp::Gt),
        TokenKind::LtEq => Some(BinOp::LtEq),
        TokenKind::GtEq => Some(BinOp::GtEq),
        TokenKind::AndAnd => Some(BinOp::And),
        TokenKind::OrOr => Some(BinOp::Or),
        _ => None,
    }
}

/// The binding power of a binary operator: (left, right).
/// Higher binds tighter; every operator is left-associative.
pub open spec fn binding_power(op: BinOp) -> (u8, u8) {
    match op {
        BinOp::Or => (1, 2),
        BinOp::And => (3, 4),
        BinOp::Eq | BinOp::NotEq => (5, 6),
        BinOp::Lt | BinOp::Gt | BinOp::LtEq | BinOp::GtEq => (7, 8),
        BinOp::Add | BinOp::Sub => (9, 10),
        BinOp::Mul | BinOp::Div | BinOp::Mod => (11, 12),
    }
}

fn infix_binding_power(op: BinOp) -> (r: (u8, u8))
    ensures
        r == binding_power(op),
        r.0 < r.1,
{
    match op {
        BinOp::Or => (1, 2),
        BinOp::And => (3, 4),
        BinOp::Eq | BinOp::NotEq => (5, 6),
        BinOp::Lt | BinOp::Gt | BinOp::LtEq | BinOp::GtEq => (7, 8),
        BinOp::Add | BinOp::Sub => (9, 10),
        BinOp::Mul | BinOp::Div | BinOp::Mod => (11, 12),
    }
}

/// Whether a token sequence can be parsed: it is not empty and ends with `Eof`.
pub open spec fn ends_with_eof(tokens: Seq<Token>) -> bool {
    tokens.len() > 0 && tokens.last().kind is Eof
}

/// A recursive-descent parser (Pratt parsing for binary operators).
pub struct Parser {
    tokens: Vec<Token>,
    pos: usize,
}

/// The result of a parsing step: the value and the position after it.
type Step<T> = Result<(T, usize), ParseError>;

/// A step's result as the grammar describes it.
pub open spec fn span_step(r: Result<(Span, usize), ParseError>) -> Parsed<Span> {
    match r {
        Ok((v, q)) => Ok((v, q as int)),
        Err(e) => Err(err_v(e)),
    }
}

pub open spec fn name_step(r: Result<(String, usize), ParseError>) -> Parsed<Seq<char>> {
    match r {
        Ok((v, q)) => Ok((v@, q as int)),
        Err(e) => Err(err_v(e)),
    }
}

pub open spec fn int_step(r: Result<(u64, usize), ParseError>) -> Parsed<u64> {
    match r {
        Ok((v, q)) => Ok((v, q as int)),
        Err(e) => Err(err_v(e)),
    }
}

pub open spec fn type_step(r: Result<(Type, usize), ParseError>) -> Parsed<TypeModel> {
    match r {
        Ok((v, q)) => Ok((v@, q as int)),
        Err(e) => Err(err_v(e)),
    }
}

pub open spec fn expr_step(r: Result<(Expr, usize), ParseError>) -> Parsed<ExprM> {
    match r {
        Ok((v, q)) => Ok((expr_v(v), q as int)),
        Err(e) => Err(err_v(e)),
    }
}

pub open spec fn exprs_step(r: Result<(Vec<Expr>, usize), ParseError>) -> Parsed<Seq<ExprM>> {
    match r {
        Ok((v, q)) => Ok((exprs_v(v@), q as int)),
        Err(e) => Err(err_v(e)),
    }
}

pub open spec fn stmt_step(r: Result<(Stmt, usize), ParseError>) -> Parsed<StmtM> {
    match r {
        Ok((v, q)) => Ok((stmt_v(v), q as int)),
        Err(e) => Err(err_v(e)),
    }
}

pub open spec fn params_step(r: Result<(Vec<Param>, usize), ParseError>) -> Parsed<
    Seq<TypedNameM>,
> {
    match r {
        Ok((v, q)) => Ok((params_v(v@), q as int)),
        Err(e) => Err(err_v(e)),
    }
}

/// `p + 1` past a token of kind `k` at `p`, else `p`.
pub open spec fn skip_comma_or(ts: Seq<Token>, p: int, k: TokenKind) -> int {
    if is_at(ts, p, k) {
        p + 1
    } else {
        p
    }
}

/// An optional boxed expression as the grammar sees it.
pub open spec fn opt_v(b: Option<Box<Expr>>) -> Option<Box<ExprM>> {
    match b {
        Some(e) => Some(Box::new(expr_v(*e))),
        None => None,
    }
}

/// A whole program's parse as the grammar describes it, with the position reached.
pub open spec fn program_step(r: Result<Program, ParseError>, pos: nat) -> Parsed<
    Seq<TopLevelM>,
> {
    match r {
        Ok(prog) => Ok((tops_v(prog.top_levels@), pos as int)),
        Err(e) => Err(err_v(e)),
    }
}

pub open spec fn top_step(r: Result<(TopLevel, usize), ParseError>) -> Parsed<TopLevelM> {
    match r {
        Ok((v, q)) => Ok((top_v(v), q as int)),
        Err(e) => Err(err_v(e)),
    }
}

impl Parser {
    /// The tokens being parsed.
    pub closed spec fn tokens(self) -> Seq<Token> {
        self.tokens@
    }

    /// The index of the next token.
    pub closed spec fn position(self) -> nat {
        self.pos as nat
    }

    /// The token sequence ends with `Eof` and the cursor is on a token.
    pub closed spec fn wf(self) -> bool {
        ends_with_eof(self.tokens@) && self.pos < self.tokens.len()
    }

    spec fn ok(self) -> bool {
        ends_with_eof(self.tokens@)
    }

    /// A step from `p` that, when it succeeds, consumed at least one token.
    spec fn advanced<T>(self, p: usize, r: Step<T>) -> bool {
        r matches Ok((_, q)) ==> p < q < self.tokens.len()
    }

    pub fn new(tokens: Vec<Token>) -> (r: Self)
        requires
            ends_with_eof(tokens@),
        ensures
            r.wf(),
            r.tokens() == tokens@,
            r.position() == 0,
    {
        Self { tokens, pos: 0 }
    }

    /// Parses a whole program: top-level definitions up to `Eof`.
    pub fn parse_program(&mut self) -> (r: Result<Program, ParseError>)
        requires
            old(self).wf(),
        ensures
            final(self).wf(),
            final(self).tokens() == old(self).tokens(),
            old(self).position() <= final(self).position(),
            final(self).position() < final(self).tokens().len(),
            r is Ok ==> final(self).tokens()[final(self).position() as int].kind is Eof,
            r matches Ok(prog) ==> (prog.top_levels@.len() == 0 <==> old(self).tokens()[old(
                self,
            ).position() as int].kind is Eof),
            program_step(r, final(self).position()) == program_from(
                old(self).tokens(),
                seq![],
                old(self).position() as int,
            ),
    {
        let mut top_levels: Vec<TopLevel> = Vec::new();
        let ghost start = self.pos;
        proof {
            assert(tops_v(top_levels@) == Seq::<TopLevelM>::empty());
        }
        while !matches!(self.tokens[self.pos].kind, TokenKind::Eof)
            invariant
                self.wf(),
                self.tokens@ == old(self).tokens@,
                start == old(self).pos,
                start <= self.pos,
                top_levels@.len() == 0 <==> self.pos == start,
                self.pos != start ==> !(self.tokens@[start as int].kind is Eof),
                program_from(self.tokens@, seq![], start as int) == program_from(
                    self.tokens@,
                    tops_v(top_levels@),
                    self.pos as int,
                ),
            decreases self.tokens.len() - self.pos,
        {
            let (top, q) = self.parse_top_level(self.pos)?;
            proof {
                lemma_tops_v_push(top_levels@, top);
            }
            top_levels.push(top);
            self.pos = q;
        }
        Ok(Program { top_levels })
    }

    // ---- utilities ----

    fn span_at(&self, p: usize) -> (r: Span)
        requires
            p < self.tokens.len(),
        ensures
            r == self.tokens@[p as int].span,
    {
        self.tokens[p].span
    }

    fn at(&self, p: usize, k: &TokenKind) -> (r: bool)
        requires
            p < self.tokens.len(),
        ensures
            r == (self.tokens@[p as int].kind@ == k@),
    {
        same_kind(&self.tokens[p].kind, k)
    }

    /// The kind `offset` tokens ahead, or `Eof` past the end.
    fn kind_ahead(&self, p: usize, offset: usize) -> (r: &TokenKind)
        requires
            p < self.tokens.len(),
            offset <= 2,
        ensures
            *r == (if p + offset < self.tokens@.len() {
                self.tokens@[p + offset].kind
            } else {
                self.tokens@[self.tokens@.len() - 1].kind
            }),
    {
        if offset < self.tokens.len() - p {
            &self.tokens[p + offset].kind
        } else {
            &self.tokens[self.tokens.len() - 1].kind
        }
    }

    /// An `UnexpectedToken` error at `p`.
    fn unexpected(&self, p: usize, expected: &str) -> (r: ParseError)
        requires
            p < self.tokens.len(),
        ensures
            r.span == self.tokens@[p as int].span,
            err_v(r) == unexpected_at(self.tokens@, p as int, expected@),
    {
        ParseError {
            kind: ParseErrorKind::UnexpectedToken {
                expected: string_of(expected),
                found: clone_kind(&self.tokens[p].kind),
            },
            span: self.tokens[p].span,
        }
    }

    /// Consumes the token at `p`, which must be `expected` (not `Eof`).
    fn expect(&self, p: usize, expected: &TokenKind) -> (r: Step<Span>)
        requires
            self.ok(),
            p < self.tokens.len(),
            !(expected is Eof),
        ensures
            self.advanced(p, r),
            r matches Ok((_, q)) ==> q == p + 1,
            span_step(r) == expect_at(self.tokens@, p as int, *expected),
    {
        let span = self.tokens[p].span;
        if self.at(p, expected) {
            Ok((span, p + 1))
        } else {
            let text = kind_string(expected);
            Err(
                ParseError {
                    kind: ParseErrorKind::UnexpectedToken {
                        expected: text,
                        found: clone_kind(&self.tokens[p].kind),
                    },
                    span,
                },
            )
        }
    }

    fn expect_ident(&self, p: usize) -> (r: Step<String>)
        requires
            self.ok(),
            p < self.tokens.len(),
        ensures
            self.advanced(p, r),
            r matches Ok((_, q)) ==> q == p + 1,
            name_step(r) == ident_at(self.tokens@, p as int),
    {
        match &self.tokens[p].kind {
            TokenKind::Ident(name) => Ok((name.clone(), p + 1)),
            _ => Err(self.unexpected(p, "identifier")),
        }
    }

    fn is_kind(&self, p: usize, k: TokenKind) -> (r: bool)
        requires
            p < self.tokens.len(),
        ensures
            r == (self.tokens@[p as int].kind@ == k@),
    {
        self.at(p, &k)
    }

    /// Skips one token of kind `k` at `p` if it is there.
    fn skip_if(&self, p: usize, k: TokenKind) -> (r: usize)
        requires
            self.ok(),
            p < self.tokens.len(),
            !(k is Eof),
        ensures
            p <= r <= p + 1,
            r < self.tokens.len(),
            r as int == skip_comma_or(self.tokens@, p as int, k),
    {
        if self.at(p, &k) {
            p + 1
        } else {
            p
        }
    }

    // ---- top level ----

    fn parse_top_level(&self, p: usize) -> (r: Step<TopLevel>)
        requires
            self.ok(),
            p < self.tokens.len(),
        ensures
            self.advanced(p, r),
            top_step(r) == top_at(self.tokens@, p as int),
    {
        match &self.tokens[p].kind {
            TokenKind::Fn => self.parse_fn_def(p),
            TokenKind::Let => self.parse_let_def(p),
            TokenKind::Enum => self.parse_enum_def(p),
            TokenKind::Struct => self.parse_struct_def(p),
            _ => Err(self.unexpected(p, "'fn', 'let', 'enum', or 'struct'")),
        }
    }

    fn parse_fn_def(&self, p: usize) -> (r: Step<TopLevel>)
        requires
            self.ok(),
            p < self.tokens.len(),
        ensures
            self.advanced(p, r),
            top_step(r) == fn_def_at(self.tokens@, p as int),
    {
        let span = self.span_at(p);
        let (_, q) = self.expect(p, &TokenKind::Fn)?;
        let (name, q) = self.expect_ident(q)?;
        let (_, q) = self.expect(q, &TokenKind::LParen)?;
        let (params, q) = self.parse_params(q)?;
        let (_, q) = self.expect(q, &TokenKind::RParen)?;
        let (_, q) = self.expect(q, &TokenKind::Arrow)?;
        let (return_type, q) = self.parse_type(q)?;
        let (body, q) = self.parse_block_expr(q)?;
        Ok((TopLevel::FnDef { name, params, return_type, body, span }, q))
    }

    fn parse_params(&self, p: usize) -> (r: Step<Vec<Param>>)
        requires
            self.ok(),
            p < self.tokens.len(),
        ensures
            r matches Ok((_, q)) ==> p <= q < self.tokens.len(),
            params_step(r) == params_at(self.tokens@, p as int),
    {
        let mut params: Vec<Param> = Vec::new();
        proof {
            assert(params_v(params@) == Seq::<TypedNameM>::empty());
        }
        if self.is_kind(p, TokenKind::RParen) {
            return Ok((params, p));
        }
        let mut q = p;
        loop
            invariant
                self.ok(),
                p <= q < self.tokens.len(),
                params_at(self.tokens@, p as int) == params_rest(
                    self.tokens@,
                    params_v(params@),
                    q as int,
                ),
            decreases self.tokens.len() - q,
        {
            let (name, q1) = self.expect_ident(q)?;
            let (_, q2) = self.expect(q1, &TokenKind::Colon)?;
            let (ty, q3) = self.parse_type(q2)?;
            let param = Param { name, ty };
            proof {
                lemma_params_v_push(params@, param);
            }
            params.push(param);
            if self.is_kind(q3, TokenKind::Comma) {
                q = q3 + 1;
            } else {
                return Ok((params, q3));
            }
        }
    }

    fn parse_let_def(&self, p: usize) -> (r: Step<TopLevel>)
        requires
            self.ok(),
            p < self.tokens.len(),
        ensures
            self.advanced(p, r),
            top_step(r) == let_def_at(self.tokens@, p as int),
    {
        let span = self.span_at(p);
        let (_, q) = self.expect(p, &TokenKind::Let)?;
        let mutable = self.is_kind(q, TokenKind::Mut);
        let q = if mutable {
            q + 1
        } else {
            q
        };
        let (name, q) = self.expect_ident(q)?;
        let (_, q) = self.expect(q, &TokenKind::Colon)?;
        let (ty, q) = self.parse_type(q)?;
        let (_, q) = self.expect(q, &TokenKind::Eq)?;
        let (value, q) = self.parse_expr(q)?;
        let (_, q) = self.expect(q, &TokenKind::Semicolon)?;
        Ok((TopLevel::LetDef { name, ty, value, mutable, span }, q))
    }

    #[verifier::loop_isolation(false)]
    fn parse_enum_def(&self, p: usize) -> (r: Step<TopLevel>)
        requires
            self.ok(),
            p < self.tokens.len(),
        ensures
            self.advanced(p, r),
            top_step(r) == enum_def_at(self.tokens@, p as int),
    {
        let span = self.span_at(p);
        let (_, q) = self.expect(p, &TokenKind::Enum)?;
        let (name, q) = self.expect_ident(q)?;
        let (_, q) = self.expect(q, &TokenKind::LBrace)?;
        let ghost q0 = q;
        let mut variants: Vec<String> = Vec::new();
        proof {
            assert(names_v(variants@) == Seq::<Seq<char>>::empty());
        }
        let mut q = q;
        while !self.is_kind(q, TokenKind::RBrace)
            invariant
                self.ok(),
                p < q < self.tokens.len(),
                variants_rest(self.tokens@, seq![], q0 as int) == variants_rest(
                    self.tokens@,
                    names_v(variants@),
                    q as int,
                ),
            decreases self.tokens.len() - q,
        {
            let (variant, q1) = self.expect_ident(q)?;
            proof {
                lemma_names_v_push(variants@, variant);
            }
            variants.push(variant);
            q = self.skip_if(q1, TokenKind::Comma);
        }
        let (_, q) = self.expect(q, &TokenKind::RBrace)?;
        Ok((TopLevel::EnumDef { name, variants, span }, q))
    }

    #[verifier::loop_isolation(false)]
    fn parse_struct_def(&self, p: usize) -> (r: Step<TopLevel>)
        requires
            self.ok(),
            p < self.tokens.len(),
        ensures
            self.advanced(p, r),
            top_step(r) == struct_def_at(self.tokens@, p as int),
    {
        let span = self.span_at(p);
        let (_, q) = self.expect(p, &TokenKind::Struct)?;
        let (name, q) = self.expect_ident(q)?;
        let (_, q) = self.expect(q, &TokenKind::LBrace)?;
        let ghost q0 = q;
        let mut fields: Vec<StructField> = Vec::new();
        proof {
            assert(struct_fields_v(fields@) == Seq::<TypedNameM>::empty());
        }
        let mut q = q;
        while !self.is_kind(q, TokenKind::RBrace)
            invariant
                self.ok(),
                p < q < self.tokens.len(),
                fields_rest(self.tokens@, seq![], q0 as int) == fields_rest(
                    self.tokens@,
                    struct_fields_v(fields@),
                    q as int,
                ),
            decreases self.tokens.len() - q,
        {
            let (field_name, q1) = self.expect_ident(q)?;
            let (_, q2) = self.expect(q1, &TokenKind::Colon)?;
            let (ty, q3) = self.parse_type(q2)?;
            let field = StructField { name: field_name, ty };
            proof {
                lemma_struct_fields_v_push(fields@, field);
            }
            fields.push(field);
            q = self.skip_if(q3, TokenKind::Comma);
        }
        let (_, q) = self.expect(q, &TokenKind::RBrace)?;
        Ok((TopLevel::StructDef { name, fields, span }, q))
    }

    // ---- types ----

    fn parse_type(&self, p: usize) -> (r: Step<Type>)
        requires
            self.ok(),
            p < self.tokens.len(),
        ensures
            self.advanced(p, r),
            type_step(r) == type_at(self.tokens@, p as int),
        decreases self.tokens.len() - p,
    {
        match &self.tokens[p].kind {
            TokenKind::Ident(name) => {
                let q = p + 1;
                if text_is(name, &['u', '8']) {
                    Ok((Type::U8, q))
                } else if text_is(name, &['b', 'o', 'o', 'l']) {
                    Ok((Type::Bool, q))
                } else if text_is(name, &['s', 'p', 'r', 'i', 't', 'e']) {
                    let (_, q) = self.expect(q, &TokenKind::LParen)?;
                    let (size, q) = self.parse_int_literal(q)?;
                    let (_, q) = self.expect(q, &TokenKind::RParen)?;
                    Ok((Type::Sprite(size as usize), q))
                } else {
                    Ok((Type::UserType(name.clone()), q))
                }
            },
            TokenKind::LParen => {
                let (_, q) = self.expect(p + 1, &TokenKind::RParen)?;
                Ok((Type::Unit, q))
            },
            TokenKind::LBracket => {
                let (elem_type, q) = self.parse_type(p + 1)?;
                let (_, q) = self.expect(q, &TokenKind::Semicolon)?;
                let (size, q) = self.parse_int_literal(q)?;
                let (_, q) = self.expect(q, &TokenKind::RBracket)?;
                Ok((Type::Array(Box::new(elem_type), size as usize), q))
            },
            _ => Err(self.unexpected(p, "type")),
        }
    }

    fn parse_int_literal(&self, p: usize) -> (r: Step<u64>)
        requires
            self.ok(),
            p < self.tokens.len(),
        ensures
            self.advanced(p, r),
            int_step(r) == int_at(self.tokens@, p as int),
    {
        match &self.tokens[p].kind {
            TokenKind::IntLiteral(v) => Ok((*v, p + 1)),
            _ => Err(self.unexpected(p, "integer literal")),
        }
    }

    // ---- statements ----

    /// Turns `target = value` into an assignment, if `target` can be assigned to.
    fn make_assignment(target: Expr, value: Expr, span: Span, err_span: Span) -> (r: Result<
        Stmt,
        ParseError,
    >)
        ensures
            (match r {
                Ok(st) => Ok(stmt_v(st)),
                Err(e) => Err(err_v(e)),
            }) == assignment_m(expr_v(target), expr_v(value), span, err_span),
    {
        let ghost tv = expr_v(target);
        match target.kind {
            ExprKind::Ident(name) => Ok(Stmt { kind: StmtKind::Assign { name, value }, span }),
            ExprKind::Index { array, index } => match array.kind {
                ExprKind::Ident(array_name) => {
                    proof {
                        assert(tv.kind == ExprKindM::Index {
                            array: Box::new(expr_v(*array)),
                            index: Box::new(expr_v(*index)),
                        });
                        assert(expr_v(*array).kind == ExprKindM::Ident(array_name@));
                    }
                    Ok(
                        Stmt {
                            kind: StmtKind::IndexAssign { array: array_name, index: *index, value },
                            span,
                        },
                    )
                },
                _ => Err(ParseError { kind: ParseErrorKind::InvalidAssignmentTarget, span: err_span }),
            },
            _ => Err(ParseError { kind: ParseErrorKind::InvalidAssignmentTarget, span: err_span }),
        }
    }

    fn parse_stmt(&self, p: usize) -> (r: Step<Stmt>)
        requires
            self.ok(),
            p < self.tokens.len(),
        ensures
            self.advanced(p, r),
            stmt_step(r) == stmt_at(self.tokens@, p as int),
        decreases self.tokens.len() - p, 8nat,
    {
        let span = self.span_at(p);
        match &self.tokens[p].kind {
            TokenKind::Let => {
                let (name, q) = self.expect_ident(p + 1)?;
                let (_, q) = self.expect(q, &TokenKind::Colon)?;
                let (ty, q) = self.parse_type(q)?;
                let (_, q) = self.expect(q, &TokenKind::Eq)?;
                let (value, q) = self.parse_expr(q)?;
                let (_, q) = self.expect(q, &TokenKind::Semicolon)?;
                Ok((Stmt { kind: StmtKind::Let { name, ty, value }, span }, q))
            },
            TokenKind::Return => {
                let q = p + 1;
                if self.is_kind(q, TokenKind::Semicolon) {
                    Ok((Stmt { kind: StmtKind::Return(None), span }, q + 1))
                } else {
                    let (e, q) = self.parse_expr(q)?;
                    let (_, q) = self.expect(q, &TokenKind::Semicolon)?;
                    Ok((Stmt { kind: StmtKind::Return(Some(e)), span }, q))
                }
            },
            TokenKind::Break => {
                let (_, q) = self.expect(p + 1, &TokenKind::Semicolon)?;
                Ok((Stmt { kind: StmtKind::Break, span }, q))
            },
            _ => {
                let (e, q) = self.parse_expr(p)?;
                if self.is_kind(q, TokenKind::Eq) {
                    let err_span = self.span_at(q);
                    let (value, q) = self.parse_expr(q + 1)?;
                    let (_, q) = self.expect(q, &TokenKind::Semicolon)?;
                    let stmt = Self::make_assignment(e, value, span, err_span)?;
                    return Ok((stmt, q));
                }
                let (_, q) = self.expect(q, &TokenKind::Semicolon)?;
                Ok((Stmt { kind: StmtKind::Expr(e), span }, q))
            },
        }
    }

    // ---- expressions ----

    fn parse_expr(&self, p: usize) -> (r: Step<Expr>)
        requires
            self.ok(),
            p < self.tokens.len(),
        ensures
            self.advanced(p, r),
            expr_step(r) == expr_at(self.tokens@, p as int),
        decreases self.tokens.len() - p, 7nat,
    {
        self.parse_expr_bp(p, 0)
    }

    fn parse_expr_bp(&self, p: usize, min_bp: u8) -> (r: Step<Expr>)
        requires
            self.ok(),
            p < self.tokens.len(),
        ensures
            self.advanced(p, r),
            expr_step(r) == bp_at(self.tokens@, p as int, min_bp),
        decreases self.tokens.len() - p, 6nat,
    {
        let (first, q0) = self.parse_unary(p)?;
        let mut lhs = first;
        let mut q = q0;
        loop
            invariant
                self.ok(),
                p < q < self.tokens.len(),
                bp_at(self.tokens@, p as int, min_bp) == bp_rest(
                    self.tokens@,
                    min_bp,
                    expr_v(lhs),
                    q as int,
                ),
            decreases self.tokens.len() - q,
        {
            // the pipe operator binds loosest and associates to the left
            if min_bp == 0 && self.is_kind(q, TokenKind::Pipe) {
                let (e, q2) = self.parse_pipe_rhs(lhs, q + 1)?;
                lhs = e;
                q = q2;
                continue;
            }
            let op = match binop_of(&self.tokens[q].kind) {
                Some(op) => op,
                None => return Ok((lhs, q)),
            };
            let (l_bp, r_bp) = infix_binding_power(op);
            if l_bp < min_bp {
                return Ok((lhs, q));
            }
            let span = lhs.span;
            let (rhs, q2) = self.parse_expr_bp(q + 1, r_bp)?;
            lhs = Expr { kind: ExprKind::BinaryOp { op, lhs: Box::new(lhs), rhs: Box::new(rhs) }, span };
            q = q2;
        }
    }

    fn parse_unary(&self, p: usize) -> (r: Step<Expr>)
        requires
            self.ok(),
            p < self.tokens.len(),
        ensures
            self.advanced(p, r),
            expr_step(r) == unary_at(self.tokens@, p as int),
        decreases self.tokens.len() - p, 5nat,
    {
        let span = self.span_at(p);
        match &self.tokens[p].kind {
            TokenKind::Minus => {
                let (e, q) = self.parse_unary(p + 1)?;
                Ok((Expr { kind: ExprKind::UnaryOp { op: UnaryOp::Neg, expr: Box::new(e) }, span }, q))
            },
            TokenKind::Bang => {
                let (e, q) = self.parse_unary(p + 1)?;
                Ok((Expr { kind: ExprKind::UnaryOp { op: UnaryOp::Not, expr: Box::new(e) }, span }, q))
            },
            _ => self.parse_postfix(p),
        }
    }

    fn parse_postfix(&self, p: usize) -> (r: Step<Expr>)
        requires
            self.ok(),
            p < self.tokens.len(),
        ensures
            self.advanced(p, r),
            expr_step(r) == postfix_at(self.tokens@, p as int),
        decreases self.tokens.len() - p, 4nat,
    {
        let (first, q0) = self.parse_primary(p)?;
        let mut e = first;
        let mut q = q0;
        loop
            invariant
                self.ok(),
                p < q < self.tokens.len(),
                postfix_at(self.tokens@, p as int) == postfix_rest(
                    self.tokens@,
                    expr_v(e),
                    q as int,
                ),
            decreases self.tokens.len() - q,
        {
            if self.is_kind(q, TokenKind::LBracket) {
                let span = e.span;
                let (index, q1) = self.parse_expr(q + 1)?;
                let (_, q2) = self.expect(q1, &TokenKind::RBracket)?;
                e = Expr { kind: ExprKind::Index { array: Box::new(e), index: Box::new(index) }, span };
                q = q2;
            } else if self.is_kind(q, TokenKind::Dot) {
                let span = e.span;
                let (field, q1) = self.expect_ident(q + 1)?;
                e = Expr { kind: ExprKind::FieldAccess { expr: Box::new(e), field }, span };
                q = q1;
            } else {
                return Ok((e, q));
            }
        }
    }

    /// Whether `Name {` at `q` (pointing at `{`) starts a struct literal:
    /// `Name { ..base }`, `Name { field: ... }`.
    fn starts_struct_literal(&self, q: usize) -> (r: bool)
        requires
            q < self.tokens.len(),
        ensures
            r == starts_struct_literal(self.tokens@, q as int),
    {
        match self.kind_ahead(q, 1) {
            TokenKind::DotDot => true,
            TokenKind::Ident(_) => matches!(self.kind_ahead(q, 2), TokenKind::Colon),
            _ => false,
        }
    }

    /// A call of `name`: of a built-in function when the name is one.
    fn make_call(name: String, args: Vec<Expr>, span: Span) -> (r: Expr)
        ensures
            expr_v(r) == call_m(name@, exprs_v(args@), span),
    {
        let kind = match BuiltinFunction::from_name(name.as_str()) {
            Some(builtin) => ExprKind::BuiltinCall { builtin, args },
            None => ExprKind::Call { name, args },
        };
        Expr { kind, span }
    }

    #[verifier::rlimit(80)]
    fn parse_primary(&self, p: usize) -> (r: Step<Expr>)
        requires
            self.ok(),
            p < self.tokens.len(),
        ensures
            self.advanced(p, r),
            expr_step(r) == primary_at(self.tokens@, p as int),
        decreases self.tokens.len() - p, 3nat,
    {
        let span = self.span_at(p);
        match &self.tokens[p].kind {
            TokenKind::IntLiteral(v) => Ok((Expr { kind: ExprKind::IntLiteral(*v), span }, p + 1)),
            TokenKind::True => Ok((Expr { kind: ExprKind::BoolLiteral(true), span }, p + 1)),
            TokenKind::False => Ok((Expr { kind: ExprKind::BoolLiteral(false), span }, p + 1)),
            TokenKind::Ident(name_ref) => {
                let name = name_ref.clone();
                let q = p + 1;
                // enum variant: Name::Variant
                if self.is_kind(q, TokenKind::ColonColon) {
                    let (variant, q) = self.expect_ident(q + 1)?;
                    return Ok(
                        (Expr { kind: ExprKind::EnumVariant { enum_name: name, variant }, span }, q),
                    );
                }
                // struct literal: Name { field: value, ... }
                if self.is_kind(q, TokenKind::LBrace) && self.starts_struct_literal(q) {
                    return self.parse_struct_literal(name, span, q);
                }
                // call
                if self.is_kind(q, TokenKind::LParen) {
                    let (args, q) = self.parse_call_args(q + 1)?;
                    let (_, q) = self.expect(q, &TokenKind::RParen)?;
                    return Ok((Self::make_call(name, args, span), q));
                }
                Ok((Expr { kind: ExprKind::Ident(name), span }, q))
            },
            TokenKind::LParen => {
                let q = p + 1;
                if self.is_kind(q, TokenKind::RParen) {
                    // the unit value `()` is represented as 0
                    return Ok((Expr { kind: ExprKind::IntLiteral(0), span }, q + 1));
                }
                let (e, q) = self.parse_expr(q)?;
                let (_, q) = self.expect(q, &TokenKind::RParen)?;
                Ok((e, q))
            },
            TokenKind::LBracket => {
                let q = p + 1;
                let (elems, q) = if self.is_kind(q, TokenKind::RBracket) {
                    let none: Vec<Expr> = Vec::new();
                    proof {
                        assert(exprs_v(none@) == Seq::<ExprM>::empty());
                    }
                    (none, q)
                } else {
                    self.parse_expr_list(Vec::new(), q)?
                };
                let (_, q) = self.expect(q, &TokenKind::RBracket)?;
                Ok((Expr { kind: ExprKind::ArrayLiteral(elems), span }, q))
            },
            TokenKind::LBrace => self.parse_block_expr(p),
            TokenKind::If => self.parse_if_expr(p),
            TokenKind::Match => self.parse_match_expr(p),
            TokenKind::Loop => self.parse_loop_expr(p),
            _ => Err(self.unexpected(p, "expression")),
        }
    }

    /// `{ field: value, ..base }` after a struct name; `q` points at `{`.
    fn parse_struct_literal(&self, name: String, span: Span, q: usize) -> (r: Step<Expr>)
        requires
            self.ok(),
            q < self.tokens.len(),
        ensures
            self.advanced(q, r),
            expr_step(r) == struct_lit_at(self.tokens@, name@, span, q as int),
        decreases self.tokens.len() - q, 1nat,
    {
        let (_, q1) = self.expect(q, &TokenKind::LBrace)?;
        let mut fields: Vec<(String, Expr)> = Vec::new();
        let mut base: Option<Box<Expr>> = None;
        let mut c = q1;
        while !self.is_kind(c, TokenKind::RBrace)
            invariant
                self.ok(),
                q < c < self.tokens.len(),
                struct_lit_at(self.tokens@, name@, span, q as int) == struct_lit_rest(
                    self.tokens@,
                    name@,
                    span,
                    inits_v(fields@),
                    opt_v(base),
                    c as int,
                ),
            decreases self.tokens.len() - c,
        {
            // struct update syntax: ..base
            if self.is_kind(c, TokenKind::DotDot) {
                let (b, c1) = self.parse_expr(c + 1)?;
                base = Some(Box::new(b));
                c = self.skip_if(c1, TokenKind::Comma);
                continue;
            }
            let (field_name, c1) = self.expect_ident(c)?;
            let (_, c2) = self.expect(c1, &TokenKind::Colon)?;
            let (value, c3) = self.parse_expr(c2)?;
            proof {
                lemma_inits_v_push(fields@, (field_name, value));
            }
            fields.push((field_name, value));
            c = self.skip_if(c3, TokenKind::Comma);
        }
        let (_, c) = self.expect(c, &TokenKind::RBrace)?;
        Ok((Expr { kind: ExprKind::StructLiteral { name, fields, base }, span }, c))
    }

    /// Expressions separated by commas after those in `acc`: one at least, up to the
    /// first expression not followed by a comma.
    fn parse_expr_list(&self, acc: Vec<Expr>, p: usize) -> (r: Step<Vec<Expr>>)
        requires
            self.ok(),
            p < self.tokens.len(),
        ensures
            r matches Ok((_, q)) ==> p < q < self.tokens.len(),
            exprs_step(r) == list_from(self.tokens@, exprs_v(acc@), p as int),
        decreases self.tokens.len() - p, 8nat,
    {
        let ghost start = exprs_v(acc@);
        let mut items = acc;
        let mut q = p;
        loop
            invariant
                self.ok(),
                start == exprs_v(acc@),
                p <= q < self.tokens.len(),
                list_from(self.tokens@, start, p as int) == list_from(
                    self.tokens@,
                    exprs_v(items@),
                    q as int,
                ),
            decreases self.tokens.len() - q,
        {
            let (e, q1) = self.parse_expr(q)?;
            proof {
                lemma_exprs_v_push(items@, e);
            }
            items.push(e);
            if self.is_kind(q1, TokenKind::Comma) {
                q = q1 + 1;
            } else {
                return Ok((items, q1));
            }
        }
    }

    /// Comma-separated arguments up to (not including) `)`.
    fn parse_call_args(&self, p: usize) -> (r: Step<Vec<Expr>>)
        requires
            self.ok(),
            p < self.tokens.len(),
        ensures
            r matches Ok((_, q)) ==> p <= q < self.tokens.len(),
            exprs_step(r) == args_at(self.tokens@, p as int),
        decreases self.tokens.len() - p, 9nat,
    {
        if self.is_kind(p, TokenKind::RParen) {
            return Ok((Vec::new(), p));
        }
        self.parse_expr_list(Vec::new(), p)
    }

    /// `= value;` after `target` inside a block, `=` at `q`; the target is checked first.
    fn parse_assignment(&self, target: Expr, span: Span, q: usize) -> (r: Step<Stmt>)
        requires
            self.ok(),
            q < self.tokens.len(),
            self.tokens@[q as int].kind is Eq,
        ensures
            self.advanced(q, r),
            stmt_step(r) == assign_at(self.tokens@, expr_v(target), span, q as int),
        decreases self.tokens.len() - q, 1nat,
    {
        let err_span = self.span_at(q);
        let ghost tv = expr_v(target);
        match &target.kind {
            ExprKind::Ident(_) => {},
            ExprKind::Index { array, index } => {
                proof {
                    assert(tv.kind == ExprKindM::Index {
                        array: Box::new(expr_v(**array)),
                        index: Box::new(expr_v(**index)),
                    });
                }
                if !matches!(array.kind, ExprKind::Ident(_)) {
                    return Err(ParseError { kind: ParseErrorKind::InvalidAssignmentTarget, span: err_span });
                }
            },
            _ => {
                proof {
                    assert(!assignable(tv));
                }
                return Err(ParseError { kind: ParseErrorKind::InvalidAssignmentTarget, span: err_span });
            },
        }
        proof {
            assert(assignable(tv));
        }
        let (value, q2) = self.parse_expr(q + 1)?;
        let (_, q3) = self.expect(q2, &TokenKind::Semicolon)?;
        let stmt = Self::make_assignment(target, value, span, err_span)?;
        Ok((stmt, q3))
    }

    #[verifier::rlimit(80)]
    fn parse_block_expr(&self, p: usize) -> (r: Step<Expr>)
        requires
            self.ok(),
            p < self.tokens.len(),
        ensures
            self.advanced(p, r),
            expr_step(r) == block_at(self.tokens@, p as int),
        decreases self.tokens.len() - p, 2nat,
    {
        let span = self.span_at(p);
        let (_, q0) = self.expect(p, &TokenKind::LBrace)?;
        let mut stmts: Vec<Stmt> = Vec::new();
        let mut tail_expr: Option<Box<Expr>> = None;
        let mut q = q0;
        while !self.is_kind(q, TokenKind::RBrace)
            invariant
                self.ok(),
                p < q < self.tokens.len(),
                block_at(self.tokens@, p as int) == block_rest(
                    self.tokens@,
                    span,
                    stmts_v(stmts@),
                    opt_v(tail_expr),
                    q as int,
                ),
            decreases self.tokens.len() - q,
        {
            let stmt_span = self.span_at(q);
            // let, return and break always start a statement
            match &self.tokens[q].kind {
                TokenKind::Let | TokenKind::Return | TokenKind::Break => {
                    let (stmt, q1) = self.parse_stmt(q)?;
                    proof {
                        lemma_stmts_v_push(stmts@, stmt);
                    }
                    stmts.push(stmt);
                    q = q1;
                    continue;
                },
                _ => {},
            }
            let (e, q1) = self.parse_expr(q)?;
            if self.is_kind(q1, TokenKind::Semicolon) {
                let st = Stmt { kind: StmtKind::Expr(e), span: stmt_span };
                proof {
                    lemma_stmts_v_push(stmts@, st);
                }
                stmts.push(st);
                q = q1 + 1;
            } else if self.is_kind(q1, TokenKind::Eq) {
                let (stmt, q3) = self.parse_assignment(e, stmt_span, q1)?;
                proof {
                    lemma_stmts_v_push(stmts@, stmt);
                }
                stmts.push(stmt);
                q = q3;
            } else if self.is_kind(q1, TokenKind::RBrace) {
                // the tail expression
                tail_expr = Some(Box::new(e));
                q = q1;
            } else {
                return Err(self.unexpected(q1, "';' or '}'"));
            }
        }
        let (_, q) = self.expect(q, &TokenKind::RBrace)?;
        Ok((Expr { kind: ExprKind::Block { stmts, expr: tail_expr }, span }, q))
    }

    #[verifier::rlimit(40)]
    fn parse_if_expr(&self, p: usize) -> (r: Step<Expr>)
        requires
            self.ok(),
            p < self.tokens.len(),
        ensures
            self.advanced(p, r),
            expr_step(r) == if_at(self.tokens@, p as int),
        decreases self.tokens.len() - p, 2nat,
    {
        let span = self.span_at(p);
        let (_, q) = self.expect(p, &TokenKind::If)?;
        let (cond, q) = self.parse_expr(q)?;
        let (then_block, q) = self.parse_block_expr(q)?;
        if self.is_kind(q, TokenKind::Else) {
            let q1 = q + 1;
            let (else_expr, q2) = if self.is_kind(q1, TokenKind::If) {
                self.parse_if_expr(q1)?
            } else {
                self.parse_block_expr(q1)?
            };
            Ok(
                (
                    Expr {
                        kind: ExprKind::If {
                            cond: Box::new(cond),
                            then_block: Box::new(then_block),
                            else_block: Some(Box::new(else_expr)),
                        },
                        span,
                    },
                    q2,
                ),
            )
        } else {
            Ok(
                (
                    Expr {
                        kind: ExprKind::If {
                            cond: Box::new(cond),
                            then_block: Box::new(then_block),
                            else_block: None,
                        },
                        span,
                    },
                    q,
                ),
            )
        }
    }

    fn parse_match_expr(&self, p: usize) -> (r: Step<Expr>)
        requires
            self.ok(),
            p < self.tokens.len(),
        ensures
            self.advanced(p, r),
            expr_step(r) == match_at(self.tokens@, p as int),
        decreases self.tokens.len() - p, 2nat,
    {
        let span = self.span_at(p);
        let (_, q) = self.expect(p, &TokenKind::Match)?;
        let (scrutinee, q) = self.parse_expr(q)?;
        let (_, q0) = self.expect(q, &TokenKind::LBrace)?;
        let mut arms: Vec<MatchArm> = Vec::new();
        let mut c = q0;
        while !self.is_kind(c, TokenKind::RBrace)
            invariant
                self.ok(),
                p < c < self.tokens.len(),
                match_at(self.tokens@, p as int) == arms_rest(
                    self.tokens@,
                    span,
                    expr_v(scrutinee),
                    arms_v(arms@),
                    c as int,
                ),
            decreases self.tokens.len() - c,
        {
            let (pattern, c1) = self.parse_primary(c)?;
            let (_, c2) = self.expect(c1, &TokenKind::FatArrow)?;
            let (body, c3) = self.parse_expr(c2)?;
            let arm = MatchArm { pattern, body };
            proof {
                lemma_arms_v_push(arms@, arm);
            }
            arms.push(arm);
            c = self.skip_if(c3, TokenKind::Comma);
        }
        let (_, c) = self.expect(c, &TokenKind::RBrace)?;
        Ok((Expr { kind: ExprKind::Match { scrutinee: Box::new(scrutinee), arms }, span }, c))
    }

    /// `name(args)` or `name` after `|>`: the piped value becomes the first argument.
    fn parse_pipe_rhs(&self, piped: Expr, p: usize) -> (r: Step<Expr>)
        requires
            self.ok(),
            p < self.tokens.len(),
        ensures
            self.advanced(p, r),
            expr_step(r) == pipe_at(self.tokens@, expr_v(piped), p as int),
        decreases self.tokens.len() - p, 1nat,
    {
        let span = piped.span;
        let (name, q) = self.expect_ident(p)?;
        let mut args: Vec<Expr> = Vec::new();
        proof {
            lemma_exprs_v_push(args@, piped);
            assert(args@.push(piped) =~= seq![piped]);
            assert(exprs_v(args@) =~= seq![]);
        }
        args.push(piped);
        if self.is_kind(q, TokenKind::LParen) {
            let c = q + 1;
            let (args, c1) = if self.is_kind(c, TokenKind::RParen) {
                (args, c)
            } else {
                self.parse_expr_list(args, c)?
            };
            let (_, c2) = self.expect(c1, &TokenKind::RParen)?;
            return Ok((Self::make_call(name, args, span), c2));
        }
        Ok((Self::make_call(name, args, span), q))
    }

    fn parse_loop_expr(&self, p: usize) -> (r: Step<Expr>)
        requires
            self.ok(),
            p < self.tokens.len(),
        ensures
            self.advanced(p, r),
            expr_step(r) == loop_at(self.tokens@, p as int),
        decreases self.tokens.len() - p, 2nat,
    {
        let span = self.span_at(p);
        let (_, q) = self.expect(p, &TokenKind::Loop)?;
        let (body, q) = self.parse_block_expr(q)?;
        Ok((Expr { kind: ExprKind::Loop { body: Box::new(body) }, span }, q))
    }
}

} // verus!

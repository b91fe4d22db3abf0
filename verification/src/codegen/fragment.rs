//! What the code of an expression computed in registers alone does on the machine.
use vstd::prelude::*;

use super::{addr_of_spec, Binding};
use crate::chip8::{Opcode, Register};
use crate::machine::{
    exec_word, group, halts_with_v0, is_skip, lemma_fwd_empty, lemma_fwd_frame, lemma_fwd_one,
    lemma_fwd_seq, lemma_fwd_step, skips,
    fwd_len, lemma_fwd_steps, run_fwd, step, steps, word_at,
};
use crate::parser::ast::{
    BinOp, Expr, ExprKind, MatchArm, Param, Program, Stmt, StmtKind, TopLevel, UnaryOp,
};

verus! {

// ---------------------------------------------------------------------------
// Register expressions and their values
// ---------------------------------------------------------------------------

/// The value of the innermost variable named `x` (0 if there is none).
pub open spec fn env_lookup(env: Seq<(Seq<char>, u8)>, x: Seq<char>) -> u8
    decreases env.len(),
{
    if env.len() == 0 {
        0
    } else if env.last().0 == x {
        env.last().1
    } else {
        env_lookup(env.drop_last(), x)
    }
}

/// An expression that the code generator computes in registers alone: integer and
/// boolean literals, variables of `scope`, unary `-` and `!`, binary `+`, `-`, `&&`,
/// `||` and the comparisons, blocks of `let` statements that end with such an
/// expression, `if` with an `else` whose condition and branches are such expressions, and
/// `match` on such an expression whose arms are such expressions, all but the last with an
/// integer literal as pattern.
pub open spec fn is_reg_expr(e: Expr, scope: Seq<Seq<char>>) -> bool
    decreases e, 1nat,
{
    match e.kind {
        ExprKind::Match { scrutinee, arms } => {
            &&& arms@.len() > 0
            &&& is_reg_expr(*scrutinee, scope)
            &&& arms_ok(arms@, scope, arms@.len() as int)
        },
        ExprKind::If { cond, then_block, else_block } => match else_block {
            Some(el) => {
                &&& is_reg_expr(*cond, scope)
                &&& is_reg_expr(*then_block, scope)
                &&& is_reg_expr(*el, scope)
            },
            None => false,
        },
        ExprKind::IntLiteral(_) => true,
        ExprKind::BoolLiteral(_) => true,
        ExprKind::Ident(x) => scope.contains(x@),
        ExprKind::UnaryOp { expr, .. } => is_reg_expr(*expr, scope),
        ExprKind::BinaryOp { op, lhs, rhs } => {
            &&& (op is Add || op is Sub || op is And || op is Or || is_comparison(op))
            &&& is_reg_expr(*lhs, scope)
            &&& is_reg_expr(*rhs, scope)
        },
        ExprKind::Block { stmts, expr } => match expr {
            Some(t) => lets_ok(stmts@, scope, stmts@.len() as int) && is_reg_expr(
                *t,
                scope_upto(stmts@, scope, stmts@.len() as int),
            ),
            None => false,
        },
        _ => false,
    }
}

/// The first `k` arms have register expressions as bodies, and integer literals as
/// patterns but for the last arm of all.
pub open spec fn arms_ok(arms: Seq<MatchArm>, scope: Seq<Seq<char>>, k: int) -> bool
    decreases arms, k,
{
    if k <= 0 || k > arms.len() {
        k == 0
    } else {
        &&& arms_ok(arms, scope, k - 1)
        &&& is_reg_expr(arms[k - 1].body, scope)
        &&& (k < arms.len() ==> arms[k - 1].pattern.kind is IntLiteral)
    }
}

/// The first arm before `k`, the last arm of all excepted, whose pattern is an integer
/// literal equal to `sv` in 8 bits.
pub open spec fn first_match(arms: Seq<MatchArm>, sv: u8, k: int) -> Option<int>
    decreases k,
{
    if k <= 0 {
        None
    } else {
        match first_match(arms, sv, k - 1) {
            Some(i) => Some(i),
            None => if k < arms.len() && (arms[k - 1].pattern.kind matches ExprKind::IntLiteral(
                p,
            ) && p as u8 == sv) {
                Some(k - 1)
            } else {
                None
            },
        }
    }
}

/// The variables in scope after the first `k` statements, which are `let`s.
pub open spec fn scope_upto(stmts: Seq<Stmt>, scope: Seq<Seq<char>>, k: int) -> Seq<Seq<char>>
    decreases k,
{
    if k <= 0 || k > stmts.len() {
        scope
    } else {
        let s = scope_upto(stmts, scope, k - 1);
        match stmts[k - 1].kind {
            StmtKind::Let { name, .. } => s.push(name@),
            _ => s,
        }
    }
}

/// The first `k` statements are `let`s of register expressions.
pub open spec fn lets_ok(stmts: Seq<Stmt>, scope: Seq<Seq<char>>, k: int) -> bool
    decreases stmts, k,
{
    if k <= 0 || k > stmts.len() {
        k == 0
    } else {
        &&& lets_ok(stmts, scope, k - 1)
        &&& match stmts[k - 1].kind {
            StmtKind::Let { value, .. } => is_reg_expr(value, scope_upto(stmts, scope, k - 1)),
            _ => false,
        }
    }
}

/// The value of a register expression with the variables of `env`, in the machine's 8-bit
/// arithmetic: sums and differences wrap modulo 256, booleans are 0 and 1, `!` flips the
/// lowest bit, an `if` takes its first branch when its condition is not 0, and a `match`
/// takes the first arm whose pattern is its value in 8 bits, its last arm when there is
/// none.
pub open spec fn reg_value(e: Expr, env: Seq<(Seq<char>, u8)>) -> u8
    decreases e, 1nat,
{
    match e.kind {
        ExprKind::Match { scrutinee, arms } => if arms@.len() == 0 {
            0
        } else {
            match first_match(arms@, reg_value(*scrutinee, env), arms@.len() - 1) {
                Some(i) => if 0 <= i < arms@.len() {
                    reg_value(arms@[i].body, env)
                } else {
                    0
                },
                None => reg_value(arms@[arms@.len() - 1].body, env),
            }
        },
        ExprKind::If { cond, then_block, else_block } => match else_block {
            Some(el) => if reg_value(*cond, env) != 0 {
                reg_value(*then_block, env)
            } else {
                reg_value(*el, env)
            },
            None => 0,
        },
        ExprKind::IntLiteral(v) => v as u8,
        ExprKind::BoolLiteral(b) => if b {
            1
        } else {
            0
        },
        ExprKind::Ident(x) => env_lookup(env, x@),
        ExprKind::UnaryOp { op, expr } => unary_value(op, reg_value(*expr, env)),
        ExprKind::BinaryOp { op, lhs, rhs } => binary_value(
            op,
            reg_value(*lhs, env),
            reg_value(*rhs, env),
        ),
        ExprKind::Block { stmts, expr } => match expr {
            Some(t) => reg_value(*t, env_upto(stmts@, env, stmts@.len() as int)),
            None => 0,
        },
        _ => 0,
    }
}

/// The variables after the first `k` statements, which are `let`s, have run.
pub open spec fn env_upto(stmts: Seq<Stmt>, env: Seq<(Seq<char>, u8)>, k: int) -> Seq<
    (Seq<char>, u8),
>
    decreases stmts, k,
{
    if k <= 0 || k > stmts.len() {
        env
    } else {
        let e1 = env_upto(stmts, env, k - 1);
        match stmts[k - 1].kind {
            StmtKind::Let { name, value, .. } => e1.push((name@, reg_value(value, e1))),
            _ => e1,
        }
    }
}

/// Unary `-` (modulo 256) and `!` (the lowest bit flipped).
pub open spec fn unary_value(op: UnaryOp, a: u8) -> u8 {
    match op {
        UnaryOp::Neg => ((0 - a) % 256) as u8,
        UnaryOp::Not => 1u8 ^ a,
    }
}

/// Binary `+` and `-` (modulo 256), `&&` and `||` (bitwise on 0 and 1), and the
/// comparisons (1 when they hold, 0 otherwise). The generated code tests `<=` and `>=`
/// with one subtraction whose flag already marks equal operands, so on equal operands
/// they give 0, as `<` and `>` do.
pub open spec fn binary_value(op: BinOp, a: u8, b: u8) -> u8 {
    match op {
        BinOp::Add => ((a + b) % 256) as u8,
        BinOp::Sub => ((a - b) % 256) as u8,
        BinOp::And => a & b,
        BinOp::Or => a | b,
        BinOp::Eq => if a == b { 1 } else { 0 },
        BinOp::NotEq => if a != b { 1 } else { 0 },
        BinOp::Lt => if a < b { 1 } else { 0 },
        BinOp::Gt => if a > b { 1 } else { 0 },
        BinOp::LtEq => if a < b { 1 } else { 0 },
        BinOp::GtEq => if a > b { 1 } else { 0 },
        _ => 0,
    }
}

/// The comparisons `==`, `!=`, `<`, `>`, `<=`, `>=`.
pub open spec fn is_comparison(op: BinOp) -> bool {
    op is Eq || op is NotEq || op is Lt || op is Gt || op is LtEq || op is GtEq
}

/// Whether an expression's value stays in its variable's own register (no code copies it).
pub open spec fn yields_local(e: Expr) -> bool
    decreases e,
{
    match e.kind {
        ExprKind::Ident(_) => true,
        ExprKind::Block { expr, .. } => match expr {
            Some(t) => yields_local(*t),
            None => false,
        },
        _ => false,
    }
}

/// How many registers the code of a register expression allocates: one per literal,
/// unary operator, comparison and `let`, one more for a binary operator whose left
/// operand is a variable (its value is copied first), and for an `if` or a `match` one for
/// its value besides those of its condition or scrutinee and of its last branch (the other
/// branches' are given back).
pub open spec fn demand(e: Expr) -> nat
    decreases e,
{
    match e.kind {
        ExprKind::If { cond, else_block, .. } => match else_block {
            Some(el) => demand(*cond) + 1 + demand(*el),
            None => 1,
        },
        ExprKind::Match { scrutinee, arms } => if arms@.len() == 0 {
            1
        } else {
            demand(*scrutinee) + 1 + demand(arms@[arms@.len() - 1].body)
        },
        ExprKind::Ident(_) => 0,
        ExprKind::UnaryOp { expr, .. } => demand(*expr) + 1,
        ExprKind::BinaryOp { op, lhs, rhs } => demand(*lhs) + demand(*rhs) + if is_comparison(op)
            || yields_local(*lhs) {
            1nat
        } else {
            0nat
        },
        ExprKind::Block { stmts, expr } => match expr {
            Some(t) => stmts@.len() + demand(*t),
            None => 0,
        },
        _ => 1,
    }
}

/// Computing the expression with `n` registers in use never needs more than the fifteen
/// general registers V0-VE.
pub open spec fn fits(e: Expr, n: nat) -> bool
    decreases e, 1nat,
{
    match e.kind {
        ExprKind::If { cond, then_block, else_block } => match else_block {
            Some(el) => {
                &&& fits(*cond, n)
                &&& n + demand(*cond) + 1 <= 15
                &&& fits(*then_block, n + demand(*cond) + 1)
                &&& fits(*el, n + demand(*cond) + 1)
            },
            None => n + 1 <= 15,
        },
        ExprKind::Match { scrutinee, arms } => if arms@.len() == 0 {
            n + 1 <= 15
        } else {
            &&& fits(*scrutinee, n)
            &&& n + demand(*scrutinee) + 1 <= 15
            &&& arms_fit(arms@, n + demand(*scrutinee) + 1, arms@.len() as int)
        },
        ExprKind::Ident(_) => true,
        ExprKind::UnaryOp { expr, .. } => fits(*expr, n) && n + demand(*expr) + 1 <= 15,
        ExprKind::BinaryOp { lhs, rhs, .. } => {
            &&& fits(*lhs, n)
            &&& fits(*rhs, n + demand(*lhs))
            &&& n + demand(e) <= 15
        },
        ExprKind::Block { stmts, expr } => match expr {
            Some(t) => lets_fit(stmts@, n, stmts@.len() as int) && fits(*t, n + stmts@.len()),
            None => true,
        },
        _ => n + 1 <= 15,
    }
}

/// The first `k` statements, `let`s, fit when the block starts with `n` registers in use.
pub open spec fn lets_fit(stmts: Seq<Stmt>, n: nat, k: int) -> bool
    decreases stmts, k,
{
    if k <= 0 || k > stmts.len() {
        true
    } else {
        &&& lets_fit(stmts, n, k - 1)
        &&& n + k <= 15
        &&& match stmts[k - 1].kind {
            StmtKind::Let { value, .. } => fits(value, (n + k - 1) as nat),
            _ => true,
        }
    }
}

/// The bodies of the first `k` arms fit when `n` registers are in use.
pub open spec fn arms_fit(arms: Seq<MatchArm>, n: nat, k: int) -> bool
    decreases arms, k,
{
    if k <= 0 || k > arms.len() {
        true
    } else {
        arms_fit(arms, n, k - 1) && fits(arms[k - 1].body, n)
    }
}

/// Parameters that are all kept in registers (none is of a named type), at most fourteen.
pub open spec fn register_params(params: Seq<Param>) -> bool {
    &&& params.len() <= 14
    &&& forall|i: int| 0 <= i < params.len() ==> !((#[trigger] params[i]).ty is UserType)
}

/// The names of the parameters, in order.
pub open spec fn param_names(params: Seq<Param>) -> Seq<Seq<char>> {
    params.map_values(|p: Param| p.name@)
}

/// The parameters' values as the registers `v` hold them: the `i`-th in `Vi`.
pub open spec fn param_env(params: Seq<Param>, v: Seq<u8>) -> Seq<(Seq<char>, u8)> {
    Seq::new(params.len(), |i: int| (params[i].name@, v[i]))
}

/// A function whose parameters are in registers and whose body is a register expression
/// of them that fits in the general registers.
pub open spec fn register_fn(params: Seq<Param>, body: Expr) -> bool {
    &&& register_params(params)
    &&& is_reg_expr(body, param_names(params))
    &&& fits(body, params.len())
}

/// The body of a program made of a single function, `fn main()` without parameters, whose
/// body is a register expression that fits in the general registers.
pub open spec fn register_main_body(program: Program) -> Option<Expr> {
    if program.top_levels@.len() == 1 {
        match program.top_levels@[0] {
            TopLevel::FnDef { name, params, body, .. } => if name@ == seq!['m', 'a', 'i', 'n']
                && params@.len() == 0 && is_reg_expr(body, seq![]) && fits(body, 0) {
                Some(body)
            } else {
                None
            },
            _ => None,
        }
    } else {
        None
    }
}

/// What fits in the registers takes no more registers than there are.
pub(crate) proof fn lemma_fits_demand(e: Expr, n: nat)
    requires
        fits(e, n),
        n <= 15,
    ensures
        n + demand(e) <= 15,
    decreases e,
{
    match e.kind {
        ExprKind::Block { stmts, expr } => {
            if let Some(t) = expr {
                let k = stmts@.len() as int;
                assert(lets_fit(stmts@, n, k));
                if k > 0 {
                    assert(n + k <= 15);
                }
                lemma_fits_demand(*t, n + stmts@.len());
            }
        },
        ExprKind::If { cond, else_block, .. } => {
            if let Some(el) = else_block {
                lemma_fits_demand(*el, n + demand(*cond) + 1);
            }
        },
        ExprKind::Match { scrutinee, arms } => {
            if arms@.len() > 0 {
                let k = n + demand(*scrutinee) + 1;
                lemma_arms_fit_at(arms@, k, arms@.len() as int, arms@.len() - 1);
                lemma_fits_demand(arms@[arms@.len() - 1].body, k);
            }
        },
        _ => {},
    }
}

/// The arm at `k` of arms that fit fits.
pub(crate) proof fn lemma_arms_fit_at(arms: Seq<MatchArm>, n: nat, m: int, k: int)
    requires
        arms_fit(arms, n, m),
        0 <= k < m <= arms.len(),
    ensures
        fits(arms[k].body, n),
    decreases m,
{
    if k < m - 1 {
        lemma_arms_fit_at(arms, n, m - 1, k);
    }
}

/// The arm at `k` of arms of register expressions has one as its body, and an integer
/// literal as pattern unless it is the last arm.
pub(crate) proof fn lemma_arms_ok_at(arms: Seq<MatchArm>, scope: Seq<Seq<char>>, m: int, k: int)
    requires
        arms_ok(arms, scope, m),
        0 <= k < m <= arms.len(),
    ensures
        is_reg_expr(arms[k].body, scope),
        k < arms.len() - 1 ==> arms[k].pattern.kind is IntLiteral,
    decreases m,
{
    if k < m - 1 {
        lemma_arms_ok_at(arms, scope, m - 1, k);
    }
}

/// The statement at `k` of `let`s of register expressions is one, in the scope of the
/// ones before it.
pub(crate) proof fn lemma_lets_ok_at(stmts: Seq<Stmt>, scope: Seq<Seq<char>>, n: int, k: int)
    requires
        lets_ok(stmts, scope, n),
        0 <= k < n <= stmts.len(),
    ensures
        stmts[k].kind matches StmtKind::Let { value, .. } && is_reg_expr(
            value,
            scope_upto(stmts, scope, k),
        ),
    decreases n,
{
    if k < n - 1 {
        lemma_lets_ok_at(stmts, scope, n - 1, k);
    }
}

/// The statement at `k` of `let`s that fit, fits with `n + k` registers in use and leaves
/// one for its variable.
pub(crate) proof fn lemma_lets_fit_at(stmts: Seq<Stmt>, n: nat, m: int, k: int)
    requires
        lets_fit(stmts, n, m),
        0 <= k < m <= stmts.len(),
    ensures
        n + k + 1 <= 15,
        stmts[k].kind matches StmtKind::Let { value, .. } ==> fits(value, (n + k) as nat),
    decreases m,
{
    if k < m - 1 {
        lemma_lets_fit_at(stmts, n, m - 1, k);
    }
}

// ---------------------------------------------------------------------------
// Variables held in registers
// ---------------------------------------------------------------------------

/// The variables as the registers `v` hold them, innermost last.
pub(crate) open spec fn regs_env(locals: Seq<(String, Binding)>, v: Seq<u8>) -> Seq<
    (Seq<char>, u8),
> {
    locals.map_values(
        |p: (String, Binding)|
            (
                p.0@,
                match p.1 {
                    Binding::Reg(t) => v[t as int],
                    _ => 0u8,
                },
            ),
    )
}

/// The names of the variables, innermost last.
pub(crate) open spec fn local_names(locals: Seq<(String, Binding)>) -> Seq<Seq<char>> {
    locals.map_values(|p: (String, Binding)| p.0@)
}

/// Every variable is held in a register below `bound`.
pub(crate) open spec fn locals_below(locals: Seq<(String, Binding)>, bound: int) -> bool {
    forall|i: int| 0 <= i < locals.len() ==> ((#[trigger] locals[i]).1 matches Binding::Reg(t) && t < bound)
}

/// Two register files agree below `bound`.
pub(crate) open spec fn agree_below(u: Seq<u8>, v: Seq<u8>, bound: int) -> bool {
    forall|i: int| 0 <= i < bound ==> u[i] == v[i]
}

/// Registers that agree below the variables' registers hold the same variables.
pub(crate) proof fn lemma_regs_env_agree(
    locals: Seq<(String, Binding)>,
    u: Seq<u8>,
    v: Seq<u8>,
    bound: int,
)
    requires
        locals_below(locals, bound),
        agree_below(u, v, bound),
    ensures
        regs_env(locals, u) == regs_env(locals, v),
{
    assert(regs_env(locals, u) =~= regs_env(locals, v)) by {
        assert forall|i: int| 0 <= i < locals.len() implies regs_env(locals, u)[i] == regs_env(
            locals,
            v,
        )[i] by {
            let p = locals[i];
            if let Binding::Reg(t) = p.1 {
                assert(u[t as int] == v[t as int]);
            }
        }
    }
}

/// A new variable in register `t` extends the variables by its name and `v[t]`.
pub(crate) proof fn lemma_regs_env_push(
    locals: Seq<(String, Binding)>,
    name: String,
    t: u8,
    v: Seq<u8>,
)
    ensures
        regs_env(locals.push((name, Binding::Reg(t))), v) == regs_env(locals, v).push(
            (name@, v[t as int]),
        ),
        local_names(locals.push((name, Binding::Reg(t)))) == local_names(locals).push(name@),
{
    assert(regs_env(locals.push((name, Binding::Reg(t))), v) =~= regs_env(locals, v).push(
        (name@, v[t as int]),
    ));
    assert(local_names(locals.push((name, Binding::Reg(t)))) =~= local_names(locals).push(name@));
}

/// The innermost variable named `x`, at position `i` in register `t`, has the value `v[t]`.
pub(crate) proof fn lemma_lookup_innermost(
    locals: Seq<(String, Binding)>,
    x: Seq<char>,
    i: int,
    t: u8,
    v: Seq<u8>,
)
    requires
        0 <= i < locals.len(),
        locals[i].0@ == x,
        locals[i].1 == Binding::Reg(t),
        forall|j: int| i < j < locals.len() ==> locals[j].0@ != x,
    ensures
        env_lookup(regs_env(locals, v), x) == v[t as int],
    decreases locals.len(),
{
    let env = regs_env(locals, v);
    if i < locals.len() - 1 {
        let inner = locals.drop_last();
        assert(env.drop_last() =~= regs_env(inner, v));
        assert(env.last().0 == locals.last().0@);
        lemma_lookup_innermost(inner, x, i, t, v);
    }
}

// ---------------------------------------------------------------------------
// Code that computes values
// ---------------------------------------------------------------------------

/// The words from `from` to `to` compute the value of `e`, with the variables `locals` as
/// the registers they start from hold them, into `dst`, and keep the registers below `keep`
/// (wherever the code lies below 0x1000, so that its jumps land where they aim).
pub(crate) open spec fn computes(
    b: Seq<u8>,
    from: int,
    to: int,
    keep: int,
    dst: int,
    e: Expr,
    locals: Seq<(String, Binding)>,
) -> bool {
    forall|v: Seq<u8>|
        v.len() == 16 && 0x200 + to < 0x1000 ==> (#[trigger] run_fwd(v, b, from, to) matches Some(
            u,
        ) && u.len() == 16 && u[dst] == reg_value(e, regs_env(locals, v)) && agree_below(u, v, keep))
}

/// The instruction of `+`, `-`, `&&` and `||` on two registers.
pub(crate) open spec fn scalar_opcode(op: BinOp, dst: Register, src: Register) -> Opcode {
    match op {
        BinOp::Add => Opcode::Add(dst, src),
        BinOp::Sub => Opcode::Sub(dst, src),
        BinOp::And => Opcode::And(dst, src),
        _ => Opcode::Or(dst, src),
    }
}

/// The register operands of an instruction name registers V0-VF.
pub(crate) open spec fn operands_in_range(op: Opcode) -> bool {
    match op {
        Opcode::LdImm(x, _) => x.idx() <= 15,
        Opcode::LdReg(x, y) | Opcode::Or(x, y) | Opcode::And(x, y) | Opcode::Xor(x, y)
        | Opcode::Add(x, y) | Opcode::Sub(x, y) => x.idx() <= 15 && y.idx() <= 15,
        _ => true,
    }
}

/// An instruction that computes on registers alone.
pub(crate) open spec fn is_reg_op(op: Opcode) -> bool {
    op is LdImm || op is LdReg || op is Or || op is And || op is Xor || op is Add || op is Sub
}

/// What the register instructions the code generator emits do, word by word.
pub(crate) proof fn lemma_exec_op(v: Seq<u8>, op: Opcode)
    requires
        v.len() == 16,
        operands_in_range(op),
    ensures
        match op {
            Opcode::LdImm(x, k) => exec_word(v, op.word()) == Some(v.update(x.idx() as int, k)),
            Opcode::LdReg(x, y) => exec_word(v, op.word()) == Some(
                v.update(x.idx() as int, v[y.idx() as int]),
            ),
            Opcode::Or(x, y) => exec_word(v, op.word()) == Some(
                v.update(x.idx() as int, v[x.idx() as int] | v[y.idx() as int]),
            ),
            Opcode::And(x, y) => exec_word(v, op.word()) == Some(
                v.update(x.idx() as int, v[x.idx() as int] & v[y.idx() as int]),
            ),
            Opcode::Xor(x, y) => exec_word(v, op.word()) == Some(
                v.update(x.idx() as int, v[x.idx() as int] ^ v[y.idx() as int]),
            ),
            Opcode::Add(x, y) => exec_word(v, op.word()) == Some(
                v.update(15, if v[x.idx() as int] + v[y.idx() as int] > 255 { 1u8 } else { 0u8 }).update(
                    x.idx() as int,
                    ((v[x.idx() as int] + v[y.idx() as int]) % 256) as u8,
                ),
            ),
            Opcode::Sub(x, y) => exec_word(v, op.word()) == Some(
                v.update(15, if v[x.idx() as int] >= v[y.idx() as int] { 1u8 } else { 0u8 }).update(
                    x.idx() as int,
                    ((v[x.idx() as int] - v[y.idx() as int]) % 256) as u8,
                ),
            ),
            _ => true,
        },
        is_reg_op(op) ==> group(op.word()) != 1 && !is_skip(op.word()) && exec_word(v, op.word()) is Some,
{
    match op {
        Opcode::LdImm(x, k) => {
            let xi = x.idx() as int;
            let w = op.word();
            assert(w == 0x6000 + xi * 0x100 + k);
            assert(w / 0x1000 == 6 && (w / 0x100) % 0x10 == xi && w % 0x100 == k) by (nonlinear_arith)
                requires
                    w == 0x6000 + xi * 0x100 + k,
                    0 <= xi <= 15,
                    0 <= k <= 255,
            ;
        },
        Opcode::LdReg(x, y) | Opcode::Or(x, y) | Opcode::And(x, y) | Opcode::Xor(x, y) | Opcode::Add(
            x,
            y,
        ) | Opcode::Sub(x, y) => {
            let xi = x.idx() as int;
            let yi = y.idx() as int;
            let w = op.word();
            let n = w - 0x8000 - xi * 0x100 - yi * 0x10;
            assert(0 <= n <= 5);
            assert(w / 0x1000 == 8 && (w / 0x100) % 0x10 == xi && (w / 0x10) % 0x10 == yi && w
                % 0x10 == n) by (nonlinear_arith)
                requires
                    w == 0x8000 + xi * 0x100 + yi * 0x10 + n,
                    0 <= xi <= 15,
                    0 <= yi <= 15,
                    0 <= n <= 5,
            ;
        },
        _ => {},
    }
}

/// A prefix of a prefix is a prefix.
/// A sequence that starts with another holds its elements at the same places.
pub(crate) proof fn lemma_prefix_elems(a: Seq<u8>, b: Seq<u8>)
    requires
        a.len() <= b.len(),
        b.subrange(0, a.len() as int) == a,
    ensures
        forall|i: int| 0 <= i < a.len() ==> b[i] == a[i],
{
    assert forall|i: int| 0 <= i < a.len() implies b[i] == a[i] by {
        assert(b.subrange(0, a.len() as int)[i] == b[i]);
    }
}

pub(crate) proof fn lemma_prefix_trans(a: Seq<u8>, b: Seq<u8>, c: Seq<u8>)
    requires
        a.len() <= b.len() <= c.len(),
        b.subrange(0, a.len() as int) == a,
        c.subrange(0, b.len() as int) == b,
    ensures
        c.subrange(0, a.len() as int) == a,
        forall|i: int| 0 <= i < b.len() ==> c[i] == b[i],
{
    assert forall|i: int| 0 <= i < b.len() implies c[i] == b[i] by {
        assert(c.subrange(0, b.len() as int)[i] == c[i]);
    }
    assert(c.subrange(0, a.len() as int) =~= a) by {
        assert forall|i: int| 0 <= i < a.len() implies c.subrange(0, a.len() as int)[i] == a[i] by {
            assert(b.subrange(0, a.len() as int)[i] == b[i]);
        }
    }
}

/// A register instruction at `at`, run on its own, has its effect.
pub(crate) proof fn lemma_op_runs(v: Seq<u8>, b: Seq<u8>, at: int, op: Opcode)
    requires
        v.len() == 16,
        operands_in_range(op),
        is_reg_op(op),
        word_at(b, at) == op.word(),
        0 <= at,
        at + 1 < b.len(),
    ensures
        run_fwd(v, b, at, at + 2) == exec_word(v, op.word()),
        exec_word(v, op.word()) is Some,
{
    lemma_exec_op(v, op);
    lemma_fwd_one(v, b, at);
}

/// A computation stays one when the bytes it runs over are the same elsewhere.
pub(crate) proof fn lemma_computes_frame(
    b1: Seq<u8>,
    b2: Seq<u8>,
    a: int,
    c: int,
    keep: int,
    dst: int,
    e: Expr,
    locals: Seq<(String, Binding)>,
)
    requires
        computes(b1, a, c, keep, dst, e, locals),
        0 <= a <= c,
        c <= b1.len(),
        c <= b2.len(),
        forall|i: int| a <= i < c ==> b1[i] == b2[i],
    ensures
        computes(b2, a, c, keep, dst, e, locals),
{
    assert forall|v: Seq<u8>| v.len() == 16 && 0x200 + c < 0x1000 implies (#[trigger] run_fwd(v, b2, a, c) matches Some(u)
        && u.len() == 16 && u[dst] == reg_value(e, regs_env(locals, v)) && agree_below(u, v, keep)) by {
        lemma_fwd_frame(v, b1, b2, a, c);
    }
}

/// A variable needs no code: its value is in its register.
pub(crate) proof fn lemma_ident_computes(
    b: Seq<u8>,
    a: int,
    keep: int,
    e: Expr,
    locals: Seq<(String, Binding)>,
    x: Seq<char>,
    i: int,
    t: u8,
)
    requires
        e.kind matches ExprKind::Ident(name) && name@ == x,
        0 <= i < locals.len(),
        locals[i].0@ == x,
        locals[i].1 == Binding::Reg(t),
        forall|j: int| i < j < locals.len() ==> locals[j].0@ != x,
    ensures
        computes(b, a, a, keep, t as int, e, locals),
{
    assert forall|v: Seq<u8>| v.len() == 16 && 0x200 + a < 0x1000 implies (#[trigger] run_fwd(v, b, a, a) matches Some(u)
        && u.len() == 16 && u[t as int] == reg_value(e, regs_env(locals, v)) && agree_below(u, v, keep)) by {
        lemma_fwd_empty(v, b, a);
        lemma_lookup_innermost(locals, x, i, t, v);
    }
}

/// `LD Vx, k` computes a literal of value `k` into `Vx`.
pub(crate) proof fn lemma_literal_computes(
    b: Seq<u8>,
    at: int,
    x: Register,
    k: u8,
    keep: int,
    e: Expr,
    locals: Seq<(String, Binding)>,
)
    requires
        word_at(b, at) == Opcode::LdImm(x, k).word(),
        0 <= at,
        at + 2 <= b.len(),
        x.idx() <= 14,
        keep <= x.idx(),
        forall|env: Seq<(Seq<char>, u8)>| #[trigger] reg_value(e, env) == k,
    ensures
        computes(b, at, at + 2, keep, x.idx() as int, e, locals),
{
    assert forall|v: Seq<u8>| v.len() == 16 && 0x200 + at + 2 < 0x1000 implies (#[trigger] run_fwd(v, b, at, at + 2) matches Some(u)
        && u.len() == 16 && u[x.idx() as int] == reg_value(e, regs_env(locals, v)) && agree_below(u, v, keep)) by {
        lemma_op_runs(v, b, at, Opcode::LdImm(x, k));
        assert(reg_value(e, regs_env(locals, v)) == k);
    }
}

/// An operand computed into `src`, then `LD res, c` and `op res, src` (`SUB` or `XOR`),
/// computes the unary expression into `res`.
#[verifier::spinoff_prover]
#[verifier::rlimit(60)]
pub(crate) proof fn lemma_unary_computes(
    b: Seq<u8>,
    a: int,
    m: int,
    keep: int,
    src: Register,
    res: Register,
    op: UnaryOp,
    inner: Expr,
    e: Expr,
    locals: Seq<(String, Binding)>,
)
    requires
        0 <= a <= m,
        (m - a) % 2 == 0,
        computes(b, a, m, keep, src.idx() as int, inner, locals),
        m + 4 <= b.len(),
        src.idx() < res.idx() <= 14,
        keep <= res.idx(),
        word_at(b, m) == Opcode::LdImm(res, if op is Neg { 0u8 } else { 1u8 }).word(),
        word_at(b, m + 2) == (if op is Neg { Opcode::Sub(res, src) } else { Opcode::Xor(res, src) }).word(),
        forall|env: Seq<(Seq<char>, u8)>| #[trigger] reg_value(e, env) == unary_value(op, reg_value(inner, env)),
    ensures
        computes(b, a, m + 4, keep, res.idx() as int, e, locals),
{
    let neg = op is Neg;
    let second = if neg { Opcode::Sub(res, src) } else { Opcode::Xor(res, src) };
    assert forall|v: Seq<u8>| v.len() == 16 && 0x200 + m + 4 < 0x1000 implies (#[trigger] run_fwd(v, b, a, m + 4) matches Some(u)
        && u.len() == 16 && u[res.idx() as int] == reg_value(e, regs_env(locals, v)) && agree_below(u, v, keep)) by {
        lemma_fwd_seq(v, b, a, m, m + 4);
        let u1 = run_fwd(v, b, a, m)->0;
        lemma_op_runs(u1, b, m, Opcode::LdImm(res, if neg { 0u8 } else { 1u8 }));
        lemma_fwd_seq(u1, b, m, m + 2, m + 4);
        let u2 = u1.update(res.idx() as int, if neg { 0u8 } else { 1u8 });
        lemma_op_runs(u2, b, m + 2, second);
        assert(u2[src.idx() as int] == reg_value(inner, regs_env(locals, v)));
        assert(reg_value(e, regs_env(locals, v)) == unary_value(op, reg_value(inner, regs_env(locals, v))));
    }
}

/// Operands computed into `l` and then into `r` (which keeps `l`): both values at once.
pub(crate) proof fn lemma_operands(
    b: Seq<u8>,
    a: int,
    m: int,
    n: int,
    keep: int,
    keep2: int,
    l: Register,
    r: Register,
    lhs: Expr,
    rhs: Expr,
    locals: Seq<(String, Binding)>,
    v: Seq<u8>,
)
    requires
        v.len() == 16,
        a <= m <= n,
        0x200 + n < 0x1000,
        computes(b, a, m, keep, l.idx() as int, lhs, locals),
        computes(b, m, n, keep2, r.idx() as int, rhs, locals),
        locals_below(locals, keep),
        l.idx() < keep2,
        keep <= keep2,
    ensures
        run_fwd(v, b, a, n) matches Some(u) && u.len() == 16 && agree_below(u, v, keep)
            && u[l.idx() as int] == reg_value(lhs, regs_env(locals, v)) && u[r.idx() as int]
            == reg_value(rhs, regs_env(locals, v)),
{
    assert(run_fwd(v, b, a, m) is Some);
    lemma_fwd_seq(v, b, a, m, n);
    let u1 = run_fwd(v, b, a, m)->0;
    lemma_regs_env_agree(locals, u1, v, keep);
    assert(run_fwd(u1, b, m, n) is Some);
    let u2 = run_fwd(u1, b, m, n)->0;
    assert(agree_below(u2, v, keep)) by {
        assert forall|i: int| 0 <= i < keep implies u2[i] == v[i] by {
            assert(u2[i] == u1[i]);
        }
    }
}

/// `LD c, l` then `op c, r`: the operator's result in `c`, the registers below `c` kept.
#[verifier::spinoff_prover]
#[verifier::rlimit(60)]
pub(crate) proof fn lemma_copy_then_op(
    u: Seq<u8>,
    b: Seq<u8>,
    n: int,
    l: Register,
    r: Register,
    c: Register,
    op: BinOp,
)
    requires
        u.len() == 16,
        0 <= n,
        n + 4 <= b.len(),
        l.idx() <= 15,
        r.idx() < c.idx() <= 14,
        l.idx() < c.idx(),
        op is Add || op is Sub || op is And || op is Or,
        word_at(b, n) == Opcode::LdReg(c, l).word(),
        word_at(b, n + 2) == scalar_opcode(op, c, r).word(),
    ensures
        run_fwd(u, b, n, n + 4) matches Some(w) && w.len() == 16 && w[c.idx() as int]
            == binary_value(op, u[l.idx() as int], u[r.idx() as int]) && agree_below(w, u, c.idx() as int),
{
    lemma_op_runs(u, b, n, Opcode::LdReg(c, l));
    lemma_fwd_seq(u, b, n, n + 2, n + 4);
    let u3 = u.update(c.idx() as int, u[l.idx() as int]);
    assert(u3[r.idx() as int] == u[r.idx() as int]);
    match op {
        BinOp::Add => lemma_op_runs(u3, b, n + 2, Opcode::Add(c, r)),
        BinOp::Sub => lemma_op_runs(u3, b, n + 2, Opcode::Sub(c, r)),
        BinOp::And => lemma_op_runs(u3, b, n + 2, Opcode::And(c, r)),
        _ => lemma_op_runs(u3, b, n + 2, Opcode::Or(c, r)),
    }
}

/// Operands computed into `l` and then into `r`, then `op l, r`: the result in `l`.
#[verifier::spinoff_prover]
#[verifier::rlimit(60)]
pub(crate) proof fn lemma_binary_in_place(
    b: Seq<u8>,
    a: int,
    m: int,
    n: int,
    keep: int,
    keep2: int,
    l: Register,
    r: Register,
    op: BinOp,
    lhs: Expr,
    rhs: Expr,
    e: Expr,
    locals: Seq<(String, Binding)>,
)
    requires
        0 <= a <= m <= n,
        (m - a) % 2 == 0,
        (n - m) % 2 == 0,
        computes(b, a, m, keep, l.idx() as int, lhs, locals),
        computes(b, m, n, keep2, r.idx() as int, rhs, locals),
        n + 2 <= b.len(),
        locals_below(locals, keep),
        keep <= l.idx() < keep2,
        l.idx() <= 14,
        r.idx() <= 14,
        op is Add || op is Sub || op is And || op is Or,
        word_at(b, n) == scalar_opcode(op, l, r).word(),
        forall|env: Seq<(Seq<char>, u8)>| #[trigger] reg_value(e, env) == binary_value(
            op,
            reg_value(lhs, env),
            reg_value(rhs, env),
        ),
    ensures
        computes(b, a, n + 2, keep, l.idx() as int, e, locals),
{
    assert forall|v: Seq<u8>| v.len() == 16 && 0x200 + n + 2 < 0x1000 implies (#[trigger] run_fwd(v, b, a, n + 2) matches Some(u)
        && u.len() == 16 && u[l.idx() as int] == reg_value(e, regs_env(locals, v)) && agree_below(
        u,
        v,
        keep,
    )) by {
        lemma_operands(b, a, m, n, keep, keep2, l, r, lhs, rhs, locals, v);
        lemma_fwd_seq(v, b, a, n, n + 2);
        let u2 = run_fwd(v, b, a, n)->0;
        match op {
            BinOp::Add => lemma_op_runs(u2, b, n, Opcode::Add(l, r)),
            BinOp::Sub => lemma_op_runs(u2, b, n, Opcode::Sub(l, r)),
            BinOp::And => lemma_op_runs(u2, b, n, Opcode::And(l, r)),
            _ => lemma_op_runs(u2, b, n, Opcode::Or(l, r)),
        }
        assert(reg_value(e, regs_env(locals, v)) == binary_value(
            op,
            reg_value(lhs, regs_env(locals, v)),
            reg_value(rhs, regs_env(locals, v)),
        ));
    }
}

/// Operands computed into `l` (a variable's register) and `r`, then `LD c, l` and
/// `op c, r`: the result in the fresh register `c`.
#[verifier::spinoff_prover]
#[verifier::rlimit(60)]
pub(crate) proof fn lemma_binary_copied(
    b: Seq<u8>,
    a: int,
    m: int,
    n: int,
    keep: int,
    keep2: int,
    l: Register,
    r: Register,
    c: Register,
    op: BinOp,
    lhs: Expr,
    rhs: Expr,
    e: Expr,
    locals: Seq<(String, Binding)>,
)
    requires
        0 <= a <= m <= n,
        (m - a) % 2 == 0,
        (n - m) % 2 == 0,
        computes(b, a, m, keep, l.idx() as int, lhs, locals),
        computes(b, m, n, keep2, r.idx() as int, rhs, locals),
        n + 4 <= b.len(),
        locals_below(locals, keep),
        l.idx() < keep2,
        keep <= keep2,
        r.idx() < c.idx() <= 14,
        l.idx() < c.idx(),
        keep <= c.idx(),
        op is Add || op is Sub || op is And || op is Or,
        word_at(b, n) == Opcode::LdReg(c, l).word(),
        word_at(b, n + 2) == scalar_opcode(op, c, r).word(),
        forall|env: Seq<(Seq<char>, u8)>| #[trigger] reg_value(e, env) == binary_value(
            op,
            reg_value(lhs, env),
            reg_value(rhs, env),
        ),
    ensures
        computes(b, a, n + 4, keep, c.idx() as int, e, locals),
{
    assert forall|v: Seq<u8>| v.len() == 16 && 0x200 + n + 4 < 0x1000 implies (#[trigger] run_fwd(v, b, a, n + 4) matches Some(u)
        && u.len() == 16 && u[c.idx() as int] == reg_value(e, regs_env(locals, v)) && agree_below(
        u,
        v,
        keep,
    )) by {
        lemma_operands(b, a, m, n, keep, keep2, l, r, lhs, rhs, locals, v);
        lemma_fwd_seq(v, b, a, n, n + 4);
        let u2 = run_fwd(v, b, a, n)->0;
        lemma_copy_then_op(u2, b, n, l, r, c, op);
        assert(reg_value(e, regs_env(locals, v)) == binary_value(
            op,
            reg_value(lhs, regs_env(locals, v)),
            reg_value(rhs, regs_env(locals, v)),
        ));
    }
}

/// A value computed into `reg`, then copied to `dst` unless it is there already: the
/// value in `dst`.
pub(crate) proof fn lemma_then_move(
    b: Seq<u8>,
    a: int,
    m: int,
    c: int,
    keep: int,
    reg: Register,
    dst: Register,
    e: Expr,
    locals: Seq<(String, Binding)>,
)
    requires
        computes(b, a, m, keep, reg.idx() as int, e, locals),
        0 <= a <= m <= c <= b.len(),
        reg.idx() != dst.idx() ==> c == m + 2 && word_at(b, m) == Opcode::LdReg(dst, reg).word(),
        reg.idx() == dst.idx() ==> c == m,
        reg.idx() <= 15,
        dst.idx() <= 14,
        keep <= dst.idx(),
    ensures
        computes(b, a, c, keep, dst.idx() as int, e, locals),
{
    assert forall|v: Seq<u8>| v.len() == 16 && 0x200 + c < 0x1000 implies (#[trigger] run_fwd(v, b, a, c) matches Some(u)
        && u.len() == 16 && u[dst.idx() as int] == reg_value(e, regs_env(locals, v)) && agree_below(
        u,
        v,
        keep,
    )) by {
        assert(run_fwd(v, b, a, m) is Some);
        lemma_fwd_seq(v, b, a, m, c);
        let u1 = run_fwd(v, b, a, m)->0;
        if reg.idx() != dst.idx() {
            lemma_op_runs(u1, b, m, Opcode::LdReg(dst, reg));
        } else {
            lemma_fwd_empty(u1, b, m);
        }
    }
}

/// What the skip instructions the code generator emits test.
pub(crate) proof fn lemma_skip_op(v: Seq<u8>, op: Opcode)
    requires
        v.len() == 16,
        match op {
            Opcode::SeImm(x, _) | Opcode::SneImm(x, _) => x.idx() <= 15,
            Opcode::SeReg(x, y) | Opcode::SneReg(x, y) => x.idx() <= 15 && y.idx() <= 15,
            _ => false,
        },
    ensures
        is_skip(op.word()),
        group(op.word()) != 1,
        match op {
            Opcode::SeImm(x, k) => skips(v, op.word()) == (v[x.idx() as int] == k),
            Opcode::SneImm(x, k) => skips(v, op.word()) == (v[x.idx() as int] != k),
            Opcode::SeReg(x, y) => skips(v, op.word()) == (v[x.idx() as int] == v[y.idx() as int]),
            Opcode::SneReg(x, y) => skips(v, op.word()) == (v[x.idx() as int] != v[y.idx() as int]),
            _ => true,
        },
{
    match op {
        Opcode::SeImm(x, k) | Opcode::SneImm(x, k) => {
            let xi = x.idx() as int;
            let w = op.word();
            let g: int = if op is SeImm { 3 } else { 4 };
            assert(w == g * 0x1000 + xi * 0x100 + k);
            assert(w / 0x1000 == g && (w / 0x100) % 0x10 == xi && w % 0x100 == k && 0 <= w < 0x10000)
                by (nonlinear_arith)
                requires
                    w == g * 0x1000 + xi * 0x100 + k,
                    3 <= g <= 4,
                    0 <= xi <= 15,
                    0 <= k <= 255,
            ;
        },
        Opcode::SeReg(x, y) | Opcode::SneReg(x, y) => {
            let xi = x.idx() as int;
            let yi = y.idx() as int;
            let w = op.word();
            let g: int = if op is SeReg { 5 } else { 9 };
            assert(w == g * 0x1000 + xi * 0x100 + yi * 0x10);
            assert(w / 0x1000 == g && (w / 0x100) % 0x10 == xi && (w / 0x10) % 0x10 == yi && w % 0x10
                == 0 && 0 <= w < 0x10000) by (nonlinear_arith)
                requires
                    w == g * 0x1000 + xi * 0x100 + yi * 0x10,
                    5 <= g <= 9,
                    0 <= xi <= 15,
                    0 <= yi <= 15,
            ;
        },
        _ => {},
    }
}

/// `LD c, 0`, a skip on `l` and `r` (`SE` for `==`, `SNE` for `!=`), a jump over the
/// next word, `LD c, 1`: `c` holds 1 exactly when the test holds.
#[verifier::spinoff_prover]
pub(crate) proof fn lemma_eq_runs(
    u: Seq<u8>,
    b: Seq<u8>,
    n: int,
    l: Register,
    r: Register,
    c: Register,
    neg: bool,
)
    requires
        u.len() == 16,
        0 <= n,
        n + 8 <= b.len(),
        0x200 + n + 8 < 0x1000,
        l.idx() <= 15,
        r.idx() <= 15,
        c.idx() <= 14,
        l.idx() != c.idx(),
        r.idx() != c.idx(),
        word_at(b, n) == Opcode::LdImm(c, 0).word(),
        word_at(b, n + 2) == (if neg { Opcode::SneReg(l, r) } else { Opcode::SeReg(l, r) }).word(),
        word_at(b, n + 4) == 0x1200 + n + 8,
        word_at(b, n + 6) == Opcode::LdImm(c, 1).word(),
    ensures
        run_fwd(u, b, n, n + 8) matches Some(w) && w.len() == 16 && agree_below(
            w,
            u,
            c.idx() as int,
        ) && w[c.idx() as int] == (if (u[l.idx() as int] == u[r.idx() as int]) != neg {
            1u8
        } else {
            0u8
        }),
{
    let test = if neg { Opcode::SneReg(l, r) } else { Opcode::SeReg(l, r) };
    lemma_op_runs(u, b, n, Opcode::LdImm(c, 0));
    lemma_fwd_seq(u, b, n, n + 2, n + 8);
    let u1 = u.update(c.idx() as int, 0u8);
    lemma_skip_op(u1, test);
    lemma_fwd_step(u1, b, n + 2, n + 8);
    if skips(u1, test.word()) {
        lemma_op_runs(u1, b, n + 6, Opcode::LdImm(c, 1));
    } else {
        assert(group(0x1200 + n + 8) == 1);
        assert(step(b, n + 4, u1) == Some((n + 8, u1)));
        lemma_fwd_step(u1, b, n + 4, n + 8);
        lemma_fwd_empty(u1, b, n + 8);
    }
}

/// `LD c, x`, `SUB c, y`, `LD c, 1 - g`, `SE VF, 0`, `LD c, g`: `c` holds `g` when
/// `x >= y` and `1 - g` otherwise.
#[verifier::spinoff_prover]
pub(crate) proof fn lemma_order_runs(
    u: Seq<u8>,
    b: Seq<u8>,
    n: int,
    x: Register,
    y: Register,
    c: Register,
    g: u8,
)
    requires
        u.len() == 16,
        0 <= n,
        n + 10 <= b.len(),
        x.idx() <= 15,
        y.idx() <= 15,
        c.idx() <= 14,
        y.idx() != c.idx(),
        g <= 1,
        word_at(b, n) == Opcode::LdReg(c, x).word(),
        word_at(b, n + 2) == Opcode::Sub(c, y).word(),
        word_at(b, n + 4) == Opcode::LdImm(c, (1 - g) as u8).word(),
        word_at(b, n + 6) == Opcode::SeImm(Register::Flag, 0).word(),
        word_at(b, n + 8) == Opcode::LdImm(c, g).word(),
    ensures
        run_fwd(u, b, n, n + 10) matches Some(w) && w.len() == 16 && agree_below(
            w,
            u,
            c.idx() as int,
        ) && w[c.idx() as int] == (if u[x.idx() as int] >= u[y.idx() as int] {
            g
        } else {
            (1 - g) as u8
        }),
{
    let ci = c.idx() as int;
    lemma_op_runs(u, b, n, Opcode::LdReg(c, x));
    lemma_fwd_seq(u, b, n, n + 2, n + 10);
    let u1 = u.update(ci, u[x.idx() as int]);
    lemma_op_runs(u1, b, n + 2, Opcode::Sub(c, y));
    lemma_fwd_seq(u1, b, n + 2, n + 4, n + 10);
    let ge: u8 = if u1[ci] >= u1[y.idx() as int] { 1 } else { 0 };
    let u2 = u1.update(15, ge).update(ci, ((u1[ci] - u1[y.idx() as int]) % 256) as u8);
    lemma_op_runs(u2, b, n + 4, Opcode::LdImm(c, (1 - g) as u8));
    lemma_fwd_seq(u2, b, n + 4, n + 6, n + 10);
    let u3 = u2.update(ci, (1 - g) as u8);
    assert(u3[15] == ge);
    lemma_skip_op(u3, Opcode::SeImm(Register::Flag, 0));
    lemma_fwd_step(u3, b, n + 6, n + 10);
    if ge == 0 {
        lemma_fwd_empty(u3, b, n + 10);
    } else {
        lemma_op_runs(u3, b, n + 8, Opcode::LdImm(c, g));
    }
}

/// The register compared first by the code of `<`, `>`, `<=`, `>=` (which tests `x >= y`
/// and gives 1 when it fails).
pub(crate) open spec fn order_x(op: BinOp, l: Register, r: Register) -> Register {
    match op {
        BinOp::Lt | BinOp::LtEq => l,
        _ => r,
    }
}

/// The register compared second by the code of `<`, `>`, `<=`, `>=`.
pub(crate) open spec fn order_y(op: BinOp, l: Register, r: Register) -> Register {
    match op {
        BinOp::Lt | BinOp::LtEq => r,
        _ => l,
    }
}

/// Operands computed into `l` and `r`, then a comparison's code into the fresh register
/// `c`: the comparison's value.
#[verifier::spinoff_prover]
#[verifier::rlimit(60)]
pub(crate) proof fn lemma_comparison_computes(
    b: Seq<u8>,
    a: int,
    m: int,
    n: int,
    end: int,
    keep: int,
    keep2: int,
    l: Register,
    r: Register,
    c: Register,
    op: BinOp,
    lhs: Expr,
    rhs: Expr,
    e: Expr,
    locals: Seq<(String, Binding)>,
)
    requires
        0 <= a <= m <= n,
        computes(b, a, m, keep, l.idx() as int, lhs, locals),
        computes(b, m, n, keep2, r.idx() as int, rhs, locals),
        locals_below(locals, keep),
        l.idx() < keep2,
        keep <= keep2,
        l.idx() < c.idx() <= 14,
        r.idx() < c.idx(),
        keep <= c.idx(),
        is_comparison(op),
        end <= b.len(),
        op is Eq || op is NotEq ==> {
            &&& end == n + 8
            &&& word_at(b, n) == Opcode::LdImm(c, 0).word()
            &&& word_at(b, n + 2) == (if op is NotEq {
                Opcode::SneReg(l, r)
            } else {
                Opcode::SeReg(l, r)
            }).word()
            &&& word_at(b, n + 4) == 0x1000 + addr_of_spec(
                0x200usize.saturating_add(((n + 4) as usize).saturating_add(4)),
            )
            &&& word_at(b, n + 6) == Opcode::LdImm(c, 1).word()
        },
        !(op is Eq || op is NotEq) ==> {
            &&& end == n + 10
            &&& word_at(b, n) == Opcode::LdReg(c, order_x(op, l, r)).word()
            &&& word_at(b, n + 2) == Opcode::Sub(c, order_y(op, l, r)).word()
            &&& word_at(b, n + 4) == Opcode::LdImm(c, 1).word()
            &&& word_at(b, n + 6) == Opcode::SeImm(Register::Flag, 0).word()
            &&& word_at(b, n + 8) == Opcode::LdImm(c, 0).word()
        },
        forall|env: Seq<(Seq<char>, u8)>| #[trigger] reg_value(e, env) == binary_value(
            op,
            reg_value(lhs, env),
            reg_value(rhs, env),
        ),
    ensures
        computes(b, a, end, keep, c.idx() as int, e, locals),
{
    assert forall|v: Seq<u8>| v.len() == 16 && 0x200 + end < 0x1000 implies (#[trigger] run_fwd(
        v,
        b,
        a,
        end,
    ) matches Some(w) && w.len() == 16 && w[c.idx() as int] == reg_value(e, regs_env(locals, v))
        && agree_below(w, v, keep)) by {
        let env = regs_env(locals, v);
        lemma_operands(b, a, m, n, keep, keep2, l, r, lhs, rhs, locals, v);
        lemma_fwd_seq(v, b, a, n, end);
        let u = run_fwd(v, b, a, n)->0;
        assert(reg_value(e, env) == binary_value(op, reg_value(lhs, env), reg_value(rhs, env)));
        if op is Eq || op is NotEq {
            assert(0x200usize.saturating_add(((n + 4) as usize).saturating_add(4)) == 0x200 + n + 8);
            lemma_eq_runs(u, b, n, l, r, c, op is NotEq);
        } else {
            lemma_order_runs(u, b, n, order_x(op, l, r), order_y(op, l, r), c, 0);
        }
        let w = run_fwd(v, b, a, end)->0;
        assert(agree_below(w, v, keep)) by {
            assert forall|i: int| 0 <= i < keep implies w[i] == v[i] by {
                assert(w[i] == u[i]);
            }
        }
    }
}

/// A jump word to byte `to` of the code jumps there, when the code lies below 0x1000.
pub(crate) proof fn lemma_jump_lands(v: Seq<u8>, b: Seq<u8>, at: int, to: int)
    requires
        0 <= at,
        at + 1 < to,
        at + 1 < b.len(),
        0x200 + to < 0x1000,
        word_at(b, at) == 0x1000 + addr_of_spec(0x200usize.saturating_add(to as usize)),
    ensures
        run_fwd(v, b, at, to) == run_fwd(v, b, to, to),
        step(b, at, v) == Some((to, v)),
{
    assert(0x200usize.saturating_add(to as usize) == 0x200 + to);
    assert(group(word_at(b, at)) == 1);
    assert(step(b, at, v) == Some((to, v)));
    lemma_fwd_step(v, b, at, to);
}

/// A branch's code from `from` to `mid`, then a copy of its value from `reg` to `t` unless
/// it is there already, run on registers `u`: the value in `t`, the registers below `t`
/// kept.
pub(crate) proof fn lemma_branch_runs(
    u: Seq<u8>,
    b: Seq<u8>,
    from: int,
    mid: int,
    to: int,
    t: Register,
    reg: Register,
    e: Expr,
    locals: Seq<(String, Binding)>,
)
    requires
        u.len() == 16,
        0 <= from <= mid <= to,
        to <= b.len(),
        0x200 + to < 0x1000,
        computes(b, from, mid, t.idx() + 1, reg.idx() as int, e, locals),
        reg.idx() <= 15,
        t.idx() <= 14,
        reg.idx() != t.idx() ==> to == mid + 2 && word_at(b, mid) == Opcode::LdReg(t, reg).word(),
        reg.idx() == t.idx() ==> to == mid,
    ensures
        run_fwd(u, b, from, to) matches Some(w) && w.len() == 16 && w[t.idx() as int]
            == reg_value(e, regs_env(locals, u)) && agree_below(w, u, t.idx() as int),
{
    assert(run_fwd(u, b, from, mid) is Some);
    lemma_fwd_seq(u, b, from, mid, to);
    let u1 = run_fwd(u, b, from, mid)->0;
    if reg.idx() != t.idx() {
        lemma_op_runs(u1, b, mid, Opcode::LdReg(t, reg));
    } else {
        lemma_fwd_empty(u1, b, mid);
    }
}

/// The code of `if cond { th } else { el }`: the condition into `c`, `SNE c, 0`, a jump to
/// the `else` branch at `j + 2`, the `then` branch and a copy of its value to `t`, a jump to
/// the end, the `else` branch and a copy of its value to `t`. It computes the `if` into `t`.
#[verifier::spinoff_prover]
#[verifier::rlimit(60)]
pub(crate) proof fn lemma_if_computes(
    b: Seq<u8>,
    a: int,
    m: int,
    p1: int,
    j: int,
    p2: int,
    end: int,
    keep: int,
    c: Register,
    t: Register,
    r1: Register,
    r2: Register,
    cond: Expr,
    th: Expr,
    el: Expr,
    e: Expr,
    locals: Seq<(String, Binding)>,
)
    requires
        0 <= a <= m,
        m + 4 <= p1 <= j,
        j + 2 <= p2 <= end,
        end <= b.len(),
        computes(b, a, m, keep, c.idx() as int, cond, locals),
        computes(b, m + 4, p1, t.idx() + 1, r1.idx() as int, th, locals),
        computes(b, j + 2, p2, t.idx() + 1, r2.idx() as int, el, locals),
        locals_below(locals, keep),
        keep <= t.idx() <= 14,
        c.idx() < t.idx(),
        r1.idx() <= 15,
        r2.idx() <= 15,
        r1.idx() != t.idx() ==> j == p1 + 2 && word_at(b, p1) == Opcode::LdReg(t, r1).word(),
        r1.idx() == t.idx() ==> j == p1,
        r2.idx() != t.idx() ==> end == p2 + 2 && word_at(b, p2) == Opcode::LdReg(t, r2).word(),
        r2.idx() == t.idx() ==> end == p2,
        word_at(b, m) == Opcode::SneImm(c, 0).word(),
        word_at(b, m + 2) == 0x1000 + addr_of_spec(0x200usize.saturating_add((j + 2) as usize)),
        word_at(b, j) == 0x1000 + addr_of_spec(0x200usize.saturating_add(end as usize)),
        forall|env: Seq<(Seq<char>, u8)>| #[trigger] reg_value(e, env) == if reg_value(cond, env)
            != 0 {
            reg_value(th, env)
        } else {
            reg_value(el, env)
        },
    ensures
        computes(b, a, end, keep, t.idx() as int, e, locals),
{
    assert forall|v: Seq<u8>| v.len() == 16 && 0x200 + end < 0x1000 implies (#[trigger] run_fwd(
        v,
        b,
        a,
        end,
    ) matches Some(w) && w.len() == 16 && w[t.idx() as int] == reg_value(e, regs_env(locals, v))
        && agree_below(w, v, keep)) by {
        let env = regs_env(locals, v);
        assert(run_fwd(v, b, a, m) is Some);
        lemma_fwd_seq(v, b, a, m, end);
        let u1 = run_fwd(v, b, a, m)->0;
        lemma_regs_env_agree(locals, u1, v, keep);
        let test = Opcode::SneImm(c, 0);
        lemma_skip_op(u1, test);
        assert(step(b, m, u1) == Some((if skips(u1, test.word()) { m + 4 } else { m + 2 }, u1)));
        lemma_fwd_step(u1, b, m, end);
        assert(reg_value(e, env) == if reg_value(cond, env) != 0 {
            reg_value(th, env)
        } else {
            reg_value(el, env)
        });
        if skips(u1, test.word()) {
            lemma_branch_runs(u1, b, m + 4, p1, j, t, r1, th, locals);
            lemma_fwd_seq(u1, b, m + 4, j, end);
            let u2 = run_fwd(u1, b, m + 4, j)->0;
            lemma_jump_lands(u2, b, j, end);
            lemma_fwd_empty(u2, b, end);
            assert(agree_below(u2, v, keep)) by {
                assert forall|i: int| 0 <= i < keep implies u2[i] == v[i] by {
                    assert(u2[i] == u1[i]);
                }
            }
        } else {
            lemma_jump_lands(u1, b, m + 2, j + 2);
            lemma_fwd_step(u1, b, m + 2, end);
            lemma_branch_runs(u1, b, j + 2, p2, end, t, r2, el, locals);
            let u2 = run_fwd(u1, b, j + 2, end)->0;
            assert(agree_below(u2, v, keep)) by {
                assert forall|i: int| 0 <= i < keep implies u2[i] == v[i] by {
                    assert(u2[i] == u1[i]);
                }
            }
        }
    }
}

/// The code of the `i`-th arm of a `match`, not the last: `SE s, p` on its pattern `p`, a
/// jump to the next arm at `jes[i] + 2`, the arm's body from `hs[i] + 4` to `ps[i]` into
/// `rs[i]`, and a copy of its value to `t` unless it is there already; the jump to the end
/// of the `match` is at `jes[i]`.
pub(crate) open spec fn arm_code(
    b: Seq<u8>,
    arms: Seq<MatchArm>,
    hs: Seq<int>,
    ps: Seq<int>,
    jes: Seq<usize>,
    rs: Seq<Register>,
    i: int,
    s: Register,
    t: Register,
    locals: Seq<(String, Binding)>,
) -> bool {
    let h = hs[i];
    let p = ps[i];
    let je = jes[i] as int;
    let r = rs[i];
    &&& arms[i].pattern.kind matches ExprKind::IntLiteral(pv) && word_at(b, h) == Opcode::SeImm(
        s,
        pv as u8,
    ).word()
    &&& word_at(b, h + 2) == 0x1000 + addr_of_spec(0x200usize.saturating_add((je + 2) as usize))
    &&& 0 <= h
    &&& h + 4 <= p <= je
    &&& je + 2 <= b.len()
    &&& computes(b, h + 4, p, t.idx() + 1, r.idx() as int, arms[i].body, locals)
    &&& r.idx() <= 15
    &&& r.idx() != t.idx() ==> je == p + 2 && word_at(b, p) == Opcode::LdReg(t, r).word()
    &&& r.idx() == t.idx() ==> je == p
}

/// An arm's code stays in place when the bytes from its start to its jump to the end do
/// (and the positions recorded for it are the same).
pub(crate) proof fn lemma_arm_code_frame(
    b1: Seq<u8>,
    b2: Seq<u8>,
    arms: Seq<MatchArm>,
    hs1: Seq<int>,
    ps1: Seq<int>,
    jes1: Seq<usize>,
    rs1: Seq<Register>,
    hs2: Seq<int>,
    ps2: Seq<int>,
    jes2: Seq<usize>,
    rs2: Seq<Register>,
    i: int,
    s: Register,
    t: Register,
    locals: Seq<(String, Binding)>,
)
    requires
        arm_code(b1, arms, hs1, ps1, jes1, rs1, i, s, t, locals),
        hs2[i] == hs1[i],
        ps2[i] == ps1[i],
        jes2[i] == jes1[i],
        rs2[i] == rs1[i],
        jes1[i] + 2 <= b2.len(),
        forall|x: int| hs1[i] <= x < jes1[i] ==> b1[x] == b2[x],
    ensures
        arm_code(b2, arms, hs2, ps2, jes2, rs2, i, s, t, locals),
{
    let h = hs1[i];
    let p = ps1[i];
    lemma_computes_frame(b1, b2, h + 4, p, t.idx() + 1, rs1[i].idx() as int, arms[i].body, locals);
    assert(word_at(b1, h) == word_at(b2, h));
    assert(word_at(b1, h + 2) == word_at(b2, h + 2));
    if rs1[i].idx() != t.idx() {
        assert(word_at(b1, p) == word_at(b2, p));
    }
}

/// The first `k` arms of a `match` laid out after the code `pre`: each arm's code, each
/// arm starting right after the jump to the end of the one before, the starts in order.
pub(crate) open spec fn arms_laid(
    b: Seq<u8>,
    arms: Seq<MatchArm>,
    hs: Seq<int>,
    ps: Seq<int>,
    jes: Seq<usize>,
    rs: Seq<Register>,
    k: int,
    pre: Seq<u8>,
    s: Register,
    t: Register,
    locals: Seq<(String, Binding)>,
) -> bool {
    &&& 0 <= k
    &&& jes.len() >= k
    &&& hs.len() >= k + 1
    &&& ps.len() >= k
    &&& rs.len() >= k
    &&& hs[0] == pre.len()
    &&& pre.len() <= b.len()
    &&& b.subrange(0, pre.len() as int) == pre
    &&& hs[k] <= b.len()
    &&& forall|i: int| 0 <= i < k ==> #[trigger] arm_code(b, arms, hs, ps, jes, rs, i, s, t, locals)
    &&& forall|i: int| 0 <= i < k ==> hs[i + 1] == #[trigger] jes[i] + 2
    &&& forall|i: int, j: int| 0 <= i <= j <= k ==> hs[i] <= hs[j]
}

/// Laid-out arms stay so when the bytes before the `k`-th arm's start do.
pub(crate) proof fn lemma_arms_laid_frame(
    b1: Seq<u8>,
    b2: Seq<u8>,
    arms: Seq<MatchArm>,
    hs: Seq<int>,
    ps: Seq<int>,
    jes: Seq<usize>,
    rs: Seq<Register>,
    k: int,
    pre: Seq<u8>,
    s: Register,
    t: Register,
    locals: Seq<(String, Binding)>,
)
    requires
        arms_laid(b1, arms, hs, ps, jes, rs, k, pre, s, t, locals),
        hs[k] <= b2.len(),
        forall|x: int| 0 <= x < hs[k] ==> b1[x] == b2[x],
    ensures
        arms_laid(b2, arms, hs, ps, jes, rs, k, pre, s, t, locals),
{
    assert forall|i: int| 0 <= i < k implies #[trigger] arm_code(b2, arms, hs, ps, jes, rs, i, s, t, locals) by {
        assert(arm_code(b1, arms, hs, ps, jes, rs, i, s, t, locals));
        assert(hs[i + 1] == jes[i] + 2);
        assert(hs[i + 1] <= hs[k]);
        lemma_arm_code_frame(b1, b2, arms, hs, ps, jes, rs, hs, ps, jes, rs, i, s, t, locals);
    }
    assert(b2.subrange(0, pre.len() as int) =~= pre) by {
        assert forall|x: int| 0 <= x < pre.len() implies b2.subrange(0, pre.len() as int)[x] == pre[x] by {
            assert(hs[0] <= hs[k]);
            assert(b1.subrange(0, pre.len() as int)[x] == b1[x]);
        }
    }
}

/// One more arm laid out at the end of the others.
pub(crate) proof fn lemma_arms_laid_push(
    b: Seq<u8>,
    arms: Seq<MatchArm>,
    hs: Seq<int>,
    ps: Seq<int>,
    jes: Seq<usize>,
    rs: Seq<Register>,
    k: int,
    pre: Seq<u8>,
    s: Register,
    t: Register,
    locals: Seq<(String, Binding)>,
    next: int,
    p: int,
    je: usize,
    r: Register,
)
    requires
        arms_laid(b, arms, hs, ps, jes, rs, k, pre, s, t, locals),
        hs.len() == k + 1,
        ps.len() == k,
        jes.len() == k,
        rs.len() == k,
        arm_code(b, arms, hs.push(next), ps.push(p), jes.push(je), rs.push(r), k, s, t, locals),
        next == je + 2,
        next <= b.len(),
    ensures
        arms_laid(b, arms, hs.push(next), ps.push(p), jes.push(je), rs.push(r), k + 1, pre, s, t, locals),
{
    let hs2 = hs.push(next);
    let ps2 = ps.push(p);
    let jes2 = jes.push(je);
    let rs2 = rs.push(r);
    assert forall|i: int| 0 <= i < k + 1 implies #[trigger] arm_code(b, arms, hs2, ps2, jes2, rs2, i, s, t, locals) by {
        if i < k {
            assert(arm_code(b, arms, hs, ps, jes, rs, i, s, t, locals));
            lemma_arm_code_frame(b, b, arms, hs, ps, jes, rs, hs2, ps2, jes2, rs2, i, s, t, locals);
        }
    }
    assert forall|i: int| 0 <= i < k + 1 implies hs2[i + 1] == #[trigger] jes2[i] + 2 by {
        if i < k {
            assert(hs[i + 1] == jes[i] + 2);
        }
    }
    assert forall|i: int, j: int| 0 <= i <= j <= k + 1 implies hs2[i] <= hs2[j] by {
        if j == k + 1 && i <= k {
            assert(hs[i] <= hs[k]);
        }
    }
}

/// The arms of a `match` laid out, then the last arm from `hs[last]` to `pl` into `rl` and a
/// copy of its value to `t`, up to `end`; the jumps to the end of the first `k` arms filled
/// in.
pub(crate) open spec fn ends_patched(
    b: Seq<u8>,
    arms: Seq<MatchArm>,
    hs: Seq<int>,
    ps: Seq<int>,
    jes: Seq<usize>,
    rs: Seq<Register>,
    k: int,
    pre: Seq<u8>,
    s: Register,
    t: Register,
    locals: Seq<(String, Binding)>,
    pl: int,
    rl: Register,
    end: int,
) -> bool {
    let last = arms.len() - 1;
    &&& arms.len() > 0
    &&& arms_laid(b, arms, hs, ps, jes, rs, last, pre, s, t, locals)
    &&& hs.len() == arms.len()
    &&& jes.len() == last
    &&& b.len() == end
    &&& hs[last] <= pl <= end
    &&& computes(b, hs[last], pl, t.idx() + 1, rl.idx() as int, arms[last].body, locals)
    &&& rl.idx() <= 15
    &&& rl.idx() != t.idx() ==> end == pl + 2 && word_at(b, pl) == Opcode::LdReg(t, rl).word()
    &&& rl.idx() == t.idx() ==> end == pl
    &&& 0 <= k <= last
    &&& forall|i: int|
        0 <= i < k ==> word_at(b, #[trigger] jes[i] as int) == 0x1000 + addr_of_spec(
            0x200usize.saturating_add(end as usize),
        )
}

/// Filling in the jump to the end of the `k`-th arm.
#[verifier::spinoff_prover]
#[verifier::rlimit(60)]
pub(crate) proof fn lemma_end_patched(
    b1: Seq<u8>,
    b2: Seq<u8>,
    arms: Seq<MatchArm>,
    hs: Seq<int>,
    ps: Seq<int>,
    jes: Seq<usize>,
    rs: Seq<Register>,
    k: int,
    pre: Seq<u8>,
    s: Register,
    t: Register,
    locals: Seq<(String, Binding)>,
    pl: int,
    rl: Register,
    end: int,
)
    requires
        ends_patched(b1, arms, hs, ps, jes, rs, k, pre, s, t, locals, pl, rl, end),
        k < arms.len() - 1,
        b2.len() == b1.len(),
        forall|x: int| 0 <= x < b1.len() && x != jes[k] && x != jes[k] + 1 ==> b2[x] == b1[x],
        word_at(b2, jes[k] as int) == 0x1000 + addr_of_spec(0x200usize.saturating_add(end as usize)),
    ensures
        ends_patched(b2, arms, hs, ps, jes, rs, k + 1, pre, s, t, locals, pl, rl, end),
{
    let last = arms.len() - 1;
    let jk = jes[k] as int;
    assert(arm_code(b1, arms, hs, ps, jes, rs, k, s, t, locals));
    assert(hs[k + 1] == jes[k] + 2);
    assert(hs[0] <= hs[k]);
    assert(hs[k + 1] <= hs[last]);
    assert forall|i: int| 0 <= i < last implies #[trigger] arm_code(b2, arms, hs, ps, jes, rs, i, s, t, locals) by {
        assert(arm_code(b1, arms, hs, ps, jes, rs, i, s, t, locals));
        assert(hs[i + 1] == jes[i] + 2);
        if i < k {
            assert(hs[i + 1] <= hs[k]);
        } else if i > k {
            assert(hs[k + 1] <= hs[i]);
        }
        lemma_arm_code_frame(b1, b2, arms, hs, ps, jes, rs, hs, ps, jes, rs, i, s, t, locals);
    }
    assert(b2.subrange(0, pre.len() as int) =~= pre) by {
        assert forall|x: int| 0 <= x < pre.len() implies b2.subrange(0, pre.len() as int)[x] == pre[x] by {
            assert(b1.subrange(0, pre.len() as int)[x] == b1[x]);
        }
    }
    lemma_computes_frame(b1, b2, hs[last], pl, t.idx() + 1, rl.idx() as int, arms[last].body, locals);
    if rl.idx() != t.idx() {
        assert(word_at(b1, pl) == word_at(b2, pl));
    }
    assert forall|i: int| 0 <= i < k + 1 implies word_at(b2, #[trigger] jes[i] as int) == 0x1000
        + addr_of_spec(0x200usize.saturating_add(end as usize)) by {
        if i < k {
            assert(hs[i + 1] == jes[i] + 2);
            assert(hs[i + 1] <= hs[k]);
            assert(word_at(b2, jes[i] as int) == word_at(b1, jes[i] as int));
        }
    }
}

/// The arms' code from the first arm's start, on registers `u` whose `s` holds the
/// scrutinee's value: when no arm before `k` has it as pattern, the run reaches the `k`-th
/// arm's start with the registers unchanged; otherwise the first such arm's value is in `t`
/// at the end of the `match`, and the registers below `t` are kept.
#[verifier::spinoff_prover]
#[verifier::rlimit(60)]
pub(crate) proof fn lemma_arms_reach(
    b: Seq<u8>,
    arms: Seq<MatchArm>,
    hs: Seq<int>,
    ps: Seq<int>,
    jes: Seq<usize>,
    rs: Seq<Register>,
    s: Register,
    t: Register,
    locals: Seq<(String, Binding)>,
    end: int,
    u: Seq<u8>,
    k: int,
)
    requires
        u.len() == 16,
        0x200 + end < 0x1000,
        0 <= k < arms.len(),
        hs.len() == arms.len(),
        forall|i: int| 0 <= i < arms.len() - 1 ==> #[trigger] arm_code(b, arms, hs, ps, jes, rs, i, s, t, locals),
        forall|i: int| 0 <= i < arms.len() - 1 ==> hs[i + 1] == jes[i] + 2,
        forall|i: int|
            0 <= i < arms.len() - 1 ==> word_at(b, #[trigger] jes[i] as int) == 0x1000 + addr_of_spec(
                0x200usize.saturating_add(end as usize),
            ),
        forall|i: int, j: int| 0 <= i <= j < arms.len() ==> hs[i] <= hs[j],
        hs[arms.len() - 1] <= end <= b.len(),
        s.idx() <= 15,
        t.idx() <= 14,
    ensures
        first_match(arms, u[s.idx() as int], k) is None ==> run_fwd(u, b, hs[0], hs[k]) == Some(u),
        first_match(arms, u[s.idx() as int], k) matches Some(i) ==> 0 <= i < arms.len() - 1 && (
        run_fwd(u, b, hs[0], end) matches Some(w) && w.len() == 16 && w[t.idx() as int]
            == reg_value(arms[i].body, regs_env(locals, u)) && agree_below(w, u, t.idx() as int)),
    decreases k,
{
    let sv = u[s.idx() as int];
    if k == 0 {
        lemma_fwd_empty(u, b, hs[0]);
    } else {
        lemma_arms_reach(b, arms, hs, ps, jes, rs, s, t, locals, end, u, k - 1);
        if first_match(arms, sv, k - 1) is None {
            let i = k - 1;
            let h = hs[i];
            assert(arm_code(b, arms, hs, ps, jes, rs, i, s, t, locals));
            let pv = arms[i].pattern.kind->IntLiteral_0;
            let test = Opcode::SeImm(s, pv as u8);
            lemma_skip_op(u, test);
            assert(hs[0] <= h);
            assert(hs[k] <= hs[arms.len() - 1]);
            if sv == pv as u8 {
                assert(first_match(arms, sv, k) == Some(i));
                assert(step(b, h, u) == Some((h + 4, u)));
                lemma_fwd_seq(u, b, hs[0], h, end);
                lemma_fwd_step(u, b, h, end);
                let je = jes[i] as int;
                lemma_branch_runs(u, b, h + 4, ps[i], je, t, rs[i], arms[i].body, locals);
                lemma_fwd_seq(u, b, h + 4, je, end);
                let w = run_fwd(u, b, h + 4, je)->0;
                lemma_jump_lands(w, b, je, end);
                lemma_fwd_empty(w, b, end);
            } else {
                assert(first_match(arms, sv, k) is None);
                assert(step(b, h, u) == Some((h + 2, u)));
                lemma_fwd_seq(u, b, hs[0], h, hs[k]);
                lemma_fwd_step(u, b, h, hs[k]);
                lemma_jump_lands(u, b, h + 2, hs[k]);
                lemma_fwd_empty(u, b, hs[k]);
            }
        }
    }
}

/// The code of `match scrutinee { arms }`: the scrutinee into `s`, the arms but the last
/// from `hs[0]` (each ending with a jump to the end), then the last arm from `hs[last]` to
/// `pl` into `rl` and a copy of its value to `t`. It computes the `match` into `t`.
#[verifier::spinoff_prover]
#[verifier::rlimit(60)]
pub(crate) proof fn lemma_match_computes(
    b: Seq<u8>,
    a: int,
    end: int,
    keep: int,
    s: Register,
    t: Register,
    scrutinee: Expr,
    arms: Seq<MatchArm>,
    hs: Seq<int>,
    ps: Seq<int>,
    jes: Seq<usize>,
    rs: Seq<Register>,
    pl: int,
    rl: Register,
    e: Expr,
    locals: Seq<(String, Binding)>,
)
    requires
        arms.len() > 0,
        hs.len() == arms.len(),
        0 <= a <= hs[0],
        computes(b, a, hs[0], keep, s.idx() as int, scrutinee, locals),
        forall|i: int| 0 <= i < arms.len() - 1 ==> #[trigger] arm_code(b, arms, hs, ps, jes, rs, i, s, t, locals),
        forall|i: int| 0 <= i < arms.len() - 1 ==> hs[i + 1] == jes[i] + 2,
        forall|i: int|
            0 <= i < arms.len() - 1 ==> word_at(b, #[trigger] jes[i] as int) == 0x1000 + addr_of_spec(
                0x200usize.saturating_add(end as usize),
            ),
        forall|i: int, j: int| 0 <= i <= j < arms.len() ==> hs[i] <= hs[j],
        hs[arms.len() - 1] <= pl <= end <= b.len(),
        computes(b, hs[arms.len() - 1], pl, t.idx() + 1, rl.idx() as int, arms[arms.len() - 1].body, locals),
        rl.idx() <= 15,
        rl.idx() != t.idx() ==> end == pl + 2 && word_at(b, pl) == Opcode::LdReg(t, rl).word(),
        rl.idx() == t.idx() ==> end == pl,
        locals_below(locals, keep),
        keep <= t.idx() <= 14,
        s.idx() < t.idx(),
        forall|env: Seq<(Seq<char>, u8)>| #[trigger] reg_value(e, env) == match first_match(
            arms,
            reg_value(scrutinee, env),
            arms.len() - 1,
        ) {
            Some(i) => if 0 <= i < arms.len() {
                reg_value(arms[i].body, env)
            } else {
                0
            },
            None => reg_value(arms[arms.len() - 1].body, env),
        },
    ensures
        computes(b, a, end, keep, t.idx() as int, e, locals),
{
    let last = arms.len() - 1;
    assert forall|v: Seq<u8>| v.len() == 16 && 0x200 + end < 0x1000 implies (#[trigger] run_fwd(
        v,
        b,
        a,
        end,
    ) matches Some(w) && w.len() == 16 && w[t.idx() as int] == reg_value(e, regs_env(locals, v))
        && agree_below(w, v, keep)) by {
        let env = regs_env(locals, v);
        assert(run_fwd(v, b, a, hs[0]) is Some);
        lemma_fwd_seq(v, b, a, hs[0], end);
        let u1 = run_fwd(v, b, a, hs[0])->0;
        lemma_regs_env_agree(locals, u1, v, keep);
        let sv = u1[s.idx() as int];
        assert(reg_value(e, env) == match first_match(arms, reg_value(scrutinee, env), last) {
            Some(i) => if 0 <= i < arms.len() {
                reg_value(arms[i].body, env)
            } else {
                0
            },
            None => reg_value(arms[last].body, env),
        });
        lemma_arms_reach(b, arms, hs, ps, jes, rs, s, t, locals, end, u1, last);
        assert(hs[0] <= hs[last]);
        if first_match(arms, sv, last) is None {
            lemma_fwd_seq(u1, b, hs[0], hs[last], end);
            lemma_branch_runs(u1, b, hs[last], pl, end, t, rl, arms[last].body, locals);
        }
        let w = run_fwd(v, b, a, end)->0;
        assert(agree_below(w, v, keep)) by {
            assert forall|i: int| 0 <= i < keep implies w[i] == v[i] by {
                assert(w[i] == u1[i]);
            }
        }
    }
}

// ---------------------------------------------------------------------------
// `main` and the whole program
// ---------------------------------------------------------------------------

/// The words from `from` to `to` copy register `src` into V0, whatever the registers held.
pub(crate) open spec fn moves_to_v0(b: Seq<u8>, from: int, to: int, src: int) -> bool {
    forall|v: Seq<u8>|
        v.len() == 16 ==> (#[trigger] run_fwd(v, b, from, to) matches Some(u) && u.len() == 16
            && u[0] == v[src])
}

/// A copy into V0 stays one when the bytes it runs over are the same elsewhere.
pub(crate) proof fn lemma_moves_frame(b1: Seq<u8>, b2: Seq<u8>, a: int, c: int, src: int)
    requires
        moves_to_v0(b1, a, c, src),
        0 <= a <= c,
        (c - a) % 2 == 0,
        c <= b1.len(),
        c <= b2.len(),
        forall|i: int| a <= i < c ==> b1[i] == b2[i],
    ensures
        moves_to_v0(b2, a, c, src),
{
    assert forall|v: Seq<u8>| v.len() == 16 implies (#[trigger] run_fwd(v, b2, a, c) matches Some(u)
        && u.len() == 16 && u[0] == v[src]) by {
        lemma_fwd_frame(v, b1, b2, a, c);
    }
}

/// A ROM whose code after the entry word computes `val` into V0 and then jumps to itself.
pub(crate) open spec fn main_rom(rom: Seq<u8>, val: u8) -> bool {
    let e = rom.len() - 2;
    &&& 2 <= e
    &&& e % 2 == 0
    &&& word_at(rom, e) == 0x1000 + addr_of_spec(0x200usize.saturating_add(e as usize))
    &&& forall|v: Seq<u8>|
        v.len() == 16 && 0x200 + rom.len() <= 0x1000 ==> (#[trigger] run_fwd(v, rom, 2, e) matches Some(
            u,
        ) && u[0] == val)
}

/// Such a ROM, entered by a jump to its second word, halts with `val` in V0 when it fits
/// in memory above 0x200.
pub(crate) proof fn lemma_main_rom_halts(rom: Seq<u8>, val: u8)
    requires
        main_rom(rom, val),
        word_at(rom, 0) == 0x1202,
        rom.len() <= 0xE00,
    ensures
        forall|v: Seq<u8>| v.len() == 16 ==> #[trigger] halts_with_v0(rom, v, val),
{
    let e = rom.len() - 2;
    assert forall|v: Seq<u8>| v.len() == 16 implies #[trigger] halts_with_v0(rom, v, val) by {
        let u = run_fwd(v, rom, 2, e)->0;
        lemma_fwd_steps(v, rom, 2, e);
        let k = fwd_len(v, rom, 2, e);
        assert(step(rom, 0, v) == Some((2int, v)));
        assert(steps(rom, 0, v, k + 1) == steps(rom, 2, v, k));
        assert(addr_of_spec(0x200usize.saturating_add(e as usize)) == 0x200 + e);
        assert(steps(rom, 0, v, k + 1) matches Some((p, w)) && 0 <= p && p + 1 < rom.len()
            && word_at(rom, p) == 0x1200 + p && w[0] == val);
    }
}

} // verus!

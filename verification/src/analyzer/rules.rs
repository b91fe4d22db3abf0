//! The rules of semantic analysis, as functions over the syntax tree: which errors a
//! program has, in the order the analyzer reports them.
use vstd::prelude::*;

use super::{compatible, AnalyzeError, AnalyzeErrorKind};
use crate::table::{has_key, key_first};
use crate::parser::ast::{
    builtin_signature, BinOp, BuiltinFunction, Expr, ExprKind, MatchArm, Param, Stmt, StmtKind,
    StructField, TopLevel, TypeModel, UnaryOp,
};

verus! {

// ---- errors as values ----

/// A semantic error, with names as their characters and types as their models.
pub enum ErrorM {
    MissingMain,
    UndefinedVariable(Seq<char>),
    UndefinedFunction(Seq<char>),
    TypeMismatch { context: Seq<char>, expected: TypeModel, found: TypeModel },
    BinaryOpTypeMismatch { lhs: TypeModel, rhs: TypeModel },
    ArgumentCountMismatch { function: Seq<char>, expected: nat, found: nat },
    ArgumentTypeMismatch { function: Seq<char>, expected: TypeModel, found: TypeModel },
    BuiltinArgCountMismatch { builtin: BuiltinFunction, expected: nat, found: nat },
    BuiltinArgTypeMismatch { builtin: BuiltinFunction, expected: TypeModel, found: TypeModel },
    LogicalOpRequiresBool(TypeModel),
    NegationRequiresU8(TypeModel),
    LogicalNotRequiresBool(TypeModel),
    IfConditionNotBool(TypeModel),
    IfElseBranchMismatch { then_type: TypeModel, else_type: TypeModel },
    TooManyLocals { count: nat, max: nat },
    CannotIndex(TypeModel),
    ArrayIndexNotU8(TypeModel),
    ArrayElementMismatch,
    BreakOutsideLoop,
    AssignmentTypeMismatch { expected: TypeModel, found: TypeModel },
    MatchScrutineeType(TypeModel),
    MatchArmPatternNotLiteral,
    MatchArmTypeMismatch { first: TypeModel, found: TypeModel },
    MatchNoArms,
    UndefinedEnum(Seq<char>),
    UndefinedEnumVariant { enum_name: Seq<char>, variant: Seq<char> },
    NonExhaustiveMatch { enum_name: Seq<char>, missing: Seq<Seq<char>> },
    UnknownType(Seq<char>),
    RandomEnumArgNotEnum(Seq<char>),
    UndefinedStruct(Seq<char>),
    UndefinedField { struct_name: Seq<char>, field: Seq<char> },
    MissingFields { struct_name: Seq<char>, missing: Seq<Seq<char>> },
    DuplicateField { struct_name: Seq<char>, field: Seq<char> },
    FieldAccessOnNonStruct(TypeModel),
    ImmutableAssignment(Seq<char>),
}

/// The names of a list of strings.
pub open spec fn names_m(s: Seq<String>) -> Seq<Seq<char>> {
    s.map_values(|x: String| x@)
}

/// An error as a value.
pub open spec fn error_m(k: AnalyzeErrorKind) -> ErrorM {
    match k {
        AnalyzeErrorKind::MissingMain => ErrorM::MissingMain,
        AnalyzeErrorKind::UndefinedVariable(n) => ErrorM::UndefinedVariable(n@),
        AnalyzeErrorKind::UndefinedFunction(n) => ErrorM::UndefinedFunction(n@),
        AnalyzeErrorKind::TypeMismatch { context, expected, found } => ErrorM::TypeMismatch {
            context: context@,
            expected: expected@,
            found: found@,
        },
        AnalyzeErrorKind::BinaryOpTypeMismatch { lhs, rhs } => ErrorM::BinaryOpTypeMismatch {
            lhs: lhs@,
            rhs: rhs@,
        },
        AnalyzeErrorKind::ArgumentCountMismatch { function, expected, found } =>
            ErrorM::ArgumentCountMismatch {
            function: function@,
            expected: expected as nat,
            found: found as nat,
        },
        AnalyzeErrorKind::ArgumentTypeMismatch { function, expected, found } =>
            ErrorM::ArgumentTypeMismatch {
            function: function@,
            expected: expected@,
            found: found@,
        },
        AnalyzeErrorKind::BuiltinArgCountMismatch { builtin, expected, found } =>
            ErrorM::BuiltinArgCountMismatch {
            builtin,
            expected: expected as nat,
            found: found as nat,
        },
        AnalyzeErrorKind::BuiltinArgTypeMismatch { builtin, expected, found } =>
            ErrorM::BuiltinArgTypeMismatch { builtin, expected: expected@, found: found@ },
        AnalyzeErrorKind::LogicalOpRequiresBool(t) => ErrorM::LogicalOpRequiresBool(t@),
        AnalyzeErrorKind::NegationRequiresU8(t) => ErrorM::NegationRequiresU8(t@),
        AnalyzeErrorKind::LogicalNotRequiresBool(t) => ErrorM::LogicalNotRequiresBool(t@),
        AnalyzeErrorKind::IfConditionNotBool(t) => ErrorM::IfConditionNotBool(t@),
        AnalyzeErrorKind::IfElseBranchMismatch { then_type, else_type } =>
            ErrorM::IfElseBranchMismatch { then_type: then_type@, else_type: else_type@ },
        AnalyzeErrorKind::TooManyLocals { count, max } => ErrorM::TooManyLocals {
            count: count as nat,
            max: max as nat,
        },
        AnalyzeErrorKind::CannotIndex(t) => ErrorM::CannotIndex(t@),
        AnalyzeErrorKind::ArrayIndexNotU8(t) => ErrorM::ArrayIndexNotU8(t@),
        AnalyzeErrorKind::ArrayElementMismatch => ErrorM::ArrayElementMismatch,
        AnalyzeErrorKind::BreakOutsideLoop => ErrorM::BreakOutsideLoop,
        AnalyzeErrorKind::AssignmentTypeMismatch { expected, found } =>
            ErrorM::AssignmentTypeMismatch { expected: expected@, found: found@ },
        AnalyzeErrorKind::MatchScrutineeType(t) => ErrorM::MatchScrutineeType(t@),
        AnalyzeErrorKind::MatchArmPatternNotLiteral => ErrorM::MatchArmPatternNotLiteral,
        AnalyzeErrorKind::MatchArmTypeMismatch { first, found } => ErrorM::MatchArmTypeMismatch {
            first: first@,
            found: found@,
        },
        AnalyzeErrorKind::MatchNoArms => ErrorM::MatchNoArms,
        AnalyzeErrorKind::UndefinedEnum(n) => ErrorM::UndefinedEnum(n@),
        AnalyzeErrorKind::UndefinedEnumVariant { enum_name, variant } =>
            ErrorM::UndefinedEnumVariant { enum_name: enum_name@, variant: variant@ },
        AnalyzeErrorKind::NonExhaustiveMatch { enum_name, missing } =>
            ErrorM::NonExhaustiveMatch { enum_name: enum_name@, missing: names_m(missing@) },
        AnalyzeErrorKind::UnknownType(n) => ErrorM::UnknownType(n@),
        AnalyzeErrorKind::RandomEnumArgNotEnum(n) => ErrorM::RandomEnumArgNotEnum(n@),
        AnalyzeErrorKind::UndefinedStruct(n) => ErrorM::UndefinedStruct(n@),
        AnalyzeErrorKind::UndefinedField { struct_name, field } => ErrorM::UndefinedField {
            struct_name: struct_name@,
            field: field@,
        },
        AnalyzeErrorKind::MissingFields { struct_name, missing } => ErrorM::MissingFields {
            struct_name: struct_name@,
            missing: names_m(missing@),
        },
        AnalyzeErrorKind::DuplicateField { struct_name, field } => ErrorM::DuplicateField {
            struct_name: struct_name@,
            field: field@,
        },
        AnalyzeErrorKind::FieldAccessOnNonStruct(t) => ErrorM::FieldAccessOnNonStruct(t@),
        AnalyzeErrorKind::ImmutableAssignment(n) => ErrorM::ImmutableAssignment(n@),
    }
}

/// A list of errors as values.
pub open spec fn errors_m(s: Seq<AnalyzeError>) -> Seq<ErrorM> {
    s.map_values(|e: AnalyzeError| error_m(e.kind))
}

// ---- name-keyed tables ----

/// `i` is the first position of `name` in `tbl`.
pub open spec fn first_at<T>(tbl: Seq<(Seq<char>, T)>, name: Seq<char>, i: int) -> bool {
    &&& 0 <= i < tbl.len()
    &&& tbl[i].0 == name
    &&& forall|j: int| 0 <= j < i ==> tbl[j].0 != name
}

/// The value of the first entry named `name`.
pub open spec fn lookup<T>(tbl: Seq<(Seq<char>, T)>, name: Seq<char>) -> Option<T> {
    if exists|i: int| first_at(tbl, name, i) {
        Some(tbl[choose|i: int| first_at(tbl, name, i)].1)
    } else {
        None
    }
}

/// The table with `name` set to `v`: its first entry replaced, or a new entry at the end.
pub open spec fn insert<T>(tbl: Seq<(Seq<char>, T)>, name: Seq<char>, v: T) -> Seq<
    (Seq<char>, T),
> {
    if exists|i: int| first_at(tbl, name, i) {
        tbl.update(choose|i: int| first_at(tbl, name, i), (name, v))
    } else {
        tbl.push((name, v))
    }
}

/// The first position of a name is unique, so it is what `lookup` and `insert` use.
pub proof fn lemma_first_at<T>(tbl: Seq<(Seq<char>, T)>, name: Seq<char>, i: int)
    requires
        first_at(tbl, name, i),
    ensures
        lookup(tbl, name) == Some(tbl[i].1),
        insert(tbl, name, tbl[i].1) == tbl.update(i, (name, tbl[i].1)),
        forall|v: T| #[trigger] insert(tbl, name, v) == tbl.update(i, (name, v)),
{
    let k = choose|k: int| first_at(tbl, name, k);
    assert(first_at(tbl, name, k));
    if k < i {
        assert(tbl[k].0 != name);
    } else if i < k {
        assert(tbl[i].0 != name);
    }
    assert(k == i);
}

/// A name that no entry has.
pub proof fn lemma_absent<T>(tbl: Seq<(Seq<char>, T)>, name: Seq<char>)
    requires
        forall|j: int| 0 <= j < tbl.len() ==> tbl[j].0 != name,
    ensures
        lookup(tbl, name) is None,
        forall|v: T| #[trigger] insert(tbl, name, v) == tbl.push((name, v)),
{
}

/// A table of the analyzer and a table of values with the same keys.
pub open spec fn keys_agree<T, M>(list: Seq<(String, T)>, m: Seq<(Seq<char>, M)>) -> bool {
    &&& m.len() == list.len()
    &&& forall|i: int| 0 <= i < list.len() ==> m[i].0 == #[trigger] list[i].0@
}

/// Where the analyzer finds a name first, `lookup` and `insert` look too.
pub proof fn lemma_found<T, M>(list: Seq<(String, T)>, m: Seq<(Seq<char>, M)>, name: Seq<char>, i: int)
    requires
        keys_agree(list, m),
        key_first(list, name, i),
    ensures
        lookup(m, name) == Some(m[i].1),
        forall|v: M| #[trigger] insert(m, name, v) == m.update(i, (name, v)),
{
    assert(m[i].0 == list[i].0@);
    assert forall|j: int| 0 <= j < i implies m[j].0 != name by {
        assert(m[j].0 == list[j].0@);
    }
    assert(first_at(m, name, i));
    lemma_first_at(m, name, i);
}

/// A name the analyzer does not find is in no entry.
pub proof fn lemma_not_found<T, M>(list: Seq<(String, T)>, m: Seq<(Seq<char>, M)>, name: Seq<char>)
    requires
        keys_agree(list, m),
        !has_key(list, name),
    ensures
        lookup(m, name) is None,
        forall|v: M| #[trigger] insert(m, name, v) == m.push((name, v)),
{
    assert forall|j: int| 0 <= j < m.len() implies m[j].0 != name by {
        assert(m[j].0 == list[j].0@);
    }
    lemma_absent(m, name);
}

// ---- the state of the analysis ----

/// What the analyzer knows of the program's definitions.
pub struct TablesM {
    pub globals: Seq<(Seq<char>, (TypeModel, bool))>,
    pub functions: Seq<(Seq<char>, (Seq<TypeModel>, TypeModel))>,
    pub enums: Seq<(Seq<char>, Seq<Seq<char>>)>,
    pub structs: Seq<(Seq<char>, Seq<(Seq<char>, TypeModel)>)>,
}

/// The function being checked: whether there is one, and its return type.
pub struct FnM {
    pub in_function: bool,
    pub ret: Option<TypeModel>,
}

/// What checking changes: the locals of the function, and the errors so far.
pub struct CtxM {
    pub locals: Seq<(Seq<char>, TypeModel)>,
    pub errors: Seq<ErrorM>,
}

impl CtxM {
    /// The context with one more error.
    pub open spec fn report(self, e: ErrorM) -> CtxM {
        CtxM { locals: self.locals, errors: self.errors.push(e) }
    }
}

/// The type of a variable: a local, else a global.
pub open spec fn var_type(t: TablesM, c: CtxM, name: Seq<char>) -> Option<TypeModel> {
    match lookup(c.locals, name) {
        Some(ty) => Some(ty),
        None => match lookup(t.globals, name) {
            Some((ty, _)) => Some(ty),
            None => None,
        },
    }
}

/// Whether a name resolves to a global that is not `mut`.
pub open spec fn immutable_global(t: TablesM, c: CtxM, name: Seq<char>) -> bool {
    if lookup(c.locals, name) is Some {
        false
    } else {
        match lookup(t.globals, name) {
            Some((_, mutable)) => !mutable,
            None => false,
        }
    }
}

/// A local is added only inside a function.
pub open spec fn add_local(f: FnM, c: CtxM, name: Seq<char>, ty: TypeModel) -> CtxM {
    if f.in_function {
        CtxM { locals: insert(c.locals, name, ty), errors: c.errors }
    } else {
        c
    }
}

/// A user type must name an enum or a struct.
pub open spec fn check_type_exists(t: TablesM, c: CtxM, ty: TypeModel) -> CtxM {
    match ty {
        TypeModel::UserType(n) => if lookup(t.enums, n) is None && lookup(t.structs, n) is None {
            c.report(ErrorM::UnknownType(n))
        } else {
            c
        },
        _ => c,
    }
}

/// Whether a type is a user struct.
pub open spec fn is_struct(t: TablesM, ty: TypeModel) -> bool {
    match ty {
        TypeModel::UserType(n) => lookup(t.structs, n) is Some,
        _ => false,
    }
}

// ---- expressions ----

/// Checks an expression: the context after it, and its type when it has one.
pub open spec fn check_expr(t: TablesM, f: FnM, c: CtxM, e: Expr, in_loop: bool) -> (
    CtxM,
    Option<TypeModel>,
)
    decreases e, 1nat,
{
    match e.kind {
        ExprKind::IntLiteral(_) => (c, Some(TypeModel::U8)),
        ExprKind::BoolLiteral(_) => (c, Some(TypeModel::Bool)),
        ExprKind::Ident(name) => {
            let ty = var_type(t, c, name@);
            if ty is None {
                (c.report(ErrorM::UndefinedVariable(name@)), None)
            } else {
                (c, ty)
            }
        },
        ExprKind::BinaryOp { op, lhs, rhs } => {
            let (c1, lt) = check_expr(t, f, c, *lhs, in_loop);
            let (c2, rt) = check_expr(t, f, c1, *rhs, in_loop);
            match (lt, rt) {
                (Some(lt), Some(rt)) => if !compatible(lt, rt) {
                    (c2.report(ErrorM::BinaryOpTypeMismatch { lhs: lt, rhs: rt }), None)
                } else {
                    match op {
                        BinOp::Eq | BinOp::NotEq | BinOp::Lt | BinOp::Gt | BinOp::LtEq
                        | BinOp::GtEq => (c2, Some(TypeModel::Bool)),
                        BinOp::And | BinOp::Or => if lt != TypeModel::Bool {
                            (c2.report(ErrorM::LogicalOpRequiresBool(lt)), None)
                        } else {
                            (c2, Some(TypeModel::Bool))
                        },
                        _ => (c2, Some(TypeModel::U8)),
                    }
                },
                _ => (c2, None),
            }
        },
        ExprKind::UnaryOp { op, expr } => {
            let (c1, ty) = check_expr(t, f, c, *expr, in_loop);
            match ty {
                None => (c1, None),
                Some(ty) => match op {
                    UnaryOp::Neg => if ty != TypeModel::U8 {
                        (c1.report(ErrorM::NegationRequiresU8(ty)), None)
                    } else {
                        (c1, Some(TypeModel::U8))
                    },
                    UnaryOp::Not => if ty != TypeModel::Bool {
                        (c1.report(ErrorM::LogicalNotRequiresBool(ty)), None)
                    } else {
                        (c1, Some(TypeModel::Bool))
                    },
                },
            }
        },
        ExprKind::BuiltinCall { .. } => check_builtin(t, f, c, e, in_loop),
        ExprKind::Call { name, args } => match lookup(t.functions, name@) {
            None => (c.report(ErrorM::UndefinedFunction(name@)), None),
            Some((params, ret)) => if args.len() != params.len() {
                (
                    c.report(
                        ErrorM::ArgumentCountMismatch {
                            function: name@,
                            expected: params.len(),
                            found: args.len() as nat,
                        },
                    ),
                    None,
                )
            } else {
                (check_call_args(t, f, c, name@, params, args@, in_loop, 0), Some(ret))
            },
        },
        ExprKind::If { cond, then_block, else_block } => {
            let (c1, ct) = check_expr(t, f, c, *cond, in_loop);
            let c2 = match ct {
                Some(ct) => if ct != TypeModel::Bool {
                    c1.report(ErrorM::IfConditionNotBool(ct))
                } else {
                    c1
                },
                None => c1,
            };
            let (c3, tt) = check_expr(t, f, c2, *then_block, in_loop);
            match else_block {
                Some(eb) => {
                    let (c4, et) = check_expr(t, f, c3, *eb, in_loop);
                    match (tt, et) {
                        (Some(tt), Some(et)) => if !compatible(tt, et) {
                            (
                                c4.report(
                                    ErrorM::IfElseBranchMismatch { then_type: tt, else_type: et },
                                ),
                                None,
                            )
                        } else {
                            (c4, Some(tt))
                        },
                        _ => (c4, None),
                    }
                },
                None => (c3, Some(TypeModel::Unit)),
            }
        },
        ExprKind::Loop { body } => (check_expr(t, f, c, *body, true).0, Some(TypeModel::Unit)),
        ExprKind::Block { stmts, expr } => {
            let c1 = check_stmts(t, f, c, stmts@, in_loop, 0);
            match expr {
                Some(tail) => check_expr(t, f, c1, *tail, in_loop),
                None => (c1, Some(TypeModel::Unit)),
            }
        },
        ExprKind::ArrayLiteral(elems) => if elems.len() == 0 {
            (c, Some(TypeModel::Array(Box::new(TypeModel::U8), 0)))
        } else {
            let (c1, first) = check_expr(t, f, c, elems@[0], in_loop);
            let c2 = check_elems(t, f, c1, first, elems@, in_loop, 1);
            match first {
                Some(ft) => (c2, Some(TypeModel::Array(Box::new(ft), elems.len()))),
                None => (c2, None),
            }
        },
        ExprKind::Index { array, index } => {
            let (c1, at) = check_expr(t, f, c, *array, in_loop);
            match at {
                Some(at) => match at {
                    TypeModel::Array(elem, _) => {
                        let (c2, it) = check_expr(t, f, c1, *index, in_loop);
                        let c3 = match it {
                            Some(it) => if it != TypeModel::U8 {
                                c2.report(ErrorM::ArrayIndexNotU8(it))
                            } else {
                                c2
                            },
                            None => c2,
                        };
                        (c3, Some(*elem))
                    },
                    _ => (c1.report(ErrorM::CannotIndex(at)), None),
                },
                None => (check_expr(t, f, c1, *index, in_loop).0, None),
            }
        },
        ExprKind::Match { .. } => check_match(t, f, c, e, in_loop),
        ExprKind::EnumVariant { enum_name, variant } => match lookup(t.enums, enum_name@) {
            Some(variants) => if !variants.contains(variant@) {
                (
                    c.report(
                        ErrorM::UndefinedEnumVariant { enum_name: enum_name@, variant: variant@ },
                    ),
                    None,
                )
            } else {
                (c, Some(TypeModel::UserType(enum_name@)))
            },
            None => (c.report(ErrorM::UndefinedEnum(enum_name@)), None),
        },
        ExprKind::StructLiteral { .. } => check_struct_literal(t, f, c, e, in_loop),
        ExprKind::FieldAccess { expr, field } => {
            let (c1, ty) = check_expr(t, f, c, *expr, in_loop);
            match ty {
                None => (c1, None),
                Some(ty) => match ty {
                    TypeModel::UserType(sn) => match lookup(t.structs, sn) {
                        Some(fields) => match lookup(fields, field@) {
                            Some(fty) => (c1, Some(fty)),
                            None => (
                                c1.report(ErrorM::UndefinedField { struct_name: sn, field: field@ }),
                                None,
                            ),
                        },
                        None => (c1.report(ErrorM::FieldAccessOnNonStruct(ty)), None),
                    },
                    _ => (c1.report(ErrorM::FieldAccessOnNonStruct(ty)), None),
                },
            }
        },
    }
}

/// The arguments of a call of a user function, from the `k`-th on.
pub open spec fn check_call_args(
    t: TablesM,
    f: FnM,
    c: CtxM,
    name: Seq<char>,
    params: Seq<TypeModel>,
    args: Seq<Expr>,
    in_loop: bool,
    k: int,
) -> CtxM
    decreases args, args.len() - k,
{
    if !(0 <= k < args.len()) {
        c
    } else {
        let (c1, at) = check_expr(t, f, c, args[k], in_loop);
        let c2 = match at {
            Some(at) => if !compatible(params[k], at) {
                c1.report(
                    ErrorM::ArgumentTypeMismatch { function: name, expected: params[k], found: at },
                )
            } else {
                c1
            },
            None => c1,
        };
        check_call_args(t, f, c2, name, params, args, in_loop, k + 1)
    }
}

/// The arguments of a call of a built-in function, from the `k`-th on.
pub open spec fn check_builtin_args(
    t: TablesM,
    f: FnM,
    c: CtxM,
    builtin: BuiltinFunction,
    params: Seq<TypeModel>,
    args: Seq<Expr>,
    in_loop: bool,
    k: int,
) -> CtxM
    decreases args, args.len() - k,
{
    if !(0 <= k < args.len()) {
        c
    } else {
        let (c1, at) = check_expr(t, f, c, args[k], in_loop);
        let c2 = match at {
            Some(at) => if !compatible(params[k], at) {
                c1.report(ErrorM::BuiltinArgTypeMismatch { builtin, expected: params[k], found: at })
            } else {
                c1
            },
            None => c1,
        };
        check_builtin_args(t, f, c2, builtin, params, args, in_loop, k + 1)
    }
}

/// A call of a built-in function.
pub open spec fn check_builtin(t: TablesM, f: FnM, c: CtxM, e: Expr, in_loop: bool) -> (
    CtxM,
    Option<TypeModel>,
)
    decreases e, 0nat,
{
    match e.kind {
        ExprKind::BuiltinCall { builtin, args } => if builtin is RandomEnum {
            if args.len() != 1 {
                (
                    c.report(
                        ErrorM::BuiltinArgCountMismatch {
                            builtin,
                            expected: 1,
                            found: args.len() as nat,
                        },
                    ),
                    None,
                )
            } else {
                match args@[0].kind {
                    ExprKind::Ident(name) => if lookup(t.enums, name@) is Some {
                        (c, Some(TypeModel::UserType(name@)))
                    } else {
                        (c.report(ErrorM::RandomEnumArgNotEnum(name@)), None)
                    },
                    _ => (c.report(ErrorM::RandomEnumArgNotEnum("<non-identifier>"@)), None),
                }
            }
        } else {
            let (params, ret) = builtin_signature(builtin);
            if args.len() != params.len() {
                (
                    c.report(
                        ErrorM::BuiltinArgCountMismatch {
                            builtin,
                            expected: params.len(),
                            found: args.len() as nat,
                        },
                    ),
                    None,
                )
            } else {
                (check_builtin_args(t, f, c, builtin, params, args@, in_loop, 0), Some(ret))
            }
        },
        _ => (c, None),
    }
}

/// The elements of an array literal from the `k`-th on, against the first one's type.
pub open spec fn check_elems(
    t: TablesM,
    f: FnM,
    c: CtxM,
    first: Option<TypeModel>,
    elems: Seq<Expr>,
    in_loop: bool,
    k: int,
) -> CtxM
    decreases elems, elems.len() - k,
{
    if !(0 <= k < elems.len()) {
        c
    } else {
        let (c1, et) = check_expr(t, f, c, elems[k], in_loop);
        let c2 = match (first, et) {
            (Some(ft), Some(et)) => if !compatible(ft, et) {
                c1.report(ErrorM::ArrayElementMismatch)
            } else {
                c1
            },
            _ => c1,
        };
        check_elems(t, f, c2, first, elems, in_loop, k + 1)
    }
}

/// The errors for `match` patterns that are neither literals nor enum variants.
pub open spec fn pattern_errors(arms: Seq<MatchArm>) -> Seq<ErrorM>
    decreases arms.len(),
{
    if arms.len() == 0 {
        seq![]
    } else {
        pattern_errors(arms.drop_last()) + match arms.last().pattern.kind {
            ExprKind::IntLiteral(_) | ExprKind::EnumVariant { .. } => seq![],
            _ => seq![ErrorM::MatchArmPatternNotLiteral],
        }
    }
}

/// The variants that the arms' patterns name.
pub open spec fn covered_variants(arms: Seq<MatchArm>) -> Seq<Seq<char>>
    decreases arms.len(),
{
    if arms.len() == 0 {
        seq![]
    } else {
        covered_variants(arms.drop_last()) + match arms.last().pattern.kind {
            ExprKind::EnumVariant { variant, .. } => seq![variant@],
            _ => seq![],
        }
    }
}

/// The names of `all` that `given` does not hold, in order.
pub open spec fn missing_names(all: Seq<Seq<char>>, given: Seq<Seq<char>>) -> Seq<Seq<char>>
    decreases all.len(),
{
    if all.len() == 0 {
        seq![]
    } else {
        missing_names(all.drop_last(), given) + if given.contains(all.last()) {
            seq![]
        } else {
            seq![all.last()]
        }
    }
}

/// The arm bodies from the `k`-th on, against the first one's type.
pub open spec fn check_arm_bodies(
    t: TablesM,
    f: FnM,
    c: CtxM,
    first: TypeModel,
    arms: Seq<MatchArm>,
    in_loop: bool,
    k: int,
) -> CtxM
    decreases arms, arms.len() - k,
{
    if !(0 <= k < arms.len()) {
        c
    } else {
        let (c1, at) = check_expr(t, f, c, arms[k].body, in_loop);
        let c2 = match at {
            Some(at) => if !compatible(first, at) {
                c1.report(ErrorM::MatchArmTypeMismatch { first, found: at })
            } else {
                c1
            },
            None => c1,
        };
        check_arm_bodies(t, f, c2, first, arms, in_loop, k + 1)
    }
}

/// A `match` expression.
pub open spec fn check_match(t: TablesM, f: FnM, c: CtxM, e: Expr, in_loop: bool) -> (
    CtxM,
    Option<TypeModel>,
)
    decreases e, 0nat,
{
    match e.kind {
        ExprKind::Match { scrutinee, arms } => {
            let (c1, st) = check_expr(t, f, c, *scrutinee, in_loop);
            let c2 = match st {
                Some(st) => if !(st is U8) && !(st is UserType) {
                    c1.report(ErrorM::MatchScrutineeType(st))
                } else {
                    c1
                },
                None => c1,
            };
            if arms.len() == 0 {
                (c2.report(ErrorM::MatchNoArms), None)
            } else {
                let c3 = CtxM { locals: c2.locals, errors: c2.errors + pattern_errors(arms@) };
                let c4 = match st {
                    Some(TypeModel::UserType(en)) => match lookup(t.enums, en) {
                        Some(variants) => {
                            let missing = missing_names(variants, covered_variants(arms@));
                            if missing.len() > 0 {
                                c3.report(ErrorM::NonExhaustiveMatch { enum_name: en, missing })
                            } else {
                                c3
                            }
                        },
                        None => c3,
                    },
                    _ => c3,
                };
                let (c5, ft) = check_expr(t, f, c4, arms@[0].body, in_loop);
                match ft {
                    None => (c5, None),
                    Some(ft) => (check_arm_bodies(t, f, c5, ft, arms@, in_loop, 1), Some(ft)),
                }
            }
        },
        _ => (c, None),
    }
}

/// The names of the fields given in a struct literal.
pub open spec fn init_names(fields: Seq<(String, Expr)>) -> Seq<Seq<char>> {
    fields.map_values(|x: (String, Expr)| x.0@)
}

/// The fields of a struct literal from the `k`-th on.
pub open spec fn check_inits(
    t: TablesM,
    f: FnM,
    c: CtxM,
    sname: Seq<char>,
    sfields: Seq<(Seq<char>, TypeModel)>,
    fields: Seq<(String, Expr)>,
    in_loop: bool,
    k: int,
) -> CtxM
    decreases fields, fields.len() - k,
{
    if !(0 <= k < fields.len()) {
        c
    } else {
        let name = fields[k].0@;
        let c1 = if init_names(fields).take(k).contains(name) {
            c.report(ErrorM::DuplicateField { struct_name: sname, field: name })
        } else {
            c
        };
        let c2 = match lookup(sfields, name) {
            Some(fty) => {
                let (cv, vt) = check_expr(t, f, c1, fields[k].1, in_loop);
                match vt {
                    Some(vt) => if !compatible(fty, vt) {
                        cv.report(
                            ErrorM::TypeMismatch {
                                context: "struct field type mismatch"@,
                                expected: fty,
                                found: vt,
                            },
                        )
                    } else {
                        cv
                    },
                    None => cv,
                }
            },
            None => c1.report(ErrorM::UndefinedField { struct_name: sname, field: name }),
        };
        check_inits(t, f, c2, sname, sfields, fields, in_loop, k + 1)
    }
}

/// A struct literal.
pub open spec fn check_struct_literal(t: TablesM, f: FnM, c: CtxM, e: Expr, in_loop: bool) -> (
    CtxM,
    Option<TypeModel>,
)
    decreases e, 0nat,
{
    match e.kind {
        ExprKind::StructLiteral { name, fields, base } => match lookup(t.structs, name@) {
            None => (c.report(ErrorM::UndefinedStruct(name@)), None),
            Some(sfields) => {
                let c1 = match base {
                    Some(b) => {
                        let (cb, bt) = check_expr(t, f, c, *b, in_loop);
                        match bt {
                            Some(bt) => if bt != TypeModel::UserType(name@) {
                                cb.report(
                                    ErrorM::TypeMismatch {
                                        context: "struct update base type mismatch"@,
                                        expected: TypeModel::UserType(name@),
                                        found: bt,
                                    },
                                )
                            } else {
                                cb
                            },
                            None => cb,
                        }
                    },
                    None => c,
                };
                let c2 = check_inits(t, f, c1, name@, sfields, fields@, in_loop, 0);
                let c3 = if base is None {
                    let missing = missing_names(
                        sfields.map_values(|x: (Seq<char>, TypeModel)| x.0),
                        init_names(fields@),
                    );
                    if missing.len() > 0 {
                        c2.report(ErrorM::MissingFields { struct_name: name@, missing })
                    } else {
                        c2
                    }
                } else {
                    c2
                };
                (c3, Some(TypeModel::UserType(name@)))
            },
        },
        _ => (c, None),
    }
}

// ---- statements ----

/// The statements of a block from the `k`-th on.
pub open spec fn check_stmts(
    t: TablesM,
    f: FnM,
    c: CtxM,
    stmts: Seq<Stmt>,
    in_loop: bool,
    k: int,
) -> CtxM
    decreases stmts, stmts.len() - k,
{
    if !(0 <= k < stmts.len()) {
        c
    } else {
        check_stmts(t, f, check_stmt(t, f, c, stmts[k], in_loop), stmts, in_loop, k + 1)
    }
}

/// What an assignment to an element of `array` adds, once the index and the value have
/// been checked.
pub open spec fn index_assign_result(
    c: CtxM,
    array: Seq<char>,
    var_ty: Option<TypeModel>,
    it: Option<TypeModel>,
    vt: Option<TypeModel>,
) -> CtxM {
    match var_ty {
        None => c.report(ErrorM::UndefinedVariable(array)),
        Some(TypeModel::Array(elem, _)) => {
            let c1 = match it {
                Some(it) => if it != TypeModel::U8 {
                    c.report(ErrorM::ArrayIndexNotU8(it))
                } else {
                    c
                },
                None => c,
            };
            match vt {
                Some(vt) => if !compatible(*elem, vt) {
                    c1.report(ErrorM::AssignmentTypeMismatch { expected: *elem, found: vt })
                } else {
                    c1
                },
                None => c1,
            }
        },
        Some(other) => c.report(ErrorM::CannotIndex(other)),
    }
}

/// Checks a statement.
pub open spec fn check_stmt(t: TablesM, f: FnM, c: CtxM, st: Stmt, in_loop: bool) -> CtxM
    decreases st, 0nat,
{
    match st.kind {
        StmtKind::Let { name, ty, value } => {
            let c1 = check_type_exists(t, c, ty@);
            let (c2, vt) = check_expr(t, f, c1, value, in_loop);
            let c3 = match vt {
                Some(vt) => if !compatible(ty@, vt) {
                    c2.report(
                        ErrorM::TypeMismatch {
                            context: "type mismatch in let"@,
                            expected: ty@,
                            found: vt,
                        },
                    )
                } else {
                    c2
                },
                None => c2,
            };
            add_local(f, c3, name@, ty@)
        },
        StmtKind::Assign { name, value } => {
            let var_ty = var_type(t, c, name@);
            let c1 = if var_ty is Some && immutable_global(t, c, name@) {
                c.report(ErrorM::ImmutableAssignment(name@))
            } else {
                c
            };
            let (c2, vt) = check_expr(t, f, c1, value, in_loop);
            match (var_ty, vt) {
                (None, _) => c2.report(ErrorM::UndefinedVariable(name@)),
                (Some(x), Some(y)) => if !compatible(x, y) {
                    c2.report(ErrorM::AssignmentTypeMismatch { expected: x, found: y })
                } else {
                    c2
                },
                _ => c2,
            }
        },
        StmtKind::IndexAssign { array, index, value } => {
            let var_ty = var_type(t, c, array@);
            let c1 = if var_ty is Some && immutable_global(t, c, array@) {
                c.report(ErrorM::ImmutableAssignment(array@))
            } else {
                c
            };
            let (c2, it) = check_expr(t, f, c1, index, in_loop);
            let (c3, vt) = check_expr(t, f, c2, value, in_loop);
            index_assign_result(c3, array@, var_ty, it, vt)
        },
        StmtKind::Expr(e) => check_expr(t, f, c, e, in_loop).0,
        StmtKind::Return(e) => {
            let (c1, rt) = match e {
                Some(e) => check_expr(t, f, c, e, in_loop),
                None => (c, Some(TypeModel::Unit)),
            };
            match (f.ret, rt) {
                (Some(x), Some(y)) => if !compatible(x, y) {
                    c1.report(
                        ErrorM::TypeMismatch { context: "return type mismatch"@, expected: x, found: y },
                    )
                } else {
                    c1
                },
                _ => c1,
            }
        },
        StmtKind::Break => if !in_loop {
            c.report(ErrorM::BreakOutsideLoop)
        } else {
            c
        },
    }
}


// ---- functions and the whole program ----

/// The locals that the parameters give, each added as a `let` would add it.
pub open spec fn param_locals(locals: Seq<(Seq<char>, TypeModel)>, params: Seq<Param>) -> Seq<
    (Seq<char>, TypeModel),
>
    decreases params.len(),
{
    if params.len() == 0 {
        locals
    } else {
        insert(param_locals(locals, params.drop_last()), params.last().name@, params.last().ty@)
    }
}

/// How many locals take a register: all but structs, which live in memory.
pub open spec fn register_count(t: TablesM, locals: Seq<(Seq<char>, TypeModel)>) -> nat
    decreases locals.len(),
{
    if locals.len() == 0 {
        0
    } else {
        register_count(t, locals.drop_last()) + if is_struct(t, locals.last().1) {
            0nat
        } else {
            1nat
        }
    }
}

/// The errors after checking a function body against its signature and the register
/// limit.
pub open spec fn check_function(
    t: TablesM,
    errors: Seq<ErrorM>,
    params: Seq<Param>,
    ret: TypeModel,
    body: Expr,
) -> Seq<ErrorM> {
    let f = FnM { in_function: true, ret: Some(ret) };
    let c0 = CtxM { locals: param_locals(seq![], params), errors };
    let (c1, bt) = check_expr(t, f, c0, body, false);
    let c2 = match bt {
        Some(bt) => if !compatible(ret, bt) {
            c1.report(
                ErrorM::TypeMismatch { context: "return type mismatch"@, expected: ret, found: bt },
            )
        } else {
            c1
        },
        None => c1,
    };
    let n = register_count(t, c2.locals);
    if n > 10 {
        c2.report(ErrorM::TooManyLocals { count: n, max: 10 }).errors
    } else {
        c2.errors
    }
}

/// The parameter types of a signature.
pub open spec fn param_types_m(params: Seq<Param>) -> Seq<TypeModel> {
    params.map_values(|p: Param| p.ty@)
}

/// The fields of a struct as values.
pub open spec fn fields_m(s: Seq<StructField>) -> Seq<(Seq<char>, TypeModel)> {
    s.map_values(|x: StructField| (x.name@, x.ty@))
}

/// The tables after registering the definitions of `tops`, in order.
pub open spec fn register(t: TablesM, tops: Seq<TopLevel>) -> TablesM
    decreases tops.len(),
{
    if tops.len() == 0 {
        t
    } else {
        let t1 = register(t, tops.drop_last());
        match tops.last() {
            TopLevel::LetDef { name, ty, mutable, .. } => TablesM {
                globals: insert(t1.globals, name@, (ty@, mutable)),
                ..t1
            },
            TopLevel::FnDef { name, params, return_type, .. } => TablesM {
                functions: insert(t1.functions, name@, (param_types_m(params@), return_type@)),
                ..t1
            },
            TopLevel::EnumDef { name, variants, .. } => TablesM {
                enums: insert(t1.enums, name@, names_m(variants@)),
                ..t1
            },
            TopLevel::StructDef { name, fields, .. } => TablesM {
                structs: insert(t1.structs, name@, fields_m(fields@)),
                ..t1
            },
        }
    }
}

/// The parameter types of a signature, each checked to exist.
pub open spec fn check_params_exist(t: TablesM, c: CtxM, params: Seq<Param>) -> CtxM
    decreases params.len(),
{
    if params.len() == 0 {
        c
    } else {
        check_type_exists(t, check_params_exist(t, c, params.drop_last()), params.last().ty@)
    }
}

/// The types of every signature and global, each checked to exist.
pub open spec fn check_signatures(t: TablesM, c: CtxM, tops: Seq<TopLevel>) -> CtxM
    decreases tops.len(),
{
    if tops.len() == 0 {
        c
    } else {
        let c1 = check_signatures(t, c, tops.drop_last());
        match tops.last() {
            TopLevel::FnDef { params, return_type, .. } => check_type_exists(
                t,
                check_params_exist(t, c1, params@),
                return_type@,
            ),
            TopLevel::LetDef { ty, .. } => check_type_exists(t, c1, ty@),
            _ => c1,
        }
    }
}

/// Every global's value and every function's body, checked in order.
pub open spec fn check_bodies(t: TablesM, c: CtxM, tops: Seq<TopLevel>) -> CtxM
    decreases tops.len(),
{
    if tops.len() == 0 {
        c
    } else {
        let c1 = check_bodies(t, c, tops.drop_last());
        match tops.last() {
            TopLevel::LetDef { ty, value, .. } => {
                let (c2, vt) = check_expr(t, FnM { in_function: false, ret: None }, c1, value, false);
                match vt {
                    Some(vt) => if !compatible(ty@, vt) {
                        c2.report(
                            ErrorM::TypeMismatch { context: "type mismatch"@, expected: ty@, found: vt },
                        )
                    } else {
                        c2
                    },
                    None => c2,
                }
            },
            TopLevel::FnDef { params, return_type, body, .. } => CtxM {
                locals: seq![],
                errors: check_function(t, c1.errors, params@, return_type@, body),
            },
            _ => c1,
        }
    }
}

/// No definitions yet.
pub open spec fn empty_tables() -> TablesM {
    TablesM { globals: seq![], functions: seq![], enums: seq![], structs: seq![] }
}

/// The errors of a program, in the order the analyzer reports them: a missing `main`,
/// unknown types in signatures and globals, then the errors in the globals' values and
/// the functions' bodies.
pub open spec fn program_errors(tops: Seq<TopLevel>) -> Seq<ErrorM> {
    let t = register(empty_tables(), tops);
    let e0 = if lookup(t.functions, seq!['m', 'a', 'i', 'n']) is None {
        seq![ErrorM::MissingMain]
    } else {
        seq![]
    };
    let c1 = check_signatures(t, CtxM { locals: seq![], errors: e0 }, tops);
    check_bodies(t, c1, tops).errors
}

// ---- laws ----

/// The type of a literal: `u8` for an integer, `bool` for `true` or `false`.
pub open spec fn literal_type(e: Expr) -> Option<TypeModel> {
    match e.kind {
        ExprKind::IntLiteral(_) => Some(TypeModel::U8),
        ExprKind::BoolLiteral(_) => Some(TypeModel::Bool),
        _ => None,
    }
}

/// Checking the literal arguments of a call from the `k`-th on keeps the locals and the
/// errors before, and adds an argument type error for each argument whose type is not the
/// declared parameter type, and no error when every one is.
proof fn lemma_literal_args(
    t: TablesM,
    f: FnM,
    c: CtxM,
    name: Seq<char>,
    params: Seq<TypeModel>,
    args: Seq<Expr>,
    in_loop: bool,
    k: int,
)
    requires
        0 <= k <= args.len(),
        params.len() == args.len(),
        forall|j: int| 0 <= j < args.len() ==> (#[trigger] literal_type(args[j])) is Some,
    ensures
        ({
            let c2 = check_call_args(t, f, c, name, params, args, in_loop, k);
            &&& c2.locals == c.locals
            &&& c.errors.len() <= c2.errors.len()
            &&& forall|i: int| 0 <= i < c.errors.len() ==> c2.errors[i] == c.errors[i]
            &&& forall|j: int|
                k <= j < args.len() && params[j] != literal_type(args[j])->0 ==> c2.errors.contains(
                    ErrorM::ArgumentTypeMismatch {
                        function: name,
                        expected: params[j],
                        found: literal_type(args[j])->0,
                    },
                )
            &&& (forall|j: int| k <= j < args.len() ==> params[j] == literal_type(args[j])->0) ==> c2.errors
                == c.errors
        }),
    decreases args.len() - k,
{
    if k < args.len() {
        let at = literal_type(args[k])->0;
        assert(literal_type(args[k]) is Some);
        assert(check_expr(t, f, c, args[k], in_loop) == (c, Some(at)));
        assert(compatible(params[k], at) == (params[k] == at)) by {
            lemma_compatible_literal(params[k], at);
        }
        let c1 = if params[k] != at {
            c.report(ErrorM::ArgumentTypeMismatch { function: name, expected: params[k], found: at })
        } else {
            c
        };
        lemma_literal_args(t, f, c1, name, params, args, in_loop, k + 1);
        let c2 = check_call_args(t, f, c, name, params, args, in_loop, k);
        assert(c2 == check_call_args(t, f, c1, name, params, args, in_loop, k + 1));
        if params[k] != at {
            assert(c2.errors[c.errors.len() as int] == c1.errors[c.errors.len() as int]);
        }
    }
}

/// Against a literal's type, a parameter type is compatible exactly when it is that type.
proof fn lemma_compatible_literal(p: TypeModel, at: TypeModel)
    requires
        at == TypeModel::U8 || at == TypeModel::Bool,
    ensures
        compatible(p, at) == (p == at),
{
}

/// A call of a user function whose arguments are literals, with as many arguments as the
/// function has parameters: the call has the function's return type, keeps the locals and
/// the errors found before, reports an argument type error (function, declared type, type
/// given) for every argument whose type is not its parameter's declared type, and reports
/// nothing when every argument has its parameter's type.
pub proof fn law_call_arguments_checked(t: TablesM, f: FnM, c: CtxM, e: Expr, in_loop: bool)
    requires
        e.kind matches ExprKind::Call { name, args } && lookup(t.functions, name@) matches Some(sig)
            && sig.0.len() == args.len() && forall|j: int|
            0 <= j < args.len() ==> (#[trigger] literal_type(args[j])) is Some,
    ensures
        e.kind matches ExprKind::Call { name, args } && lookup(t.functions, name@) matches Some(sig) && {
            let (c2, ty) = check_expr(t, f, c, e, in_loop);
            &&& ty == Some(sig.1)
            &&& c2.locals == c.locals
            &&& forall|i: int| 0 <= i < c.errors.len() ==> c2.errors[i] == c.errors[i]
            &&& forall|j: int|
                0 <= j < args.len() && sig.0[j] != literal_type(args[j])->0 ==> c2.errors.contains(
                    ErrorM::ArgumentTypeMismatch {
                        function: name@,
                        expected: sig.0[j],
                        found: literal_type(args[j])->0,
                    },
                )
            &&& (forall|j: int| 0 <= j < args.len() ==> sig.0[j] == literal_type(args[j])->0) ==> c2.errors
                == c.errors
        },
{
    if let ExprKind::Call { name, args } = e.kind {
        let sig = lookup(t.functions, name@)->0;
        lemma_literal_args(t, f, c, name@, sig.0, args@, in_loop, 0);
    }
}

/// The type of an argument that is a literal or a variable, as the context `c` knows it
/// (`None` for an unknown variable or another kind of expression).
pub open spec fn simple_type(t: TablesM, c: CtxM, e: Expr) -> Option<TypeModel> {
    match e.kind {
        ExprKind::Ident(name) => var_type(t, c, name@),
        _ => literal_type(e),
    }
}

/// Whether an expression is a literal or a variable.
pub open spec fn is_simple(e: Expr) -> bool {
    e.kind is IntLiteral || e.kind is BoolLiteral || e.kind is Ident
}

/// Checking literal or variable arguments of a call from the `k`-th on keeps the locals
/// and the errors before, and adds an argument type error for each argument whose type is
/// not compatible with its parameter's.
proof fn lemma_simple_args(
    t: TablesM,
    f: FnM,
    c: CtxM,
    name: Seq<char>,
    params: Seq<TypeModel>,
    args: Seq<Expr>,
    in_loop: bool,
    k: int,
)
    requires
        0 <= k <= args.len(),
        params.len() == args.len(),
        forall|j: int| 0 <= j < args.len() ==> #[trigger] is_simple(args[j]),
    ensures
        ({
            let c2 = check_call_args(t, f, c, name, params, args, in_loop, k);
            &&& c2.locals == c.locals
            &&& c.errors.len() <= c2.errors.len()
            &&& forall|i: int| 0 <= i < c.errors.len() ==> c2.errors[i] == c.errors[i]
            &&& forall|j: int|
                k <= j < args.len() && (#[trigger] simple_type(t, c, args[j])) is Some && !compatible(
                    params[j],
                    simple_type(t, c, args[j])->0,
                ) ==> c2.errors.contains(
                    ErrorM::ArgumentTypeMismatch {
                        function: name,
                        expected: params[j],
                        found: simple_type(t, c, args[j])->0,
                    },
                )
            &&& (forall|j: int|
                k <= j < args.len() ==> (#[trigger] simple_type(t, c, args[j])) is Some
                    && compatible(params[j], simple_type(t, c, args[j])->0)) ==> c2.errors == c.errors
        }),
    decreases args.len() - k,
{
    if k < args.len() {
        assert(is_simple(args[k]));
        let (c0, ty) = check_expr(t, f, c, args[k], in_loop);
        assert(c0.locals == c.locals);
        assert(ty == simple_type(t, c, args[k]));
        assert(ty is Some ==> c0 == c);
        assert(c.errors.len() <= c0.errors.len());
        assert(forall|i: int| 0 <= i < c.errors.len() ==> c0.errors[i] == c.errors[i]);
        let c1 = match ty {
            Some(at) => if !compatible(params[k], at) {
                c0.report(ErrorM::ArgumentTypeMismatch { function: name, expected: params[k], found: at })
            } else {
                c0
            },
            None => c0,
        };
        lemma_simple_args(t, f, c1, name, params, args, in_loop, k + 1);
        let c2 = check_call_args(t, f, c, name, params, args, in_loop, k);
        assert(c2 == check_call_args(t, f, c1, name, params, args, in_loop, k + 1));
        assert forall|j: int| 0 <= j < args.len() implies #[trigger] simple_type(t, c1, args[j])
            == simple_type(t, c, args[j]) by {}
        assert(forall|i: int| 0 <= i < c.errors.len() ==> c1.errors[i] == c.errors[i]);
        assert forall|j: int|
            k < j < args.len() && (#[trigger] simple_type(t, c, args[j])) is Some && !compatible(
                params[j],
                simple_type(t, c, args[j])->0,
            ) implies c2.errors.contains(
            ErrorM::ArgumentTypeMismatch {
                function: name,
                expected: params[j],
                found: simple_type(t, c, args[j])->0,
            },
        ) by {
            assert(simple_type(t, c1, args[j]) == simple_type(t, c, args[j]));
        }
        if let Some(at) = ty {
          if !compatible(params[k], at) {
            assert(c2.errors[c.errors.len() as int] == c1.errors[c.errors.len() as int]);
            assert(c2.errors.contains(
                ErrorM::ArgumentTypeMismatch { function: name, expected: params[k], found: at },
            ));
          }
        }
        if forall|j: int|
            k <= j < args.len() ==> (#[trigger] simple_type(t, c, args[j])) is Some && compatible(
                params[j],
                simple_type(t, c, args[j])->0,
            ) {
            assert(simple_type(t, c, args[k]) is Some);
            assert(c1 == c);
        }
    }
}

/// A call of a user function whose arguments are literals or variables, as many as the
/// function has parameters: the call has the function's return type, keeps the locals and
/// the errors found before, reports an argument type error (function, declared type, type
/// given) for every argument whose type is not compatible with its parameter's declared
/// type, and reports nothing when every argument is a known literal or variable whose type
/// is compatible.
pub proof fn law_call_simple_arguments_checked(t: TablesM, f: FnM, c: CtxM, e: Expr, in_loop: bool)
    requires
        e.kind matches ExprKind::Call { name, args } && lookup(t.functions, name@) matches Some(sig)
            && sig.0.len() == args.len() && forall|j: int| 0 <= j < args.len() ==> #[trigger] is_simple(args[j]),
    ensures
        e.kind matches ExprKind::Call { name, args } && lookup(t.functions, name@) matches Some(sig) && {
            let (c2, ty) = check_expr(t, f, c, e, in_loop);
            &&& ty == Some(sig.1)
            &&& c2.locals == c.locals
            &&& forall|i: int| 0 <= i < c.errors.len() ==> c2.errors[i] == c.errors[i]
            &&& forall|j: int|
                0 <= j < args.len() && (#[trigger] simple_type(t, c, args[j])) is Some && !compatible(
                    sig.0[j],
                    simple_type(t, c, args[j])->0,
                ) ==> c2.errors.contains(
                    ErrorM::ArgumentTypeMismatch {
                        function: name@,
                        expected: sig.0[j],
                        found: simple_type(t, c, args[j])->0,
                    },
                )
            &&& (forall|j: int|
                0 <= j < args.len() ==> (#[trigger] simple_type(t, c, args[j])) is Some
                    && compatible(sig.0[j], simple_type(t, c, args[j])->0)) ==> c2.errors == c.errors
        },
{
    if let ExprKind::Call { name, args } = e.kind {
        let sig = lookup(t.functions, name@)->0;
        lemma_simple_args(t, f, c, name@, sig.0, args@, in_loop, 0);
    }
}

} // verus!

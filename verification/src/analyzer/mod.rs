pub mod report;
pub mod rules;

use vstd::prelude::*;

use crate::parser::ast::{
    types_view, clone_type, type_eq, BinOp, BuiltinFunction, Expr, ExprKind, MatchArm, Program, Stmt,
    StmtKind, StructField, TopLevel, Type, TypeModel, UnaryOp,
};
use crate::table::{contains_name, find_key, has_key, insert_key, key_first};
use rules::{
    fields_m, param_types_m, program_errors, register, empty_tables, add_local, check_arm_bodies, check_builtin, check_builtin_args, check_call_args, check_elems,
    check_expr, check_inits, check_match, check_stmt, check_stmts, check_struct_literal,
    check_type_exists, covered_variants, error_m, errors_m, immutable_global, init_names,
    is_struct, keys_agree, lemma_found, lemma_not_found, lookup, missing_names, names_m,
    pattern_errors, var_type, CtxM, ErrorM, FnM, TablesM,
};
use crate::text::{same_text};

verus! {

/// The number of user registers (V0-VE).
pub const USER_REGISTER_COUNT: usize = 15;

/// The most temporaries code generation needs while evaluating an expression.
pub const MAX_TEMP_REGISTERS: usize = 5;

/// The most register-held locals a function may have (parameters included).
pub const MAX_LOCALS: usize = 10;

/// The kind of a semantic error.
#[derive(Debug, Clone, PartialEq, Eq)]
pub enum AnalyzeErrorKind {
    /// No `main` function is defined.
    MissingMain,
    /// A variable that is not defined.
    UndefinedVariable(String),
    /// A function that is not defined.
    UndefinedFunction(String),
    /// A type mismatch (`context` says where: "type mismatch in let", "return type mismatch", ...).
    TypeMismatch { context: &'static str, expected: Type, found: Type },
    /// The operands of a binary operator differ in type.
    BinaryOpTypeMismatch { lhs: Type, rhs: Type },
    /// A user function called with the wrong number of arguments.
    ArgumentCountMismatch { function: String, expected: usize, found: usize },
    /// A user function called with an argument of the wrong type.
    ArgumentTypeMismatch { function: String, expected: Type, found: Type },
    /// A built-in function called with the wrong number of arguments.
    BuiltinArgCountMismatch { builtin: BuiltinFunction, expected: usize, found: usize },
    /// A built-in function called with an argument of the wrong type.
    BuiltinArgTypeMismatch { builtin: BuiltinFunction, expected: Type, found: Type },
    /// A logical operator applied to something other than `bool`.
    LogicalOpRequiresBool(Type),
    /// Negation applied to something other than `u8`.
    NegationRequiresU8(Type),
    /// Logical not applied to something other than `bool`.
    LogicalNotRequiresBool(Type),
    /// An `if` condition that is not `bool`.
    IfConditionNotBool(Type),
    /// `if` and `else` branches of different types.
    IfElseBranchMismatch { then_type: Type, else_type: Type },
    /// More register-held locals than the registers left after the temporaries.
    TooManyLocals { count: usize, max: usize },
    /// Indexing into something that is not an array.
    CannotIndex(Type),
    /// An array index that is not `u8`.
    ArrayIndexNotU8(Type),
    /// Array elements of different types.
    ArrayElementMismatch,
    /// `break` outside of a loop.
    BreakOutsideLoop,
    /// An assignment of a value of the wrong type.
    AssignmentTypeMismatch { expected: Type, found: Type },
    /// A `match` on something that is neither `u8` nor an enum.
    MatchScrutineeType(Type),
    /// A `match` pattern that is neither a literal nor an enum variant.
    MatchArmPatternNotLiteral,
    /// `match` arms of different types.
    MatchArmTypeMismatch { first: Type, found: Type },
    /// A `match` with no arms.
    MatchNoArms,
    /// An enum that is not defined.
    UndefinedEnum(String),
    /// A variant that the enum does not have.
    UndefinedEnumVariant { enum_name: String, variant: String },
    /// A `match` on an enum that misses variants.
    NonExhaustiveMatch { enum_name: String, missing: Vec<String> },
    /// A type name that names no enum or struct.
    UnknownType(String),
    /// `random_enum` given something that is not an enum name.
    RandomEnumArgNotEnum(String),
    /// A struct that is not defined.
    UndefinedStruct(String),
    /// A field that the struct does not have.
    UndefinedField { struct_name: String, field: String },
    /// A struct literal without some fields (and no `..base`).
    MissingFields { struct_name: String, missing: Vec<String> },
    /// A struct literal that gives a field twice.
    DuplicateField { struct_name: String, field: String },
    /// Field access on something that is not a struct.
    FieldAccessOnNonStruct(Type),
    /// An assignment to a global that is not `mut`.
    ImmutableAssignment(String),
}

/// A semantic error.
#[derive(Debug, Clone, PartialEq, Eq)]
pub struct AnalyzeError {
    pub kind: AnalyzeErrorKind,
}

/// The signature of a user function.
struct FnSig {
    params: Vec<Type>,
    return_type: Type,
}

/// Whether a value of type `actual` may stand where `expected` is required.
///
/// Types match structurally; any sprite matches any sprite, and a sprite of `n` rows
/// accepts a `u8` array of length `n`.
pub open spec fn compatible(expected: TypeModel, actual: TypeModel) -> bool
    decreases expected,
{
    match (expected, actual) {
        (TypeModel::U8, TypeModel::U8) => true,
        (TypeModel::Bool, TypeModel::Bool) => true,
        (TypeModel::Unit, TypeModel::Unit) => true,
        (TypeModel::Array(e1, s1), TypeModel::Array(e2, s2)) => s1 == s2 && compatible(*e1, *e2),
        (TypeModel::Sprite(_), TypeModel::Sprite(_)) => true,
        (TypeModel::Sprite(n), TypeModel::Array(elem, m)) => n == m && *elem == TypeModel::U8,
        (TypeModel::UserType(a), TypeModel::UserType(b)) => a == b,
        _ => false,
    }
}

/// Every type is compatible with itself.
pub proof fn lemma_compatible_reflexive(t: TypeModel)
    ensures
        compatible(t, t),
    decreases t,
{
    if let TypeModel::Array(e, _) = t {
        lemma_compatible_reflexive(*e);
    }
}

/// `b` starts with `a`.
pub open spec fn extends(a: Seq<AnalyzeError>, b: Seq<AnalyzeError>) -> bool {
    a.len() <= b.len() && forall|i: int| 0 <= i < a.len() ==> b[i] == a[i]
}

/// Whether a program defines a function named `main`.
pub open spec fn defines_main(program: Program) -> bool {
    exists|i: int| 0 <= i < program.top_levels@.len() && #[trigger] is_main_def(program.top_levels@[i])
}

/// Whether a definition is a function named `main`.
pub open spec fn is_main_def(t: TopLevel) -> bool {
    t matches TopLevel::FnDef { name, .. } && name@ == seq!['m', 'a', 'i', 'n']
}

/// Whether an error list holds a `MissingMain` error.
pub open spec fn reports_missing_main(errors: Seq<AnalyzeError>) -> bool {
    exists|i: int| 0 <= i < errors.len() && errors[i].kind is MissingMain
}

/// The semantic analyzer: type checking, scope resolution and the CHIP-8 register limit.
pub struct Analyzer {
    /// Global variables: name, type, whether `mut`.
    globals: Vec<(String, (Type, bool))>,
    /// User function signatures.
    functions: Vec<(String, FnSig)>,
    /// User enums: name, variants.
    enums: Vec<(String, Vec<String>)>,
    /// User structs: name, fields.
    structs: Vec<(String, Vec<StructField>)>,
    /// Locals of the function being checked.
    locals: Vec<(String, Type)>,
    /// Whether a function body is being checked.
    in_function: bool,
    /// The return type of the function being checked.
    current_return_type: Option<Type>,
    /// The errors found so far.
    errors: Vec<AnalyzeError>,
}

/// The global variables as values.
spec fn globals_m(s: Seq<(String, (Type, bool))>) -> Seq<(Seq<char>, (TypeModel, bool))> {
    s.map_values(|e: (String, (Type, bool))| (e.0@, (e.1.0@, e.1.1)))
}

/// The function signatures as values.
spec fn functions_m(s: Seq<(String, FnSig)>) -> Seq<(Seq<char>, (Seq<TypeModel>, TypeModel))> {
    s.map_values(|e: (String, FnSig)| (e.0@, (types_view(e.1.params@), e.1.return_type@)))
}

/// The enums as values.
spec fn enums_m(s: Seq<(String, Vec<String>)>) -> Seq<(Seq<char>, Seq<Seq<char>>)> {
    s.map_values(|e: (String, Vec<String>)| (e.0@, names_m(e.1@)))
}

/// The structs as values.
spec fn structs_m(s: Seq<(String, Vec<StructField>)>) -> Seq<(Seq<char>, Seq<(Seq<char>, TypeModel)>)> {
    s.map_values(|e: (String, Vec<StructField>)| (e.0@, fields_m(e.1@)))
}

/// The locals as values.
spec fn locals_m(s: Seq<(String, Type)>) -> Seq<(Seq<char>, TypeModel)> {
    s.map_values(|e: (String, Type)| (e.0@, e.1@))
}

/// An optional type as a value.
pub open spec fn opt_type_m(t: Option<Type>) -> Option<TypeModel> {
    match t {
        Some(t) => Some(t@),
        None => None,
    }
}

impl Analyzer {
    /// The definitions known to the analyzer.
    pub closed spec fn tables_m(self) -> TablesM {
        TablesM {
            globals: globals_m(self.globals@),
            functions: functions_m(self.functions@),
            enums: enums_m(self.enums@),
            structs: structs_m(self.structs@),
        }
    }

    /// The function being checked.
    pub closed spec fn fn_m(self) -> FnM {
        FnM { in_function: self.in_function, ret: opt_type_m(self.current_return_type) }
    }

    /// The locals and the errors so far.
    pub closed spec fn ctx_m(self) -> CtxM {
        CtxM { locals: locals_m(self.locals@), errors: errors_m(self.errors@) }
    }

    /// Only the locals and the errors differ.
    spec fn same_defs(self, other: Self) -> bool {
        &&& self.globals@ == other.globals@
        &&& self.functions@ == other.functions@
        &&& self.enums@ == other.enums@
        &&& self.structs@ == other.structs@
        &&& self.in_function == other.in_function
        &&& self.current_return_type == other.current_return_type
    }
}

impl Analyzer {
    /// Nothing has been registered or reported yet.
    pub closed spec fn fresh(self) -> bool {
        &&& self.globals@.len() == 0
        &&& self.functions@.len() == 0
        &&& self.enums@.len() == 0
        &&& self.structs@.len() == 0
        &&& self.errors@.len() == 0
        &&& self.locals@.len() == 0
        &&& !self.in_function
        &&& self.current_return_type is None
    }

    /// The errors reported so far.
    pub closed spec fn reported(self) -> Seq<AnalyzeError> {
        self.errors@
    }

    pub fn new() -> (r: Self)
        ensures
            r.fresh(),
            r.reported().len() == 0,
    {
        Self {
            globals: Vec::new(),
            functions: Vec::new(),
            enums: Vec::new(),
            structs: Vec::new(),
            locals: Vec::new(),
            in_function: false,
            current_return_type: None,
            errors: Vec::new(),
        }
    }

    /// Checks a program. Every error found is reported, in the order found.
    ///
    /// On a fresh analyzer the errors are those that `program_errors` gives.
    #[verifier::loop_isolation(false)]
    pub fn analyze(&mut self, program: &Program) -> (r: Result<(), Vec<AnalyzeError>>)
        ensures
            extends(old(self).reported(), final(self).reported()),
            r is Ok <==> final(self).reported().len() == 0,
            r matches Err(es) ==> es@.len() == final(self).reported().len() && forall|i: int|
                0 <= i < es@.len() ==> same_error(#[trigger] es@[i], final(self).reported()[i]),
            old(self).fresh() ==> errors_m(final(self).reported()) == program_errors(
                program.top_levels@,
            ),
            old(self).fresh() ==> (r is Ok <==> program_errors(program.top_levels@).len() == 0),
            old(self).fresh() ==> (r matches Err(es) ==> errors_m(es@) == program_errors(
                program.top_levels@,
            )),
            old(self).fresh() && !defines_main(*program) ==> (r matches Err(es)
                && reports_missing_main(es@)),
    {
        let ghost before = self.errors@;
        let ghost tops = program.top_levels@;
        let ghost t0 = self.tables_m();
        let ghost fresh0 = self.fresh();
        proof {
            if fresh0 {
                assert(t0 == empty_tables()) by {
                    assert(t0.globals =~= Seq::<(Seq<char>, (TypeModel, bool))>::empty());
                    assert(t0.functions =~= Seq::<(Seq<char>, (Seq<TypeModel>, TypeModel))>::empty());
                    assert(t0.enums =~= Seq::<(Seq<char>, Seq<Seq<char>>)>::empty());
                    assert(t0.structs =~= Seq::<(Seq<char>, Seq<(Seq<char>, TypeModel)>)>::empty());
                }
            }
        }
        // pass 1: register every top-level definition
        let mut i: usize = 0;
        while i < program.top_levels.len()
            invariant
                i <= program.top_levels.len(),
                self.errors@ == before,
                self.locals@ == old(self).locals@,
                self.in_function == old(self).in_function,
                self.current_return_type == old(self).current_return_type,
                self.tables_m() == register(t0, tops.take(i as int)),
                has_key(self.functions@, seq!['m', 'a', 'i', 'n']) && !has_key(
                    old(self).functions@,
                    seq!['m', 'a', 'i', 'n'],
                ) ==> exists|j: int| 0 <= j < i && #[trigger] is_main_def(program.top_levels@[j]),
            decreases program.top_levels.len() - i,
        {
            proof {
                let a = tops.take(i + 1);
                assert(a.drop_last() =~= tops.take(i as int));
                assert(a.last() == tops[i as int]);
            }
            match &program.top_levels[i] {
                TopLevel::LetDef { name, ty, mutable, .. } => {
                    self.register_global(name, ty, *mutable);
                },
                TopLevel::FnDef { name, params, return_type, .. } => {
                    self.register_function(name, params, return_type);
                    proof {
                        if name@ == seq!['m', 'a', 'i', 'n'] {
                            assert(is_main_def(program.top_levels@[i as int]));
                        }
                    }
                },
                TopLevel::EnumDef { name, variants, .. } => {
                    self.register_enum(name, variants);
                },
                TopLevel::StructDef { name, fields, .. } => {
                    self.register_struct(name, fields);
                },
            }
            i = i + 1;
        }
        proof {
            assert(tops.take(i as int) =~= tops);
        }
        let ghost t = self.tables_m();
        // the `main` function must exist
        let main_name = main_string();
        let main_at = find_key(&self.functions, &main_name);
        proof {
            self.lemma_tables_agree();
            match main_at {
                Some(k) => lemma_found(self.functions@, t.functions, main_name@, k as int),
                None => lemma_not_found(self.functions@, t.functions, main_name@),
            }
        }
        let has_main = main_at.is_some();
        if !has_main {
            self.report(AnalyzeErrorKind::MissingMain);
        }
        let ghost after_main = self.errors@;
        let ghost c_main = self.ctx_m();
        proof {
            if old(self).fresh() && !defines_main(*program) {
                assert(!has_key(old(self).functions@, seq!['m', 'a', 'i', 'n']));
                assert(!has_main);
            }
            if fresh0 {
                assert(c_main == (CtxM {
                    locals: seq![],
                    errors: if lookup(t.functions, seq!['m', 'a', 'i', 'n']) is None {
                        seq![ErrorM::MissingMain]
                    } else {
                        seq![]
                    },
                })) by {
                    assert(locals_m(self.locals@) =~= Seq::<(Seq<char>, TypeModel)>::empty());
                    assert(errors_m(before) =~= Seq::<ErrorM>::empty());
                    if !has_main {
                        assert(errors_m(self.errors@) =~= seq![ErrorM::MissingMain]);
                    } else {
                        assert(errors_m(self.errors@) =~= Seq::<ErrorM>::empty());
                    }
                }
            }
        }
        // every user type in a signature or global must name an enum or a struct
        let mut i: usize = 0;
        while i < program.top_levels.len()
            invariant
                i <= program.top_levels.len(),
                extends(after_main, self.errors@),
                self.tables_m() == t,
                self.locals@ == old(self).locals@,
                self.in_function == old(self).in_function,
                self.current_return_type == old(self).current_return_type,
                self.ctx_m() == rules::check_signatures(t, c_main, tops.take(i as int)),
            decreases program.top_levels.len() - i,
        {
            proof {
                let a = tops.take(i + 1);
                assert(a.drop_last() =~= tops.take(i as int));
                assert(a.last() == tops[i as int]);
            }
            match &program.top_levels[i] {
                TopLevel::FnDef { params, return_type, .. } => {
                    let ghost c1 = self.ctx_m();
                    let mut k: usize = 0;
                    while k < params.len()
                        invariant
                            k <= params.len(),
                            extends(after_main, self.errors@),
                            self.tables_m() == t,
                            self.locals@ == old(self).locals@,
                            self.in_function == old(self).in_function,
                            self.current_return_type == old(self).current_return_type,
                            self.ctx_m() == rules::check_params_exist(t, c1, params@.take(k as int)),
                        decreases params.len() - k,
                    {
                        proof {
                            let a = params@.take(k + 1);
                            assert(a.drop_last() =~= params@.take(k as int));
                            assert(a.last() == params@[k as int]);
                        }
                        self.check_type_exists(&params[k].ty);
                        k = k + 1;
                    }
                    proof {
                        assert(params@.take(k as int) =~= params@);
                    }
                    self.check_type_exists(return_type);
                },
                TopLevel::LetDef { ty, .. } => {
                    self.check_type_exists(ty);
                },
                _ => {},
            }
            i = i + 1;
        }
        proof {
            assert(tops.take(i as int) =~= tops);
        }
        let ghost c_sig = self.ctx_m();
        // pass 2: check every body
        let mut i: usize = 0;
        while i < program.top_levels.len()
            invariant
                i <= program.top_levels.len(),
                extends(after_main, self.errors@),
                self.tables_m() == t,
                fresh0 ==> self.fn_m() == (FnM { in_function: false, ret: None }),
                fresh0 ==> self.ctx_m() == rules::check_bodies(t, c_sig, tops.take(i as int)),
            decreases program.top_levels.len() - i,
        {
            proof {
                let a = tops.take(i + 1);
                assert(a.drop_last() =~= tops.take(i as int));
                assert(a.last() == tops[i as int]);
            }
            match &program.top_levels[i] {
                TopLevel::LetDef { ty, value, .. } => {
                    let value_ty = self.type_check_expr(value, false);
                    if let Some(vt) = value_ty {
                        if !types_compatible(ty, &vt) {
                            self.report(
                                AnalyzeErrorKind::TypeMismatch {
                                    context: "type mismatch",
                                    expected: clone_type(ty),
                                    found: vt,
                                },
                            );
                        }
                    }
                },
                TopLevel::FnDef { params, return_type, body, .. } => {
                    self.check_function(params, return_type, body);
                    proof {
                        assert(locals_m(self.locals@) =~= Seq::<(Seq<char>, TypeModel)>::empty());
                    }
                },
                _ => {},
            }
            i = i + 1;
        }
        proof {
            assert(tops.take(i as int) =~= tops);
        }
        if self.errors.len() == 0 {
            proof {
                if old(self).fresh() && !defines_main(*program) {
                    assert(self.errors@[before.len() as int] == after_main[before.len() as int]);
                }
            }
            Ok(())
        } else {
            let es = clone_errors(&self.errors);
            proof {
                if old(self).fresh() && !defines_main(*program) {
                    let n = before.len() as int;
                    assert(after_main[n].kind is MissingMain);
                    assert(self.errors@[n] == after_main[n]);
                    assert(same_error(es@[n], self.errors@[n]));
                    assert(reports_missing_main(es@));
                }
                assert forall|k: int| 0 <= k < es@.len() implies #[trigger] errors_m(es@)[k]
                    == errors_m(self.errors@)[k] by {
                    lemma_same_error_m(es@[k], self.errors@[k]);
                }
                assert(errors_m(es@) =~= errors_m(self.errors@));
            }
            Err(es)
        }
    }

    /// Registers a global variable.
    fn register_global(&mut self, name: &String, ty: &Type, mutable: bool)
        ensures
            final(self).tables_m() == (TablesM {
                globals: rules::insert(old(self).tables_m().globals, name@, (ty@, mutable)),
                ..old(self).tables_m()
            }),
            final(self).functions@ == old(self).functions@,
            final(self).errors@ == old(self).errors@,
            final(self).locals@ == old(self).locals@,
            final(self).in_function == old(self).in_function,
            final(self).current_return_type == old(self).current_return_type,
    {
        let ghost b = self.globals@;
        let value = (clone_type(ty), mutable);
        insert_key(&mut self.globals, name.clone(), value);
        proof {
            old(self).lemma_tables_agree();
            let m = globals_m(b);
            if exists|i: int| key_first(b, name@, i) && self.globals@ == b.update(i, (*name, value)) {
                let i = choose|i: int| key_first(b, name@, i) && self.globals@ == b.update(i, (*name, value));
                lemma_found(b, m, name@, i);
                assert(globals_m(self.globals@) =~= m.update(i, (name@, (ty@, mutable))));
            } else {
                lemma_not_found(b, m, name@);
                assert(globals_m(self.globals@) =~= m.push((name@, (ty@, mutable))));
            }
        }
    }

    /// Registers a function's signature.
    fn register_function(&mut self, name: &String, params: &Vec<crate::parser::ast::Param>, return_type: &Type)
        ensures
            final(self).tables_m() == (TablesM {
                functions: rules::insert(
                    old(self).tables_m().functions,
                    name@,
                    (param_types_m(params@), return_type@),
                ),
                ..old(self).tables_m()
            }),
            has_key(final(self).functions@, name@),
            forall|k: Seq<char>| has_key(old(self).functions@, k) ==> has_key(final(self).functions@, k),
            forall|k: Seq<char>| has_key(final(self).functions@, k) ==> has_key(old(self).functions@, k) || k == name@,
            final(self).errors@ == old(self).errors@,
            final(self).locals@ == old(self).locals@,
            final(self).in_function == old(self).in_function,
            final(self).current_return_type == old(self).current_return_type,
    {
        let ghost b = self.functions@;
        let ps = param_types(params);
        let sig = FnSig { params: ps, return_type: clone_type(return_type) };
        let ghost vm = (param_types_m(params@), return_type@);
        proof {
            assert((types_view(sig.params@), sig.return_type@) == vm);
        }
        insert_key(&mut self.functions, name.clone(), sig);
        proof {
            old(self).lemma_tables_agree();
            let m = functions_m(b);
            if exists|i: int| key_first(b, name@, i) && self.functions@ == b.update(i, (*name, sig)) {
                let i = choose|i: int| key_first(b, name@, i) && self.functions@ == b.update(i, (*name, sig));
                lemma_found(b, m, name@, i);
                assert(functions_m(self.functions@) =~= m.update(i, (name@, vm)));
            } else {
                lemma_not_found(b, m, name@);
                assert(functions_m(self.functions@) =~= m.push((name@, vm)));
            }
        }
    }

    /// Registers an enum.
    fn register_enum(&mut self, name: &String, variants: &Vec<String>)
        ensures
            final(self).tables_m() == (TablesM {
                enums: rules::insert(old(self).tables_m().enums, name@, names_m(variants@)),
                ..old(self).tables_m()
            }),
            final(self).functions@ == old(self).functions@,
            final(self).errors@ == old(self).errors@,
            final(self).locals@ == old(self).locals@,
            final(self).in_function == old(self).in_function,
            final(self).current_return_type == old(self).current_return_type,
    {
        let ghost b = self.enums@;
        let vs = clone_names(variants);
        insert_key(&mut self.enums, name.clone(), vs);
        proof {
            old(self).lemma_tables_agree();
            let m = enums_m(b);
            if exists|i: int| key_first(b, name@, i) && self.enums@ == b.update(i, (*name, vs)) {
                let i = choose|i: int| key_first(b, name@, i) && self.enums@ == b.update(i, (*name, vs));
                lemma_found(b, m, name@, i);
                assert(enums_m(self.enums@) =~= m.update(i, (name@, names_m(variants@))));
            } else {
                lemma_not_found(b, m, name@);
                assert(enums_m(self.enums@) =~= m.push((name@, names_m(variants@))));
            }
        }
    }

    /// Registers a struct.
    fn register_struct(&mut self, name: &String, fields: &Vec<StructField>)
        ensures
            final(self).tables_m() == (TablesM {
                structs: rules::insert(old(self).tables_m().structs, name@, fields_m(fields@)),
                ..old(self).tables_m()
            }),
            final(self).functions@ == old(self).functions@,
            final(self).errors@ == old(self).errors@,
            final(self).locals@ == old(self).locals@,
            final(self).in_function == old(self).in_function,
            final(self).current_return_type == old(self).current_return_type,
    {
        let ghost b = self.structs@;
        let fs = clone_fields(fields);
        let ghost fm = fields_m(fields@);
        proof {
            assert(fields_m(fs@) =~= fm);
        }
        insert_key(&mut self.structs, name.clone(), fs);
        proof {
            old(self).lemma_tables_agree();
            let m = structs_m(b);
            if exists|i: int| key_first(b, name@, i) && self.structs@ == b.update(i, (*name, fs)) {
                let i = choose|i: int| key_first(b, name@, i) && self.structs@ == b.update(i, (*name, fs));
                lemma_found(b, m, name@, i);
                assert(structs_m(self.structs@) =~= m.update(i, (name@, fm)));
            } else {
                lemma_not_found(b, m, name@);
                assert(structs_m(self.structs@) =~= m.push((name@, fm)));
            }
        }
    }

    fn report(&mut self, kind: AnalyzeErrorKind)
        ensures
            final(self).errors@ == old(self).errors@.push(AnalyzeError { kind }),
            extends(old(self).errors@, final(self).errors@),
            final(self).locals == old(self).locals,
            final(self).in_function == old(self).in_function,
            final(self).same_defs(*old(self)),
            final(self).ctx_m() == old(self).ctx_m().report(error_m(kind)),
    {
        self.errors.push(AnalyzeError { kind });
        proof {
            assert(errors_m(self.errors@) =~= errors_m(old(self).errors@).push(error_m(kind)));
        }
    }

    /// Reports a user type that names no enum and no struct.
    fn check_type_exists(&mut self, ty: &Type)
        ensures
            extends(old(self).errors@, final(self).errors@),
            final(self).locals@ == old(self).locals@,
            final(self).same_defs(*old(self)),
            final(self).ctx_m() == check_type_exists(old(self).tables_m(), old(self).ctx_m(), ty@),
    {
        if let Type::UserType(name) = ty {
            let e = find_key(&self.enums, name);
            let st = find_key(&self.structs, name);
            proof {
                self.lemma_tables_agree();
                match e {
                    Some(i) => lemma_found(self.enums@, self.tables_m().enums, name@, i as int),
                    None => lemma_not_found(self.enums@, self.tables_m().enums, name@),
                }
                match st {
                    Some(i) => lemma_found(self.structs@, self.tables_m().structs, name@, i as int),
                    None => lemma_not_found(self.structs@, self.tables_m().structs, name@),
                }
            }
            if e.is_none() && st.is_none() {
                self.report(AnalyzeErrorKind::UnknownType(name.clone()));
            }
        }
    }

    /// Checks one function body against its signature and the register limit.
    #[verifier::loop_isolation(false)]
    fn check_function(&mut self, params: &Vec<crate::parser::ast::Param>, return_type: &Type, body: &Expr)
        ensures
            extends(old(self).errors@, final(self).errors@),
            final(self).globals@ == old(self).globals@,
            final(self).functions@ == old(self).functions@,
            final(self).enums@ == old(self).enums@,
            final(self).structs@ == old(self).structs@,
            final(self).locals@.len() == 0,
            !final(self).in_function,
            final(self).current_return_type is None,
            errors_m(final(self).errors@) == rules::check_function(
                old(self).tables_m(),
                errors_m(old(self).errors@),
                params@,
                return_type@,
                *body,
            ),
    {
        let ghost t = self.tables_m();
        self.current_return_type = Some(clone_type(return_type));
        self.locals = Vec::new();
        self.in_function = true;
        proof {
            assert(locals_m(self.locals@) =~= Seq::<(Seq<char>, TypeModel)>::empty());
        }
        let mut k: usize = 0;
        while k < params.len()
            invariant
                extends(old(self).errors@, self.errors@),
                k <= params.len(),
                self.errors@ == old(self).errors@,
                self.tables_m() == t,
                self.globals@ == old(self).globals@,
                self.functions@ == old(self).functions@,
                self.enums@ == old(self).enums@,
                self.structs@ == old(self).structs@,
                self.in_function,
                self.fn_m() == (FnM { in_function: true, ret: Some(return_type@) }),
                self.ctx_m().locals == rules::param_locals(seq![], params@.take(k as int)),
            decreases params.len() - k,
        {
            proof {
                let ps = params@.take(k + 1);
                assert(ps.drop_last() =~= params@.take(k as int));
                assert(ps.last() == params@[k as int]);
            }
            self.insert_local(params[k].name.clone(), clone_type(&params[k].ty));
            k = k + 1;
        }
        proof {
            assert(params@.take(k as int) =~= params@);
        }
        let body_ty = self.type_check_expr(body, false);
        if let Some(bt) = body_ty {
            if !types_compatible(return_type, &bt) {
                self.report(
                    AnalyzeErrorKind::TypeMismatch {
                        context: "return type mismatch",
                        expected: clone_type(return_type),
                        found: bt,
                    },
                );
            }
        }
        // struct values live in memory and take no register
        let ghost lm = self.ctx_m().locals;
        let mut reg_count: usize = 0;
        let mut k: usize = 0;
        while k < self.locals.len()
            invariant
                extends(old(self).errors@, self.errors@),
                k <= self.locals.len(),
                reg_count <= k,
                self.tables_m() == t,
                lm == self.ctx_m().locals,
                reg_count == rules::register_count(t, lm.take(k as int)),
            decreases self.locals.len() - k,
        {
            proof {
                let a = lm.take(k + 1);
                assert(a.drop_last() =~= lm.take(k as int));
                assert(a.last() == lm[k as int]);
            }
            if !self.is_struct_type(&self.locals[k].1) {
                reg_count = reg_count + 1;
            }
            k = k + 1;
        }
        proof {
            assert(lm.take(k as int) =~= lm);
        }
        if reg_count > MAX_LOCALS {
            self.report(AnalyzeErrorKind::TooManyLocals { count: reg_count, max: MAX_LOCALS });
        }
        self.locals = Vec::new();
        self.in_function = false;
        self.current_return_type = None;
    }

    /// Whether a type is a user struct.
    fn is_struct_type(&self, ty: &Type) -> (r: bool)
        ensures
            r == is_struct(self.tables_m(), ty@),
    {
        match ty {
            Type::UserType(name) => {
                let st = find_key(&self.structs, name);
                proof {
                    self.lemma_tables_agree();
                    match st {
                        Some(i) => lemma_found(self.structs@, self.tables_m().structs, name@, i as int),
                        None => lemma_not_found(self.structs@, self.tables_m().structs, name@),
                    }
                }
                st.is_some()
            },
            _ => false,
        }
    }

    /// Every table agrees with its value on the keys.
    proof fn lemma_tables_agree(self)
        ensures
            keys_agree(self.globals@, self.tables_m().globals),
            keys_agree(self.functions@, self.tables_m().functions),
            keys_agree(self.enums@, self.tables_m().enums),
            keys_agree(self.structs@, self.tables_m().structs),
            keys_agree(self.locals@, self.ctx_m().locals),
    {
    }

    fn insert_local(&mut self, name: String, ty: Type)
        ensures
            final(self).errors@ == old(self).errors@,
            final(self).in_function == old(self).in_function,
            final(self).same_defs(*old(self)),
            final(self).ctx_m() == add_local(old(self).fn_m(), old(self).ctx_m(), name@, ty@),
    {
        if self.in_function {
            let ghost nm = name@;
            let ghost tm = ty@;
            insert_key(&mut self.locals, name, ty);
            proof {
                let before = old(self).locals@;
                let m = locals_m(before);
                old(self).lemma_tables_agree();
                if exists|i: int| key_first(before, nm, i) && self.locals@ == before.update(i, (name, ty)) {
                    let i = choose|i: int| key_first(before, nm, i) && self.locals@ == before.update(i, (name, ty));
                    lemma_found(before, m, nm, i);
                    assert(locals_m(self.locals@) =~= m.update(i, (nm, tm)));
                } else {
                    lemma_not_found(before, m, nm);
                    assert(locals_m(self.locals@) =~= m.push((nm, tm)));
                }
            }
        }
    }

    /// The type of a variable: a local of the current function, else a global.
    fn lookup_var(&self, name: &String) -> (r: Option<Type>)
        ensures
            r is Some <==> has_key(self.locals@, name@) || has_key(self.globals@, name@),
            opt_type_m(r) == var_type(self.tables_m(), self.ctx_m(), name@),
    {
        proof {
            self.lemma_tables_agree();
        }
        match find_key(&self.locals, name) {
            Some(i) => {
                proof {
                    lemma_found(self.locals@, self.ctx_m().locals, name@, i as int);
                }
                Some(clone_type(&self.locals[i].1))
            },
            None => {
                proof {
                    lemma_not_found(self.locals@, self.ctx_m().locals, name@);
                }
                match find_key(&self.globals, name) {
                    Some(i) => {
                        proof {
                            lemma_found(self.globals@, self.tables_m().globals, name@, i as int);
                        }
                        Some(clone_type(&self.globals[i].1.0))
                    },
                    None => {
                        proof {
                            lemma_not_found(self.globals@, self.tables_m().globals, name@);
                        }
                        None
                    },
                }
            },
        }
    }

    #[verifier::loop_isolation(false)]
    fn type_check_expr(&mut self, expr: &Expr, in_loop: bool) -> (r: Option<Type>)
        ensures
            extends(old(self).errors@, final(self).errors@),
            final(self).same_defs(*old(self)),
            (final(self).ctx_m(), opt_type_m(r)) == check_expr(
                old(self).tables_m(),
                old(self).fn_m(),
                old(self).ctx_m(),
                *expr,
                in_loop,
            ),
        decreases expr, 1nat,
    {
        match &expr.kind {
            ExprKind::IntLiteral(_) => Some(Type::U8),
            ExprKind::BoolLiteral(_) => Some(Type::Bool),
            ExprKind::Ident(name) => {
                let ty = self.lookup_var(name);
                if ty.is_none() {
                    self.report(AnalyzeErrorKind::UndefinedVariable(name.clone()));
                }
                ty
            },
            ExprKind::BinaryOp { op, lhs, rhs } => {
                let lhs_ty = self.type_check_expr(lhs, in_loop);
                let rhs_ty = self.type_check_expr(rhs, in_loop);
                match (lhs_ty, rhs_ty) {
                    (Some(lt), Some(rt)) => {
                        if !types_compatible(&lt, &rt) {
                            self.report(AnalyzeErrorKind::BinaryOpTypeMismatch { lhs: lt, rhs: rt });
                            return None;
                        }
                        match op {
                            BinOp::Eq | BinOp::NotEq | BinOp::Lt | BinOp::Gt | BinOp::LtEq
                            | BinOp::GtEq => Some(Type::Bool),
                            BinOp::And | BinOp::Or => {
                                if !matches!(lt, Type::Bool) {
                                    self.report(AnalyzeErrorKind::LogicalOpRequiresBool(lt));
                                    None
                                } else {
                                    Some(Type::Bool)
                                }
                            },
                            _ => Some(Type::U8),
                        }
                    },
                    _ => None,
                }
            },
            ExprKind::UnaryOp { op, expr: inner } => {
                let ty = match self.type_check_expr(inner, in_loop) {
                    Some(ty) => ty,
                    None => return None,
                };
                match op {
                    UnaryOp::Neg => {
                        if !matches!(ty, Type::U8) {
                            self.report(AnalyzeErrorKind::NegationRequiresU8(ty));
                            None
                        } else {
                            Some(Type::U8)
                        }
                    },
                    UnaryOp::Not => {
                        if !matches!(ty, Type::Bool) {
                            self.report(AnalyzeErrorKind::LogicalNotRequiresBool(ty));
                            None
                        } else {
                            Some(Type::Bool)
                        }
                    },
                }
            },
            ExprKind::BuiltinCall { .. } => self.type_check_builtin(expr, in_loop),
            ExprKind::Call { .. } => self.type_check_call(expr, in_loop),
            ExprKind::If { .. } => self.type_check_if(expr, in_loop),
            ExprKind::Loop { body } => {
                self.type_check_expr(body, true);
                Some(Type::Unit)
            },
            ExprKind::Block { .. } => self.type_check_block(expr, in_loop),
            ExprKind::ArrayLiteral(_) => self.type_check_array(expr, in_loop),
            ExprKind::Match { .. } => self.type_check_match(expr, in_loop),
            ExprKind::StructLiteral { .. } => self.type_check_struct_literal(expr, in_loop),
            ExprKind::FieldAccess { .. } => self.type_check_field(expr, in_loop),
            ExprKind::EnumVariant { .. } => self.type_check_variant(expr, in_loop),
            ExprKind::Index { .. } => self.type_check_index(expr, in_loop),
        }
    }

    /// An `if` expression.
    #[verifier::loop_isolation(false)]
    fn type_check_if(&mut self, expr: &Expr, in_loop: bool) -> (r: Option<Type>)
        requires
            expr.kind is If,
        ensures
            extends(old(self).errors@, final(self).errors@),
            final(self).same_defs(*old(self)),
            (final(self).ctx_m(), opt_type_m(r)) == check_expr(
                old(self).tables_m(),
                old(self).fn_m(),
                old(self).ctx_m(),
                *expr,
                in_loop,
            ),
        decreases expr, 0nat,
    {
        let ghost t = self.tables_m();
        let ghost f = self.fn_m();
        let (cond, then_block, else_block) = match &expr.kind {
            ExprKind::If { cond, then_block, else_block } => (cond, then_block, else_block),
            _ => return None,
        };

        if let Some(cond_ty) = self.type_check_expr(cond, in_loop) {
            if !matches!(cond_ty, Type::Bool) {
                self.report(AnalyzeErrorKind::IfConditionNotBool(cond_ty));
            }
        }
        let then_ty = self.type_check_expr(then_block, in_loop);
        match else_block {
            Some(else_block) => {
                let else_ty = self.type_check_expr(else_block, in_loop);
                match (then_ty, else_ty) {
                    (Some(t), Some(e)) => {
                        if !types_compatible(&t, &e) {
                            self.report(
                                AnalyzeErrorKind::IfElseBranchMismatch {
                                    then_type: t,
                                    else_type: e,
                                },
                            );
                            None
                        } else {
                            Some(t)
                        }
                    },
                    _ => None,
                }
            },
            None => Some(Type::Unit),
        }
    }

    /// A block.
    #[verifier::loop_isolation(false)]
    fn type_check_block(&mut self, expr: &Expr, in_loop: bool) -> (r: Option<Type>)
        requires
            expr.kind is Block,
        ensures
            extends(old(self).errors@, final(self).errors@),
            final(self).same_defs(*old(self)),
            (final(self).ctx_m(), opt_type_m(r)) == check_expr(
                old(self).tables_m(),
                old(self).fn_m(),
                old(self).ctx_m(),
                *expr,
                in_loop,
            ),
        decreases expr, 0nat,
    {
        let ghost t = self.tables_m();
        let ghost f = self.fn_m();
        let (stmts, tail) = match &expr.kind {
            ExprKind::Block { stmts, expr: tail } => (stmts, tail),
            _ => return None,
        };

        let ghost c0 = self.ctx_m();
        let mut k: usize = 0;
        while k < stmts.len()
            invariant
                extends(old(self).errors@, self.errors@),
                self.same_defs(*old(self)),
                k <= stmts.len(),
                check_stmts(t, f, c0, stmts@, in_loop, 0) == check_stmts(
                    t,
                    f,
                    self.ctx_m(),
                    stmts@,
                    in_loop,
                    k as int,
                ),
            decreases stmts.len() - k,
        {
            self.type_check_stmt(&stmts[k], in_loop);
            k = k + 1;
        }
        match tail {
            Some(t) => self.type_check_expr(t, in_loop),
            None => Some(Type::Unit),
        }
    }

    /// An array literal.
    #[verifier::loop_isolation(false)]
    fn type_check_array(&mut self, expr: &Expr, in_loop: bool) -> (r: Option<Type>)
        requires
            expr.kind is ArrayLiteral,
        ensures
            extends(old(self).errors@, final(self).errors@),
            final(self).same_defs(*old(self)),
            (final(self).ctx_m(), opt_type_m(r)) == check_expr(
                old(self).tables_m(),
                old(self).fn_m(),
                old(self).ctx_m(),
                *expr,
                in_loop,
            ),
        decreases expr, 0nat,
    {
        let ghost t = self.tables_m();
        let ghost f = self.fn_m();
        let elems = match &expr.kind {
            ExprKind::ArrayLiteral(elems) => elems,
            _ => return None,
        };

        if elems.len() == 0 {
            let elem = Type::U8;
            proof {
                assert(elem@ == TypeModel::U8);
            }
            return Some(Type::Array(Box::new(elem), 0));
        }
        let first_ty = self.type_check_expr(&elems[0], in_loop);
        let ghost c1 = self.ctx_m();
        let mut k: usize = 1;
        while k < elems.len()
            invariant
                extends(old(self).errors@, self.errors@),
                self.same_defs(*old(self)),
                1 <= k <= elems.len(),
                check_elems(t, f, c1, opt_type_m(first_ty), elems@, in_loop, 1)
                    == check_elems(
                    t,
                    f,
                    self.ctx_m(),
                    opt_type_m(first_ty),
                    elems@,
                    in_loop,
                    k as int,
                ),
            decreases elems.len() - k,
        {
            let et = self.type_check_expr(&elems[k], in_loop);
            if let (Some(ft), Some(et)) = (&first_ty, et) {
                if !types_compatible(ft, &et) {
                    self.report(AnalyzeErrorKind::ArrayElementMismatch);
                }
            }
            k = k + 1;
        }
        match first_ty {
            Some(t) => Some(Type::Array(Box::new(t), elems.len())),
            None => None,
        }
    }

    /// A field access.
    #[verifier::loop_isolation(false)]
    fn type_check_field(&mut self, expr: &Expr, in_loop: bool) -> (r: Option<Type>)
        requires
            expr.kind is FieldAccess,
        ensures
            extends(old(self).errors@, final(self).errors@),
            final(self).same_defs(*old(self)),
            (final(self).ctx_m(), opt_type_m(r)) == check_expr(
                old(self).tables_m(),
                old(self).fn_m(),
                old(self).ctx_m(),
                *expr,
                in_loop,
            ),
        decreases expr, 0nat,
    {
        let ghost t = self.tables_m();
        let ghost f = self.fn_m();
        let (inner, field) = match &expr.kind {
            ExprKind::FieldAccess { expr: inner, field } => (inner, field),
            _ => return None,
        };

        let ty = match self.type_check_expr(inner, in_loop) {
            Some(ty) => ty,
            None => return None,
        };
        proof {
            self.lemma_tables_agree();
        }
        match &ty {
            Type::UserType(struct_name) => match find_key(&self.structs, struct_name) {
                Some(si) => {
                    proof {
                        lemma_found(self.structs@, t.structs, struct_name@, si as int);
                    }
                    match find_field(&self.structs[si].1, field) {
                        Some(fi) => {
                            proof {
                                lemma_field_found(self.structs@[si as int].1@, field@, fi as int);
                            }
                            Some(clone_type(&self.structs[si].1[fi].ty))
                        },
                        None => {
                            proof {
                                lemma_field_missing(self.structs@[si as int].1@, field@);
                            }
                            self.report(
                                AnalyzeErrorKind::UndefinedField {
                                    struct_name: struct_name.clone(),
                                    field: field.clone(),
                                },
                            );
                            None
                        },
                    }
                },
                None => {
                    proof {
                        lemma_not_found(self.structs@, t.structs, struct_name@);
                    }
                    // a user type but not a struct (an enum)
                    self.report(AnalyzeErrorKind::FieldAccessOnNonStruct(clone_type(&ty)));
                    None
                },
            },
            _ => {
                self.report(AnalyzeErrorKind::FieldAccessOnNonStruct(clone_type(&ty)));
                None
            },
        }
    }

    /// An enum variant.
    #[verifier::loop_isolation(false)]
    fn type_check_variant(&mut self, expr: &Expr, in_loop: bool) -> (r: Option<Type>)
        requires
            expr.kind is EnumVariant,
        ensures
            extends(old(self).errors@, final(self).errors@),
            final(self).same_defs(*old(self)),
            (final(self).ctx_m(), opt_type_m(r)) == check_expr(
                old(self).tables_m(),
                old(self).fn_m(),
                old(self).ctx_m(),
                *expr,
                in_loop,
            ),
        decreases expr, 0nat,
    {
        let ghost t = self.tables_m();
        let ghost f = self.fn_m();
        let (enum_name, variant) = match &expr.kind {
            ExprKind::EnumVariant { enum_name, variant } => (enum_name, variant),
            _ => return None,
        };

        proof {
            self.lemma_tables_agree();
        }
        match find_key(&self.enums, enum_name) {
            Some(ei) => {
                proof {
                    lemma_found(self.enums@, t.enums, enum_name@, ei as int);
                }
                if !contains_name(&self.enums[ei].1, variant) {
                    proof {
                        lemma_names_contains(self.enums@[ei as int].1@, variant@);
                    }
                    self.report(
                        AnalyzeErrorKind::UndefinedEnumVariant {
                            enum_name: enum_name.clone(),
                            variant: variant.clone(),
                        },
                    );
                    None
                } else {
                    proof {
                        lemma_names_contains(self.enums@[ei as int].1@, variant@);
                    }
                    Some(Type::UserType(enum_name.clone()))
                }
            },
            None => {
                proof {
                    lemma_not_found(self.enums@, t.enums, enum_name@);
                }
                self.report(AnalyzeErrorKind::UndefinedEnum(enum_name.clone()));
                None
            },
        }
    }

    /// Indexing into an array.
    #[verifier::loop_isolation(false)]
    fn type_check_index(&mut self, expr: &Expr, in_loop: bool) -> (r: Option<Type>)
        requires
            expr.kind is Index,
        ensures
            extends(old(self).errors@, final(self).errors@),
            final(self).same_defs(*old(self)),
            (final(self).ctx_m(), opt_type_m(r)) == check_expr(
                old(self).tables_m(),
                old(self).fn_m(),
                old(self).ctx_m(),
                *expr,
                in_loop,
            ),
        decreases expr, 0nat,
    {
        let ghost t = self.tables_m();
        let ghost f = self.fn_m();
        let (array, index) = match &expr.kind {
            ExprKind::Index { array, index } => (array, index),
            _ => return None,
        };

        match self.type_check_expr(array, in_loop) {
            Some(arr_ty) => match arr_ty {
                Type::Array(elem_ty, _) => {
                    if let Some(idx_ty) = self.type_check_expr(index, in_loop) {
                        if !matches!(idx_ty, Type::U8) {
                            self.report(AnalyzeErrorKind::ArrayIndexNotU8(idx_ty));
                        }
                    }
                    Some(*elem_ty)
                },
                _ => {
                    self.report(AnalyzeErrorKind::CannotIndex(arr_ty));
                    None
                },
            },
            None => {
                self.type_check_expr(index, in_loop);
                None
            },
        }
    }

    /// A call of a user function.
    #[verifier::loop_isolation(false)]
    fn type_check_call(&mut self, expr: &Expr, in_loop: bool) -> (r: Option<Type>)
        requires
            expr.kind is Call,
        ensures
            extends(old(self).errors@, final(self).errors@),
            final(self).same_defs(*old(self)),
            (final(self).ctx_m(), opt_type_m(r)) == check_expr(
                old(self).tables_m(),
                old(self).fn_m(),
                old(self).ctx_m(),
                *expr,
                in_loop,
            ),
        decreases expr, 0nat,
    {
        let ghost t = self.tables_m();
        let ghost f = self.fn_m();
        let (name, args) = match &expr.kind {
            ExprKind::Call { name, args } => (name, args),
            _ => return None,
        };
        proof {
            self.lemma_tables_agree();
        }
        let sig = match find_key(&self.functions, name) {
            Some(i) => {
                proof {
                    lemma_found(self.functions@, t.functions, name@, i as int);
                }
                (clone_types(&self.functions[i].1.params), clone_type(&self.functions[i].1.return_type))
            },
            None => {
                proof {
                    lemma_not_found(self.functions@, t.functions, name@);
                }
                self.report(AnalyzeErrorKind::UndefinedFunction(name.clone()));
                return None;
            },
        };
        let (params, return_type) = sig;
        if args.len() != params.len() {
            self.report(
                AnalyzeErrorKind::ArgumentCountMismatch {
                    function: name.clone(),
                    expected: params.len(),
                    found: args.len(),
                },
            );
            return None;
        }
        let ghost c0 = self.ctx_m();
        let ghost pm = types_view(params@);
        let mut k: usize = 0;
        while k < args.len()
            invariant
                extends(old(self).errors@, self.errors@),
                self.same_defs(*old(self)),
                k <= args.len(),
                args.len() == params.len(),
                pm == types_view(params@),
                check_call_args(t, f, c0, name@, pm, args@, in_loop, 0) == check_call_args(
                    t,
                    f,
                    self.ctx_m(),
                    name@,
                    pm,
                    args@,
                    in_loop,
                    k as int,
                ),
            decreases args.len() - k,
        {
            if let Some(arg_ty) = self.type_check_expr(&args[k], in_loop) {
                if !types_compatible(&params[k], &arg_ty) {
                    self.report(
                        AnalyzeErrorKind::ArgumentTypeMismatch {
                            function: name.clone(),
                            expected: clone_type(&params[k]),
                            found: arg_ty,
                        },
                    );
                }
            }
            k = k + 1;
        }
        Some(return_type)
    }

    #[verifier::loop_isolation(false)]
    fn type_check_builtin(&mut self, expr: &Expr, in_loop: bool) -> (r: Option<Type>)
        ensures
            extends(old(self).errors@, final(self).errors@),
            final(self).same_defs(*old(self)),
            (final(self).ctx_m(), opt_type_m(r)) == check_builtin(
                old(self).tables_m(),
                old(self).fn_m(),
                old(self).ctx_m(),
                *expr,
                in_loop,
            ),
        decreases expr, 0nat,
    {
        let ghost t = self.tables_m();
        let ghost f = self.fn_m();
        let (builtin, args) = match &expr.kind {
            ExprKind::BuiltinCall { builtin, args } => (*builtin, args),
            _ => return None,
        };
        // random_enum takes a type name (an enum name)
        if matches!(builtin, BuiltinFunction::RandomEnum) {
            if args.len() != 1 {
                self.report(
                    AnalyzeErrorKind::BuiltinArgCountMismatch {
                        builtin,
                        expected: 1,
                        found: args.len(),
                    },
                );
                return None;
            }
            match &args[0].kind {
                ExprKind::Ident(name) => {
                    proof {
                        self.lemma_tables_agree();
                    }
                    match find_key(&self.enums, name) {
                        Some(i) => {
                            proof {
                                lemma_found(self.enums@, t.enums, name@, i as int);
                            }
                            return Some(Type::UserType(name.clone()));
                        },
                        None => {
                            proof {
                                lemma_not_found(self.enums@, t.enums, name@);
                            }
                            self.report(AnalyzeErrorKind::RandomEnumArgNotEnum(name.clone()));
                            return None;
                        },
                    }
                },
                _ => {
                    let mut text = String::new();
                    crate::text::push_str(&mut text, "<non-identifier>");
                    self.report(AnalyzeErrorKind::RandomEnumArgNotEnum(text));
                    return None;
                },
            }
        }
        let (param_types, return_type) = builtin.signature();
        if args.len() != param_types.len() {
            self.report(
                AnalyzeErrorKind::BuiltinArgCountMismatch {
                    builtin,
                    expected: param_types.len(),
                    found: args.len(),
                },
            );
            return None;
        }
        let ghost c0 = self.ctx_m();
        let ghost pm = types_view(param_types@);
        let mut k: usize = 0;
        while k < args.len()
            invariant
                extends(old(self).errors@, self.errors@),
                self.same_defs(*old(self)),
                k <= args.len(),
                args.len() == param_types.len(),
                pm == types_view(param_types@),
                check_builtin_args(t, f, c0, builtin, pm, args@, in_loop, 0) == check_builtin_args(
                    t,
                    f,
                    self.ctx_m(),
                    builtin,
                    pm,
                    args@,
                    in_loop,
                    k as int,
                ),
            decreases args.len() - k,
        {
            if let Some(arg_ty) = self.type_check_expr(&args[k], in_loop) {
                if !types_compatible(&param_types[k], &arg_ty) {
                    self.report(
                        AnalyzeErrorKind::BuiltinArgTypeMismatch {
                            builtin,
                            expected: clone_type(&param_types[k]),
                            found: arg_ty,
                        },
                    );
                }
            }
            k = k + 1;
        }
        Some(return_type)
    }

    #[verifier::loop_isolation(false)]
    #[verifier::rlimit(40)]
    fn type_check_match(&mut self, expr: &Expr, in_loop: bool) -> (r: Option<Type>)
        ensures
            extends(old(self).errors@, final(self).errors@),
            final(self).same_defs(*old(self)),
            (final(self).ctx_m(), opt_type_m(r)) == check_match(
                old(self).tables_m(),
                old(self).fn_m(),
                old(self).ctx_m(),
                *expr,
                in_loop,
            ),
        decreases expr, 0nat,
    {
        let ghost t = self.tables_m();
        let ghost f = self.fn_m();
        let (scrutinee, arms) = match &expr.kind {
            ExprKind::Match { scrutinee, arms } => (scrutinee, arms),
            _ => return None,
        };
        let scr_ty = self.type_check_expr(scrutinee, in_loop);
        if let Some(st) = &scr_ty {
            if !matches!(st, Type::U8) && !matches!(st, Type::UserType(_)) {
                self.report(AnalyzeErrorKind::MatchScrutineeType(clone_type(st)));
            }
        }
        if arms.len() == 0 {
            self.report(AnalyzeErrorKind::MatchNoArms);
            return None;
        }
        // patterns must be literals or enum variants
        let ghost c2 = self.ctx_m();
        let mut k: usize = 0;
        while k < arms.len()
            invariant
                extends(old(self).errors@, self.errors@),
                self.same_defs(*old(self)),
                k <= arms.len(),
                self.ctx_m() == (CtxM {
                    locals: c2.locals,
                    errors: c2.errors + pattern_errors(arms@.take(k as int)),
                }),
            decreases arms.len() - k,
        {
            proof {
                let a = arms@.take(k + 1);
                assert(a.drop_last() =~= arms@.take(k as int));
                assert(a.last() == arms@[k as int]);
            }
            match &arms[k].pattern.kind {
                ExprKind::IntLiteral(_) => {},
                ExprKind::EnumVariant { .. } => {},
                _ => {
                    self.report(AnalyzeErrorKind::MatchArmPatternNotLiteral);
                },
            }
            proof {
                assert(self.ctx_m().errors =~= c2.errors + pattern_errors(arms@.take(k + 1)));
            }
            k = k + 1;
        }
        proof {
            assert(arms@.take(k as int) =~= arms@);
        }
        // a match on an enum must cover every variant
        if let Some(Type::UserType(enum_name)) = &scr_ty {
            proof {
                self.lemma_tables_agree();
            }
            match find_key(&self.enums, enum_name) {
                Some(ei) => {
                    proof {
                        lemma_found(self.enums@, t.enums, enum_name@, ei as int);
                    }
                    let covered = covered_names(arms);
                    let mut missing: Vec<String> = Vec::new();
                    let ghost variants = self.enums@[ei as int].1@;
                    let mut k: usize = 0;
                    while k < self.enums[ei].1.len()
                        invariant
                            extends(old(self).errors@, self.errors@),
                            self.same_defs(*old(self)),
                            ei < self.enums@.len(),
                            variants == self.enums@[ei as int].1@,
                            k <= variants.len(),
                            names_m(missing@) == missing_names(
                                names_m(variants.take(k as int)),
                                names_m(covered@),
                            ),
                        decreases self.enums@[ei as int].1.len() - k,
                    {
                        proof {
                            let a = names_m(variants.take(k + 1));
                            assert(a.drop_last() =~= names_m(variants.take(k as int)));
                            assert(a.last() == variants[k as int]@);
                            lemma_names_contains(covered@, variants[k as int]@);
                        }
                        if !contains_name(&covered, &self.enums[ei].1[k]) {
                            let v = self.enums[ei].1[k].clone();
                            proof {
                                assert(names_m(missing@.push(v)) =~= names_m(missing@).push(v@));
                            }
                            missing.push(v);
                        }
                        k = k + 1;
                    }
                    proof {
                        assert(variants.take(k as int) =~= variants);
                    }
                    if missing.len() > 0 {
                        self.report(
                            AnalyzeErrorKind::NonExhaustiveMatch { enum_name: enum_name.clone(), missing },
                        );
                    }
                },
                None => {
                    proof {
                        lemma_not_found(self.enums@, t.enums, enum_name@);
                    }
                },
            }
        }
        // every arm body must have the type of the first
        let first_ty = match self.type_check_expr(&arms[0].body, in_loop) {
            Some(ft) => ft,
            None => return None,
        };
        let ghost c5 = self.ctx_m();
        let mut k: usize = 1;
        while k < arms.len()
            invariant
                extends(old(self).errors@, self.errors@),
                self.same_defs(*old(self)),
                1 <= k <= arms.len(),
                check_arm_bodies(t, f, c5, first_ty@, arms@, in_loop, 1) == check_arm_bodies(
                    t,
                    f,
                    self.ctx_m(),
                    first_ty@,
                    arms@,
                    in_loop,
                    k as int,
                ),
            decreases arms.len() - k,
        {
            if let Some(arm_ty) = self.type_check_expr(&arms[k].body, in_loop) {
                if !types_compatible(&first_ty, &arm_ty) {
                    self.report(
                        AnalyzeErrorKind::MatchArmTypeMismatch {
                            first: clone_type(&first_ty),
                            found: arm_ty,
                        },
                    );
                }
            }
            k = k + 1;
        }
        Some(first_ty)
    }

    #[verifier::loop_isolation(false)]
    #[verifier::rlimit(40)]
    fn type_check_struct_literal(&mut self, expr: &Expr, in_loop: bool) -> (r: Option<Type>)
        ensures
            extends(old(self).errors@, final(self).errors@),
            final(self).same_defs(*old(self)),
            (final(self).ctx_m(), opt_type_m(r)) == check_struct_literal(
                old(self).tables_m(),
                old(self).fn_m(),
                old(self).ctx_m(),
                *expr,
                in_loop,
            ),
        decreases expr, 0nat,
    {
        let ghost t = self.tables_m();
        let ghost f = self.fn_m();
        let (name, fields, base) = match &expr.kind {
            ExprKind::StructLiteral { name, fields, base } => (name, fields, base),
            _ => return None,
        };
        proof {
            self.lemma_tables_agree();
        }
        let si = match find_key(&self.structs, name) {
            Some(si) => si,
            None => {
                proof {
                    lemma_not_found(self.structs@, t.structs, name@);
                }
                self.report(AnalyzeErrorKind::UndefinedStruct(name.clone()));
                return None;
            },
        };
        proof {
            lemma_found(self.structs@, t.structs, name@, si as int);
        }
        let struct_fields = clone_fields(&self.structs[si].1);
        let ghost sf = fields_m(struct_fields@);
        proof {
            assert(sf =~= fields_m(self.structs@[si as int].1@));
        }
        // the base of `..base` must be the same struct
        if let Some(base_expr) = base {
            if let Some(base_ty) = self.type_check_expr(base_expr, in_loop) {
                let want = Type::UserType(name.clone());
                if !type_eq(&base_ty, &want) {
                    self.report(
                        AnalyzeErrorKind::TypeMismatch {
                            context: "struct update base type mismatch",
                            expected: want,
                            found: base_ty,
                        },
                    );
                }
            }
        }
        let ghost c1 = self.ctx_m();
        let mut seen: Vec<String> = Vec::new();
        let mut k: usize = 0;
        while k < fields.len()
            invariant
                extends(old(self).errors@, self.errors@),
                self.same_defs(*old(self)),
                k <= fields.len(),
                sf == fields_m(struct_fields@),
                names_m(seen@) == init_names(fields@).take(k as int),
                check_inits(t, f, c1, name@, sf, fields@, in_loop, 0) == check_inits(
                    t,
                    f,
                    self.ctx_m(),
                    name@,
                    sf,
                    fields@,
                    in_loop,
                    k as int,
                ),
            decreases fields.len() - k,
        {
            let field_name = &fields[k].0;
            proof {
                lemma_names_contains(seen@, field_name@);
            }
            if contains_name(&seen, field_name) {
                self.report(
                    AnalyzeErrorKind::DuplicateField {
                        struct_name: name.clone(),
                        field: field_name.clone(),
                    },
                );
            }
            let seen_name = field_name.clone();
            proof {
                assert(names_m(seen@.push(seen_name)) =~= init_names(fields@).take(k + 1));
            }
            seen.push(seen_name);
            match find_field(&struct_fields, field_name) {
                Some(fi) => {
                    proof {
                        lemma_field_found(struct_fields@, field_name@, fi as int);
                    }
                    if let Some(val_ty) = self.type_check_expr(&fields[k].1, in_loop) {
                        if !types_compatible(&struct_fields[fi].ty, &val_ty) {
                            self.report(
                                AnalyzeErrorKind::TypeMismatch {
                                    context: "struct field type mismatch",
                                    expected: clone_type(&struct_fields[fi].ty),
                                    found: val_ty,
                                },
                            );
                        }
                    }
                },
                None => {
                    proof {
                        lemma_field_missing(struct_fields@, field_name@);
                    }
                    self.report(
                        AnalyzeErrorKind::UndefinedField {
                            struct_name: name.clone(),
                            field: field_name.clone(),
                        },
                    );
                },
            }
            k = k + 1;
        }
        proof {
            assert(init_names(fields@).take(k as int) =~= init_names(fields@));
        }
        // without a base every field must be given
        if base.is_none() {
            let ghost all = sf.map_values(|x: (Seq<char>, TypeModel)| x.0);
            let mut missing: Vec<String> = Vec::new();
            let mut k: usize = 0;
            while k < struct_fields.len()
                invariant
                    extends(old(self).errors@, self.errors@),
                    self.same_defs(*old(self)),
                    k <= struct_fields.len(),
                    sf == fields_m(struct_fields@),
                    all == sf.map_values(|x: (Seq<char>, TypeModel)| x.0),
                    names_m(missing@) == missing_names(all.take(k as int), names_m(seen@)),
                decreases struct_fields.len() - k,
            {
                proof {
                    let a = all.take(k + 1);
                    assert(a.drop_last() =~= all.take(k as int));
                    assert(a.last() == struct_fields@[k as int].name@);
                    lemma_names_contains(seen@, struct_fields@[k as int].name@);
                }
                if !contains_name(&seen, &struct_fields[k].name) {
                    let v = struct_fields[k].name.clone();
                    proof {
                        assert(names_m(missing@.push(v)) =~= names_m(missing@).push(v@));
                    }
                    missing.push(v);
                }
                k = k + 1;
            }
            proof {
                assert(all.take(k as int) =~= all);
            }
            if missing.len() > 0 {
                self.report(AnalyzeErrorKind::MissingFields { struct_name: name.clone(), missing });
            }
        }
        Some(Type::UserType(name.clone()))
    }

    /// An assignment to a variable.
    #[verifier::loop_isolation(false)]
    #[verifier::rlimit(80)]
    fn check_assign(&mut self, stmt: &Stmt, in_loop: bool)
        requires
            stmt.kind is Assign,
        ensures
            extends(old(self).errors@, final(self).errors@),
            final(self).same_defs(*old(self)),
            final(self).ctx_m() == check_stmt(
                old(self).tables_m(),
                old(self).fn_m(),
                old(self).ctx_m(),
                *stmt,
                in_loop,
            ),
        decreases stmt, 0nat,
    {
        let (name, value) = match &stmt.kind {
            StmtKind::Assign { name, value } => (name, value),
            _ => return,
        };

        let var_ty = self.lookup_var(name);
        if var_ty.is_some() && self.is_immutable_global(name) {
            self.report(AnalyzeErrorKind::ImmutableAssignment(name.clone()));
        }
        let val_ty = self.type_check_expr(value, in_loop);
        match (var_ty, val_ty) {
            (None, _) => {
                self.report(AnalyzeErrorKind::UndefinedVariable(name.clone()));
            },
            (Some(vt), Some(et)) => {
                if !types_compatible(&vt, &et) {
                    self.report(
                        AnalyzeErrorKind::AssignmentTypeMismatch { expected: vt, found: et },
                    );
                }
            },
            _ => {},
        }
    }

    /// An assignment to an array element.
    #[verifier::loop_isolation(false)]
    #[verifier::rlimit(80)]
    fn check_index_assign(&mut self, stmt: &Stmt, in_loop: bool)
        requires
            stmt.kind is IndexAssign,
        ensures
            extends(old(self).errors@, final(self).errors@),
            final(self).same_defs(*old(self)),
            final(self).ctx_m() == check_stmt(
                old(self).tables_m(),
                old(self).fn_m(),
                old(self).ctx_m(),
                *stmt,
                in_loop,
            ),
        decreases stmt, 0nat,
    {
        let (array, index, value) = match &stmt.kind {
            StmtKind::IndexAssign { array, index, value } => (array, index, value),
            _ => return,
        };

        let var_ty = self.lookup_var(array);
        if var_ty.is_some() && self.is_immutable_global(array) {
            self.report(AnalyzeErrorKind::ImmutableAssignment(array.clone()));
        }
        let idx_ty = self.type_check_expr(index, in_loop);
        let val_ty = self.type_check_expr(value, in_loop);
        let ghost c3 = self.ctx_m();
        let ghost vm = opt_type_m(var_ty);
        let ghost im = opt_type_m(idx_ty);
        let ghost wm = opt_type_m(val_ty);
        match var_ty {
            None => {
                self.report(AnalyzeErrorKind::UndefinedVariable(array.clone()));
            },
            Some(Type::Array(elem_ty, _)) => {
                if let Some(it) = idx_ty {
                    if !matches!(it, Type::U8) {
                        self.report(AnalyzeErrorKind::ArrayIndexNotU8(it));
                    }
                }
                if let Some(vt) = val_ty {
                    if !types_compatible(&elem_ty, &vt) {
                        self.report(
                            AnalyzeErrorKind::AssignmentTypeMismatch {
                                expected: *elem_ty,
                                found: vt,
                            },
                        );
                    }
                }
            },
            Some(other) => {
                self.report(AnalyzeErrorKind::CannotIndex(other));
            },
        }
        proof {
            assert(self.ctx_m() == rules::index_assign_result(c3, array@, vm, im, wm));
        }
    }

    #[verifier::loop_isolation(false)]
    #[verifier::rlimit(40)]
    fn type_check_stmt(&mut self, stmt: &Stmt, in_loop: bool)
        ensures
            extends(old(self).errors@, final(self).errors@),
            final(self).same_defs(*old(self)),
            final(self).ctx_m() == check_stmt(
                old(self).tables_m(),
                old(self).fn_m(),
                old(self).ctx_m(),
                *stmt,
                in_loop,
            ),
        decreases stmt, 1nat,
    {
        match &stmt.kind {
            StmtKind::Let { name, ty, value } => {
                self.check_type_exists(ty);
                if let Some(vt) = self.type_check_expr(value, in_loop) {
                    if !types_compatible(ty, &vt) {
                        self.report(
                            AnalyzeErrorKind::TypeMismatch {
                                context: "type mismatch in let",
                                expected: clone_type(ty),
                                found: vt,
                            },
                        );
                    }
                }
                self.insert_local(name.clone(), clone_type(ty));
            },
            StmtKind::Assign { .. } => self.check_assign(stmt, in_loop),
            StmtKind::IndexAssign { .. } => self.check_index_assign(stmt, in_loop),
            StmtKind::Expr(e) => {
                self.type_check_expr(e, in_loop);
            },
            StmtKind::Return(e) => {
                let ret_ty = match e {
                    Some(e) => self.type_check_expr(e, in_loop),
                    None => Some(Type::Unit),
                };
                if let (Some(expected), Some(actual)) = (&self.current_return_type, &ret_ty) {
                    if !types_compatible(expected, actual) {
                        let expected = clone_type(expected);
                        self.report(
                            AnalyzeErrorKind::TypeMismatch {
                                context: "return type mismatch",
                                expected,
                                found: clone_type(actual),
                            },
                        );
                    }
                }
            },
            StmtKind::Break => {
                if !in_loop {
                    self.report(AnalyzeErrorKind::BreakOutsideLoop);
                }
            },
        }
    }

    /// Whether `name` resolves to a global that is not `mut`.
    fn is_immutable_global(&self, name: &String) -> (r: bool)
        ensures
            r == immutable_global(self.tables_m(), self.ctx_m(), name@),
    {
        proof {
            self.lemma_tables_agree();
        }
        match find_key(&self.locals, name) {
            Some(i) => {
                proof {
                    lemma_found(self.locals@, self.ctx_m().locals, name@, i as int);
                }
                return false;
            },
            None => {
                proof {
                    lemma_not_found(self.locals@, self.ctx_m().locals, name@);
                }
            },
        }
        match find_key(&self.globals, name) {
            Some(i) => {
                proof {
                    lemma_found(self.globals@, self.tables_m().globals, name@, i as int);
                }
                !self.globals[i].1.1
            },
            None => {
                proof {
                    lemma_not_found(self.globals@, self.tables_m().globals, name@);
                }
                false
            },
        }
    }
}

/// Whether a value of type `actual` may stand where `expected` is required.
pub fn types_compatible(expected: &Type, actual: &Type) -> (r: bool)
    ensures
        r == compatible(expected@, actual@),
    decreases expected,
{
    match (expected, actual) {
        (Type::U8, Type::U8) => true,
        (Type::Bool, Type::Bool) => true,
        (Type::Unit, Type::Unit) => true,
        (Type::Array(e1, s1), Type::Array(e2, s2)) => *s1 == *s2 && types_compatible(e1, e2),
        (Type::Sprite(_), Type::Sprite(_)) => true,
        (Type::Sprite(n), Type::Array(elem, m)) => {
            let r = *n == *m && is_u8(elem);
            assert(r == compatible(expected@, actual@));
            r
        },
        (Type::UserType(a), Type::UserType(b)) => same_text(a, b),
        _ => {
            assert(!compatible(expected@, actual@));
            false
        },
    }
}

fn is_u8(t: &Type) -> (r: bool)
    ensures
        r == (t@ == TypeModel::U8),
{
    match t {
        Type::U8 => true,
        _ => false,
    }
}

/// Where a field is found first, `lookup` finds it.
proof fn lemma_field_found(fields: Seq<StructField>, name: Seq<char>, i: int)
    requires
        0 <= i < fields.len(),
        fields[i].name@ == name,
        forall|j: int| 0 <= j < i ==> fields[j].name@ != name,
    ensures
        lookup(fields_m(fields), name) == Some(fields[i].ty@),
{
    let m = fields_m(fields);
    assert(m[i].0 == name);
    assert forall|j: int| 0 <= j < i implies m[j].0 != name by {
        assert(m[j].0 == fields[j].name@);
    }
    assert(rules::first_at(m, name, i));
    rules::lemma_first_at(m, name, i);
}

/// A field that no entry names.
proof fn lemma_field_missing(fields: Seq<StructField>, name: Seq<char>)
    requires
        forall|i: int| 0 <= i < fields.len() ==> fields[i].name@ != name,
    ensures
        lookup(fields_m(fields), name) is None,
{
    let m = fields_m(fields);
    assert forall|j: int| 0 <= j < m.len() implies m[j].0 != name by {
        assert(m[j].0 == fields[j].name@);
    }
    rules::lemma_absent(m, name);
}

/// A list of names holds `name` exactly when its characters do.
proof fn lemma_names_contains(names: Seq<String>, name: Seq<char>)
    ensures
        names_m(names).contains(name) == exists|i: int| 0 <= i < names.len() && names[i]@ == name,
{
    if names_m(names).contains(name) {
        let i = choose|i: int| 0 <= i < names_m(names).len() && names_m(names)[i] == name;
        assert(names[i]@ == name);
    }
    if exists|i: int| 0 <= i < names.len() && names[i]@ == name {
        let i = choose|i: int| 0 <= i < names.len() && names[i]@ == name;
        assert(names_m(names)[i] == name);
    }
}

/// A copy of a list of types.
fn clone_types(v: &Vec<Type>) -> (r: Vec<Type>)
    ensures
        r@ == v@,
{
    let mut r: Vec<Type> = Vec::new();
    let mut i: usize = 0;
    while i < v.len()
        invariant
            i <= v.len(),
            r@ == v@.take(i as int),
        decreases v.len() - i,
    {
        r.push(clone_type(&v[i]));
        i = i + 1;
        proof {
            assert(r@ =~= v@.take(i as int));
        }
    }
    proof {
        assert(v@.take(i as int) =~= v@);
    }
    r
}

/// The variants that the arms' patterns name.
fn covered_names(arms: &Vec<MatchArm>) -> (r: Vec<String>)
    ensures
        names_m(r@) == covered_variants(arms@),
{
    let mut covered: Vec<String> = Vec::new();
    let mut k: usize = 0;
    while k < arms.len()
        invariant
            k <= arms@.len(),
            names_m(covered@) == covered_variants(arms@.take(k as int)),
        decreases arms.len() - k,
    {
        proof {
            let a = arms@.take(k + 1);
            assert(a.drop_last() =~= arms@.take(k as int));
            assert(a.last() == arms@[k as int]);
        }
        if let ExprKind::EnumVariant { variant, .. } = &arms[k].pattern.kind {
            let v = variant.clone();
            proof {
                assert(names_m(covered@.push(v)) =~= names_m(covered@).push(v@));
            }
            covered.push(v);
        }
        proof {
            assert(names_m(covered@) =~= covered_variants(arms@.take(k + 1)));
        }
        k = k + 1;
    }
    proof {
        assert(arms@.take(k as int) =~= arms@);
    }
    covered
}

/// The parameter types of a signature.
fn param_types(params: &Vec<crate::parser::ast::Param>) -> (r: Vec<Type>)
    ensures
        types_view(r@) == param_types_m(params@),
{
    let mut ps: Vec<Type> = Vec::new();
    let mut k: usize = 0;
    while k < params.len()
        invariant
            k <= params.len(),
            ps@.len() == k,
            forall|j: int| 0 <= j < k ==> #[trigger] ps@[j]@ == params@[j].ty@,
        decreases params.len() - k,
    {
        let t = clone_type(&params[k].ty);
        ps.push(t);
        k = k + 1;
    }
    proof {
        assert(types_view(ps@) =~= param_types_m(params@));
    }
    ps
}

/// Errors that say the same thing have the same value.
proof fn lemma_same_error_m(a: AnalyzeError, b: AnalyzeError)
    requires
        same_error(a, b),
    ensures
        error_m(a.kind) == error_m(b.kind),
{
}

/// The position of a field in a struct definition.
pub fn find_field(fields: &Vec<StructField>, name: &String) -> (r: Option<usize>)
    ensures
        r matches Some(i) ==> i < fields@.len() && fields@[i as int].name@ == name@ && forall|j: int|
            0 <= j < i ==> fields@[j].name@ != name@,
        r is None ==> forall|i: int| 0 <= i < fields@.len() ==> fields@[i].name@ != name@,
{
    let mut i: usize = 0;
    while i < fields.len()
        invariant
            i <= fields@.len(),
            forall|j: int| 0 <= j < i ==> fields@[j].name@ != name@,
        decreases fields.len() - i,
    {
        if same_text(&fields[i].name, name) {
            return Some(i);
        }
        i = i + 1;
    }
    None
}

fn clone_names(v: &Vec<String>) -> (r: Vec<String>)
    ensures
        r@ == v@,
{
    let mut r: Vec<String> = Vec::new();
    let mut i: usize = 0;
    while i < v.len()
        invariant
            i <= v.len(),
            r@ == v@.take(i as int),
        decreases v.len() - i,
    {
        r.push(v[i].clone());
        i = i + 1;
        proof {
            assert(r@ =~= v@.take(i as int));
        }
    }
    proof {
        assert(v@.take(i as int) =~= v@);
    }
    r
}

pub fn clone_fields(v: &Vec<StructField>) -> (r: Vec<StructField>)
    ensures
        r@.len() == v@.len(),
        forall|i: int|
            0 <= i < v@.len() ==> r@[i].name@ == v@[i].name@ && r@[i].ty@ == v@[i].ty@,
{
    let mut r: Vec<StructField> = Vec::new();
    let mut i: usize = 0;
    while i < v.len()
        invariant
            i <= v.len(),
            r@.len() == i,
            forall|j: int|
                0 <= j < i ==> r@[j].name@ == v@[j].name@ && r@[j].ty@ == v@[j].ty@,
        decreases v.len() - i,
    {
        r.push(StructField { name: v[i].name.clone(), ty: clone_type(&v[i].ty) });
        i = i + 1;
    }
    r
}

/// Two errors that say the same thing (lists of names compared by their contents).
pub open spec fn same_error(a: AnalyzeError, b: AnalyzeError) -> bool {
    match (a.kind, b.kind) {
        (
            AnalyzeErrorKind::NonExhaustiveMatch { enum_name: n1, missing: m1 },
            AnalyzeErrorKind::NonExhaustiveMatch { enum_name: n2, missing: m2 },
        ) => n1 == n2 && m1@ == m2@,
        (
            AnalyzeErrorKind::MissingFields { struct_name: n1, missing: m1 },
            AnalyzeErrorKind::MissingFields { struct_name: n2, missing: m2 },
        ) => n1 == n2 && m1@ == m2@,
        _ => a == b,
    }
}

/// A copy of an error.
pub fn clone_error(e: &AnalyzeError) -> (r: AnalyzeError)
    ensures
        same_error(r, *e),
{
    let kind = match &e.kind {
        AnalyzeErrorKind::MissingMain => AnalyzeErrorKind::MissingMain,
        AnalyzeErrorKind::UndefinedVariable(x) => AnalyzeErrorKind::UndefinedVariable(x.clone()),
        AnalyzeErrorKind::UndefinedFunction(x) => AnalyzeErrorKind::UndefinedFunction(x.clone()),
        AnalyzeErrorKind::TypeMismatch { context, expected, found } => AnalyzeErrorKind::TypeMismatch { context: *context, expected: clone_type(expected), found: clone_type(found) },
        AnalyzeErrorKind::BinaryOpTypeMismatch { lhs, rhs } => AnalyzeErrorKind::BinaryOpTypeMismatch { lhs: clone_type(lhs), rhs: clone_type(rhs) },
        AnalyzeErrorKind::ArgumentCountMismatch { function, expected, found } => AnalyzeErrorKind::ArgumentCountMismatch { function: function.clone(), expected: *expected, found: *found },
        AnalyzeErrorKind::ArgumentTypeMismatch { function, expected, found } => AnalyzeErrorKind::ArgumentTypeMismatch { function: function.clone(), expected: clone_type(expected), found: clone_type(found) },
        AnalyzeErrorKind::BuiltinArgCountMismatch { builtin, expected, found } => AnalyzeErrorKind::BuiltinArgCountMismatch { builtin: *builtin, expected: *expected, found: *found },
        AnalyzeErrorKind::BuiltinArgTypeMismatch { builtin, expected, found } => AnalyzeErrorKind::BuiltinArgTypeMismatch { builtin: *builtin, expected: clone_type(expected), found: clone_type(found) },
        AnalyzeErrorKind::LogicalOpRequiresBool(x) => AnalyzeErrorKind::LogicalOpRequiresBool(clone_type(x)),
        AnalyzeErrorKind::NegationRequiresU8(x) => AnalyzeErrorKind::NegationRequiresU8(clone_type(x)),
        AnalyzeErrorKind::LogicalNotRequiresBool(x) => AnalyzeErrorKind::LogicalNotRequiresBool(clone_type(x)),
        AnalyzeErrorKind::IfConditionNotBool(x) => AnalyzeErrorKind::IfConditionNotBool(clone_type(x)),
        AnalyzeErrorKind::IfElseBranchMismatch { then_type, else_type } => AnalyzeErrorKind::IfElseBranchMismatch { then_type: clone_type(then_type), else_type: clone_type(else_type) },
        AnalyzeErrorKind::TooManyLocals { count, max } => AnalyzeErrorKind::TooManyLocals { count: *count, max: *max },
        AnalyzeErrorKind::CannotIndex(x) => AnalyzeErrorKind::CannotIndex(clone_type(x)),
        AnalyzeErrorKind::ArrayIndexNotU8(x) => AnalyzeErrorKind::ArrayIndexNotU8(clone_type(x)),
        AnalyzeErrorKind::ArrayElementMismatch => AnalyzeErrorKind::ArrayElementMismatch,
        AnalyzeErrorKind::BreakOutsideLoop => AnalyzeErrorKind::BreakOutsideLoop,
        AnalyzeErrorKind::AssignmentTypeMismatch { expected, found } => AnalyzeErrorKind::AssignmentTypeMismatch { expected: clone_type(expected), found: clone_type(found) },
        AnalyzeErrorKind::MatchScrutineeType(x) => AnalyzeErrorKind::MatchScrutineeType(clone_type(x)),
        AnalyzeErrorKind::MatchArmPatternNotLiteral => AnalyzeErrorKind::MatchArmPatternNotLiteral,
        AnalyzeErrorKind::MatchArmTypeMismatch { first, found } => AnalyzeErrorKind::MatchArmTypeMismatch { first: clone_type(first), found: clone_type(found) },
        AnalyzeErrorKind::MatchNoArms => AnalyzeErrorKind::MatchNoArms,
        AnalyzeErrorKind::UndefinedEnum(x) => AnalyzeErrorKind::UndefinedEnum(x.clone()),
        AnalyzeErrorKind::UndefinedEnumVariant { enum_name, variant } => AnalyzeErrorKind::UndefinedEnumVariant { enum_name: enum_name.clone(), variant: variant.clone() },
        AnalyzeErrorKind::NonExhaustiveMatch { enum_name, missing } => AnalyzeErrorKind::NonExhaustiveMatch { enum_name: enum_name.clone(), missing: clone_names(missing) },
        AnalyzeErrorKind::UnknownType(x) => AnalyzeErrorKind::UnknownType(x.clone()),
        AnalyzeErrorKind::RandomEnumArgNotEnum(x) => AnalyzeErrorKind::RandomEnumArgNotEnum(x.clone()),
        AnalyzeErrorKind::UndefinedStruct(x) => AnalyzeErrorKind::UndefinedStruct(x.clone()),
        AnalyzeErrorKind::UndefinedField { struct_name, field } => AnalyzeErrorKind::UndefinedField { struct_name: struct_name.clone(), field: field.clone() },
        AnalyzeErrorKind::MissingFields { struct_name, missing } => AnalyzeErrorKind::MissingFields { struct_name: struct_name.clone(), missing: clone_names(missing) },
        AnalyzeErrorKind::DuplicateField { struct_name, field } => AnalyzeErrorKind::DuplicateField { struct_name: struct_name.clone(), field: field.clone() },
        AnalyzeErrorKind::FieldAccessOnNonStruct(x) => AnalyzeErrorKind::FieldAccessOnNonStruct(clone_type(x)),
        AnalyzeErrorKind::ImmutableAssignment(x) => AnalyzeErrorKind::ImmutableAssignment(x.clone()),
    };
    AnalyzeError { kind }
}

fn clone_errors(v: &Vec<AnalyzeError>) -> (r: Vec<AnalyzeError>)
    ensures
        r@.len() == v@.len(),
        forall|i: int| 0 <= i < v@.len() ==> same_error(#[trigger] r@[i], v@[i]),
{
    let mut r: Vec<AnalyzeError> = Vec::new();
    let mut i: usize = 0;
    while i < v.len()
        invariant
            i <= v.len(),
            r@.len() == i,
            forall|j: int| 0 <= j < i ==> same_error(#[trigger] r@[j], v@[j]),
        decreases v.len() - i,
    {
        r.push(clone_error(&v[i]));
        i = i + 1;
    }
    r
}

fn main_string() -> (r: String)
    ensures
        r@ == seq!['m', 'a', 'i', 'n'],
{
    let mut s = String::new();
    crate::text::push_char(&mut s, 'm');
    crate::text::push_char(&mut s, 'a');
    crate::text::push_char(&mut s, 'i');
    crate::text::push_char(&mut s, 'n');
    proof {
        assert(s@ =~= seq!['m', 'a', 'i', 'n']);
    }
    s
}

impl Default for Analyzer {
    fn default() -> Self {
        Self::new()
    }
}

} // verus!

use vstd::prelude::*;

use super::{AnalyzeError, AnalyzeErrorKind};
use crate::parser::ast::{builtin_name, Type, TypeModel};
use crate::text::{decimal, push_decimal, push_str, push_string};

verus! {

/// A type as `{:?}` writes it: `U8`, `Array(U8, 4)`, `UserType("Pos")`.
pub open spec fn type_text(t: TypeModel) -> Seq<char>
    decreases t,
{
    match t {
        TypeModel::U8 => "U8"@,
        TypeModel::Bool => "Bool"@,
        TypeModel::Unit => "Unit"@,
        TypeModel::Array(e, n) => "Array("@ + type_text(*e) + ", "@ + decimal(n as nat) + ")"@,
        TypeModel::Sprite(n) => "Sprite("@ + decimal(n as nat) + ")"@,
        TypeModel::UserType(name) => "UserType(\""@ + name + "\")"@,
    }
}

/// Names separated by `", "`.
pub open spec fn joined(names: Seq<String>) -> Seq<char>
    decreases names.len(),
{
    if names.len() == 0 {
        seq![]
    } else if names.len() == 1 {
        names[0]@
    } else {
        joined(names.drop_last()) + ", "@ + names.last()@
    }
}

/// `'name'`.
pub open spec fn quoted(name: Seq<char>) -> Seq<char> {
    "'"@ + name + "'"@
}

/// The message of a semantic error.
pub open spec fn analyze_error_text(k: AnalyzeErrorKind) -> Seq<char> {
    match k {
        AnalyzeErrorKind::MissingMain => "missing 'main' function"@,
        AnalyzeErrorKind::UndefinedVariable(name) => "undefined variable: "@ + quoted(name@),
        AnalyzeErrorKind::UndefinedFunction(name) => "undefined function: "@ + quoted(name@),
        AnalyzeErrorKind::TypeMismatch { context, expected, found } => context@ + ": expected "@
            + type_text(expected@) + ", found "@ + type_text(found@),
        AnalyzeErrorKind::BinaryOpTypeMismatch { lhs, rhs } => "binary op type mismatch: "@
            + type_text(lhs@) + " vs "@ + type_text(rhs@),
        AnalyzeErrorKind::ArgumentCountMismatch { function, expected, found } => quoted(
            function@,
        ) + " expects "@ + decimal(expected as nat) + " args, got "@ + decimal(found as nat),
        AnalyzeErrorKind::ArgumentTypeMismatch { function, expected, found } =>
            "argument type mismatch in "@ + quoted(function@) + ": expected "@ + type_text(
            expected@,
        ) + ", found "@ + type_text(found@),
        AnalyzeErrorKind::BuiltinArgCountMismatch { builtin, expected, found } => quoted(
            builtin_name(builtin),
        ) + " expects "@ + decimal(expected as nat) + " args, got "@ + decimal(found as nat),
        AnalyzeErrorKind::BuiltinArgTypeMismatch { builtin, expected, found } =>
            "argument type mismatch in "@ + quoted(builtin_name(builtin)) + ": expected "@
            + type_text(expected@) + ", found "@ + type_text(found@),
        AnalyzeErrorKind::LogicalOpRequiresBool(ty) => "logical op requires bool, found "@
            + type_text(ty@),
        AnalyzeErrorKind::NegationRequiresU8(ty) => "negation requires u8, found "@ + type_text(
            ty@,
        ),
        AnalyzeErrorKind::LogicalNotRequiresBool(ty) => "logical not requires bool, found "@
            + type_text(ty@),
        AnalyzeErrorKind::IfConditionNotBool(ty) => "if condition must be bool, found "@
            + type_text(ty@),
        AnalyzeErrorKind::IfElseBranchMismatch { then_type, else_type } =>
            "if/else type mismatch: "@ + type_text(then_type@) + " vs "@ + type_text(
            else_type@,
        ),
        AnalyzeErrorKind::TooManyLocals { count, max } => "too many local variables: "@
            + decimal(count as nat) + " (max "@ + decimal(max as nat) + ")"@,
        AnalyzeErrorKind::CannotIndex(ty) => "cannot index into "@ + type_text(ty@),
        AnalyzeErrorKind::ArrayIndexNotU8(ty) => "array index must be u8, found "@ + type_text(
            ty@,
        ),
        AnalyzeErrorKind::ArrayElementMismatch => "array elements must have the same type"@,
        AnalyzeErrorKind::BreakOutsideLoop => "break outside of loop"@,
        AnalyzeErrorKind::AssignmentTypeMismatch { expected, found } =>
            "assignment type mismatch: expected "@ + type_text(expected@) + ", found "@
            + type_text(found@),
        AnalyzeErrorKind::MatchScrutineeType(ty) => "match scrutinee must be u8 or enum, found "@
            + type_text(ty@),
        AnalyzeErrorKind::MatchArmPatternNotLiteral =>
            "match arm pattern must be a literal or enum variant"@,
        AnalyzeErrorKind::MatchArmTypeMismatch { first, found } => "match arm type mismatch: "@
            + type_text(first@) + " vs "@ + type_text(found@),
        AnalyzeErrorKind::MatchNoArms => "match expression has no arms"@,
        AnalyzeErrorKind::UndefinedEnum(name) => "undefined enum: "@ + quoted(name@),
        AnalyzeErrorKind::UndefinedEnumVariant { enum_name, variant } => "undefined variant "@
            + quoted(variant@) + " in enum "@ + quoted(enum_name@),
        AnalyzeErrorKind::NonExhaustiveMatch { enum_name, missing } => "non-exhaustive match on "@
            + quoted(enum_name@) + ": missing "@ + joined(missing@),
        AnalyzeErrorKind::UnknownType(name) => "unknown type: "@ + quoted(name@),
        AnalyzeErrorKind::RandomEnumArgNotEnum(name) =>
            "random_enum argument must be an enum name, got "@ + quoted(name@),
        AnalyzeErrorKind::UndefinedStruct(name) => "undefined struct: "@ + quoted(name@),
        AnalyzeErrorKind::UndefinedField { struct_name, field } => "undefined field "@ + quoted(
            field@,
        ) + " in struct "@ + quoted(struct_name@),
        AnalyzeErrorKind::MissingFields { struct_name, missing } => "missing fields in struct "@
            + quoted(struct_name@) + ": "@ + joined(missing@),
        AnalyzeErrorKind::DuplicateField { struct_name, field } => "duplicate field "@ + quoted(
            field@,
        ) + " in struct "@ + quoted(struct_name@),
        AnalyzeErrorKind::FieldAccessOnNonStruct(ty) => "field access on non-struct type: "@
            + type_text(ty@),
        AnalyzeErrorKind::ImmutableAssignment(name) => "cannot assign to immutable global: "@
            + quoted(name@),
    }
}

/// Appends a type as `{:?}` writes it.
pub fn push_type_text(s: &mut String, t: &Type)
    ensures
        final(s)@ == old(s)@ + type_text(t@),
    decreases t,
{
    match t {
        Type::U8 => push_str(s, "U8"),
        Type::Bool => push_str(s, "Bool"),
        Type::Unit => push_str(s, "Unit"),
        Type::Array(e, n) => {
            push_str(s, "Array(");
            push_type_text(s, e);
            push_str(s, ", ");
            push_decimal(s, *n as u64);
            push_str(s, ")");
        },
        Type::Sprite(n) => {
            push_str(s, "Sprite(");
            push_decimal(s, *n as u64);
            push_str(s, ")");
        },
        Type::UserType(name) => {
            push_str(s, "UserType(\"");
            push_string(s, name);
            push_str(s, "\")");
        },
    }
    proof {
        assert(final(s)@ =~= old(s)@ + type_text(t@));
    }
}

/// Appends names separated by `", "`.
fn push_joined(s: &mut String, names: &Vec<String>)
    ensures
        final(s)@ == old(s)@ + joined(names@),
{
    let mut i: usize = 0;
    while i < names.len()
        invariant
            i <= names@.len(),
            s@ == old(s)@ + joined(names@.take(i as int)),
        decreases names.len() - i,
    {
        if i > 0 {
            push_str(s, ", ");
        }
        push_string(s, &names[i]);
        proof {
            let t = names@.take(i + 1);
            assert(t.drop_last() =~= names@.take(i as int));
            assert(t.last() == names@[i as int]);
            assert(s@ =~= old(s)@ + joined(t));
        }
        i = i + 1;
    }
    proof {
        assert(names@.take(i as int) =~= names@);
    }
}

/// Appends `'name'`.
fn push_quoted(s: &mut String, name: &String)
    ensures
        final(s)@ == old(s)@ + quoted(name@),
{
    push_str(s, "'");
    push_string(s, name);
    push_str(s, "'");
    proof {
        assert(final(s)@ =~= old(s)@ + quoted(name@));
    }
}

impl AnalyzeError {
    /// The error message.
    pub fn message(&self) -> (r: String)
        ensures
            r@ == analyze_error_text(self.kind),
    {
        let mut s = String::new();
        match &self.kind {
            AnalyzeErrorKind::MissingMain => push_str(&mut s, "missing 'main' function"),
            AnalyzeErrorKind::UndefinedVariable(name) => {
                push_str(&mut s, "undefined variable: ");
                push_quoted(&mut s, name);
            },
            AnalyzeErrorKind::UndefinedFunction(name) => {
                push_str(&mut s, "undefined function: ");
                push_quoted(&mut s, name);
            },
            AnalyzeErrorKind::TypeMismatch { context, expected, found } => {
                push_str(&mut s, context);
                push_str(&mut s, ": expected ");
                push_type_text(&mut s, expected);
                push_str(&mut s, ", found ");
                push_type_text(&mut s, found);
            },
            AnalyzeErrorKind::BinaryOpTypeMismatch { lhs, rhs } => {
                push_str(&mut s, "binary op type mismatch: ");
                push_type_text(&mut s, lhs);
                push_str(&mut s, " vs ");
                push_type_text(&mut s, rhs);
            },
            AnalyzeErrorKind::ArgumentCountMismatch { function, expected, found } => {
                push_quoted(&mut s, function);
                push_str(&mut s, " expects ");
                push_decimal(&mut s, *expected as u64);
                push_str(&mut s, " args, got ");
                push_decimal(&mut s, *found as u64);
            },
            AnalyzeErrorKind::ArgumentTypeMismatch { function, expected, found } => {
                push_str(&mut s, "argument type mismatch in ");
                push_quoted(&mut s, function);
                push_str(&mut s, ": expected ");
                push_type_text(&mut s, expected);
                push_str(&mut s, ", found ");
                push_type_text(&mut s, found);
            },
            AnalyzeErrorKind::BuiltinArgCountMismatch { builtin, expected, found } => {
                let name = builtin.name();
                push_str(&mut s, "'");
                push_str(&mut s, name);
                push_str(&mut s, "'");
                push_str(&mut s, " expects ");
                push_decimal(&mut s, *expected as u64);
                push_str(&mut s, " args, got ");
                push_decimal(&mut s, *found as u64);
            },
            AnalyzeErrorKind::BuiltinArgTypeMismatch { builtin, expected, found } => {
                let name = builtin.name();
                push_str(&mut s, "argument type mismatch in ");
                push_str(&mut s, "'");
                push_str(&mut s, name);
                push_str(&mut s, "'");
                push_str(&mut s, ": expected ");
                push_type_text(&mut s, expected);
                push_str(&mut s, ", found ");
                push_type_text(&mut s, found);
            },
            AnalyzeErrorKind::LogicalOpRequiresBool(ty) => {
                push_str(&mut s, "logical op requires bool, found ");
                push_type_text(&mut s, ty);
            },
            AnalyzeErrorKind::NegationRequiresU8(ty) => {
                push_str(&mut s, "negation requires u8, found ");
                push_type_text(&mut s, ty);
            },
            AnalyzeErrorKind::LogicalNotRequiresBool(ty) => {
                push_str(&mut s, "logical not requires bool, found ");
                push_type_text(&mut s, ty);
            },
            AnalyzeErrorKind::IfConditionNotBool(ty) => {
                push_str(&mut s, "if condition must be bool, found ");
                push_type_text(&mut s, ty);
            },
            AnalyzeErrorKind::IfElseBranchMismatch { then_type, else_type } => {
                push_str(&mut s, "if/else type mismatch: ");
                push_type_text(&mut s, then_type);
                push_str(&mut s, " vs ");
                push_type_text(&mut s, else_type);
            },
            AnalyzeErrorKind::TooManyLocals { count, max } => {
                push_str(&mut s, "too many local variables: ");
                push_decimal(&mut s, *count as u64);
                push_str(&mut s, " (max ");
                push_decimal(&mut s, *max as u64);
                push_str(&mut s, ")");
            },
            AnalyzeErrorKind::CannotIndex(ty) => {
                push_str(&mut s, "cannot index into ");
                push_type_text(&mut s, ty);
            },
            AnalyzeErrorKind::ArrayIndexNotU8(ty) => {
                push_str(&mut s, "array index must be u8, found ");
                push_type_text(&mut s, ty);
            },
            AnalyzeErrorKind::ArrayElementMismatch => {
                push_str(&mut s, "array elements must have the same type");
            },
            AnalyzeErrorKind::BreakOutsideLoop => push_str(&mut s, "break outside of loop"),
            AnalyzeErrorKind::AssignmentTypeMismatch { expected, found } => {
                push_str(&mut s, "assignment type mismatch: expected ");
                push_type_text(&mut s, expected);
                push_str(&mut s, ", found ");
                push_type_text(&mut s, found);
            },
            AnalyzeErrorKind::MatchScrutineeType(ty) => {
                push_str(&mut s, "match scrutinee must be u8 or enum, found ");
                push_type_text(&mut s, ty);
            },
            AnalyzeErrorKind::MatchArmPatternNotLiteral => {
                push_str(&mut s, "match arm pattern must be a literal or enum variant");
            },
            AnalyzeErrorKind::MatchArmTypeMismatch { first, found } => {
                push_str(&mut s, "match arm type mismatch: ");
                push_type_text(&mut s, first);
                push_str(&mut s, " vs ");
                push_type_text(&mut s, found);
            },
            AnalyzeErrorKind::MatchNoArms => push_str(&mut s, "match expression has no arms"),
            AnalyzeErrorKind::UndefinedEnum(name) => {
                push_str(&mut s, "undefined enum: ");
                push_quoted(&mut s, name);
            },
            AnalyzeErrorKind::UndefinedEnumVariant { enum_name, variant } => {
                push_str(&mut s, "undefined variant ");
                push_quoted(&mut s, variant);
                push_str(&mut s, " in enum ");
                push_quoted(&mut s, enum_name);
            },
            AnalyzeErrorKind::NonExhaustiveMatch { enum_name, missing } => {
                push_str(&mut s, "non-exhaustive match on ");
                push_quoted(&mut s, enum_name);
                push_str(&mut s, ": missing ");
                push_joined(&mut s, missing);
            },
            AnalyzeErrorKind::UnknownType(name) => {
                push_str(&mut s, "unknown type: ");
                push_quoted(&mut s, name);
            },
            AnalyzeErrorKind::RandomEnumArgNotEnum(name) => {
                push_str(&mut s, "random_enum argument must be an enum name, got ");
                push_quoted(&mut s, name);
            },
            AnalyzeErrorKind::UndefinedStruct(name) => {
                push_str(&mut s, "undefined struct: ");
                push_quoted(&mut s, name);
            },
            AnalyzeErrorKind::UndefinedField { struct_name, field } => {
                push_str(&mut s, "undefined field ");
                push_quoted(&mut s, field);
                push_str(&mut s, " in struct ");
                push_quoted(&mut s, struct_name);
            },
            AnalyzeErrorKind::MissingFields { struct_name, missing } => {
                push_str(&mut s, "missing fields in struct ");
                push_quoted(&mut s, struct_name);
                push_str(&mut s, ": ");
                push_joined(&mut s, missing);
            },
            AnalyzeErrorKind::DuplicateField { struct_name, field } => {
                push_str(&mut s, "duplicate field ");
                push_quoted(&mut s, field);
                push_str(&mut s, " in struct ");
                push_quoted(&mut s, struct_name);
            },
            AnalyzeErrorKind::FieldAccessOnNonStruct(ty) => {
                push_str(&mut s, "field access on non-struct type: ");
                push_type_text(&mut s, ty);
            },
            AnalyzeErrorKind::ImmutableAssignment(name) => {
                push_str(&mut s, "cannot assign to immutable global: ");
                push_quoted(&mut s, name);
            },
        }
        proof {
            assert(s@ =~= analyze_error_text(self.kind));
        }
        s
    }
}

} // verus!

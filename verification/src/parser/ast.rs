use vstd::prelude::*;

use crate::lexer::token::Span;
use crate::text::{same_text, spells, chars_of};

verus! {

/// A type of the language.
#[derive(Debug, PartialEq, Eq)]
pub enum Type {
    U8,
    Bool,
    Unit,
    Array(Box<Type>, usize),
    Sprite(usize),
    UserType(String),
}

/// The mathematical model of a type: a user type is its name's characters.
pub enum TypeModel {
    U8,
    Bool,
    Unit,
    Array(Box<TypeModel>, usize),
    Sprite(usize),
    UserType(Seq<char>),
}

impl View for Type {
    type V = TypeModel;

    open spec fn view(&self) -> TypeModel
        decreases self,
    {
        match self {
            Type::U8 => TypeModel::U8,
            Type::Bool => TypeModel::Bool,
            Type::Unit => TypeModel::Unit,
            Type::Array(e, n) => TypeModel::Array(Box::new((**e)@), *n),
            Type::Sprite(n) => TypeModel::Sprite(*n),
            Type::UserType(name) => TypeModel::UserType(name@),
        }
    }
}

/// A copy of a type.
pub fn clone_type(t: &Type) -> (r: Type)
    ensures
        r == *t,
        r@ == t@,
    decreases t,
{
    match t {
        Type::U8 => Type::U8,
        Type::Bool => Type::Bool,
        Type::Unit => Type::Unit,
        Type::Array(e, n) => Type::Array(Box::new(clone_type(e)), *n),
        Type::Sprite(n) => Type::Sprite(*n),
        Type::UserType(name) => Type::UserType(name.clone()),
    }
}

impl Clone for Type {
    fn clone(&self) -> (r: Self)
        ensures
            r@ == self@,
    {
        clone_type(self)
    }
}

/// Whether two types are the same type.
pub fn type_eq(a: &Type, b: &Type) -> (r: bool)
    ensures
        r == (a@ == b@),
    decreases a,
{
    match (a, b) {
        (Type::U8, Type::U8) => true,
        (Type::Bool, Type::Bool) => true,
        (Type::Unit, Type::Unit) => true,
        (Type::Array(e1, n1), Type::Array(e2, n2)) => *n1 == *n2 && type_eq(e1, e2),
        (Type::Sprite(n1), Type::Sprite(n2)) => *n1 == *n2,
        (Type::UserType(x), Type::UserType(y)) => same_text(x, y),
        _ => false,
    }
}

/// A binary operator.
#[derive(Debug, Clone, Copy, PartialEq, Eq, Structural)]
pub enum BinOp {
    Add,
    Sub,
    Mul,
    Div,
    Mod,
    Eq,
    NotEq,
    Lt,
    Gt,
    LtEq,
    GtEq,
    And,
    Or,
}

/// A unary operator.
#[derive(Debug, Clone, Copy, PartialEq, Eq, Structural)]
pub enum UnaryOp {
    Neg,
    Not,
}

/// An expression.
#[derive(Debug, PartialEq, Eq)]
pub struct Expr {
    pub kind: ExprKind,
    pub span: Span,
}

#[derive(Debug, PartialEq, Eq)]
pub enum ExprKind {
    IntLiteral(u64),
    BoolLiteral(bool),
    Ident(String),
    BinaryOp { op: BinOp, lhs: Box<Expr>, rhs: Box<Expr> },
    UnaryOp { op: UnaryOp, expr: Box<Expr> },
    Call { name: String, args: Vec<Expr> },
    BuiltinCall { builtin: BuiltinFunction, args: Vec<Expr> },
    If { cond: Box<Expr>, then_block: Box<Expr>, else_block: Option<Box<Expr>> },
    Loop { body: Box<Expr> },
    Block {
        stmts: Vec<Stmt>,
        /// The tail expression (the value of the block).
        expr: Option<Box<Expr>>,
    },
    ArrayLiteral(Vec<Expr>),
    Index { array: Box<Expr>, index: Box<Expr> },
    Match { scrutinee: Box<Expr>, arms: Vec<MatchArm> },
    EnumVariant { enum_name: String, variant: String },
    StructLiteral { name: String, fields: Vec<(String, Expr)>, base: Option<Box<Expr>> },
    FieldAccess { expr: Box<Expr>, field: String },
}

/// An arm of a `match` expression.
#[derive(Debug, PartialEq, Eq)]
pub struct MatchArm {
    pub pattern: Expr,
    pub body: Expr,
}

/// A statement.
#[derive(Debug, PartialEq, Eq)]
pub struct Stmt {
    pub kind: StmtKind,
    pub span: Span,
}

#[derive(Debug, PartialEq, Eq)]
pub enum StmtKind {
    Let { name: String, ty: Type, value: Expr },
    Assign { name: String, value: Expr },
    IndexAssign { array: String, index: Expr, value: Expr },
    Expr(Expr),
    Return(Option<Expr>),
    Break,
}

/// A field of a struct definition.
#[derive(Debug, PartialEq, Eq)]
pub struct StructField {
    pub name: String,
    pub ty: Type,
}

/// A parameter of a function.
#[derive(Debug, PartialEq, Eq)]
pub struct Param {
    pub name: String,
    pub ty: Type,
}

/// A top-level definition.
#[derive(Debug, PartialEq, Eq)]
pub enum TopLevel {
    FnDef { name: String, params: Vec<Param>, return_type: Type, body: Expr, span: Span },
    LetDef { name: String, ty: Type, value: Expr, mutable: bool, span: Span },
    EnumDef { name: String, variants: Vec<String>, span: Span },
    StructDef { name: String, fields: Vec<StructField>, span: Span },
}

/// A whole program.
#[derive(Debug, PartialEq, Eq)]
pub struct Program {
    pub top_levels: Vec<TopLevel>,
}

/// A built-in function of the language.
///
/// Each one maps directly onto a CHIP-8 facility. The parser resolves them by name and
/// code generation emits the matching instructions.
#[derive(Debug, Clone, Copy, PartialEq, Eq, Structural)]
pub enum BuiltinFunction {
    /// clear() - clear the screen (00E0)
    Clear,
    /// draw(sprite, x, y) -> bool - draw a sprite (DXYN)
    Draw,
    /// wait_key() -> u8 - wait for a key (FX0A)
    WaitKey,
    /// is_key_pressed(k: u8) -> bool - key test (EX9E)
    IsKeyPressed,
    /// delay() -> u8 - read the delay timer (FX07)
    Delay,
    /// set_delay(v: u8) - set the delay timer (FX15)
    SetDelay,
    /// set_sound(v: u8) - set the sound timer (FX18)
    SetSound,
    /// random(mask: u8) -> u8 - random number (CXKK)
    Random,
    /// bcd(v: u8) - BCD conversion (FX33)
    Bcd,
    /// draw_digit(v: u8, x: u8, y: u8) - draw a font digit (FX29 + DXYN)
    DrawDigit,
    /// random_enum(EnumName) -> EnumName - a random variant of an enum
    RandomEnum,
}

/// The name of a built-in function.
pub open spec fn builtin_name(b: BuiltinFunction) -> Seq<char> {
    match b {
        BuiltinFunction::Clear => seq!['c', 'l', 'e', 'a', 'r'],
        BuiltinFunction::Draw => seq!['d', 'r', 'a', 'w'],
        BuiltinFunction::WaitKey => seq!['w', 'a', 'i', 't', '_', 'k', 'e', 'y'],
        BuiltinFunction::IsKeyPressed => seq![
            'i', 's', '_', 'k', 'e', 'y', '_', 'p', 'r', 'e', 's', 's', 'e', 'd'
        ],
        BuiltinFunction::Delay => seq!['d', 'e', 'l', 'a', 'y'],
        BuiltinFunction::SetDelay => seq!['s', 'e', 't', '_', 'd', 'e', 'l', 'a', 'y'],
        BuiltinFunction::SetSound => seq!['s', 'e', 't', '_', 's', 'o', 'u', 'n', 'd'],
        BuiltinFunction::Random => seq!['r', 'a', 'n', 'd', 'o', 'm'],
        BuiltinFunction::Bcd => seq!['b', 'c', 'd'],
        BuiltinFunction::DrawDigit => seq!['d', 'r', 'a', 'w', '_', 'd', 'i', 'g', 'i', 't'],
        BuiltinFunction::RandomEnum => seq![
            'r', 'a', 'n', 'd', 'o', 'm', '_', 'e', 'n', 'u', 'm'
        ],
    }
}

/// The built-in function with a given name, if any.
pub open spec fn builtin_named(name: Seq<char>) -> Option<BuiltinFunction> {
    if name == builtin_name(BuiltinFunction::Clear) {
        Some(BuiltinFunction::Clear)
    } else if name == builtin_name(BuiltinFunction::Draw) {
        Some(BuiltinFunction::Draw)
    } else if name == builtin_name(BuiltinFunction::WaitKey) {
        Some(BuiltinFunction::WaitKey)
    } else if name == builtin_name(BuiltinFunction::IsKeyPressed) {
        Some(BuiltinFunction::IsKeyPressed)
    } else if name == builtin_name(BuiltinFunction::Delay) {
        Some(BuiltinFunction::Delay)
    } else if name == builtin_name(BuiltinFunction::SetDelay) {
        Some(BuiltinFunction::SetDelay)
    } else if name == builtin_name(BuiltinFunction::SetSound) {
        Some(BuiltinFunction::SetSound)
    } else if name == builtin_name(BuiltinFunction::Random) {
        Some(BuiltinFunction::Random)
    } else if name == builtin_name(BuiltinFunction::Bcd) {
        Some(BuiltinFunction::Bcd)
    } else if name == builtin_name(BuiltinFunction::DrawDigit) {
        Some(BuiltinFunction::DrawDigit)
    } else if name == builtin_name(BuiltinFunction::RandomEnum) {
        Some(BuiltinFunction::RandomEnum)
    } else {
        None
    }
}

/// The parameter types and result type of a built-in function.
/// (`random_enum` takes an enum name; the analyzer checks it on its own.)
pub open spec fn builtin_signature(b: BuiltinFunction) -> (Seq<TypeModel>, TypeModel) {
    match b {
        BuiltinFunction::Clear => (seq![], TypeModel::Unit),
        BuiltinFunction::Draw => (
            seq![TypeModel::Sprite(0), TypeModel::U8, TypeModel::U8],
            TypeModel::Bool,
        ),
        BuiltinFunction::WaitKey => (seq![], TypeModel::U8),
        BuiltinFunction::IsKeyPressed => (seq![TypeModel::U8], TypeModel::Bool),
        BuiltinFunction::Delay => (seq![], TypeModel::U8),
        BuiltinFunction::SetDelay => (seq![TypeModel::U8], TypeModel::Unit),
        BuiltinFunction::SetSound => (seq![TypeModel::U8], TypeModel::Unit),
        BuiltinFunction::Random => (seq![TypeModel::U8], TypeModel::U8),
        BuiltinFunction::Bcd => (seq![TypeModel::U8], TypeModel::Unit),
        BuiltinFunction::DrawDigit => (
            seq![TypeModel::U8, TypeModel::U8, TypeModel::U8],
            TypeModel::Unit,
        ),
        BuiltinFunction::RandomEnum => (seq![TypeModel::U8], TypeModel::U8),
    }
}

/// The view of every type in a sequence.
pub open spec fn types_view(ts: Seq<Type>) -> Seq<TypeModel> {
    ts.map_values(|t: Type| t@)
}

impl BuiltinFunction {
    /// The built-in function with this name, if any.
    pub fn from_name(name: &str) -> (r: Option<Self>)
        ensures
            r == builtin_named(name@),
    {
        let w = chars_of(name);
        if spells(&w, &['c', 'l', 'e', 'a', 'r']) {
            Some(Self::Clear)
        } else if spells(&w, &['d', 'r', 'a', 'w']) {
            Some(Self::Draw)
        } else if spells(&w, &['w', 'a', 'i', 't', '_', 'k', 'e', 'y']) {
            Some(Self::WaitKey)
        } else if spells(
            &w,
            &['i', 's', '_', 'k', 'e', 'y', '_', 'p', 'r', 'e', 's', 's', 'e', 'd'],
        ) {
            Some(Self::IsKeyPressed)
        } else if spells(&w, &['d', 'e', 'l', 'a', 'y']) {
            Some(Self::Delay)
        } else if spells(&w, &['s', 'e', 't', '_', 'd', 'e', 'l', 'a', 'y']) {
            Some(Self::SetDelay)
        } else if spells(&w, &['s', 'e', 't', '_', 's', 'o', 'u', 'n', 'd']) {
            Some(Self::SetSound)
        } else if spells(&w, &['r', 'a', 'n', 'd', 'o', 'm']) {
            Some(Self::Random)
        } else if spells(&w, &['b', 'c', 'd']) {
            Some(Self::Bcd)
        } else if spells(&w, &['d', 'r', 'a', 'w', '_', 'd', 'i', 'g', 'i', 't']) {
            Some(Self::DrawDigit)
        } else if spells(&w, &['r', 'a', 'n', 'd', 'o', 'm', '_', 'e', 'n', 'u', 'm']) {
            Some(Self::RandomEnum)
        } else {
            None
        }
    }

    /// The name of this built-in function.
    pub fn name(self) -> (r: &'static str)
        ensures
            r@ == builtin_name(self),
    {
        match self {
            Self::Clear => {
                proof {
                    reveal_strlit("clear");
                }
                "clear"
            },
            Self::Draw => {
                proof {
                    reveal_strlit("draw");
                }
                "draw"
            },
            Self::WaitKey => {
                proof {
                    reveal_strlit("wait_key");
                }
                "wait_key"
            },
            Self::IsKeyPressed => {
                proof {
                    reveal_strlit("is_key_pressed");
                }
                "is_key_pressed"
            },
            Self::Delay => {
                proof {
                    reveal_strlit("delay");
                }
                "delay"
            },
            Self::SetDelay => {
                proof {
                    reveal_strlit("set_delay");
                }
                "set_delay"
            },
            Self::SetSound => {
                proof {
                    reveal_strlit("set_sound");
                }
                "set_sound"
            },
            Self::Random => {
                proof {
                    reveal_strlit("random");
                }
                "random"
            },
            Self::Bcd => {
                proof {
                    reveal_strlit("bcd");
                }
                "bcd"
            },
            Self::DrawDigit => {
                proof {
                    reveal_strlit("draw_digit");
                }
                "draw_digit"
            },
            Self::RandomEnum => {
                proof {
                    reveal_strlit("random_enum");
                }
                "random_enum"
            },
        }
    }

    /// The parameter types and the result type of this built-in function.
    pub fn signature(self) -> (r: (Vec<Type>, Type))
        ensures
            types_view(r.0@) == builtin_signature(self).0,
            r.1@ == builtin_signature(self).1,
    {
        let r = match self {
            Self::Clear => (vec![], Type::Unit),
            Self::Draw => (vec![Type::Sprite(0), Type::U8, Type::U8], Type::Bool),
            Self::WaitKey => (vec![], Type::U8),
            Self::IsKeyPressed => (vec![Type::U8], Type::Bool),
            Self::Delay => (vec![], Type::U8),
            Self::SetDelay => (vec![Type::U8], Type::Unit),
            Self::SetSound => (vec![Type::U8], Type::Unit),
            Self::Random => (vec![Type::U8], Type::U8),
            Self::Bcd => (vec![Type::U8], Type::Unit),
            Self::DrawDigit => (vec![Type::U8, Type::U8, Type::U8], Type::Unit),
            Self::RandomEnum => (vec![Type::U8], Type::U8),
        };
        proof {
            assert(types_view(r.0@) =~= builtin_signature(self).0);
        }
        r
    }
}

/// Looking a built-in function up by its own name finds it again.
pub proof fn lemma_builtin_name_roundtrip(b: BuiltinFunction)
    ensures
        builtin_named(builtin_name(b)) == Some(b),
{
    match b {
        BuiltinFunction::Clear => {
        },
        BuiltinFunction::Draw => {
            assert(builtin_name(BuiltinFunction::Draw) != builtin_name(BuiltinFunction::Clear)) by {
                assert(builtin_name(BuiltinFunction::Draw).len() != builtin_name(BuiltinFunction::Clear).len());
            }
        },
        BuiltinFunction::WaitKey => {
            assert(builtin_name(BuiltinFunction::WaitKey) != builtin_name(BuiltinFunction::Clear)) by {
                assert(builtin_name(BuiltinFunction::WaitKey).len() != builtin_name(BuiltinFunction::Clear).len());
            }
            assert(builtin_name(BuiltinFunction::WaitKey) != builtin_name(BuiltinFunction::Draw)) by {
                assert(builtin_name(BuiltinFunction::WaitKey).len() != builtin_name(BuiltinFunction::Draw).len());
            }
        },
        BuiltinFunction::IsKeyPressed => {
            assert(builtin_name(BuiltinFunction::IsKeyPressed) != builtin_name(BuiltinFunction::Clear)) by {
                assert(builtin_name(BuiltinFunction::IsKeyPressed).len() != builtin_name(BuiltinFunction::Clear).len());
            }
            assert(builtin_name(BuiltinFunction::IsKeyPressed) != builtin_name(BuiltinFunction::Draw)) by {
                assert(builtin_name(BuiltinFunction::IsKeyPressed).len() != builtin_name(BuiltinFunction::Draw).len());
            }
            assert(builtin_name(BuiltinFunction::IsKeyPressed) != builtin_name(BuiltinFunction::WaitKey)) by {
                assert(builtin_name(BuiltinFunction::IsKeyPressed).len() != builtin_name(BuiltinFunction::WaitKey).len());
            }
        },
        BuiltinFunction::Delay => {
            assert(builtin_name(BuiltinFunction::Delay) != builtin_name(BuiltinFunction::Clear)) by {
                assert(builtin_name(BuiltinFunction::Delay)[0] != builtin_name(BuiltinFunction::Clear)[0]);
            }
            assert(builtin_name(BuiltinFunction::Delay) != builtin_name(BuiltinFunction::Draw)) by {
                assert(builtin_name(BuiltinFunction::Delay).len() != builtin_name(BuiltinFunction::Draw).len());
            }
            assert(builtin_name(BuiltinFunction::Delay) != builtin_name(BuiltinFunction::WaitKey)) by {
                assert(builtin_name(BuiltinFunction::Delay).len() != builtin_name(BuiltinFunction::WaitKey).len());
            }
            assert(builtin_name(BuiltinFunction::Delay) != builtin_name(BuiltinFunction::IsKeyPressed)) by {
                assert(builtin_name(BuiltinFunction::Delay).len() != builtin_name(BuiltinFunction::IsKeyPressed).len());
            }
        },
        BuiltinFunction::SetDelay => {
            assert(builtin_name(BuiltinFunction::SetDelay) != builtin_name(BuiltinFunction::Clear)) by {
                assert(builtin_name(BuiltinFunction::SetDelay).len() != builtin_name(BuiltinFunction::Clear).len());
            }
            assert(builtin_name(BuiltinFunction::SetDelay) != builtin_name(BuiltinFunction::Draw)) by {
                assert(builtin_name(BuiltinFunction::SetDelay).len() != builtin_name(BuiltinFunction::Draw).len());
            }
            assert(builtin_name(BuiltinFunction::SetDelay) != builtin_name(BuiltinFunction::WaitKey)) by {
                assert(builtin_name(BuiltinFunction::SetDelay).len() != builtin_name(BuiltinFunction::WaitKey).len());
            }
            assert(builtin_name(BuiltinFunction::SetDelay) != builtin_name(BuiltinFunction::IsKeyPressed)) by {
                assert(builtin_name(BuiltinFunction::SetDelay).len() != builtin_name(BuiltinFunction::IsKeyPressed).len());
            }
            assert(builtin_name(BuiltinFunction::SetDelay) != builtin_name(BuiltinFunction::Delay)) by {
                assert(builtin_name(BuiltinFunction::SetDelay).len() != builtin_name(BuiltinFunction::Delay).len());
            }
        },
        BuiltinFunction::SetSound => {
            assert(builtin_name(BuiltinFunction::SetSound) != builtin_name(BuiltinFunction::Clear)) by {
                assert(builtin_name(BuiltinFunction::SetSound).len() != builtin_name(BuiltinFunction::Clear).len());
            }
            assert(builtin_name(BuiltinFunction::SetSound) != builtin_name(BuiltinFunction::Draw)) by {
                assert(builtin_name(BuiltinFunction::SetSound).len() != builtin_name(BuiltinFunction::Draw).len());
            }
            assert(builtin_name(BuiltinFunction::SetSound) != builtin_name(BuiltinFunction::WaitKey)) by {
                assert(builtin_name(BuiltinFunction::SetSound).len() != builtin_name(BuiltinFunction::WaitKey).len());
            }
            assert(builtin_name(BuiltinFunction::SetSound) != builtin_name(BuiltinFunction::IsKeyPressed)) by {
                assert(builtin_name(BuiltinFunction::SetSound).len() != builtin_name(BuiltinFunction::IsKeyPressed).len());
            }
            assert(builtin_name(BuiltinFunction::SetSound) != builtin_name(BuiltinFunction::Delay)) by {
                assert(builtin_name(BuiltinFunction::SetSound).len() != builtin_name(BuiltinFunction::Delay).len());
            }
            assert(builtin_name(BuiltinFunction::SetSound) != builtin_name(BuiltinFunction::SetDelay)) by {
                assert(builtin_name(BuiltinFunction::SetSound)[4] != builtin_name(BuiltinFunction::SetDelay)[4]);
            }
        },
        BuiltinFunction::Random => {
            assert(builtin_name(BuiltinFunction::Random) != builtin_name(BuiltinFunction::Clear)) by {
                assert(builtin_name(BuiltinFunction::Random).len() != builtin_name(BuiltinFunction::Clear).len());
            }
            assert(builtin_name(BuiltinFunction::Random) != builtin_name(BuiltinFunction::Draw)) by {
                assert(builtin_name(BuiltinFunction::Random).len() != builtin_name(BuiltinFunction::Draw).len());
            }
            assert(builtin_name(BuiltinFunction::Random) != builtin_name(BuiltinFunction::WaitKey)) by {
                assert(builtin_name(BuiltinFunction::Random).len() != builtin_name(BuiltinFunction::WaitKey).len());
            }
            assert(builtin_name(BuiltinFunction::Random) != builtin_name(BuiltinFunction::IsKeyPressed)) by {
                assert(builtin_name(BuiltinFunction::Random).len() != builtin_name(BuiltinFunction::IsKeyPressed).len());
            }
            assert(builtin_name(BuiltinFunction::Random) != builtin_name(BuiltinFunction::Delay)) by {
                assert(builtin_name(BuiltinFunction::Random).len() != builtin_name(BuiltinFunction::Delay).len());
            }
            assert(builtin_name(BuiltinFunction::Random) != builtin_name(BuiltinFunction::SetDelay)) by {
                assert(builtin_name(BuiltinFunction::Random).len() != builtin_name(BuiltinFunction::SetDelay).len());
            }
            assert(builtin_name(BuiltinFunction::Random) != builtin_name(BuiltinFunction::SetSound)) by {
                assert(builtin_name(BuiltinFunction::Random).len() != builtin_name(BuiltinFunction::SetSound).len());
            }
        },
        BuiltinFunction::Bcd => {
            assert(builtin_name(BuiltinFunction::Bcd) != builtin_name(BuiltinFunction::Clear)) by {
                assert(builtin_name(BuiltinFunction::Bcd).len() != builtin_name(BuiltinFunction::Clear).len());
            }
            assert(builtin_name(BuiltinFunction::Bcd) != builtin_name(BuiltinFunction::Draw)) by {
                assert(builtin_name(BuiltinFunction::Bcd).len() != builtin_name(BuiltinFunction::Draw).len());
            }
            assert(builtin_name(BuiltinFunction::Bcd) != builtin_name(BuiltinFunction::WaitKey)) by {
                assert(builtin_name(BuiltinFunction::Bcd).len() != builtin_name(BuiltinFunction::WaitKey).len());
            }
            assert(builtin_name(BuiltinFunction::Bcd) != builtin_name(BuiltinFunction::IsKeyPressed)) by {
                assert(builtin_name(BuiltinFunction::Bcd).len() != builtin_name(BuiltinFunction::IsKeyPressed).len());
            }
            assert(builtin_name(BuiltinFunction::Bcd) != builtin_name(BuiltinFunction::Delay)) by {
                assert(builtin_name(BuiltinFunction::Bcd).len() != builtin_name(BuiltinFunction::Delay).len());
            }
            assert(builtin_name(BuiltinFunction::Bcd) != builtin_name(BuiltinFunction::SetDelay)) by {
                assert(builtin_name(BuiltinFunction::Bcd).len() != builtin_name(BuiltinFunction::SetDelay).len());
            }
            assert(builtin_name(BuiltinFunction::Bcd) != builtin_name(BuiltinFunction::SetSound)) by {
                assert(builtin_name(BuiltinFunction::Bcd).len() != builtin_name(BuiltinFunction::SetSound).len());
            }
            assert(builtin_name(BuiltinFunction::Bcd) != builtin_name(BuiltinFunction::Random)) by {
                assert(builtin_name(BuiltinFunction::Bcd).len() != builtin_name(BuiltinFunction::Random).len());
            }
        },
        BuiltinFunction::DrawDigit => {
            assert(builtin_name(BuiltinFunction::DrawDigit) != builtin_name(BuiltinFunction::Clear)) by {
                assert(builtin_name(BuiltinFunction::DrawDigit).len() != builtin_name(BuiltinFunction::Clear).len());
            }
            assert(builtin_name(BuiltinFunction::DrawDigit) != builtin_name(BuiltinFunction::Draw)) by {
                assert(builtin_name(BuiltinFunction::DrawDigit).len() != builtin_name(BuiltinFunction::Draw).len());
            }
            assert(builtin_name(BuiltinFunction::DrawDigit) != builtin_name(BuiltinFunction::WaitKey)) by {
                assert(builtin_name(BuiltinFunction::DrawDigit).len() != builtin_name(BuiltinFunction::WaitKey).len());
            }
            assert(builtin_name(BuiltinFunction::DrawDigit) != builtin_name(BuiltinFunction::IsKeyPressed)) by {
                assert(builtin_name(BuiltinFunction::DrawDigit).len() != builtin_name(BuiltinFunction::IsKeyPressed).len());
            }
            assert(builtin_name(BuiltinFunction::DrawDigit) != builtin_name(BuiltinFunction::Delay)) by {
                assert(builtin_name(BuiltinFunction::DrawDigit).len() != builtin_name(BuiltinFunction::Delay).len());
            }
            assert(builtin_name(BuiltinFunction::DrawDigit) != builtin_name(BuiltinFunction::SetDelay)) by {
                assert(builtin_name(BuiltinFunction::DrawDigit).len() != builtin_name(BuiltinFunction::SetDelay).len());
            }
            assert(builtin_name(BuiltinFunction::DrawDigit) != builtin_name(BuiltinFunction::SetSound)) by {
                assert(builtin_name(BuiltinFunction::DrawDigit).len() != builtin_name(BuiltinFunction::SetSound).len());
            }
            assert(builtin_name(BuiltinFunction::DrawDigit) != builtin_name(BuiltinFunction::Random)) by {
                assert(builtin_name(BuiltinFunction::DrawDigit).len() != builtin_name(BuiltinFunction::Random).len());
            }
            assert(builtin_name(BuiltinFunction::DrawDigit) != builtin_name(BuiltinFunction::Bcd)) by {
                assert(builtin_name(BuiltinFunction::DrawDigit).len() != builtin_name(BuiltinFunction::Bcd).len());
            }
        },
        BuiltinFunction::RandomEnum => {
            assert(builtin_name(BuiltinFunction::RandomEnum) != builtin_name(BuiltinFunction::Clear)) by {
                assert(builtin_name(BuiltinFunction::RandomEnum).len() != builtin_name(BuiltinFunction::Clear).len());
            }
            assert(builtin_name(BuiltinFunction::RandomEnum) != builtin_name(BuiltinFunction::Draw)) by {
                assert(builtin_name(BuiltinFunction::RandomEnum).len() != builtin_name(BuiltinFunction::Draw).len());
            }
            assert(builtin_name(BuiltinFunction::RandomEnum) != builtin_name(BuiltinFunction::WaitKey)) by {
                assert(builtin_name(BuiltinFunction::RandomEnum).len() != builtin_name(BuiltinFunction::WaitKey).len());
            }
            assert(builtin_name(BuiltinFunction::RandomEnum) != builtin_name(BuiltinFunction::IsKeyPressed)) by {
                assert(builtin_name(BuiltinFunction::RandomEnum).len() != builtin_name(BuiltinFunction::IsKeyPressed).len());
            }
            assert(builtin_name(BuiltinFunction::RandomEnum) != builtin_name(BuiltinFunction::Delay)) by {
                assert(builtin_name(BuiltinFunction::RandomEnum).len() != builtin_name(BuiltinFunction::Delay).len());
            }
            assert(builtin_name(BuiltinFunction::RandomEnum) != builtin_name(BuiltinFunction::SetDelay)) by {
                assert(builtin_name(BuiltinFunction::RandomEnum).len() != builtin_name(BuiltinFunction::SetDelay).len());
            }
            assert(builtin_name(BuiltinFunction::RandomEnum) != builtin_name(BuiltinFunction::SetSound)) by {
                assert(builtin_name(BuiltinFunction::RandomEnum).len() != builtin_name(BuiltinFunction::SetSound).len());
            }
            assert(builtin_name(BuiltinFunction::RandomEnum) != builtin_name(BuiltinFunction::Random)) by {
                assert(builtin_name(BuiltinFunction::RandomEnum).len() != builtin_name(BuiltinFunction::Random).len());
            }
            assert(builtin_name(BuiltinFunction::RandomEnum) != builtin_name(BuiltinFunction::Bcd)) by {
                assert(builtin_name(BuiltinFunction::RandomEnum).len() != builtin_name(BuiltinFunction::Bcd).len());
            }
            assert(builtin_name(BuiltinFunction::RandomEnum) != builtin_name(BuiltinFunction::DrawDigit)) by {
                assert(builtin_name(BuiltinFunction::RandomEnum).len() != builtin_name(BuiltinFunction::DrawDigit).len());
            }
        },
    }
}

/// A name that finds a built-in function is that function's name.
pub proof fn lemma_builtin_named_is_name(name: Seq<char>)
    ensures
        builtin_named(name) matches Some(b) ==> builtin_name(b) == name,
{
}

} // verus!

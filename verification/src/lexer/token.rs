use vstd::prelude::*;

verus! {

/// A position in the source text (1-based line and column).
#[derive(Debug, Clone, Copy, PartialEq, Eq, Structural)]
pub struct Span {
    pub line: usize,
    pub column: usize,
}

/// The kind of a token.
#[derive(Debug, Clone, PartialEq, Eq)]
pub enum TokenKind {
    // keywords
    Let,
    Fn,
    If,
    Else,
    Loop,
    Break,
    Return,
    True,
    False,
    Match,
    Enum,
    Struct,
    Mut,
    // literals
    IntLiteral(u64),
    // identifiers
    Ident(String),
    // operators
    Plus,
    Minus,
    Star,
    Slash,
    Percent,
    EqEq,
    NotEq,
    Lt,
    Gt,
    LtEq,
    GtEq,
    AndAnd,
    OrOr,
    Bang,
    Eq,
    // punctuation
    LParen,
    RParen,
    LBrace,
    RBrace,
    LBracket,
    RBracket,
    Comma,
    Semicolon,
    Colon,
    /// `->`
    Arrow,
    /// `=>`
    FatArrow,
    /// `::`
    ColonColon,
    /// `|>`
    Pipe,
    /// `.`
    Dot,
    /// `..`
    DotDot,
    // end of input
    Eof,
}

/// The mathematical model of a token kind: an identifier is its character sequence,
/// every other kind stands for itself.
pub enum KindModel {
    Ident(Seq<char>),
    Other(TokenKind),
}

impl View for TokenKind {
    type V = KindModel;

    open spec fn view(&self) -> KindModel {
        match self {
            TokenKind::Ident(s) => KindModel::Ident(s@),
            _ => KindModel::Other(*self),
        }
    }
}

/// A token: its kind and where it starts.
#[derive(Debug, Clone, PartialEq, Eq)]
pub struct Token {
    pub kind: TokenKind,
    pub span: Span,
}

/// The mathematical model of a token.
pub struct TokenModel {
    pub kind: KindModel,
    pub span: Span,
}

impl View for Token {
    type V = TokenModel;

    open spec fn view(&self) -> TokenModel {
        TokenModel { kind: self.kind@, span: self.span }
    }
}

impl Token {
    pub fn new(kind: TokenKind, span: Span) -> (r: Self)
        ensures
            r.kind == kind,
            r.span == span,
    {
        Self { kind, span }
    }
}

/// A copy of a token kind.
pub fn clone_kind(k: &TokenKind) -> (r: TokenKind)
    ensures
        r == *k,
{
    match k {
        TokenKind::Ident(s) => TokenKind::Ident(s.clone()),
        TokenKind::Let => TokenKind::Let,
        TokenKind::Fn => TokenKind::Fn,
        TokenKind::If => TokenKind::If,
        TokenKind::Else => TokenKind::Else,
        TokenKind::Loop => TokenKind::Loop,
        TokenKind::Break => TokenKind::Break,
        TokenKind::Return => TokenKind::Return,
        TokenKind::True => TokenKind::True,
        TokenKind::False => TokenKind::False,
        TokenKind::Match => TokenKind::Match,
        TokenKind::Enum => TokenKind::Enum,
        TokenKind::Struct => TokenKind::Struct,
        TokenKind::Mut => TokenKind::Mut,
        TokenKind::IntLiteral(v) => TokenKind::IntLiteral(*v),
        TokenKind::Plus => TokenKind::Plus,
        TokenKind::Minus => TokenKind::Minus,
        TokenKind::Star => TokenKind::Star,
        TokenKind::Slash => TokenKind::Slash,
        TokenKind::Percent => TokenKind::Percent,
        TokenKind::EqEq => TokenKind::EqEq,
        TokenKind::NotEq => TokenKind::NotEq,
        TokenKind::Lt => TokenKind::Lt,
        TokenKind::Gt => TokenKind::Gt,
        TokenKind::LtEq => TokenKind::LtEq,
        TokenKind::GtEq => TokenKind::GtEq,
        TokenKind::AndAnd => TokenKind::AndAnd,
        TokenKind::OrOr => TokenKind::OrOr,
        TokenKind::Bang => TokenKind::Bang,
        TokenKind::Eq => TokenKind::Eq,
        TokenKind::LParen => TokenKind::LParen,
        TokenKind::RParen => TokenKind::RParen,
        TokenKind::LBrace => TokenKind::LBrace,
        TokenKind::RBrace => TokenKind::RBrace,
        TokenKind::LBracket => TokenKind::LBracket,
        TokenKind::RBracket => TokenKind::RBracket,
        TokenKind::Comma => TokenKind::Comma,
        TokenKind::Semicolon => TokenKind::Semicolon,
        TokenKind::Colon => TokenKind::Colon,
        TokenKind::Arrow => TokenKind::Arrow,
        TokenKind::FatArrow => TokenKind::FatArrow,
        TokenKind::ColonColon => TokenKind::ColonColon,
        TokenKind::Pipe => TokenKind::Pipe,
        TokenKind::Dot => TokenKind::Dot,
        TokenKind::DotDot => TokenKind::DotDot,
        TokenKind::Eof => TokenKind::Eof,
    }
}

/// Whether two token kinds are the same kind with the same payload.
pub fn same_kind(a: &TokenKind, b: &TokenKind) -> (r: bool)
    ensures
        r == (a@ == b@),
{
    match (a, b) {
        (TokenKind::Ident(x), TokenKind::Ident(y)) => {
            let r = *x == *y;
            r
        },
        (TokenKind::Ident(_), _) => false,
        (_, TokenKind::Ident(_)) => false,
        (TokenKind::IntLiteral(x), TokenKind::IntLiteral(y)) => {
            let r = *x == *y;
            assert(r == (a@ == b@));
            r
        },
        (TokenKind::IntLiteral(_), _) => false,
        (_, TokenKind::IntLiteral(_)) => false,
        _ => {
            let r = tag(a) == tag(b);
            proof {
                assert(!(a is Ident) && !(b is Ident));
                assert(a@ == KindModel::Other(*a));
                assert(b@ == KindModel::Other(*b));
                if r {
                    lemma_tag_injective(*a, *b);
                }
            }
            r
        },
    }
}

/// A number for each payload-free token kind.
spec fn spec_tag(k: TokenKind) -> u8 {
    match k {
        TokenKind::Let => 0,
        TokenKind::Fn => 1,
        TokenKind::If => 2,
        TokenKind::Else => 3,
        TokenKind::Loop => 4,
        TokenKind::Break => 5,
        TokenKind::Return => 6,
        TokenKind::True => 7,
        TokenKind::False => 8,
        TokenKind::Match => 9,
        TokenKind::Enum => 10,
        TokenKind::Struct => 11,
        TokenKind::Mut => 12,
        TokenKind::IntLiteral(_) => 13,
        TokenKind::Ident(_) => 14,
        TokenKind::Plus => 15,
        TokenKind::Minus => 16,
        TokenKind::Star => 17,
        TokenKind::Slash => 18,
        TokenKind::Percent => 19,
        TokenKind::EqEq => 20,
        TokenKind::NotEq => 21,
        TokenKind::Lt => 22,
        TokenKind::Gt => 23,
        TokenKind::LtEq => 24,
        TokenKind::GtEq => 25,
        TokenKind::AndAnd => 26,
        TokenKind::OrOr => 27,
        TokenKind::Bang => 28,
        TokenKind::Eq => 29,
        TokenKind::LParen => 30,
        TokenKind::RParen => 31,
        TokenKind::LBrace => 32,
        TokenKind::RBrace => 33,
        TokenKind::LBracket => 34,
        TokenKind::RBracket => 35,
        TokenKind::Comma => 36,
        TokenKind::Semicolon => 37,
        TokenKind::Colon => 38,
        TokenKind::Arrow => 39,
        TokenKind::FatArrow => 40,
        TokenKind::ColonColon => 41,
        TokenKind::Pipe => 42,
        TokenKind::Dot => 43,
        TokenKind::DotDot => 44,
        TokenKind::Eof => 45,
    }
}

proof fn lemma_tag_injective(a: TokenKind, b: TokenKind)
    requires
        spec_tag(a) == spec_tag(b),
        !(a is Ident),
        !(a is IntLiteral),
    ensures
        a == b,
{
}

fn tag(k: &TokenKind) -> (r: u8)
    ensures
        r == spec_tag(*k),
{
    match k {
        TokenKind::Let => 0,
        TokenKind::Fn => 1,
        TokenKind::If => 2,
        TokenKind::Else => 3,
        TokenKind::Loop => 4,
        TokenKind::Break => 5,
        TokenKind::Return => 6,
        TokenKind::True => 7,
        TokenKind::False => 8,
        TokenKind::Match => 9,
        TokenKind::Enum => 10,
        TokenKind::Struct => 11,
        TokenKind::Mut => 12,
        TokenKind::IntLiteral(_) => 13,
        TokenKind::Ident(_) => 14,
        TokenKind::Plus => 15,
        TokenKind::Minus => 16,
        TokenKind::Star => 17,
        TokenKind::Slash => 18,
        TokenKind::Percent => 19,
        TokenKind::EqEq => 20,
        TokenKind::NotEq => 21,
        TokenKind::Lt => 22,
        TokenKind::Gt => 23,
        TokenKind::LtEq => 24,
        TokenKind::GtEq => 25,
        TokenKind::AndAnd => 26,
        TokenKind::OrOr => 27,
        TokenKind::Bang => 28,
        TokenKind::Eq => 29,
        TokenKind::LParen => 30,
        TokenKind::RParen => 31,
        TokenKind::LBrace => 32,
        TokenKind::RBrace => 33,
        TokenKind::LBracket => 34,
        TokenKind::RBracket => 35,
        TokenKind::Comma => 36,
        TokenKind::Semicolon => 37,
        TokenKind::Colon => 38,
        TokenKind::Arrow => 39,
        TokenKind::FatArrow => 40,
        TokenKind::ColonColon => 41,
        TokenKind::Pipe => 42,
        TokenKind::Dot => 43,
        TokenKind::DotDot => 44,
        TokenKind::Eof => 45,
    }
}

} // verus!

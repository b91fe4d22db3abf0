pub mod token;

use vstd::prelude::*;

use crate::parser::ends_with_eof;
use crate::text::{decimal, push_char, push_decimal, push_str, push_string, spells, string_of_chars};
use token::{KindModel, Span, Token, TokenKind, TokenModel};

verus! {

// ---------------------------------------------------------------------------
// The lexical grammar
// ---------------------------------------------------------------------------

pub open spec fn is_digit(c: char) -> bool {
    48 <= (c as u32) <= 57
}

pub open spec fn is_lower(c: char) -> bool {
    97 <= (c as u32) <= 122
}

pub open spec fn is_upper(c: char) -> bool {
    65 <= (c as u32) <= 90
}

pub open spec fn is_alpha(c: char) -> bool {
    is_lower(c) || is_upper(c)
}

pub open spec fn is_hex_digit(c: char) -> bool {
    is_digit(c) || 97 <= (c as u32) <= 102 || 65 <= (c as u32) <= 70
}

pub open spec fn is_bin_digit(c: char) -> bool {
    c == '0' || c == '1'
}

/// ASCII whitespace: space, tab, line feed, form feed, carriage return.
pub open spec fn is_ws(c: char) -> bool {
    c == ' ' || c == '\t' || c == '\n' || (c as u32) == 12 || c == '\r'
}

pub open spec fn is_ident_start(c: char) -> bool {
    is_alpha(c) || c == '_'
}

pub open spec fn is_ident_char(c: char) -> bool {
    is_alpha(c) || is_digit(c) || c == '_'
}

/// Whether `c` is a digit of the given base (2, 10 or 16).
pub open spec fn is_base_digit(base: nat, c: char) -> bool {
    if base == 2 {
        is_bin_digit(c)
    } else if base == 16 {
        is_hex_digit(c)
    } else {
        is_digit(c)
    }
}

/// The numeric value of a digit character.
pub open spec fn digit_value(c: char) -> nat {
    if is_digit(c) {
        ((c as u32) - 48) as nat
    } else if is_lower(c) {
        ((c as u32) - 87) as nat
    } else {
        ((c as u32) - 55) as nat
    }
}

/// The value of a digit sequence in the given base.
pub open spec fn digits_value(d: Seq<char>, base: nat) -> nat
    decreases d.len(),
{
    if d.len() == 0 {
        0
    } else {
        digits_value(d.drop_last(), base) * base + digit_value(d.last())
    }
}

/// Line and column reached after reading `s[..pos]` from line 1, column 1.
pub open spec fn loc(s: Seq<char>, pos: nat) -> (nat, nat)
    decreases pos,
{
    if pos == 0 || pos > s.len() {
        (1, 1)
    } else {
        let lc = loc(s, (pos - 1) as nat);
        if s[pos - 1] == '\n' {
            (lc.0 + 1, 1)
        } else {
            (lc.0, lc.1 + 1)
        }
    }
}

/// The span of position `pos`.
pub open spec fn span_at(s: Seq<char>, pos: nat) -> Span {
    Span { line: loc(s, pos).0 as usize, column: loc(s, pos).1 as usize }
}

/// The end of a `--` comment that starts at or before `p`: the next line feed or the end.
pub open spec fn comment_end(s: Seq<char>, p: nat) -> nat
    decreases s.len() - p,
{
    if p < s.len() && s[p as int] != '\n' {
        comment_end(s, p + 1)
    } else {
        p
    }
}

/// Whether a `--` comment starts at `p`.
pub open spec fn comment_at(s: Seq<char>, p: nat) -> bool {
    p + 1 < s.len() && s[p as int] == '-' && s[p + 1int] == '-'
}

/// The position after the whitespace and comments that start at `p`.
pub open spec fn skip_trivia(s: Seq<char>, p: nat) -> nat
    decreases s.len() - p,
{
    if p < s.len() && is_ws(s[p as int]) {
        skip_trivia(s, p + 1)
    } else if comment_at(s, p) {
        let e = comment_end(s, p);
        if e > p && e <= s.len() {
            skip_trivia(s, e)
        } else {
            p
        }
    } else {
        p
    }
}

/// The end of the run of digits of `base` that starts at `p`.
pub open spec fn digits_end(s: Seq<char>, p: nat, base: nat) -> nat
    decreases s.len() - p,
{
    if p < s.len() && is_base_digit(base, s[p as int]) {
        digits_end(s, p + 1, base)
    } else {
        p
    }
}

/// The end of the identifier that starts at `p`.
pub open spec fn ident_end(s: Seq<char>, p: nat) -> nat
    decreases s.len() - p,
{
    if p < s.len() && is_ident_char(s[p as int]) {
        ident_end(s, p + 1)
    } else {
        p
    }
}

/// The token kind of a word: a keyword, or an identifier.
pub open spec fn keyword(w: Seq<char>) -> KindModel {
    if w == seq!['l', 'e', 't'] {
        KindModel::Other(TokenKind::Let)
    } else if w == seq!['f', 'n'] {
        KindModel::Other(TokenKind::Fn)
    } else if w == seq!['i', 'f'] {
        KindModel::Other(TokenKind::If)
    } else if w == seq!['e', 'l', 's', 'e'] {
        KindModel::Other(TokenKind::Else)
    } else if w == seq!['l', 'o', 'o', 'p'] {
        KindModel::Other(TokenKind::Loop)
    } else if w == seq!['b', 'r', 'e', 'a', 'k'] {
        KindModel::Other(TokenKind::Break)
    } else if w == seq!['r', 'e', 't', 'u', 'r', 'n'] {
        KindModel::Other(TokenKind::Return)
    } else if w == seq!['t', 'r', 'u', 'e'] {
        KindModel::Other(TokenKind::True)
    } else if w == seq!['f', 'a', 'l', 's', 'e'] {
        KindModel::Other(TokenKind::False)
    } else if w == seq!['m', 'a', 't', 'c', 'h'] {
        KindModel::Other(TokenKind::Match)
    } else if w == seq!['e', 'n', 'u', 'm'] {
        KindModel::Other(TokenKind::Enum)
    } else if w == seq!['s', 't', 'r', 'u', 'c', 't'] {
        KindModel::Other(TokenKind::Struct)
    } else if w == seq!['m', 'u', 't'] {
        KindModel::Other(TokenKind::Mut)
    } else {
        KindModel::Ident(w)
    }
}

/// Whether the character at `p` is `c`.
pub open spec fn char_at(s: Seq<char>, p: nat, c: char) -> bool {
    p < s.len() && s[p as int] == c
}

/// The operator or punctuation token at `p` (`p` in range): its kind and end,
/// or `None` for a character that starts no token.
pub open spec fn punct(s: Seq<char>, p: nat) -> Option<(TokenKind, nat)> {
    let c = s[p as int];
    let q = p + 1;
    if c == '+' {
        Some((TokenKind::Plus, q))
    } else if c == '*' {
        Some((TokenKind::Star, q))
    } else if c == '/' {
        Some((TokenKind::Slash, q))
    } else if c == '%' {
        Some((TokenKind::Percent, q))
    } else if c == '(' {
        Some((TokenKind::LParen, q))
    } else if c == ')' {
        Some((TokenKind::RParen, q))
    } else if c == '{' {
        Some((TokenKind::LBrace, q))
    } else if c == '}' {
        Some((TokenKind::RBrace, q))
    } else if c == '[' {
        Some((TokenKind::LBracket, q))
    } else if c == ']' {
        Some((TokenKind::RBracket, q))
    } else if c == ',' {
        Some((TokenKind::Comma, q))
    } else if c == ';' {
        Some((TokenKind::Semicolon, q))
    } else if c == ':' {
        if char_at(s, q, ':') {
            Some((TokenKind::ColonColon, q + 1))
        } else {
            Some((TokenKind::Colon, q))
        }
    } else if c == '-' {
        if char_at(s, q, '>') {
            Some((TokenKind::Arrow, q + 1))
        } else {
            Some((TokenKind::Minus, q))
        }
    } else if c == '=' {
        if char_at(s, q, '=') {
            Some((TokenKind::EqEq, q + 1))
        } else if char_at(s, q, '>') {
            Some((TokenKind::FatArrow, q + 1))
        } else {
            Some((TokenKind::Eq, q))
        }
    } else if c == '!' {
        if char_at(s, q, '=') {
            Some((TokenKind::NotEq, q + 1))
        } else {
            Some((TokenKind::Bang, q))
        }
    } else if c == '<' {
        if char_at(s, q, '=') {
            Some((TokenKind::LtEq, q + 1))
        } else {
            Some((TokenKind::Lt, q))
        }
    } else if c == '>' {
        if char_at(s, q, '=') {
            Some((TokenKind::GtEq, q + 1))
        } else {
            Some((TokenKind::Gt, q))
        }
    } else if c == '&' {
        if char_at(s, q, '&') {
            Some((TokenKind::AndAnd, q + 1))
        } else {
            None
        }
    } else if c == '|' {
        if char_at(s, q, '|') {
            Some((TokenKind::OrOr, q + 1))
        } else if char_at(s, q, '>') {
            Some((TokenKind::Pipe, q + 1))
        } else {
            None
        }
    } else if c == '.' {
        if char_at(s, q, '.') {
            Some((TokenKind::DotDot, q + 1))
        } else {
            Some((TokenKind::Dot, q))
        }
    } else {
        None
    }
}

/// The model of a lexical error kind.
pub enum LexErrorKindModel {
    InvalidNumber { literal: Seq<char>, base: Seq<char> },
    ExpectedDigitsAfterPrefix { prefix: Seq<char> },
    UnexpectedCharacter(char),
}

/// The model of a lexical error.
pub struct LexErrorModel {
    pub kind: LexErrorKindModel,
    pub span: Span,
}

/// A number literal with a `0x` / `0b` prefix whose digits start at `d`.
pub open spec fn prefixed_number(
    s: Seq<char>,
    d: nat,
    base: nat,
    prefix: Seq<char>,
    name: Seq<char>,
) -> Result<(KindModel, nat), LexErrorKindModel> {
    let e = digits_end(s, d, base);
    let digits = s.subrange(d as int, e as int);
    if e == d {
        Err(LexErrorKindModel::ExpectedDigitsAfterPrefix { prefix: name })
    } else if digits_value(digits, base) > u64::MAX {
        Err(LexErrorKindModel::InvalidNumber { literal: prefix + digits, base: name })
    } else {
        Ok((KindModel::Other(TokenKind::IntLiteral(digits_value(digits, base) as u64)), e))
    }
}

/// The token that starts at `p` (no whitespace or comment starts at `p`):
/// its kind and end, or the error.
pub open spec fn token_at(s: Seq<char>, p: nat) -> Result<(KindModel, nat), LexErrorKindModel> {
    if p >= s.len() {
        Ok((KindModel::Other(TokenKind::Eof), p))
    } else {
        let c = s[p as int];
        if is_digit(c) {
            if c == '0' && (char_at(s, p + 1, 'x') || char_at(s, p + 1, 'X')) {
                prefixed_number(s, p + 2, 16, seq!['0', 'x'], "hex"@)
            } else if c == '0' && (char_at(s, p + 1, 'b') || char_at(s, p + 1, 'B')) {
                prefixed_number(s, p + 2, 2, seq!['0', 'b'], "binary"@)
            } else {
                let e = digits_end(s, p, 10);
                let digits = s.subrange(p as int, e as int);
                if digits_value(digits, 10) > u64::MAX {
                    Err(LexErrorKindModel::InvalidNumber { literal: digits, base: "decimal"@ })
                } else {
                    Ok((KindModel::Other(TokenKind::IntLiteral(digits_value(digits, 10) as u64)), e))
                }
            }
        } else if is_ident_start(c) {
            let e = ident_end(s, p);
            Ok((keyword(s.subrange(p as int, e as int)), e))
        } else {
            match punct(s, p) {
                Some((k, e)) => Ok((KindModel::Other(k), e)),
                None => Err(LexErrorKindModel::UnexpectedCharacter(c)),
            }
        }
    }
}

/// The tokens read from position `p` on, ending with `Eof`, or the first error.
pub open spec fn lex_from(s: Seq<char>, p: nat) -> Result<Seq<TokenModel>, LexErrorModel>
    decreases s.len() - p,
{
    let q = skip_trivia(s, p);
    let span = span_at(s, q);
    match token_at(s, q) {
        Err(k) => Err(LexErrorModel { kind: k, span }),
        Ok((kind, e)) => {
            let tok = TokenModel { kind, span };
            if kind == KindModel::Other(TokenKind::Eof) || e <= p || e > s.len() {
                Ok(seq![tok])
            } else {
                match lex_from(s, e) {
                    Ok(rest) => Ok(seq![tok] + rest),
                    Err(x) => Err(x),
                }
            }
        },
    }
}

/// The tokens of a whole source text, or its first lexical error.
pub open spec fn lex(s: Seq<char>) -> Result<Seq<TokenModel>, LexErrorModel> {
    lex_from(s, 0)
}

// ---------------------------------------------------------------------------
// Laws of number literals
// ---------------------------------------------------------------------------

/// The hex digits in order, with `a`-`f` in lower case.
pub open spec fn hex_lower() -> Seq<char> {
    seq!['0', '1', '2', '3', '4', '5', '6', '7', '8', '9', 'a', 'b', 'c', 'd', 'e', 'f']
}

/// The hex digits in order, with `A`-`F` in upper case.
pub open spec fn hex_upper() -> Seq<char> {
    seq!['0', '1', '2', '3', '4', '5', '6', '7', '8', '9', 'A', 'B', 'C', 'D', 'E', 'F']
}

/// The hex digit for `i` (0-15), in upper or lower case.
pub open spec fn hex_char(i: int, upper: bool) -> char {
    if upper {
        hex_upper()[i]
    } else {
        hex_lower()[i]
    }
}

/// The number whose base-16 digits, most significant first, are `ix`.
pub open spec fn base16(ix: Seq<int>) -> int
    decreases ix.len(),
{
    if ix.len() == 0 {
        0
    } else {
        base16(ix.drop_last()) * 16 + ix.last()
    }
}

/// The `i`-th hex digit, in either case, is a hex digit worth `i`: `a` and `A` are both
/// worth 10, up to `f` and `F` worth 15.
pub proof fn law_hex_digit_value(i: int, upper: bool)
    requires
        0 <= i < 16,
    ensures
        is_hex_digit(hex_char(i, upper)),
        digit_value(hex_char(i, upper)) == i,
{
        if i == 0 {
            assert(hex_lower()[0] == '0' && hex_upper()[0] == '0');
        } else if i == 1 {
            assert(hex_lower()[1] == '1' && hex_upper()[1] == '1');
        } else if i == 2 {
            assert(hex_lower()[2] == '2' && hex_upper()[2] == '2');
        } else if i == 3 {
            assert(hex_lower()[3] == '3' && hex_upper()[3] == '3');
        } else if i == 4 {
            assert(hex_lower()[4] == '4' && hex_upper()[4] == '4');
        } else if i == 5 {
            assert(hex_lower()[5] == '5' && hex_upper()[5] == '5');
        } else if i == 6 {
            assert(hex_lower()[6] == '6' && hex_upper()[6] == '6');
        } else if i == 7 {
            assert(hex_lower()[7] == '7' && hex_upper()[7] == '7');
        } else if i == 8 {
            assert(hex_lower()[8] == '8' && hex_upper()[8] == '8');
        } else if i == 9 {
            assert(hex_lower()[9] == '9' && hex_upper()[9] == '9');
        } else if i == 10 {
            assert(hex_lower()[10] == 'a' && hex_upper()[10] == 'A');
        } else if i == 11 {
            assert(hex_lower()[11] == 'b' && hex_upper()[11] == 'B');
        } else if i == 12 {
            assert(hex_lower()[12] == 'c' && hex_upper()[12] == 'C');
        } else if i == 13 {
            assert(hex_lower()[13] == 'd' && hex_upper()[13] == 'D');
        } else if i == 14 {
            assert(hex_lower()[14] == 'e' && hex_upper()[14] == 'E');
        } else if i == 15 {
            assert(hex_lower()[15] == 'f' && hex_upper()[15] == 'F');
        }
}

/// The digits from `q` on, up to `e`, are hex digits.
proof fn lemma_hex_digits_end(s: Seq<char>, q: int, e: int)
    requires
        0 <= q <= e <= s.len(),
        forall|j: int| q <= j < e ==> is_hex_digit(#[trigger] s[j]),
        e == s.len() || !is_hex_digit(s[e]),
    ensures
        digits_end(s, q as nat, 16) == e,
    decreases e - q,
{
    if q < e {
        lemma_hex_digits_end(s, q + 1, e);
    }
}

/// The value of the first `m` hex digits that start at `d`.
proof fn lemma_hex_digits_value(s: Seq<char>, d: int, ix: Seq<int>, up: Seq<bool>, m: int)
    requires
        0 <= d,
        0 <= m <= ix.len(),
        up.len() == ix.len(),
        d + ix.len() <= s.len(),
        forall|j: int| 0 <= j < ix.len() ==> 0 <= #[trigger] ix[j] < 16 && s[d + j] == hex_char(ix[j], up[j]),
    ensures
        digits_value(s.subrange(d, d + m), 16) == base16(ix.take(m)),
    decreases m,
{
    if m > 0 {
        lemma_hex_digits_value(s, d, ix, up, m - 1);
        assert(s.subrange(d, d + m).drop_last() =~= s.subrange(d, d + m - 1));
        assert(ix.take(m).drop_last() =~= ix.take(m - 1));
        assert(s.subrange(d, d + m).last() == s[d + m - 1]);
        assert(0 <= ix[m - 1] < 16);
        law_hex_digit_value(ix[m - 1], up[m - 1]);
    }
}

/// A hex literal `0x` (or `0X`) followed by hex digits, in either case, and then by
/// something that is not a hex digit (or the end), reads as the number those digits write
/// in base 16, when it fits in 64 bits.
pub proof fn law_hex_literal(s: Seq<char>, p: int, ix: Seq<int>, up: Seq<bool>)
    requires
        0 <= p,
        ix.len() > 0,
        up.len() == ix.len(),
        p + 2 + ix.len() <= s.len(),
        s[p] == '0',
        s[p + 1] == 'x' || s[p + 1] == 'X',
        forall|j: int| 0 <= j < ix.len() ==> 0 <= #[trigger] ix[j] < 16 && s[p + 2 + j] == hex_char(ix[j], up[j]),
        p + 2 + ix.len() == s.len() || !is_hex_digit(s[p + 2 + ix.len()]),
        base16(ix) <= u64::MAX,
    ensures
        token_at(s, p as nat) == Ok::<(KindModel, nat), LexErrorKindModel>(
            (
                KindModel::Other(TokenKind::IntLiteral(base16(ix) as u64)),
                (p + 2 + ix.len()) as nat,
            ),
        ),
{
    let d = p + 2;
    let e = d + ix.len();
    assert forall|j: int| d <= j < e implies is_hex_digit(#[trigger] s[j]) by {
        assert(0 <= ix[j - d] < 16 && s[d + (j - d)] == hex_char(ix[j - d], up[j - d]));
        law_hex_digit_value(ix[j - d], up[j - d]);
    }
    lemma_hex_digits_end(s, d, e);
    assert forall|j: int| 0 <= j < ix.len() implies 0 <= #[trigger] ix[j] < 16 && s[d + j] == hex_char(ix[j], up[j]) by {
        assert(s[p + 2 + j] == hex_char(ix[j], up[j]));
    }
    lemma_hex_digits_value(s, d, ix, up, ix.len() as int);
    assert(ix.take(ix.len() as int) =~= ix);
    assert(is_digit(s[p]));
    assert(char_at(s, (p + 1) as nat, 'x') || char_at(s, (p + 1) as nat, 'X'));
}

// ---------------------------------------------------------------------------
// Lemmas on the grammar
// ---------------------------------------------------------------------------

proof fn lemma_loc_bound(s: Seq<char>, pos: nat)
    ensures
        1 <= loc(s, pos).0 <= pos + 1,
        1 <= loc(s, pos).1 <= pos + 1,
    decreases pos,
{
    if pos > 0 && pos <= s.len() {
        lemma_loc_bound(s, (pos - 1) as nat);
    }
}

proof fn lemma_comment_end(s: Seq<char>, p: nat)
    requires
        p <= s.len(),
    ensures
        p <= comment_end(s, p) <= s.len(),
        comment_at(s, p) ==> comment_end(s, p) > p,
    decreases s.len() - p,
{
    if p < s.len() && s[p as int] != '\n' {
        lemma_comment_end(s, p + 1);
    }
}

proof fn lemma_skip_trivia(s: Seq<char>, p: nat)
    requires
        p <= s.len(),
    ensures
        p <= skip_trivia(s, p) <= s.len(),
        !comment_at(s, skip_trivia(s, p)),
        skip_trivia(s, p) < s.len() ==> !is_ws(s[skip_trivia(s, p) as int]),
    decreases s.len() - p,
{
    if p < s.len() && is_ws(s[p as int]) {
        lemma_skip_trivia(s, p + 1);
    } else if comment_at(s, p) {
        lemma_comment_end(s, p);
        lemma_skip_trivia(s, comment_end(s, p));
    }
}

proof fn lemma_digits_end(s: Seq<char>, p: nat, base: nat)
    requires
        p <= s.len(),
    ensures
        p <= digits_end(s, p, base) <= s.len(),
    decreases s.len() - p,
{
    if p < s.len() && is_base_digit(base, s[p as int]) {
        lemma_digits_end(s, p + 1, base);
    }
}

proof fn lemma_ident_end(s: Seq<char>, p: nat)
    requires
        p <= s.len(),
    ensures
        p <= ident_end(s, p) <= s.len(),
        p < s.len() && is_ident_char(s[p as int]) ==> ident_end(s, p) > p,
    decreases s.len() - p,
{
    if p < s.len() && is_ident_char(s[p as int]) {
        lemma_ident_end(s, p + 1);
    }
}

/// A token that is not `Eof` ends after where it starts and within the text.
proof fn lemma_token_at_progress(s: Seq<char>, p: nat)
    requires
        p <= s.len(),
    ensures
        token_at(s, p) matches Ok((k, e)) ==> (k == KindModel::Other(TokenKind::Eof) && e == p)
            || (p < e <= s.len() && k != KindModel::Other(TokenKind::Eof)),
{
    if p < s.len() {
        let c = s[p as int];
        if is_digit(c) {
            if p + 2 <= s.len() {
                lemma_digits_end(s, p + 2, 16);
                lemma_digits_end(s, p + 2, 2);
            }
            lemma_digits_end(s, p + 1, 10);
            assert(digits_end(s, p, 10) > p) by {
                assert(is_base_digit(10, s[p as int]));
            }
        } else if is_ident_start(c) {
            lemma_ident_end(s, p);
            let w = s.subrange(p as int, ident_end(s, p) as int);
            assert(keyword(w) != KindModel::Other(TokenKind::Eof));
        }
    }
}

/// Unfolds `lex_from` at a token that is not `Eof`.
proof fn lemma_lex_from_step(s: Seq<char>, p: nat)
    requires
        p <= s.len(),
    ensures
        ({
            let q = skip_trivia(s, p);
            token_at(s, q) matches Ok((k, e)) ==> k != KindModel::Other(TokenKind::Eof) ==> {
                &&& q < e <= s.len()
                &&& lex_from(s, p) == match lex_from(s, e) {
                    Ok(rest) => Ok(seq![TokenModel { kind: k, span: span_at(s, q) }] + rest),
                    Err(x) => Err(x),
                }
            }
        }),
{
    lemma_skip_trivia(s, p);
    lemma_token_at_progress(s, skip_trivia(s, p));
}

/// A successful tokenization ends with `Eof`, and `Eof` appears nowhere else.
pub proof fn lemma_lex_ends_with_eof(s: Seq<char>, p: nat)
    requires
        p <= s.len(),
    ensures
        lex_from(s, p) matches Ok(ts) ==> {
            &&& ts.len() > 0
            &&& ts.last().kind == KindModel::Other(TokenKind::Eof)
            &&& forall|i: int| 0 <= i < ts.len() - 1 ==> #[trigger] ts[i].kind != KindModel::Other(TokenKind::Eof)
        },
    decreases s.len() - p,
{
    lemma_lex_from_step(s, p);
    let q = skip_trivia(s, p);
    lemma_skip_trivia(s, p);
    lemma_token_at_progress(s, q);
    if let Ok((k, e)) = token_at(s, q) {
        if k != KindModel::Other(TokenKind::Eof) {
            lemma_lex_ends_with_eof(s, e);
            if let Ok(rest) = lex_from(s, e) {
                let tok = TokenModel { kind: k, span: span_at(s, q) };
                let ts = seq![tok] + rest;
                assert forall|i: int| 0 <= i < ts.len() - 1 implies #[trigger] ts[i].kind
                    != KindModel::Other(TokenKind::Eof) by {
                    if i > 0 {
                        assert(ts[i] == rest[i - 1]);
                    }
                }
                assert(ts.last() == rest.last());
            }
        }
    }
}

/// Whether span `a` comes before span `b`: an earlier line, or the same line and an
/// earlier column.
pub open spec fn span_before(a: Span, b: Span) -> bool {
    a.line < b.line || (a.line == b.line && a.column < b.column)
}

/// Reading one more character moves the line and column on.
proof fn lemma_loc_step(s: Seq<char>, p: nat, q: nat)
    requires
        p < q <= s.len(),
    ensures
        loc(s, p).0 < loc(s, q).0 || (loc(s, p).0 == loc(s, q).0 && loc(s, p).1 < loc(s, q).1),
    decreases q,
{
    if p + 1 < q {
        lemma_loc_step(s, p, (q - 1) as nat);
    }
}

/// The tokens read from `p` start at positions `xs`, in increasing order, from `p` on.
spec fn token_positions(s: Seq<char>, p: nat, ts: Seq<TokenModel>, xs: Seq<nat>) -> bool {
    &&& xs.len() == ts.len()
    &&& forall|i: int| 0 <= i < ts.len() ==> p <= #[trigger] xs[i] <= s.len()
    &&& forall|i: int| 0 <= i < ts.len() ==> (#[trigger] ts[i]).span == span_at(s, xs[i])
    &&& forall|i: int, j: int| 0 <= i < j < ts.len() ==> xs[i] < xs[j]
}

proof fn lemma_lex_positions(s: Seq<char>, p: nat) -> (xs: Seq<nat>)
    requires
        p <= s.len(),
    ensures
        lex_from(s, p) matches Ok(ts) ==> token_positions(s, p, ts, xs),
    decreases s.len() - p,
{
    lemma_lex_from_step(s, p);
    let q = skip_trivia(s, p);
    lemma_skip_trivia(s, p);
    lemma_token_at_progress(s, q);
    match token_at(s, q) {
        Ok((k, e)) => {
            if k != KindModel::Other(TokenKind::Eof) {
                let rest_xs = lemma_lex_positions(s, e);
                let xs = seq![q] + rest_xs;
                if let Ok(rest) = lex_from(s, e) {
                    let tok = TokenModel { kind: k, span: span_at(s, q) };
                    let ts = seq![tok] + rest;
                    assert forall|i: int| 0 <= i < ts.len() implies p <= #[trigger] xs[i] <= s.len() by {
                        if i > 0 {
                            assert(xs[i] == rest_xs[i - 1]);
                        }
                    }
                    assert forall|i: int| 0 <= i < ts.len() implies (#[trigger] ts[i]).span == span_at(
                        s,
                        xs[i],
                    ) by {
                        if i > 0 {
                            assert(ts[i] == rest[i - 1]);
                            assert(xs[i] == rest_xs[i - 1]);
                        }
                    }
                    assert forall|i: int, j: int| 0 <= i < j < ts.len() implies xs[i] < xs[j] by {
                        assert(xs[j] == rest_xs[j - 1]);
                        if i > 0 {
                            assert(xs[i] == rest_xs[i - 1]);
                        } else {
                            assert(e <= rest_xs[j - 1]);
                        }
                    }
                }
                xs
            } else {
                seq![q]
            }
        },
        Err(_) => seq![],
    }
}

/// The tokens of a source text come in the order of the text: each one's span (line and
/// column, counted from 1) comes before the next one's. (For texts shorter than the largest
/// `usize`, so that lines and columns fit.)
pub proof fn lemma_lex_spans_increase(s: Seq<char>)
    requires
        s.len() + 1 < usize::MAX,
    ensures
        lex(s) matches Ok(ts) ==> {
            &&& forall|i: int| 0 <= i < ts.len() ==> 1 <= (#[trigger] ts[i]).span.line && 1 <= ts[i].span.column
            &&& forall|i: int, j: int| 0 <= i < j < ts.len() ==> span_before(#[trigger] ts[i].span, #[trigger] ts[j].span)
        },
{
    let xs = lemma_lex_positions(s, 0);
    if let Ok(ts) = lex(s) {
        assert forall|i: int| 0 <= i < ts.len() implies 1 <= (#[trigger] ts[i]).span.line && 1 <= ts[i].span.column by {
            lemma_loc_bound(s, xs[i]);
        }
        assert forall|i: int, j: int| 0 <= i < j < ts.len() implies span_before(#[trigger] ts[i].span, #[trigger] ts[j].span) by {
            lemma_loc_step(s, xs[i], xs[j]);
            lemma_loc_bound(s, xs[i]);
            lemma_loc_bound(s, xs[j]);
        }
    }
}

// ---------------------------------------------------------------------------
// Errors
// ---------------------------------------------------------------------------

/// The kind of a lexical error.
#[derive(Debug, Clone, PartialEq, Eq)]
pub enum LexErrorKind {
    /// A number literal that does not fit in 64 bits (its text, its base's name).
    InvalidNumber { literal: String, base: &'static str },
    /// A `0x` or `0b` prefix with no digits after it.
    ExpectedDigitsAfterPrefix { prefix: &'static str },
    /// A character that starts no token.
    UnexpectedCharacter(char),
}

impl View for LexErrorKind {
    type V = LexErrorKindModel;

    open spec fn view(&self) -> LexErrorKindModel {
        match self {
            LexErrorKind::InvalidNumber { literal, base } => LexErrorKindModel::InvalidNumber {
                literal: literal@,
                base: base@,
            },
            LexErrorKind::ExpectedDigitsAfterPrefix { prefix } => {
                LexErrorKindModel::ExpectedDigitsAfterPrefix { prefix: prefix@ }
            },
            LexErrorKind::UnexpectedCharacter(c) => LexErrorKindModel::UnexpectedCharacter(*c),
        }
    }
}

/// A lexical error.
#[derive(Debug, Clone, PartialEq, Eq)]
pub struct LexError {
    pub kind: LexErrorKind,
    pub span: Span,
}

impl View for LexError {
    type V = LexErrorModel;

    open spec fn view(&self) -> LexErrorModel {
        LexErrorModel { kind: self.kind@, span: self.span }
    }
}

/// The text of an error kind.
pub open spec fn lex_error_text(k: LexErrorKindModel) -> Seq<char> {
    match k {
        LexErrorKindModel::InvalidNumber { literal, base } => "invalid "@ + base + " number: "@
            + literal,
        LexErrorKindModel::ExpectedDigitsAfterPrefix { prefix } => "expected "@ + prefix
            + " digits after "@ + prefix,
        LexErrorKindModel::UnexpectedCharacter(c) => "unexpected character: '"@ + seq![c]
            + "'"@,
    }
}

/// `line:column: ` in front of a message.
pub open spec fn located(span: Span, text: Seq<char>) -> Seq<char> {
    decimal(span.line as nat) + ":"@ + decimal(span.column as nat) + ": "@ + text
}

/// Writes `line:column: ` for a span.
pub fn push_location(s: &mut String, span: Span)
    ensures
        final(s)@ == old(s)@ + decimal(span.line as nat) + ":"@ + decimal(span.column as nat)
            + ": "@,
{
    push_decimal(s, span.line as u64);
    push_str(s, ":");
    push_decimal(s, span.column as u64);
    push_str(s, ": ");
}

impl LexError {
    /// The error as text: `line:column: message`.
    pub fn message(&self) -> (r: String)
        ensures
            r@ == located(self.span, lex_error_text(self.kind@)),
    {
        let mut s = String::new();
        push_location(&mut s, self.span);
        match &self.kind {
            LexErrorKind::InvalidNumber { literal, base } => {
                push_str(&mut s, "invalid ");
                push_str(&mut s, base);
                push_str(&mut s, " number: ");
                push_string(&mut s, literal);
            },
            LexErrorKind::ExpectedDigitsAfterPrefix { prefix } => {
                push_str(&mut s, "expected ");
                push_str(&mut s, prefix);
                push_str(&mut s, " digits after ");
                push_str(&mut s, prefix);
            },
            LexErrorKind::UnexpectedCharacter(ch) => {
                push_str(&mut s, "unexpected character: '");
                push_char(&mut s, *ch);
                push_str(&mut s, "'");
            },
        }
        proof {
            assert(s@ =~= located(self.span, lex_error_text(self.kind@)));
        }
        s
    }
}

/// The model of a tokenization result.
pub open spec fn lex_result_view(r: Result<Vec<Token>, LexError>) -> Result<
    Seq<TokenModel>,
    LexErrorModel,
> {
    match r {
        Ok(v) => Ok(v@.map_values(|t: Token| t@)),
        Err(e) => Err(e@),
    }
}

/// `ts` followed by the tokens of `r` (an error stays as it is).
pub open spec fn prepend(ts: Seq<TokenModel>, r: Result<Seq<TokenModel>, LexErrorModel>) -> Result<
    Seq<TokenModel>,
    LexErrorModel,
> {
    match r {
        Ok(rest) => Ok(ts + rest),
        Err(x) => Err(x),
    }
}

// ---------------------------------------------------------------------------
// The lexer
// ---------------------------------------------------------------------------

/// The lexer: a cursor over the characters of a source text.
pub struct Lexer {
    input: Vec<char>,
    pos: usize,
    line: usize,
    column: usize,
}

impl Lexer {
    /// The source text.
    pub closed spec fn source(self) -> Seq<char> {
        self.input@
    }

    /// How many characters have been read.
    pub closed spec fn position(self) -> nat {
        self.pos as nat
    }

    /// The cursor is within the text and the line and column are those of the cursor.
    pub closed spec fn wf(self) -> bool {
        &&& self.pos <= self.input.len()
        &&& self.input.len() < usize::MAX
        &&& self.line == loc(self.input@, self.pos as nat).0
        &&& self.column == loc(self.input@, self.pos as nat).1
    }

    pub fn new(input: &str) -> (r: Self)
        requires
            input@.len() < usize::MAX,
        ensures
            r.wf(),
            r.source() == input@,
            r.position() == 0,
    {
        let chars = crate::text::chars_of(input);
        Self { input: chars, pos: 0, line: 1, column: 1 }
    }

    /// Reads every token up to and including `Eof`.
    pub fn tokenize(&mut self) -> (r: Result<Vec<Token>, LexError>)
        requires
            old(self).wf(),
        ensures
            final(self).wf(),
            final(self).source() == old(self).source(),
            lex_result_view(r) == lex_from(old(self).source(), old(self).position()),
            old(self).position() == 0 ==> lex_result_view(r) == lex(old(self).source()),
            r matches Ok(ts) ==> ends_with_eof(ts@),
    {
        let ghost s = self.input@;
        let ghost p0 = self.pos as nat;
        let mut tokens: Vec<Token> = Vec::new();
        loop
            invariant
                self.wf(),
                self.input@ == s,
                s == old(self).input@,
                p0 == old(self).pos,
                p0 <= self.pos,
                lex_from(s, p0) == prepend(tokens@.map_values(|t: Token| t@), lex_from(s, self.pos as nat)),
            decreases s.len() - self.pos,
        {
            let ghost p = self.pos as nat;
            proof {
                lemma_lex_from_step(s, p);
            }
            let token = match self.next_token() {
                Ok(t) => t,
                Err(e) => {
                    proof {
                        assert(lex_result_view(Err::<Vec<Token>, LexError>(e)) == lex_from(s, p0));
                    }
                    return Err(e);
                },
            };
            let is_eof = matches!(token.kind, TokenKind::Eof);
            let ghost before = tokens@.map_values(|t: Token| t@);
            tokens.push(token);
            proof {
                assert(tokens@.map_values(|t: Token| t@) =~= before.push(token@));
            }
            if is_eof {
                proof {
                    assert(token@.kind == KindModel::Other(TokenKind::Eof));
                    assert(lex_from(s, p) == Ok::<Seq<TokenModel>, LexErrorModel>(seq![token@]));
                    assert(before + seq![token@] =~= before.push(token@));
                    assert(tokens@.last() == token);
                }
                return Ok(tokens);
            }
            proof {
                assert(prepend(before, lex_from(s, p)) =~= prepend(
                    tokens@.map_values(|t: Token| t@),
                    lex_from(s, self.pos as nat),
                )) by {
                    match lex_from(s, self.pos as nat) {
                        Ok(rest) => {
                            assert(before + (seq![token@] + rest) =~= before.push(token@) + rest);
                        },
                        Err(_) => {},
                    }
                }
            }
        }
    }

    fn current_span(&self) -> (r: Span)
        requires
            self.wf(),
        ensures
            r == span_at(self.input@, self.pos as nat),
    {
        Span { line: self.line, column: self.column }
    }

    fn peek(&self) -> (r: Option<char>)
        ensures
            r == if self.pos < self.input.len() {
                Some(self.input@[self.pos as int])
            } else {
                None::<char>
            },
    {
        if self.pos < self.input.len() {
            Some(self.input[self.pos])
        } else {
            None
        }
    }

    fn peek_next(&self) -> (r: Option<char>)
        requires
            self.pos < usize::MAX,
        ensures
            r == if self.pos + 1 < self.input.len() {
                Some(self.input@[self.pos + 1])
            } else {
                None::<char>
            },
    {
        if self.pos + 1 < self.input.len() {
            Some(self.input[self.pos + 1])
        } else {
            None
        }
    }

    /// Moves the cursor over one character (which must exist).
    fn advance(&mut self) -> (c: char)
        requires
            old(self).wf(),
            old(self).pos < old(self).input.len(),
        ensures
            final(self).wf(),
            final(self).input@ == old(self).input@,
            final(self).pos == old(self).pos + 1,
            c == old(self).input@[old(self).pos as int],
    {
        proof {
            lemma_loc_bound(self.input@, self.pos as nat);
        }
        let ch = self.input[self.pos];
        self.pos = self.pos + 1;
        if ch == '\n' {
            self.line = self.line + 1;
            self.column = 1;
        } else {
            self.column = self.column + 1;
        }
        ch
    }

    /// Skips whitespace and comments.
    fn skip_trivia(&mut self)
        requires
            old(self).wf(),
        ensures
            final(self).wf(),
            final(self).input@ == old(self).input@,
            final(self).pos == skip_trivia(old(self).input@, old(self).pos as nat),
    {
        let ghost s = self.input@;
        let ghost target = skip_trivia(s, self.pos as nat);
        loop
            invariant
                self.wf(),
                self.input@ == s,
                s == old(self).input@,
                target == skip_trivia(old(self).input@, old(self).pos as nat),
                skip_trivia(s, self.pos as nat) == target,
            decreases s.len() - self.pos,
        {
            match self.peek() {
                Some(ch) => {
                    if is_ws_exec(ch) {
                        self.advance();
                        continue;
                    }
                    if ch == '-' && self.peek_next() == Some('-') {
                        let ghost start = self.pos as nat;
                        proof {
                            lemma_comment_end(s, start);
                        }
                        while self.pos < self.input.len() && self.input[self.pos] != '\n'
                            invariant
                                self.wf(),
                                self.input@ == s,
                                s == old(self).input@,
                                target == skip_trivia(old(self).input@, old(self).pos as nat),
                                skip_trivia(s, start) == target,
                                start <= self.pos,
                                comment_end(s, self.pos as nat) == comment_end(s, start),
                            decreases s.len() - self.pos,
                        {
                            self.advance();
                        }
                        continue;
                    }
                    return;
                },
                None => {
                    return;
                },
            }
        }
    }

    fn next_token(&mut self) -> (r: Result<Token, LexError>)
        requires
            old(self).wf(),
        ensures
            final(self).wf(),
            final(self).input@ == old(self).input@,
            ({
                let s = old(self).input@;
                let q = skip_trivia(s, old(self).pos as nat);
                match r {
                    Ok(t) => token_at(s, q) matches Ok((k, e)) && t@ == (TokenModel {
                        kind: k,
                        span: span_at(s, q),
                    }) && final(self).pos == e,
                    Err(x) => token_at(s, q) matches Err(k) && x@ == (LexErrorModel {
                        kind: k,
                        span: span_at(s, q),
                    }),
                }
            }),
    {
        self.skip_trivia();
        let span = self.current_span();
        let ch = match self.peek() {
            Some(ch) => ch,
            None => return Ok(Token::new(TokenKind::Eof, span)),
        };
        if is_digit_exec(ch) {
            return self.read_number();
        }
        if is_alpha_exec(ch) || ch == '_' {
            return Ok(self.read_ident());
        }
        self.read_punct()
    }

    /// Reads the run of digits of `base` at the cursor: its text, its value, and whether
    /// the value exceeds 64 bits.
    fn read_digits(&mut self, base: u64) -> (r: (Vec<char>, u64, bool))
        requires
            old(self).wf(),
            base == 2 || base == 10 || base == 16,
        ensures
            final(self).wf(),
            final(self).input@ == old(self).input@,
            final(self).pos == digits_end(old(self).input@, old(self).pos as nat, base as nat),
            old(self).pos <= final(self).pos,
            r.0@ == old(self).input@.subrange(old(self).pos as int, final(self).pos as int),
            r.2 <==> digits_value(r.0@, base as nat) > u64::MAX,
            !r.2 ==> r.1 == digits_value(r.0@, base as nat),
    {
        let ghost s = self.input@;
        let ghost start = self.pos as int;
        let mut digits: Vec<char> = Vec::new();
        let mut value: u64 = 0;
        let mut overflow = false;
        proof {
            lemma_digits_end(s, self.pos as nat, base as nat);
        }
        while self.pos < self.input.len() && is_base_digit_exec(base, self.input[self.pos])
            invariant
                self.wf(),
                self.input@ == s,
                s == old(self).input@,
                start == old(self).pos,
                start <= self.pos,
                digits_end(s, self.pos as nat, base as nat) == digits_end(
                    s,
                    start as nat,
                    base as nat,
                ),
                digits@ == s.subrange(start, self.pos as int),
                overflow <==> digits_value(digits@, base as nat) > u64::MAX,
                !overflow ==> value == digits_value(digits@, base as nat),
                base == 2 || base == 10 || base == 16,
            decreases s.len() - self.pos,
        {
            let ch = self.input[self.pos];
            let d = digit_value_exec(ch);
            self.advance();
            let ghost old_digits = digits@;
            digits.push(ch);
            proof {
                assert(digits@ =~= s.subrange(start, self.pos as int));
                assert(digits@.drop_last() =~= old_digits);
                assert(digits_value(digits@, base as nat) == digits_value(old_digits, base as nat)
                    * base + d);
            }
            if !overflow {
                match value.checked_mul(base) {
                    Some(m) => match m.checked_add(d) {
                        Some(v) => {
                            value = v;
                        },
                        None => {
                            overflow = true;
                        },
                    },
                    None => {
                        proof {
                            assert(digits_value(old_digits, base as nat) * base <= digits_value(
                                digits@,
                                base as nat,
                            ));
                        }
                        overflow = true;
                    },
                }
            } else {
                proof {
                    assert(digits_value(old_digits, base as nat) * base >= digits_value(
                        old_digits,
                        base as nat,
                    )) by (nonlinear_arith)
                        requires
                            base >= 2,
                    ;
                }
            }
        }
        (digits, value, overflow)
    }

    fn read_number(&mut self) -> (r: Result<Token, LexError>)
        requires
            old(self).wf(),
            old(self).pos < old(self).input.len(),
            is_digit(old(self).input@[old(self).pos as int]),
        ensures
            final(self).wf(),
            final(self).input@ == old(self).input@,
            ({
                let s = old(self).input@;
                let q = old(self).pos as nat;
                match r {
                    Ok(t) => token_at(s, q) matches Ok((k, e)) && t@ == (TokenModel {
                        kind: k,
                        span: span_at(s, q),
                    }) && final(self).pos == e,
                    Err(x) => token_at(s, q) matches Err(k) && x@ == (LexErrorModel {
                        kind: k,
                        span: span_at(s, q),
                    }),
                }
            }),
    {
        let span = self.current_span();
        let first = self.input[self.pos];
        if first == '0' {
            let next = self.peek_next();
            if next == Some('x') || next == Some('X') {
                self.advance();
                self.advance();
                return self.read_prefixed(span, 16);
            }
            if next == Some('b') || next == Some('B') {
                self.advance();
                self.advance();
                return self.read_prefixed(span, 2);
            }
        }
        let (digits, value, overflow) = self.read_digits(10);
        if overflow {
            let literal = string_of_chars(&digits);
            return Err(LexError { kind: LexErrorKind::InvalidNumber { literal, base: "decimal" }, span });
        }
        Ok(Token::new(TokenKind::IntLiteral(value), span))
    }

    /// Reads the digits after a `0x` (base 16) or `0b` (base 2) prefix.
    fn read_prefixed(&mut self, span: Span, base: u64) -> (r: Result<Token, LexError>)
        requires
            old(self).wf(),
            base == 2 || base == 16,
        ensures
            final(self).wf(),
            final(self).input@ == old(self).input@,
            ({
                let s = old(self).input@;
                let d = old(self).pos as nat;
                let prefix = if base == 16 { seq!['0', 'x'] } else { seq!['0', 'b'] };
                let name = if base == 16 { "hex"@ } else { "binary"@ };
                match r {
                    Ok(t) => prefixed_number(s, d, base as nat, prefix, name) matches Ok((k, e))
                        && t@ == (TokenModel { kind: k, span }) && final(self).pos == e,
                    Err(x) => prefixed_number(s, d, base as nat, prefix, name) matches Err(k)
                        && x@ == (LexErrorModel { kind: k, span }),
                }
            }),
    {
        let name: &'static str = if base == 16 { "hex" } else { "binary" };
        let (digits, value, overflow) = self.read_digits(base);
        proof {
            let ss = old(self).input@;
            let d = old(self).pos as nat;
            let e = digits_end(ss, d, base as nat);
            assert(digits@ == ss.subrange(d as int, e as int));
            assert(name@ == (if base == 16 { "hex"@ } else { "binary"@ }));
        }
        if digits.len() == 0 {
            let r = Err(LexError { kind: LexErrorKind::ExpectedDigitsAfterPrefix { prefix: name }, span });
            proof {
                let ss = old(self).input@;
                let d = old(self).pos as nat;
                let prefix = if base == 16 { seq!['0', 'x'] } else { seq!['0', 'b'] };
                let nm = if base == 16 { "hex"@ } else { "binary"@ };
                assert(digits_end(ss, d, base as nat) == d);
                assert(prefixed_number(ss, d, base as nat, prefix, nm) == Err::<(KindModel, nat), LexErrorKindModel>(LexErrorKindModel::ExpectedDigitsAfterPrefix { prefix: nm }));
            }
            return r;
        }
        if overflow {
            let mut literal = String::new();
            push_char(&mut literal, '0');
            push_char(&mut literal, if base == 16 { 'x' } else { 'b' });
            let text = string_of_chars(&digits);
            push_string(&mut literal, &text);
            proof {
                let prefix = if base == 16 { seq!['0', 'x'] } else { seq!['0', 'b'] };
                assert(literal@ =~= prefix + digits@);
            }
            return Err(LexError { kind: LexErrorKind::InvalidNumber { literal, base: name }, span });
        }
        Ok(Token::new(TokenKind::IntLiteral(value), span))
    }

    fn read_ident(&mut self) -> (r: Token)
        requires
            old(self).wf(),
            old(self).pos < old(self).input.len(),
            is_ident_start(old(self).input@[old(self).pos as int]),
        ensures
            final(self).wf(),
            final(self).input@ == old(self).input@,
            ({
                let s = old(self).input@;
                let q = old(self).pos as nat;
                let e = ident_end(s, q);
                r@ == (TokenModel { kind: keyword(s.subrange(q as int, e as int)), span: span_at(s, q) })
                    && final(self).pos == e
            }),
    {
        let ghost s = self.input@;
        let ghost start = self.pos as int;
        let span = self.current_span();
        let mut word: Vec<char> = Vec::new();
        while self.pos < self.input.len() && is_ident_char_exec(self.input[self.pos])
            invariant
                self.wf(),
                self.input@ == s,
                s == old(self).input@,
                start == old(self).pos,
                start <= self.pos,
                ident_end(s, self.pos as nat) == ident_end(s, start as nat),
                word@ == s.subrange(start, self.pos as int),
            decreases s.len() - self.pos,
        {
            let ch = self.input[self.pos];
            self.advance();
            word.push(ch);
            proof {
                assert(word@ =~= s.subrange(start, self.pos as int));
            }
        }
        let kind = keyword_exec(&word);
        Token::new(kind, span)
    }

    fn read_punct(&mut self) -> (r: Result<Token, LexError>)
        requires
            old(self).wf(),
            old(self).pos < old(self).input.len(),
        ensures
            final(self).wf(),
            final(self).input@ == old(self).input@,
            ({
                let s = old(self).input@;
                let q = old(self).pos as nat;
                match r {
                    Ok(t) => punct(s, q) matches Some((k, e)) && t@ == (TokenModel {
                        kind: KindModel::Other(k),
                        span: span_at(s, q),
                    }) && final(self).pos == e,
                    Err(x) => punct(s, q) is None && x@ == (LexErrorModel {
                        kind: LexErrorKindModel::UnexpectedCharacter(s[q as int]),
                        span: span_at(s, q),
                    }),
                }
            }),
    {
        let span = self.current_span();
        let ch = self.advance();
        let next = self.peek();
        let kind = if ch == '+' {
            TokenKind::Plus
        } else if ch == '*' {
            TokenKind::Star
        } else if ch == '/' {
            TokenKind::Slash
        } else if ch == '%' {
            TokenKind::Percent
        } else if ch == '(' {
            TokenKind::LParen
        } else if ch == ')' {
            TokenKind::RParen
        } else if ch == '{' {
            TokenKind::LBrace
        } else if ch == '}' {
            TokenKind::RBrace
        } else if ch == '[' {
            TokenKind::LBracket
        } else if ch == ']' {
            TokenKind::RBracket
        } else if ch == ',' {
            TokenKind::Comma
        } else if ch == ';' {
            TokenKind::Semicolon
        } else if ch == ':' {
            if next == Some(':') {
                self.advance();
                TokenKind::ColonColon
            } else {
                TokenKind::Colon
            }
        } else if ch == '-' {
            if next == Some('>') {
                self.advance();
                TokenKind::Arrow
            } else {
                TokenKind::Minus
            }
        } else if ch == '=' {
            if next == Some('=') {
                self.advance();
                TokenKind::EqEq
            } else if next == Some('>') {
                self.advance();
                TokenKind::FatArrow
            } else {
                TokenKind::Eq
            }
        } else if ch == '!' {
            if next == Some('=') {
                self.advance();
                TokenKind::NotEq
            } else {
                TokenKind::Bang
            }
        } else if ch == '<' {
            if next == Some('=') {
                self.advance();
                TokenKind::LtEq
            } else {
                TokenKind::Lt
            }
        } else if ch == '>' {
            if next == Some('=') {
                self.advance();
                TokenKind::GtEq
            } else {
                TokenKind::Gt
            }
        } else if ch == '&' {
            if next == Some('&') {
                self.advance();
                TokenKind::AndAnd
            } else {
                return Err(LexError { kind: LexErrorKind::UnexpectedCharacter(ch), span });
            }
        } else if ch == '|' {
            if next == Some('|') {
                self.advance();
                TokenKind::OrOr
            } else if next == Some('>') {
                self.advance();
                TokenKind::Pipe
            } else {
                return Err(LexError { kind: LexErrorKind::UnexpectedCharacter(ch), span });
            }
        } else if ch == '.' {
            if next == Some('.') {
                self.advance();
                TokenKind::DotDot
            } else {
                TokenKind::Dot
            }
        } else {
            return Err(LexError { kind: LexErrorKind::UnexpectedCharacter(ch), span });
        };
        Ok(Token::new(kind, span))
    }
}

fn is_digit_exec(c: char) -> (r: bool)
    ensures
        r == is_digit(c),
{
    '0' <= c && c <= '9'
}

fn is_alpha_exec(c: char) -> (r: bool)
    ensures
        r == is_alpha(c),
{
    ('a' <= c && c <= 'z') || ('A' <= c && c <= 'Z')
}

fn is_ident_char_exec(c: char) -> (r: bool)
    ensures
        r == is_ident_char(c),
{
    is_alpha_exec(c) || is_digit_exec(c) || c == '_'
}

fn is_ws_exec(c: char) -> (r: bool)
    ensures
        r == is_ws(c),
{
    c == ' ' || c == '\t' || c == '\n' || c == '\x0C' || c == '\r'
}

fn is_base_digit_exec(base: u64, c: char) -> (r: bool)
    ensures
        r == is_base_digit(base as nat, c),
{
    if base == 2 {
        c == '0' || c == '1'
    } else if base == 16 {
        is_digit_exec(c) || ('a' <= c && c <= 'f') || ('A' <= c && c <= 'F')
    } else {
        is_digit_exec(c)
    }
}

fn digit_value_exec(c: char) -> (r: u64)
    requires
        is_hex_digit(c),
    ensures
        r == digit_value(c),
        r < 16,
{
    if '0' <= c && c <= '9' {
        (c as u32 - 48) as u64
    } else if 'a' <= c && c <= 'z' {
        (c as u32 - 87) as u64
    } else {
        (c as u32 - 55) as u64
    }
}

fn keyword_exec(w: &Vec<char>) -> (r: TokenKind)
    ensures
        r@ == keyword(w@),
{
    if spells(w, &['l', 'e', 't']) {
        return TokenKind::Let;
    }
    if spells(w, &['f', 'n']) {
        return TokenKind::Fn;
    }
    if spells(w, &['i', 'f']) {
        return TokenKind::If;
    }
    if spells(w, &['e', 'l', 's', 'e']) {
        return TokenKind::Else;
    }
    if spells(w, &['l', 'o', 'o', 'p']) {
        return TokenKind::Loop;
    }
    if spells(w, &['b', 'r', 'e', 'a', 'k']) {
        return TokenKind::Break;
    }
    if spells(w, &['r', 'e', 't', 'u', 'r', 'n']) {
        return TokenKind::Return;
    }
    if spells(w, &['t', 'r', 'u', 'e']) {
        return TokenKind::True;
    }
    if spells(w, &['f', 'a', 'l', 's', 'e']) {
        return TokenKind::False;
    }
    if spells(w, &['m', 'a', 't', 'c', 'h']) {
        return TokenKind::Match;
    }
    if spells(w, &['e', 'n', 'u', 'm']) {
        return TokenKind::Enum;
    }
    if spells(w, &['s', 't', 'r', 'u', 'c', 't']) {
        return TokenKind::Struct;
    }
    if spells(w, &['m', 'u', 't']) {
        return TokenKind::Mut;
    }
    TokenKind::Ident(string_of_chars(w))
}

} // verus!

//! The lexical grammar of Replicube's Lua dialect, stated over the bytes of the
//! source: where trivia ends, where each kind of token ends, and the sequence of
//! tokens that a source splits into.
use vstd::prelude::*;
use crate::bytes::{
    byte_at, digit_at, is_alpha, is_ascii, is_digit, is_space, lemma_class_ascii, lemma_run_end,
    run_end, Class,
};

verus! {

/// The byte `&`.
pub const AMPERSAND: u8 = 0x26u8;

/// The byte `'`.
pub const APOSTROPHE: u8 = 0x27u8;

/// The byte `\`.
pub const BACKSLASH: u8 = 0x5cu8;

/// The byte `|`.
pub const BAR: u8 = 0x7cu8;

/// The byte `^`.
pub const CARET: u8 = 0x5eu8;

/// The byte `}`.
pub const CLOSE_BRACE: u8 = 0x7du8;

/// The byte `]`.
pub const CLOSE_BRACKET: u8 = 0x5du8;

/// The byte `)`.
pub const CLOSE_PAREN: u8 = 0x29u8;

/// The byte `:`.
pub const COLON: u8 = 0x3au8;

/// The byte `,`.
pub const COMMA: u8 = 0x2cu8;

/// The byte `.`.
pub const DOT: u8 = 0x2eu8;

/// The byte `=`.
pub const EQUALS: u8 = 0x3du8;

/// The byte `>`.
pub const GREATER: u8 = 0x3eu8;

/// The byte `#`.
pub const HASH: u8 = 0x23u8;

/// The byte `<`.
pub const LESS: u8 = 0x3cu8;

/// The byte `e`.
pub const LOWER_E: u8 = 0x65u8;

/// The byte `p`.
pub const LOWER_P: u8 = 0x70u8;

/// The byte `x`.
pub const LOWER_X: u8 = 0x78u8;

/// The byte `-`.
pub const MINUS: u8 = 0x2du8;

/// The byte `{`.
pub const OPEN_BRACE: u8 = 0x7bu8;

/// The byte `[`.
pub const OPEN_BRACKET: u8 = 0x5bu8;

/// The byte `(`.
pub const OPEN_PAREN: u8 = 0x28u8;

/// The byte `%`.
pub const PERCENT: u8 = 0x25u8;

/// The byte `+`.
pub const PLUS: u8 = 0x2bu8;

/// The byte `"`.
pub const QUOTE: u8 = 0x22u8;

/// The byte `;`.
pub const SEMICOLON: u8 = 0x3bu8;

/// The byte `/`.
pub const SLASH: u8 = 0x2fu8;

/// The byte `*`.
pub const STAR: u8 = 0x2au8;

/// The byte `~`.
pub const TILDE: u8 = 0x7eu8;

/// The byte `_`.
pub const UNDERSCORE: u8 = 0x5fu8;

/// The byte `E`.
pub const UPPER_E: u8 = 0x45u8;

/// The byte `P`.
pub const UPPER_P: u8 = 0x50u8;

/// The byte `X`.
pub const UPPER_X: u8 = 0x58u8;

/// The byte `0`.
pub const ZERO: u8 = 0x30u8;

/// A byte range `lo..hi` of the source.
pub struct Piece {
    pub lo: int,
    pub hi: int,
}

/// What a token is, with `T` standing for a piece of source text: byte ranges
/// in the grammar, `usize` ranges in the lexer, bytes in a token's view.
pub enum Shape<T> {
    /// A string literal; the piece is its content between the quotes, escapes
    /// left as they are.
    Str(T),
    /// A numeric literal: whether it is hexadecimal, its integer digits, and the
    /// digits of its fraction and exponent where it has them.
    Number { is_hex: bool, int: T, frac: Option<T>, exp: Option<T> },
    Ident,
    ClosingBracket,
    Punct,
    OpenBrace,
    OpenBracket,
    CommaOpenBracket,
    Comma,
    Semicolon,
    Unknown,
}

/// A token as the grammar sees it: where it starts and ends in the source,
/// its shape, and whether it follows a comma of an assignment's left-hand side.
pub struct Lexeme {
    pub start: int,
    pub end: int,
    pub shape: Shape<Piece>,
    pub after_lhs_comma: bool,
}

/// The offset right after the first line feed at or after `i`, or the end of
/// the source where no line feed follows.
pub open spec fn line_end(s: Seq<u8>, i: int) -> int
    decreases s.len() - i,
{
    if 0 <= i < s.len() {
        if s[i] == 0x0Au8 {
            i + 1
        } else {
            line_end(s, i + 1)
        }
    } else {
        i
    }
}

pub proof fn lemma_line_end(s: Seq<u8>, i: int)
    requires
        0 <= i <= s.len(),
    ensures
        i <= line_end(s, i) <= s.len(),
        line_end(s, i) == s.len() || (i < line_end(s, i) && s[line_end(s, i) - 1] == 0x0Au8),
    decreases s.len() - i,
{
    if i < s.len() && s[i] != 0x0Au8 {
        lemma_line_end(s, i + 1);
    }
}

/// Whether a comment (`--`, running to the end of the line) starts at `i`.
pub open spec fn comment_at(s: Seq<u8>, i: int) -> bool {
    byte_at(s, i) == Some(MINUS) && byte_at(s, i + 1) == Some(MINUS)
}

/// The end of the whitespace and comments that start at `i`.
pub open spec fn trivia_end(s: Seq<u8>, i: int) -> int
    decreases s.len() - i,
    via trivia_end_decreases
{
    if 0 <= i < s.len() && is_space(s[i]) {
        trivia_end(s, i + 1)
    } else if 0 <= i && comment_at(s, i) {
        trivia_end(s, line_end(s, i + 2))
    } else {
        i
    }
}

#[via_fn]
proof fn trivia_end_decreases(s: Seq<u8>, i: int) {
    if 0 <= i && !(i < s.len() && is_space(s[i])) && comment_at(s, i) {
        lemma_line_end(s, i + 2);
    }
}

pub proof fn lemma_trivia_end(s: Seq<u8>, i: int)
    requires
        0 <= i <= s.len(),
    ensures
        i <= trivia_end(s, i) <= s.len(),
        trivia_end(s, i) < s.len() ==> !is_space(s[trivia_end(s, i)]) && !comment_at(
            s,
            trivia_end(s, i),
        ),
        trivia_end(s, trivia_end(s, i)) == trivia_end(s, i),
    decreases s.len() - i,
{
    if i < s.len() && is_space(s[i]) {
        lemma_trivia_end(s, i + 1);
    } else if comment_at(s, i) {
        lemma_line_end(s, i + 2);
        lemma_trivia_end(s, line_end(s, i + 2));
    }
}

/// The offset of the quote `q` that closes a string whose content starts at
/// `i`, skipping a byte after each backslash; the end of the source where no
/// quote closes it.
pub open spec fn string_close(s: Seq<u8>, i: int, q: u8) -> int
    decreases s.len() - i,
{
    if 0 <= i < s.len() {
        if s[i] == q {
            i
        } else if s[i] == BACKSLASH && i + 1 < s.len() {
            string_close(s, i + 2, q)
        } else {
            string_close(s, i + 1, q)
        }
    } else {
        i
    }
}

pub proof fn lemma_string_close(s: Seq<u8>, i: int, q: u8)
    requires
        0 <= i <= s.len(),
    ensures
        i <= string_close(s, i, q) <= s.len(),
        string_close(s, i, q) < s.len() ==> s[string_close(s, i, q)] == q,
    decreases s.len() - i,
{
    if i < s.len() && s[i] != q {
        if s[i] == BACKSLASH && i + 1 < s.len() {
            lemma_string_close(s, i + 2, q);
        } else {
            lemma_string_close(s, i + 1, q);
        }
    }
}

/// A string literal opened by the quote at `p`: its content and its end.
pub open spec fn string_token(s: Seq<u8>, p: int) -> (Shape<Piece>, int) {
    let c = string_close(s, p + 1, s[p]);
    (Shape::Str(Piece { lo: p + 1, hi: c }), if c < s.len() { c + 1 } else { c })
}

/// The exponent that may follow a number's digits at `i`: a marker (`p` or `P`
/// after hexadecimal digits, `e` or `E` after decimal ones) and decimal digits.
/// A hexadecimal marker is taken even without digits after it; a decimal one
/// only before digits or before `-` and a digit.
pub open spec fn exponent(s: Seq<u8>, i: int, is_hex: bool) -> (Option<Piece>, int) {
    let is_marker = if is_hex {
        byte_at(s, i) == Some(LOWER_P) || byte_at(s, i) == Some(UPPER_P)
    } else {
        byte_at(s, i) == Some(LOWER_E) || byte_at(s, i) == Some(UPPER_E)
    };
    if !is_marker {
        (None, i)
    } else if is_hex {
        if digit_at(s, i + 1) {
            (Some(Piece { lo: i + 1, hi: run_end(s, i + 1, Class::Digit) }), run_end(s, i + 1, Class::Digit))
        } else {
            (None, i + 1)
        }
    } else if byte_at(s, i + 1) == Some(MINUS) && digit_at(s, i + 2) {
        (Some(Piece { lo: i + 2, hi: run_end(s, i + 2, Class::Digit) }), run_end(s, i + 2, Class::Digit))
    } else if digit_at(s, i + 1) {
        (Some(Piece { lo: i + 1, hi: run_end(s, i + 1, Class::Digit) }), run_end(s, i + 1, Class::Digit))
    } else {
        (None, i)
    }
}

/// A numeric literal starting at `p`: an optional `-`, `0x` or `0X` for
/// hexadecimal, integer digits, optionally `.` and fraction digits, then an
/// optional exponent.
pub open spec fn number_token(s: Seq<u8>, p: int) -> (Shape<Piece>, int) {
    let q = if byte_at(s, p) == Some(MINUS) {
        p + 1
    } else {
        p
    };
    let is_hex = byte_at(s, q) == Some(ZERO) && (byte_at(s, q + 1) == Some(LOWER_X) || byte_at(
        s,
        q + 1,
    ) == Some(UPPER_X));
    let d = if is_hex {
        q + 2
    } else {
        q
    };
    let c = if is_hex {
        Class::HexDigit
    } else {
        Class::Digit
    };
    let e1 = run_end(s, d, c);
    let frac = if byte_at(s, e1) == Some(DOT) {
        Some(Piece { lo: e1 + 1, hi: run_end(s, e1 + 1, c) })
    } else {
        None
    };
    let e2 = match frac {
        Some(f) => f.hi,
        None => e1,
    };
    let (exp, e3) = exponent(s, e2, is_hex);
    (Shape::Number { is_hex, int: Piece { lo: d, hi: e1 }, frac, exp }, e3)
}

/// The two-byte punctuators.
pub open spec fn is_pair(a: u8, b: u8) -> bool {
    ||| (a == EQUALS && b == EQUALS)
    ||| (a == TILDE && b == EQUALS)
    ||| (a == LESS && b == EQUALS)
    ||| (a == GREATER && b == EQUALS)
    ||| (a == DOT && b == DOT)
    ||| (a == COLON && b == COLON)
    ||| (a == LESS && b == LESS)
    ||| (a == GREATER && b == GREATER)
    ||| (a == SLASH && b == SLASH)
    ||| (a == COMMA && b == OPEN_BRACKET)
}

/// The width of the punctuator at `p`: 3 for `...`, 2 for a two-byte one, else 1.
pub open spec fn punct_width(s: Seq<u8>, p: int) -> int {
    if byte_at(s, p) == Some(DOT) && byte_at(s, p + 1) == Some(DOT) && byte_at(s, p + 2) == Some(
        DOT,
    ) {
        3
    } else if p + 1 < s.len() && 0 <= p && is_pair(s[p], s[p + 1]) {
        2
    } else {
        1
    }
}

/// The one-byte operators that are plain punctuation.
pub open spec fn is_operator(b: u8) -> bool {
    b == OPEN_PAREN || b == PLUS || b == MINUS || b == STAR || b == SLASH || b == PERCENT || b == CARET || b
        == HASH || b == AMPERSAND || b == TILDE || b == BAR || b == LESS || b == GREATER || b == EQUALS || b
        == COLON || b == DOT
}

/// The shape of a one-byte punctuator.
pub open spec fn single_shape(b: u8) -> Shape<Piece> {
    if b == CLOSE_PAREN || b == CLOSE_BRACKET || b == CLOSE_BRACE {
        Shape::ClosingBracket
    } else if b == OPEN_BRACE {
        Shape::OpenBrace
    } else if b == OPEN_BRACKET {
        Shape::OpenBracket
    } else if b == COMMA {
        Shape::Comma
    } else if b == SEMICOLON {
        Shape::Semicolon
    } else if is_operator(b) {
        Shape::Punct
    } else {
        Shape::Unknown
    }
}

/// A punctuator at `p`: `,[` is one token of its own, every other multi-byte
/// punctuator is plain punctuation.
pub open spec fn punct_token(s: Seq<u8>, p: int) -> (Shape<Piece>, int) {
    let w = punct_width(s, p);
    let shape = if w == 3 {
        Shape::Punct
    } else if w == 2 {
        if s[p] == COMMA {
            Shape::CommaOpenBracket
        } else {
            Shape::Punct
        }
    } else {
        single_shape(s[p])
    };
    (shape, p + w)
}

/// Whether the `-` at `p` starts a number: a digit follows, or `.` and a digit.
pub open spec fn minus_starts_number(s: Seq<u8>, p: int) -> bool {
    digit_at(s, p + 1) || (byte_at(s, p + 1) == Some(DOT) && digit_at(s, p + 2))
}

/// The token that starts at `p`, where a token does start (`p` is inside the
/// source): its shape and its end. A `-` is absorbed into a number only where no
/// value precedes it.
pub open spec fn scan(s: Seq<u8>, p: int, after_value: bool) -> (Shape<Piece>, int) {
    let b = s[p];
    if b == QUOTE || b == APOSTROPHE {
        string_token(s, p)
    } else if is_digit(b) || (b == DOT && digit_at(s, p + 1)) {
        number_token(s, p)
    } else if b == MINUS && !after_value && minus_starts_number(s, p) {
        number_token(s, p)
    } else if is_alpha(b) || b == UNDERSCORE {
        (Shape::Ident, run_end(s, p, Class::Word))
    } else {
        punct_token(s, p)
    }
}

/// Lua's keywords, which never end a value.
pub open spec fn is_keyword(w: Seq<u8>) -> bool {
    ||| w == seq![0x61u8, 0x6eu8, 0x64u8]
    ||| w == seq![0x6fu8, 0x72u8]
    ||| w == seq![0x6eu8, 0x6fu8, 0x74u8]
    ||| w == seq![0x69u8, 0x66u8]
    ||| w == seq![0x65u8, 0x6cu8, 0x73u8, 0x65u8, 0x69u8, 0x66u8]
    ||| w == seq![0x65u8, 0x6cu8, 0x73u8, 0x65u8]
    ||| w == seq![0x74u8, 0x68u8, 0x65u8, 0x6eu8]
    ||| w == seq![0x64u8, 0x6fu8]
    ||| w == seq![0x77u8, 0x68u8, 0x69u8, 0x6cu8, 0x65u8]
    ||| w == seq![0x72u8, 0x65u8, 0x70u8, 0x65u8, 0x61u8, 0x74u8]
    ||| w == seq![0x75u8, 0x6eu8, 0x74u8, 0x69u8, 0x6cu8]
    ||| w == seq![0x66u8, 0x6fu8, 0x72u8]
    ||| w == seq![0x69u8, 0x6eu8]
    ||| w == seq![0x72u8, 0x65u8, 0x74u8, 0x75u8, 0x72u8, 0x6eu8]
    ||| w == seq![0x66u8, 0x75u8, 0x6eu8, 0x63u8, 0x74u8, 0x69u8, 0x6fu8, 0x6eu8]
    ||| w == seq![0x6cu8, 0x6fu8, 0x63u8, 0x61u8, 0x6cu8]
    ||| w == seq![0x67u8, 0x6fu8, 0x74u8, 0x6fu8]
    ||| w == seq![0x62u8, 0x72u8, 0x65u8, 0x61u8, 0x6bu8]
}

/// Whether a token with this shape and text ends a value, so that a `-` after
/// it is subtraction. `[` and `,[` count as ending one, as the game has it.
pub open spec fn shape_ends_value<T>(shape: Shape<T>, text: Seq<u8>) -> bool {
    match shape {
        Shape::Str(_) | Shape::Number { .. } | Shape::ClosingBracket => true,
        Shape::Ident => !is_keyword(text),
        Shape::OpenBracket | Shape::CommaOpenBracket => true,
        _ => false,
    }
}

/// Whether the text after a comma at `i` reads as the rest of an assignment's
/// left-hand side: names separated by commas, then `=` that is not `==`.
pub open spec fn lhs_comma(s: Seq<u8>, i: int) -> bool
    decreases s.len() - i,
    via lhs_comma_decreases
{
    let a = run_end(s, i, Class::Space);
    let w = run_end(s, a, Class::Word);
    if w == a || !(0 <= a < s.len()) || is_digit(s[a]) {
        false
    } else {
        let b = run_end(s, w, Class::Space);
        if byte_at(s, b) == Some(EQUALS) && byte_at(s, b + 1) != Some(EQUALS) {
            true
        } else if byte_at(s, b) == Some(COMMA) {
            lhs_comma(s, b + 1)
        } else {
            false
        }
    }
}

#[via_fn]
proof fn lhs_comma_decreases(s: Seq<u8>, i: int) {
    let a = run_end(s, i, Class::Space);
    if 0 <= i <= s.len() {
        lemma_run_end(s, i, Class::Space);
        lemma_run_end(s, a, Class::Word);
        let w = run_end(s, a, Class::Word);
        lemma_run_end(s, w, Class::Space);
    } else {
        assert(a == i);
    }
}

/// The tokens of `s` from offset `i` on, given whether the token before ends a
/// value and whether it is a comma of an assignment's left-hand side.
pub open spec fn lex_from(s: Seq<u8>, i: int, after_value: bool, after_lhs_comma: bool) -> Seq<
    Lexeme,
>
    decreases s.len() - i,
    via lex_from_decreases
{
    let p = trivia_end(s, i);
    if !(0 <= p < s.len()) {
        seq![]
    } else {
        let (shape, e) = scan(s, p, after_value);
        let t = Lexeme { start: p, end: e, shape, after_lhs_comma };
        seq![t] + lex_from(
            s,
            e,
            shape_ends_value(shape, s.subrange(p, e)),
            shape is Comma && lhs_comma(s, e),
        )
    }
}

#[via_fn]
proof fn lex_from_decreases(s: Seq<u8>, i: int, after_value: bool, after_lhs_comma: bool) {
    let p = trivia_end(s, i);
    if 0 <= p < s.len() {
        if 0 <= i <= s.len() {
            lemma_trivia_end(s, i);
        } else {
            assert(p == i);
        }
        lemma_scan(s, p, after_value);
    }
}

/// The tokens of the source `s`.
pub open spec fn lex(s: Seq<u8>) -> Seq<Lexeme> {
    lex_from(s, 0, false, false)
}

/// A token read at `p` takes at least one byte and ends within the source.
pub proof fn lemma_scan(s: Seq<u8>, p: int, after_value: bool)
    requires
        0 <= p < s.len(),
    ensures
        p < scan(s, p, after_value).1 <= s.len(),
{
    let b = s[p];
    if b == QUOTE || b == APOSTROPHE {
        lemma_string_close(s, p + 1, b);
    } else if is_digit(b) || (b == DOT && digit_at(s, p + 1)) || (b == MINUS && !after_value
        && minus_starts_number(s, p)) {
        lemma_number(s, p);
    } else if is_alpha(b) || b == UNDERSCORE {
        lemma_run_end(s, p, Class::Word);
    }
}

/// A number read at `p` ends after `p` and within the source.
pub proof fn lemma_number(s: Seq<u8>, p: int)
    requires
        0 <= p < s.len(),
        is_digit(s[p]) || (s[p] == DOT && digit_at(s, p + 1)) || (s[p] == MINUS
            && minus_starts_number(s, p)),
    ensures
        p < number_token(s, p).1 <= s.len(),
{
    let q = if s[p] == MINUS {
        p + 1
    } else {
        p
    };
    let is_hex = byte_at(s, q) == Some(ZERO) && (byte_at(s, q + 1) == Some(LOWER_X) || byte_at(
        s,
        q + 1,
    ) == Some(UPPER_X));
    let d = if is_hex {
        q + 2
    } else {
        q
    };
    let c = if is_hex {
        Class::HexDigit
    } else {
        Class::Digit
    };
    lemma_run_end(s, d, c);
    let e1 = run_end(s, d, c);
    if byte_at(s, e1) == Some(DOT) {
        lemma_run_end(s, e1 + 1, c);
    }
    let e2 = if byte_at(s, e1) == Some(DOT) {
        run_end(s, e1 + 1, c)
    } else {
        e1
    };
    if e2 + 1 <= s.len() {
        lemma_run_end(s, e2 + 1, Class::Digit);
    }
    if e2 + 2 <= s.len() {
        lemma_run_end(s, e2 + 2, Class::Digit);
    }
    if !is_hex && !(byte_at(s, e1) == Some(DOT)) {
        // Without `0x` and without a fraction, the digits consumed at least one byte.
        if s[p] == MINUS {
            if digit_at(s, p + 1) {
                assert(e1 > q);
            }
        } else if is_digit(s[p]) {
            assert(e1 > q);
        }
    }
}

/// Offsets at which a valid UTF-8 source can be cut: its ends, and any offset
/// at or right after an ASCII byte.
pub open spec fn cuttable(s: Seq<u8>, i: int) -> bool {
    &&& 0 <= i <= s.len()
    &&& (i == 0 || i == s.len() || (i < s.len() && is_ascii(s[i])) || (0 < i && is_ascii(s[i - 1])))
}

pub open spec fn piece_ok(s: Seq<u8>, p: Piece) -> bool {
    p.lo <= p.hi && cuttable(s, p.lo) && cuttable(s, p.hi)
}

pub open spec fn opt_piece_ok(s: Seq<u8>, o: Option<Piece>) -> bool {
    match o {
        Some(p) => piece_ok(s, p),
        None => true,
    }
}

/// The pieces of a shape are ranges of the source that can be cut out.
pub open spec fn shape_ok(s: Seq<u8>, shape: Shape<Piece>) -> bool {
    match shape {
        Shape::Str(c) => piece_ok(s, c),
        Shape::Number { int: integer, frac, exp, .. } => piece_ok(s, integer) && opt_piece_ok(s, frac)
            && opt_piece_ok(s, exp),
        _ => true,
    }
}

/// A token is a non-empty range of the source; where it starts with an ASCII
/// byte, it and its pieces can be cut out of the source.
pub open spec fn lexeme_ok(s: Seq<u8>, t: Lexeme) -> bool {
    &&& 0 <= t.start < t.end <= s.len()
    &&& is_ascii(s[t.start]) ==> cuttable(s, t.start) && cuttable(s, t.end) && shape_ok(s, t.shape)
}

/// The end of a run that starts at a cut offset is a cut offset.
proof fn lemma_run_cuttable(s: Seq<u8>, i: int, c: Class)
    requires
        cuttable(s, i),
    ensures
        cuttable(s, run_end(s, i, c)),
        i <= run_end(s, i, c),
{
    lemma_run_end(s, i, c);
    let e = run_end(s, i, c);
    if e > i {
        lemma_class_ascii(c, s[e - 1]);
    }
}

proof fn lemma_number_ok(s: Seq<u8>, p: int)
    requires
        0 <= p < s.len(),
        is_digit(s[p]) || (s[p] == DOT && digit_at(s, p + 1)) || (s[p] == MINUS
            && minus_starts_number(s, p)),
    ensures
        cuttable(s, number_token(s, p).1),
        shape_ok(s, number_token(s, p).0),
{
    let q = if s[p] == MINUS {
        p + 1
    } else {
        p
    };
    let is_hex = byte_at(s, q) == Some(ZERO) && (byte_at(s, q + 1) == Some(LOWER_X) || byte_at(
        s,
        q + 1,
    ) == Some(UPPER_X));
    let d = if is_hex {
        q + 2
    } else {
        q
    };
    let c = if is_hex {
        Class::HexDigit
    } else {
        Class::Digit
    };
    assert(cuttable(s, d));
    lemma_run_cuttable(s, d, c);
    let e1 = run_end(s, d, c);
    if byte_at(s, e1) == Some(DOT) {
        lemma_run_cuttable(s, e1 + 1, c);
    }
    let e2 = if byte_at(s, e1) == Some(DOT) {
        run_end(s, e1 + 1, c)
    } else {
        e1
    };
    if e2 + 1 <= s.len() {
        if e2 < s.len() && is_ascii(s[e2]) {
            lemma_run_cuttable(s, e2 + 1, Class::Digit);
        }
    }
    if e2 + 2 <= s.len() {
        if is_ascii(s[e2 + 1]) {
            lemma_run_cuttable(s, e2 + 2, Class::Digit);
        }
    }
}

/// What the lexer reads at an ASCII byte can be cut out of the source.
pub proof fn lemma_scan_ok(s: Seq<u8>, p: int, after_value: bool)
    requires
        0 <= p < s.len(),
        is_ascii(s[p]),
    ensures
        cuttable(s, scan(s, p, after_value).1),
        shape_ok(s, scan(s, p, after_value).0),
{
    let b = s[p];
    if b == QUOTE || b == APOSTROPHE {
        lemma_string_close(s, p + 1, b);
    } else if is_digit(b) || (b == DOT && digit_at(s, p + 1)) || (b == MINUS && !after_value
        && minus_starts_number(s, p)) {
        lemma_number_ok(s, p);
    } else if is_alpha(b) || b == UNDERSCORE {
        lemma_run_cuttable(s, p, Class::Word);
    }
}

/// Facts of every token from offset `i` on: each is a well-formed range, the
/// first starts where the trivia after `i` ends, each next one where the
/// trivia after the one before ends, and only trivia follows the last.
pub proof fn lemma_lex_from(s: Seq<u8>, i: int, after_value: bool, after_lhs_comma: bool)
    requires
        0 <= i <= s.len(),
    ensures
        ({
            let ts = lex_from(s, i, after_value, after_lhs_comma);
            &&& forall|k: int| 0 <= k < ts.len() ==> lexeme_ok(s, #[trigger] ts[k])
            &&& forall|k: int| 0 <= k < ts.len() ==> i <= #[trigger] ts[k].start
            &&& ts.len() == 0 ==> trivia_end(s, i) == s.len()
            &&& ts.len() > 0 ==> ts[0].start == trivia_end(s, i)
            &&& forall|k: int|
                0 < k < ts.len() ==> #[trigger] ts[k].start == trivia_end(s, ts[k - 1].end)
            &&& ts.len() > 0 ==> trivia_end(s, ts[ts.len() - 1].end) == s.len()
        }),
    decreases s.len() - i,
{
    lemma_trivia_end(s, i);
    let p = trivia_end(s, i);
    if p < s.len() {
        let (shape, e) = scan(s, p, after_value);
        lemma_scan(s, p, after_value);
        if is_ascii(s[p]) {
            lemma_scan_ok(s, p, after_value);
        }
        let next_value = shape_ends_value(shape, s.subrange(p, e));
        let next_comma = shape is Comma && lhs_comma(s, e);
        lemma_lex_from(s, e, next_value, next_comma);
        let rest = lex_from(s, e, next_value, next_comma);
        let ts = lex_from(s, i, after_value, after_lhs_comma);
        assert(ts == seq![Lexeme { start: p, end: e, shape, after_lhs_comma }] + rest);
        assert forall|k: int| 0 < k < ts.len() implies #[trigger] ts[k].start == trivia_end(
            s,
            ts[k - 1].end,
        ) by {
            assert(ts[k] == rest[k - 1]);
            if k > 1 {
                assert(ts[k - 1] == rest[k - 2]);
            }
        }
        assert forall|k: int| 0 <= k < ts.len() implies lexeme_ok(s, #[trigger] ts[k]) by {
            if k > 0 {
                assert(ts[k] == rest[k - 1]);
            }
        }
        assert forall|k: int| 0 <= k < ts.len() implies i <= #[trigger] ts[k].start by {
            if k > 0 {
                assert(ts[k] == rest[k - 1]);
            }
        }
        if rest.len() > 0 {
            assert(ts[ts.len() - 1] == rest[rest.len() - 1]);
        }
    }
}

/// The context that the token `t` leaves for the next one: whether it ends a
/// value, and whether it is a comma of an assignment's left-hand side.
pub open spec fn context_after(s: Seq<u8>, t: Lexeme) -> (bool, bool) {
    (shape_ends_value(t.shape, s.subrange(t.start, t.end)), t.shape is Comma && lhs_comma(s, t.end))
}

/// Whether `t` is the token that the grammar reads at its start, in the given
/// context.
pub open spec fn read_in(s: Seq<u8>, t: Lexeme, after_value: bool, after_lhs_comma: bool) -> bool {
    &&& (t.shape, t.end) == scan(s, t.start, after_value)
    &&& t.after_lhs_comma == after_lhs_comma
}

/// Each token from offset `i` on is what the grammar reads at its start, in
/// the context that the token before it leaves.
pub proof fn lemma_lex_from_steps(s: Seq<u8>, i: int, after_value: bool, after_lhs_comma: bool)
    requires
        0 <= i <= s.len(),
    ensures
        ({
            let ts = lex_from(s, i, after_value, after_lhs_comma);
            &&& ts.len() > 0 ==> read_in(s, ts[0], after_value, after_lhs_comma)
            &&& forall|k: int|
                0 < k < ts.len() ==> read_in(
                    s,
                    #[trigger] ts[k],
                    context_after(s, ts[k - 1]).0,
                    context_after(s, ts[k - 1]).1,
                )
        }),
    decreases s.len() - i,
{
    lemma_trivia_end(s, i);
    let p = trivia_end(s, i);
    if p < s.len() {
        let (shape, e) = scan(s, p, after_value);
        lemma_scan(s, p, after_value);
        let next_value = shape_ends_value(shape, s.subrange(p, e));
        let next_comma = shape is Comma && lhs_comma(s, e);
        lemma_lex_from_steps(s, e, next_value, next_comma);
        let rest = lex_from(s, e, next_value, next_comma);
        let ts = lex_from(s, i, after_value, after_lhs_comma);
        assert(ts == seq![Lexeme { start: p, end: e, shape, after_lhs_comma }] + rest);
        assert forall|k: int| 0 < k < ts.len() implies read_in(
            s,
            #[trigger] ts[k],
            context_after(s, ts[k - 1]).0,
            context_after(s, ts[k - 1]).1,
        ) by {
            assert(ts[k] == rest[k - 1]);
            if k > 1 {
                assert(ts[k - 1] == rest[k - 2]);
            }
        }
    }
}

/// The `k`-th token starts at offset `k` or later.
proof fn lemma_start_at_least_index(s: Seq<u8>, k: int)
    requires
        0 <= k < lex(s).len(),
    ensures
        k <= lex(s)[k].start < s.len(),
    decreases k,
{
    lemma_lex_from(s, 0, false, false);
    let ts = lex(s);
    assert(lexeme_ok(s, ts[k]));
    if k > 0 {
        lemma_start_at_least_index(s, k - 1);
        assert(lexeme_ok(s, ts[k - 1]));
        lemma_trivia_end(s, ts[k - 1].end);
        assert(ts[k].start == trivia_end(s, ts[k - 1].end));
    }
}

/// The tokens of a source cover it: each is a non-empty range of the source,
/// the first starts where the leading whitespace and comments end, each next
/// one starts where the whitespace and comments after the one before end, and
/// only whitespace and comments follow the last (a source of only whitespace
/// and comments has no tokens). So there are no more tokens than bytes.
pub proof fn law_tokens_cover_source(s: Seq<u8>)
    ensures
        ({
            let ts = lex(s);
            &&& forall|k: int| 0 <= k < ts.len() ==> 0 <= #[trigger] ts[k].start < ts[k].end <= s.len()
            &&& ts.len() == 0 ==> trivia_end(s, 0) == s.len()
            &&& ts.len() > 0 ==> ts[0].start == trivia_end(s, 0)
            &&& forall|k: int|
                0 < k < ts.len() ==> ts[k - 1].end <= #[trigger] ts[k].start && ts[k].start
                    == trivia_end(s, ts[k - 1].end)
            &&& ts.len() > 0 ==> trivia_end(s, ts[ts.len() - 1].end) == s.len()
            &&& ts.len() <= s.len()
        }),
{
    lemma_lex_from(s, 0, false, false);
    let ts = lex(s);
    if ts.len() > 0 {
        lemma_start_at_least_index(s, ts.len() - 1);
    }
    assert forall|k: int| 0 < k < ts.len() implies ts[k - 1].end <= #[trigger] ts[k].start
        && ts[k].start == trivia_end(s, ts[k - 1].end) by {
        assert(lexeme_ok(s, ts[k - 1]));
        lemma_trivia_end(s, ts[k - 1].end);
    }
    assert forall|k: int| 0 <= k < ts.len() implies 0 <= #[trigger] ts[k].start < ts[k].end
        <= s.len() by {
        assert(lexeme_ok(s, ts[k]));
    }
}

/// Each token is what the grammar reads where it starts: the first with no
/// value and no comma before it, every other in the context that the token
/// before it leaves.
pub proof fn law_tokens_read_one_by_one(s: Seq<u8>)
    ensures
        ({
            let ts = lex(s);
            &&& ts.len() > 0 ==> read_in(s, ts[0], false, false)
            &&& forall|k: int|
                0 < k < ts.len() ==> read_in(
                    s,
                    #[trigger] ts[k],
                    context_after(s, ts[k - 1]).0,
                    context_after(s, ts[k - 1]).1,
                )
        }),
{
    lemma_lex_from_steps(s, 0, false, false);
}

/// A `-` right after a token that ends a value (a string, a number, a closing
/// bracket, a name that is no keyword, `[` or `,[`) is never read as the sign
/// of a number; a `-` before a digit (or `.` and a digit) anywhere else is.
pub proof fn law_minus_sign(s: Seq<u8>)
    ensures
        ({
            let ts = lex(s);
            &&& forall|k: int|
                0 < k < ts.len() && context_after(s, ts[k - 1]).0 && s[#[trigger] ts[k].start]
                    == MINUS ==> !(ts[k].shape is Number)
            &&& forall|k: int|
                0 <= k < ts.len() && (k == 0 || !context_after(s, ts[k - 1]).0) && s[#[trigger] ts[
                    k
                ].start] == MINUS && minus_starts_number(s, ts[k].start) ==> ts[k].shape is Number
        }),
{
    lemma_lex_from_steps(s, 0, false, false);
    lemma_lex_from(s, 0, false, false);
    let ts = lex(s);
    assert forall|k: int|
        0 < k < ts.len() && context_after(s, ts[k - 1]).0 && s[#[trigger] ts[k].start]
            == MINUS implies !(ts[k].shape is Number) by {
        assert(read_in(s, ts[k], context_after(s, ts[k - 1]).0, context_after(s, ts[k - 1]).1));
    }
    assert forall|k: int|
        0 <= k < ts.len() && (k == 0 || !context_after(s, ts[k - 1]).0) && s[#[trigger] ts[
            k
        ].start] == MINUS && minus_starts_number(s, ts[k].start) implies ts[k].shape is Number by {
        if k > 0 {
            assert(read_in(s, ts[k], context_after(s, ts[k - 1]).0, context_after(s, ts[k - 1]).1));
        }
    }
}

/// A `,` right before a `[` is always read together as one `,[` token: a
/// `,[` token's text is exactly those two bytes, and a `,` token is never
/// directly followed by a `[`.
pub proof fn law_comma_bracket(s: Seq<u8>)
    ensures
        ({
            let ts = lex(s);
            &&& forall|k: int|
                0 <= k < ts.len() && (#[trigger] ts[k]).shape is CommaOpenBracket ==> s.subrange(
                    ts[k].start,
                    ts[k].end,
                ) == seq![COMMA, OPEN_BRACKET]
            &&& forall|k: int|
                0 <= k < ts.len() && (#[trigger] ts[k]).shape is Comma ==> byte_at(s, ts[k].end)
                    != Some(OPEN_BRACKET)
        }),
{
    lemma_lex_from_steps(s, 0, false, false);
    lemma_lex_from(s, 0, false, false);
    let ts = lex(s);
    assert forall|k: int| 0 <= k < ts.len() implies exists|v: bool, c: bool|
        read_in(s, #[trigger] ts[k], v, c) by {
        if k == 0 {
            assert(read_in(s, ts[k], false, false));
        } else {
            assert(read_in(s, ts[k], context_after(s, ts[k - 1]).0, context_after(s, ts[k - 1]).1));
        }
    }
    assert forall|k: int| 0 <= k < ts.len() && (#[trigger] ts[k]).shape is CommaOpenBracket
        implies s.subrange(ts[k].start, ts[k].end) == seq![COMMA, OPEN_BRACKET] by {
        let (v, c) = choose|v: bool, c: bool| read_in(s, ts[k], v, c);
        assert(lexeme_ok(s, ts[k]));
        assert(s.subrange(ts[k].start, ts[k].end) =~= seq![COMMA, OPEN_BRACKET]);
    }
    assert forall|k: int| 0 <= k < ts.len() && (#[trigger] ts[k]).shape is Comma implies byte_at(
        s,
        ts[k].end,
    ) != Some(OPEN_BRACKET) by {
        let (v, c) = choose|v: bool, c: bool| read_in(s, ts[k], v, c);
        assert(lexeme_ok(s, ts[k]));
    }
}

/// The bytes of some punctuation read at `p`: `;` is one byte `;`, `,` one
/// byte `,` not directly followed by `[`, and `[` starts with `[`.
proof fn lemma_punct_bytes(s: Seq<u8>, p: int, after_value: bool)
    requires
        0 <= p < s.len(),
    ensures
        ({
            let (shape, e) = scan(s, p, after_value);
            &&& shape is Semicolon ==> s[p] == SEMICOLON && e == p + 1
            &&& shape is Comma ==> s[p] == COMMA && e == p + 1 && byte_at(s, p + 1) != Some(
                OPEN_BRACKET,
            )
            &&& shape is OpenBracket ==> s[p] == OPEN_BRACKET
        }),
{
}

/// A `;` token is the one byte `;`, a `,` token the one byte `,` with no `[`
/// directly after it, and a `[` token the byte `[`.
pub proof fn law_punct_tokens(s: Seq<u8>)
    ensures
        ({
            let ts = lex(s);
            forall|k: int|
                0 <= k < ts.len() ==> {
                    &&& (#[trigger] ts[k]).shape is Semicolon ==> s[ts[k].start] == SEMICOLON
                        && ts[k].end == ts[k].start + 1
                    &&& ts[k].shape is Comma ==> s[ts[k].start] == COMMA && ts[k].end == ts[k].start
                        + 1 && byte_at(s, ts[k].end) != Some(OPEN_BRACKET)
                    &&& ts[k].shape is OpenBracket ==> s[ts[k].start] == OPEN_BRACKET
                }
        }),
{
    lemma_lex_from_steps(s, 0, false, false);
    lemma_lex_from(s, 0, false, false);
    let ts = lex(s);
    assert forall|k: int| 0 <= k < ts.len() implies {
        &&& (#[trigger] ts[k]).shape is Semicolon ==> s[ts[k].start] == SEMICOLON && ts[k].end
            == ts[k].start + 1
        &&& ts[k].shape is Comma ==> s[ts[k].start] == COMMA && ts[k].end == ts[k].start + 1
            && byte_at(s, ts[k].end) != Some(OPEN_BRACKET)
        &&& ts[k].shape is OpenBracket ==> s[ts[k].start] == OPEN_BRACKET
    } by {
        assert(lexeme_ok(s, ts[k]));
        let v = if k == 0 {
            false
        } else {
            context_after(s, ts[k - 1]).0
        };
        let c = if k == 0 {
            false
        } else {
            context_after(s, ts[k - 1]).1
        };
        assert(read_in(s, ts[k], v, c));
        lemma_punct_bytes(s, ts[k].start, v);
    }
}

} // verus!

//! Tokenizing a source: its tokens as pieces of the source text, and its
//! warnings.
use vstd::prelude::*;
use vstd::string::*;
use vstd::utf8::encode_utf8_valid_utf8;
use crate::bytes::{cut, is_ascii, lemma_cut};
use crate::bytes::byte_at;
use crate::grammar::{
    law_punct_tokens, law_tokens_cover_source, lemma_lex_from, lex, lexeme_ok, opt_piece_ok,
    piece_ok, trivia_end, Lexeme, Piece, Shape, COMMA, OPEN_BRACKET, SEMICOLON,
};
use crate::lexer::{lex_bytes, opt_view, RawToken, Span};
use crate::token::{opt_bytes, Token, TokenKind, TokenView};
use crate::warning::Warning;

verus! {

broadcast use vstd::slice::axiom_spec_len;

/// The bytes of the piece `p` of the source `s`.
pub open spec fn piece_bytes(s: Seq<u8>, p: Piece) -> Seq<u8> {
    s.subrange(p.lo, p.hi)
}

pub open spec fn opt_piece_bytes(s: Seq<u8>, o: Option<Piece>) -> Option<Seq<u8>> {
    match o {
        Some(p) => Some(piece_bytes(s, p)),
        None => None,
    }
}

/// A shape with each piece of the source `s` replaced by its bytes.
pub open spec fn shape_bytes(s: Seq<u8>, shape: Shape<Piece>) -> Shape<Seq<u8>> {
    match shape {
        Shape::Str(c) => Shape::Str(piece_bytes(s, c)),
        Shape::Number { is_hex, int: integer, frac, exp } => Shape::Number {
            is_hex,
            int: piece_bytes(s, integer),
            frac: opt_piece_bytes(s, frac),
            exp: opt_piece_bytes(s, exp),
        },
        Shape::Ident => Shape::Ident,
        Shape::ClosingBracket => Shape::ClosingBracket,
        Shape::Punct => Shape::Punct,
        Shape::OpenBrace => Shape::OpenBrace,
        Shape::OpenBracket => Shape::OpenBracket,
        Shape::CommaOpenBracket => Shape::CommaOpenBracket,
        Shape::Comma => Shape::Comma,
        Shape::Semicolon => Shape::Semicolon,
        Shape::Unknown => Shape::Unknown,
    }
}

/// The token that the grammar's token `t` of the source `s` becomes.
pub open spec fn token_view(s: Seq<u8>, t: Lexeme) -> TokenView {
    TokenView {
        text: s.subrange(t.start, t.end),
        shape: shape_bytes(s, t.shape),
        after_lhs_comma: t.after_lhs_comma,
    }
}

/// Whether a source can be tokenized: each of its tokens starts with an ASCII
/// byte. (A non-ASCII character outside strings and comments reads as a
/// one-byte token, which cannot be cut out of a `&str`.)
pub open spec fn tokenizable(s: Seq<u8>) -> bool {
    forall|k: int| 0 <= k < lex(s).len() ==> is_ascii(s[#[trigger] lex(s)[k].start])
}

/// The warnings that the token at index `i` of `ts` gives: one for a `;`, and
/// one for a `,` that is directly followed by a `[` token.
pub open spec fn warnings_at(ts: Seq<Lexeme>, i: int) -> Seq<Warning> {
    if ts[i].shape is Semicolon {
        seq![Warning::Semicolon { pos: ts[i].start as usize }]
    } else if ts[i].shape is Comma && i + 1 < ts.len() && ts[i + 1].shape is OpenBracket {
        seq![Warning::WhitespaceBetweenCommaAndBracket { pos: ts[i].start as usize }]
    } else {
        seq![]
    }
}

/// The warnings of the first `n` tokens of `ts`, in order.
pub open spec fn warnings_upto(ts: Seq<Lexeme>, n: int) -> Seq<Warning>
    decreases n,
{
    if n <= 0 {
        seq![]
    } else {
        warnings_upto(ts, n - 1) + warnings_at(ts, n - 1)
    }
}

pub open spec fn warnings_of(ts: Seq<Lexeme>) -> Seq<Warning> {
    warnings_upto(ts, ts.len() as int)
}

/// Whether the token at index `k` of `ts` draws a warning: a `;`, or a `,`
/// directly followed by a `[` token.
pub open spec fn draws_warning(ts: Seq<Lexeme>, k: int) -> bool {
    ts[k].shape is Semicolon || (ts[k].shape is Comma && k + 1 < ts.len() && ts[k
        + 1].shape is OpenBracket)
}

proof fn lemma_warnings_upto(ts: Seq<Lexeme>, n: int)
    requires
        0 <= n <= ts.len(),
    ensures
        warnings_upto(ts, n).len() == 0 <==> forall|k: int|
            0 <= k < n ==> !draws_warning(ts, k),
    decreases n,
{
    if n > 0 {
        lemma_warnings_upto(ts, n - 1);
        if warnings_upto(ts, n).len() == 0 {
            assert forall|k: int| 0 <= k < n implies !draws_warning(ts, k) by {
                if k < n - 1 {
                } else {
                    assert(warnings_at(ts, n - 1).len() == 0);
                }
            }
        } else if forall|k: int| 0 <= k < n ==> !draws_warning(ts, k) {
            assert(!draws_warning(ts, n - 1));
            assert(forall|k: int| 0 <= k < n - 1 ==> !draws_warning(ts, k));
        }
    }
}

/// A list of tokens draws no warning exactly when it has no `;` token and no
/// `,` token directly followed by a `[` token.
pub proof fn law_no_warnings(ts: Seq<Lexeme>)
    ensures
        warnings_of(ts).len() == 0 <==> forall|k: int|
            0 <= k < ts.len() ==> !draws_warning(ts, k),
{
    lemma_warnings_upto(ts, ts.len() as int);
}

/// The byte offset a warning points at.
pub open spec fn warning_pos(w: Warning) -> int {
    match w {
        Warning::WhitespaceBetweenCommaAndBracket { pos } => pos as int,
        Warning::Semicolon { pos } => pos as int,
    }
}

/// What a warning at offset `p` of `s` says of the source there: a `;`, or a
/// `,` not directly followed by `[` but with `[` as the next byte after the
/// whitespace and comments that follow it.
pub open spec fn warning_holds(s: Seq<u8>, w: Warning) -> bool {
    let p = warning_pos(w);
    &&& 0 <= p < s.len()
    &&& w is Semicolon ==> s[p] == SEMICOLON
    &&& w is WhitespaceBetweenCommaAndBracket ==> {
        &&& s[p] == COMMA
        &&& byte_at(s, p + 1) != Some(OPEN_BRACKET)
        &&& byte_at(s, trivia_end(s, p + 1)) == Some(OPEN_BRACKET)
    }
}

proof fn lemma_warning_positions(s: Seq<u8>, n: int)
    requires
        s.len() <= usize::MAX,
        0 <= n <= lex(s).len(),
    ensures
        ({
            let ts = lex(s);
            let ws = warnings_upto(ts, n);
            &&& ws.len() <= n
            &&& forall|j: int| 0 <= j < ws.len() ==> warning_holds(s, #[trigger] ws[j])
            &&& forall|j: int|
                0 <= j < ws.len() ==> exists|k: int|
                    0 <= k < n && #[trigger] ts[k].start == warning_pos(#[trigger] ws[j])
            &&& forall|j: int| 0 <= j < ws.len() ==> warning_pos(#[trigger] ws[j]) <= ts[n - 1].start
            &&& forall|i: int, j: int|
                0 <= i < j < ws.len() ==> warning_pos(#[trigger] ws[i]) < warning_pos(#[trigger] ws[j])
        }),
    decreases n,
{
    let ts = lex(s);
    if n > 0 {
        lemma_warning_positions(s, n - 1);
        law_tokens_cover_source(s);
        law_punct_tokens(s);
        let prev = warnings_upto(ts, n - 1);
        let here = warnings_at(ts, n - 1);
        let ws = warnings_upto(ts, n);
        assert(ws == prev + here);
        let t = ts[n - 1];
        if n > 1 {
            assert(ts[n - 2].end <= t.start && ts[n - 2].start < ts[n - 2].end);
        }
        if here.len() > 0 {
            assert(warning_pos(here[0]) == t.start);
            if t.shape is Comma {
                assert(ts[n].start == trivia_end(s, t.end));
            }
            assert(warning_holds(s, here[0]));
        }
        assert forall|j: int| 0 <= j < ws.len() implies warning_holds(s, #[trigger] ws[j]) by {
            if j < prev.len() {
                assert(ws[j] == prev[j]);
            } else {
                assert(ws[j] == here[0]);
            }
        }
        assert forall|j: int| 0 <= j < ws.len() implies exists|k: int|
            0 <= k < n && #[trigger] ts[k].start == warning_pos(#[trigger] ws[j]) by {
            if j < prev.len() {
                assert(ws[j] == prev[j]);
            } else {
                assert(ws[j] == here[0]);
                assert(ts[n - 1].start == warning_pos(ws[j]));
            }
        }
        assert forall|j: int| 0 <= j < ws.len() implies warning_pos(#[trigger] ws[j])
            <= ts[n - 1].start by {
            if j < prev.len() {
                assert(ws[j] == prev[j]);
            } else {
                assert(ws[j] == here[0]);
            }
        }
        assert forall|i: int, j: int| 0 <= i < j < ws.len() implies warning_pos(
            #[trigger] ws[i],
        ) < warning_pos(#[trigger] ws[j]) by {
            if j < prev.len() {
                assert(ws[i] == prev[i] && ws[j] == prev[j]);
            } else {
                assert(ws[i] == prev[i]);
                assert(ws[j] == here[0]);
            }
        }
    }
}

/// Each warning points at a token of the source: a `;`, or a `,` that is not
/// directly followed by `[` though `[` is the next byte after the whitespace
/// and comments that follow it. Warnings come in source order, at most one per
/// token.
pub proof fn law_warning_positions(s: Seq<u8>)
    requires
        s.len() <= usize::MAX,
    ensures
        ({
            let ts = lex(s);
            let ws = warnings_of(ts);
            &&& ws.len() <= ts.len()
            &&& forall|j: int| 0 <= j < ws.len() ==> warning_holds(s, #[trigger] ws[j])
            &&& forall|j: int|
                0 <= j < ws.len() ==> exists|k: int|
                    0 <= k < ts.len() && #[trigger] ts[k].start == warning_pos(#[trigger] ws[j])
            &&& forall|i: int, j: int|
                0 <= i < j < ws.len() ==> warning_pos(#[trigger] ws[i]) < warning_pos(#[trigger] ws[j])
        }),
{
    lemma_warning_positions(s, lex(s).len() as int);
}

/// Every source of ASCII text can be tokenized.
pub proof fn law_ascii_sources_tokenize(s: Seq<u8>)
    requires
        forall|i: int| 0 <= i < s.len() ==> is_ascii(#[trigger] s[i]),
    ensures
        tokenizable(s),
{
    lemma_lex_from(s, 0, false, false);
    assert forall|k: int| 0 <= k < lex(s).len() implies is_ascii(s[#[trigger] lex(s)[k].start]) by {
        assert(lexeme_ok(s, lex(s)[k]));
    }
}

/// Tokenizes `src`: its tokens, in source order, and its warnings.
pub fn tokenize(src: &str) -> (r: (Vec<Token<'_>>, Vec<Warning>))
    requires
        tokenizable(src.spec_bytes()),
    ensures
        r.0@.len() == lex(src.spec_bytes()).len(),
        forall|k: int|
            0 <= k < r.0@.len() ==> #[trigger] r.0@[k]@ == token_view(
                src.spec_bytes(),
                lex(src.spec_bytes())[k],
            ),
        r.1@ == warnings_of(lex(src.spec_bytes())),
{
    let ghost s = src.spec_bytes();
    let raw = lex_bytes(src.as_bytes());
    proof {
        lemma_lex_from(s, 0, false, false);
        assert forall|k: int| 0 <= k < raw@.len() implies #[trigger] raw@[k]@ == lex(s)[k] by {
            assert(raw@.map_values(|t: RawToken| t@)[k] == raw@[k]@);
        }
    }
    let mut tokens: Vec<Token<'_>> = Vec::new();
    let mut k: usize = 0;
    while k < raw.len()
        invariant
            s == src.spec_bytes(),
            raw@.len() == lex(s).len(),
            forall|j: int| 0 <= j < raw@.len() ==> #[trigger] raw@[j]@ == lex(s)[j],
            forall|j: int| 0 <= j < raw@.len() ==> lexeme_ok(s, #[trigger] lex(s)[j]),
            tokenizable(s),
            k <= raw@.len(),
            tokens@.len() == k,
            forall|j: int| 0 <= j < k ==> #[trigger] tokens@[j]@ == token_view(s, lex(s)[j]),
        decreases raw@.len() - k,
    {
        assert(raw@[k as int]@ == lex(s)[k as int]);
        let t = make_token(src, &raw[k]);
        tokens.push(t);
        k += 1;
    }
    let warnings = collect_warnings(&raw);
    proof {
        assert(raw@.map_values(|t: RawToken| t@) =~= lex(s));
    }
    (tokens, warnings)
}

/// The piece `p` of `src`, for a piece whose ends are cut offsets.
fn cut_piece<'a>(src: &'a str, p: Span) -> (r: &'a str)
    requires
        piece_ok(src.spec_bytes(), p@),
    ensures
        r.spec_bytes() == piece_bytes(src.spec_bytes(), p@),
{
    proof {
        encode_utf8_valid_utf8(src@);
        lemma_cut(src.spec_bytes(), p.lo as int);
        lemma_cut(src.spec_bytes(), p.hi as int);
    }
    cut(src, p.lo, p.hi)
}

fn cut_opt_piece<'a>(src: &'a str, p: Option<Span>) -> (r: Option<&'a str>)
    requires
        opt_piece_ok(src.spec_bytes(), opt_view(p)),
    ensures
        opt_bytes(r) == opt_piece_bytes(
            src.spec_bytes(),
            opt_view(p),
        ),
{
    match p {
        Some(p) => Some(cut_piece(src, p)),
        None => None,
    }
}

/// The token of `src` that the lexer read as `raw`.
fn make_token<'a>(src: &'a str, raw: &RawToken) -> (r: Token<'a>)
    requires
        lexeme_ok(src.spec_bytes(), raw@),
        is_ascii(src.spec_bytes()[raw.start as int]),
    ensures
        r@ == token_view(src.spec_bytes(), raw@),
{
    let text = cut_piece(src, Span { lo: raw.start, hi: raw.end });
    let kind = match raw.shape {
        Shape::Str(c) => TokenKind::Str(cut_piece(src, c)),
        Shape::Number { is_hex, int: integer, frac, exp } => TokenKind::Number {
            is_hex,
            int: cut_piece(src, integer),
            frac: cut_opt_piece(src, frac),
            exp: cut_opt_piece(src, exp),
        },
        Shape::Ident => TokenKind::Ident,
        Shape::ClosingBracket => TokenKind::ClosingBracket,
        Shape::Punct => TokenKind::Punct,
        Shape::OpenBrace => TokenKind::OpenBrace,
        Shape::OpenBracket => TokenKind::OpenBracket,
        Shape::CommaOpenBracket => TokenKind::CommaOpenBracket,
        Shape::Comma => TokenKind::Comma,
        Shape::Semicolon => TokenKind::Semicolon,
        Shape::Unknown => TokenKind::Unknown,
    };
    Token { text, is_after_assignment_lhs_comma: raw.after_lhs_comma, kind }
}

/// The warnings of the tokens `tokens`, in order.
fn collect_warnings(tokens: &Vec<RawToken>) -> (r: Vec<Warning>)
    ensures
        r@ == warnings_of(tokens@.map_values(|t: RawToken| t@)),
{
    let ghost ts = tokens@.map_values(|t: RawToken| t@);
    let mut warnings: Vec<Warning> = Vec::new();
    let mut i: usize = 0;
    while i < tokens.len()
        invariant
            ts == tokens@.map_values(|t: RawToken| t@),
            i <= tokens@.len(),
            warnings@ == warnings_upto(ts, i as int),
        decreases tokens@.len() - i,
    {
        let token = &tokens[i];
        assert(ts[i as int] == token@);
        let is_semicolon = match token.shape {
            Shape::Semicolon => true,
            _ => false,
        };
        let is_comma = match token.shape {
            Shape::Comma => true,
            _ => false,
        };
        if is_semicolon {
            warnings.push(Warning::Semicolon { pos: token.start });
        }
        if is_comma && i + 1 < tokens.len() {
            assert(ts[i + 1] == tokens@[i + 1]@);
            let is_bracket = match tokens[i + 1].shape {
                Shape::OpenBracket => true,
                _ => false,
            };
            if is_bracket {
                warnings.push(Warning::WhitespaceBetweenCommaAndBracket { pos: token.start });
            }
        }
        assert(warnings@ =~= warnings_upto(ts, i + 1));
        i += 1;
    }
    warnings
}

/// Whether `src` can be tokenized: whether each of its tokens starts with an
/// ASCII byte.
pub fn can_tokenize(src: &str) -> (r: bool)
    ensures
        r == tokenizable(src.spec_bytes()),
{
    let bytes = src.as_bytes();
    let raw = lex_bytes(bytes);
    let ghost s = src.spec_bytes();
    proof {
        lemma_lex_from(s, 0, false, false);
        assert forall|k: int| 0 <= k < raw@.len() implies #[trigger] raw@[k]@ == lex(s)[k] by {
            assert(raw@.map_values(|t: RawToken| t@)[k] == raw@[k]@);
        }
    }
    let mut k: usize = 0;
    while k < raw.len()
        invariant
            bytes@ == s,
            s == src.spec_bytes(),
            raw@.len() == lex(s).len(),
            forall|j: int| 0 <= j < raw@.len() ==> #[trigger] raw@[j]@ == lex(s)[j],
            forall|j: int| 0 <= j < raw@.len() ==> lexeme_ok(s, #[trigger] lex(s)[j]),
            k <= raw@.len(),
            forall|j: int| 0 <= j < k ==> is_ascii(s[#[trigger] lex(s)[j].start]),
        decreases raw@.len() - k,
    {
        assert(raw@[k as int]@ == lex(s)[k as int]);
        if bytes[raw[k].start] >= 0x80u8 {
            assert(!is_ascii(s[lex(s)[k as int].start]));
            return false;
        }
        k += 1;
    }
    true
}

} // verus!

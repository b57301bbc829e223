//! The lexer: reads the tokens of a source's bytes, each as a byte span with
//! the spans of its parts, exactly as the grammar describes them.
use vstd::prelude::*;
use crate::bytes::{alpha, byte_at, class_has, digit, digit_at, word, lemma_run_end, run_end, space, Class};
use crate::grammar::{
    comment_at, exponent, is_keyword, is_pair, lemma_scan, lemma_trivia_end, lex, lex_from,
    lhs_comma, line_end, minus_starts_number, number_token, punct_token, punct_width,
    shape_ends_value, single_shape, string_close, string_token, trivia_end, Lexeme, Piece, Shape,
    AMPERSAND, APOSTROPHE, BACKSLASH, BAR, CARET, CLOSE_BRACE, CLOSE_BRACKET, CLOSE_PAREN, COLON,
    COMMA, DOT, EQUALS, GREATER, HASH, LESS, LOWER_E, LOWER_P, LOWER_X, MINUS, OPEN_BRACE,
    OPEN_BRACKET, OPEN_PAREN, PERCENT, PLUS, QUOTE, SEMICOLON, SLASH, STAR, TILDE, UNDERSCORE,
    UPPER_E, UPPER_P, UPPER_X, ZERO,
};

verus! {

broadcast use vstd::slice::axiom_spec_len;

/// A byte range `lo..hi` of the source.
#[derive(Clone, Copy)]
pub struct Span {
    pub lo: usize,
    pub hi: usize,
}

impl View for Span {
    type V = Piece;

    open spec fn view(&self) -> Piece {
        Piece { lo: self.lo as int, hi: self.hi as int }
    }
}

pub open spec fn opt_view(o: Option<Span>) -> Option<Piece> {
    match o {
        Some(p) => Some(p@),
        None => None,
    }
}

impl View for Shape<Span> {
    type V = Shape<Piece>;

    open spec fn view(&self) -> Shape<Piece> {
        match *self {
            Shape::Str(c) => Shape::Str(c@),
            Shape::Number { is_hex, int: integer, frac, exp } => Shape::Number {
                is_hex,
                int: integer@,
                frac: opt_view(frac),
                exp: opt_view(exp),
            },
            Shape::Ident => Shape::Ident,
            Shape::ClosingBracket => Shape::ClosingBracket,
            Shape::Punct => Shape::Punct,
            Shape::OpenBrace => Shape::OpenBrace,
            Shape::OpenBracket => Shape::OpenBracket,
            Shape::CommaOpenBracket => Shape::CommaOpenBracket,
            Shape::Comma => Shape::Comma,
            Shape::Semicolon => Shape::Semicolon,
            Shape::Unknown => Shape::Unknown,
        }
    }
}

/// A token as the lexer reads it: its span in the source, its shape, and
/// whether it follows a comma of an assignment's left-hand side.
pub struct RawToken {
    pub start: usize,
    pub end: usize,
    pub shape: Shape<Span>,
    pub after_lhs_comma: bool,
}

impl View for RawToken {
    type V = Lexeme;

    open spec fn view(&self) -> Lexeme {
        Lexeme {
            start: self.start as int,
            end: self.end as int,
            shape: self.shape@,
            after_lhs_comma: self.after_lhs_comma,
        }
    }
}

struct Lexer<'a> {
    bytes: &'a [u8],
    pos: usize,
    // When set, a following `-` is subtraction, not negation.
    is_after_expr_node: bool,
    is_after_assignment_lhs_comma: bool,
}

impl<'a> Lexer<'a> {
    spec fn src(&self) -> Seq<u8> {
        self.bytes@
    }

    spec fn wf(&self) -> bool {
        &&& self.pos <= self.bytes@.len()
        &&& self.bytes@.len() <= usize::MAX
    }

    fn new(bytes: &'a [u8]) -> (r: Self)
        ensures
            r.wf(),
            r.bytes@ == bytes@,
            r.pos == 0,
            !r.is_after_expr_node,
            !r.is_after_assignment_lhs_comma,
    {
        assert(bytes@.len() == bytes.len());
        Lexer { bytes, pos: 0, is_after_expr_node: false, is_after_assignment_lhs_comma: false }
    }

    fn peek(&self) -> (r: Option<u8>)
        requires
            self.wf(),
        ensures
            r == byte_at(self.src(), self.pos as int),
    {
        if self.pos < self.bytes.len() {
            Some(self.bytes[self.pos])
        } else {
            None
        }
    }

    fn peek_at(&self, offset: usize) -> (r: Option<u8>)
        requires
            self.wf(),
        ensures
            r == byte_at(self.src(), self.pos + offset),
    {
        if offset < self.bytes.len() - self.pos {
            Some(self.bytes[self.pos + offset])
        } else {
            None
        }
    }

    /// Whether the byte `offset` bytes ahead is `b`.
    fn ahead_is(&self, offset: usize, b: u8) -> (r: bool)
        requires
            self.wf(),
        ensures
            r == (byte_at(self.src(), self.pos + offset) == Some(b)),
    {
        match self.peek_at(offset) {
            Some(c) => c == b,
            None => false,
        }
    }

    /// Whether the byte `offset` bytes ahead is a decimal digit.
    fn digit_ahead(&self, offset: usize) -> (r: bool)
        requires
            self.wf(),
        ensures
            r == digit_at(self.src(), self.pos + offset),
    {
        match self.peek_at(offset) {
            Some(c) => digit(c),
            None => false,
        }
    }

    fn skip_trivia(&mut self)
        requires
            old(self).wf(),
        ensures
            final(self).wf(),
            final(self).bytes == old(self).bytes,
            final(self).pos == trivia_end(old(self).src(), old(self).pos as int),
            final(self).is_after_expr_node == old(self).is_after_expr_node,
            final(self).is_after_assignment_lhs_comma == old(self).is_after_assignment_lhs_comma,
    {
        let ghost target = trivia_end(self.src(), self.pos as int);
        loop
            invariant
                self.wf(),
                self.bytes == old(self).bytes,
                trivia_end(self.src(), self.pos as int) == target,
                target == trivia_end(old(self).src(), old(self).pos as int),
                self.is_after_expr_node == old(self).is_after_expr_node,
                self.is_after_assignment_lhs_comma == old(self).is_after_assignment_lhs_comma,
            ensures
                self.wf(),
                self.bytes == old(self).bytes,
                self.pos == target,
                self.is_after_expr_node == old(self).is_after_expr_node,
                self.is_after_assignment_lhs_comma == old(self).is_after_assignment_lhs_comma,
            decreases self.bytes@.len() - self.pos,
        {
            let b = self.peek();
            if b.is_some() && space(b.unwrap()) {
                self.pos += 1;
            } else if self.ahead_is(0, MINUS) && self.ahead_is(1, MINUS) {
                self.skip_comment();
            } else {
                return;
            }
        }
    }

    // Long brackets (`--[[ ]]`) are unsupported, so a comment runs to end of line.
    fn skip_comment(&mut self)
        requires
            old(self).wf(),
            comment_at(old(self).src(), old(self).pos as int),
        ensures
            final(self).wf(),
            final(self).bytes == old(self).bytes,
            final(self).pos == line_end(old(self).src(), old(self).pos + 2),
            old(self).pos < final(self).pos,
            final(self).is_after_expr_node == old(self).is_after_expr_node,
            final(self).is_after_assignment_lhs_comma == old(self).is_after_assignment_lhs_comma,
    {
        self.pos += 2;
        let ghost target = line_end(self.src(), self.pos as int);
        while self.pos < self.bytes.len()
            invariant
                self.wf(),
                self.bytes == old(self).bytes,
                old(self).pos < self.pos,
                line_end(self.src(), self.pos as int) == target,
                target == line_end(old(self).src(), old(self).pos + 2),
                self.is_after_expr_node == old(self).is_after_expr_node,
                self.is_after_assignment_lhs_comma == old(self).is_after_assignment_lhs_comma,
            decreases self.bytes@.len() - self.pos,
        {
            let b = self.bytes[self.pos];
            self.pos += 1;
            if b == 0x0Au8 {
                assert(line_end(self.src(), self.pos - 1) == self.pos);
                return;
            }
        }
    }

    fn read_string(&mut self, quote: u8) -> (r: Shape<Span>)
        requires
            old(self).wf(),
            old(self).pos < old(self).src().len(),
            old(self).src()[old(self).pos as int] == quote,
        ensures
            final(self).wf(),
            final(self).bytes == old(self).bytes,
            (r@, final(self).pos as int) == string_token(old(self).src(), old(self).pos as int),
            final(self).is_after_expr_node == old(self).is_after_expr_node,
            final(self).is_after_assignment_lhs_comma == old(self).is_after_assignment_lhs_comma,
    {
        let content_start = self.pos + 1;
        self.pos += 1;
        let ghost target = string_close(self.src(), self.pos as int, quote);
        while self.pos < self.bytes.len()
            invariant
                self.wf(),
                self.bytes == old(self).bytes,
                content_start == old(self).pos + 1,
                content_start <= self.pos,
                string_close(self.src(), self.pos as int, quote) == target,
                target == string_close(old(self).src(), old(self).pos + 1, quote),
                old(self).src()[old(self).pos as int] == quote,
                self.is_after_expr_node == old(self).is_after_expr_node,
                self.is_after_assignment_lhs_comma == old(self).is_after_assignment_lhs_comma,
            decreases self.bytes@.len() - self.pos,
        {
            let b = self.bytes[self.pos];
            if b == quote {
                assert(string_close(self.src(), self.pos as int, quote) == self.pos);
                let content = Span { lo: content_start, hi: self.pos };
                self.pos += 1;
                return Shape::Str(content);
            }
            if b == BACKSLASH && self.peek_at(1).is_some() {
                self.pos += 2;
            } else {
                self.pos += 1;
            }
        }
        Shape::Str(Span { lo: content_start, hi: self.pos })
    }

    fn scan_while(&mut self, c: Class)
        requires
            old(self).wf(),
        ensures
            final(self).wf(),
            final(self).bytes == old(self).bytes,
            final(self).pos == run_end(old(self).src(), old(self).pos as int, c),
            final(self).is_after_expr_node == old(self).is_after_expr_node,
            final(self).is_after_assignment_lhs_comma == old(self).is_after_assignment_lhs_comma,
    {
        let ghost target = run_end(self.src(), self.pos as int, c);
        while self.pos < self.bytes.len() && class_has(c, self.bytes[self.pos])
            invariant
                self.wf(),
                self.bytes == old(self).bytes,
                run_end(self.src(), self.pos as int, c) == target,
                self.is_after_expr_node == old(self).is_after_expr_node,
                self.is_after_assignment_lhs_comma == old(self).is_after_assignment_lhs_comma,
            decreases self.bytes@.len() - self.pos,
        {
            self.pos += 1;
        }
    }

    fn scan_slice(&mut self, c: Class) -> (r: Span)
        requires
            old(self).wf(),
        ensures
            final(self).wf(),
            final(self).bytes == old(self).bytes,
            final(self).pos == run_end(old(self).src(), old(self).pos as int, c),
            r@ == (Piece { lo: old(self).pos as int, hi: final(self).pos as int }),
            final(self).is_after_expr_node == old(self).is_after_expr_node,
            final(self).is_after_assignment_lhs_comma == old(self).is_after_assignment_lhs_comma,
    {
        let start = self.pos;
        self.scan_while(c);
        Span { lo: start, hi: self.pos }
    }

    // Read an exponent suffix, returning its digit run. It must begin with a digit; an unhandled
    // sign splits the literal so the leftover `sign digits` lex separately. Hex `p` accepts no
    // sign (the marker is still consumed); decimal `e` accepts a leading `-` but not `+`.
    fn read_exponent(&mut self, is_hex: bool) -> (r: Option<Span>)
        requires
            old(self).wf(),
        ensures
            final(self).wf(),
            final(self).bytes == old(self).bytes,
            (opt_view(r), final(self).pos as int) == exponent(
                old(self).src(),
                old(self).pos as int,
                is_hex,
            ),
            final(self).is_after_expr_node == old(self).is_after_expr_node,
            final(self).is_after_assignment_lhs_comma == old(self).is_after_assignment_lhs_comma,
    {
        let is_marker = if is_hex {
            self.ahead_is(0, LOWER_P) || self.ahead_is(0, UPPER_P)
        } else {
            self.ahead_is(0, LOWER_E) || self.ahead_is(0, UPPER_E)
        };
        if !is_marker {
            return None;
        }
        if is_hex {
            self.pos += 1;
            if self.digit_ahead(0) {
                Some(self.scan_slice(Class::Digit))
            } else {
                None
            }
        } else {
            let is_signed = self.ahead_is(1, MINUS) && self.digit_ahead(2);
            if is_signed || self.digit_ahead(1) {
                self.pos += 1;
                if self.ahead_is(0, MINUS) {
                    self.pos += 1;
                }
                Some(self.scan_slice(Class::Digit))
            } else {
                None
            }
        }
    }

    fn read_number(&mut self) -> (r: Shape<Span>)
        requires
            old(self).wf(),
        ensures
            final(self).wf(),
            final(self).bytes == old(self).bytes,
            (r@, final(self).pos as int) == number_token(old(self).src(), old(self).pos as int),
            final(self).is_after_expr_node == old(self).is_after_expr_node,
            final(self).is_after_assignment_lhs_comma == old(self).is_after_assignment_lhs_comma,
    {
        // A unary minus (but not plus) is absorbed into the literal.
        if self.ahead_is(0, MINUS) {
            self.pos += 1;
        }
        let is_hex = self.ahead_is(0, ZERO) && (self.ahead_is(1, LOWER_X) || self.ahead_is(
            1,
            UPPER_X,
        ));
        let class = if is_hex {
            Class::HexDigit
        } else {
            Class::Digit
        };
        if is_hex {
            self.pos += 2;
        }
        let integer = self.scan_slice(class);
        let frac = if self.ahead_is(0, DOT) {
            self.pos += 1;
            Some(self.scan_slice(class))
        } else {
            None
        };
        let exp = self.read_exponent(is_hex);
        Shape::Number { is_hex, int: integer, frac, exp }
    }

    fn read_word(&mut self) -> (r: Shape<Span>)
        requires
            old(self).wf(),
        ensures
            final(self).wf(),
            final(self).bytes == old(self).bytes,
            r@ == Shape::<Piece>::Ident,
            final(self).pos == run_end(old(self).src(), old(self).pos as int, Class::Word),
            final(self).is_after_expr_node == old(self).is_after_expr_node,
            final(self).is_after_assignment_lhs_comma == old(self).is_after_assignment_lhs_comma,
    {
        self.scan_while(Class::Word);
        Shape::Ident
    }

    fn punct_width(&self) -> (r: usize)
        requires
            self.wf(),
            self.pos < self.src().len(),
        ensures
            r == punct_width(self.src(), self.pos as int),
    {
        if self.ahead_is(0, DOT) && self.ahead_is(1, DOT) && self.ahead_is(2, DOT) {
            return 3;
        }
        match self.peek_at(1) {
            Some(b) => if pair(self.bytes[self.pos], b) {
                2
            } else {
                1
            },
            None => 1,
        }
    }

    fn read_punct(&mut self) -> (r: Shape<Span>)
        requires
            old(self).wf(),
            old(self).pos < old(self).src().len(),
        ensures
            final(self).wf(),
            final(self).bytes == old(self).bytes,
            (r@, final(self).pos as int) == punct_token(old(self).src(), old(self).pos as int),
            final(self).is_after_expr_node == old(self).is_after_expr_node,
            final(self).is_after_assignment_lhs_comma == old(self).is_after_assignment_lhs_comma,
    {
        let first = self.bytes[self.pos];
        let width = self.punct_width();
        self.pos += width;
        if width == 3 {
            Shape::Punct
        } else if width == 2 {
            if first == COMMA {
                Shape::CommaOpenBracket
            } else {
                Shape::Punct
            }
        } else {
            single(first)
        }
    }

    fn does_minus_start_number(&self) -> (r: bool)
        requires
            self.wf(),
        ensures
            r == minus_starts_number(self.src(), self.pos as int),
    {
        self.digit_ahead(1) || (self.ahead_is(1, DOT) && self.digit_ahead(2))
    }

    fn skip_ws_at(&self, pos: usize) -> (r: usize)
        requires
            pos <= self.src().len(),
        ensures
            r == run_end(self.src(), pos as int, Class::Space),
    {
        let mut pos = pos;
        let ghost target = run_end(self.src(), pos as int, Class::Space);
        while pos < self.bytes.len() && space(self.bytes[pos])
            invariant
                pos <= self.src().len(),
                run_end(self.src(), pos as int, Class::Space) == target,
            decreases self.bytes@.len() - pos,
        {
            pos += 1;
        }
        pos
    }

    fn is_assignment_lhs_comma(&self, pos: usize) -> (r: bool)
        requires
            pos <= self.src().len(),
        ensures
            r == lhs_comma(self.src(), pos as int),
    {
        let ghost s = self.src();
        let ghost target = lhs_comma(s, pos as int);
        let mut cur = pos;
        loop
            invariant
                s == self.src(),
                cur <= s.len(),
                lhs_comma(s, cur as int) == target,
                target == lhs_comma(self.src(), pos as int),
            decreases s.len() - cur,
        {
            let ghost p0 = cur as int;
            cur = self.skip_ws_at(cur);
            proof {
                lemma_run_end(s, p0, Class::Space);
            }
            let start = cur;
            while cur < self.bytes.len() && word(self.bytes[cur])
                invariant
                    s == self.src(),
                    start <= cur <= s.len(),
                    run_end(s, cur as int, Class::Word) == run_end(s, start as int, Class::Word),
                decreases s.len() - cur,
            {
                cur += 1;
            }
            proof {
                lemma_run_end(s, start as int, Class::Word);
            }
            if cur == start || digit(self.bytes[start]) {
                assert(!lhs_comma(s, p0));
                return false;
            }
            cur = self.skip_ws_at(cur);
            proof {
                lemma_run_end(s, run_end(s, start as int, Class::Word), Class::Space);
            }
            if cur < self.bytes.len() && self.bytes[cur] == EQUALS {
                let next_is_eq = cur + 1 < self.bytes.len() && self.bytes[cur + 1] == EQUALS;
                if !next_is_eq {
                    return true;
                }
                return false;
            } else if cur < self.bytes.len() && self.bytes[cur] == COMMA {
                cur += 1;
            } else {
                assert(!lhs_comma(s, p0));
                return false;
            }
        }
    }

    fn next_token(&mut self) -> (r: Option<RawToken>)
        requires
            old(self).wf(),
        ensures
            final(self).wf(),
            final(self).bytes == old(self).bytes,
            lex_from(
                old(self).src(),
                old(self).pos as int,
                old(self).is_after_expr_node,
                old(self).is_after_assignment_lhs_comma,
            ) == match r {
                None => Seq::<Lexeme>::empty(),
                Some(t) => seq![t@] + lex_from(
                    final(self).src(),
                    final(self).pos as int,
                    final(self).is_after_expr_node,
                    final(self).is_after_assignment_lhs_comma,
                ),
            },
            r is Some ==> old(self).pos < final(self).pos,
            r is None ==> final(self).pos == old(self).src().len(),
            r matches Some(t) ==> {
                &&& final(self).pos == t.end
                &&& final(self).is_after_expr_node == shape_ends_value(
                    t.shape@,
                    old(self).src().subrange(t.start as int, t.end as int),
                )
                &&& final(self).is_after_assignment_lhs_comma == (t.shape@ is Comma && lhs_comma(
                    old(self).src(),
                    t.end as int,
                ))
            },
    {
        let ghost s = self.src();
        let ghost i = self.pos as int;
        proof {
            lemma_trivia_end(s, i);
        }
        self.skip_trivia();
        let b = match self.peek() {
            Some(b) => b,
            None => {
                return None;
            },
        };
        let is_after_assignment_lhs_comma = self.is_after_assignment_lhs_comma;
        let start = self.pos;
        proof {
            lemma_scan(s, start as int, self.is_after_expr_node);
        }
        let shape = if b == QUOTE || b == APOSTROPHE {
            self.read_string(b)
        } else if digit(b) {
            self.read_number()
        } else if b == DOT && self.digit_ahead(1) {
            self.read_number()
        } else if b == MINUS && !self.is_after_expr_node && self.does_minus_start_number() {
            self.read_number()
        } else if alpha(b) || b == UNDERSCORE {
            self.read_word()
        } else {
            self.read_punct()
        };
        let token = RawToken {
            start,
            end: self.pos,
            shape,
            after_lhs_comma: is_after_assignment_lhs_comma,
        };
        self.is_after_expr_node = does_token_end_value(self.bytes, &token);
        let is_comma = match token.shape {
            Shape::Comma => true,
            _ => false,
        };
        self.is_after_assignment_lhs_comma = is_comma && self.is_assignment_lhs_comma(self.pos);
        Some(token)
    }
}

/// Whether `a` and `b` form a two-byte punctuator.
fn pair(a: u8, b: u8) -> (r: bool)
    ensures
        r == is_pair(a, b),
{
    (a == EQUALS && b == EQUALS) || (a == TILDE && b == EQUALS) || (a == LESS && b == EQUALS) || (a
        == GREATER && b == EQUALS) || (a == DOT && b == DOT) || (a == COLON && b == COLON) || (a
        == LESS && b == LESS) || (a == GREATER && b == GREATER) || (a == SLASH && b == SLASH) || (a
        == COMMA && b == OPEN_BRACKET)
}

/// The shape of a one-byte punctuator.
fn single(b: u8) -> (r: Shape<Span>)
    ensures
        r@ == single_shape(b),
{
    if b == CLOSE_PAREN || b == CLOSE_BRACKET || b == CLOSE_BRACE {
        Shape::ClosingBracket
    } else if b == OPEN_BRACE {
        Shape::OpenBrace
    } else if b == OPEN_BRACKET {
        Shape::OpenBracket
    } else if b == COMMA {
        Shape::Comma
    } else if b == SEMICOLON {
        Shape::Semicolon
    } else if b == OPEN_PAREN || b == PLUS || b == MINUS || b == STAR || b == SLASH || b == PERCENT
        || b == CARET || b == HASH || b == AMPERSAND || b == TILDE || b == BAR || b == LESS || b
        == GREATER || b == EQUALS || b == COLON || b == DOT {
        Shape::Punct
    } else {
        Shape::Unknown
    }
}

/// Whether `bytes[lo..hi]` spells `w`.
fn spells(bytes: &[u8], lo: usize, hi: usize, w: &[u8]) -> (r: bool)
    requires
        lo <= hi <= bytes@.len(),
    ensures
        r == (bytes@.subrange(lo as int, hi as int) == w@),
{
    if hi - lo != w.len() {
        return false;
    }
    let mut k: usize = 0;
    while k < w.len()
        invariant
            lo <= hi <= bytes@.len(),
            hi - lo == w@.len(),
            k <= w@.len(),
            forall|j: int| 0 <= j < k ==> bytes@[lo + j] == w@[j],
        decreases w@.len() - k,
    {
        if bytes[lo + k] != w[k] {
            assert(bytes@.subrange(lo as int, hi as int)[k as int] != w@[k as int]);
            return false;
        }
        k += 1;
    }
    assert(bytes@.subrange(lo as int, hi as int) =~= w@);
    true
}

/// Whether the word `bytes[lo..hi]` ends a value: every word but a keyword does.
fn does_word_end_value(bytes: &[u8], lo: usize, hi: usize) -> (r: bool)
    requires
        lo <= hi <= bytes@.len(),
    ensures
        r == !is_keyword(bytes@.subrange(lo as int, hi as int)),
{
    let is_kw = spells(bytes, lo, hi, &[0x61u8, 0x6eu8, 0x64u8]) || spells(
        bytes,
        lo,
        hi,
        &[0x6fu8, 0x72u8],
    ) || spells(bytes, lo, hi, &[0x6eu8, 0x6fu8, 0x74u8]) || spells(
        bytes,
        lo,
        hi,
        &[0x69u8, 0x66u8],
    ) || spells(bytes, lo, hi, &[0x65u8, 0x6cu8, 0x73u8, 0x65u8, 0x69u8, 0x66u8]) || spells(
        bytes,
        lo,
        hi,
        &[0x65u8, 0x6cu8, 0x73u8, 0x65u8],
    ) || spells(bytes, lo, hi, &[0x74u8, 0x68u8, 0x65u8, 0x6eu8]) || spells(
        bytes,
        lo,
        hi,
        &[0x64u8, 0x6fu8],
    ) || spells(bytes, lo, hi, &[0x77u8, 0x68u8, 0x69u8, 0x6cu8, 0x65u8]) || spells(
        bytes,
        lo,
        hi,
        &[0x72u8, 0x65u8, 0x70u8, 0x65u8, 0x61u8, 0x74u8],
    ) || spells(bytes, lo, hi, &[0x75u8, 0x6eu8, 0x74u8, 0x69u8, 0x6cu8]) || spells(
        bytes,
        lo,
        hi,
        &[0x66u8, 0x6fu8, 0x72u8],
    ) || spells(bytes, lo, hi, &[0x69u8, 0x6eu8]) || spells(
        bytes,
        lo,
        hi,
        &[0x72u8, 0x65u8, 0x74u8, 0x75u8, 0x72u8, 0x6eu8],
    ) || spells(bytes, lo, hi, &[0x66u8, 0x75u8, 0x6eu8, 0x63u8, 0x74u8, 0x69u8, 0x6fu8, 0x6eu8])
        || spells(bytes, lo, hi, &[0x6cu8, 0x6fu8, 0x63u8, 0x61u8, 0x6cu8]) || spells(
        bytes,
        lo,
        hi,
        &[0x67u8, 0x6fu8, 0x74u8, 0x6fu8],
    ) || spells(bytes, lo, hi, &[0x62u8, 0x72u8, 0x65u8, 0x61u8, 0x6bu8]);
    !is_kw
}

/// Whether a token ends a value, so that a `-` after it is subtraction.
fn does_token_end_value(bytes: &[u8], token: &RawToken) -> (r: bool)
    requires
        token.start <= token.end <= bytes@.len(),
    ensures
        r == shape_ends_value(token.shape@, bytes@.subrange(token.start as int, token.end as int)),
{
    match token.shape {
        Shape::Str(_) | Shape::Number { .. } | Shape::ClosingBracket => true,
        Shape::Ident => does_word_end_value(bytes, token.start, token.end),
        // Replicube quirk: `[` and `,[` are (buggily) treated as ending a value, so a following `-` lexes as subtraction rather than a sign; e.g. `[-5]` costs `[`, `-`, `5` separately.
        Shape::OpenBracket | Shape::CommaOpenBracket => true,
        Shape::Punct | Shape::OpenBrace | Shape::Comma | Shape::Semicolon | Shape::Unknown => false,
    }
}

/// The tokens of the source bytes `bytes`, as the grammar reads them.
pub fn lex_bytes(bytes: &[u8]) -> (r: Vec<RawToken>)
    ensures
        r@.map_values(|t: RawToken| t@) == lex(bytes@),
{
    let mut lexer = Lexer::new(bytes);
    let mut tokens: Vec<RawToken> = Vec::new();
    loop
        invariant
            lexer.wf(),
            lexer.bytes@ == bytes@,
            lex(bytes@) == tokens@.map_values(|t: RawToken| t@) + lex_from(
                bytes@,
                lexer.pos as int,
                lexer.is_after_expr_node,
                lexer.is_after_assignment_lhs_comma,
            ),
        decreases bytes@.len() - lexer.pos,
    {
        match lexer.next_token() {
            Some(t) => {
                let ghost before = tokens@.map_values(|t: RawToken| t@);
                tokens.push(t);
                assert(tokens@.map_values(|t: RawToken| t@) =~= before.push(t@));
            },
            None => {
                assert(tokens@.map_values(|t: RawToken| t@) + Seq::<Lexeme>::empty()
                    =~= tokens@.map_values(|t: RawToken| t@));
                return tokens;
            },
        }
    }
}

} // verus!

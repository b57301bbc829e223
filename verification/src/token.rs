//! Tokens and what each costs.
use vstd::prelude::*;
use vstd::string::*;
use vstd::arithmetic::power2::{lemma_pow2_unfold, lemma_pow2_strictly_increases, pow2};
use vstd::bits::{lemma_usize_pow2_no_overflow, lemma_usize_shl_is_mul};
use crate::bytes::{digit, hex_digit, is_digit, is_hex_digit};
use crate::grammar::Shape;

verus! {

broadcast use vstd::slice::axiom_spec_len;

/// A token: its source text, whether it directly follows a comma of an
/// assignment's left-hand side, and what kind of token it is.
#[derive(Debug, Clone, Copy)]
pub struct Token<'a> {
    pub text: &'a str,
    pub is_after_assignment_lhs_comma: bool,
    pub kind: TokenKind<'a>,
}

#[derive(Debug, Clone, Copy)]
pub enum TokenKind<'a> {
    /// A string literal, with its content between the quotes.
    Str(&'a str),
    /// A numeric literal: whether it is hexadecimal, its integer digits, and the
    /// digits of its fraction and exponent where it has them.
    Number { is_hex: bool, int: &'a str, frac: Option<&'a str>, exp: Option<&'a str> },
    Ident,
    ClosingBracket,
    Punct,
    OpenBrace,
    OpenBracket,
    CommaOpenBracket,
    Comma,
    Semicolon,
    Unknown,
}

/// A token as bytes: its text, its shape with the bytes of its parts, and
/// whether it follows a comma of an assignment's left-hand side.
pub struct TokenView {
    pub text: Seq<u8>,
    pub shape: Shape<Seq<u8>>,
    pub after_lhs_comma: bool,
}

pub open spec fn opt_bytes(o: Option<&str>) -> Option<Seq<u8>> {
    match o {
        Some(s) => Some(s.spec_bytes()),
        None => None,
    }
}

impl<'a> View for TokenKind<'a> {
    type V = Shape<Seq<u8>>;

    open spec fn view(&self) -> Shape<Seq<u8>> {
        match *self {
            TokenKind::Str(c) => Shape::Str(c.spec_bytes()),
            TokenKind::Number { is_hex, int: integer, frac, exp } => Shape::Number {
                is_hex,
                int: integer.spec_bytes(),
                frac: opt_bytes(frac),
                exp: opt_bytes(exp),
            },
            TokenKind::Ident => Shape::Ident,
            TokenKind::ClosingBracket => Shape::ClosingBracket,
            TokenKind::Punct => Shape::Punct,
            TokenKind::OpenBrace => Shape::OpenBrace,
            TokenKind::OpenBracket => Shape::OpenBracket,
            TokenKind::CommaOpenBracket => Shape::CommaOpenBracket,
            TokenKind::Comma => Shape::Comma,
            TokenKind::Semicolon => Shape::Semicolon,
            TokenKind::Unknown => Shape::Unknown,
        }
    }
}

impl<'a> View for Token<'a> {
    type V = TokenView;

    open spec fn view(&self) -> TokenView {
        TokenView {
            text: self.text.spec_bytes(),
            shape: self.kind@,
            after_lhs_comma: self.is_after_assignment_lhs_comma,
        }
    }
}

/// The value of a digit of radix 10 or 16.
pub open spec fn digit_value(b: u8) -> nat {
    if is_digit(b) {
        (b - 0x30u8) as nat
    } else if 0x41u8 <= b <= 0x46u8 {
        (b - 0x41u8 + 10) as nat
    } else if 0x61u8 <= b <= 0x66u8 {
        (b - 0x61u8 + 10) as nat
    } else {
        0
    }
}

/// Whether `b` is a digit of `radix` (10 or 16).
pub open spec fn is_radix_digit(b: u8, radix: nat) -> bool {
    if radix == 16 {
        is_hex_digit(b)
    } else {
        is_digit(b)
    }
}

/// The value of the digits `d` in `radix`, most significant first.
pub open spec fn digits_value(d: Seq<u8>, radix: nat) -> nat
    decreases d.len(),
{
    if d.len() == 0 {
        0
    } else {
        digits_value(d.drop_last(), radix) * radix + digit_value(d.last())
    }
}

/// The `u64` that the bare digits `d` spell in `radix`: `None` where there are
/// no digits, where a byte is not a digit of `radix`, or where the value does
/// not fit in a `u64`.
pub open spec fn parse_unsigned(d: Seq<u8>, radix: nat) -> Option<nat> {
    if d.len() > 0 && (forall|i: int| 0 <= i < d.len() ==> is_radix_digit(#[trigger] d[i], radix))
        && digits_value(d, radix) <= u64::MAX {
        Some(digits_value(d, radix))
    } else {
        None
    }
}

/// The `u64` that `d` spells in `radix`, as `u64::from_str_radix` reads it:
/// digits after at most one leading `+`.
pub open spec fn parse_digits(d: Seq<u8>, radix: nat) -> Option<nat> {
    if d.len() > 0 && d[0] == 0x2Bu8 {
        parse_unsigned(d.drop_first(), radix)
    } else {
        parse_unsigned(d, radix)
    }
}

/// Like `parse_digits`, with no digits read as zero.
pub open spec fn parse_value_spec(d: Seq<u8>, radix: nat) -> Option<nat> {
    if d.len() == 0 {
        Some(0)
    } else {
        parse_digits(d, radix)
    }
}

/// The exponent of the highest bit set in `m`.
pub open spec fn floor_log2(m: nat) -> nat
    decreases m,
{
    if m < 2 {
        0
    } else {
        1 + floor_log2(m / 2)
    }
}

pub open spec fn min(a: int, b: int) -> int {
    if a <= b {
        a
    } else {
        b
    }
}

/// The cost of the value `m * 2^e`: 1 for 0 and 1, else 2 to the power of a
/// quarter of the index of its top bit (counting an exact power of two one
/// lower), capped at 2^15.
pub open spec fn shifted_cost_spec(m: nat, e: nat) -> nat {
    if m == 0 || (m == 1 && e == 0) {
        1
    } else {
        let top: int = floor_log2(m) + e - (if pow2(floor_log2(m)) == m {
            1int
        } else {
            0int
        });
        pow2(min(top / 4, 15) as nat)
    }
}

/// The cost of the digits `d`, or `None` where they do not parse.
pub open spec fn digits_cost_spec(d: Seq<u8>, radix: nat) -> Option<nat> {
    match parse_digits(d, radix) {
        Some(v) => Some(shifted_cost_spec(v, 0)),
        None => None,
    }
}

pub open spec fn cost_or(c: Option<nat>, fallback: nat) -> nat {
    match c {
        Some(v) => v,
        None => fallback,
    }
}

/// The cost of a hexadecimal number: that of its integer digits and of its
/// fraction digits scaled by the exponent, each read as `m * 2^e`. It is
/// undetermined where the digits overflow a `u64`; an exponent that overflows
/// one counts as `u64::MAX`.
pub open spec fn hex_cost_spec(integer: Seq<u8>, frac: Option<Seq<u8>>, exp: Option<Seq<u8>>) -> Option<nat> {
    let e = match exp {
        Some(x) => cost_or(parse_value_spec(x, 10), u64::MAX as nat),
        None => 0,
    };
    match frac {
        Some(f) => match (parse_value_spec(integer, 16), parse_value_spec(f, 16)) {
            (Some(i), Some(fv)) => Some(shifted_cost_spec(i, 0) + shifted_cost_spec(fv, e)),
            _ => None,
        },
        None => match parse_value_spec(integer, 16) {
            Some(i) => Some(shifted_cost_spec(i, e)),
            None => None,
        },
    }
}

/// The cost of a decimal number: the sum of the costs of its integer, fraction
/// and exponent digits, where digits that do not parse cost 0, or 1 in a
/// fraction.
pub open spec fn decimal_cost_spec(integer: Seq<u8>, frac: Option<Seq<u8>>, exp: Option<Seq<u8>>) -> nat {
    let int_cost = cost_or(digits_cost_spec(integer, 10), 0);
    let frac_cost = match frac {
        Some(f) => cost_or(digits_cost_spec(f, 10), 1),
        None => 0,
    };
    let exp_cost = match exp {
        Some(x) => cost_or(digits_cost_spec(x, 10), 0),
        None => 0,
    };
    int_cost + frac_cost + exp_cost
}

/// The cost of a token, or `None` where it is undetermined.
pub open spec fn cost_spec(t: TokenView) -> Option<nat> {
    match t.shape {
        Shape::Unknown | Shape::Semicolon => None,
        Shape::Str(content) => Some(pow2(min((content.len() / 2) as int, 15) as nat)),
        Shape::Number { is_hex, int: integer, frac, exp } => if is_hex {
            hex_cost_spec(integer, frac, exp)
        } else {
            Some(decimal_cost_spec(integer, frac, exp))
        },
        Shape::Ident => Some(
            if t.after_lhs_comma {
                pow2(t.text.len() / 2)
            } else {
                1
            },
        ),
        Shape::ClosingBracket => Some(0),
        _ => Some(1),
    }
}

/// Whether computing the cost of `t` stays within the machine: only the cost
/// of a name after an assignment's left-hand comma can outgrow a `usize`.
pub open spec fn cost_fits(t: TokenView) -> bool {
    t.shape is Ident && t.after_lhs_comma ==> t.text.len() / 2 < usize::BITS
}

/// A token's cost is undetermined exactly for an unrecognized byte, a `;`,
/// and a hexadecimal number whose integer or fraction digits do not fit in a
/// `u64` (or are not hexadecimal digits).
pub proof fn law_undetermined_cost(t: TokenView)
    ensures
        cost_spec(t) is None <==> {
            ||| t.shape is Unknown
            ||| t.shape is Semicolon
            ||| t.shape matches Shape::Number { is_hex, int: integer, frac, .. } && is_hex && (
            parse_value_spec(integer, 16) is None || (frac matches Some(f) && parse_value_spec(
                f,
                16,
            ) is None))
        },
{
}

/// A string literal costs 2 to the power of half its content's length in
/// bytes (escapes counted as written), at most 2^15; a closing bracket costs
/// nothing, other punctuation 1, and a name 1 unless it follows a comma of an
/// assignment's left-hand side, where it costs 2 to the power of half its length.
pub proof fn law_simple_costs(t: TokenView)
    ensures
        t.shape matches Shape::Str(c) ==> cost_spec(t) == Some(
            pow2(min((c.len() / 2) as int, 15) as nat),
        ),
        t.shape is ClosingBracket ==> cost_spec(t) == Some(0nat),
        (t.shape is Punct || t.shape is OpenBrace || t.shape is OpenBracket
            || t.shape is CommaOpenBracket || t.shape is Comma) ==> cost_spec(t) == Some(1nat),
        t.shape is Ident && !t.after_lhs_comma ==> cost_spec(t) == Some(1nat),
        t.shape is Ident && t.after_lhs_comma ==> cost_spec(t) == Some(pow2(t.text.len() / 2)),
{
}

impl Token<'_> {
    /// Token cost, or `None` when the cost is undetermined (unrecognized input).
    pub fn cost(&self) -> (r: Option<usize>)
        requires
            cost_fits(self@),
        ensures
            match cost_spec(self@) {
                Some(c) => r == Some(c as usize) && c <= usize::MAX,
                None => r is None,
            },
    {
        match &self.kind {
            TokenKind::Unknown | TokenKind::Semicolon => None,
            // Escapes are counted as raw source bytes, not decoded.
            TokenKind::Str(content) => {
                let half = content.as_bytes().len() / 2;
                Some(pow2_usize(if half < 15 {
                    half
                } else {
                    15
                }))
            },
            TokenKind::Number { is_hex: true, int: integer, frac, exp } => hex_cost(integer, *frac, *exp),
            TokenKind::Number { is_hex: false, int: integer, frac, exp } => Some(
                decimal_cost(integer, *frac, *exp),
            ),
            TokenKind::Ident => {
                Some(
                    if self.is_after_assignment_lhs_comma {
                        pow2_usize(self.text.as_bytes().len() / 2)
                    } else {
                        1
                    },
                )
            },
            TokenKind::ClosingBracket => Some(0),
            // An open brace (table constructor) costs the same as other opening punctuation.
            TokenKind::OpenBrace | TokenKind::Punct | TokenKind::OpenBracket
            | TokenKind::CommaOpenBracket | TokenKind::Comma => Some(1),
        }
    }
}

fn hex_cost(integer: &str, frac: Option<&str>, exp: Option<&str>) -> (r: Option<usize>)
    ensures
        match hex_cost_spec(integer.spec_bytes(), opt_bytes(frac), opt_bytes(exp)) {
            Some(c) => r == Some(c as usize) && c <= 0x10000,
            None => r is None,
        },
{
    let e = match exp {
        Some(s) => match parse_value(s, 10) {
            Some(v) => v,
            None => u64::MAX,
        },
        None => 0,
    };
    match frac {
        Some(f) => match (parse_value(integer, 16), parse_value(f, 16)) {
            (Some(i), Some(f)) => Some(shifted_cost(i, 0) + shifted_cost(f, e)),
            _ => None,
        },
        None => match parse_value(integer, 16) {
            Some(i) => Some(shifted_cost(i, e)),
            None => None,
        },
    }
}

fn decimal_cost(integer: &str, frac: Option<&str>, exp: Option<&str>) -> (r: usize)
    ensures
        r == decimal_cost_spec(integer.spec_bytes(), opt_bytes(frac), opt_bytes(exp)),
{
    let int_cost = match digits_cost(integer, 10) {
        Some(c) => c,
        None => 0,
    };
    let frac_cost = match frac {
        Some(f) => match digits_cost(f, 10) {
            Some(c) => c,
            None => 1,
        },
        None => 0,
    };
    let exp_cost = match exp {
        Some(s) => match digits_cost(s, 10) {
            Some(c) => c,
            None => 0,
        },
        None => 0,
    };
    int_cost + frac_cost + exp_cost
}

/// `2^k` as a `usize`.
fn pow2_usize(k: usize) -> (r: usize)
    requires
        k < usize::BITS,
    ensures
        r == pow2(k as nat),
{
    proof {
        lemma_usize_pow2_no_overflow(k as nat);
        lemma_usize_shl_is_mul(1, k);
    }
    1usize << k
}

/// The value of the digit `b`, if it is one of `radix` (10 or 16).
fn radix_digit(b: u8, radix: u32) -> (r: Option<u64>)
    ensures
        match r {
            Some(v) => is_radix_digit(b, radix as nat) && v == digit_value(b),
            None => !is_radix_digit(b, radix as nat),
        },
{
    let ok = if radix == 16 {
        hex_digit(b)
    } else {
        digit(b)
    };
    if !ok {
        None
    } else if digit(b) {
        Some((b - 0x30u8) as u64)
    } else if 0x41u8 <= b && b <= 0x46u8 {
        Some((b - 0x41u8 + 10) as u64)
    } else {
        Some((b - 0x61u8 + 10) as u64)
    }
}

/// Appending digits never lowers the value.
proof fn lemma_digits_value_grows(d: Seq<u8>, k: int, radix: nat)
    requires
        0 <= k <= d.len(),
        radix >= 1,
    ensures
        digits_value(d.take(k), radix) <= digits_value(d, radix),
    decreases d.len() - k,
{
    if k < d.len() {
        lemma_digits_value_grows(d, k + 1, radix);
        assert(d.take(k + 1).drop_last() =~= d.take(k));
        let v = digits_value(d.take(k), radix);
        assert(v <= v * radix) by (nonlinear_arith)
            requires
                radix >= 1,
        ;
    } else {
        assert(d.take(k) =~= d);
    }
}

/// The number that the bare digits `b[from..]` spell in `radix` (10 or 16), or
/// `None` where there are none, a byte is not a digit of `radix`, or the value
/// overflows a `u64`.
fn parse_unsigned_exec(b: &[u8], from: usize, radix: u32) -> (r: Option<u64>)
    requires
        radix == 10 || radix == 16,
        from <= b@.len(),
    ensures
        match parse_unsigned(b@.subrange(from as int, b@.len() as int), radix as nat) {
            Some(v) => r == Some(v as u64),
            None => r is None,
        },
{
    let ghost d = b@.subrange(from as int, b@.len() as int);
    if from == b.len() {
        return None;
    }
    let mut v: u64 = 0;
    let mut k: usize = 0;
    while k < b.len() - from
        invariant
            d == b@.subrange(from as int, b@.len() as int),
            from <= b@.len(),
            radix == 10 || radix == 16,
            k <= d.len(),
            v == digits_value(d.take(k as int), radix as nat),
            forall|i: int| 0 <= i < k ==> is_radix_digit(#[trigger] d[i], radix as nat),
        decreases d.len() - k,
    {
        assert(d.take(k + 1).drop_last() =~= d.take(k as int));
        assert(d.take(k + 1).last() == d[k as int]);
        assert(d[k as int] == b@[from + k]);
        let dv = match radix_digit(b[from + k], radix) {
            Some(x) => x,
            None => {
                assert(!is_radix_digit(d[k as int], radix as nat));
                return None;
            },
        };
        let next = match v.checked_mul(radix as u64) {
            Some(m) => m.checked_add(dv),
            None => None,
        };
        match next {
            Some(n) => {
                v = n;
            },
            None => {
                proof {
                    lemma_digits_value_grows(d, k + 1, radix as nat);
                    let w = digits_value(d.take(k as int), radix as nat);
                    assert(w * radix + dv > u64::MAX) by (nonlinear_arith)
                        requires
                            w * radix > u64::MAX || w * radix + dv > u64::MAX,
                    ;
                }
                return None;
            },
        }
        k += 1;
    }
    assert(d.take(d.len() as int) =~= d);
    Some(v)
}

/// The number that `digits` spells in `radix` (10 or 16), as
/// `u64::from_str_radix` reads it: digits after at most one leading `+`, or
/// `None` where there are no digits, a byte is not a digit of `radix`, or the
/// value overflows a `u64`.
fn parse_digits_exec(digits: &str, radix: u32) -> (r: Option<u64>)
    requires
        radix == 10 || radix == 16,
    ensures
        match parse_digits(digits.spec_bytes(), radix as nat) {
            Some(v) => r == Some(v as u64),
            None => r is None,
        },
{
    let b = digits.as_bytes();
    let from: usize = if b.len() > 0 && b[0] == 0x2Bu8 {
        1
    } else {
        0
    };
    proof {
        assert(b@.subrange(0, b@.len() as int) =~= b@);
        if from == 1 {
            assert(b@.subrange(1, b@.len() as int) =~= b@.drop_first());
        }
    }
    parse_unsigned_exec(b, from, radix)
}

/// The value of `digits` in `radix`, with no digits read as zero.
fn parse_value(digits: &str, radix: u32) -> (r: Option<u64>)
    requires
        radix == 10 || radix == 16,
    ensures
        match parse_value_spec(digits.spec_bytes(), radix as nat) {
            Some(v) => r == Some(v as u64),
            None => r is None,
        },
{
    if digits.as_bytes().len() == 0 {
        Some(0)
    } else {
        parse_digits_exec(digits, radix)
    }
}

fn digits_cost(digits: &str, radix: u32) -> (r: Option<usize>)
    requires
        radix == 10 || radix == 16,
    ensures
        match digits_cost_spec(digits.spec_bytes(), radix as nat) {
            Some(c) => r == Some(c as usize) && c <= 0x8000,
            None => r is None,
        },
{
    match parse_digits_exec(digits, radix) {
        Some(v) => Some(shifted_cost(v, 0)),
        None => None,
    }
}

/// The band of the value `m * 2^e` in steps of four bits: 0 up to 16, then
/// `j` for values above `16^j` and up to `16^(j+1)`.
pub open spec fn cost_band(m: nat, e: nat) -> nat {
    if m == 0 || (m == 1 && e == 0) {
        0
    } else {
        let top: int = floor_log2(m) + e - (if pow2(floor_log2(m)) == m {
            1int
        } else {
            0int
        });
        (top / 4) as nat
    }
}

/// `2^a <= 2^b` where `a <= b`.
proof fn lemma_pow2_le(a: nat, b: nat)
    requires
        a <= b,
    ensures
        pow2(a) <= pow2(b),
{
    if a < b {
        lemma_pow2_strictly_increases(a, b);
    }
}

/// `2^fl <= m < 2^(fl + 1)` for the floor log `fl` of a positive `m`.
proof fn lemma_floor_log2_bounds(m: nat)
    requires
        m >= 1,
    ensures
        pow2(floor_log2(m)) <= m < pow2(floor_log2(m) + 1),
    decreases m,
{
    vstd::arithmetic::power2::lemma2_to64();
    lemma_pow2_unfold(floor_log2(m) + 1);
    if m >= 2 {
        lemma_floor_log2_bounds(m / 2);
        lemma_pow2_unfold(floor_log2(m / 2) + 1);
    }
}

/// The value `m * 2^e` lies in band `cost_band(m, e)`, and its cost is 2 to the
/// power of that band, at most 2^15.
pub proof fn law_cost_band(m: nat, e: nat)
    ensures
        m * pow2(e) <= pow2(4 * (cost_band(m, e) + 1)),
        cost_band(m, e) == 0 || m * pow2(e) > pow2(4 * cost_band(m, e)),
        shifted_cost_spec(m, e) == pow2(min(cost_band(m, e) as int, 15) as nat),
{
    vstd::arithmetic::power2::lemma2_to64();
    vstd::arithmetic::power2::lemma_pow2_pos(e);
    let v = m * pow2(e);
    let j = cost_band(m, e);
    if m == 0 {
        assert(v == 0);
    } else if m == 1 && e == 0 {
        assert(v == 1);
    } else {
        let fl = floor_log2(m);
        lemma_floor_log2_bounds(m);
        vstd::arithmetic::power2::lemma_pow2_adds(fl, e);
        vstd::arithmetic::power2::lemma_pow2_adds(fl + 1, e);
        let lo = pow2(fl);
        let hi = pow2(fl + 1);
        let pe = pow2(e);
        assert(lo * pe <= m * pe < hi * pe) by (nonlinear_arith)
            requires
                lo <= m < hi,
                pe > 0,
        ;
        if lo == m {
            // `v` is exactly `2^(top + 1)`.
            assert(fl + e >= 1);
            let top = (fl + e - 1) as nat;
            assert(j == top / 4);
            assert(v == pow2(top + 1));
            lemma_pow2_le(top + 1, 4 * (j + 1));
            if j > 0 {
                lemma_pow2_strictly_increases(4 * j, top + 1);
            }
        } else {
            assert(lo * pe < m * pe) by (nonlinear_arith)
                requires
                    lo < m,
                    pe > 0,
            ;
            let top = fl + e;
            assert(j == top / 4);
            assert(pow2(top) < v < pow2(top + 1));
            lemma_pow2_le(top + 1, 4 * (j + 1));
            if j > 0 {
                lemma_pow2_le(4 * j, top);
            }
        }
    }
}

/// The band is the least `j` with `m * 2^e <= 16^(j+1)`: any `j` that bounds
/// the value while `j - 1` does not is it, so the cost is `2^min(j, 15)`.
pub proof fn law_cost_band_least(m: nat, e: nat, j: nat)
    requires
        m * pow2(e) <= pow2(4 * (j + 1)),
        j == 0 || m * pow2(e) > pow2(4 * j),
    ensures
        j == cost_band(m, e),
        shifted_cost_spec(m, e) == pow2(min(j as int, 15) as nat),
{
    law_cost_band(m, e);
    let b = cost_band(m, e);
    if j < b {
        lemma_pow2_le(4 * (j + 1), 4 * b);
    } else if j > b {
        lemma_pow2_le(4 * (b + 1), 4 * j);
    }
}

/// The cost of `m * 2^e` never falls as the value grows.
pub proof fn law_shifted_cost_monotone(m1: nat, e1: nat, m2: nat, e2: nat)
    requires
        m1 * pow2(e1) <= m2 * pow2(e2),
    ensures
        shifted_cost_spec(m1, e1) <= shifted_cost_spec(m2, e2),
{
    law_cost_band(m1, e1);
    law_cost_band(m2, e2);
    let j1 = cost_band(m1, e1);
    let j2 = cost_band(m2, e2);
    if j1 > j2 {
        lemma_pow2_le(4 * (j2 + 1), 4 * j1);
    }
    lemma_pow2_le(min(j1 as int, 15) as nat, min(j2 as int, 15) as nat);
}

/// `floor_log2` is the exponent of the power of two at or just below `m`.
proof fn lemma_floor_log2(m: nat, k: nat)
    requires
        pow2(k) <= m < 2 * pow2(k),
    ensures
        floor_log2(m) == k,
    decreases k,
{
    if k == 0 {
        vstd::arithmetic::power2::lemma2_to64();
    } else {
        lemma_pow2_unfold(k);
        lemma_floor_log2(m / 2, (k - 1) as nat);
    }
}

// Cost of the value `m * 2^e`.
fn shifted_cost(m: u64, e: u64) -> (r: usize)
    ensures
        r == shifted_cost_spec(m as nat, e as nat),
        r <= 0x8000,
{
    if m == 0 || (m == 1 && e == 0) {
        return 1;
    }
    // The highest power of two at or below `m`, and its exponent.
    let mut p: u64 = 1;
    let mut lg: u64 = 0;
    proof {
        vstd::arithmetic::power2::lemma2_to64();
    }
    while p <= m / 2
        invariant
            1 <= p <= m,
            p == pow2(lg as nat),
            lg < 64,
        decreases m - p,
    {
        proof {
            lemma_pow2_unfold((lg + 1) as nat);
            if lg + 1 >= 64 {
                lemma_pow2_strictly_increases(63, (lg + 1) as nat);
                vstd::arithmetic::power2::lemma2_to64();
                vstd::arithmetic::power2::lemma2_to64_rest();
            }
        }
        p = p * 2;
        lg = lg + 1;
    }
    proof {
        lemma_floor_log2(m as nat, lg as nat);
    }
    let log2 = lg.saturating_add(e);
    let top_bit = log2 - if p == m {
        1
    } else {
        0
    };
    let quarter = top_bit / 4;
    let k = if quarter < 15 {
        quarter
    } else {
        15
    };
    proof {
        vstd::arithmetic::power2::lemma2_to64();
    }
    pow2_usize(k as usize)
}

} // verus!
